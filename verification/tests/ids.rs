use simpa_core::ids::{IdSource, FNV_OFFSET_A, FNV_OFFSET_B, FNV_PRIME};

fn fnv(mut s: u64, bytes: &[u8]) -> u64 {
    for &b in bytes {
        s ^= u64::from(b);
        s = s.wrapping_mul(FNV_PRIME);
    }
    s
}

#[test]
fn the_digest_is_fnv_1a_over_lengths_and_parts() {
    assert_eq!(fnv(FNV_OFFSET_A, b"a"), 0xaf63_dc4c_8601_ec8c);
    let ids = IdSource::from_parts(&[b"mesh import", b"xyz"]);
    let mut a = FNV_OFFSET_A;
    let mut b = FNV_OFFSET_B;
    for p in [&b"mesh import"[..], &b"xyz"[..]] {
        a = fnv(fnv(a, &(p.len() as u64).to_le_bytes()), p);
        b = fnv(fnv(b, &(p.len() as u64).to_le_bytes()), p);
    }
    assert_eq!(ids.digest, [a, b]);
    assert_eq!(IdSource::from_parts(&[]).digest, [FNV_OFFSET_A, FNV_OFFSET_B]);
    // The lengths keep the parts apart.
    assert_ne!(
        IdSource::from_parts(&[b"ab", b"c"]).digest,
        IdSource::from_parts(&[b"a", b"bc"]).digest
    );
}

#[test]
fn ids_depend_on_the_input_kind_and_index_only() {
    let ids = IdSource::from_parts(&[b"room"]);
    let again = IdSource::from_parts(&[b"room"]);
    let bytes = ids.uuid_bytes("face", 3);
    assert_eq!(bytes, again.uuid_bytes("face", 3));
    assert_ne!(bytes, ids.uuid_bytes("face", 4));
    assert_ne!(bytes, ids.uuid_bytes("edge", 3));
    let mut tail = b"face".to_vec();
    tail.extend_from_slice(&3u64.to_le_bytes());
    let mut expect = fnv(ids.digest[0], &tail).to_le_bytes().to_vec();
    expect.extend_from_slice(&fnv(ids.digest[1], &tail).to_le_bytes());
    assert_eq!(bytes.to_vec(), expect);
}

#[test]
fn ids_are_version_4_uuids_of_their_bytes() {
    let ids = IdSource::from_parts(&[b"room"]);
    let bytes = ids.uuid_bytes("face", 0);
    let u = ids.uuid("face", 0);
    assert_eq!(u.get_version_num(), 4);
    assert_eq!(u, ids.uuid("face", 0));
    let got = u.as_bytes();
    for (i, (g, b)) in got.iter().zip(bytes.iter()).enumerate() {
        match i {
            6 => assert_eq!(g & 0x0f, b & 0x0f),
            8 => assert_eq!(g & 0x3f, b & 0x3f),
            _ => assert_eq!(g, b),
        }
    }
    assert_eq!(got[6] >> 4, 4);
    assert_eq!(got[8] >> 6, 2);
}

#[test]
fn v4_bytes_sets_version_and_variant_only() {
    let r = simpa_core::ids::v4_bytes([0xff; 16]);
    assert_eq!(r[6], 0x4f);
    assert_eq!(r[8], 0xbf);
    assert_eq!(r[0], 0xff);
    let r = simpa_core::ids::v4_bytes([0; 16]);
    assert_eq!((r[6], r[8]), (0x40, 0x80));
}
