use simpa_core::zip::{crc32, inflate, Archive};

#[test]
fn crc32_of_the_check_string() {
    assert_eq!(crc32(b"123456789"), 0xCBF4_3926);
}

#[test]
fn inflates_stored_fixed_and_dynamic_blocks() {
    // Stored: final block, type 0, "abc".
    let stored = [0x01, 0x03, 0x00, 0xFC, 0xFF, b'a', b'b', b'c'];
    assert_eq!(inflate(&stored, 3).unwrap(), b"abc");
    assert!(inflate(&stored, 2).is_err());
    // zlib.compress(b"hello hello hello hello", 9)[2:-4]: fixed Huffman with a match.
    let fixed = [0xcb, 0x48, 0xcd, 0xc9, 0xc9, 0x57, 0xc8, 0x40, 0x27, 0x01];
    assert_eq!(inflate(&fixed, 23).unwrap(), b"hello hello hello hello");
    assert!(inflate(&fixed, 22).is_err());
    // Raw deflate at level 9 of 40 numbered lines (zlib, wbits -15): one dynamic block.
    let hex = [
        "95955b56c3300c44ff5985966049b663b31b1e010aa18196d2c2ea795893fff9eeb947d1e87abaecf6b3a46bf9789ae5",
        "fdb4bb7b91dbc37adecbc37a91e7d3ebdb51d6cff9f0fff372f3fd25f7eba3a4abe58f528ed2411947e5413947f54165",
        "f20bebc00a87591958e5308f69131948ecd638ac46909dc35a5c4d4945344112d612c3445214cdb1a13a7bf54854595d",
        "7a5c505961608c56d6344c24a5b1861d496ddc906a67edc67b27cdc930c7487372c644b6625aec68a439c5225523cd29",
        "53dcd148732acc31d29cba4d24cd99b61d4973a62d55b672704727cde930c749733a5c75b673129e87b3a593f0229d6d",
        "1d45097861ab15f6786549549d93faa8a35dbdd17d8e6c4981b4fcfe87fc00",
    ]
    .join("");
    let dynamic: Vec<u8> = (0..hex.len() / 2)
        .map(|i| u8::from_str_radix(&hex[2 * i..2 * i + 2], 16).unwrap())
        .collect();
    assert_eq!((dynamic[0] >> 1) & 3, 2, "the vector is a dynamic block");
    let expected: Vec<u8> = (0..40)
        .flat_map(|i| {
            format!(
                "line {i}: the quick brown fox jumps over the lazy dog {}\n",
                i * i
            )
            .into_bytes()
        })
        .collect();
    let got = inflate(&dynamic, expected.len()).unwrap();
    assert_eq!(got, expected);
    assert_eq!(crc32(&got), 914_363_029);
}

/// A stored zip of one entry `a\b.txt` holding `abc`, as a writer lays it out.
fn one_entry_zip(method: u16, crc: u32) -> Vec<u8> {
    let name = b"a\\b.txt";
    let data = b"abc";
    let mut z = Vec::new();
    // Local header.
    z.extend_from_slice(&0x0403_4b50u32.to_le_bytes());
    z.extend_from_slice(&[20, 0, 0, 0]);
    z.extend_from_slice(&method.to_le_bytes());
    z.extend_from_slice(&[0, 0, 0, 0]);
    z.extend_from_slice(&crc.to_le_bytes());
    z.extend_from_slice(&3u32.to_le_bytes());
    z.extend_from_slice(&3u32.to_le_bytes());
    z.extend_from_slice(&(name.len() as u16).to_le_bytes());
    z.extend_from_slice(&0u16.to_le_bytes());
    z.extend_from_slice(name);
    z.extend_from_slice(data);
    let cd_start = z.len();
    // Central directory record.
    z.extend_from_slice(&0x0201_4b50u32.to_le_bytes());
    z.extend_from_slice(&[20, 0, 20, 0, 0, 0]);
    z.extend_from_slice(&method.to_le_bytes());
    z.extend_from_slice(&[0, 0, 0, 0]);
    z.extend_from_slice(&crc.to_le_bytes());
    z.extend_from_slice(&3u32.to_le_bytes());
    z.extend_from_slice(&3u32.to_le_bytes());
    z.extend_from_slice(&(name.len() as u16).to_le_bytes());
    z.extend_from_slice(&[0, 0, 0, 0, 0, 0, 0, 0, 0, 0, 0, 0]);
    z.extend_from_slice(&0u32.to_le_bytes());
    z.extend_from_slice(name);
    let cd_size = z.len() - cd_start;
    // End of central directory.
    z.extend_from_slice(&0x0605_4b50u32.to_le_bytes());
    z.extend_from_slice(&[0, 0, 0, 0, 1, 0, 1, 0]);
    z.extend_from_slice(&(cd_size as u32).to_le_bytes());
    z.extend_from_slice(&(cd_start as u32).to_le_bytes());
    z.extend_from_slice(&0u16.to_le_bytes());
    z
}

#[test]
fn a_stored_entry_is_found_by_its_slashed_name_and_read() {
    let z = one_entry_zip(0, crc32(b"abc"));
    let a = Archive::parse(&z).unwrap();
    assert_eq!(a.entries().len(), 1);
    assert_eq!(a.entries()[0].name, "a/b.txt");
    assert_eq!(a.read("a/b.txt").unwrap(), b"abc");
    assert_eq!(a.read("missing").unwrap_err().code(), "invalid");
}

#[test]
fn a_wrong_crc_and_an_unknown_method_are_refused() {
    let z = one_entry_zip(0, 1);
    let a = Archive::parse(&z).unwrap();
    assert_eq!(a.read("a/b.txt").unwrap_err().code(), "invalid");
    let z = one_entry_zip(9, crc32(b"abc"));
    let a = Archive::parse(&z).unwrap();
    assert_eq!(a.read("a/b.txt").unwrap_err().code(), "unsupported");
}

#[test]
fn what_is_not_a_zip_is_invalid() {
    assert_eq!(Archive::parse(b"not a zip at all, not at all").unwrap_err().code(), "invalid");
    let mut z = one_entry_zip(0, crc32(b"abc"));
    let n = z.len();
    // A second disk.
    z[n - 18] = 1;
    assert_eq!(Archive::parse(&z).unwrap_err().code(), "unsupported");
}

#[test]
fn a_stored_block_gives_back_its_bytes() {
    let data = [1u8, 3, 0, 252, 255, b'a', b'b', b'c'];
    assert_eq!(inflate(&data, 3).unwrap(), b"abc".to_vec());
    assert!(inflate(&data, 2).is_err());
    let bad = [1u8, 3, 0, 0, 0, b'a', b'b', b'c'];
    assert!(inflate(&bad, 3).is_err());
}

#[test]
fn inflate_limit_bounds_but_never_changes_output() {
    // One stored block, marked last, holding `abc`.
    let data = [0x01u8, 3, 0, 0xFC, 0xFF, b'a', b'b', b'c'];
    assert_eq!(simpa_core::inflate::inflate(&data, 3), Ok(b"abc".to_vec()));
    assert_eq!(simpa_core::inflate::inflate(&data, 100), Ok(b"abc".to_vec()));
    assert!(simpa_core::inflate::inflate(&data, 2).is_err());
}
