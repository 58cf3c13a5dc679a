use simpa_core::proj::{read_finfo, strtol_prefix, to_long, FaceRef};

#[test]
fn to_long_reads_as_wxstring_tolong() {
    for (text, v) in [
        ("3669", Some(3669)),
        (" 12", Some(12)),
        ("+7", Some(7)),
        ("-2147483648", Some(-2_147_483_648)),
        ("2147483647", Some(2_147_483_647)),
        ("2147483648", None),
        ("12 ", None),
        ("1.5", None),
        ("", None),
        ("-", None),
        ("0x10", None),
    ] {
        assert_eq!(to_long(text), v, "{text:?}");
    }
}

#[test]
fn strtol_prefix_reads_as_convertor_toint() {
    for (text, v) in [
        ("2", Some(2)),
        ("2.5", Some(2)),
        (" 6", Some(6)),
        ("-1", Some(-1)),
        ("2abc", Some(2)),
        ("", None),
        ("abc", None),
        ("99999999999", None),
    ] {
        assert_eq!(strtol_prefix(text), v, "{text:?}");
    }
}

#[test]
fn finfo_reads_both_count_widths() {
    let mut win = 2u32.to_le_bytes().to_vec();
    for (g, f) in [(0i32, 5i32), (1, -1)] {
        win.extend_from_slice(&g.to_le_bytes());
        win.extend_from_slice(&f.to_le_bytes());
    }
    let refs = read_finfo(&win).unwrap();
    assert_eq!(refs, [FaceRef { group: 0, face: 5 }, FaceRef { group: 1, face: -1 }]);
    let mut unix = 2u64.to_le_bytes().to_vec();
    unix.extend_from_slice(&win[4..]);
    assert_eq!(read_finfo(&unix).unwrap(), refs);
    // A count that is not the number of entries, and a length of neither layout.
    let mut wrong = win.clone();
    wrong[0] = 3;
    assert_eq!(read_finfo(&wrong).unwrap_err().code(), "invalid");
    assert_eq!(read_finfo(&[0, 0, 0]).unwrap_err().code(), "invalid");
}
