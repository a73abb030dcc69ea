use homoglyph_tools::checksum::{compare_hashes, parse_line, read_foldr, ReportEntry};

#[test]
fn fold_xors_little_endian_words() {
    assert_eq!(read_foldr(&[0x01, 0x02, 0x03]), 0x0202);
    assert_eq!(read_foldr(&[0x34, 0x12]), 0x1234);
    assert_eq!(read_foldr(&[]), 0);
    assert_eq!(read_foldr(&[0xff, 0xff, 0xff, 0xff]), 0);
}

#[test]
fn compare_reports_each_kind() {
    let previous = vec![
        ("a".to_string(), 1u16),
        ("b".to_string(), 2u16),
        ("c".to_string(), 3u16),
        ("d".to_string(), 4u16),
    ];
    let current: Vec<(String, Result<u16, String>)> = vec![
        ("a".to_string(), Ok(1)),
        ("b".to_string(), Ok(5)),
        ("d".to_string(), Err("denied".to_string())),
        ("e".to_string(), Ok(7)),
    ];
    let report = compare_hashes(&previous, &current);
    assert_eq!(
        report,
        vec![
            ("a".to_string(), Ok(ReportEntry::Unmodified { now: 1 })),
            ("b".to_string(), Ok(ReportEntry::Modified { was: 2, now: 5 })),
            ("d".to_string(), Err("denied".to_string())),
            ("e".to_string(), Ok(ReportEntry::New)),
            ("c".to_string(), Ok(ReportEntry::Deleted { was: 3 })),
        ]
    );
}

#[test]
fn parse_line_splits_at_last_separator() {
    assert_eq!(parse_line(b"dir/a.txt: 123"), Some((b"dir/a.txt".to_vec(), 123)));
    assert_eq!(parse_line(b"a: b: 7"), Some((b"a: b".to_vec(), 7)));
    assert_eq!(parse_line(b": 0"), Some((Vec::new(), 0)));
    assert_eq!(parse_line(b"x: +5"), Some((b"x".to_vec(), 5)));
    assert_eq!(parse_line(b"x: 65535"), Some((b"x".to_vec(), 65535)));
}

#[test]
fn parse_line_rejects_bad_records() {
    assert_eq!(parse_line(b"x: 65536"), None);
    assert_eq!(parse_line(b"x:5"), None);
    assert_eq!(parse_line(b"x: "), None);
    assert_eq!(parse_line(b"x: +"), None);
    assert_eq!(parse_line(b"x: 12a"), None);
    assert_eq!(parse_line(b"x: -1"), None);
    assert_eq!(parse_line(b""), None);
}
