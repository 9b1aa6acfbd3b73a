use lib::mime::{boundary_from, delimiter_at, headers, media_type, opening_boundary, parameter, read, Part};

#[test]
fn a_parameter_is_found_by_name_regardless_of_case_and_unquoted() {
    assert_eq!(parameter("a/b; x=\"1\"; Y=2", "y"), Some("2"));
    assert_eq!(parameter("a/b; x=\"1\"; Y=2", "x"), Some("1"));
    assert_eq!(
        parameter("multipart/report; Boundary = \"q r\"", "boundary"),
        Some("q r"),
        "a boundary parameter with space round its equals sign and any case"
    );
    assert_eq!(parameter("a/b; x=\"1", "x"), Some("\"1"));
    assert_eq!(parameter("a/b; x", "x"), None);
    assert_eq!(parameter("x=1", "x"), None);
    assert_eq!(
        media_type(" Multipart/Related ; type=x"),
        "multipart/related"
    );
}

#[test]
fn a_written_body_reads_back_with_every_byte_of_every_part() {
    let every: Vec<u8> = (0..=255).collect();
    let parts = vec![
        Part::new(b"<Envelope/>".to_vec())
            .header("Content-Type", "application/soap+xml")
            .header("Content-ID", "<root@xmip>"),
        Part::new(every).header("Content-Type", "application/octet-stream"),
        Part::new(Vec::new()).header("Content-ID", "empty"),
        Part::new(b"\r\n--x\r\n".to_vec()),
    ];
    let boundary = boundary_from(1_790_000_000_123_456_789, 0);
    assert_ne!(boundary, boundary_from(1_790_000_000_123_456_789, 1), "unique");
    let body = lib::mime::write(&boundary, &parts);
    let back = read(&body, &boundary).expect("read");
    assert_eq!(back, parts);
    assert_eq!(back[0].content_id(), Some("root@xmip"));
    assert_eq!(back[2].content_id(), Some("empty"));
    assert_eq!(back[1].content_type(), Some("application/octet-stream"));
}

#[test]
fn a_delimiter_counts_only_at_the_start_of_a_line() {
    let bytes = b"x--b\r\n--b\r\n\r\npayload --b inside\r\n--bx\r\n--b--";
    assert_eq!(delimiter_at(bytes, b"--b", 0), Some(6));
    let parts = read(bytes, "b").expect("cuts");
    assert_eq!(parts.len(), 1);
    assert_eq!(parts[0].body, b"payload --b inside\r\n--bx");
}

#[test]
fn headers_fold_and_a_body_may_be_empty_or_hollow() {
    let bytes = b"preamble\n--b \ncontent-type: A/B;\n\tcharset=x\nCONTENT-ID: <c>\n\n--b--\n";
    let parts = read(bytes, "b").expect("cuts");
    assert_eq!(parts[0].body, b"");
    assert_eq!(parts[0].content_type(), Some("A/B; charset=x"));
    assert_eq!(parts[0].content_id(), Some("c"));
    assert_eq!(opening_boundary(b"--=_Part_1\r\n"), Some("=_Part_1"));
    assert_eq!(opening_boundary(b"--a b\r\n"), None);
    let refused = read(b"no boundary", "b").expect_err("none");
    assert_eq!(refused.reason, "no opening boundary");
    assert!(read(b"--b\r\nContent-Type: x\r\n\r\nnever closes", "b").is_err());
    assert!(read(b"--b\r\nno blank line\r\n--b--", "b").is_err());
}

#[test]
fn each_refusal_names_its_reason_and_where() {
    let never = read(b"--b\r\nContent-Type: x\r\n\r\nnever closes", "b").expect_err("open");
    assert_eq!((never.reason, never.offset), ("no closing boundary", 36));
    let blank = read(b"--b\r\nno blank line\r\n--b--", "b").expect_err("no blank");
    assert_eq!((blank.reason, blank.offset), ("no blank line after the part headers", 5));
    assert_eq!(blank.message(), "no blank line after the part headers at byte 5");
    assert_eq!(read(b"--b--", "b").expect("empty"), Vec::<Part>::new());
}

#[test]
fn headers_are_found_by_name_whatever_the_case() {
    let part = Part::new(Vec::new()).header("Content-ID", "<a>").header("X", "1");
    assert_eq!(part.header_value("content-id"), Some("<a>"));
    assert_eq!(part.content_id(), Some("a"));
    assert_eq!(part.header_value("missing"), None);
    assert_eq!(
        headers("A: 1\r\n  more\r\nnot a header\r\nB:2"),
        vec![("A".to_string(), "1 more".to_string()), ("B".to_string(), "2".to_string())]
    );
    assert_eq!(boundary_from(255, 16), "=_xmip_ff_10");
    assert_eq!(opening_boundary(b"--abc  \r\nrest"), Some("abc"));
    assert_eq!(opening_boundary(b"--abc"), None);
}

#[test]
fn a_made_boundary_is_short_and_of_safe_characters() {
    for (nanos, count) in [(0, 0), (u128::MAX, u64::MAX), (1_790_000_000_123_456_789, 7)] {
        let boundary = boundary_from(nanos, count);
        assert!(!boundary.is_empty() && boundary.len() <= 70);
        assert!(boundary
            .bytes()
            .all(|b| b.is_ascii_alphanumeric() || b"'()+_,-./:=?".contains(&b)));
    }
    assert_eq!(boundary_from(0, 0), "=_xmip_0_0");
}

#[test]
fn made_boundaries_differ_and_open_a_body_as_themselves() {
    let first = boundary_from(1_790_000_000_123_456_789, 0);
    let second = boundary_from(1_790_000_000_123_456_789, 1);
    let later = boundary_from(1_790_000_000_999_999_999, 2);
    assert!(first != second && second != later && first != later);
    for b in [first, second, later] {
        let line = format!("--{b}\r\nrest");
        assert_eq!(opening_boundary(line.as_bytes()), Some(b.as_str()));
    }
}
