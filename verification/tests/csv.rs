use cpac::domains::parse_csv;
use cpac::error::CpacError;
use cpac::host::{auto_resource_limits, SimdTier};

#[test]
fn parse_simple_csv() {
    let data = b"name,age,city\nAlice,30,NYC\nBob,25,LA\n";
    let (headers, cols) = parse_csv(data).unwrap();
    assert_eq!(headers, vec!["name", "age", "city"]);
    assert_eq!(cols[0], vec!["Alice", "Bob"]);
    assert_eq!(cols[1], vec!["30", "25"]);
    assert_eq!(cols[2], vec!["NYC", "LA"]);
}

#[test]
fn parse_csv_tabs_blank_lines_and_short_rows() {
    let data = b"a\tb\tc\r\n 1 \t2\n\n   \nx\n";
    let (headers, cols) = parse_csv(data).unwrap();
    assert_eq!(headers, vec!["a", "b", "c"]);
    assert_eq!(cols[0], vec!["1", "x"]);
    assert_eq!(cols[1], vec!["2", ""]);
    assert_eq!(cols[2], vec!["", ""]);
}

#[test]
fn parse_csv_pipe_and_unicode() {
    let data = "k|v\nclé|été\n".as_bytes();
    let (headers, cols) = parse_csv(data).unwrap();
    assert_eq!(headers, vec!["k", "v"]);
    assert_eq!(cols[0], vec!["clé"]);
    assert_eq!(cols[1], vec!["été"]);
}

#[test]
fn parse_csv_errors() {
    assert!(matches!(parse_csv(b""), Err(CpacError::Transform(m)) if m == "CSV: empty data"));
    match parse_csv(&[0x61, 0xff, 0x0a]) {
        Err(CpacError::Transform(m)) => assert!(m.starts_with("CSV: invalid UTF-8: ")),
        _ => panic!("expected an error"),
    }
    let (headers, cols) = parse_csv(b"only").unwrap();
    assert_eq!(headers, vec!["only"]);
    assert_eq!(cols, vec![Vec::<String>::new()]);
}

#[test]
fn resource_limits_rule() {
    assert_eq!(auto_resource_limits(0, 512), (1, 256));
    assert_eq!(auto_resource_limits(8, 16384), (8, 4096));
    assert_eq!(auto_resource_limits(64, 1 << 20), (64, 8192));
    assert_eq!(SimdTier::Avx512.label(), "AVX-512");
    assert_eq!(SimdTier::Sse41.label(), "SSE4.1");
}
