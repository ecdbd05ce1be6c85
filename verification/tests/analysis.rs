use cpac::bench::{BenchProfile, CorpusManager};
use cpac::cas::{classify_variables, VarClass};
use cpac::config::CpacConfig;
use cpac::domains::{detect_domain, detect_log, detect_yaml, CsvHandler, DomainHint, JsonHandler, LogHandler, XmlHandler, YamlHandler};
use cpac::host::{determine_simd_tier, SimdTier};

#[test]
fn classify_variables_basic() {
    let cols: Vec<(String, Vec<i64>)> = vec![
        ("id".into(), (0..10i64).collect()),
        ("constant".into(), vec![42i64; 10]),
        ("derived".into(), (0..10).map(|i| 3 * i + 7).collect()),
    ];
    let classes = classify_variables(&cols);
    assert_eq!(classes.len(), 3);
    assert_eq!(classes[0].1, VarClass::Free);
    assert!(matches!(classes[1].1, VarClass::Fixed { value: 42 }));
    assert!(matches!(classes[2].1, VarClass::DerivedLinear { source_col: 0, multiplier: 3, offset: 7 }));
}

#[test]
fn classify_all_free() {
    let cols: Vec<(String, Vec<i64>)> = vec![("a".into(), vec![1i64, 5, 3, 9, 2]), ("b".into(), vec![10i64, 20, 30, 40, 50])];
    let classes = classify_variables(&cols);
    assert!(classes.iter().all(|(_, c)| *c == VarClass::Free));
}

#[test]
fn classify_negative_slope_and_empty() {
    let cols: Vec<(String, Vec<i64>)> = vec![
        ("x".into(), vec![5i64, 5, 7, 9]),
        ("y".into(), vec![0i64, 0, -4, -8]),
        ("e".into(), vec![]),
    ];
    let classes = classify_variables(&cols);
    assert_eq!(classes[0].1, VarClass::Free);
    assert_eq!(classes[1].1, VarClass::DerivedLinear { source_col: 0, multiplier: -2, offset: 10 });
    assert_eq!(classes[2].1, VarClass::Free);
    assert_eq!(classes[1].0, "y");
}

#[test]
fn classify_overflowing_fit_is_free() {
    let cols: Vec<(String, Vec<i64>)> = vec![("x".into(), vec![0i64, 1, 2]), ("y".into(), vec![0i64, i64::MAX, 0])];
    let classes = classify_variables(&cols);
    assert!(classes.iter().all(|(_, c)| *c == VarClass::Free));
}

#[test]
fn detect_json_data() {
    let handler = JsonHandler;
    assert!(handler.can_handle(b"[1,2,3]"));
    assert!(handler.can_handle(b"{\"key\":1}"));
    assert!(!handler.can_handle(b"hello"));
}

#[test]
fn log_detect() {
    let log = b"2026-03-01T12:00:00 INFO Starting\n2026-03-01T12:00:01 DEBUG Step 1\n2026-03-01T12:00:02 INFO Done\n";
    assert!(detect_log(log));
    assert!(!detect_log(b"not a log file at all"));
}

#[test]
fn yaml_detect() {
    assert!(detect_yaml(b"---\nname: test\n"));
    assert!(detect_yaml(b"name: test\nage: 30\n"));
    assert!(!detect_yaml(b"just some text"));
}

#[test]
fn detect_json() {
    assert_eq!(detect_domain(b"{\"key\": 1}"), Some(DomainHint::Json));
    assert_eq!(detect_domain(b"[1, 2, 3]"), Some(DomainHint::Json));
}

#[test]
fn detect_csv() {
    assert_eq!(detect_domain(b"name,age,city\nAlice,30,NYC\nBob,25,LA"), Some(DomainHint::Csv));
}

#[test]
fn detect_xml() {
    assert_eq!(detect_domain(b"<?xml version=\"1.0\"?><root/>"), Some(DomainHint::Xml));
}

#[test]
fn detect_binary() {
    assert_eq!(detect_domain(&[0x00, 0x01, 0x02, 0x03]), Some(DomainHint::Binary));
}

#[test]
fn detect_domain_edges() {
    assert_eq!(detect_domain(b""), None);
    assert_eq!(detect_domain(b"<html></html>"), None);
    assert_eq!(detect_domain(b"  \n {\"a\":1}"), Some(DomainHint::Json));
    assert_eq!(detect_domain(b"a\tb\r\nc\td\r\n"), Some(DomainHint::Csv));
    assert!(!cpac::domains::detect_csv(b"a,b\nc"));
    assert!(cpac::domains::detect_csv(b"a|b\nc|d\n"));
}

#[test]
fn log_detect_needs_three_lines_and_valid_utf8() {
    assert!(!detect_log(b"ERROR one\nERROR two\n"));
    assert!(detect_log(b"ERROR one\n\n  WARN two  \nplain\nFATAL three\n"));
    assert!(!detect_log(b"ERROR one\nERROR two\nERROR \xff three\n"));
}

#[test]
fn yaml_detect_trims_unicode_whitespace() {
    assert!(detect_yaml("\u{3000}\u{a0}---\nx".as_bytes()));
    assert!(detect_yaml(b"# comment\nkey:\nother: 1\n"));
    assert!(!detect_yaml(b"# a: b\n# c: d\n"));
    assert!(!detect_yaml(b"abc"));
}

#[test]
fn handlers_report_names_and_detect() {
    assert_eq!(CsvHandler.name(), "csv");
    assert_eq!(JsonHandler.name(), "json");
    assert_eq!(XmlHandler.name(), "xml");
    assert_eq!(YamlHandler.name(), "yaml");
    assert_eq!(LogHandler.name(), "log");
    assert!(XmlHandler.can_handle(b"<a xmlns=\"x\"/>"));
    assert!(!XmlHandler.can_handle(b"<a/>"));
    assert!(CsvHandler.can_handle(b"a,b\n1,2\n"));
    assert!(YamlHandler.can_handle(b"a: 1\nb: 2\n"));
    assert!(!LogHandler.can_handle(b"x"));
    assert_eq!(JsonHandler.domain_hint(), DomainHint::Json);
}

#[test]
fn simd_tier_ordering() {
    assert!(SimdTier::Avx512 > SimdTier::Avx2);
    assert!(SimdTier::Avx2 > SimdTier::Sse41);
    assert!(SimdTier::Sse41 > SimdTier::Sse2);
    assert!(SimdTier::Sse2 > SimdTier::Neon);
    assert!(SimdTier::Neon > SimdTier::Scalar);
}

#[test]
fn simd_tier_from_features() {
    let f = |v: &[&str]| v.iter().map(|s| s.to_string()).collect::<Vec<String>>();
    assert_eq!(determine_simd_tier(&f(&["sse2", "avx2"])), SimdTier::Avx2);
    assert_eq!(determine_simd_tier(&f(&["avx512f"])), SimdTier::Scalar);
    assert_eq!(determine_simd_tier(&f(&["avx512bw", "avx512f"])), SimdTier::Avx512);
    assert_eq!(determine_simd_tier(&f(&["neon"])), SimdTier::Neon);
    assert_eq!(determine_simd_tier(&f(&["sse4.1", "sse2"])), SimdTier::Sse41);
}

#[test]
fn default_config() {
    let cfg = CpacConfig::default();
    assert!(cfg.backend.is_none());
    assert!(cfg.block_size.is_none());
}

#[test]
fn bench_profile_iterations_and_size_rule() {
    assert_eq!(BenchProfile::Quick.iterations(), 1);
    assert_eq!(BenchProfile::Balanced.iterations(), 3);
    assert_eq!(BenchProfile::Full.iterations(), 10);
    assert_eq!(CorpusManager::max_bytes(Some(2)), Some(2 * 1024 * 1024));
    assert_eq!(CorpusManager::max_bytes(None), None);
    assert!(CorpusManager::admits(5, None));
    assert!(!CorpusManager::admits(5, Some(4)));
}

#[test]
fn extract_elements() {
    let xml = r#"<?xml version="1.0"?>
<root>
  <item><name>Alice</name><age>30</age></item>
  <item><name>Bob</name><age>25</age></item>
</root>"#;
    let cols = cpac::xml::extract_element_columns(xml);
    assert!(cols.iter().any(|(tag, vals)| tag == "name" && vals == &["Alice", "Bob"]));
    assert!(cols.iter().any(|(tag, vals)| tag == "age" && vals == &["30", "25"]));
}

#[test]
fn extract_elements_sorted_and_skips() {
    let cols = cpac::xml::extract_element_columns("<b> x </b><a/><a>1</a><!-- c --><b>y</b><c></c>");
    assert_eq!(cols.len(), 2);
    assert_eq!(cols[0].0, "a");
    assert_eq!(cols[0].1, vec!["1".to_string()]);
    assert_eq!(cols[1].0, "b");
    assert_eq!(cols[1].1, vec!["x".to_string(), "y".to_string()]);
}
