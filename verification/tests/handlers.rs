use cpac::domains::{CsvHandler, JsonHandler, LogHandler, XmlHandler, YamlHandler};
use cpac::json::JsonDecomposition;
use cpac::error::CpacError;
use cpac::json_columns::json_columns;

#[test]
fn csv_decompose_reconstruct() {
    let data = b"a,b\n1,2\n3,4\n";
    let handler = CsvHandler;
    let columns = handler.decompose(data).unwrap();
    let restored = handler.reconstruct(&columns).unwrap();
    let restored_str = String::from_utf8(restored).unwrap();
    assert!(restored_str.contains("a,b"));
    assert!(restored_str.contains("1,2"));
    assert!(restored_str.contains("3,4"));
}

#[test]
fn log_decompose_reconstruct() {
    let log = b"2026-03-01T12:00:00 INFO Starting server\n2026-03-01T12:00:01 DEBUG Loading config\n";
    let h = LogHandler;
    let cols = h.decompose(log).unwrap();
    let restored = h.reconstruct(&cols).unwrap();
    assert!(restored.windows(4).any(|w| w == b"INFO"));
}

#[test]
fn yaml_decompose_reconstruct() {
    let data = b"name: Alice\nage: 30\ncity: NYC\n";
    let h = YamlHandler;
    let cols = h.decompose(data).unwrap();
    let restored = h.reconstruct(&cols).unwrap();
    assert!(restored.starts_with(b"---\n"));
    assert!(restored.windows(5).any(|w| w == b"Alice"));
}

#[test]
fn yaml_columns_exact() {
    let data = b"---\n# comment\nname:  Alice \nlist:\nplain line\nurl: http://x: y\n";
    let cols = YamlHandler.decompose(data).unwrap();
    assert_eq!(cols[0].0, "keys");
    assert_eq!(cols[0].1, vec!["name", "list", "url"]);
    assert_eq!(cols[1].0, "values");
    assert_eq!(cols[1].1, vec!["Alice", "", "http://x: y"]);
    let text = YamlHandler.reconstruct(&cols).unwrap();
    assert_eq!(text, b"---\nname: Alice\nlist:\nurl: http://x: y\n".to_vec());
    assert!(matches!(YamlHandler.reconstruct(&cols[..1]), Err(CpacError::Other(_))));
    assert!(matches!(YamlHandler.decompose(&[0xff]), Err(CpacError::Other(_))));
}

#[test]
fn log_columns_exact() {
    let log = b"t1 info hello world\n\n  t2 NOTICE x y\nt3\nt4 WARN\n";
    let cols = LogHandler.decompose(log).unwrap();
    assert_eq!(cols[0].1, vec!["t1", "t2", "t3", "t4"]);
    assert_eq!(cols[1].1, vec!["info", "", "", "WARN"]);
    assert_eq!(cols[2].1, vec!["hello world", "x y", "", ""]);
    let text = LogHandler.reconstruct(&cols).unwrap();
    assert_eq!(text, b"t1 info hello world\nt2 x y\nt3\nt4 WARN\n".to_vec());
    assert!(matches!(LogHandler.reconstruct(&cols[..2]), Err(CpacError::Other(_))));
}

#[test]
fn csv_columns_exact() {
    let cols = CsvHandler.decompose(b"x|y\n1|2\n3\n").unwrap();
    assert_eq!(cols.len(), 2);
    assert_eq!(cols[0], ("x".to_string(), vec!["1".to_string(), "3".to_string()]));
    assert_eq!(cols[1], ("y".to_string(), vec!["2".to_string(), "".to_string()]));
    let text = CsvHandler.reconstruct(&cols).unwrap();
    assert_eq!(text, b"x,y\n1,2\n3,\n".to_vec());
    let ragged = vec![
        ("a".to_string(), vec!["1".to_string()]),
        ("b".to_string(), vec!["2".to_string(), "9".to_string()]),
    ];
    assert_eq!(CsvHandler.reconstruct(&ragged).unwrap(), b"a,b\n1,2\n".to_vec());
    assert!(matches!(CsvHandler.decompose(b""), Err(CpacError::Transform(_))));
}

#[test]
fn decompose_xml() {
    let xml = b"<?xml version=\"1.0\"?><root><a>1</a><a>2</a></root>";
    let handler = XmlHandler;
    assert!(handler.can_handle(xml));
    let columns = handler.decompose(xml).unwrap();
    assert!(!columns.is_empty());
    assert!(columns.iter().any(|(tag, vals)| tag == "a" && *vals == vec!["1".to_string(), "2".to_string()]));
    assert!(matches!(handler.reconstruct(&columns), Err(CpacError::Transform(_))));
    assert!(matches!(handler.decompose(&[0x3c, 0xc3]), Err(CpacError::Transform(_))));
}

#[test]
fn yaml_rebuild_then_split_gives_pairs_back() {
    let keys: Vec<String> = vec!["name".into(), "empty".into(), "".into(), "a:b".into(), "é".into()];
    let values: Vec<String> = vec!["Alice Smith".into(), "".into(), "v".into(), "x: y".into(), "ü".into()];
    let cols = vec![("keys".to_string(), keys.clone()), ("values".to_string(), values.clone())];
    let text = YamlHandler.reconstruct(&cols).unwrap();
    let back = YamlHandler.decompose(&text).unwrap();
    assert_eq!(back[0].1, keys);
    assert_eq!(back[1].1, values);
}

#[test]
fn csv_columns_read_back() {
    let cols = vec![
        ("id".to_string(), vec!["1".to_string(), "2".to_string(), "3".to_string()]),
        ("name".to_string(), vec!["Ann Lee".to_string(), String::new(), "Zoë".to_string()]),
    ];
    let h = CsvHandler;
    let text = h.reconstruct(&cols).unwrap();
    assert_eq!(text, b"id,name\n1,Ann Lee\n2,\n3,Zo\xc3\xab\n".to_vec());
    assert_eq!(h.decompose(&text).unwrap(), cols);
}

#[test]
fn json_columns_sorted_by_key() {
    let items = vec![
        Some(vec![("name".to_string(), "Alice".to_string()), ("age".to_string(), "30".to_string())]),
        None,
        Some(vec![("name".to_string(), "Bob".to_string()), ("age".to_string(), "25".to_string())]),
        Some(vec![("city".to_string(), "LA".to_string())]),
    ];
    let cols = json_columns(&items);
    assert_eq!(
        cols,
        vec![
            ("age".to_string(), vec!["30".to_string(), "25".to_string()]),
            ("city".to_string(), vec!["LA".to_string()]),
            ("name".to_string(), vec!["Alice".to_string(), "Bob".to_string()]),
        ]
    );
    assert!(json_columns(&[]).is_empty());
}

#[test]
fn decompose_json_array() {
    let data = br#"[{"name":"Alice","age":30},{"name":"Bob","age":25}]"#;
    let handler = JsonHandler;
    let result = handler.decompose(data).unwrap();
    match result {
        JsonDecomposition::Columns(columns) => {
            assert_eq!(columns.len(), 2);
            // keys come out sorted: "age" before "name"
            assert_eq!(columns[0].0, "age");
            assert_eq!(columns[1].0, "name");
            assert_eq!(columns[0].1, vec!["30".to_string(), "25".to_string()]);
            assert_eq!(columns[1].1, vec!["Alice".to_string(), "Bob".to_string()]);
        }
        _ => panic!("expected columns"),
    }
}

#[test]
fn json_object_null_nested_and_scalar() {
    let h = JsonHandler;
    let one = h.decompose(br#"{"a": null, "b": [1, 2], "c": true}"#).unwrap();
    assert_eq!(
        one,
        JsonDecomposition::Columns(vec![
            ("a".to_string(), vec![String::new()]),
            ("b".to_string(), vec!["[1,2]".to_string()]),
            ("c".to_string(), vec!["true".to_string()]),
        ])
    );
    assert_eq!(h.decompose(b"42").unwrap(), JsonDecomposition::Serial(b"42".to_vec()));
    assert_eq!(h.decompose(b"[]").unwrap(), JsonDecomposition::Columns(vec![]));
    assert!(matches!(h.decompose(b"{oops"), Err(CpacError::Transform(m)) if m.starts_with("JSON parse: ")));
    assert!(matches!(h.decompose(&[0xff, 0xfe]), Err(CpacError::Transform(m)) if m.starts_with("JSON: invalid UTF-8: ")));
}

#[test]
fn json_reconstruct_reads_back() {
    let h = JsonHandler;
    let cols = vec![
        ("age".to_string(), vec!["30".to_string(), "25".to_string()]),
        ("name".to_string(), vec!["Alice".to_string()]),
    ];
    let text = h.reconstruct(&cols).unwrap();
    let s = String::from_utf8(text.clone()).unwrap();
    assert!(s.contains("\"name\": \"Alice\""));
    let back = h.decompose(&text).unwrap();
    assert_eq!(
        back,
        JsonDecomposition::Columns(vec![
            ("age".to_string(), vec!["30".to_string(), "25".to_string()]),
            ("name".to_string(), vec!["Alice".to_string()]),
        ])
    );
}
