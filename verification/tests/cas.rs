use cpac::cas::{
    cas_decompress, cas_frame, infer_algebraic_constraints, infer_int_constraints, infer_string_constraints,
    infer_structural_constraints, recommend_transforms, Constraint, MonotonicDir,
};
use cpac::error::CpacError;

#[test]
fn infer_constant_column() {
    let vals = vec![42i64; 100];
    let constraints = infer_int_constraints("col", &vals);
    assert!(constraints.iter().any(|c| matches!(c, Constraint::Constant { .. })));
}

#[test]
fn infer_range_and_enum() {
    let vals: Vec<i64> = (0..100).map(|i| i % 5).collect();
    let constraints = infer_int_constraints("col", &vals);
    assert!(constraints.iter().any(|c| matches!(c, Constraint::Range { min: 0, max: 4 })));
    assert!(constraints.iter().any(|c| matches!(c, Constraint::Enumeration { .. })));
}

#[test]
fn infer_monotonic() {
    let vals: Vec<i64> = (0..100).collect();
    let constraints = infer_int_constraints("col", &vals);
    assert!(constraints.iter().any(|c| matches!(
        c,
        Constraint::Monotonic { direction: MonotonicDir::Increasing }
    )));
}

#[test]
fn infer_string_enum() {
    let vals: Vec<String> = vec!["GET", "POST", "GET", "PUT", "GET", "POST", "GET", "GET"]
        .into_iter()
        .map(String::from)
        .collect();
    let constraints = infer_string_constraints("method", &vals);
    assert!(constraints.iter().any(|c| matches!(c, Constraint::Enumeration { .. })));
}

#[test]
fn infer_stride() {
    let vals: Vec<i64> = (0..100).map(|i| i * 3).collect();
    let c = infer_structural_constraints(&vals);
    assert!(c.iter().any(|x| matches!(x, Constraint::Stride { step: 3 })));
}

#[test]
fn infer_periodic() {
    let vals: Vec<i64> = [1, 2, 3].iter().cycle().take(99).copied().collect();
    let c = infer_structural_constraints(&vals);
    assert!(c.iter().any(|x| matches!(x, Constraint::Periodic { period: 3 })));
}

#[test]
fn infer_run_length() {
    let vals: Vec<i64> = vec![1; 20].into_iter().chain(vec![2; 20]).chain(vec![3; 20]).collect();
    let c = infer_structural_constraints(&vals);
    assert!(c.iter().any(|x| matches!(x, Constraint::RunLength { .. })));
}

#[test]
fn recommend_monotonic_int() {
    let constraints = vec![
        Constraint::Monotonic { direction: MonotonicDir::Increasing },
        Constraint::Range { min: 0, max: 1000 },
    ];
    let recs = recommend_transforms(&constraints);
    let names: Vec<&str> = recs.iter().map(|r| r.name.as_str()).collect();
    assert!(names.contains(&"delta"));
    assert!(names.contains(&"zigzag"));
    assert!(names.contains(&"range_pack"));
}

#[test]
fn recommend_enum_vocab() {
    let constraints = vec![Constraint::Enumeration { values: vec!["A".into(), "B".into(), "C".into()] }];
    let recs = recommend_transforms(&constraints);
    assert!(recs.iter().any(|r| r.name == "vocab"));
}

#[test]
fn recommend_rle() {
    let constraints = vec![Constraint::RunLength { avg_run: 10 }];
    let recs = recommend_transforms(&constraints);
    assert!(recs.iter().any(|r| r.name == "rle"));
}

#[test]
fn recommend_float_xor() {
    let constraints = vec![Constraint::XorDeltaBenefit { avg_leading_zeros: 32 }];
    let recs = recommend_transforms(&constraints);
    let names: Vec<&str> = recs.iter().map(|r| r.name.as_str()).collect();
    assert!(names.contains(&"float_xor"));
    assert!(names.contains(&"byte_plane"));
}

#[test]
fn recommend_constant() {
    let constraints = vec![Constraint::Constant { value: "42".into() }];
    let recs = recommend_transforms(&constraints);
    assert!(recs.iter().any(|r| r.name == "const_elim"));
}

#[test]
fn recommend_chain_order() {
    // vocab (5) < rle (8) < delta (10) < zigzag (20) < range_pack (30)
    let constraints = vec![
        Constraint::Monotonic { direction: MonotonicDir::Increasing },
        Constraint::RunLength { avg_run: 5 },
        Constraint::Enumeration { values: vec!["X".into()] },
        Constraint::Range { min: 0, max: 100 },
    ];
    let recs = recommend_transforms(&constraints);
    for w in recs.windows(2) {
        assert!(w[0].priority <= w[1].priority, "{} should come before {}", w[0].name, w[1].name);
    }
}

#[test]
fn infer_string_length_bounds() {
    let vals: Vec<String> = vec!["abc", "de", "fghij"].into_iter().map(String::from).collect();
    let cs = infer_string_constraints("col", &vals);
    assert!(cs.iter().any(|c| matches!(c, Constraint::LengthBounded { min_len: 2, max_len: 5 })));
}

#[test]
fn infer_algebraic_basic() {
    let cols: Vec<(String, Vec<i64>)> = vec![
        ("x".into(), (0..10i64).collect()),
        ("y".into(), (0..10).map(|i| 2 * i + 1).collect()),
    ];
    let constraints = infer_algebraic_constraints(&cols);
    assert_eq!(constraints.len(), 1);
    assert!(matches!(
        &constraints[0],
        Constraint::Algebraic { target, source, multiplier: 2, offset: 1 } if target == "y" && source == "x"
    ));
}

#[test]
fn recommend_projection_for_algebraic() {
    let constraints = vec![Constraint::Algebraic {
        target: "y".into(),
        source: "x".into(),
        multiplier: 2,
        offset: 1,
    }];
    let recs = recommend_transforms(&constraints);
    assert!(recs.iter().any(|r| r.name == "projection"));
}

#[test]
fn int_enumeration_is_sorted_text() {
    let vals: Vec<i64> = vec![10, 2, -3, 2, 10, 2, 10, -3, 2, 2];
    let cs = infer_int_constraints("col", &vals);
    assert_eq!(cs.len(), 2);
    assert_eq!(cs[0], Constraint::Range { min: -3, max: 10 });
    assert_eq!(
        cs[1],
        Constraint::Enumeration { values: vec!["-3".to_string(), "10".to_string(), "2".to_string()] }
    );
    let cs = infer_int_constraints("col", &[7i64, 7, 7]);
    assert_eq!(cs, vec![Constraint::Constant { value: "7".to_string() }]);
    assert!(infer_int_constraints("col", &[]).is_empty());
}

#[test]
fn decreasing_column_and_no_enum() {
    let vals: Vec<i64> = vec![9, 7, 7, 3];
    let cs = infer_int_constraints("col", &vals);
    assert_eq!(
        cs,
        vec![
            Constraint::Range { min: 3, max: 9 },
            Constraint::Monotonic { direction: MonotonicDir::Decreasing },
        ]
    );
}

#[test]
fn structural_exact() {
    let vals: Vec<i64> = vec![5, 5, 5, 5, 5, 5, 1, 1, 1];
    let c = infer_structural_constraints(&vals);
    assert_eq!(
        c,
        vec![
            Constraint::Sorted { direction: MonotonicDir::Decreasing },
            Constraint::RunLength { avg_run: 4 },
        ]
    );
    assert!(infer_structural_constraints(&[1]).is_empty());
    let c = infer_structural_constraints(&[4, 2]);
    assert_eq!(c, vec![Constraint::Stride { step: -2 }, Constraint::Sorted { direction: MonotonicDir::Decreasing }]);
}

#[test]
fn string_constant_and_long_values() {
    let vals: Vec<String> = vec!["same".to_string(), "same".to_string()];
    assert_eq!(infer_string_constraints("c", &vals), vec![Constraint::Constant { value: "same".to_string() }]);
    let long_a = "a".repeat(70);
    let long_b = "b".repeat(70);
    let vals: Vec<String> = vec![long_a, long_b];
    assert!(infer_string_constraints("c", &vals).is_empty());
    let vals: Vec<String> = vec!["é".to_string(), "ab".to_string(), "xyz".to_string()];
    assert_eq!(
        infer_string_constraints("c", &vals),
        vec![Constraint::LengthBounded { min_len: 2, max_len: 3 }]
    );
}

#[test]
fn recommendations_stable_and_unique() {
    let constraints = vec![
        Constraint::Periodic { period: 3 },
        Constraint::Monotonic { direction: MonotonicDir::Increasing },
        Constraint::FunctionalDependency { from: "a".into(), to: "b".into() },
        Constraint::Algebraic { target: "y".into(), source: "x".into(), multiplier: 1, offset: 0 },
        Constraint::Range { min: 0, max: 70000 },
    ];
    let recs = recommend_transforms(&constraints);
    let names: Vec<&str> = recs.iter().map(|r| r.name.as_str()).collect();
    assert_eq!(names, vec!["projection", "delta", "zigzag"]);
    assert_eq!(recs[0].confidence_pct, 85);
    assert_eq!(recs[1].confidence_pct, 85);
}

#[test]
fn cas_frame_decompress_roundtrip() {
    let data = b"Hello CAS compressor test data!";
    let framed = cas_frame(data, [0, 0, 0x80, 0x3f]);
    assert!(framed.starts_with(b"CAS"));
    assert_eq!(framed[3], 1);
    assert_eq!(&framed[6..10], &[0, 0, 0x80, 0x3f]);
    assert_eq!(framed.len(), data.len() + 10);
    let back = cas_decompress(&framed).unwrap();
    assert_eq!(back, data.to_vec());
    assert!(matches!(cas_decompress(b"XYZ12345678"), Err(CpacError::InvalidFrame(_))));
    assert!(matches!(cas_decompress(b"CAS"), Err(CpacError::InvalidFrame(_))));
    assert!(matches!(cas_decompress(&[b'C', b'A', b'S', 1, 0, 0, 0, 0]), Err(CpacError::InvalidFrame(_))));
    assert!(matches!(cas_decompress(b"CAS\x01\x00\x00\x00\x00\x00"), Err(CpacError::InvalidFrame(_))));
}

#[test]
fn cas_frame_counts_constraints() {
    // A constant byte column is constant; structurally it has a zero stride,
    // is sorted, has period 2 and one long run.
    let framed = cas_frame(&[7u8; 12], [0; 4]);
    assert_eq!(u16::from_le_bytes([framed[4], framed[5]]), 5);
}
