use tinyframe::column::{infer_column, TinyColumn, ValueEnum};

#[test]
fn column_tests_test_int_column_creation() {
    let col = TinyColumn::Int(vec![1, 2, 3]);
    assert_eq!(col.len(), 3);
}

#[test]
fn column_tests_test_opt_int_column_creation() {
    let col = TinyColumn::OptInt(vec![Some(1), None, Some(3)]);
    assert_eq!(col.len(), 3);
}

#[test]
fn column_tests_test_float_column_creation() {
    let col = TinyColumn::Float(vec![1.0f64.to_bits(), 2.5f64.to_bits(), 3.14f64.to_bits()]);
    assert_eq!(col.len(), 3);
}

#[test]
fn column_tests_test_str_column_creation() {
    let col = TinyColumn::Str(vec!["hello".to_string(), "world".to_string()]);
    assert_eq!(col.len(), 2);
}

#[test]
fn column_tests_test_bool_column_creation() {
    let col = TinyColumn::Bool(vec![true, false, true]);
    assert_eq!(col.len(), 3);
}

#[test]
fn column_tests_test_mixed_column_creation() {
    let col = TinyColumn::Mixed(vec![
        ValueEnum::Int(42),
        ValueEnum::Str("hello".to_string()),
        ValueEnum::Float(3.14f64.to_bits()),
    ]);
    assert_eq!(col.len(), 3);
}

#[test]
fn column_tests_test_opt_mixed_column_creation() {
    let col = TinyColumn::OptMixed(vec![
        Some(ValueEnum::Int(42)),
        None,
        Some(ValueEnum::Str("hello".to_string())),
    ]);
    assert_eq!(col.len(), 3);
}

#[test]
fn test_column_length_consistency() {
    let test_cases = vec![
        TinyColumn::Int(vec![1, 2, 3, 4, 5]),
        TinyColumn::Float(vec![1.0f64.to_bits(), 2.0f64.to_bits(), 3.0f64.to_bits()]),
        TinyColumn::Str(vec!["a".to_string(), "b".to_string()]),
        TinyColumn::Bool(vec![true, false]),
        TinyColumn::OptInt(vec![Some(1), None, Some(3)]),
        TinyColumn::OptFloat(vec![Some(1.0f64.to_bits()), None]),
        TinyColumn::OptStr(vec![Some("a".to_string()), None, Some("c".to_string())]),
        TinyColumn::OptBool(vec![Some(true), None, Some(false)]),
    ];
    for col in test_cases {
        assert!(col.len() > 0, "Column should have positive length");
    }
}

#[test]
fn column_tests_test_value_enum_variants() {
    let int_val = ValueEnum::Int(42);
    let float_val = ValueEnum::Float(3.14f64.to_bits());
    let str_val = ValueEnum::Str("hello".to_string());
    let bool_val = ValueEnum::Bool(true);
    assert!(matches!(int_val, ValueEnum::Int(_)));
    assert!(matches!(float_val, ValueEnum::Float(_)));
    assert!(matches!(str_val, ValueEnum::Str(_)));
    assert!(matches!(bool_val, ValueEnum::Bool(_)));
}

#[test]
fn lib_test_int_column_creation() {
    let col = TinyColumn::Int(vec![1, 2, 3]);
    assert_eq!(col.len(), 3);
}

#[test]
fn lib_test_opt_int_column_creation() {
    let col = TinyColumn::OptInt(vec![Some(1), None, Some(3)]);
    assert_eq!(col.len(), 3);
}

#[test]
fn lib_test_float_column_creation() {
    let col = TinyColumn::Float(vec![1.0f64.to_bits(), 2.5f64.to_bits(), 3.14f64.to_bits()]);
    assert_eq!(col.len(), 3);
}

#[test]
fn lib_test_str_column_creation() {
    let col = TinyColumn::Str(vec!["hello".to_string(), "world".to_string()]);
    assert_eq!(col.len(), 2);
}

#[test]
fn lib_test_bool_column_creation() {
    let col = TinyColumn::Bool(vec![true, false, true]);
    assert_eq!(col.len(), 3);
}

#[test]
fn lib_test_mixed_column_creation() {
    let col = TinyColumn::Mixed(vec![
        ValueEnum::Int(42),
        ValueEnum::Str("hello".to_string()),
        ValueEnum::Float(3.14f64.to_bits()),
    ]);
    assert_eq!(col.len(), 3);
}

#[test]
fn lib_test_opt_mixed_column_creation() {
    let col = TinyColumn::OptMixed(vec![
        Some(ValueEnum::Int(42)),
        None,
        Some(ValueEnum::Str("hello".to_string())),
    ]);
    assert_eq!(col.len(), 3);
}

#[test]
fn lib_test_value_enum_variants() {
    let int_val = ValueEnum::Int(42);
    let float_val = ValueEnum::Float(3.14f64.to_bits());
    let str_val = ValueEnum::Str("hello".to_string());
    let bool_val = ValueEnum::Bool(true);
    assert!(matches!(int_val, ValueEnum::Int(_)));
    assert!(matches!(float_val, ValueEnum::Float(_)));
    assert!(matches!(str_val, ValueEnum::Str(_)));
    assert!(matches!(bool_val, ValueEnum::Bool(_)));
}

#[test]
fn get_past_the_end_is_no_value() {
    let col = TinyColumn::OptInt(vec![Some(1), None]);
    assert!(matches!(col.get(0), Some(ValueEnum::Int(1))));
    assert!(col.get(1).is_none());
    assert!(col.get(5).is_none());
}

#[test]
fn inference_picks_the_narrowest_representation() {
    let ints = infer_column(&vec![Some(ValueEnum::Int(1)), Some(ValueEnum::Int(2))]);
    assert!(matches!(ints, TinyColumn::Int(ref v) if *v == vec![1, 2]));
    let opt = infer_column(&vec![Some(ValueEnum::Int(1)), None]);
    assert!(matches!(opt, TinyColumn::OptInt(ref v) if *v == vec![Some(1), None]));
    let mixed = infer_column(&vec![Some(ValueEnum::Int(1)), Some(ValueEnum::Str("x".to_string()))]);
    assert!(matches!(mixed, TinyColumn::Mixed(_)));
    let opt_mixed = infer_column(&vec![Some(ValueEnum::Int(1)), None, Some(ValueEnum::Bool(true))]);
    assert!(matches!(opt_mixed, TinyColumn::OptMixed(_)));
    let all_null = infer_column(&vec![None, None]);
    assert!(matches!(all_null, TinyColumn::OptMixed(_)));
    let handles = infer_column(&vec![Some(ValueEnum::Opaque(7)), Some(ValueEnum::Opaque(9))]);
    assert!(matches!(handles, TinyColumn::Opaque(ref v) if *v == vec![7, 9]));
}

#[test]
fn column_cursor_visits_every_slot() {
    let col = TinyColumn::OptStr(vec![Some("a".to_string()), None, Some("c".to_string())]);
    let mut it = col.iter();
    assert!(matches!(it.next(), Some(Some(ValueEnum::Str(ref s))) if s == "a"));
    assert!(matches!(it.next(), Some(None)));
    assert!(matches!(it.next(), Some(Some(ValueEnum::Str(ref s))) if s == "c"));
    assert!(it.next().is_none());
}
