use tinyframe::aggregate::Aggregate;
use tinyframe::chunked::ChunkedProcessor;
use tinyframe::column::{TinyColumn, ValueEnum};
use tinyframe::filter::Condition;
use tinyframe::frame::{FrameError, TinyFrame};
use tinyframe::groupby::GroupedSum;
use tinyframe::parallel::ParallelOps;

fn names(ns: &[&str]) -> Vec<String> {
    ns.iter().map(|s| s.to_string()).collect()
}

fn ival(x: i64) -> Option<ValueEnum> {
    Some(ValueEnum::Int(x))
}

fn text(s: &str) -> Option<ValueEnum> {
    Some(ValueEnum::Str(s.to_string()))
}

fn float(x: f64) -> Option<ValueEnum> {
    Some(ValueEnum::Float(x.to_bits()))
}

fn test_records() -> (Vec<String>, Vec<Vec<Option<ValueEnum>>>) {
    (
        names(&["age", "name", "score"]),
        vec![
            vec![ival(25), text("Alice"), float(95.5)],
            vec![ival(30), text("Bob"), float(87.0)],
            vec![ival(35), text("Charlie"), float(92.5)],
        ],
    )
}

fn int_column(t: &TinyFrame, name: &str) -> Vec<Option<i64>> {
    let col = t.column(name).unwrap();
    (0..col.len())
        .map(|i| match col.get(i) {
            Some(ValueEnum::Int(x)) => Some(x),
            _ => None,
        })
        .collect()
}

fn str_column(t: &TinyFrame, name: &str) -> Vec<Option<String>> {
    let col = t.column(name).unwrap();
    (0..col.len())
        .map(|i| match col.get(i) {
            Some(ValueEnum::Str(s)) => Some(s),
            _ => None,
        })
        .collect()
}

fn sums_by_key(g: &GroupedSum) -> Vec<(Vec<Option<String>>, Option<i64>)> {
    let mut out: Vec<(Vec<Option<String>>, Option<i64>)> = g
        .keys
        .iter()
        .zip(g.sums.iter())
        .map(|(k, s)| {
            let key = k
                .iter()
                .map(|v| match v {
                    Some(ValueEnum::Str(s)) => Some(s.clone()),
                    _ => None,
                })
                .collect();
            (key, *s)
        })
        .collect();
    out.sort();
    out
}

#[test]
fn test_empty_frame_creation() {
    let frame = TinyFrame::new();
    assert_eq!(frame.len(), 0);
    assert!(frame.is_empty());
    assert_eq!(frame.shape(), (0, 0));
}

#[test]
fn test_frame_creation_from_dicts() {
    let rows = vec![vec![ival(25), text("Alice")], vec![ival(30), text("Bob")]];
    let frame = TinyFrame::from_rows(&names(&["age", "name"]), &rows).unwrap();
    assert_eq!(frame.len(), 2);
    assert!(!frame.is_empty());
    assert_eq!(frame.shape(), (2, 2));
}

#[test]
fn lib_test_empty_records_error() {
    let result = TinyFrame::from_rows(&names(&["age"]), &vec![]);
    assert!(result.is_err());
}

#[test]
fn convert_tests_test_empty_records_error() {
    let empty_records: Vec<Vec<Option<ValueEnum>>> = vec![];
    let result = TinyFrame::from_rows(&names(&["age", "name"]), &empty_records);
    assert!(result.is_err());
}

#[test]
fn test_type_inference_single_type() {
    let (ns, rows) = test_records();
    let frame = TinyFrame::from_rows(&ns, &rows).unwrap();
    match frame.column("age") {
        Some(TinyColumn::Int(age_col)) => {
            assert_eq!(age_col.len(), 3);
            assert_eq!(age_col[0], 25);
            assert_eq!(age_col[1], 30);
            assert_eq!(age_col[2], 35);
        }
        _ => panic!("Age column should be inferred as Int"),
    }
    match frame.column("name") {
        Some(TinyColumn::Str(name_col)) => {
            assert_eq!(name_col.len(), 3);
            assert_eq!(name_col[0], "Alice");
            assert_eq!(name_col[1], "Bob");
            assert_eq!(name_col[2], "Charlie");
        }
        _ => panic!("Name column should be inferred as Str"),
    }
    match frame.column("score") {
        Some(TinyColumn::Float(score_col)) => {
            assert_eq!(score_col.len(), 3);
            assert!((f64::from_bits(score_col[0]) - 95.5).abs() < 1e-10);
            assert!((f64::from_bits(score_col[1]) - 87.0).abs() < 1e-10);
            assert!((f64::from_bits(score_col[2]) - 92.5).abs() < 1e-10);
        }
        _ => panic!("Score column should be inferred as Float"),
    }
}

#[test]
fn test_type_inference_mixed_types() {
    let rows = vec![
        vec![ival(42), text("hello")],
        vec![text("world"), float(3.14)],
        vec![Some(ValueEnum::Bool(true)), text("mixed")],
    ];
    let frame = TinyFrame::from_rows(&names(&["value", "text"]), &rows).unwrap();
    match frame.column("value") {
        Some(TinyColumn::Mixed(value_col)) => {
            assert_eq!(value_col.len(), 3);
            assert!(matches!(value_col[0], ValueEnum::Int(42)));
            assert!(matches!(value_col[1], ValueEnum::Str(_)));
            assert!(matches!(value_col[2], ValueEnum::Bool(true)));
        }
        _ => panic!("Value column should be inferred as Mixed"),
    }
}

#[test]
fn test_type_inference_with_nulls() {
    let rows = vec![
        vec![ival(25), text("Alice")],
        vec![None, text("Bob")],
        vec![ival(35), text("Charlie")],
    ];
    let frame = TinyFrame::from_rows(&names(&["age", "name"]), &rows).unwrap();
    match frame.column("age") {
        Some(TinyColumn::OptInt(age_col)) => {
            assert_eq!(age_col.len(), 3);
            assert_eq!(age_col[0], Some(25));
            assert_eq!(age_col[1], None);
            assert_eq!(age_col[2], Some(35));
        }
        _ => panic!("Age column should be inferred as OptInt"),
    }
    match frame.column("name") {
        Some(TinyColumn::Str(name_col)) => {
            assert_eq!(name_col.len(), 3);
            assert_eq!(name_col[0], "Alice");
            assert_eq!(name_col[1], "Bob");
            assert_eq!(name_col[2], "Charlie");
        }
        _ => panic!("Name column should be inferred as Str"),
    }
}

#[test]
fn test_roundtrip_conversion() {
    let (ns, original_records) = test_records();
    let frame = TinyFrame::from_rows(&ns, &original_records).unwrap();
    let converted_records = frame.to_rows();
    assert_eq!(original_records.len(), converted_records.len());
    assert_eq!(frame.len(), converted_records.len());
}

#[test]
fn round_trip_reproduces_every_value() {
    let (ns, rows) = test_records();
    let frame = TinyFrame::from_rows(&ns, &rows).unwrap();
    let back = frame.to_rows();
    assert_eq!(format!("{:?}", back), format!("{:?}", rows));
    assert_eq!(frame.columns(), ns);
}

#[test]
fn inference_of_single_column_scenarios() {
    let a = names(&["a"]);
    let t = TinyFrame::from_rows(&a, &vec![vec![ival(1)], vec![ival(2)]]).unwrap();
    assert!(matches!(t.column("a"), Some(TinyColumn::Int(_))));
    let t = TinyFrame::from_rows(&a, &vec![vec![ival(1)], vec![None]]).unwrap();
    assert!(matches!(t.column("a"), Some(TinyColumn::OptInt(_))));
    let t = TinyFrame::from_rows(&a, &vec![vec![ival(1)], vec![text("x")]]).unwrap();
    assert!(matches!(t.column("a"), Some(TinyColumn::Mixed(_))));
}

#[test]
fn rows_that_are_not_records_are_refused() {
    let r = TinyFrame::from_rows(&names(&["a", "b"]), &vec![vec![ival(1), ival(2)], vec![ival(3)]]);
    assert_eq!(r.unwrap_err(), FrameError::ValueError);
    let r = TinyFrame::from_rows(&names(&["a", "a"]), &vec![vec![ival(1), ival(2)]]);
    assert_eq!(r.unwrap_err(), FrameError::ValueError);
}

fn people() -> TinyFrame {
    let rows = vec![
        vec![text("x"), ival(5), text("p")],
        vec![text("y"), ival(3), text("q")],
        vec![text("x"), None, text("r")],
        vec![text("z"), ival(10), text("s")],
        vec![text("y"), ival(-4), text("t")],
        vec![text("x"), ival(7), text("u")],
    ];
    TinyFrame::from_rows(&names(&["k", "v", "id"]), &rows).unwrap()
}

#[test]
fn filter_keeps_matching_rows_in_order() {
    let t = people();
    let f = t.filter("v", &Condition::Gt(ValueEnum::Int(4))).unwrap();
    assert_eq!(str_column(&f, "id"), vec![Some("p".to_string()), Some("s".to_string()), Some("u".to_string())]);
    let f = t.filter("k", &Condition::Eq(ValueEnum::Str("y".to_string()))).unwrap();
    assert_eq!(str_column(&f, "id"), vec![Some("q".to_string()), Some("t".to_string())]);
    let f = t.filter("k", &Condition::In(names(&["z", "y"]))).unwrap();
    assert_eq!(f.len(), 3);
    let f = t.filter("k", &Condition::NotIn(names(&["x"]))).unwrap();
    assert_eq!(f.len(), 3);
    let f = t.filter("v", &Condition::Le(ValueEnum::Int(3))).unwrap();
    assert_eq!(int_column(&f, "v"), vec![Some(3), Some(-4)]);
    assert_eq!(t.filter("missing", &Condition::Gt(ValueEnum::Int(0))).unwrap_err(), FrameError::NotFound);
}

#[test]
fn filter_on_float_bits_orders_numerically() {
    let rows = vec![vec![float(-1.5)], vec![float(2.0)], vec![float(f64::NAN)], vec![float(-0.0)]];
    let t = TinyFrame::from_rows(&names(&["f"]), &rows).unwrap();
    let f = t.filter("f", &Condition::Ge(ValueEnum::Float(0.0f64.to_bits()))).unwrap();
    assert_eq!(f.len(), 2);
    let f = t.filter("f", &Condition::Ne(ValueEnum::Float(2.0f64.to_bits()))).unwrap();
    assert_eq!(f.len(), 3);
}

#[test]
fn filtering_twice_changes_nothing() {
    let t = people();
    let cond = Condition::Ge(ValueEnum::Int(3));
    let once = t.filter("v", &cond).unwrap();
    let twice = once.filter("v", &cond).unwrap();
    assert_eq!(format!("{:?}", once.to_rows()), format!("{:?}", twice.to_rows()));
}

#[test]
fn dropna_removes_null_rows() {
    let t = people();
    let d = t.dropna("v").unwrap();
    assert_eq!(d.len(), 5);
    assert_eq!(t.dropna("k").unwrap().len(), 6);
    assert_eq!(t.dropna("nope").unwrap_err(), FrameError::NotFound);
}

#[test]
fn sort_is_stable_on_equal_keys() {
    let rows = vec![vec![ival(1), text("b")], vec![ival(1), text("a")]];
    let t = TinyFrame::from_rows(&names(&["n", "s"]), &rows).unwrap();
    let s = t.sort_values(&names(&["n"]), true).unwrap();
    assert_eq!(str_column(&s, "s"), vec![Some("b".to_string()), Some("a".to_string())]);
}

#[test]
fn sort_orders_by_keys_with_nulls_last() {
    let t = people();
    let s = t.sort_values(&names(&["v"]), true).unwrap();
    assert_eq!(int_column(&s, "v"), vec![Some(-4), Some(3), Some(5), Some(7), Some(10), None]);
    let s = t.sort_values(&names(&["v"]), false).unwrap();
    assert_eq!(int_column(&s, "v"), vec![None, Some(10), Some(7), Some(5), Some(3), Some(-4)]);
    let s = t.sort_values(&names(&["k", "v"]), true).unwrap();
    assert_eq!(str_column(&s, "id"), ["p", "u", "r", "t", "q", "s"].iter().map(|x| Some(x.to_string())).collect::<Vec<_>>());
    assert_eq!(t.sort_values(&names(&["zz"]), true).unwrap_err(), FrameError::NotFound);
}

#[test]
fn sort_refuses_mixed_keys() {
    let rows = vec![vec![ival(1)], vec![text("a")]];
    let t = TinyFrame::from_rows(&names(&["m"]), &rows).unwrap();
    assert_eq!(t.sort_values(&names(&["m"]), true).unwrap_err(), FrameError::Unsupported);
}

#[test]
fn groupby_sum_totals_each_key() {
    let t = people();
    let g = t.groupby_sum(&names(&["k"]), "v").unwrap();
    assert_eq!(g.keys.len(), 3);
    assert_eq!(
        sums_by_key(&g),
        vec![
            (vec![Some("x".to_string())], Some(12)),
            (vec![Some("y".to_string())], Some(-1)),
            (vec![Some("z".to_string())], Some(10)),
        ]
    );
    let total: i64 = g.sums.iter().map(|s| s.unwrap_or(0)).sum();
    assert_eq!(total, 5 + 3 + 10 - 4 + 7);
}

#[test]
fn groupby_errors() {
    let t = people();
    assert_eq!(t.groupby_sum(&names(&["v"]), "v").unwrap_err(), FrameError::Unsupported);
    assert_eq!(t.groupby_sum(&names(&["k"]), "id").unwrap_err(), FrameError::TypeMismatch);
    assert_eq!(t.groupby_sum(&names(&["nope"]), "v").unwrap_err(), FrameError::NotFound);
}

#[test]
fn group_with_only_nulls_has_no_sum() {
    let rows = vec![vec![text("a"), None], vec![text("b"), ival(2)]];
    let t = TinyFrame::from_rows(&names(&["k", "v"]), &rows).unwrap();
    let g = t.groupby_sum(&names(&["k"]), "v").unwrap();
    assert_eq!(sums_by_key(&g), vec![(vec![Some("a".to_string())], None), (vec![Some("b".to_string())], Some(2))]);
}

#[test]
fn chunked_sum_matches_single_pass() {
    let t = people();
    let whole = t.groupby_sum(&names(&["k"]), "v").unwrap();
    for size in 1..=7 {
        let chunked = ChunkedProcessor::new(size).chunked_groupby_sum(&t, &names(&["k"]), "v").unwrap();
        assert_eq!(sums_by_key(&chunked), sums_by_key(&whole), "chunk size {}", size);
    }
    assert_eq!(ChunkedProcessor::new(0).chunked_groupby_sum(&t, &names(&["k"]), "v").unwrap_err(), FrameError::ValueError);
}

#[test]
fn parallel_matches_sequential() {
    let t = people();
    let cond = Condition::Gt(ValueEnum::Int(0));
    let a = t.filter("v", &cond).unwrap();
    let b = ParallelOps::parallel_filter(&t, "v", &cond).unwrap();
    assert_eq!(format!("{:?}", a.to_rows()), format!("{:?}", b.to_rows()));
    let a = t.sort_values(&names(&["k", "v"]), false).unwrap();
    let b = ParallelOps::parallel_sort(&t, &names(&["k", "v"]), false).unwrap();
    assert_eq!(format!("{:?}", a.to_rows()), format!("{:?}", b.to_rows()));
    let a = t.groupby_sum(&names(&["k"]), "v").unwrap();
    let b = ParallelOps::parallel_groupby_sum(&t, &names(&["k"]), "v").unwrap();
    assert_eq!(sums_by_key(&a), sums_by_key(&b));
    assert_eq!(ParallelOps::parallel_sort(&t, &vec![], true).unwrap_err(), FrameError::ValueError);
    assert_eq!(ParallelOps::parallel_groupby_sum(&t, &vec![], "v").unwrap_err(), FrameError::ValueError);
}

fn left_right() -> (TinyFrame, TinyFrame) {
    let left = TinyFrame::from_rows(
        &names(&["id", "a"]),
        &vec![vec![ival(1), text("l1")], vec![ival(2), text("l2")], vec![ival(2), text("l3")], vec![None, text("l4")]],
    )
    .unwrap();
    let right = TinyFrame::from_rows(
        &names(&["rid", "b", "a"]),
        &vec![vec![ival(2), text("r1")], vec![ival(2), text("r2")], vec![ival(3), text("r3")], vec![None, text("r4")]].into_iter().map(|mut r| { r.push(text("dup")); r }).collect(),
    )
    .unwrap();
    (left, right)
}

#[test]
fn inner_join_counts_matching_pairs() {
    let (left, right) = left_right();
    let j = left.inner_join(&right, &names(&["id"]), &names(&["rid"])).unwrap();
    assert_eq!(j.len(), 4);
    assert_eq!(j.columns(), names(&["id", "a", "b"]));
    assert_eq!(str_column(&j, "a"), ["l2", "l2", "l3", "l3"].iter().map(|x| Some(x.to_string())).collect::<Vec<_>>());
    assert_eq!(str_column(&j, "b"), ["r1", "r2", "r1", "r2"].iter().map(|x| Some(x.to_string())).collect::<Vec<_>>());
}

#[test]
fn inner_join_errors() {
    let (left, right) = left_right();
    assert_eq!(left.inner_join(&right, &names(&["nope"]), &names(&["rid"])).unwrap_err(), FrameError::NotFound);
    assert_eq!(left.inner_join(&right, &names(&["id"]), &names(&["nope"])).unwrap_err(), FrameError::NotFound);
    assert_eq!(left.inner_join(&right, &names(&["id", "a"]), &names(&["rid"])).unwrap_err(), FrameError::ValueError);
}

#[test]
fn cross_join_pairs_every_row() {
    let (left, right) = left_right();
    let j = left.cross_join(&right).unwrap();
    assert_eq!(j.len(), left.len() * right.len());
    assert_eq!(j.columns(), names(&["id", "a", "rid", "b"]));
    let empty = TinyFrame::new();
    assert_eq!(left.cross_join(&empty).unwrap().len(), 0);
}

#[test]
fn drop_and_rename_columns() {
    let mut t = people();
    assert_eq!(t.drop_columns(&names(&["v", "nope"])).unwrap_err(), FrameError::NotFound);
    assert_eq!(t.columns(), names(&["k", "v", "id"]));
    t.drop_columns(&names(&["v"])).unwrap();
    assert_eq!(t.columns(), names(&["k", "id"]));
    assert_eq!(t.rename_column("k", "id").unwrap_err(), FrameError::ValueError);
    assert_eq!(t.rename_column("nope", "q").unwrap_err(), FrameError::NotFound);
    t.rename_column("k", "key").unwrap();
    assert_eq!(t.columns(), names(&["key", "id"]));
    assert_eq!(t.len(), 6);
}

#[test]
fn left_join_pads_unmatched_rows() {
    let (left, right) = left_right();
    let j = left.left_join(&right, &names(&["id"]), &names(&["rid"])).unwrap();
    // id 1 has no match; id 2 matches twice for each of two left rows; the null key is left out
    assert_eq!(j.len(), 5);
    assert_eq!(str_column(&j, "b"), vec![None, Some("r1".to_string()), Some("r2".to_string()), Some("r1".to_string()), Some("r2".to_string())]);
    assert!(matches!(j.column("b"), Some(TinyColumn::OptStr(_))));
}

#[test]
fn right_join_keeps_every_right_row_with_a_key() {
    let (left, right) = left_right();
    let j = left.right_join(&right, &names(&["id"]), &names(&["rid"])).unwrap();
    assert_eq!(j.columns(), names(&["rid", "b", "a"]));
    assert_eq!(j.len(), 5);
    // the right table's own "a" keeps the slot
    assert_eq!(str_column(&j, "a"), vec![Some("dup".to_string()); 5]);
    assert_eq!(str_column(&j, "b"), ["r1", "r1", "r2", "r2", "r3"].iter().map(|x| Some(x.to_string())).collect::<Vec<_>>());
}

#[test]
fn outer_join_adds_unmatched_right_rows() {
    let (left, right) = left_right();
    let j = left.outer_join(&right, &names(&["id"]), &names(&["rid"])).unwrap();
    assert_eq!(j.columns(), names(&["id", "a", "rid", "b"]));
    assert_eq!(j.len(), 6);
    assert_eq!(int_column(&j, "rid"), vec![None, Some(2), Some(2), Some(2), Some(2), Some(3)]);
    assert_eq!(int_column(&j, "id"), vec![Some(1), Some(2), Some(2), Some(2), Some(2), None]);
}

#[test]
fn cast_between_int_str_and_bool() {
    let rows = vec![vec![ival(-12), text("42"), Some(ValueEnum::Bool(true))], vec![ival(0), text("x"), Some(ValueEnum::Bool(false))]];
    let mut t = TinyFrame::from_rows(&names(&["i", "s", "b"]), &rows).unwrap();
    t.cast_column("i", tinyframe::column::Kind::Str).unwrap();
    assert_eq!(str_column(&t, "i"), vec![Some("-12".to_string()), Some("0".to_string())]);
    t.cast_column("s", tinyframe::column::Kind::Int).unwrap();
    assert_eq!(int_column(&t, "s"), vec![Some(42), Some(0)]);
    t.cast_column("b", tinyframe::column::Kind::Str).unwrap();
    assert_eq!(str_column(&t, "b"), vec![Some("true".to_string()), Some("false".to_string())]);
    assert_eq!(t.cast_column("b", tinyframe::column::Kind::Float).unwrap_err(), FrameError::Unsupported);
    assert_eq!(t.cast_column("nope", tinyframe::column::Kind::Int).unwrap_err(), FrameError::NotFound);
    let mut m = TinyFrame::from_rows(&names(&["m"]), &vec![vec![ival(1)], vec![text("a")]]).unwrap();
    assert_eq!(m.cast_column("m", tinyframe::column::Kind::Str).unwrap_err(), FrameError::TypeMismatch);
}

#[test]
fn cast_of_unparsable_text_in_nullable_column_gives_null() {
    let rows = vec![vec![text("7")], vec![None], vec![text("seven")]];
    let mut t = TinyFrame::from_rows(&names(&["s"]), &rows).unwrap();
    t.cast_column("s", tinyframe::column::Kind::Int).unwrap();
    assert_eq!(int_column(&t, "s"), vec![Some(7), None, None]);
}

#[test]
fn fillna_fills_and_narrows() {
    let rows = vec![vec![ival(1), text("a")], vec![None, text("b")]];
    let mut t = TinyFrame::from_rows(&names(&["n", "s"]), &rows).unwrap();
    assert_eq!(t.fillna(&ValueEnum::Str("z".to_string())).unwrap_err(), FrameError::TypeMismatch);
    assert!(matches!(t.column("n"), Some(TinyColumn::OptInt(_))));
    t.fillna(&ValueEnum::Int(0)).unwrap();
    assert!(matches!(t.column("n"), Some(TinyColumn::Int(v)) if *v == vec![1, 0]));
}

#[test]
fn edit_column_reinfers_the_type() {
    let mut t = people();
    let new_values = vec![ival(1), text("two"), ival(3), ival(4), ival(5), ival(6)];
    t.edit_column("k", &new_values).unwrap();
    assert!(matches!(t.column("k"), Some(TinyColumn::Mixed(_))));
    assert_eq!(t.edit_column("k", &vec![ival(1)]).unwrap_err(), FrameError::ValueError);
    assert_eq!(t.edit_column("nope", &new_values).unwrap_err(), FrameError::NotFound);
}

#[test]
fn chunked_filter_matches_single_filter() {
    let t = people();
    let cond = Condition::Ge(ValueEnum::Int(3));
    let whole = t.filter("v", &cond).unwrap();
    for size in 1..=7 {
        let chunked = ChunkedProcessor::new(size).chunked_filter(&t, "v", &cond).unwrap();
        assert_eq!(format!("{:?}", chunked.to_rows()), format!("{:?}", whole.to_rows()), "chunk size {}", size);
    }
    assert_eq!(ChunkedProcessor::new(0).chunked_filter(&t, "v", &cond).unwrap_err(), FrameError::ValueError);
    assert_eq!(ChunkedProcessor::new(2).chunked_filter(&t, "nope", &cond).unwrap_err(), FrameError::NotFound);
}

#[test]
fn chunked_sort_matches_single_sort() {
    let t = people();
    for asc in [true, false] {
        let whole = t.sort_values(&names(&["k", "v"]), asc).unwrap();
        for size in 1..=7 {
            let chunked = ChunkedProcessor::new(size).chunked_sort(&t, &names(&["k", "v"]), asc).unwrap();
            assert_eq!(format!("{:?}", chunked.to_rows()), format!("{:?}", whole.to_rows()), "chunk size {}", size);
        }
    }
    let rows = vec![vec![ival(1), text("b")], vec![ival(1), text("a")], vec![ival(0), text("c")]];
    let s = TinyFrame::from_rows(&names(&["n", "s"]), &rows).unwrap();
    let sorted = ChunkedProcessor::new(1).chunked_sort(&s, &names(&["n"]), true).unwrap();
    assert_eq!(str_column(&sorted, "s"), vec![Some("c".to_string()), Some("b".to_string()), Some("a".to_string())]);
}

fn aggregates_by_key(g: &tinyframe::aggregate::GroupedAgg) -> Vec<(Vec<Option<String>>, Option<i64>)> {
    let mut out: Vec<(Vec<Option<String>>, Option<i64>)> = g
        .keys
        .iter()
        .zip(g.values.iter())
        .map(|(k, v)| {
            let key = k
                .iter()
                .map(|x| match x {
                    Some(ValueEnum::Str(s)) => Some(s.clone()),
                    _ => None,
                })
                .collect();
            (key, *v)
        })
        .collect();
    out.sort();
    out
}

#[test]
fn groupby_aggregates() {
    let t = people();
    let key = |s: &str| vec![Some(s.to_string())];
    let expect = |agg: Aggregate, x: i64, y: i64, z: i64| {
        let g = t.groupby_aggregate(&names(&["k"]), "v", agg).unwrap();
        assert_eq!(aggregates_by_key(&g), vec![(key("x"), Some(x)), (key("y"), Some(y)), (key("z"), Some(z))], "{:?}", agg);
    };
    expect(Aggregate::Count, 2, 2, 1);
    expect(Aggregate::Sum, 12, -1, 10);
    expect(Aggregate::Min, 5, -4, 10);
    expect(Aggregate::Max, 7, 3, 10);
    expect(Aggregate::First, 5, 3, 10);
    expect(Aggregate::Last, 7, -4, 10);
    assert_eq!(t.groupby_aggregate(&names(&["nope"]), "v", Aggregate::Max).unwrap_err(), FrameError::NotFound);
}

#[test]
fn grouped_results_as_a_table() {
    let t = people();
    let g = t.groupby_aggregate(&names(&["k"]), "v", Aggregate::Sum).unwrap();
    let table = g.to_frame(&names(&["k"]), "v", Aggregate::Sum).unwrap();
    assert_eq!(table.columns(), names(&["k", "v_sum"]));
    assert_eq!(table.len(), 3);
    assert_eq!(str_column(&table, "k"), vec![Some("x".to_string()), Some("y".to_string()), Some("z".to_string())]);
    assert_eq!(int_column(&table, "v_sum"), vec![Some(12), Some(-1), Some(10)]);
    assert_eq!(g.to_frame(&names(&["v_sum"]), "v", Aggregate::Sum).unwrap_err(), FrameError::ValueError);
}

#[test]
fn filter_refuses_numbers_of_the_other_kind() {
    let t = people();
    assert_eq!(t.filter("v", &Condition::Gt(ValueEnum::Float(2.5f64.to_bits()))).unwrap_err(), FrameError::TypeMismatch);
    assert_eq!(ParallelOps::parallel_filter(&t, "v", &Condition::Ne(ValueEnum::Float(2.5f64.to_bits()))).unwrap_err(), FrameError::TypeMismatch);
    assert_eq!(ChunkedProcessor::new(2).chunked_filter(&t, "v", &Condition::Eq(ValueEnum::Float(3.0f64.to_bits()))).unwrap_err(), FrameError::TypeMismatch);
    let f = TinyFrame::from_rows(&names(&["f"]), &vec![vec![float(91.5)], vec![float(80.0)]]).unwrap();
    assert_eq!(f.filter("f", &Condition::Gt(ValueEnum::Int(90))).unwrap_err(), FrameError::TypeMismatch);
    // strings and same-kind numbers are still compared
    assert_eq!(t.filter("k", &Condition::Eq(ValueEnum::Float(1.0f64.to_bits()))).unwrap().len(), 0);
}

#[test]
fn drop_columns_keeps_remaining_values() {
    let mut t = people();
    t.drop_columns(&names(&["k"])).unwrap();
    assert_eq!(int_column(&t, "v"), vec![Some(5), Some(3), None, Some(10), Some(-4), Some(7)]);
    assert_eq!(str_column(&t, "id"), ["p", "q", "r", "s", "t", "u"].iter().map(|x| Some(x.to_string())).collect::<Vec<_>>());
}

#[test]
fn replace_column_checks_name_and_length() {
    let mut t = people();
    assert_eq!(t.replace_column("v", TinyColumn::Int(vec![1])).unwrap_err(), FrameError::ValueError);
    assert_eq!(t.replace_column("nope", TinyColumn::Int(vec![1; 6])).unwrap_err(), FrameError::NotFound);
    t.replace_column("v", TinyColumn::Int(vec![1; 6])).unwrap();
    assert_eq!(int_column(&t, "v"), vec![Some(1); 6]);
}
