use vstd::prelude::*;
use vstd::string::StringExecFns;
use crate::column::{Cell, Kind, TinyColumn, ValueEnum, infer_column, opt_views};
use crate::frame::{TinyFrame, FrameError};
use crate::groupby::{row_key, key_occurs, key_of_row, find_group, resolve_columns, key_positions};
use crate::simd::{wrap_i64, lemma_wrapping_add};

verus! {

/// The integer aggregates a group-by computes. Null values are skipped.
#[derive(Debug, Clone, Copy, PartialEq, Eq, Structural)]
pub enum Aggregate {
    /// The number of non-null values.
    Count,
    /// Their sum, wrapping in 64 bits.
    Sum,
    Min,
    Max,
    /// The first non-null value, in row order.
    First,
    /// The last non-null value, in row order.
    Last,
}

/// The running result after one more slot: a null leaves it unchanged.
pub open spec fn agg_step(agg: Aggregate, acc: Option<int>, x: Option<Cell>) -> Option<int> {
    match x {
        Some(Cell::Int(v)) => match agg {
            Aggregate::Count => Some(wrap_i64(
                match acc {
                    Some(a) => a,
                    None => 0,
                } + 1,
            )),
            Aggregate::Sum => Some(wrap_i64(
                match acc {
                    Some(a) => a,
                    None => 0,
                } + v,
            )),
            Aggregate::Min => Some(
                match acc {
                    Some(a) => if a <= v { a } else { v as int },
                    None => v as int,
                },
            ),
            Aggregate::Max => Some(
                match acc {
                    Some(a) => if a >= v { a } else { v as int },
                    None => v as int,
                },
            ),
            Aggregate::First => match acc {
                Some(a) => Some(a),
                None => Some(v as int),
            },
            Aggregate::Last => Some(v as int),
        },
        _ => acc,
    }
}

/// The aggregate of column `v` over the rows in `[lo, hi)` whose key is
/// `key`; `None` when they hold no value.
pub open spec fn key_fold(t: TinyFrame, keys: Seq<int>, v: int, agg: Aggregate, key: Seq<Option<Cell>>, lo: int, hi: int) -> Option<int>
    decreases hi - lo,
{
    if hi <= lo {
        None
    } else {
        let a = key_fold(t, keys, v, agg, key, lo, hi - 1);
        if row_key(t, keys, hi - 1) == key {
            agg_step(agg, a, t.cell(v, hi - 1))
        } else {
            a
        }
    }
}

/// Per-group aggregates: one key tuple and one result per group.
#[derive(Debug)]
pub struct GroupedAgg {
    pub keys: Vec<Vec<Option<ValueEnum>>>,
    pub values: Vec<Option<i64>>,
}

impl GroupedAgg {
    pub open spec fn key(&self, g: int) -> Seq<Option<Cell>> {
        opt_views(self.keys@[g]@)
    }

    pub open spec fn result(&self, g: int) -> Option<int> {
        match self.values@[g] {
            Some(x) => Some(x as int),
            None => None,
        }
    }

    pub open spec fn has_group(&self, k: Seq<Option<Cell>>) -> bool {
        exists|g: int| 0 <= g < self.keys@.len() && #[trigger] self.key(g) == k
    }

    /// `self` holds exactly the groups of rows `[lo, hi)` of `t` by `keys`,
    /// each key once, with the aggregate of column `v`.
    pub open spec fn aggregates_of(&self, t: TinyFrame, keys: Seq<int>, v: int, agg: Aggregate, lo: int, hi: int) -> bool {
        &&& self.keys@.len() == self.values@.len()
        &&& forall|g: int| 0 <= g < self.keys@.len() ==> key_occurs(t, keys, #[trigger] self.key(g), lo, hi)
        &&& forall|r: int| lo <= r < hi ==> self.has_group(#[trigger] row_key(t, keys, r))
        &&& forall|g1: int, g2: int| 0 <= g1 < g2 < self.keys@.len() ==> self.key(g1) != self.key(g2)
        &&& forall|g: int| 0 <= g < self.keys@.len() ==> #[trigger] self.result(g) == key_fold(t, keys, v, agg, self.key(g), lo, hi)
    }
}

/// One step of the aggregate, as `agg_step`.
fn step(agg: Aggregate, acc: Option<i64>, x: Option<i64>) -> (r: Option<i64>)
    ensures
        (match r {
            Some(y) => Some(y as int),
            None => None,
        }) == agg_step(
            agg,
            match acc {
                Some(a) => Some(a as int),
                None => None,
            },
            match x {
                Some(v) => Some(Cell::Int(v)),
                None => None,
            },
        ),
{
    let v = match x {
        None => {
            return acc;
        },
        Some(v) => v,
    };
    let base: i64 = match acc {
        Some(a) => a,
        None => 0,
    };
    proof {
        lemma_wrapping_add(base, 1);
        lemma_wrapping_add(base, v);
    }
    match agg {
        Aggregate::Count => Some(base.wrapping_add(1)),
        Aggregate::Sum => Some(base.wrapping_add(v)),
        Aggregate::Min => match acc {
            Some(a) => Some(if a <= v { a } else { v }),
            None => Some(v),
        },
        Aggregate::Max => match acc {
            Some(a) => Some(if a >= v { a } else { v }),
            None => Some(v),
        },
        Aggregate::First => match acc {
            Some(a) => Some(a),
            None => Some(v),
        },
        Aggregate::Last => Some(v),
    }
}

/// Group rows `[0, n)` by the key columns and aggregate the value column.
/// Groups come in the order their key first appears.
fn aggregate_rows(t: &TinyFrame, keys: &Vec<usize>, v: usize, agg: Aggregate) -> (r: GroupedAgg)
    requires
        t.wf(),
        forall|j: int| 0 <= j < keys@.len() ==> #[trigger] keys@[j] < t.ncols(),
        v < t.ncols(),
        t.col(v as int).shape().kind == Some(Kind::Int),
    ensures
        r.aggregates_of(*t, keys@.map_values(|c: usize| c as int), v as int, agg, 0, t.nrows() as int),
{
    let ghost ks = keys@.map_values(|c: usize| c as int);
    let mut out = GroupedAgg { keys: Vec::new(), values: Vec::new() };
    let n = t.len();
    let mut r: usize = 0;
    proof {
        assert(t.col(v as int).cells().len() == t.nrows());
    }
    while r < n
        invariant
            t.wf(),
            n == t.nrows(),
            ks == keys@.map_values(|c: usize| c as int),
            forall|j: int| 0 <= j < keys@.len() ==> #[trigger] keys@[j] < t.ncols(),
            v < t.ncols(),
            t.col(v as int).shape().kind == Some(Kind::Int),
            t.col(v as int).cells().len() == t.nrows(),
            r <= n,
            out.aggregates_of(*t, ks, v as int, agg, 0, r as int),
        decreases n - r,
    {
        let key = key_of_row(t, keys, r);
        let x = crate::groupby::int_at(t.column_at(v), r);
        let ghost before = out;
        match find_group(&out.keys, &key) {
            Some(g) => {
                let next = step(agg, out.values[g], x);
                out.values.set(g, next);
                proof {
                    assert(out.keys@ == before.keys@);
                    assert(before.key(g as int) == row_key(*t, ks, r as int));
                    assert(before.result(g as int) == key_fold(*t, ks, v as int, agg, before.key(g as int), 0, r as int));
                    assert(out.result(g as int) == agg_step(agg, before.result(g as int), t.cell(v as int, r as int)));
                    assert forall|h: int| 0 <= h < out.keys@.len() implies #[trigger] out.result(h) == key_fold(*t, ks, v as int, agg, out.key(h), 0, r as int + 1) by {
                        assert(out.key(h) == before.key(h));
                        if h == g {
                            assert(row_key(*t, ks, r as int) == out.key(h));
                            assert(key_fold(*t, ks, v as int, agg, out.key(h), 0, r as int + 1) == agg_step(agg, key_fold(*t, ks, v as int, agg, out.key(h), 0, r as int), t.cell(v as int, r as int)));
                        } else {
                            if h < g {
                                assert(before.key(h) != before.key(g as int));
                            } else {
                                assert(before.key(g as int) != before.key(h));
                            }
                            assert(out.values@[h] == before.values@[h]);
                            assert(out.result(h) == before.result(h));
                            assert(row_key(*t, ks, r as int) != out.key(h));
                            assert(key_fold(*t, ks, v as int, agg, out.key(h), 0, r as int + 1) == key_fold(*t, ks, v as int, agg, out.key(h), 0, r as int));
                        }
                    }
                    assert forall|q: int| 0 <= q < r + 1 implies out.has_group(#[trigger] row_key(*t, ks, q)) by {
                        if q == r {
                            assert(out.key(g as int) == row_key(*t, ks, q));
                        } else {
                            let h = choose|h: int| 0 <= h < before.keys@.len() && before.key(h) == row_key(*t, ks, q);
                            assert(out.key(h) == row_key(*t, ks, q));
                        }
                    }
                    assert forall|h: int| 0 <= h < out.keys@.len() implies key_occurs(*t, ks, #[trigger] out.key(h), 0, r as int + 1) by {
                        assert(out.key(h) == before.key(h));
                        assert(key_occurs(*t, ks, before.key(h), 0, r as int));
                        let q = choose|q: int| 0 <= q < r && row_key(*t, ks, q) == before.key(h);
                    }
                    assert forall|g1: int, g2: int| 0 <= g1 < g2 < out.keys@.len() implies out.key(g1) != out.key(g2) by {
                        assert(out.key(g1) == before.key(g1));
                        assert(out.key(g2) == before.key(g2));
                    }
                }
            },
            None => {
                let first = step(agg, None, x);
                proof {
                    let kk = opt_views(key@);
                    assert(!key_occurs(*t, ks, kk, 0, r as int)) by {
                        if key_occurs(*t, ks, kk, 0, r as int) {
                            let q = choose|q: int| 0 <= q < r && row_key(*t, ks, q) == kk;
                            let h = choose|h: int| 0 <= h < before.keys@.len() && #[trigger] before.key(h) == row_key(*t, ks, q);
                        }
                    }
                    lemma_fold_absent(*t, ks, v as int, agg, kk, 0, r as int);
                }
                out.keys.push(key);
                out.values.push(first);
                proof {
                    let m = before.keys@.len() as int;
                    assert(out.key(m) == row_key(*t, ks, r as int));
                    assert forall|h: int| 0 <= h < out.keys@.len() implies #[trigger] out.result(h) == key_fold(*t, ks, v as int, agg, out.key(h), 0, r as int + 1) by {
                        if h != m {
                            assert(out.key(h) == before.key(h));
                            assert(out.result(h) == before.result(h));
                        }
                    }
                    assert forall|q: int| 0 <= q < r + 1 implies out.has_group(#[trigger] row_key(*t, ks, q)) by {
                        if q == r {
                            assert(out.key(m) == row_key(*t, ks, q));
                        } else {
                            let h = choose|h: int| 0 <= h < before.keys@.len() && before.key(h) == row_key(*t, ks, q);
                            assert(out.key(h) == row_key(*t, ks, q));
                        }
                    }
                    assert forall|h: int| 0 <= h < out.keys@.len() implies key_occurs(*t, ks, #[trigger] out.key(h), 0, r as int + 1) by {
                        if h == m {
                            assert(row_key(*t, ks, r as int) == out.key(h));
                        } else {
                            assert(out.key(h) == before.key(h));
                            assert(key_occurs(*t, ks, before.key(h), 0, r as int));
                            let q = choose|q: int| 0 <= q < r && row_key(*t, ks, q) == before.key(h);
                        }
                    }
                    assert forall|g1: int, g2: int| 0 <= g1 < g2 < out.keys@.len() implies out.key(g1) != out.key(g2) by {
                        assert(out.key(g1) == before.key(g1));
                        if g2 < m {
                            assert(out.key(g2) == before.key(g2));
                        }
                    }
                }
            },
        }
        r = r + 1;
    }
    out
}

/// A key that no row of the range has aggregates to nothing.
proof fn lemma_fold_absent(t: TinyFrame, keys: Seq<int>, v: int, agg: Aggregate, key: Seq<Option<Cell>>, lo: int, hi: int)
    requires
        !key_occurs(t, keys, key, lo, hi),
    ensures
        key_fold(t, keys, v, agg, key, lo, hi) is None,
    decreases hi - lo,
{
    if hi > lo {
        assert(row_key(t, keys, hi - 1) != key);
        lemma_absent_step(t, keys, key, lo, hi);
        lemma_fold_absent(t, keys, v, agg, key, lo, hi - 1);
    }
}

proof fn lemma_absent_step(t: TinyFrame, keys: Seq<int>, key: Seq<Option<Cell>>, lo: int, hi: int)
    requires
        lo < hi,
        !key_occurs(t, keys, key, lo, hi),
    ensures
        !key_occurs(t, keys, key, lo, hi - 1),
{
}

/// The name suffix of an aggregate's output column.
pub open spec fn agg_name(agg: Aggregate) -> Seq<char> {
    match agg {
        Aggregate::Count => seq!['c', 'o', 'u', 'n', 't'],
        Aggregate::Sum => seq!['s', 'u', 'm'],
        Aggregate::Min => seq!['m', 'i', 'n'],
        Aggregate::Max => seq!['m', 'a', 'x'],
        Aggregate::First => seq!['f', 'i', 'r', 's', 't'],
        Aggregate::Last => seq!['l', 'a', 's', 't'],
    }
}

/// The output column name for aggregating `value`: `"{value}_{agg}"`.
fn output_name(value: &str, agg: Aggregate) -> (r: String)
    ensures
        r@ == value@ + seq!['_'] + agg_name(agg),
{
    let base = value.to_owned().concat("_");
    let suffix = match agg {
        Aggregate::Count => "count",
        Aggregate::Sum => "sum",
        Aggregate::Min => "min",
        Aggregate::Max => "max",
        Aggregate::First => "first",
        Aggregate::Last => "last",
    };
    proof {
        reveal_strlit("_");
        reveal_strlit("count");
        reveal_strlit("sum");
        reveal_strlit("min");
        reveal_strlit("max");
        reveal_strlit("first");
        reveal_strlit("last");
        assert(suffix@ =~= agg_name(agg));
        assert("_"@ =~= seq!['_']);
    }
    base.concat(suffix)
}

/// Slot `j` of every key tuple.
pub open spec fn key_column(keys: Seq<Vec<Option<ValueEnum>>>, j: int) -> Seq<Option<Cell>> {
    keys.map_values(|k: Vec<Option<ValueEnum>>| opt_views(k@)[j])
}

/// The results as slots of an integer column.
pub open spec fn result_cells(values: Seq<Option<i64>>) -> Seq<Option<Cell>> {
    values.map_values(|x: Option<i64>| match x {
        Some(v) => Some(Cell::Int(v)),
        None => None,
    })
}

impl GroupedAgg {
    /// The groups as a table: one column per key (named by `key_names`, of the
    /// representation type inference picks), then the results in a nullable
    /// integer column named `"{value}_{agg}"`. Fails with `ValueError` when
    /// these names are not distinct.
    pub fn to_frame(&self, key_names: &Vec<String>, value: &str, agg: Aggregate) -> (r: Result<TinyFrame, FrameError>)
        requires
            self.keys@.len() == self.values@.len(),
            forall|g: int| 0 <= g < self.keys@.len() ==> (#[trigger] self.keys@[g])@.len() == key_names@.len(),
        ensures
            match r {
                Ok(t) => {
                    &&& t.names_view() == crate::string_optimize::views(key_names@).push(value@ + seq!['_'] + agg_name(agg))
                    &&& t.nrows() == self.keys@.len()
                    &&& forall|j: int| 0 <= j < key_names@.len() ==> (#[trigger] t.col(j)).cells() == key_column(self.keys@, j)
                    &&& t.col(key_names@.len() as int).cells() == result_cells(self.values@)
                },
                Err(e) => e == FrameError::ValueError && !crate::string_optimize::views(key_names@).push(value@ + seq!['_'] + agg_name(agg)).no_duplicates(),
            },
            crate::string_optimize::views(key_names@).push(value@ + seq!['_'] + agg_name(agg)).no_duplicates() ==> r is Ok,
    {
        let mut names: Vec<String> = Vec::new();
        let mut j: usize = 0;
        while j < key_names.len()
            invariant
                j <= key_names@.len(),
                crate::string_optimize::views(names@) == crate::string_optimize::views(key_names@).take(j as int),
            decreases key_names@.len() - j,
        {
            let ghost before = names@;
            let s = key_names[j].clone();
            names.push(s);
            assert(crate::string_optimize::views(names@) =~= crate::string_optimize::views(before).push(s@));
            j = j + 1;
            assert(crate::string_optimize::views(names@) =~= crate::string_optimize::views(key_names@).take(j as int));
        }
        let ghost kv = crate::string_optimize::views(key_names@);
        assert(kv.take(key_names@.len() as int) =~= kv);
        let ghost nb = names@;
        let last = output_name(value, agg);
        names.push(last);
        assert(crate::string_optimize::views(names@) =~= crate::string_optimize::views(nb).push(last@));
        if !crate::frame::names_distinct(&names) {
            return Err(FrameError::ValueError);
        }
        let n = self.keys.len();
        let mut cols: Vec<TinyColumn> = Vec::new();
        let mut j: usize = 0;
        while j < key_names.len()
            invariant
                self.keys@.len() == self.values@.len(),
                n == self.keys@.len(),
                forall|g: int| 0 <= g < self.keys@.len() ==> (#[trigger] self.keys@[g])@.len() == key_names@.len(),
                j <= key_names@.len(),
                cols@.len() == j,
                forall|d: int| 0 <= d < j ==> (#[trigger] cols@[d]).cells() == key_column(self.keys@, d),
            decreases key_names@.len() - j,
        {
            let mut vals: Vec<Option<ValueEnum>> = Vec::new();
            let mut g: usize = 0;
            while g < n
                invariant
                    n == self.keys@.len(),
                    forall|g: int| 0 <= g < self.keys@.len() ==> (#[trigger] self.keys@[g])@.len() == key_names@.len(),
                    j < key_names@.len(),
                    g <= n,
                    opt_views(vals@) == key_column(self.keys@, j as int).take(g as int),
                decreases n - g,
            {
                let x = crate::column::duplicate_opt(&self.keys[g][j]);
                let ghost before = vals@;
                vals.push(x);
                assert(opt_views(vals@) =~= opt_views(before).push(crate::column::opt_view(x)));
                g = g + 1;
                assert(opt_views(vals@) =~= key_column(self.keys@, j as int).take(g as int));
            }
            assert(key_column(self.keys@, j as int).take(n as int) =~= key_column(self.keys@, j as int));
            cols.push(infer_column(&vals));
            j = j + 1;
        }
        let mut results: Vec<Option<i64>> = Vec::new();
        let mut g: usize = 0;
        while g < n
            invariant
                n == self.values@.len(),
                g <= n,
                results@ == self.values@.take(g as int),
            decreases n - g,
        {
            results.push(self.values[g]);
            g = g + 1;
            assert(results@ =~= self.values@.take(g as int));
        }
        assert(self.values@.take(n as int) =~= self.values@);
        let result_col = TinyColumn::OptInt(results);
        assert(result_col.cells() =~= result_cells(self.values@));
        cols.push(result_col);
        let t = TinyFrame::from_parts(names, cols, n);
        Ok(t)
    }
}

impl TinyFrame {
    /// Group the rows by the string columns `key_names` and aggregate the
    /// integer column `value` per group; a group whose values are all null
    /// has no result.
    pub fn groupby_aggregate(&self, key_names: &Vec<String>, value: &str, agg: Aggregate) -> (r: Result<GroupedAgg, FrameError>)
        requires
            self.wf(),
        ensures
            match r {
                Ok(ga) => {
                    &&& crate::groupby::group_columns_ok(*self, key_names@, value@)
                    &&& ga.aggregates_of(*self, key_positions(*self, key_names@), self.position(value@)->Some_0, agg, 0, self.nrows() as int)
                },
                Err(e) => crate::groupby::group_error(*self, key_names@, value@, e),
            },
            crate::groupby::group_columns_ok(*self, key_names@, value@) ==> r is Ok,
    {
        let (keys, v) = match resolve_columns(self, key_names, value) {
            Ok(kv) => kv,
            Err(e) => {
                return Err(e);
            },
        };
        proof {
            assert forall|j: int| 0 <= j < keys@.len() implies #[trigger] keys@[j] < self.ncols() by {
                assert(self.position(key_names@[j]@) == Some(keys@[j] as int));
            }
        }
        let ga = aggregate_rows(self, &keys, v, agg);
        proof {
            let ks = keys@.map_values(|c: usize| c as int);
            assert forall|j: int| 0 <= j < ks.len() implies ks[j] == #[trigger] key_positions(*self, key_names@)[j] by {
                assert(self.position(key_names@[j]@) == Some(keys@[j] as int));
            }
            assert(ks =~= key_positions(*self, key_names@));
            assert forall|j: int| 0 <= j < key_names@.len() implies (#[trigger] self.position(key_names@[j]@)) is Some by {
                assert(self.position(key_names@[j]@) == Some(keys@[j] as int));
            }
        }
        Ok(ga)
    }
}

} // verus!
