use vstd::prelude::*;
use rayon::iter::{IntoParallelIterator, IntoParallelRefIterator, ParallelIterator};
use rayon::slice::ParallelSliceMut;
use crate::column::{Kind, TinyColumn};
use crate::filter::{Condition, row_matches, match_mask, value_matches};
use crate::frame::{TinyFrame, FrameError, selected};
use crate::groupby::{GroupedSum, groupby_sum_rows, resolve_columns, key_positions};
use crate::sort::{sorted_permutation, sorted_result, typed_key, order_cmp};

verus! {

/// Whether row `i` of a column satisfies `cond`.
pub fn row_matches_at(col: &TinyColumn, i: usize, cond: &Condition) -> (r: bool)
    requires
        i < col.cells().len(),
    ensures
        r == row_matches(col.cells()[i as int], *cond),
{
    let v = col.get(i);
    value_matches(&v, cond)
}

/// The sort order of rows `a` and `b` of `t` on the key columns `ks`.
pub fn row_order(t: &TinyFrame, ks: &Vec<usize>, ascending: bool, a: usize, b: usize) -> (r: core::cmp::Ordering)
    requires
        t.wf(),
        a < t.nrows(),
        b < t.nrows(),
        forall|i: int| 0 <= i < ks@.len() ==> #[trigger] ks@[i] < t.ncols(),
    ensures
        (r == core::cmp::Ordering::Less) == (order_cmp(*t, ks@.map_values(|c: usize| c as int), ascending, a as int, b as int) < 0),
        (r == core::cmp::Ordering::Greater) == (order_cmp(*t, ks@.map_values(|c: usize| c as int), ascending, a as int, b as int) > 0),
{
    let c = crate::sort::compare_rows(t, ks, a, b);
    let d = if ascending {
        c
    } else {
        if c < 0 {
            1
        } else if c > 0 {
            -1
        } else {
            0
        }
    };
    if d < 0 {
        core::cmp::Ordering::Less
    } else if d > 0 {
        core::cmp::Ordering::Greater
    } else {
        core::cmp::Ordering::Equal
    }
}

/// Relies on rayon: the indexed parallel map over `0..n` collects into a vector
/// in index order, so entry `i` is the verdict of `row_matches_at` on row `i`.
#[verifier::external_body]
fn par_condition_mask(col: &TinyColumn, n: usize, cond: &Condition) -> (r: Vec<bool>)
    requires
        n == col.cells().len(),
    ensures
        r@ == Seq::new(col.cells().len(), |i: int| row_matches(col.cells()[i], *cond)),
{
    (0..n).into_par_iter().map(|i| row_matches_at(col, i, cond)).collect()
}

/// Relies on rayon's `par_sort_by`: a stable sort under the comparator. The
/// comparator, `row_order`, is a total preorder when every key column is typed,
/// so sorting `0..n` stably yields the rows in stable sorted order.
#[verifier::external_body]
fn par_sort_rows(t: &TinyFrame, ks: &Vec<usize>, ascending: bool, n: usize) -> (r: Vec<usize>)
    requires
        t.wf(),
        n == t.nrows(),
        forall|i: int| 0 <= i < ks@.len() ==> #[trigger] ks@[i] < t.ncols(),
        forall|i: int| 0 <= i < ks@.len() ==> typed_key(*t, (#[trigger] ks@[i]) as int),
    ensures
        sorted_permutation(*t, ks@.map_values(|c: usize| c as int), ascending, r@.map_values(|x: usize| x as int), n as int),
{
    let mut idx: Vec<usize> = (0..n).collect();
    idx.par_sort_by(|a, b| row_order(t, ks, ascending, *a, *b));
    idx
}

/// Relies on rayon: the indexed parallel map over `bounds` collects into a
/// vector in order, so entry `i` is what `groupby_sum_rows` returns for range `i`.
#[verifier::external_body]
fn par_group_ranges(t: &TinyFrame, keys: &Vec<usize>, v: usize, bounds: &Vec<(usize, usize)>) -> (r: Vec<GroupedSum>)
    requires
        t.wf(),
        forall|j: int| 0 <= j < keys@.len() ==> #[trigger] keys@[j] < t.ncols(),
        v < t.ncols(),
        t.col(v as int).shape().kind == Some(Kind::Int),
        forall|i: int| 0 <= i < bounds@.len() ==> (#[trigger] bounds@[i]).0 <= bounds@[i].1 <= t.nrows(),
    ensures
        r@.len() == bounds@.len(),
        forall|i: int| 0 <= i < r@.len() ==> (#[trigger] r@[i]).groups_of(*t, keys@.map_values(|c: usize| c as int), v as int, bounds@[i].0 as int, bounds@[i].1 as int),
{
    bounds.par_iter().map(|&(lo, hi)| groupby_sum_rows(t, keys, v, lo, hi)).collect()
}

/// Relies on `rayon::current_num_threads`: the number of worker threads,
/// which depends on the machine.
#[verifier::external_body]
fn worker_count() -> (r: usize) {
    rayon::current_num_threads()
}

/// Operators whose per-row work is fanned out over worker threads.
pub struct ParallelOps;

impl ParallelOps {
    /// Filter with the keep-mask computed in parallel; the same result as
    /// `TinyFrame::filter`.
    pub fn parallel_filter(frame: &TinyFrame, column: &str, cond: &Condition) -> (r: Result<TinyFrame, FrameError>)
        requires
            frame.wf(),
        ensures
            crate::filter::filter_result(*frame, column@, *cond, r),
    {
        let c = match frame.find_column(column) {
            Some(c) => c,
            None => {
                return Err(FrameError::NotFound);
            },
        };
        let col = frame.column_at(c);
        proof {
            assert(frame.col(c as int).cells().len() == frame.nrows());
        }
        if crate::filter::column_cross_kind(col, cond) {
            proof {
                let i = choose|i: int| 0 <= i < col.cells().len() && #[trigger] crate::filter::cross_kind(col.cells()[i], *cond);
                assert(crate::filter::cross_kind(frame.cell(c as int, i), *cond));
            }
            return Err(FrameError::TypeMismatch);
        }
        let n = col.len();
        let mask = par_condition_mask(col, n, cond);
        proof {
            assert(frame.col(c as int).cells().len() == frame.nrows());
            assert(mask@ =~= match_mask(*frame, c as int, *cond));
        }
        Ok(frame.select_rows(&mask))
    }

    /// Stable sort with the comparison sort run in parallel. At least one key
    /// column is required.
    pub fn parallel_sort(frame: &TinyFrame, by: &Vec<String>, ascending: bool) -> (r: Result<TinyFrame, FrameError>)
        requires
            frame.wf(),
        ensures
            by@.len() == 0 ==> r == Err::<TinyFrame, FrameError>(FrameError::ValueError),
            match r {
                Ok(t) => sorted_result(*frame, by@, ascending, t),
                Err(e) => (e == FrameError::ValueError && by@.len() == 0) || crate::sort::sort_error(*frame, by@, e),
            },
            by@.len() > 0 && (forall|j: int| 0 <= j < by@.len() ==> (#[trigger] frame.position(by@[j]@)) is Some
                && frame.col(frame.position(by@[j]@)->Some_0).shape().kind is Some) ==> r is Ok,
    {
        if by.len() == 0 {
            return Err(FrameError::ValueError);
        }
        let ks = match crate::sort::sort_keys(frame, by) {
            Ok(ks) => ks,
            Err(e) => {
                return Err(e);
            },
        };
        let n = frame.len();
        let order = par_sort_rows(frame, &ks, ascending, n);
        proof {
            let p = order@.map_values(|x: usize| x as int);
            assert forall|k: int| 0 <= k < order@.len() implies #[trigger] order@[k] < frame.nrows() by {
                assert(p[k] == order@[k] as int);
            }
        }
        let t = frame.take_rows(&order);
        proof {
            let p = order@.map_values(|x: usize| x as int);
            let kv = ks@.map_values(|c: usize| c as int);
            assert forall|q: int| 0 <= q < kv.len() implies kv[q] == #[trigger] key_positions(*frame, by@)[q] by {
                assert(frame.position(by@[q]@) == Some(ks@[q] as int));
            }
            assert(kv =~= key_positions(*frame, by@));
            assert(frame.picks(p, t));
            assert forall|q: int| 0 <= q < by@.len() implies (#[trigger] frame.position(by@[q]@)) is Some by {
                assert(frame.position(by@[q]@) == Some(ks@[q] as int));
            }
            assert(sorted_result(*frame, by@, ascending, t));
        }
        Ok(t)
    }

    /// Group-by sum with the rows split into one range per worker, each range
    /// grouped in parallel, and the partial groups merged in range order. At
    /// least one key column is required.
    pub fn parallel_groupby_sum(frame: &TinyFrame, group_keys: &Vec<String>, value_column: &str) -> (r: Result<GroupedSum, FrameError>)
        requires
            frame.wf(),
        ensures
            group_keys@.len() == 0 ==> r == Err::<GroupedSum, FrameError>(FrameError::ValueError),
            match r {
                Ok(gs) => {
                    &&& crate::groupby::group_columns_ok(*frame, group_keys@, value_column@)
                    &&& gs.groups_of(*frame, key_positions(*frame, group_keys@), frame.position(value_column@)->Some_0, 0, frame.nrows() as int)
                },
                Err(e) => (e == FrameError::ValueError && group_keys@.len() == 0) || crate::groupby::group_error(*frame, group_keys@, value_column@, e),
            },
            group_keys@.len() > 0 && crate::groupby::group_columns_ok(*frame, group_keys@, value_column@) ==> r is Ok,
    {
        if group_keys.len() == 0 {
            return Err(FrameError::ValueError);
        }
        let (keys, v) = match resolve_columns(frame, group_keys, value_column) {
            Ok(kv) => kv,
            Err(e) => {
                return Err(e);
            },
        };
        let ghost ks = keys@.map_values(|c: usize| c as int);
        proof {
            assert forall|j: int| 0 <= j < keys@.len() implies #[trigger] keys@[j] < frame.ncols() by {
                assert(frame.position(group_keys@[j]@) == Some(keys@[j] as int));
            }
        }
        let n = frame.len();
        let workers = worker_count();
        let parts: usize = if workers == 0 {
            1
        } else {
            workers
        };
        let size: usize = if n / parts == 0 {
            1
        } else {
            n / parts
        };
        let mut bounds: Vec<(usize, usize)> = Vec::new();
        let mut lo: usize = 0;
        while lo < n
            invariant
                n == frame.nrows(),
                size > 0,
                lo <= n,
                bounds@.len() > 0 ==> bounds@.last().1 == lo,
                bounds@.len() == 0 ==> lo == 0,
                bounds@.len() > 0 ==> bounds@[0].0 == 0,
                forall|i: int| 0 <= i < bounds@.len() ==> (#[trigger] bounds@[i]).0 <= bounds@[i].1 <= n,
                forall|i: int| 0 < i < bounds@.len() ==> (#[trigger] bounds@[i]).0 == bounds@[i - 1].1,
            decreases n - lo,
        {
            let hi = if n - lo > size {
                lo + size
            } else {
                n
            };
            bounds.push((lo, hi));
            lo = hi;
        }
        let partials = par_group_ranges(frame, &keys, v, &bounds);
        let mut acc = groupby_sum_rows(frame, &keys, v, 0, 0);
        let mut i: usize = 0;
        while i < partials.len()
            invariant
                frame.wf(),
                n == frame.nrows(),
                ks == keys@.map_values(|c: usize| c as int),
                partials@.len() == bounds@.len(),
                forall|q: int| 0 <= q < partials@.len() ==> (#[trigger] partials@[q]).groups_of(*frame, ks, v as int, bounds@[q].0 as int, bounds@[q].1 as int),
                forall|q: int| 0 <= q < bounds@.len() ==> (#[trigger] bounds@[q]).0 <= bounds@[q].1 <= n,
                forall|q: int| 0 < q < bounds@.len() ==> (#[trigger] bounds@[q]).0 == bounds@[q - 1].1,
                bounds@.len() > 0 ==> bounds@[0].0 == 0,
                bounds@.len() > 0 ==> bounds@.last().1 == n,
                bounds@.len() == 0 ==> n == 0,
                i <= partials@.len(),
                acc.groups_of(*frame, ks, v as int, 0, if i == 0 { 0 } else { bounds@[i - 1].1 as int }),
            decreases partials@.len() - i,
        {
            let ghost lo_i: int = if i == 0 { 0 } else { bounds@[i - 1].1 as int };
            assert(bounds@[i as int].0 == lo_i);
            crate::chunked::merge_groups(&mut acc, &partials[i], Ghost(*frame), Ghost(ks), Ghost(v as int), Ghost(lo_i), Ghost(bounds@[i as int].1 as int));
            i = i + 1;
        }
        proof {
            assert forall|j: int| 0 <= j < ks.len() implies ks[j] == #[trigger] key_positions(*frame, group_keys@)[j] by {
                assert(frame.position(group_keys@[j]@) == Some(keys@[j] as int));
            }
            assert(ks =~= key_positions(*frame, group_keys@));
            assert forall|j: int| 0 <= j < group_keys@.len() implies (#[trigger] frame.position(group_keys@[j]@)) is Some by {
                assert(frame.position(group_keys@[j]@) == Some(keys@[j] as int));
            }
        }
        Ok(acc)
    }
}

/// Two tables that take the same rows of one table are the same table: a
/// filter run with a parallel mask equals the sequential one.
pub proof fn same_picks_same_rows(t: TinyFrame, idx: Seq<int>, u1: TinyFrame, u2: TinyFrame)
    requires
        t.picks(idx, u1),
        t.picks(idx, u2),
    ensures
        u1.rows() == u2.rows(),
        u1.names_view() == u2.names_view(),
{
    assert forall|r: int| 0 <= r < u1.nrows() implies #[trigger] u1.rows()[r] == u2.rows()[r] by {
        assert forall|c: int| 0 <= c < u1.ncols() implies u1.rows()[r][c] == u2.rows()[r][c] by {
            assert(u1.cell(c, r) == t.cell(c, idx[r]));
            assert(u2.cell(c, r) == t.cell(c, idx[r]));
        }
        assert(u1.rows()[r] =~= u2.rows()[r]);
    }
    assert(u1.rows() =~= u2.rows());
}

} // verus!
