use vstd::prelude::*;
use crate::column::{Cell, Kind, opt_views};
use crate::frame::{TinyFrame, FrameError};
use crate::groupby::{
    GroupedSum, groupby_sum_rows, resolve_columns, key_positions, reported, key_occurs, row_key,
    key_sum, key_count, lemma_key_split,
};
use crate::simd::{wrap_i64, lemma_wrap_add, lemma_wrapping_add, lemma_wrap_small};
use crate::filter::{Condition, match_mask};
use crate::frame::{selected};
use crate::sort::{sorted_result, sorted_permutation, order_cmp, keys_cmp, precedes};

verus! {

/// Two partial totals of one group added: the wrapped sum where both have
/// values, else whichever has one.
pub open spec fn combine(a: Option<int>, b: Option<int>) -> Option<int> {
    match (a, b) {
        (Some(x), Some(y)) => Some(wrap_i64(x + y)),
        (Some(x), None) => Some(x),
        (None, y) => y,
    }
}

proof fn lemma_count_nonneg(t: TinyFrame, keys: Seq<int>, v: int, key: Seq<Option<Cell>>, lo: int, hi: int)
    ensures
        key_count(t, keys, v, key, lo, hi) >= 0,
        key_count(t, keys, v, key, lo, hi) == 0 ==> key_sum(t, keys, v, key, lo, hi) == 0,
    decreases hi - lo,
{
    if hi > lo {
        lemma_count_nonneg(t, keys, v, key, lo, hi - 1);
    }
}

/// The total over `[lo, hi)` combines the totals over `[lo, mid)` and `[mid, hi)`.
pub proof fn lemma_reported_split(t: TinyFrame, keys: Seq<int>, v: int, key: Seq<Option<Cell>>, lo: int, mid: int, hi: int)
    requires
        lo <= mid <= hi,
    ensures
        reported(t, keys, v, key, lo, hi) == combine(reported(t, keys, v, key, lo, mid), reported(t, keys, v, key, mid, hi)),
{
    lemma_key_split(t, keys, v, key, lo, mid, hi);
    lemma_count_nonneg(t, keys, v, key, lo, mid);
    lemma_count_nonneg(t, keys, v, key, mid, hi);
    let s1 = key_sum(t, keys, v, key, lo, mid);
    let s2 = key_sum(t, keys, v, key, mid, hi);
    lemma_wrap_add(s1, wrap_i64(s2));
    lemma_wrap_add(s2, s1);
}

proof fn lemma_absent(t: TinyFrame, keys: Seq<int>, v: int, key: Seq<Option<Cell>>, lo: int, hi: int)
    requires
        !key_occurs(t, keys, key, lo, hi),
    ensures
        reported(t, keys, v, key, lo, hi) is None,
    decreases hi - lo,
{
    if hi > lo {
        assert(row_key(t, keys, hi - 1) != key);
        lemma_absent(t, keys, v, key, lo, hi - 1);
    }
}

/// Add the groups of `[lo, hi)` into the groups of `[0, lo)`.
pub(crate) fn merge_groups(acc: &mut GroupedSum, part: &GroupedSum, Ghost(t): Ghost<TinyFrame>, Ghost(keys): Ghost<Seq<int>>, Ghost(v): Ghost<int>, Ghost(lo): Ghost<int>, Ghost(hi): Ghost<int>)
    requires
        0 <= lo <= hi,
        old(acc).groups_of(t, keys, v, 0, lo),
        part.groups_of(t, keys, v, lo, hi),
    ensures
        final(acc).groups_of(t, keys, v, 0, hi),
{
    let ghost start = *acc;
    let mut j: usize = 0;
    while j < part.keys.len()
        invariant
            0 <= lo <= hi,
            start.groups_of(t, keys, v, 0, lo),
            part.groups_of(t, keys, v, lo, hi),
            j <= part.keys@.len(),
            acc.keys@.len() == acc.sums@.len(),
            forall|g1: int, g2: int| 0 <= g1 < g2 < acc.keys@.len() ==> acc.key(g1) != acc.key(g2),
            forall|g: int| 0 <= g < acc.keys@.len() ==> key_occurs(t, keys, #[trigger] acc.key(g), 0, hi),
            forall|r: int| 0 <= r < lo ==> acc.has_group(#[trigger] row_key(t, keys, r)),
            forall|i: int| 0 <= i < j ==> acc.has_group(#[trigger] part.key(i)),
            forall|g: int| 0 <= g < acc.keys@.len() ==> #[trigger] acc.total(g) == (if exists|i: int| 0 <= i < j && part.key(i) == acc.key(g) {
                reported(t, keys, v, acc.key(g), 0, hi)
            } else {
                reported(t, keys, v, acc.key(g), 0, lo)
            }),
        decreases part.keys@.len() - j,
    {
        let ghost before = *acc;
        let ghost k = part.key(j as int);
        proof {
            assert(part.total(j as int) == reported(t, keys, v, k, lo, hi));
            lemma_reported_split(t, keys, v, k, 0, lo, hi);
        }
        match crate::groupby::find_group(&acc.keys, &part.keys[j]) {
            Some(g) => {
                let next = match (acc.sums[g], part.sums[j]) {
                    (Some(a), Some(b)) => Some(a.wrapping_add(b)),
                    (Some(a), None) => Some(a),
                    (None, b) => b,
                };
                proof {
                    assert(before.key(g as int) == k);
                    assert(!exists|i: int| 0 <= i < j && part.key(i) == before.key(g as int)) by {
                        if exists|i: int| 0 <= i < j && part.key(i) == before.key(g as int) {
                            let i = choose|i: int| 0 <= i < j && part.key(i) == before.key(g as int);
                            assert(part.key(i) != part.key(j as int));
                        }
                    }
                    assert(before.total(g as int) == reported(t, keys, v, k, 0, lo));
                    match (acc.sums@[g as int], part.sums@[j as int]) {
                        (Some(a), Some(b)) => {
                            lemma_wrapping_add(a, b);
                        },
                        _ => {},
                    }
                }
                acc.sums.set(g, next);
                proof {
                    assert(acc.keys@ == before.keys@);
                    assert forall|h: int| 0 <= h < acc.keys@.len() implies #[trigger] acc.total(h) == (if exists|i: int| 0 <= i < j + 1 && part.key(i) == acc.key(h) {
                        reported(t, keys, v, acc.key(h), 0, hi)
                    } else {
                        reported(t, keys, v, acc.key(h), 0, lo)
                    }) by {
                        assert(acc.key(h) == before.key(h));
                        let ex_new = exists|i: int| 0 <= i < j + 1 && part.key(i) == acc.key(h);
                        let ex_old = exists|i: int| 0 <= i < j && part.key(i) == before.key(h);
                        if h == g {
                            assert(part.key(j as int) == acc.key(h));
                            assert(ex_new);
                            assert(acc.sums@[h] == next);
                            assert(acc.total(h) == combine(before.total(g as int), part.total(j as int)));
                            assert(acc.total(h) == reported(t, keys, v, acc.key(h), 0, hi));
                        } else {
                            assert(acc.sums@[h] == before.sums@[h]);
                            if h < g {
                                assert(before.key(h) != before.key(g as int));
                            } else {
                                assert(before.key(g as int) != before.key(h));
                            }
                            if ex_new {
                                let i = choose|i: int| 0 <= i < j + 1 && part.key(i) == acc.key(h);
                                assert(i != j);
                                assert(ex_old);
                            }
                            if ex_old {
                                let i = choose|i: int| 0 <= i < j && part.key(i) == before.key(h);
                                assert(part.key(i) == acc.key(h));
                                assert(ex_new);
                            }
                            assert(before.total(h) == (if ex_old {
                                reported(t, keys, v, before.key(h), 0, hi)
                            } else {
                                reported(t, keys, v, before.key(h), 0, lo)
                            }));
                        }
                    }
                    assert forall|i: int| 0 <= i < j + 1 implies acc.has_group(#[trigger] part.key(i)) by {
                        if i == j {
                            assert(acc.key(g as int) == part.key(i));
                        } else {
                            let h = choose|h: int| 0 <= h < before.keys@.len() && before.key(h) == part.key(i);
                            assert(acc.key(h) == part.key(i));
                        }
                    }
                    assert forall|r: int| 0 <= r < lo implies acc.has_group(#[trigger] row_key(t, keys, r)) by {
                        let h = choose|h: int| 0 <= h < before.keys@.len() && before.key(h) == row_key(t, keys, r);
                        assert(acc.key(h) == row_key(t, keys, r));
                    }
                    assert forall|h: int| 0 <= h < acc.keys@.len() implies key_occurs(t, keys, #[trigger] acc.key(h), 0, hi) by {
                        assert(acc.key(h) == before.key(h));
                    }
                    assert forall|g1: int, g2: int| 0 <= g1 < g2 < acc.keys@.len() implies acc.key(g1) != acc.key(g2) by {
                        assert(acc.key(g1) == before.key(g1));
                        assert(acc.key(g2) == before.key(g2));
                    }
                }
            },
            None => {
                proof {
                    assert(!key_occurs(t, keys, k, 0, lo)) by {
                        if key_occurs(t, keys, k, 0, lo) {
                            let r = choose|r: int| 0 <= r < lo && row_key(t, keys, r) == k;
                            let h = choose|h: int| 0 <= h < before.keys@.len() && #[trigger] before.key(h) == row_key(t, keys, r);
                        }
                    }
                    lemma_absent(t, keys, v, k, 0, lo);
                    assert(key_occurs(t, keys, k, lo, hi));
                    let r0 = choose|r: int| lo <= r < hi && row_key(t, keys, r) == k;
                    assert(key_occurs(t, keys, k, 0, hi));
                    match part.sums@[j as int] {
                        Some(b) => {
                            lemma_wrap_small(b as int);
                        },
                        None => {},
                    }
                }
                let kc = crate::groupby::clone_key(&part.keys[j]);
                acc.keys.push(kc);
                acc.sums.push(part.sums[j]);
                proof {
                    let n = before.keys@.len() as int;
                    assert(acc.key(n) == k);
                    assert forall|h: int| 0 <= h < acc.keys@.len() implies #[trigger] acc.total(h) == (if exists|i: int| 0 <= i < j + 1 && part.key(i) == acc.key(h) {
                        reported(t, keys, v, acc.key(h), 0, hi)
                    } else {
                        reported(t, keys, v, acc.key(h), 0, lo)
                    }) by {
                        if h == n {
                            assert(part.key(j as int) == acc.key(h));
                        } else {
                            assert(acc.key(h) == before.key(h));
                            assert(acc.total(h) == before.total(h));
                            if exists|i: int| 0 <= i < j + 1 && part.key(i) == acc.key(h) {
                                let i = choose|i: int| 0 <= i < j + 1 && part.key(i) == acc.key(h);
                                assert(i != j);
                            }
                        }
                    }
                    assert forall|i: int| 0 <= i < j + 1 implies acc.has_group(#[trigger] part.key(i)) by {
                        if i == j {
                            assert(acc.key(n) == part.key(i));
                        } else {
                            let h = choose|h: int| 0 <= h < before.keys@.len() && before.key(h) == part.key(i);
                            assert(acc.key(h) == part.key(i));
                        }
                    }
                    assert forall|r: int| 0 <= r < lo implies acc.has_group(#[trigger] row_key(t, keys, r)) by {
                        let h = choose|h: int| 0 <= h < before.keys@.len() && before.key(h) == row_key(t, keys, r);
                        assert(acc.key(h) == row_key(t, keys, r));
                    }
                    assert forall|h: int| 0 <= h < acc.keys@.len() implies key_occurs(t, keys, #[trigger] acc.key(h), 0, hi) by {
                        if h < n {
                            assert(acc.key(h) == before.key(h));
                        }
                    }
                    assert forall|g1: int, g2: int| 0 <= g1 < g2 < acc.keys@.len() implies acc.key(g1) != acc.key(g2) by {
                        assert(acc.key(g1) == before.key(g1));
                        if g2 < n {
                            assert(acc.key(g2) == before.key(g2));
                        }
                    }
                }
            },
        }
        j = j + 1;
    }
    proof {
        assert forall|g: int| 0 <= g < acc.keys@.len() implies #[trigger] acc.total(g) == reported(t, keys, v, acc.key(g), 0, hi) by {
            if !exists|i: int| 0 <= i < part.keys@.len() && part.key(i) == acc.key(g) {
                assert(!key_occurs(t, keys, acc.key(g), lo, hi)) by {
                    if key_occurs(t, keys, acc.key(g), lo, hi) {
                        let r = choose|r: int| lo <= r < hi && row_key(t, keys, r) == acc.key(g);
                        assert(part.has_group(row_key(t, keys, r)));
                        let i = choose|i: int| 0 <= i < part.keys@.len() && #[trigger] part.key(i) == row_key(t, keys, r);
                    }
                }
                lemma_absent(t, keys, v, acc.key(g), lo, hi);
                lemma_reported_split(t, keys, v, acc.key(g), 0, lo, hi);
            }
        }
        assert forall|r: int| 0 <= r < hi implies acc.has_group(#[trigger] row_key(t, keys, r)) by {
            if r >= lo {
                assert(part.has_group(row_key(t, keys, r)));
                let i = choose|i: int| 0 <= i < part.keys@.len() && #[trigger] part.key(i) == row_key(t, keys, r);
                assert(acc.has_group(part.key(i)));
            }
        }
    }
}

/// The selected rows of a longer prefix: those of the shorter one, then those
/// of the mask's next stretch, shifted to where the stretch starts.
proof fn lemma_selected_extend(mask: Seq<bool>, lo: int, hi: int)
    requires
        0 <= lo <= hi <= mask.len(),
    ensures
        selected(mask.take(hi)) == selected(mask.take(lo)) + selected(mask.subrange(lo, hi)).map_values(|k: int| k + lo),
    decreases hi - lo,
{
    if hi == lo {
        assert(mask.subrange(lo, hi) =~= Seq::<bool>::empty());
        assert(selected(mask.take(lo)) + selected(mask.subrange(lo, hi)).map_values(|k: int| k + lo) =~= selected(mask.take(lo)));
    } else {
        lemma_selected_extend(mask, lo, hi - 1);
        let tm = mask.subrange(lo, hi);
        assert(tm.drop_last() =~= mask.subrange(lo, hi - 1));
        assert(mask.take(hi).drop_last() =~= mask.take(hi - 1));
        let a = selected(mask.take(hi - 1));
        let b = selected(mask.subrange(lo, hi - 1)).map_values(|k: int| k + lo);
        if mask[hi - 1] {
            assert(selected(tm).map_values(|k: int| k + lo) =~= b.push(hi - 1));
            assert(a + b.push(hi - 1) =~= (a + b).push(hi - 1));
        } else {
            assert(selected(tm).map_values(|k: int| k + lo) =~= b);
        }
    }
}

/// The indices `lo..hi`.
fn range_indices(lo: usize, hi: usize) -> (r: Vec<usize>)
    requires
        lo <= hi,
    ensures
        r@.map_values(|x: usize| x as int) == Seq::new((hi - lo) as nat, |k: int| lo + k),
        forall|k: int| 0 <= k < r@.len() ==> lo <= #[trigger] r@[k] < hi,
{
    let mut out: Vec<usize> = Vec::new();
    let mut i: usize = lo;
    while i < hi
        invariant
            lo <= i <= hi,
            out@.map_values(|x: usize| x as int) == Seq::new((i - lo) as nat, |k: int| lo + k),
            forall|k: int| 0 <= k < out@.len() ==> lo <= #[trigger] out@[k] < i,
        decreases hi - i,
    {
        let ghost before = out@;
        out.push(i);
        assert(out@.map_values(|x: usize| x as int) =~= before.map_values(|x: usize| x as int).push(i as int));
        i = i + 1;
        assert(out@.map_values(|x: usize| x as int) =~= Seq::new((i - lo) as nat, |k: int| lo + k));
    }
    out
}

/// No more rows are selected than the mask has.
proof fn lemma_selected_len(mask: Seq<bool>)
    ensures
        selected(mask).len() <= mask.len(),
    decreases mask.len(),
{
    if mask.len() > 0 {
        lemma_selected_len(mask.drop_last());
    }
}

/// A table that takes rows `idx` of another orders its rows as the other
/// orders the rows they came from.
proof fn lemma_keys_cmp_picks(t: TinyFrame, u: TinyFrame, idx: Seq<int>, ks: Seq<int>, a: int, b: int, j: int)
    requires
        t.picks(idx, u),
        0 <= a < idx.len(),
        0 <= b < idx.len(),
        0 <= j,
        forall|i: int| 0 <= i < ks.len() ==> 0 <= #[trigger] ks[i] < t.ncols(),
    ensures
        keys_cmp(u, ks, a, b, j) == keys_cmp(t, ks, idx[a], idx[b], j),
    decreases ks.len() - j,
{
    if j < ks.len() {
        assert(u.cell(ks[j], a) == t.cell(ks[j], idx[a]));
        assert(u.cell(ks[j], b) == t.cell(ks[j], idx[b]));
        lemma_keys_cmp_picks(t, u, idx, ks, a, b, j + 1);
    }
}

/// Taking rows `p` of a table that took rows `q` takes rows `q[p[k]]`.
proof fn lemma_picks_compose(t: TinyFrame, u: TinyFrame, v: TinyFrame, q: Seq<int>, p: Seq<int>)
    requires
        t.picks(q, u),
        u.picks(p, v),
        forall|k: int| 0 <= k < p.len() ==> 0 <= #[trigger] p[k] < q.len(),
    ensures
        t.picks(p.map_values(|k: int| q[k]), v),
{
    let qp = p.map_values(|k: int| q[k]);
    assert forall|c: int, k: int| 0 <= c < t.ncols() && 0 <= k < qp.len() implies #[trigger] v.cell(c, k) == t.cell(c, qp[k]) by {
        assert(v.cell(c, k) == u.cell(c, p[k]));
        assert(u.cell(c, p[k]) == t.cell(c, q[p[k]]));
    }
}

/// Runs operators over a table in tiles of at most `chunk_size` rows.
pub struct ChunkedProcessor {
    pub chunk_size: usize,
}

impl ChunkedProcessor {
    /// A processor with the given tile size.
    pub fn new(chunk_size: usize) -> (r: Self)
        ensures
            r.chunk_size == chunk_size,
    {
        ChunkedProcessor { chunk_size }
    }

    /// Filter computed tile by tile: each tile is filtered on its own and the
    /// results are concatenated, which gives the rows a single filter keeps.
    pub fn chunked_filter(&self, frame: &TinyFrame, column: &str, cond: &Condition) -> (r: Result<TinyFrame, FrameError>)
        requires
            frame.wf(),
        ensures
            self.chunk_size == 0 ==> r == Err::<TinyFrame, FrameError>(FrameError::ValueError),
            self.chunk_size > 0 ==> crate::filter::filter_result(*frame, column@, *cond, r),
    {
        if self.chunk_size == 0 {
            return Err(FrameError::ValueError);
        }
        let c = match frame.find_column(column) {
            Some(c) => c,
            None => {
                return Err(FrameError::NotFound);
            },
        };
        proof {
            assert(frame.col(c as int).cells().len() == frame.nrows());
        }
        if crate::filter::column_cross_kind(frame.column_at(c), cond) {
            proof {
                let i = choose|i: int| 0 <= i < frame.col(c as int).cells().len() && #[trigger] crate::filter::cross_kind(frame.col(c as int).cells()[i], *cond);
                assert(crate::filter::cross_kind(frame.cell(c as int, i), *cond));
            }
            return Err(FrameError::TypeMismatch);
        }
        let ghost mask = match_mask(*frame, c as int, *cond);
        let n = frame.len();
        let none: Vec<usize> = Vec::new();
        let mut acc = frame.take_rows(&none);
        proof {
            assert(mask.take(0) =~= Seq::<bool>::empty());
            assert(none@.map_values(|j: usize| j as int) =~= selected(mask.take(0)));
        }
        let mut lo: usize = 0;
        while lo < n
            invariant
                frame.wf(),
                n == frame.nrows(),
                self.chunk_size > 0,
                frame.position(column@) == Some(c as int),
                !crate::filter::kind_conflict(*frame, c as int, *cond),
                mask == match_mask(*frame, c as int, *cond),
                lo <= n,
                frame.picks(selected(mask.take(lo as int)), acc),
            decreases n - lo,
        {
            let hi = if n - lo > self.chunk_size {
                lo + self.chunk_size
            } else {
                n
            };
            let idx = range_indices(lo, hi);
            let tile = frame.take_rows(&idx);
            let ghost range = idx@.map_values(|j: usize| j as int);
            proof {
                assert(tile.names_view() == frame.names_view());
                assert(tile.position(column@) == frame.position(column@));
                assert forall|i: int| 0 <= i < tile.nrows() implies !#[trigger] crate::filter::cross_kind(tile.cell(c as int, i), *cond) by {
                    assert(tile.cell(c as int, i) == frame.cell(c as int, range[i]));
                    assert(0 <= range[i] < frame.nrows());
                }
            }
            let part = match tile.filter(column, cond) {
                Ok(p) => p,
                Err(e) => {
                    return Err(e);
                },
            };
            proof {
                let tm = match_mask(tile, c as int, *cond);
                assert forall|k: int| 0 <= k < tm.len() implies tm[k] == mask.subrange(lo as int, hi as int)[k] by {
                    assert(tile.cell(c as int, k) == frame.cell(c as int, range[k]));
                    assert(range[k] == lo + k);
                }
                assert(tm =~= mask.subrange(lo as int, hi as int));
                lemma_selected_extend(mask, lo as int, hi as int);
                crate::frame::lemma_selected_bounds(tm);
                crate::frame::lemma_selected_bounds(mask.take(lo as int));
                assert(acc.nrows() + part.nrows() <= hi) by {
                    lemma_selected_len(mask.take(lo as int));
                    lemma_selected_len(tm);
                }
            }
            let ghost before = acc;
            acc.append_rows(&part);
            proof {
                let s_old = selected(mask.take(lo as int));
                let st = selected(match_mask(tile, c as int, *cond));
                let s_new = selected(mask.take(hi as int));
                assert(s_new == s_old + st.map_values(|k: int| k + lo));
                assert forall|d: int, k: int| 0 <= d < frame.ncols() && 0 <= k < s_new.len() implies #[trigger] acc.cell(d, k) == frame.cell(d, s_new[k]) by {
                    assert(acc.col(d).cells() == before.col(d).cells() + part.col(d).cells());
                    if k < s_old.len() {
                        assert(acc.cell(d, k) == before.cell(d, k));
                    } else {
                        let k2 = k - s_old.len();
                        assert(acc.cell(d, k) == part.cell(d, k2));
                        assert(part.cell(d, k2) == tile.cell(d, st[k2]));
                        crate::frame::lemma_selected_bounds(match_mask(tile, c as int, *cond));
                        assert(tile.cell(d, st[k2]) == frame.cell(d, range[st[k2]]));
                        assert(range[st[k2]] == lo + st[k2]);
                    }
                }
            }
            lo = hi;
        }
        assert(mask.take(n as int) =~= mask);
        Ok(acc)
    }

    /// Sort computed tile by tile: each tile is sorted on its own, the sorted
    /// tiles are concatenated, and the concatenation is sorted again. The
    /// result is the stable sort of the whole table.
    pub fn chunked_sort(&self, frame: &TinyFrame, by: &Vec<String>, ascending: bool) -> (r: Result<TinyFrame, FrameError>)
        requires
            frame.wf(),
        ensures
            self.chunk_size == 0 ==> r == Err::<TinyFrame, FrameError>(FrameError::ValueError),
            match r {
                Ok(t) => sorted_result(*frame, by@, ascending, t),
                Err(e) => (e == FrameError::ValueError && self.chunk_size == 0) || crate::sort::sort_error(*frame, by@, e),
            },
            self.chunk_size > 0 && (forall|j: int| 0 <= j < by@.len() ==> (#[trigger] frame.position(by@[j]@)) is Some
                && frame.col(frame.position(by@[j]@)->Some_0).shape().kind is Some) ==> r is Ok,
    {
        if self.chunk_size == 0 {
            return Err(FrameError::ValueError);
        }
        let ks = match crate::sort::sort_keys(frame, by) {
            Ok(ks) => ks,
            Err(e) => {
                return Err(e);
            },
        };
        let ghost kv = ks@.map_values(|c: usize| c as int);
        let n = frame.len();
        let none: Vec<usize> = Vec::new();
        let mut acc = frame.take_rows(&none);
        let ghost mut q: Seq<int> = Seq::empty();
        proof {
            assert(none@.map_values(|j: usize| j as int) =~= q);
        }
        let mut lo: usize = 0;
        while lo < n
            invariant
                frame.wf(),
                n == frame.nrows(),
                self.chunk_size > 0,
                kv == ks@.map_values(|c: usize| c as int),
                kv == crate::groupby::key_positions(*frame, by@),
                forall|i: int| 0 <= i < ks@.len() ==> #[trigger] ks@[i] < frame.ncols(),
                forall|i: int| 0 <= i < ks@.len() ==> crate::sort::typed_key(*frame, (#[trigger] ks@[i]) as int),
                forall|i: int| 0 <= i < ks@.len() ==> frame.position(by@[i]@) == Some(#[trigger] ks@[i] as int),
                ks@.len() == by@.len(),
                lo <= n,
                q.len() == lo,
                forall|k: int| 0 <= k < q.len() ==> 0 <= #[trigger] q[k] < lo,
                forall|k1: int, k2: int| 0 <= k1 < k2 < q.len() && order_cmp(*frame, kv, ascending, #[trigger] q[k1], #[trigger] q[k2]) == 0 ==> q[k1] < q[k2],
                frame.picks(q, acc),
            decreases n - lo,
        {
            let hi = if n - lo > self.chunk_size {
                lo + self.chunk_size
            } else {
                n
            };
            let idx = range_indices(lo, hi);
            let tile = frame.take_rows(&idx);
            let ghost range = idx@.map_values(|j: usize| j as int);
            proof {
                assert forall|j: int| 0 <= j < by@.len() implies (#[trigger] tile.position(by@[j]@)) is Some
                    && tile.col(tile.position(by@[j]@)->Some_0).shape().kind is Some by {
                    assert(frame.position(by@[j]@) == Some(ks@[j] as int));
                    assert(tile.col(ks@[j] as int).shape() == frame.col(ks@[j] as int).shape());
                    assert(crate::sort::typed_key(*frame, ks@[j] as int));
                }
            }
            let sorted_tile = match tile.sort_values(by, ascending) {
                Ok(s) => s,
                Err(e) => {
                    return Err(e);
                },
            };
            let ghost before = acc;
            let ghost pt = choose|p: Seq<int>| sorted_permutation(tile, crate::groupby::key_positions(tile, by@), ascending, p, tile.nrows() as int)
                && #[trigger] tile.picks(p, sorted_tile);
            proof {
                assert(crate::groupby::key_positions(tile, by@) =~= kv);
                lemma_picks_compose(*frame, tile, sorted_tile, range, pt);
                assert(sorted_tile.nrows() == hi - lo);
            }
            acc.append_rows(&sorted_tile);
            proof {
                let shifted = pt.map_values(|k: int| range[k]);
                let q2 = q + shifted;
                assert forall|k: int| 0 <= k < pt.len() implies #[trigger] shifted[k] == lo + pt[k] by {
                    assert(range[pt[k]] == lo + pt[k]);
                }
                assert forall|d: int, k: int| 0 <= d < frame.ncols() && 0 <= k < q2.len() implies #[trigger] acc.cell(d, k) == frame.cell(d, q2[k]) by {
                    assert(acc.col(d).cells() == before.col(d).cells() + sorted_tile.col(d).cells());
                    if k < q.len() {
                        assert(acc.cell(d, k) == before.cell(d, k));
                    } else {
                        assert(acc.cell(d, k) == sorted_tile.cell(d, k - q.len()));
                    }
                }
                assert forall|k: int| 0 <= k < q2.len() implies 0 <= #[trigger] q2[k] < hi by {
                    if k >= q.len() {
                        assert(q2[k] == shifted[k - q.len()]);
                    }
                }
                assert forall|k1: int, k2: int| 0 <= k1 < k2 < q2.len() && order_cmp(*frame, kv, ascending, #[trigger] q2[k1], #[trigger] q2[k2]) == 0 implies q2[k1] < q2[k2] by {
                    if k2 < q.len() {
                    } else if k1 < q.len() {
                        assert(q2[k2] == shifted[k2 - q.len()]);
                    } else {
                        let i1 = k1 - q.len();
                        let i2 = k2 - q.len();
                        assert(q2[k1] == lo + pt[i1] && q2[k2] == lo + pt[i2]);
                        assert(precedes(tile, kv, ascending, pt[i1], pt[i2]));
                        lemma_keys_cmp_picks(*frame, tile, range, kv, pt[i1], pt[i2], 0);
                        assert(range[pt[i1]] == lo + pt[i1] && range[pt[i2]] == lo + pt[i2]);
                    }
                }
                q = q2;
            }
            lo = hi;
        }
        proof {
            assert forall|j: int| 0 <= j < by@.len() implies (#[trigger] acc.position(by@[j]@)) is Some
                && acc.col(acc.position(by@[j]@)->Some_0).shape().kind is Some by {
                assert(frame.position(by@[j]@) == Some(ks@[j] as int));
                assert(acc.col(ks@[j] as int).shape() == frame.col(ks@[j] as int).shape());
                assert(crate::sort::typed_key(*frame, ks@[j] as int));
            }
        }
        let result = match acc.sort_values(by, ascending) {
            Ok(s) => s,
            Err(e) => {
                return Err(e);
            },
        };
        proof {
            let pu = choose|p: Seq<int>| sorted_permutation(acc, crate::groupby::key_positions(acc, by@), ascending, p, acc.nrows() as int)
                && #[trigger] acc.picks(p, result);
            assert(crate::groupby::key_positions(acc, by@) =~= kv);
            lemma_picks_compose(*frame, acc, result, q, pu);
            let pf = pu.map_values(|k: int| q[k]);
            assert forall|k1: int, k2: int| 0 <= k1 < k2 < pf.len() implies precedes(*frame, kv, ascending, #[trigger] pf[k1], #[trigger] pf[k2]) by {
                let a = pu[k1];
                let b = pu[k2];
                assert(precedes(acc, kv, ascending, a, b));
                lemma_keys_cmp_picks(*frame, acc, q, kv, a, b, 0);
                if order_cmp(acc, kv, ascending, a, b) == 0 {
                    assert(order_cmp(*frame, kv, ascending, q[a], q[b]) == 0);
                    assert(q[a] < q[b]);
                }
            }
            assert(sorted_permutation(*frame, kv, ascending, pf, frame.nrows() as int));
            assert forall|j: int| 0 <= j < by@.len() implies (#[trigger] frame.position(by@[j]@)) is Some by {
                assert(frame.position(by@[j]@) == Some(ks@[j] as int));
            }
            assert(frame.picks(pf, result));
        }
        Ok(result)
    }

    /// Group-by sum computed tile by tile: each tile is grouped on its own,
    /// then the per-tile totals of each key are added together.
    pub fn chunked_groupby_sum(&self, frame: &TinyFrame, group_keys: &Vec<String>, value_column: &str) -> (r: Result<GroupedSum, FrameError>)
        requires
            frame.wf(),
        ensures
            self.chunk_size == 0 ==> r == Err::<GroupedSum, FrameError>(FrameError::ValueError),
            match r {
                Ok(gs) => {
                    &&& self.chunk_size > 0
                    &&& crate::groupby::group_columns_ok(*frame, group_keys@, value_column@)
                    &&& gs.groups_of(*frame, key_positions(*frame, group_keys@), frame.position(value_column@)->Some_0, 0, frame.nrows() as int)
                },
                Err(e) => (e == FrameError::ValueError && self.chunk_size == 0) || crate::groupby::group_error(*frame, group_keys@, value_column@, e),
            },
            self.chunk_size > 0 && crate::groupby::group_columns_ok(*frame, group_keys@, value_column@) ==> r is Ok,
    {
        if self.chunk_size == 0 {
            return Err(FrameError::ValueError);
        }
        let (keys, v) = match resolve_columns(frame, group_keys, value_column) {
            Ok(kv) => kv,
            Err(e) => {
                return Err(e);
            },
        };
        let ghost ks = keys@.map_values(|c: usize| c as int);
        proof {
            assert forall|j: int| 0 <= j < keys@.len() implies #[trigger] keys@[j] < frame.ncols() by {
                assert(frame.position(group_keys@[j]@) == Some(keys@[j] as int));
            }
        }
        let n = frame.len();
        let mut acc = groupby_sum_rows(frame, &keys, v, 0, 0);
        let mut lo: usize = 0;
        while lo < n
            invariant
                frame.wf(),
                n == frame.nrows(),
                self.chunk_size > 0,
                ks == keys@.map_values(|c: usize| c as int),
                forall|j: int| 0 <= j < keys@.len() ==> #[trigger] keys@[j] < frame.ncols(),
                v < frame.ncols(),
                frame.col(v as int).shape().kind == Some(Kind::Int),
                lo <= n,
                acc.groups_of(*frame, ks, v as int, 0, lo as int),
            decreases n - lo,
        {
            let hi = if n - lo > self.chunk_size {
                lo + self.chunk_size
            } else {
                n
            };
            let part = groupby_sum_rows(frame, &keys, v, lo, hi);
            merge_groups(&mut acc, &part, Ghost(*frame), Ghost(ks), Ghost(v as int), Ghost(lo as int), Ghost(hi as int));
            lo = hi;
        }
        proof {
            assert forall|j: int| 0 <= j < ks.len() implies ks[j] == #[trigger] key_positions(*frame, group_keys@)[j] by {
                assert(frame.position(group_keys@[j]@) == Some(keys@[j] as int));
            }
            assert(ks =~= key_positions(*frame, group_keys@));
            assert forall|j: int| 0 <= j < group_keys@.len() implies (#[trigger] frame.position(group_keys@[j]@)) is Some by {
                assert(frame.position(group_keys@[j]@) == Some(keys@[j] as int));
            }
        }
        Ok(acc)
    }
}

/// Two groupings of the same rows report the same total for every key: in
/// particular a tile-by-tile grouping agrees with a single pass.
pub proof fn groupings_agree(t: TinyFrame, keys: Seq<int>, v: int, a: GroupedSum, b: GroupedSum, lo: int, hi: int)
    requires
        a.groups_of(t, keys, v, lo, hi),
        b.groups_of(t, keys, v, lo, hi),
    ensures
        a.keys@.len() == b.keys@.len(),
        forall|g: int| 0 <= g < a.keys@.len() ==> exists|h: int| 0 <= h < b.keys@.len() && b.key(h) == #[trigger] a.key(g) && b.total(h) == a.total(g),
{
    assert forall|g: int| 0 <= g < a.keys@.len() implies exists|h: int| 0 <= h < b.keys@.len() && b.key(h) == #[trigger] a.key(g) && b.total(h) == a.total(g) by {
        let r = choose|r: int| lo <= r < hi && row_key(t, keys, r) == a.key(g);
        assert(b.has_group(row_key(t, keys, r)));
        let h = choose|h: int| 0 <= h < b.keys@.len() && #[trigger] b.key(h) == row_key(t, keys, r);
        assert(b.total(h) == reported(t, keys, v, b.key(h), lo, hi));
    }
    lemma_injective_count(t, keys, v, a, b, lo, hi);
    lemma_injective_count(t, keys, v, b, a, lo, hi);
}

/// Each group of `a` has a distinct match in `b`, so `b` has at least as many.
proof fn lemma_injective_count(t: TinyFrame, keys: Seq<int>, v: int, a: GroupedSum, b: GroupedSum, lo: int, hi: int)
    requires
        a.groups_of(t, keys, v, lo, hi),
        b.groups_of(t, keys, v, lo, hi),
    ensures
        a.keys@.len() <= b.keys@.len(),
{
    let ak = Seq::new(a.keys@.len(), |g: int| a.key(g));
    let bk = Seq::new(b.keys@.len(), |h: int| b.key(h));
    assert forall|g: int| 0 <= g < ak.len() implies bk.contains(#[trigger] ak[g]) by {
        let r = choose|r: int| lo <= r < hi && row_key(t, keys, r) == a.key(g);
        assert(b.has_group(row_key(t, keys, r)));
        let h = choose|h: int| 0 <= h < b.keys@.len() && #[trigger] b.key(h) == row_key(t, keys, r);
        assert(bk[h] == ak[g]);
    }
    assert(ak.no_duplicates()) by {
        assert forall|i: int, j: int| 0 <= i < ak.len() && 0 <= j < ak.len() && i != j implies ak[i] != ak[j] by {
            if i < j {
                assert(a.key(i) != a.key(j));
            } else {
                assert(a.key(j) != a.key(i));
            }
        }
    }
    assert(ak.to_set().subset_of(bk.to_set()));
    ak.unique_seq_to_set();
    vstd::set_lib::lemma_len_subset(ak.to_set(), bk.to_set());
    bk.lemma_cardinality_of_set();
}

} // verus!
