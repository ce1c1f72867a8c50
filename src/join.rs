use vstd::prelude::*;
use crate::column::{Cell, TinyColumn, slot_at};
use crate::frame::{TinyFrame, FrameError, contains_name};
use crate::groupby::{row_key, same_key, key_positions};
use crate::string_optimize::views;

verus! {

/// The right-hand columns a join keeps: those whose name is neither a
/// left-hand name nor in `drop`, in order, among the first `n`.
pub open spec fn kept_columns(left: Seq<Seq<char>>, right: Seq<Seq<char>>, drop: Seq<Seq<char>>, n: int) -> Seq<int>
    decreases n,
{
    if n <= 0 {
        Seq::empty()
    } else if !left.contains(right[n - 1]) && !drop.contains(right[n - 1]) {
        kept_columns(left, right, drop, n - 1).push(n - 1)
    } else {
        kept_columns(left, right, drop, n - 1)
    }
}

/// The slot of column `c` that an optional row index names; a null for none.
pub open spec fn side_slot(t: TinyFrame, c: int, o: Option<int>) -> Option<Cell> {
    match o {
        Some(j) => t.cell(c, j),
        None => None,
    }
}

/// Optional row indices as integers.
pub open spec fn ints(s: Seq<Option<usize>>) -> Seq<Option<int>> {
    s.map_values(|o: Option<usize>| match o {
        Some(x) => Some(x as int),
        None => None,
    })
}

/// Some row of the join has no row on this side. A column of that side
/// becomes nullable exactly then, unless it already was.
pub open spec fn has_none(s: Seq<Option<int>>) -> bool {
    exists|k: int| 0 <= k < s.len() && s[k] is None
}

proof fn lemma_absent_ints(s: Seq<Option<usize>>)
    ensures
        crate::column::has_absent(s) == has_none(ints(s)),
{
    if crate::column::has_absent(s) {
        let k = choose|k: int| 0 <= k < s.len() && s[k] is None;
        assert(ints(s)[k] is None);
    }
    if has_none(ints(s)) {
        let k = choose|k: int| 0 <= k < ints(s).len() && ints(s)[k] is None;
        assert(s[k] is None);
    }
}

/// The output of a join whose row `k` takes left row `li[k]` and right row
/// `ri[k]` (nulls where absent): every left column, then the kept right
/// columns, each keeping its kind, and nullable when it was or when some row
/// has no row on its side.
pub open spec fn joined(left: TinyFrame, right: TinyFrame, drop: Seq<Seq<char>>, li: Seq<Option<int>>, ri: Seq<Option<int>>, t: TinyFrame) -> bool {
    let kept = kept_columns(left.names_view(), right.names_view(), drop, right.ncols() as int);
    &&& t.wf()
    &&& li.len() == ri.len()
    &&& t.nrows() == li.len()
    &&& t.ncols() == left.ncols() + kept.len()
    &&& t.names_view() == left.names_view() + kept.map_values(|c: int| right.names_view()[c])
    &&& forall|c: int, k: int| 0 <= c < left.ncols() && 0 <= k < li.len() ==> #[trigger] t.cell(c, k) == side_slot(left, c, li[k])
    &&& forall|j: int, k: int| 0 <= j < kept.len() && 0 <= k < ri.len() ==> #[trigger] t.cell(left.ncols() + j, k) == side_slot(right, kept[j], ri[k])
    &&& forall|c: int| 0 <= c < left.ncols() ==> (#[trigger] t.col(c)).shape().kind == left.col(c).shape().kind
        && t.col(c).shape().nullable == (left.col(c).shape().nullable || has_none(li))
    &&& forall|j: int| 0 <= j < kept.len() ==> (#[trigger] t.col(left.ncols() + j)).shape().kind == right.col(kept[j]).shape().kind
        && t.col(left.ncols() + j).shape().nullable == (right.col(kept[j]).shape().nullable || has_none(ri))
}

/// Left row `a` and right row `b` join: neither key tuple holds a null and
/// the tuples are equal.
pub open spec fn rows_join(left: TinyFrame, right: TinyFrame, lk: Seq<int>, rk: Seq<int>, a: int, b: int) -> bool {
    &&& forall|j: int| 0 <= j < lk.len() ==> (#[trigger] row_key(left, lk, a)[j]) is Some
    &&& row_key(left, lk, a) == row_key(right, rk, b)
}

/// The right rows among the first `m` that join left row `a`, as pairs.
pub open spec fn matches_of(left: TinyFrame, right: TinyFrame, lk: Seq<int>, rk: Seq<int>, a: int, m: int) -> Seq<(int, int)>
    decreases m,
{
    if m <= 0 {
        Seq::empty()
    } else if rows_join(left, right, lk, rk, a, m - 1) {
        matches_of(left, right, lk, rk, a, m - 1).push((a, m - 1))
    } else {
        matches_of(left, right, lk, rk, a, m - 1)
    }
}

/// All joining pairs for the first `n` left rows, left-major.
pub open spec fn inner_pairs(left: TinyFrame, right: TinyFrame, lk: Seq<int>, rk: Seq<int>, n: int) -> Seq<(int, int)>
    decreases n,
{
    if n <= 0 {
        Seq::empty()
    } else {
        inner_pairs(left, right, lk, rk, n - 1) + matches_of(left, right, lk, rk, n - 1, right.nrows() as int)
    }
}

/// The number of right rows that join left row `a`.
pub open spec fn match_count(left: TinyFrame, right: TinyFrame, lk: Seq<int>, rk: Seq<int>, a: int) -> int {
    matches_of(left, right, lk, rk, a, right.nrows() as int).len() as int
}

/// Sum over the first `n` left rows of their match counts.
pub open spec fn total_matches(left: TinyFrame, right: TinyFrame, lk: Seq<int>, rk: Seq<int>, n: int) -> int
    decreases n,
{
    if n <= 0 {
        0
    } else {
        total_matches(left, right, lk, rk, n - 1) + match_count(left, right, lk, rk, n - 1)
    }
}

/// The left rows of a sequence of pairs, each present.
pub open spec fn lift_firsts(p: Seq<(int, int)>) -> Seq<Option<int>> {
    p.map_values(|x: (int, int)| Some(x.0))
}

/// The right rows of a sequence of pairs, each present.
pub open spec fn lift_seconds(p: Seq<(int, int)>) -> Seq<Option<int>> {
    p.map_values(|x: (int, int)| Some(x.1))
}

/// No slot of row `a`'s key tuple is null.
pub open spec fn key_complete_at(t: TinyFrame, ks: Seq<int>, a: int) -> bool {
    forall|j: int| 0 <= j < ks.len() ==> (#[trigger] row_key(t, ks, a)[j]) is Some
}

/// Pairs of rows, each side possibly absent.
pub open spec fn lift_pairs(p: Seq<(int, int)>) -> Seq<(Option<int>, Option<int>)> {
    p.map_values(|x: (int, int)| (Some(x.0), Some(x.1)))
}

pub open spec fn opt_firsts(p: Seq<(Option<int>, Option<int>)>) -> Seq<Option<int>> {
    p.map_values(|x: (Option<int>, Option<int>)| x.0)
}

pub open spec fn opt_seconds(p: Seq<(Option<int>, Option<int>)>) -> Seq<Option<int>> {
    p.map_values(|x: (Option<int>, Option<int>)| x.1)
}

/// The rows of a join that keeps every primary row with a complete key, for
/// the first `n` primary rows: each with its matching rows, or alone (the
/// other side absent) when nothing matches. Rows with a null key are left out.
pub open spec fn keep_primary(p: TinyFrame, o: TinyFrame, pk: Seq<int>, ok: Seq<int>, n: int) -> Seq<(Option<int>, Option<int>)>
    decreases n,
{
    if n <= 0 {
        Seq::empty()
    } else {
        let prev = keep_primary(p, o, pk, ok, n - 1);
        if !key_complete_at(p, pk, n - 1) {
            prev
        } else if match_count(p, o, pk, ok, n - 1) > 0 {
            prev + lift_pairs(matches_of(p, o, pk, ok, n - 1, o.nrows() as int))
        } else {
            prev.push((Some(n - 1), None))
        }
    }
}

/// The right rows among the first `m` with a complete key that no left row
/// joins, each paired with an absent left row.
pub open spec fn unmatched_right(l: TinyFrame, r: TinyFrame, lk: Seq<int>, rk: Seq<int>, m: int) -> Seq<(Option<int>, Option<int>)>
    decreases m,
{
    if m <= 0 {
        Seq::empty()
    } else {
        let prev = unmatched_right(l, r, lk, rk, m - 1);
        if key_complete_at(r, rk, m - 1) && forall|a: int| 0 <= a < l.nrows() ==> !#[trigger] rows_join(l, r, lk, rk, a, m - 1) {
            prev.push((None, Some(m - 1)))
        } else {
            prev
        }
    }
}

proof fn lemma_kept_step(left: Seq<Seq<char>>, right: Seq<Seq<char>>, drop: Seq<Seq<char>>, n: int)
    requires
        0 <= n <= right.len(),
    ensures
        forall|j: int| 0 <= j < kept_columns(left, right, drop, n).len() ==> 0 <= #[trigger] kept_columns(left, right, drop, n)[j] < n,
        forall|j: int| 0 <= j < kept_columns(left, right, drop, n).len() ==> !left.contains(right[#[trigger] kept_columns(left, right, drop, n)[j]]),
        forall|a: int, b: int| 0 <= a < b < kept_columns(left, right, drop, n).len() ==> kept_columns(left, right, drop, n)[a] < kept_columns(left, right, drop, n)[b],
    decreases n,
{
    if n > 0 {
        lemma_kept_step(left, right, drop, n - 1);
        let k = kept_columns(left, right, drop, n);
        let k0 = kept_columns(left, right, drop, n - 1);
        if !left.contains(right[n - 1]) && !drop.contains(right[n - 1]) {
            assert(k == k0.push(n - 1));
            assert forall|j: int| 0 <= j < k.len() implies 0 <= #[trigger] k[j] < n && !left.contains(right[k[j]]) by {
                if j < k0.len() {
                    assert(k[j] == k0[j]);
                }
            }
            assert forall|a: int, b: int| 0 <= a < b < k.len() implies k[a] < k[b] by {
                assert(k[a] == k0[a]);
                if b < k0.len() {
                    assert(k[b] == k0[b]);
                }
            }
        } else {
            assert(k == k0);
        }
    }
}

/// The pairs of left rows with matching right rows are as many as the sum of
/// the match counts: an inner join's size is the sum, over key tuples, of the
/// left count times the right count.
pub proof fn inner_join_cardinality(left: TinyFrame, right: TinyFrame, lk: Seq<int>, rk: Seq<int>, n: int)
    requires
        0 <= n,
    ensures
        inner_pairs(left, right, lk, rk, n).len() == total_matches(left, right, lk, rk, n),
    decreases n,
{
    if n > 0 {
        inner_join_cardinality(left, right, lk, rk, n - 1);
    }
}

/// Build the output of a join from its row pairs.
fn assemble(left: &TinyFrame, right: &TinyFrame, drop: &Vec<String>, li: &Vec<Option<usize>>, ri: &Vec<Option<usize>>) -> (t: TinyFrame)
    requires
        left.wf(),
        right.wf(),
        li@.len() == ri@.len(),
        forall|k: int| 0 <= k < li@.len() && (#[trigger] li@[k]) is Some ==> li@[k]->Some_0 < left.nrows(),
        forall|k: int| 0 <= k < ri@.len() && (#[trigger] ri@[k]) is Some ==> ri@[k]->Some_0 < right.nrows(),
    ensures
        joined(*left, *right, views(drop@), ints(li@), ints(ri@), t),
{
    let ghost kept = kept_columns(left.names_view(), right.names_view(), views(drop@), right.ncols() as int);
    let mut names = left.columns();
    let mut cols: Vec<TinyColumn> = Vec::new();
    let mut c: usize = 0;
    let (_, lcols) = left.shape();
    while c < lcols
        invariant
            left.wf(),
            lcols == left.ncols(),
            forall|k: int| 0 <= k < li@.len() && (#[trigger] li@[k]) is Some ==> li@[k]->Some_0 < left.nrows(),
            c <= lcols,
            cols@.len() == c,
            forall|d: int| 0 <= d < c ==> (#[trigger] cols@[d]).cells() == li@.map_values(|o: Option<usize>| slot_at(left.col(d).cells(), o))
                && cols@[d].shape().kind == left.col(d).shape().kind
                && cols@[d].shape().nullable == (left.col(d).shape().nullable || crate::column::has_absent(li@)),
        decreases lcols - c,
    {
        assert(left.col(c as int).cells().len() == left.nrows());
        cols.push(left.column_at(c).gather_opt(li.as_slice()));
        c = c + 1;
    }
    let right_names = right.columns();
    let (_, rcols) = right.shape();
    let mut d: usize = 0;
    let ghost lv = left.names_view();
    let ghost rv = right.names_view();
    let ghost dv = views(drop@);
    proof {
        lemma_kept_step(lv, rv, dv, rcols as int);
    }
    while d < rcols
        invariant
            left.wf(),
            right.wf(),
            lv == left.names_view(),
            rv == right.names_view(),
            dv == views(drop@),
            views(right_names@) == rv,
            rcols == right.ncols(),
            forall|k: int| 0 <= k < ri@.len() && (#[trigger] ri@[k]) is Some ==> ri@[k]->Some_0 < right.nrows(),
            d <= rcols,
            views(names@) == lv + kept_columns(lv, rv, dv, d as int).map_values(|c: int| rv[c]),
            cols@.len() == left.ncols() + kept_columns(lv, rv, dv, d as int).len(),
            forall|e: int| 0 <= e < left.ncols() ==> (#[trigger] cols@[e]).cells() == li@.map_values(|o: Option<usize>| slot_at(left.col(e).cells(), o))
                && cols@[e].shape().kind == left.col(e).shape().kind
                && cols@[e].shape().nullable == (left.col(e).shape().nullable || crate::column::has_absent(li@)),
            forall|e: int| 0 <= e < kept_columns(lv, rv, dv, d as int).len() ==> (#[trigger] cols@[left.ncols() + e]).cells()
                == ri@.map_values(|o: Option<usize>| slot_at(right.col(kept_columns(lv, rv, dv, d as int)[e]).cells(), o))
                && cols@[left.ncols() + e].shape().kind == right.col(kept_columns(lv, rv, dv, d as int)[e]).shape().kind
                && cols@[left.ncols() + e].shape().nullable == (right.col(kept_columns(lv, rv, dv, d as int)[e]).shape().nullable || crate::column::has_absent(ri@)),
        decreases rcols - d,
    {
        let nm = right_names[d].as_str();
        let ghost kd = kept_columns(lv, rv, dv, d as int);
        proof {
            assert(rv[d as int] == nm@);
        }
        if !contains_name(&names, nm) && !contains_name(drop, nm) {
            proof {
                assert(!lv.contains(rv[d as int])) by {
                    if lv.contains(rv[d as int]) {
                        let i = choose|i: int| 0 <= i < lv.len() && lv[i] == rv[d as int];
                        assert(views(names@)[i] == lv[i]);
                    }
                }
                assert(kept_columns(lv, rv, dv, d as int + 1) == kd.push(d as int));
            }
            assert(right.col(d as int).cells().len() == right.nrows());
            let ghost nbefore = names@;
            names.push(right_names[d].clone());
            cols.push(right.column_at(d).gather_opt(ri.as_slice()));
            proof {
                assert(views(names@) =~= views(nbefore).push(rv[d as int]));
                assert(kd.push(d as int).map_values(|c: int| rv[c]) =~= kd.map_values(|c: int| rv[c]).push(rv[d as int]));
                assert(views(names@) =~= lv + kept_columns(lv, rv, dv, d as int + 1).map_values(|c: int| rv[c]));
            }
        } else {
            proof {
                if !dv.contains(rv[d as int]) {
                    // the name is among the output names: a left name or an earlier kept one
                    assert(views(names@).contains(rv[d as int]));
                    let i = choose|i: int| 0 <= i < views(names@).len() && views(names@)[i] == rv[d as int];
                    if i >= lv.len() {
                        let e = i - lv.len();
                        lemma_kept_step(lv, rv, dv, d as int);
                        assert(views(names@)[i] == rv[kd[e]]);
                        assert(kd[e] < d);
                        assert(rv[kd[e]] != rv[d as int]);
                    } else {
                        assert(views(names@)[i] == lv[i]);
                    }
                }
                assert(kept_columns(lv, rv, dv, d as int + 1) == kd);
            }
        }
        d = d + 1;
    }
    proof {
        assert(kept_columns(lv, rv, dv, d as int) == kept);
        assert forall|e: int| 0 <= e < cols@.len() implies (#[trigger] cols@[e]).cells().len() == li@.len() by {
            if e >= left.ncols() {
                assert(cols@[left.ncols() + (e - left.ncols())].cells() == ri@.map_values(|o: Option<usize>| slot_at(right.col(kept[e - left.ncols()]).cells(), o)));
            }
        }
        lemma_kept_step(lv, rv, dv, rcols as int);
        let nv = views(names@);
        assert forall|a: int, b: int| 0 <= a < b < nv.len() implies nv[a] != nv[b] by {
            if b < lv.len() {
                assert(nv[a] == lv[a] && nv[b] == lv[b]);
            } else if a < lv.len() {
                assert(nv[a] == lv[a]);
                assert(nv[b] == rv[kept[b - lv.len()]]);
                assert(!lv.contains(rv[kept[b - lv.len()]]));
            } else {
                assert(nv[a] == rv[kept[a - lv.len()]]);
                assert(nv[b] == rv[kept[b - lv.len()]]);
                assert(kept[a - lv.len()] < kept[b - lv.len()]);
            }
        }
    }
    let t = TinyFrame::from_parts(names, cols, li.len());
    proof {
        let lin = ints(li@);
        let rin = ints(ri@);
        assert forall|c: int, k: int| 0 <= c < left.ncols() && 0 <= k < lin.len() implies #[trigger] t.cell(c, k) == side_slot(*left, c, lin[k]) by {
            assert(t.col(c) == cols@[c]);
            assert(cols@[c].cells()[k] == slot_at(left.col(c).cells(), li@[k]));
        }
        assert forall|j: int, k: int| 0 <= j < kept.len() && 0 <= k < rin.len() implies #[trigger] t.cell(left.ncols() + j, k) == side_slot(*right, kept[j], rin[k]) by {
            assert(t.col(left.ncols() + j) == cols@[left.ncols() + j]);
            assert(cols@[left.ncols() + j].cells()[k] == slot_at(right.col(kept[j]).cells(), ri@[k]));
        }
        lemma_absent_ints(li@);
        lemma_absent_ints(ri@);
        assert forall|c: int| 0 <= c < left.ncols() implies (#[trigger] t.col(c)).shape().kind == left.col(c).shape().kind
            && t.col(c).shape().nullable == (left.col(c).shape().nullable || has_none(lin)) by {
            assert(t.col(c) == cols@[c]);
        }
        assert forall|j: int| 0 <= j < kept.len() implies (#[trigger] t.col(left.ncols() + j)).shape().kind == right.col(kept[j]).shape().kind
            && t.col(left.ncols() + j).shape().nullable == (right.col(kept[j]).shape().nullable || has_none(rin)) by {
            assert(t.col(left.ncols() + j) == cols@[left.ncols() + j]);
        }
    }
    t
}

/// All pairs of the first `n` left rows with the `m` right rows, left-major.
pub open spec fn cross_pairs(n: int, m: int) -> Seq<(int, int)>
    decreases n,
{
    if n <= 0 {
        Seq::empty()
    } else {
        cross_pairs(n - 1, m) + Seq::new(m as nat, |b: int| (n - 1, b))
    }
}

/// A cross join pairs every left row with every right row.
pub proof fn cross_join_cardinality(n: int, m: int)
    requires
        0 <= n,
        0 <= m,
    ensures
        cross_pairs(n, m).len() == n * m,
    decreases n,
{
    if n > 0 {
        cross_join_cardinality(n - 1, m);
        let tail = Seq::new(m as nat, |b: int| (n - 1, b));
        assert(cross_pairs(n, m) == cross_pairs(n - 1, m) + tail);
        assert(tail.len() == m);
        assert(n * m == (n - 1) * m + m) by (nonlinear_arith);
    } else {
        assert(n * m == 0) by (nonlinear_arith)
            requires n == 0;
    }
}

proof fn lemma_cross_bounds(n: int, m: int)
    requires
        0 <= n,
        0 <= m,
    ensures
        forall|k: int| 0 <= k < cross_pairs(n, m).len() ==> 0 <= (#[trigger] cross_pairs(n, m)[k]).0 < n && 0 <= cross_pairs(n, m)[k].1 < m,
    decreases n,
{
    if n > 0 {
        lemma_cross_bounds(n - 1, m);
        let front = cross_pairs(n - 1, m);
        let tail = Seq::new(m as nat, |b: int| (n - 1, b));
        assert(cross_pairs(n, m) == front + tail);
        assert forall|k: int| 0 <= k < cross_pairs(n, m).len() implies 0 <= (#[trigger] cross_pairs(n, m)[k]).0 < n && 0 <= cross_pairs(n, m)[k].1 < m by {
            if k < front.len() {
                assert(cross_pairs(n, m)[k] == front[k]);
            } else {
                assert(cross_pairs(n, m)[k] == tail[k - front.len()]);
            }
        }
    }
}

/// Whether no slot of a key tuple is null.
fn key_complete(k: &Vec<Option<crate::column::ValueEnum>>) -> (r: bool)
    ensures
        r == forall|j: int| 0 <= j < k@.len() ==> (#[trigger] crate::column::opt_views(k@)[j]) is Some,
{
    let mut j: usize = 0;
    while j < k.len()
        invariant
            j <= k@.len(),
            forall|i: int| 0 <= i < j ==> (#[trigger] crate::column::opt_views(k@)[i]) is Some,
        decreases k@.len() - j,
    {
        if k[j].is_none() {
            assert(crate::column::opt_views(k@)[j as int] is None);
            return false;
        }
        j = j + 1;
    }
    true
}

/// The positions of the named columns, or `NotFound` if one is missing.
fn positions_of(t: &TinyFrame, names: &Vec<String>) -> (r: Result<Vec<usize>, FrameError>)
    requires
        t.wf(),
    ensures
        match r {
            Ok(ps) => {
                &&& ps@.len() == names@.len()
                &&& forall|j: int| 0 <= j < ps@.len() ==> t.position(names@[j]@) == Some(#[trigger] ps@[j] as int)
            },
            Err(e) => e == FrameError::NotFound && exists|j: int| 0 <= j < names@.len() && t.position(#[trigger] names@[j]@) is None,
        },
{
    let mut ps: Vec<usize> = Vec::new();
    let mut j: usize = 0;
    while j < names.len()
        invariant
            t.wf(),
            j <= names@.len(),
            ps@.len() == j,
            forall|i: int| 0 <= i < j ==> t.position(names@[i]@) == Some(#[trigger] ps@[i] as int),
        decreases names@.len() - j,
    {
        match t.find_column(names[j].as_str()) {
            Some(c) => {
                ps.push(c);
            },
            None => {
                return Err(FrameError::NotFound);
            },
        }
        j = j + 1;
    }
    Ok(ps)
}

impl TinyFrame {
    /// Every left row paired with every right row, left-major. Right columns
    /// whose name a left column already has are left out. Fails with
    /// `ValueError` when the row count would not fit in `usize`.
    pub fn cross_join(&self, other: &TinyFrame) -> (r: Result<TinyFrame, FrameError>)
        requires
            self.wf(),
            other.wf(),
        ensures
            self.nrows() * other.nrows() > usize::MAX ==> r == Err::<TinyFrame, FrameError>(FrameError::ValueError),
            self.nrows() * other.nrows() <= usize::MAX ==> (r matches Ok(t) && joined(
                *self,
                *other,
                Seq::<Seq<char>>::empty(),
                lift_firsts(cross_pairs(self.nrows() as int, other.nrows() as int)),
                lift_seconds(cross_pairs(self.nrows() as int, other.nrows() as int)),
                t,
            )),
    {
        let n = self.len();
        let m = other.len();
        if m > 0 && n > usize::MAX / m {
            proof {
                assert(n * m > usize::MAX) by (nonlinear_arith)
                    requires m > 0, n > usize::MAX / m;
            }
            return Err(FrameError::ValueError);
        }
        proof {
            if m > 0 {
                assert(n * m <= usize::MAX) by (nonlinear_arith)
                    requires m > 0, n <= usize::MAX / m;
            }
            lemma_cross_bounds(n as int, m as int);
        }
        let ghost pairs = cross_pairs(n as int, m as int);
        let mut li: Vec<Option<usize>> = Vec::new();
        let mut ri: Vec<Option<usize>> = Vec::new();
        let mut a: usize = 0;
        while a < n
            invariant
                n == self.nrows(),
                m == other.nrows(),
                a <= n,
                ints(li@) == lift_firsts(cross_pairs(a as int, m as int)),
                ints(ri@) == lift_seconds(cross_pairs(a as int, m as int)),
            decreases n - a,
        {
            let mut b: usize = 0;
            while b < m
                invariant
                    n == self.nrows(),
                    m == other.nrows(),
                    a < n,
                    b <= m,
                    ints(li@) == lift_firsts(cross_pairs(a as int, m as int) + Seq::new(b as nat, |j: int| (a as int, j))),
                    ints(ri@) == lift_seconds(cross_pairs(a as int, m as int) + Seq::new(b as nat, |j: int| (a as int, j))),
                decreases m - b,
            {
                let ghost p_old = cross_pairs(a as int, m as int) + Seq::new(b as nat, |j: int| (a as int, j));
                let ghost p_new = cross_pairs(a as int, m as int) + Seq::new(b as nat + 1, |j: int| (a as int, j));
                assert(p_new =~= p_old.push((a as int, b as int)));
                let ghost lb = li@;
                let ghost rb = ri@;
                li.push(Some(a));
                ri.push(Some(b));
                assert(ints(li@) =~= ints(lb).push(Some(a as int)));
                assert(ints(ri@) =~= ints(rb).push(Some(b as int)));
                assert(lift_firsts(p_new) =~= lift_firsts(p_old).push(Some(a as int)));
                assert(lift_seconds(p_new) =~= lift_seconds(p_old).push(Some(b as int)));
                b = b + 1;
                assert(ints(li@) =~= lift_firsts(cross_pairs(a as int, m as int) + Seq::new(b as nat, |j: int| (a as int, j))));
                assert(ints(ri@) =~= lift_seconds(cross_pairs(a as int, m as int) + Seq::new(b as nat, |j: int| (a as int, j))));
            }
            assert(cross_pairs(a as int + 1, m as int) == cross_pairs(a as int, m as int) + Seq::new(m as nat, |j: int| (a as int, j)));
            a = a + 1;
        }
        proof {
            assert forall|k: int| 0 <= k < li@.len() && (#[trigger] li@[k]) is Some implies li@[k]->Some_0 < self.nrows() by {
                assert(ints(li@)[k] == lift_firsts(pairs)[k]);
            }
            assert forall|k: int| 0 <= k < ri@.len() && (#[trigger] ri@[k]) is Some implies ri@[k]->Some_0 < other.nrows() by {
                assert(ints(ri@)[k] == lift_seconds(pairs)[k]);
            }
        }
        let empty: Vec<String> = Vec::new();
        let t = assemble(self, other, &empty, &li, &ri);
        proof {
            assert(views(empty@) =~= Seq::<Seq<char>>::empty());
        }
        Ok(t)
    }

    /// Rows of both tables whose key tuples (`left_on` here, `right_on` there)
    /// are equal and hold no null, left-major. The right key columns, and right
    /// columns whose name a left column already has, are left out.
    pub fn inner_join(&self, other: &TinyFrame, left_on: &Vec<String>, right_on: &Vec<String>) -> (r: Result<TinyFrame, FrameError>)
        requires
            self.wf(),
            other.wf(),
        ensures
            match r {
                Ok(t) => {
                    &&& left_on@.len() == right_on@.len()
                    &&& forall|j: int| 0 <= j < left_on@.len() ==> (#[trigger] self.position(left_on@[j]@)) is Some
                    &&& forall|j: int| 0 <= j < right_on@.len() ==> (#[trigger] other.position(right_on@[j]@)) is Some
                    &&& joined(
                        *self,
                        *other,
                        views(right_on@),
                        lift_firsts(inner_pairs(*self, *other, key_positions(*self, left_on@), key_positions(*other, right_on@), self.nrows() as int)),
                        lift_seconds(inner_pairs(*self, *other, key_positions(*self, left_on@), key_positions(*other, right_on@), self.nrows() as int)),
                        t,
                    )
                },
                Err(e) => {
                    ||| e == FrameError::NotFound && ((exists|j: int| 0 <= j < left_on@.len() && (#[trigger] self.position(left_on@[j]@)) is None)
                        || (exists|j: int| 0 <= j < right_on@.len() && (#[trigger] other.position(right_on@[j]@)) is None))
                    ||| e == FrameError::ValueError && left_on@.len() != right_on@.len()
                },
            },
            (forall|j: int| 0 <= j < left_on@.len() ==> (#[trigger] self.position(left_on@[j]@)) is Some)
                && (forall|j: int| 0 <= j < right_on@.len() ==> (#[trigger] other.position(right_on@[j]@)) is Some)
                && left_on@.len() == right_on@.len() ==> r is Ok,
    {
        let lk = match positions_of(self, left_on) {
            Ok(p) => p,
            Err(e) => {
                return Err(e);
            },
        };
        let rk = match positions_of(other, right_on) {
            Ok(p) => p,
            Err(e) => {
                return Err(e);
            },
        };
        if lk.len() != rk.len() {
            return Err(FrameError::ValueError);
        }
        let ghost lks = lk@.map_values(|c: usize| c as int);
        let ghost rks = rk@.map_values(|c: usize| c as int);
        proof {
            assert forall|j: int| 0 <= j < lk@.len() implies #[trigger] lk@[j] < self.ncols() by {
                assert(self.position(left_on@[j]@) == Some(lk@[j] as int));
            }
            assert forall|j: int| 0 <= j < rk@.len() implies #[trigger] rk@[j] < other.ncols() by {
                assert(other.position(right_on@[j]@) == Some(rk@[j] as int));
            }
            assert forall|j: int| 0 <= j < lks.len() implies lks[j] == #[trigger] key_positions(*self, left_on@)[j] by {
                assert(self.position(left_on@[j]@) == Some(lk@[j] as int));
            }
            assert(lks =~= key_positions(*self, left_on@));
            assert forall|j: int| 0 <= j < rks.len() implies rks[j] == #[trigger] key_positions(*other, right_on@)[j] by {
                assert(other.position(right_on@[j]@) == Some(rk@[j] as int));
            }
            assert(rks =~= key_positions(*other, right_on@));
        }
        let n = self.len();
        let m = other.len();
        let mut right_keys: Vec<Vec<Option<crate::column::ValueEnum>>> = Vec::new();
        let mut b: usize = 0;
        while b < m
            invariant
                other.wf(),
                m == other.nrows(),
                rks == rk@.map_values(|c: usize| c as int),
                forall|j: int| 0 <= j < rk@.len() ==> #[trigger] rk@[j] < other.ncols(),
                b <= m,
                right_keys@.len() == b,
                forall|i: int| 0 <= i < b ==> crate::column::opt_views((#[trigger] right_keys@[i])@) == row_key(*other, rks, i),
            decreases m - b,
        {
            right_keys.push(crate::groupby::key_of_row(other, &rk, b));
            b = b + 1;
        }
        let mut li: Vec<Option<usize>> = Vec::new();
        let mut ri: Vec<Option<usize>> = Vec::new();
        let mut a: usize = 0;
        while a < n
            invariant
                self.wf(),
                n == self.nrows(),
                m == other.nrows(),
                lks == lk@.map_values(|c: usize| c as int),
                rks == rk@.map_values(|c: usize| c as int),
                forall|j: int| 0 <= j < lk@.len() ==> #[trigger] lk@[j] < self.ncols(),
                right_keys@.len() == m,
                forall|i: int| 0 <= i < m ==> crate::column::opt_views((#[trigger] right_keys@[i])@) == row_key(*other, rks, i),
                a <= n,
                ints(li@) == lift_firsts(inner_pairs(*self, *other, lks, rks, a as int)),
                ints(ri@) == lift_seconds(inner_pairs(*self, *other, lks, rks, a as int)),
                forall|k: int| 0 <= k < li@.len() ==> (#[trigger] li@[k]) is Some && li@[k]->Some_0 < a,
                forall|k: int| 0 <= k < ri@.len() ==> (#[trigger] ri@[k]) is Some && ri@[k]->Some_0 < m,
                li@.len() == ri@.len(),
            decreases n - a,
        {
            let key_a = crate::groupby::key_of_row(self, &lk, a);
            let complete = key_complete(&key_a);
            let mut b: usize = 0;
            while b < m
                invariant
                    n == self.nrows(),
                    m == other.nrows(),
                    a < n,
                    b <= m,
                    right_keys@.len() == m,
                    forall|i: int| 0 <= i < m ==> crate::column::opt_views((#[trigger] right_keys@[i])@) == row_key(*other, rks, i),
                    crate::column::opt_views(key_a@) == row_key(*self, lks, a as int),
                    complete == forall|j: int| 0 <= j < key_a@.len() ==> (#[trigger] crate::column::opt_views(key_a@)[j]) is Some,
                    ints(li@) == lift_firsts(inner_pairs(*self, *other, lks, rks, a as int) + matches_of(*self, *other, lks, rks, a as int, b as int)),
                    ints(ri@) == lift_seconds(inner_pairs(*self, *other, lks, rks, a as int) + matches_of(*self, *other, lks, rks, a as int, b as int)),
                    forall|k: int| 0 <= k < li@.len() ==> (#[trigger] li@[k]) is Some && li@[k]->Some_0 <= a,
                    forall|k: int| 0 <= k < ri@.len() ==> (#[trigger] ri@[k]) is Some && ri@[k]->Some_0 < m,
                    li@.len() == ri@.len(),
                decreases m - b,
            {
                let joins = complete && same_key(&key_a, &right_keys[b]);
                proof {
                    assert(joins == rows_join(*self, *other, lks, rks, a as int, b as int)) by {
                        assert(row_key(*self, lks, a as int).len() == key_a@.len());
                    }
                }
                let ghost p_old = inner_pairs(*self, *other, lks, rks, a as int) + matches_of(*self, *other, lks, rks, a as int, b as int);
                let ghost p_new = inner_pairs(*self, *other, lks, rks, a as int) + matches_of(*self, *other, lks, rks, a as int, b as int + 1);
                let ghost lb = li@;
                let ghost rb = ri@;
                if joins {
                    li.push(Some(a));
                    ri.push(Some(b));
                    proof {
                        assert(p_new =~= p_old.push((a as int, b as int)));
                        assert(ints(li@) =~= ints(lb).push(Some(a as int)));
                        assert(ints(ri@) =~= ints(rb).push(Some(b as int)));
                        assert(lift_firsts(p_new) =~= lift_firsts(p_old).push(Some(a as int)));
                        assert(lift_seconds(p_new) =~= lift_seconds(p_old).push(Some(b as int)));
                    }
                } else {
                    assert(p_new == p_old);
                }
                b = b + 1;
                assert(ints(li@) =~= lift_firsts(inner_pairs(*self, *other, lks, rks, a as int) + matches_of(*self, *other, lks, rks, a as int, b as int)));
                assert(ints(ri@) =~= lift_seconds(inner_pairs(*self, *other, lks, rks, a as int) + matches_of(*self, *other, lks, rks, a as int, b as int)));
            }
            assert(inner_pairs(*self, *other, lks, rks, a as int + 1) == inner_pairs(*self, *other, lks, rks, a as int) + matches_of(*self, *other, lks, rks, a as int, m as int));
            a = a + 1;
        }
        let t = assemble(self, other, right_on, &li, &ri);
        proof {
            assert forall|j: int| 0 <= j < lks.len() implies lks[j] == #[trigger] key_positions(*self, left_on@)[j] by {
                assert(self.position(left_on@[j]@) == Some(lk@[j] as int));
            }
            assert(lks =~= key_positions(*self, left_on@));
            assert forall|j: int| 0 <= j < rks.len() implies rks[j] == #[trigger] key_positions(*other, right_on@)[j] by {
                assert(other.position(right_on@[j]@) == Some(rk@[j] as int));
            }
            assert(rks =~= key_positions(*other, right_on@));
            assert forall|j: int| 0 <= j < left_on@.len() implies (#[trigger] self.position(left_on@[j]@)) is Some by {
                assert(self.position(left_on@[j]@) == Some(lk@[j] as int));
            }
            assert forall|j: int| 0 <= j < right_on@.len() implies (#[trigger] other.position(right_on@[j]@)) is Some by {
                assert(other.position(right_on@[j]@) == Some(rk@[j] as int));
            }
        }
        Ok(t)
    }
}

/// The row pairs of a join that keeps every primary row with a complete key.
fn primary_pairs(
    p: &TinyFrame,
    o: &TinyFrame,
    pk: &Vec<usize>,
    ok: &Vec<usize>,
) -> (r: (Vec<Option<usize>>, Vec<Option<usize>>))
    requires
        p.wf(),
        o.wf(),
        forall|j: int| 0 <= j < pk@.len() ==> #[trigger] pk@[j] < p.ncols(),
        forall|j: int| 0 <= j < ok@.len() ==> #[trigger] ok@[j] < o.ncols(),
    ensures
        ints(r.0@) == opt_firsts(keep_primary(*p, *o, pk@.map_values(|c: usize| c as int), ok@.map_values(|c: usize| c as int), p.nrows() as int)),
        ints(r.1@) == opt_seconds(keep_primary(*p, *o, pk@.map_values(|c: usize| c as int), ok@.map_values(|c: usize| c as int), p.nrows() as int)),
        r.0@.len() == r.1@.len(),
        forall|k: int| 0 <= k < r.0@.len() && (#[trigger] r.0@[k]) is Some ==> r.0@[k]->Some_0 < p.nrows(),
        forall|k: int| 0 <= k < r.1@.len() && (#[trigger] r.1@[k]) is Some ==> r.1@[k]->Some_0 < o.nrows(),
{
    let ghost pks = pk@.map_values(|c: usize| c as int);
    let ghost oks = ok@.map_values(|c: usize| c as int);
    let n = p.len();
    let m = o.len();
    let mut other_keys: Vec<Vec<Option<crate::column::ValueEnum>>> = Vec::new();
    let mut b: usize = 0;
    while b < m
        invariant
            o.wf(),
            m == o.nrows(),
            oks == ok@.map_values(|c: usize| c as int),
            forall|j: int| 0 <= j < ok@.len() ==> #[trigger] ok@[j] < o.ncols(),
            b <= m,
            other_keys@.len() == b,
            forall|i: int| 0 <= i < b ==> crate::column::opt_views((#[trigger] other_keys@[i])@) == row_key(*o, oks, i),
        decreases m - b,
    {
        other_keys.push(crate::groupby::key_of_row(o, ok, b));
        b = b + 1;
    }
    let mut li: Vec<Option<usize>> = Vec::new();
    let mut ri: Vec<Option<usize>> = Vec::new();
    let mut a: usize = 0;
    while a < n
        invariant
            p.wf(),
            n == p.nrows(),
            m == o.nrows(),
            pks == pk@.map_values(|c: usize| c as int),
            oks == ok@.map_values(|c: usize| c as int),
            forall|j: int| 0 <= j < pk@.len() ==> #[trigger] pk@[j] < p.ncols(),
            other_keys@.len() == m,
            forall|i: int| 0 <= i < m ==> crate::column::opt_views((#[trigger] other_keys@[i])@) == row_key(*o, oks, i),
            a <= n,
            ints(li@) == opt_firsts(keep_primary(*p, *o, pks, oks, a as int)),
            ints(ri@) == opt_seconds(keep_primary(*p, *o, pks, oks, a as int)),
            li@.len() == ri@.len(),
            forall|k: int| 0 <= k < li@.len() && (#[trigger] li@[k]) is Some ==> li@[k]->Some_0 < a,
            forall|k: int| 0 <= k < ri@.len() && (#[trigger] ri@[k]) is Some ==> ri@[k]->Some_0 < m,
        decreases n - a,
    {
        let key_a = crate::groupby::key_of_row(p, pk, a);
        let complete = key_complete(&key_a);
        let ghost base = keep_primary(*p, *o, pks, oks, a as int);
        let mut found = false;
        let mut b: usize = 0;
        while b < m
            invariant
                n == p.nrows(),
                m == o.nrows(),
                a < n,
                b <= m,
                other_keys@.len() == m,
                forall|i: int| 0 <= i < m ==> crate::column::opt_views((#[trigger] other_keys@[i])@) == row_key(*o, oks, i),
                crate::column::opt_views(key_a@) == row_key(*p, pks, a as int),
                complete == forall|j: int| 0 <= j < key_a@.len() ==> (#[trigger] crate::column::opt_views(key_a@)[j]) is Some,
                base == keep_primary(*p, *o, pks, oks, a as int),
                found == (matches_of(*p, *o, pks, oks, a as int, b as int).len() > 0),
                ints(li@) == opt_firsts(base + lift_pairs(matches_of(*p, *o, pks, oks, a as int, b as int))),
                ints(ri@) == opt_seconds(base + lift_pairs(matches_of(*p, *o, pks, oks, a as int, b as int))),
                li@.len() == ri@.len(),
                forall|k: int| 0 <= k < li@.len() && (#[trigger] li@[k]) is Some ==> li@[k]->Some_0 <= a,
                forall|k: int| 0 <= k < ri@.len() && (#[trigger] ri@[k]) is Some ==> ri@[k]->Some_0 < m,
            decreases m - b,
        {
            let joins = complete && same_key(&key_a, &other_keys[b]);
            proof {
                assert(joins == rows_join(*p, *o, pks, oks, a as int, b as int)) by {
                    assert(row_key(*p, pks, a as int).len() == key_a@.len());
                }
            }
            let ghost p_old = base + lift_pairs(matches_of(*p, *o, pks, oks, a as int, b as int));
            let ghost p_new = base + lift_pairs(matches_of(*p, *o, pks, oks, a as int, b as int + 1));
            let ghost lb = li@;
            let ghost rb = ri@;
            if joins {
                li.push(Some(a));
                ri.push(Some(b));
                found = true;
                proof {
                    assert(lift_pairs(matches_of(*p, *o, pks, oks, a as int, b as int + 1)) =~= lift_pairs(matches_of(*p, *o, pks, oks, a as int, b as int)).push((Some(a as int), Some(b as int))));
                    assert(p_new =~= p_old.push((Some(a as int), Some(b as int))));
                    assert(ints(li@) =~= ints(lb).push(Some(a as int)));
                    assert(ints(ri@) =~= ints(rb).push(Some(b as int)));
                    assert(opt_firsts(p_new) =~= opt_firsts(p_old).push(Some(a as int)));
                    assert(opt_seconds(p_new) =~= opt_seconds(p_old).push(Some(b as int)));
                }
            } else {
                assert(p_new == p_old);
            }
            b = b + 1;
        }
        proof {
            assert(complete == key_complete_at(*p, pks, a as int)) by {
                assert(row_key(*p, pks, a as int).len() == key_a@.len());
            }
            if !complete {
                assert(matches_of(*p, *o, pks, oks, a as int, m as int).len() == 0) by {
                    lemma_no_matches_without_key(*p, *o, pks, oks, a as int, m as int);
                }
                assert(lift_pairs(matches_of(*p, *o, pks, oks, a as int, m as int)) =~= Seq::<(Option<int>, Option<int>)>::empty());
                assert(base + lift_pairs(matches_of(*p, *o, pks, oks, a as int, m as int)) =~= base);
            }
        }
        if complete && !found {
            let ghost lb = li@;
            let ghost rb = ri@;
            li.push(Some(a));
            ri.push(None);
            proof {
                assert(matches_of(*p, *o, pks, oks, a as int, m as int).len() == 0);
                assert(lift_pairs(matches_of(*p, *o, pks, oks, a as int, m as int)) =~= Seq::<(Option<int>, Option<int>)>::empty());
                assert(base + lift_pairs(matches_of(*p, *o, pks, oks, a as int, m as int)) =~= base);
                assert(ints(li@) =~= ints(lb).push(Some(a as int)));
                assert(ints(ri@) =~= ints(rb).push(None));
                assert(opt_firsts(base.push((Some(a as int), None))) =~= opt_firsts(base).push(Some(a as int)));
                assert(opt_seconds(base.push((Some(a as int), None))) =~= opt_seconds(base).push(None));
            }
        }
        a = a + 1;
    }
    (li, ri)
}

/// A left row whose key holds a null joins nothing.
proof fn lemma_no_matches_without_key(l: TinyFrame, r: TinyFrame, lk: Seq<int>, rk: Seq<int>, a: int, m: int)
    requires
        !key_complete_at(l, lk, a),
    ensures
        matches_of(l, r, lk, rk, a, m).len() == 0,
    decreases m,
{
    if m > 0 {
        lemma_no_matches_without_key(l, r, lk, rk, a, m - 1);
        assert(!rows_join(l, r, lk, rk, a, m - 1));
    }
}

/// The positions of the join columns of both sides, checked as a join
/// checks them: both lists must name existing columns and be equally long.
fn join_columns(l: &TinyFrame, r: &TinyFrame, left_on: &Vec<String>, right_on: &Vec<String>) -> (res: Result<(Vec<usize>, Vec<usize>), FrameError>)
    requires
        l.wf(),
        r.wf(),
    ensures
        match res {
            Ok((lk, rk)) => {
                &&& left_on@.len() == right_on@.len()
                &&& lk@.len() == left_on@.len()
                &&& rk@.len() == right_on@.len()
                &&& forall|j: int| 0 <= j < lk@.len() ==> #[trigger] lk@[j] < l.ncols()
                &&& forall|j: int| 0 <= j < rk@.len() ==> #[trigger] rk@[j] < r.ncols()
                &&& lk@.map_values(|c: usize| c as int) == key_positions(*l, left_on@)
                &&& rk@.map_values(|c: usize| c as int) == key_positions(*r, right_on@)
                &&& forall|j: int| 0 <= j < left_on@.len() ==> (#[trigger] l.position(left_on@[j]@)) is Some
                &&& forall|j: int| 0 <= j < right_on@.len() ==> (#[trigger] r.position(right_on@[j]@)) is Some
            },
            Err(e) => {
                ||| e == FrameError::NotFound && ((exists|j: int| 0 <= j < left_on@.len() && (#[trigger] l.position(left_on@[j]@)) is None)
                    || (exists|j: int| 0 <= j < right_on@.len() && (#[trigger] r.position(right_on@[j]@)) is None))
                ||| e == FrameError::ValueError && left_on@.len() != right_on@.len()
            },
        },
        (forall|j: int| 0 <= j < left_on@.len() ==> (#[trigger] l.position(left_on@[j]@)) is Some)
            && (forall|j: int| 0 <= j < right_on@.len() ==> (#[trigger] r.position(right_on@[j]@)) is Some)
            && left_on@.len() == right_on@.len() ==> res is Ok,
{
    let lk = match positions_of(l, left_on) {
        Ok(p) => p,
        Err(e) => {
            return Err(e);
        },
    };
    let rk = match positions_of(r, right_on) {
        Ok(p) => p,
        Err(e) => {
            return Err(e);
        },
    };
    if lk.len() != rk.len() {
        return Err(FrameError::ValueError);
    }
    proof {
        let lks = lk@.map_values(|c: usize| c as int);
        let rks = rk@.map_values(|c: usize| c as int);
        assert forall|j: int| 0 <= j < lk@.len() implies #[trigger] lk@[j] < l.ncols() by {
            assert(l.position(left_on@[j]@) == Some(lk@[j] as int));
        }
        assert forall|j: int| 0 <= j < rk@.len() implies #[trigger] rk@[j] < r.ncols() by {
            assert(r.position(right_on@[j]@) == Some(rk@[j] as int));
        }
        assert forall|j: int| 0 <= j < lks.len() implies lks[j] == #[trigger] key_positions(*l, left_on@)[j] by {
            assert(l.position(left_on@[j]@) == Some(lk@[j] as int));
        }
        assert(lks =~= key_positions(*l, left_on@));
        assert forall|j: int| 0 <= j < rks.len() implies rks[j] == #[trigger] key_positions(*r, right_on@)[j] by {
            assert(r.position(right_on@[j]@) == Some(rk@[j] as int));
        }
        assert(rks =~= key_positions(*r, right_on@));
        assert forall|j: int| 0 <= j < left_on@.len() implies (#[trigger] l.position(left_on@[j]@)) is Some by {
            assert(l.position(left_on@[j]@) == Some(lk@[j] as int));
        }
        assert forall|j: int| 0 <= j < right_on@.len() implies (#[trigger] r.position(right_on@[j]@)) is Some by {
            assert(r.position(right_on@[j]@) == Some(rk@[j] as int));
        }
    }
    Ok((lk, rk))
}

impl TinyFrame {
    /// Every left row with a complete key, paired with each matching right row,
    /// or with nulls in the right columns when none matches. The right key
    /// columns, and right columns whose name a left column has, are left out.
    pub fn left_join(&self, other: &TinyFrame, left_on: &Vec<String>, right_on: &Vec<String>) -> (r: Result<TinyFrame, FrameError>)
        requires
            self.wf(),
            other.wf(),
        ensures
            match r {
                Ok(t) => {
                    let rows = keep_primary(*self, *other, key_positions(*self, left_on@), key_positions(*other, right_on@), self.nrows() as int);
                    &&& left_on@.len() == right_on@.len()
                    &&& joined(*self, *other, views(right_on@), opt_firsts(rows), opt_seconds(rows), t)
                },
                Err(e) => {
                    ||| e == FrameError::NotFound && ((exists|j: int| 0 <= j < left_on@.len() && (#[trigger] self.position(left_on@[j]@)) is None)
                        || (exists|j: int| 0 <= j < right_on@.len() && (#[trigger] other.position(right_on@[j]@)) is None))
                    ||| e == FrameError::ValueError && left_on@.len() != right_on@.len()
                },
            },
            (forall|j: int| 0 <= j < left_on@.len() ==> (#[trigger] self.position(left_on@[j]@)) is Some)
                && (forall|j: int| 0 <= j < right_on@.len() ==> (#[trigger] other.position(right_on@[j]@)) is Some)
                && left_on@.len() == right_on@.len() ==> r is Ok,
    {
        let (lk, rk) = match join_columns(self, other, left_on, right_on) {
            Ok(k) => k,
            Err(e) => {
                return Err(e);
            },
        };
        let (li, ri) = primary_pairs(self, other, &lk, &rk);
        Ok(assemble(self, other, right_on, &li, &ri))
    }

    /// Every right row with a complete key, paired with each matching left row,
    /// or with nulls in the left columns when none matches. The right table's
    /// columns come first; the left key columns, and left columns whose name a
    /// right column has, are left out.
    pub fn right_join(&self, other: &TinyFrame, left_on: &Vec<String>, right_on: &Vec<String>) -> (r: Result<TinyFrame, FrameError>)
        requires
            self.wf(),
            other.wf(),
        ensures
            match r {
                Ok(t) => {
                    let rows = keep_primary(*other, *self, key_positions(*other, right_on@), key_positions(*self, left_on@), other.nrows() as int);
                    &&& left_on@.len() == right_on@.len()
                    &&& joined(*other, *self, views(left_on@), opt_firsts(rows), opt_seconds(rows), t)
                },
                Err(e) => {
                    ||| e == FrameError::NotFound && ((exists|j: int| 0 <= j < left_on@.len() && (#[trigger] self.position(left_on@[j]@)) is None)
                        || (exists|j: int| 0 <= j < right_on@.len() && (#[trigger] other.position(right_on@[j]@)) is None))
                    ||| e == FrameError::ValueError && left_on@.len() != right_on@.len()
                },
            },
            (forall|j: int| 0 <= j < left_on@.len() ==> (#[trigger] self.position(left_on@[j]@)) is Some)
                && (forall|j: int| 0 <= j < right_on@.len() ==> (#[trigger] other.position(right_on@[j]@)) is Some)
                && left_on@.len() == right_on@.len() ==> r is Ok,
    {
        let (lk, rk) = match join_columns(self, other, left_on, right_on) {
            Ok(k) => k,
            Err(e) => {
                return Err(e);
            },
        };
        let (ri, li) = primary_pairs(other, self, &rk, &lk);
        Ok(assemble(other, self, left_on, &ri, &li))
    }

    /// The left join's rows, then every right row with a complete key that no
    /// left row joins, with nulls in the left columns. All left columns are
    /// kept; a right column is kept unless a left column has its name.
    pub fn outer_join(&self, other: &TinyFrame, left_on: &Vec<String>, right_on: &Vec<String>) -> (r: Result<TinyFrame, FrameError>)
        requires
            self.wf(),
            other.wf(),
        ensures
            match r {
                Ok(t) => {
                    let lk = key_positions(*self, left_on@);
                    let rk = key_positions(*other, right_on@);
                    let rows = keep_primary(*self, *other, lk, rk, self.nrows() as int) + unmatched_right(*self, *other, lk, rk, other.nrows() as int);
                    &&& left_on@.len() == right_on@.len()
                    &&& joined(*self, *other, Seq::<Seq<char>>::empty(), opt_firsts(rows), opt_seconds(rows), t)
                },
                Err(e) => {
                    ||| e == FrameError::NotFound && ((exists|j: int| 0 <= j < left_on@.len() && (#[trigger] self.position(left_on@[j]@)) is None)
                        || (exists|j: int| 0 <= j < right_on@.len() && (#[trigger] other.position(right_on@[j]@)) is None))
                    ||| e == FrameError::ValueError && left_on@.len() != right_on@.len()
                },
            },
            (forall|j: int| 0 <= j < left_on@.len() ==> (#[trigger] self.position(left_on@[j]@)) is Some)
                && (forall|j: int| 0 <= j < right_on@.len() ==> (#[trigger] other.position(right_on@[j]@)) is Some)
                && left_on@.len() == right_on@.len() ==> r is Ok,
    {
        let (lk, rk) = match join_columns(self, other, left_on, right_on) {
            Ok(k) => k,
            Err(e) => {
                return Err(e);
            },
        };
        let ghost lks = lk@.map_values(|c: usize| c as int);
        let ghost rks = rk@.map_values(|c: usize| c as int);
        let (mut li, mut ri) = primary_pairs(self, other, &lk, &rk);
        let ghost base = keep_primary(*self, *other, lks, rks, self.nrows() as int);
        let n = self.len();
        let m = other.len();
        let mut left_keys: Vec<Vec<Option<crate::column::ValueEnum>>> = Vec::new();
        let mut left_complete: Vec<bool> = Vec::new();
        let mut a: usize = 0;
        while a < n
            invariant
                self.wf(),
                n == self.nrows(),
                lks == lk@.map_values(|c: usize| c as int),
                forall|j: int| 0 <= j < lk@.len() ==> #[trigger] lk@[j] < self.ncols(),
                a <= n,
                left_keys@.len() == a,
                left_complete@.len() == a,
                forall|i: int| 0 <= i < a ==> crate::column::opt_views((#[trigger] left_keys@[i])@) == row_key(*self, lks, i),
                forall|i: int| 0 <= i < a ==> (#[trigger] left_complete@[i]) == key_complete_at(*self, lks, i),
            decreases n - a,
        {
            let k = crate::groupby::key_of_row(self, &lk, a);
            let c = key_complete(&k);
            proof {
                assert(row_key(*self, lks, a as int).len() == k@.len());
            }
            left_keys.push(k);
            left_complete.push(c);
            a = a + 1;
        }
        let mut b: usize = 0;
        while b < m
            invariant
                self.wf(),
                other.wf(),
                n == self.nrows(),
                m == other.nrows(),
                lks == lk@.map_values(|c: usize| c as int),
                rks == rk@.map_values(|c: usize| c as int),
                forall|j: int| 0 <= j < rk@.len() ==> #[trigger] rk@[j] < other.ncols(),
                left_keys@.len() == n,
                left_complete@.len() == n,
                forall|i: int| 0 <= i < n ==> crate::column::opt_views((#[trigger] left_keys@[i])@) == row_key(*self, lks, i),
                forall|i: int| 0 <= i < n ==> (#[trigger] left_complete@[i]) == key_complete_at(*self, lks, i),
                b <= m,
                ints(li@) == opt_firsts(base + unmatched_right(*self, *other, lks, rks, b as int)),
                ints(ri@) == opt_seconds(base + unmatched_right(*self, *other, lks, rks, b as int)),
                li@.len() == ri@.len(),
                forall|k: int| 0 <= k < li@.len() && (#[trigger] li@[k]) is Some ==> li@[k]->Some_0 < n,
                forall|k: int| 0 <= k < ri@.len() && (#[trigger] ri@[k]) is Some ==> ri@[k]->Some_0 < m,
            decreases m - b,
        {
            let key_b = crate::groupby::key_of_row(other, &rk, b);
            let complete = key_complete(&key_b);
            let mut matched = false;
            let mut a: usize = 0;
            while a < n
                invariant
                    n == self.nrows(),
                    b < m,
                    left_keys@.len() == n,
                    left_complete@.len() == n,
                    forall|i: int| 0 <= i < n ==> crate::column::opt_views((#[trigger] left_keys@[i])@) == row_key(*self, lks, i),
                    forall|i: int| 0 <= i < n ==> (#[trigger] left_complete@[i]) == key_complete_at(*self, lks, i),
                    crate::column::opt_views(key_b@) == row_key(*other, rks, b as int),
                    a <= n,
                    matched == exists|i: int| 0 <= i < a && #[trigger] rows_join(*self, *other, lks, rks, i, b as int),
                decreases n - a,
            {
                if left_complete[a] && same_key(&left_keys[a], &key_b) {
                    matched = true;
                    assert(rows_join(*self, *other, lks, rks, a as int, b as int));
                } else {
                    assert(!rows_join(*self, *other, lks, rks, a as int, b as int));
                }
                a = a + 1;
            }
            let ghost before = base + unmatched_right(*self, *other, lks, rks, b as int);
            proof {
                assert(complete == key_complete_at(*other, rks, b as int)) by {
                    assert(row_key(*other, rks, b as int).len() == key_b@.len());
                }
                assert(base + unmatched_right(*self, *other, lks, rks, b as int + 1) =~= (if complete && !matched {
                    before.push((None, Some(b as int)))
                } else {
                    before
                }));
            }
            if complete && !matched {
                let ghost lb = li@;
                let ghost rb = ri@;
                li.push(None);
                ri.push(Some(b));
                proof {
                    assert(ints(li@) =~= ints(lb).push(None));
                    assert(ints(ri@) =~= ints(rb).push(Some(b as int)));
                    assert(opt_firsts(before.push((None, Some(b as int)))) =~= opt_firsts(before).push(None));
                    assert(opt_seconds(before.push((None, Some(b as int)))) =~= opt_seconds(before).push(Some(b as int)));
                }
            }
            b = b + 1;
        }
        let empty: Vec<String> = Vec::new();
        let t = assemble(self, other, &empty, &li, &ri);
        proof {
            assert(views(empty@) =~= Seq::<Seq<char>>::empty());
        }
        Ok(t)
    }
}

} // verus!
