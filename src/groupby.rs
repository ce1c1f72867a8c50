use vstd::prelude::*;
use crate::column::{Cell, Kind, TinyColumn, ValueEnum, opt_view, opt_views};
use crate::frame::{TinyFrame, FrameError};
use crate::simd::{wrap_i64};

verus! {

/// The key tuple of row `r`: its slots in the key columns.
pub open spec fn row_key(t: TinyFrame, keys: Seq<int>, r: int) -> Seq<Option<Cell>> {
    keys.map_values(|c: int| t.cell(c, r))
}

/// The integer a slot contributes to a sum: its value, or 0 for a null.
pub open spec fn int_value(c: Option<Cell>) -> int {
    match c {
        Some(Cell::Int(x)) => x as int,
        _ => 0,
    }
}

/// The exact sum of column `v` over the rows in `[lo, hi)` whose key is `key`.
pub open spec fn key_sum(t: TinyFrame, keys: Seq<int>, v: int, key: Seq<Option<Cell>>, lo: int, hi: int) -> int
    decreases hi - lo,
{
    if hi <= lo {
        0
    } else {
        key_sum(t, keys, v, key, lo, hi - 1) + (if row_key(t, keys, hi - 1) == key {
            int_value(t.cell(v, hi - 1))
        } else {
            0
        })
    }
}

/// The number of non-null values of column `v` over the rows in `[lo, hi)`
/// whose key is `key`.
pub open spec fn key_count(t: TinyFrame, keys: Seq<int>, v: int, key: Seq<Option<Cell>>, lo: int, hi: int) -> int
    decreases hi - lo,
{
    if hi <= lo {
        0
    } else {
        key_count(t, keys, v, key, lo, hi - 1) + (if row_key(t, keys, hi - 1) == key && t.cell(v, hi - 1) is Some {
            1int
        } else {
            0
        })
    }
}

/// The exact sum of the non-null values of column `v` over `[lo, hi)`.
pub open spec fn column_sum(t: TinyFrame, v: int, lo: int, hi: int) -> int
    decreases hi - lo,
{
    if hi <= lo {
        0
    } else {
        column_sum(t, v, lo, hi - 1) + int_value(t.cell(v, hi - 1))
    }
}

/// Whether `key` is the key of some row in `[lo, hi)`.
pub open spec fn key_occurs(t: TinyFrame, keys: Seq<int>, key: Seq<Option<Cell>>, lo: int, hi: int) -> bool {
    exists|r: int| lo <= r < hi && row_key(t, keys, r) == key
}

/// The sum reported for a group: its wrapped total, or `None` when every
/// value in the group is null.
pub open spec fn reported(t: TinyFrame, keys: Seq<int>, v: int, key: Seq<Option<Cell>>, lo: int, hi: int) -> Option<int> {
    if key_count(t, keys, v, key, lo, hi) > 0 {
        Some(wrap_i64(key_sum(t, keys, v, key, lo, hi)))
    } else {
        None
    }
}

/// Per-group sums: one key tuple and one total per group.
#[derive(Debug)]
pub struct GroupedSum {
    pub keys: Vec<Vec<Option<ValueEnum>>>,
    pub sums: Vec<Option<i64>>,
}

impl GroupedSum {
    /// The key tuple of group `g`.
    pub open spec fn key(&self, g: int) -> Seq<Option<Cell>> {
        opt_views(self.keys@[g]@)
    }

    /// The reported total of group `g`.
    pub open spec fn total(&self, g: int) -> Option<int> {
        match self.sums@[g] {
            Some(x) => Some(x as int),
            None => None,
        }
    }

    /// Some group has key `k`.
    pub open spec fn has_group(&self, k: Seq<Option<Cell>>) -> bool {
        exists|g: int| 0 <= g < self.keys@.len() && #[trigger] self.key(g) == k
    }

    /// `self` holds exactly the groups of rows `[lo, hi)` of `t` by `keys`,
    /// each key once, with the total of column `v`.
    pub open spec fn groups_of(&self, t: TinyFrame, keys: Seq<int>, v: int, lo: int, hi: int) -> bool {
        &&& self.keys@.len() == self.sums@.len()
        &&& forall|g: int| 0 <= g < self.keys@.len() ==> key_occurs(t, keys, #[trigger] self.key(g), lo, hi)
        &&& forall|r: int| lo <= r < hi ==> self.has_group(#[trigger] row_key(t, keys, r))
        &&& forall|g1: int, g2: int| 0 <= g1 < g2 < self.keys@.len() ==> self.key(g1) != self.key(g2)
        &&& forall|g: int| 0 <= g < self.keys@.len() ==> #[trigger] self.total(g) == reported(t, keys, v, self.key(g), lo, hi)
    }
}

proof fn lemma_key_sum_step(t: TinyFrame, keys: Seq<int>, v: int, key: Seq<Option<Cell>>, lo: int, hi: int)
    requires
        lo <= hi,
    ensures
        key_sum(t, keys, v, key, lo, hi + 1) == key_sum(t, keys, v, key, lo, hi) + (if row_key(t, keys, hi) == key {
            int_value(t.cell(v, hi))
        } else {
            0
        }),
        key_count(t, keys, v, key, lo, hi + 1) == key_count(t, keys, v, key, lo, hi) + (if row_key(t, keys, hi) == key
            && t.cell(v, hi) is Some {
            1int
        } else {
            0
        }),
{
}

proof fn lemma_key_count_nonneg(t: TinyFrame, keys: Seq<int>, v: int, key: Seq<Option<Cell>>, lo: int, hi: int)
    ensures
        key_count(t, keys, v, key, lo, hi) >= 0,
    decreases hi - lo,
{
    if hi > lo {
        lemma_key_count_nonneg(t, keys, v, key, lo, hi - 1);
    }
}

/// Sums and counts over adjacent ranges add up.
pub proof fn lemma_key_split(t: TinyFrame, keys: Seq<int>, v: int, key: Seq<Option<Cell>>, lo: int, mid: int, hi: int)
    requires
        lo <= mid <= hi,
    ensures
        key_sum(t, keys, v, key, lo, hi) == key_sum(t, keys, v, key, lo, mid) + key_sum(t, keys, v, key, mid, hi),
        key_count(t, keys, v, key, lo, hi) == key_count(t, keys, v, key, lo, mid) + key_count(t, keys, v, key, mid, hi),
    decreases hi - mid,
{
    if hi > mid {
        lemma_key_split(t, keys, v, key, lo, mid, hi - 1);
    }
}

/// A key that no row of the range has contributes nothing.
proof fn lemma_absent_key(t: TinyFrame, keys: Seq<int>, v: int, key: Seq<Option<Cell>>, lo: int, hi: int)
    requires
        !key_occurs(t, keys, key, lo, hi),
    ensures
        key_sum(t, keys, v, key, lo, hi) == 0,
        key_count(t, keys, v, key, lo, hi) == 0,
    decreases hi - lo,
{
    if hi > lo {
        assert(row_key(t, keys, hi - 1) != key);
        lemma_absent_key(t, keys, v, key, lo, hi - 1);
    }
}

/// Whether two slots hold the same value.
pub fn same_value(a: &Option<ValueEnum>, b: &Option<ValueEnum>) -> (r: bool)
    ensures
        r == (opt_view(*a) == opt_view(*b)),
{
    match (a, b) {
        (None, None) => true,
        (Some(ValueEnum::Int(x)), Some(ValueEnum::Int(y))) => *x == *y,
        (Some(ValueEnum::Float(x)), Some(ValueEnum::Float(y))) => *x == *y,
        (Some(ValueEnum::Str(x)), Some(ValueEnum::Str(y))) => *x == *y,
        (Some(ValueEnum::Bool(x)), Some(ValueEnum::Bool(y))) => *x == *y,
        (Some(ValueEnum::Opaque(x)), Some(ValueEnum::Opaque(y))) => *x == *y,
        _ => false,
    }
}

/// Whether two key tuples are equal.
pub fn same_key(a: &Vec<Option<ValueEnum>>, b: &Vec<Option<ValueEnum>>) -> (r: bool)
    ensures
        r == (opt_views(a@) == opt_views(b@)),
{
    if a.len() != b.len() {
        assert(opt_views(a@).len() != opt_views(b@).len());
        return false;
    }
    let mut i: usize = 0;
    while i < a.len()
        invariant
            a@.len() == b@.len(),
            i <= a@.len(),
            forall|j: int| 0 <= j < i ==> opt_view(a@[j]) == opt_view(b@[j]),
        decreases a@.len() - i,
    {
        if !same_value(&a[i], &b[i]) {
            assert(opt_views(a@)[i as int] != opt_views(b@)[i as int]);
            return false;
        }
        i = i + 1;
    }
    assert(opt_views(a@) =~= opt_views(b@));
    true
}

/// The key tuple of row `r`.
pub fn key_of_row(t: &TinyFrame, keys: &Vec<usize>, r: usize) -> (k: Vec<Option<ValueEnum>>)
    requires
        t.wf(),
        forall|j: int| 0 <= j < keys@.len() ==> #[trigger] keys@[j] < t.ncols(),
        r < t.nrows(),
    ensures
        opt_views(k@) == row_key(*t, keys@.map_values(|c: usize| c as int), r as int),
{
    let ghost ks = keys@.map_values(|c: usize| c as int);
    let mut out: Vec<Option<ValueEnum>> = Vec::new();
    let mut j: usize = 0;
    while j < keys.len()
        invariant
            t.wf(),
            ks == keys@.map_values(|c: usize| c as int),
            forall|j: int| 0 <= j < keys@.len() ==> #[trigger] keys@[j] < t.ncols(),
            r < t.nrows(),
            j <= keys@.len(),
            opt_views(out@) == row_key(*t, ks, r as int).take(j as int),
        decreases keys@.len() - j,
    {
        let c = keys[j];
        assert(t.col(c as int).cells().len() == t.nrows());
        let v = t.column_at(c).get(r);
        let ghost before = out@;
        out.push(v);
        j = j + 1;
        assert(opt_views(out@) =~= opt_views(before).push(opt_view(v)));
        assert(opt_views(out@) =~= row_key(*t, ks, r as int).take(j as int));
    }
    assert(row_key(*t, ks, r as int).take(keys@.len() as int) =~= row_key(*t, ks, r as int));
    out
}

/// The group of `key` in `groups`, if any.
pub fn find_group(groups: &Vec<Vec<Option<ValueEnum>>>, key: &Vec<Option<ValueEnum>>) -> (r: Option<usize>)
    ensures
        match r {
            Some(g) => g < groups@.len() && opt_views(groups@[g as int]@) == opt_views(key@),
            None => forall|g: int| 0 <= g < groups@.len() ==> opt_views(#[trigger] groups@[g]@) != opt_views(key@),
        },
{
    let mut g: usize = 0;
    while g < groups.len()
        invariant
            g <= groups@.len(),
            forall|h: int| 0 <= h < g ==> opt_views(#[trigger] groups@[h]@) != opt_views(key@),
        decreases groups@.len() - g,
    {
        if same_key(&groups[g], key) {
            return Some(g);
        }
        g = g + 1;
    }
    None
}

/// A copy of a key tuple.
pub fn clone_key(k: &Vec<Option<ValueEnum>>) -> (r: Vec<Option<ValueEnum>>)
    ensures
        opt_views(r@) == opt_views(k@),
{
    let mut out: Vec<Option<ValueEnum>> = Vec::new();
    let mut i: usize = 0;
    while i < k.len()
        invariant
            i <= k@.len(),
            opt_views(out@) == opt_views(k@).take(i as int),
        decreases k@.len() - i,
    {
        let ghost before = out@;
        let x = crate::column::duplicate_opt(&k[i]);
        out.push(x);
        assert(opt_views(out@) =~= opt_views(before).push(opt_view(x)));
        i = i + 1;
        assert(opt_views(out@) =~= opt_views(k@).take(i as int));
    }
    assert(opt_views(k@).take(k@.len() as int) =~= opt_views(k@));
    out
}

/// The integer at row `r` of an integer column, `None` where it is null.
pub(crate) fn int_at(col: &TinyColumn, r: usize) -> (x: Option<i64>)
    requires
        r < col.cells().len(),
        col.shape().kind == Some(Kind::Int),
    ensures
        match x {
            Some(v) => col.cells()[r as int] == Some(Cell::Int(v)),
            None => col.cells()[r as int] is None,
        },
{
    match col {
        TinyColumn::Int(v) => Some(v[r]),
        TinyColumn::OptInt(v) => v[r],
        _ => None,
    }
}

/// Every key column exists and holds strings, and the value column exists
/// and holds integers.
pub open spec fn group_columns_ok(t: TinyFrame, key_names: Seq<String>, value: Seq<char>) -> bool {
    &&& forall|j: int| 0 <= j < key_names.len() ==> (#[trigger] t.position(key_names[j]@)) is Some
        && t.col(t.position(key_names[j]@)->Some_0).shape().kind == Some(Kind::Str)
    &&& t.position(value) is Some
    &&& t.col(t.position(value)->Some_0).shape().kind == Some(Kind::Int)
}

/// The error a group-by returns, and why: `NotFound` for a missing column,
/// `Unsupported` for a key column that does not hold strings, `TypeMismatch`
/// for a value column that does not hold integers.
pub open spec fn group_error(t: TinyFrame, key_names: Seq<String>, value: Seq<char>, e: FrameError) -> bool {
    ||| e == FrameError::NotFound && (t.position(value) is None || exists|j: int|
        0 <= j < key_names.len() && t.position(#[trigger] key_names[j]@) is None)
    ||| e == FrameError::Unsupported && exists|j: int|
        0 <= j < key_names.len() && t.position(#[trigger] key_names[j]@) is Some
        && t.col(t.position(key_names[j]@)->Some_0).shape().kind != Some(Kind::Str)
    ||| e == FrameError::TypeMismatch && t.position(value) is Some
        && t.col(t.position(value)->Some_0).shape().kind != Some(Kind::Int)
}

/// Validate the key and value columns: every key column must exist and hold
/// strings, and the value column must exist and hold integers.
pub fn resolve_columns(t: &TinyFrame, key_names: &Vec<String>, value: &str) -> (r: Result<(Vec<usize>, usize), FrameError>)
    requires
        t.wf(),
    ensures
        match r {
            Ok((keys, v)) => {
                &&& keys@.len() == key_names@.len()
                &&& forall|j: int| 0 <= j < keys@.len() ==> t.position(key_names@[j]@) == Some(#[trigger] keys@[j] as int)
                &&& forall|j: int| 0 <= j < keys@.len() ==> (#[trigger] t.col(keys@[j] as int)).shape().kind == Some(Kind::Str)
                &&& t.position(value@) == Some(v as int)
                &&& t.col(v as int).shape().kind == Some(Kind::Int)
                &&& group_columns_ok(*t, key_names@, value@)
            },
            Err(e) => group_error(*t, key_names@, value@, e),
        },
{
    let mut keys: Vec<usize> = Vec::new();
    let mut j: usize = 0;
    while j < key_names.len()
        invariant
            t.wf(),
            j <= key_names@.len(),
            keys@.len() == j,
            forall|i: int| 0 <= i < j ==> t.position(key_names@[i]@) == Some(#[trigger] keys@[i] as int),
            forall|i: int| 0 <= i < j ==> (#[trigger] t.col(keys@[i] as int)).shape().kind == Some(Kind::Str),
        decreases key_names@.len() - j,
    {
        let c = match t.find_column(key_names[j].as_str()) {
            Some(c) => c,
            None => {
                return Err(FrameError::NotFound);
            },
        };
        match t.column_at(c) {
            TinyColumn::Str(_) => {},
            TinyColumn::OptStr(_) => {},
            _ => {
                return Err(FrameError::Unsupported);
            },
        }
        keys.push(c);
        j = j + 1;
    }
    let v = match t.find_column(value) {
        Some(v) => v,
        None => {
            return Err(FrameError::NotFound);
        },
    };
    match t.column_at(v) {
        TinyColumn::Int(_) => {},
        TinyColumn::OptInt(_) => {},
        _ => {
            return Err(FrameError::TypeMismatch);
        },
    }
    proof {
        assert forall|j: int| 0 <= j < key_names@.len() implies (#[trigger] t.position(key_names@[j]@)) is Some
            && t.col(t.position(key_names@[j]@)->Some_0).shape().kind == Some(Kind::Str) by {
            assert(t.position(key_names@[j]@) == Some(keys@[j] as int));
        }
    }
    Ok((keys, v))
}

/// The positions of the named columns.
pub open spec fn key_positions(t: TinyFrame, names: Seq<String>) -> Seq<int> {
    names.map_values(|n: String| t.position(n@)->Some_0)
}

/// Group rows `[lo, hi)` by the key columns and total the value column.
/// Groups come in the order their key first appears; sums wrap in 64 bits.
pub fn groupby_sum_rows(t: &TinyFrame, keys: &Vec<usize>, v: usize, lo: usize, hi: usize) -> (r: GroupedSum)
    requires
        t.wf(),
        forall|j: int| 0 <= j < keys@.len() ==> #[trigger] keys@[j] < t.ncols(),
        v < t.ncols(),
        t.col(v as int).shape().kind == Some(Kind::Int),
        lo <= hi <= t.nrows(),
    ensures
        r.groups_of(*t, keys@.map_values(|c: usize| c as int), v as int, lo as int, hi as int),
{
    let ghost ks = keys@.map_values(|c: usize| c as int);
    let mut out = GroupedSum { keys: Vec::new(), sums: Vec::new() };
    let mut r: usize = lo;
    proof {
        assert(t.col(v as int).cells().len() == t.nrows());
    }
    while r < hi
        invariant
            t.wf(),
            ks == keys@.map_values(|c: usize| c as int),
            forall|j: int| 0 <= j < keys@.len() ==> #[trigger] keys@[j] < t.ncols(),
            v < t.ncols(),
            t.col(v as int).shape().kind == Some(Kind::Int),
            t.col(v as int).cells().len() == t.nrows(),
            lo <= r <= hi <= t.nrows(),
            out.groups_of(*t, ks, v as int, lo as int, r as int),
        decreases hi - r,
    {
        let key = key_of_row(t, keys, r);
        let x = int_at(t.column_at(v), r);
        let ghost before = out;
        match find_group(&out.keys, &key) {
            Some(g) => {
                let cur = out.sums[g];
                let next = match (cur, x) {
                    (Some(s), Some(y)) => Some(s.wrapping_add(y)),
                    (None, Some(y)) => Some(y),
                    (c, None) => c,
                };
                proof {
                    let kk = before.key(g as int);
                    assert(kk == row_key(*t, ks, r as int));
                    assert(before.total(g as int) == reported(*t, ks, v as int, kk, lo as int, r as int));
                    lemma_key_sum_step(*t, ks, v as int, kk, lo as int, r as int);
                    lemma_key_count_nonneg(*t, ks, v as int, kk, lo as int, r as int);
                    match (cur, x) {
                        (Some(s), Some(y)) => {
                            crate::simd::lemma_wrapping_add(s, y);
                            crate::simd::lemma_wrap_add(key_sum(*t, ks, v as int, kk, lo as int, r as int), y as int);
                        },
                        (None, Some(y)) => {
                            crate::simd::lemma_wrap_small(y as int);
                        },
                        _ => {},
                    }
                    if cur is None {
                        lemma_key_count_zero_sum(*t, ks, v as int, kk, lo as int, r as int);
                    }
                }
                out.sums.set(g, next);
                proof {
                    assert(out.keys@ == before.keys@);
                    assert forall|h: int| 0 <= h < out.keys@.len() && h != g implies out.total(h) == before.total(h) by {
                        assert(out.sums@[h] == before.sums@[h]);
                    }
                    assert forall|h: int| 0 <= h < out.keys@.len() implies #[trigger] out.total(h) == reported(*t, ks, v as int, out.key(h), lo as int, r as int + 1) by {
                        lemma_key_sum_step(*t, ks, v as int, out.key(h), lo as int, r as int);
                        assert(out.key(h) == before.key(h));
                        if h != g {
                            if h < g {
                                assert(before.key(h) != before.key(g as int));
                            } else {
                                assert(before.key(g as int) != before.key(h));
                            }
                            assert(out.key(h) != row_key(*t, ks, r as int));
                            assert(out.total(h) == before.total(h));
                        }
                    }
                    assert forall|q: int| lo <= q < r + 1 implies out.has_group(#[trigger] row_key(*t, ks, q)) by {
                        if q == r {
                            assert(out.key(g as int) == row_key(*t, ks, q));
                        } else {
                            let h = choose|h: int| 0 <= h < before.keys@.len() && before.key(h) == row_key(*t, ks, q);
                            assert(out.key(h) == row_key(*t, ks, q));
                        }
                    }
                    assert forall|h: int| 0 <= h < out.keys@.len() implies key_occurs(*t, ks, #[trigger] out.key(h), lo as int, r as int + 1) by {
                        assert(out.key(h) == before.key(h));
                        assert(key_occurs(*t, ks, before.key(h), lo as int, r as int));
                        let q = choose|q: int| lo <= q < r && row_key(*t, ks, q) == before.key(h);
                    }
                    assert forall|g1: int, g2: int| 0 <= g1 < g2 < out.keys@.len() implies out.key(g1) != out.key(g2) by {
                        assert(out.key(g1) == before.key(g1));
                        assert(out.key(g2) == before.key(g2));
                    }
                    assert(out.groups_of(*t, ks, v as int, lo as int, r as int + 1));
                }
            },
            None => {
                let first = match x {
                    Some(y) => Some(y),
                    None => None,
                };
                proof {
                    let kk = opt_views(key@);
                    assert(!key_occurs(*t, ks, kk, lo as int, r as int)) by {
                        if key_occurs(*t, ks, kk, lo as int, r as int) {
                            let q = choose|q: int| lo <= q < r && row_key(*t, ks, q) == kk;
                            let h = choose|h: int| 0 <= h < before.keys@.len() && #[trigger] before.key(h) == row_key(*t, ks, q);
                        }
                    }
                    lemma_absent_key(*t, ks, v as int, kk, lo as int, r as int);
                    lemma_key_sum_step(*t, ks, v as int, kk, lo as int, r as int);
                    if x is Some {
                        crate::simd::lemma_wrap_small(x->Some_0 as int);
                    }
                }
                out.keys.push(key);
                out.sums.push(first);
                proof {
                    let n = before.keys@.len() as int;
                    assert(out.key(n) == row_key(*t, ks, r as int));
                    assert forall|h: int| 0 <= h < out.keys@.len() implies #[trigger] out.total(h) == reported(*t, ks, v as int, out.key(h), lo as int, r as int + 1) by {
                        lemma_key_sum_step(*t, ks, v as int, out.key(h), lo as int, r as int);
                        if h != n {
                            assert(out.key(h) == before.key(h));
                            assert(out.total(h) == before.total(h));
                        }
                    }
                    assert forall|q: int| lo <= q < r + 1 implies out.has_group(#[trigger] row_key(*t, ks, q)) by {
                        if q == r {
                            assert(out.key(n) == row_key(*t, ks, q));
                        } else {
                            let h = choose|h: int| 0 <= h < before.keys@.len() && before.key(h) == row_key(*t, ks, q);
                            assert(out.key(h) == row_key(*t, ks, q));
                        }
                    }
                    assert forall|h: int| 0 <= h < out.keys@.len() implies key_occurs(*t, ks, #[trigger] out.key(h), lo as int, r as int + 1) by {
                        if h == n {
                            assert(row_key(*t, ks, r as int) == out.key(h));
                        } else {
                            assert(out.key(h) == before.key(h));
                            assert(key_occurs(*t, ks, before.key(h), lo as int, r as int));
                            let q = choose|q: int| lo <= q < r && row_key(*t, ks, q) == before.key(h);
                        }
                    }
                    assert forall|g1: int, g2: int| 0 <= g1 < g2 < out.keys@.len() implies out.key(g1) != out.key(g2) by {
                        if g2 == n {
                            assert(out.key(g1) == before.key(g1));
                        } else {
                            assert(out.key(g1) == before.key(g1));
                            assert(out.key(g2) == before.key(g2));
                        }
                    }
                    assert(out.groups_of(*t, ks, v as int, lo as int, r as int + 1));
                }
            },
        }
        r = r + 1;
    }
    out
}

/// A group whose values are all null sums to 0.
proof fn lemma_key_count_zero_sum(t: TinyFrame, keys: Seq<int>, v: int, key: Seq<Option<Cell>>, lo: int, hi: int)
    requires
        key_count(t, keys, v, key, lo, hi) == 0,
    ensures
        key_sum(t, keys, v, key, lo, hi) == 0,
    decreases hi - lo,
{
    if hi > lo {
        lemma_key_count_nonneg(t, keys, v, key, lo, hi - 1);
        lemma_key_count_zero_sum(t, keys, v, key, lo, hi - 1);
    }
}

impl TinyFrame {
    /// Group the rows by the string columns `key_names` and total the integer
    /// column `value` per group (wrapping in 64 bits; `None` for a group whose
    /// values are all null).
    pub fn groupby_sum(&self, key_names: &Vec<String>, value: &str) -> (r: Result<GroupedSum, FrameError>)
        requires
            self.wf(),
        ensures
            match r {
                Ok(gs) => {
                    &&& crate::groupby::group_columns_ok(*self, key_names@, value@)
                    &&& gs.groups_of(*self, key_positions(*self, key_names@), self.position(value@)->Some_0, 0, self.nrows() as int)
                },
                Err(e) => group_error(*self, key_names@, value@, e),
            },
            group_columns_ok(*self, key_names@, value@) ==> r is Ok,
    {
        let (keys, v) = match resolve_columns(self, key_names, value) {
            Ok(kv) => kv,
            Err(e) => {
                return Err(e);
            },
        };
        proof {
            assert forall|j: int| 0 <= j < keys@.len() implies #[trigger] keys@[j] < self.ncols() by {
                assert(self.position(key_names@[j]@) == Some(keys@[j] as int));
            }
        }
        let gs = groupby_sum_rows(self, &keys, v, 0, self.len());
        proof {
            let ks = keys@.map_values(|c: usize| c as int);
            assert forall|j: int| 0 <= j < ks.len() implies ks[j] == #[trigger] key_positions(*self, key_names@)[j] by {
                assert(self.position(key_names@[j]@) == Some(keys@[j] as int));
            }
            assert(ks =~= key_positions(*self, key_names@));
            assert forall|j: int| 0 <= j < key_names@.len() implies (#[trigger] self.position(key_names@[j]@)) is Some by {
                assert(self.position(key_names@[j]@) == Some(keys@[j] as int));
            }
            assert(self.position(value@) == Some(v as int));
        }
        Ok(gs)
    }
}

/// Summing per group and then over the groups gives the column's total.
pub proof fn group_sums_conserve_total(t: TinyFrame, keys: Seq<int>, v: int, gs: GroupedSum, lo: int, hi: int)
    requires
        lo <= hi,
        gs.groups_of(t, keys, v, lo, hi),
    ensures
        groups_total(t, keys, v, gs, gs.keys@.len() as int, lo, hi) == column_sum(t, v, lo, hi),
{
    lemma_groups_total_rows(t, keys, v, gs, lo, hi);
}

/// The exact totals of the first `n` groups, added up.
pub open spec fn groups_total(t: TinyFrame, keys: Seq<int>, v: int, gs: GroupedSum, n: int, lo: int, hi: int) -> int
    decreases n,
{
    if n <= 0 {
        0
    } else {
        groups_total(t, keys, v, gs, n - 1, lo, hi) + key_sum(t, keys, v, gs.key(n - 1), lo, hi)
    }
}

/// Over any prefix of the range, the groups' partial totals add up to the
/// column's partial total.
proof fn lemma_groups_total_rows(t: TinyFrame, keys: Seq<int>, v: int, gs: GroupedSum, lo: int, hi: int)
    requires
        lo <= hi,
        gs.groups_of(t, keys, v, lo, hi),
    ensures
        groups_total(t, keys, v, gs, gs.keys@.len() as int, lo, hi) == column_sum(t, v, lo, hi),
    decreases hi - lo,
{
    let n = gs.keys@.len() as int;
    lemma_total_prefix(t, keys, v, gs, lo, hi, hi);
}

/// For `lo <= m <= hi`, the groups' totals over `[lo, m)` add up to the
/// column's total over `[lo, m)`.
proof fn lemma_total_prefix(t: TinyFrame, keys: Seq<int>, v: int, gs: GroupedSum, lo: int, hi: int, m: int)
    requires
        lo <= m <= hi,
        gs.groups_of(t, keys, v, lo, hi),
    ensures
        groups_total(t, keys, v, gs, gs.keys@.len() as int, lo, m) == column_sum(t, v, lo, m),
    decreases m - lo,
{
    let n = gs.keys@.len() as int;
    if m == lo {
        lemma_groups_total_zero(t, keys, v, gs, n, lo);
    } else {
        lemma_total_prefix(t, keys, v, gs, lo, hi, m - 1);
        let g = choose|g: int| 0 <= g < n && #[trigger] gs.key(g) == row_key(t, keys, m - 1);
        lemma_groups_total_step(t, keys, v, gs, n, lo, m - 1, g);
    }
}

proof fn lemma_groups_total_zero(t: TinyFrame, keys: Seq<int>, v: int, gs: GroupedSum, n: int, lo: int)
    ensures
        groups_total(t, keys, v, gs, n, lo, lo) == 0,
    decreases n,
{
    if n > 0 {
        lemma_groups_total_zero(t, keys, v, gs, n - 1, lo);
    }
}

/// Extending the range by row `m`, whose key is that of group `g` only, adds
/// its value to the groups' total once.
proof fn lemma_groups_total_step(t: TinyFrame, keys: Seq<int>, v: int, gs: GroupedSum, n: int, lo: int, m: int, g: int)
    requires
        lo <= m,
        0 <= g < gs.keys@.len(),
        n <= gs.keys@.len(),
        gs.key(g) == row_key(t, keys, m),
        forall|g1: int, g2: int| 0 <= g1 < g2 < gs.keys@.len() ==> gs.key(g1) != gs.key(g2),
    ensures
        groups_total(t, keys, v, gs, n, lo, m + 1) == groups_total(t, keys, v, gs, n, lo, m) + (if g < n {
            int_value(t.cell(v, m))
        } else {
            0
        }),
    decreases n,
{
    if n > 0 {
        lemma_groups_total_step(t, keys, v, gs, n - 1, lo, m, g);
        lemma_key_sum_step(t, keys, v, gs.key(n - 1), lo, m);
        if n - 1 != g {
            if n - 1 < g {
                assert(gs.key(n - 1) != gs.key(g));
            } else {
                assert(gs.key(g) != gs.key(n - 1));
            }
        }
    }
}

} // verus!
