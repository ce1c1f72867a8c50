use vstd::prelude::*;
use vstd::string::StringSliceAdditionalSpecFns;
use crate::column::{Cell, Kind, TinyColumn, ValueEnum, cell_kind, opt_view};
use crate::filter::{float_is_nan, float_key, sign_bit, sign_of, float_nan, float_order_key};
use crate::frame::{TinyFrame, FrameError};

verus! {

/// Lexicographic order of byte strings: -1, 0 or 1. On UTF-8 encodings this
/// is the order of the strings.
pub open spec fn lex_cmp(a: Seq<u8>, b: Seq<u8>) -> int
    decreases a.len(),
{
    if a.len() == 0 {
        if b.len() == 0 {
            0
        } else {
            -1
        }
    } else if b.len() == 0 {
        1
    } else if a[0] < b[0] {
        -1
    } else if a[0] > b[0] {
        1
    } else {
        lex_cmp(a.drop_first(), b.drop_first())
    }
}

/// The sort rank of a non-string value: integers, handles and booleans by
/// value; floats by numeric order with every NaN after every number.
pub open spec fn rank(c: Cell) -> int {
    match c {
        Cell::Int(x) => x as int,
        Cell::Float(b) => if float_is_nan(b) {
            sign_bit()
        } else {
            float_key(b)
        },
        Cell::Bool(b) => if b {
            1
        } else {
            0
        },
        Cell::Opaque(h) => h as int,
        Cell::Str(_) => 0,
    }
}

/// The order of two slots of one column: -1, 0 or 1, a null after every value.
pub open spec fn cell_cmp(a: Option<Cell>, b: Option<Cell>) -> int {
    match (a, b) {
        (None, None) => 0,
        (Some(_), None) => -1,
        (None, Some(_)) => 1,
        (Some(Cell::Str(x)), Some(Cell::Str(y))) => lex_cmp(vstd::utf8::encode_utf8(x), vstd::utf8::encode_utf8(y)),
        (Some(x), Some(y)) => sign_of(rank(x) - rank(y)),
    }
}

/// Rows `a` and `b` compared on the key columns `ks[j..]`, first difference wins.
pub open spec fn keys_cmp(t: TinyFrame, ks: Seq<int>, a: int, b: int, j: int) -> int
    decreases ks.len() - j,
{
    if j >= ks.len() || j < 0 {
        0
    } else {
        let c = cell_cmp(t.cell(ks[j], a), t.cell(ks[j], b));
        if c != 0 {
            c
        } else {
            keys_cmp(t, ks, a, b, j + 1)
        }
    }
}

/// The sort order of rows `a` and `b`: the key order, reversed when descending.
pub open spec fn order_cmp(t: TinyFrame, ks: Seq<int>, ascending: bool, a: int, b: int) -> int {
    if ascending {
        keys_cmp(t, ks, a, b, 0)
    } else {
        -keys_cmp(t, ks, a, b, 0)
    }
}

/// Row `a` comes before row `b` in a stable sort: it orders first, or orders
/// equal and came first.
pub open spec fn precedes(t: TinyFrame, ks: Seq<int>, ascending: bool, a: int, b: int) -> bool {
    order_cmp(t, ks, ascending, a, b) < 0 || (order_cmp(t, ks, ascending, a, b) == 0 && a < b)
}

/// `p` lists each of the rows `0..n` once, in stable sorted order.
pub open spec fn sorted_permutation(t: TinyFrame, ks: Seq<int>, ascending: bool, p: Seq<int>, n: int) -> bool {
    &&& p.len() == n
    &&& forall|k: int| 0 <= k < p.len() ==> 0 <= #[trigger] p[k] < n
    &&& forall|k1: int, k2: int| 0 <= k1 < k2 < p.len() ==> precedes(t, ks, ascending, #[trigger] p[k1], #[trigger] p[k2])
}

/// Every value of column `c` has one kind, and it is not mixed.
pub open spec fn typed_key(t: TinyFrame, c: int) -> bool {
    &&& t.col(c).shape().kind is Some
    &&& forall|r: int| 0 <= r < t.nrows() && (#[trigger] t.cell(c, r)) is Some ==> cell_kind(t.cell(c, r)->Some_0) == t.col(c).shape().kind->Some_0
}

proof fn lemma_lex_antisym(a: Seq<u8>, b: Seq<u8>)
    ensures
        lex_cmp(a, b) == -lex_cmp(b, a),
        -1 <= lex_cmp(a, b) <= 1,
    decreases a.len(),
{
    if a.len() > 0 && b.len() > 0 && a[0] == b[0] {
        lemma_lex_antisym(a.drop_first(), b.drop_first());
    }
}

proof fn lemma_lex_eq(a: Seq<u8>, b: Seq<u8>)
    ensures
        lex_cmp(a, b) == 0 <==> a == b,
    decreases a.len(),
{
    if a.len() > 0 && b.len() > 0 && a[0] == b[0] {
        lemma_lex_eq(a.drop_first(), b.drop_first());
        if a.drop_first() == b.drop_first() {
            assert(a =~= seq![a[0]] + a.drop_first());
            assert(b =~= seq![b[0]] + b.drop_first());
        }
    }
    if a == b && a.len() > 0 {
        assert(a.drop_first() == b.drop_first());
    }
    if a.len() == 0 && b.len() == 0 {
        assert(a =~= b);
    }
}

proof fn lemma_lex_trans(a: Seq<u8>, b: Seq<u8>, c: Seq<u8>)
    requires
        lex_cmp(a, b) < 0,
        lex_cmp(b, c) < 0,
    ensures
        lex_cmp(a, c) < 0,
    decreases a.len(),
{
    if a.len() > 0 && b.len() > 0 && c.len() > 0 && a[0] == b[0] && b[0] == c[0] {
        lemma_lex_trans(a.drop_first(), b.drop_first(), c.drop_first());
    }
}

/// Skipping an equal prefix does not change the order.
proof fn lemma_lex_skip(a: Seq<u8>, b: Seq<u8>, i: int)
    requires
        0 <= i <= a.len(),
        i <= b.len(),
        a.take(i) == b.take(i),
    ensures
        lex_cmp(a, b) == lex_cmp(a.skip(i), b.skip(i)),
    decreases i,
{
    if i > 0 {
        assert(a[0] == a.take(i)[0]);
        assert(b[0] == b.take(i)[0]);
        assert(a.drop_first().take(i - 1) =~= a.take(i).drop_first());
        assert(b.drop_first().take(i - 1) =~= b.take(i).drop_first());
        lemma_lex_skip(a.drop_first(), b.drop_first(), i - 1);
        assert(a.drop_first().skip(i - 1) =~= a.skip(i));
        assert(b.drop_first().skip(i - 1) =~= b.skip(i));
    } else {
        assert(a.skip(0) =~= a);
        assert(b.skip(0) =~= b);
    }
}

/// Slots of one kind (or null) order as a total preorder.
proof fn lemma_cell_props(a: Option<Cell>, b: Option<Cell>, c: Option<Cell>, k: Kind)
    requires
        a is Some ==> cell_kind(a->Some_0) == k,
        b is Some ==> cell_kind(b->Some_0) == k,
        c is Some ==> cell_kind(c->Some_0) == k,
    ensures
        cell_cmp(a, b) == -cell_cmp(b, a),
        -1 <= cell_cmp(a, b) <= 1,
        cell_cmp(a, b) <= 0 && cell_cmp(b, c) <= 0 ==> cell_cmp(a, c) <= 0,
        cell_cmp(a, b) < 0 && cell_cmp(b, c) <= 0 ==> cell_cmp(a, c) < 0,
        cell_cmp(a, b) <= 0 && cell_cmp(b, c) < 0 ==> cell_cmp(a, c) < 0,
{
    match (a, b, c) {
        (Some(Cell::Str(x)), Some(Cell::Str(y)), Some(Cell::Str(z))) => {
            let (ex, ey, ez) = (vstd::utf8::encode_utf8(x), vstd::utf8::encode_utf8(y), vstd::utf8::encode_utf8(z));
            lemma_lex_antisym(ex, ey);
            lemma_lex_antisym(ey, ez);
            lemma_lex_antisym(ex, ez);
            lemma_lex_eq(ex, ey);
            lemma_lex_eq(ey, ez);
            lemma_lex_eq(ex, ez);
            if lex_cmp(ex, ey) < 0 && lex_cmp(ey, ez) < 0 {
                lemma_lex_trans(ex, ey, ez);
            }
        },
        (Some(Cell::Str(x)), Some(Cell::Str(y)), None) => {
            lemma_lex_antisym(vstd::utf8::encode_utf8(x), vstd::utf8::encode_utf8(y));
        },
        (_, Some(Cell::Str(y)), Some(Cell::Str(z))) => {
            lemma_lex_antisym(vstd::utf8::encode_utf8(y), vstd::utf8::encode_utf8(z));
        },
        (Some(Cell::Str(x)), _, Some(Cell::Str(z))) => {
            lemma_lex_antisym(vstd::utf8::encode_utf8(x), vstd::utf8::encode_utf8(z));
        },
        _ => {},
    }
}

/// The key order of rows is a total preorder when every key column is typed.
proof fn lemma_keys_props(t: TinyFrame, ks: Seq<int>, a: int, b: int, c: int, j: int)
    requires
        0 <= a < t.nrows(),
        0 <= b < t.nrows(),
        0 <= c < t.nrows(),
        0 <= j,
        forall|i: int| 0 <= i < ks.len() ==> typed_key(t, #[trigger] ks[i]),
    ensures
        keys_cmp(t, ks, a, b, j) == -keys_cmp(t, ks, b, a, j),
        -1 <= keys_cmp(t, ks, a, b, j) <= 1,
        keys_cmp(t, ks, a, b, j) <= 0 && keys_cmp(t, ks, b, c, j) <= 0 ==> keys_cmp(t, ks, a, c, j) <= 0,
        keys_cmp(t, ks, a, b, j) < 0 && keys_cmp(t, ks, b, c, j) <= 0 ==> keys_cmp(t, ks, a, c, j) < 0,
        keys_cmp(t, ks, a, b, j) <= 0 && keys_cmp(t, ks, b, c, j) < 0 ==> keys_cmp(t, ks, a, c, j) < 0,
    decreases ks.len() - j,
{
    if j < ks.len() {
        let col = ks[j];
        assert(typed_key(t, col));
        let k = t.col(col).shape().kind->Some_0;
        lemma_cell_props(t.cell(col, a), t.cell(col, b), t.cell(col, c), k);
        lemma_keys_props(t, ks, a, b, c, j + 1);
    }
}

proof fn lemma_order_props(t: TinyFrame, ks: Seq<int>, asc: bool, a: int, b: int, c: int)
    requires
        0 <= a < t.nrows(),
        0 <= b < t.nrows(),
        0 <= c < t.nrows(),
        forall|i: int| 0 <= i < ks.len() ==> typed_key(t, #[trigger] ks[i]),
    ensures
        order_cmp(t, ks, asc, a, b) == -order_cmp(t, ks, asc, b, a),
        order_cmp(t, ks, asc, a, b) <= 0 && order_cmp(t, ks, asc, b, c) <= 0 ==> order_cmp(t, ks, asc, a, c) <= 0,
        order_cmp(t, ks, asc, a, b) < 0 && order_cmp(t, ks, asc, b, c) <= 0 ==> order_cmp(t, ks, asc, a, c) < 0,
        order_cmp(t, ks, asc, a, b) <= 0 && order_cmp(t, ks, asc, b, c) < 0 ==> order_cmp(t, ks, asc, a, c) < 0,
{
    lemma_keys_props(t, ks, a, b, c, 0);
    lemma_keys_props(t, ks, c, b, a, 0);
    lemma_keys_props(t, ks, b, a, c, 0);
    lemma_keys_props(t, ks, a, c, b, 0);
}

/// Byte-wise order of two strings.
fn compare_bytes(a: &[u8], b: &[u8]) -> (r: i8)
    ensures
        r as int == lex_cmp(a@, b@),
{
    let n = if a.len() < b.len() {
        a.len()
    } else {
        b.len()
    };
    let mut i: usize = 0;
    while i < n
        invariant
            n <= a@.len(),
            n <= b@.len(),
            n == a@.len() || n == b@.len(),
            i <= n,
            a@.take(i as int) == b@.take(i as int),
        decreases n - i,
    {
        if a[i] != b[i] {
            proof {
                lemma_lex_skip(a@, b@, i as int);
                assert(a@.skip(i as int)[0] == a@[i as int]);
                assert(b@.skip(i as int)[0] == b@[i as int]);
            }
            if a[i] < b[i] {
                return -1;
            } else {
                return 1;
            }
        }
        assert(a@.take(i as int + 1) =~= a@.take(i as int).push(a@[i as int]));
        assert(b@.take(i as int + 1) =~= b@.take(i as int).push(b@[i as int]));
        i = i + 1;
    }
    proof {
        lemma_lex_skip(a@, b@, n as int);
    }
    if a.len() == b.len() {
        assert(a@.skip(n as int).len() == 0 && b@.skip(n as int).len() == 0);
        0
    } else if a.len() < b.len() {
        assert(a@.skip(n as int).len() == 0);
        -1
    } else {
        assert(b@.skip(n as int).len() == 0);
        1
    }
}

fn sign_i128(a: i128, b: i128) -> (r: i8)
    ensures
        r as int == sign_of(a - b),
{
    if a < b {
        -1
    } else if a > b {
        1
    } else {
        0
    }
}

/// The sort rank of a non-string value.
fn rank_of(v: &ValueEnum) -> (r: i128)
    ensures
        r == rank(v@),
{
    match v {
        ValueEnum::Int(x) => *x as i128,
        ValueEnum::Float(b) => {
            if float_nan(*b) {
                0x8000_0000_0000_0000
            } else {
                float_order_key(*b) as i128
            }
        },
        ValueEnum::Bool(b) => {
            if *b {
                1
            } else {
                0
            }
        },
        ValueEnum::Opaque(h) => *h as i128,
        ValueEnum::Str(_) => 0,
    }
}

/// The order of two slots, as `cell_cmp`.
pub fn compare_slots(a: &Option<ValueEnum>, b: &Option<ValueEnum>) -> (r: i8)
    ensures
        r as int == cell_cmp(opt_view(*a), opt_view(*b)),
{
    match (a, b) {
        (None, None) => 0,
        (Some(_), None) => -1,
        (None, Some(_)) => 1,
        (Some(ValueEnum::Str(x)), Some(ValueEnum::Str(y))) => {
            let xs = x.as_str();
            let ys = y.as_str();
            compare_bytes(xs.as_bytes(), ys.as_bytes())
        },
        (Some(x), Some(y)) => sign_i128(rank_of(x), rank_of(y)),
    }
}

/// Rows `a` and `b` compared on the key columns, as `keys_cmp`.
pub(crate) fn compare_rows(t: &TinyFrame, ks: &Vec<usize>, a: usize, b: usize) -> (r: i8)
    requires
        t.wf(),
        a < t.nrows(),
        b < t.nrows(),
        forall|i: int| 0 <= i < ks@.len() ==> #[trigger] ks@[i] < t.ncols(),
    ensures
        r as int == keys_cmp(*t, ks@.map_values(|c: usize| c as int), a as int, b as int, 0),
{
    let ghost kv = ks@.map_values(|c: usize| c as int);
    let mut j: usize = ks.len();
    let mut acc: i8 = 0;
    // Scan the keys from the last: the earliest difference is the one kept.
    while j > 0
        invariant
            t.wf(),
            a < t.nrows(),
            b < t.nrows(),
            kv == ks@.map_values(|c: usize| c as int),
            forall|i: int| 0 <= i < ks@.len() ==> #[trigger] ks@[i] < t.ncols(),
            j <= ks@.len(),
            acc as int == keys_cmp(*t, kv, a as int, b as int, j as int),
        decreases j,
    {
        j = j - 1;
        let c = ks[j];
        assert(t.col(c as int).cells().len() == t.nrows());
        let col = t.column_at(c);
        let x = col.get(a);
        let y = col.get(b);
        let d = compare_slots(&x, &y);
        if d != 0 {
            acc = d;
        }
    }
    acc
}

/// The positions of the sort key columns `by`; each must exist and not be mixed.
pub(crate) fn sort_keys(t: &TinyFrame, by: &Vec<String>) -> (r: Result<Vec<usize>, FrameError>)
    requires
        t.wf(),
    ensures
        match r {
            Ok(ks) => {
                &&& ks@.len() == by@.len()
                &&& forall|i: int| 0 <= i < ks@.len() ==> t.position(by@[i]@) == Some(#[trigger] ks@[i] as int)
                &&& forall|i: int| 0 <= i < ks@.len() ==> #[trigger] ks@[i] < t.ncols()
                &&& forall|i: int| 0 <= i < ks@.len() ==> typed_key(*t, (#[trigger] ks@[i]) as int)
                &&& ks@.map_values(|c: usize| c as int) == crate::groupby::key_positions(*t, by@)
            },
            Err(e) => {
                ||| e == FrameError::NotFound && exists|j: int| 0 <= j < by@.len() && (#[trigger] t.position(by@[j]@)) is None
                ||| e == FrameError::Unsupported && exists|j: int| 0 <= j < by@.len() && (#[trigger] t.position(by@[j]@)) is Some
                    && t.col(t.position(by@[j]@)->Some_0).shape().kind is None
            },
        },
{
        let mut ks: Vec<usize> = Vec::new();
        let mut j: usize = 0;
        while j < by.len()
            invariant
                t.wf(),
                j <= by@.len(),
                ks@.len() == j,
                forall|i: int| 0 <= i < j ==> t.position(by@[i]@) == Some(#[trigger] ks@[i] as int),
                forall|i: int| 0 <= i < j ==> (#[trigger] t.col(ks@[i] as int)).shape().kind is Some,
            decreases by@.len() - j,
        {
            let c = match t.find_column(by[j].as_str()) {
                Some(c) => c,
                None => {
                    return Err(FrameError::NotFound);
                },
            };
            match t.column_at(c) {
                TinyColumn::Mixed(_) => {
                    return Err(FrameError::Unsupported);
                },
                TinyColumn::OptMixed(_) => {
                    return Err(FrameError::Unsupported);
                },
                _ => {},
            }
            ks.push(c);
            j = j + 1;
        }
        let ghost kv = ks@.map_values(|c: usize| c as int);
        proof {
            assert forall|i: int| 0 <= i < ks@.len() implies #[trigger] ks@[i] < t.ncols() by {
                assert(t.position(by@[i]@) == Some(ks@[i] as int));
            }
            assert forall|i: int| 0 <= i < ks@.len() implies typed_key(*t, (#[trigger] ks@[i]) as int) by {
                let c = ks@[i] as int;
                assert(c == ks@[i] as int);
                assert(t.col(c).cells().len() == t.nrows());
                assert forall|r: int| 0 <= r < t.nrows() && (#[trigger] t.cell(c, r)) is Some implies cell_kind(t.cell(c, r)->Some_0) == t.col(c).shape().kind->Some_0 by {
                    t.col(c).lemma_accepts_own(r);
                }
            }
            assert forall|i: int| 0 <= i < kv.len() implies kv[i] == #[trigger] crate::groupby::key_positions(*t, by@)[i] by {
                assert(t.position(by@[i]@) == Some(ks@[i] as int));
            }
            assert(kv =~= crate::groupby::key_positions(*t, by@));
        }
        Ok(ks)
}

/// The error a sort returns, and why: `NotFound` for a missing key column,
/// `Unsupported` for a mixed one.
pub open spec fn sort_error(t: TinyFrame, by: Seq<String>, e: FrameError) -> bool {
    ||| e == FrameError::NotFound && exists|j: int| 0 <= j < by.len() && (#[trigger] t.position(by[j]@)) is None
    ||| e == FrameError::Unsupported && exists|j: int| 0 <= j < by.len() && (#[trigger] t.position(by[j]@)) is Some
        && t.col(t.position(by[j]@)->Some_0).shape().kind is None
}

/// `t` holds the rows of `s` stably sorted by the columns `by`.
pub open spec fn sorted_result(s: TinyFrame, by: Seq<String>, ascending: bool, t: TinyFrame) -> bool {
    &&& forall|j: int| 0 <= j < by.len() ==> (#[trigger] s.position(by[j]@)) is Some
    &&& exists|p: Seq<int>| sorted_permutation(s, crate::groupby::key_positions(s, by), ascending, p, s.nrows() as int)
        && #[trigger] s.picks(p, t)
}

impl TinyFrame {
    /// Stable sort by the columns `by`, compared in turn; `ascending` applies to
    /// every key, and a descending sort reverses the whole order (nulls first).
    /// Mixed columns cannot be sort keys: they are refused with `Unsupported`.
    /// Values of different kinds have no agreed order, and taking every
    /// cross-kind pair as equal is not transitive, so no stable sorted order
    /// would be defined for such a column.
    pub fn sort_values(&self, by: &Vec<String>, ascending: bool) -> (r: Result<TinyFrame, FrameError>)
        requires
            self.wf(),
        ensures
            match r {
                Ok(t) => sorted_result(*self, by@, ascending, t),
                Err(e) => sort_error(*self, by@, e),
            },
            (forall|j: int| 0 <= j < by@.len() ==> (#[trigger] self.position(by@[j]@)) is Some
                && self.col(self.position(by@[j]@)->Some_0).shape().kind is Some) ==> r is Ok,
    {
        let ks = match sort_keys(self, by) {
            Ok(ks) => ks,
            Err(e) => {
                return Err(e);
            },
        };
        let ghost kv = ks@.map_values(|c: usize| c as int);
        proof {
            assert forall|q: int| 0 <= q < kv.len() implies typed_key(*self, #[trigger] kv[q]) by {
                assert(kv[q] == ks@[q] as int);
            }
        }
        let n = self.len();
        let mut order: Vec<usize> = Vec::new();
        let mut i: usize = 0;
        while i < n
            invariant
                self.wf(),
                n == self.nrows(),
                kv == ks@.map_values(|c: usize| c as int),
                forall|q: int| 0 <= q < ks@.len() ==> #[trigger] ks@[q] < self.ncols(),
                forall|q: int| 0 <= q < kv.len() ==> typed_key(*self, #[trigger] kv[q]),
                ks@.len() == by@.len(),
                forall|q: int| 0 <= q < by@.len() ==> self.position(by@[q]@) == Some(#[trigger] ks@[q] as int),
                i <= n,
                sorted_permutation(*self, kv, ascending, order@.map_values(|x: usize| x as int), i as int),
            decreases n - i,
        {
            let ghost before = order@.map_values(|x: usize| x as int);
            let mut pos: usize = order.len();
            let mut done = false;
            while pos > 0 && !done
                invariant
                    self.wf(),
                    n == self.nrows(),
                    i < n,
                    kv == ks@.map_values(|c: usize| c as int),
                    forall|q: int| 0 <= q < ks@.len() ==> #[trigger] ks@[q] < self.ncols(),
                    forall|q: int| 0 <= q < kv.len() ==> typed_key(*self, #[trigger] kv[q]),
                    before == order@.map_values(|x: usize| x as int),
                    sorted_permutation(*self, kv, ascending, before, i as int),
                    pos <= order@.len(),
                    forall|q: int| pos <= q < before.len() ==> order_cmp(*self, kv, ascending, #[trigger] before[q], i as int) > 0,
                    done ==> pos > 0 && order_cmp(*self, kv, ascending, before[pos - 1], i as int) <= 0,
                decreases pos + (if done { 0int } else { 1int }),
            {
                let prev = order[pos - 1];
                assert(before[pos - 1] == prev as int);
                proof {
                    lemma_keys_props(*self, kv, prev as int, i as int, i as int, 0);
                }
                let c = compare_rows(self, &ks, prev, i);
                let oc = if ascending {
                    c
                } else {
                    -c
                };
                if oc <= 0 {
                    done = true;
                } else {
                    pos = pos - 1;
                }
            }
            order.insert(pos, i);
            proof {
                let after = order@.map_values(|x: usize| x as int);
                assert(after =~= before.insert(pos as int, i as int));
                assert forall|k: int| 0 <= k < after.len() implies 0 <= #[trigger] after[k] < i + 1 by {
                    if k < pos {
                        assert(after[k] == before[k]);
                    } else if k > pos {
                        assert(after[k] == before[k - 1]);
                    }
                }
                assert forall|k1: int, k2: int| 0 <= k1 < k2 < after.len() implies precedes(*self, kv, ascending, #[trigger] after[k1], #[trigger] after[k2]) by {
                    if k1 < pos && k2 < pos {
                        assert(after[k1] == before[k1] && after[k2] == before[k2]);
                    } else if k1 < pos && k2 == pos {
                        assert(after[k1] == before[k1] && after[k2] == i);
                        lemma_order_props(*self, kv, ascending, before[k1], before[pos - 1], i as int);
                        if k1 < pos - 1 {
                            assert(precedes(*self, kv, ascending, before[k1], before[pos - 1]));
                        }
                    } else if k1 < pos {
                        assert(after[k1] == before[k1]);
                        assert(after[k2] == before[k2 - 1]);
                    } else if k1 == pos {
                        assert(after[k1] == i && after[k2] == before[k2 - 1]);
                        lemma_order_props(*self, kv, ascending, i as int, before[k2 - 1], i as int);
                    } else {
                        assert(after[k1] == before[k1 - 1] && after[k2] == before[k2 - 1]);
                    }
                }
            }
            i = i + 1;
        }
        proof {
            let p = order@.map_values(|x: usize| x as int);
            assert forall|k: int| 0 <= k < order@.len() implies #[trigger] order@[k] < self.nrows() by {
                assert(p[k] == order@[k] as int);
            }
        }
        let t = self.take_rows(&order);
        proof {
            let p = order@.map_values(|x: usize| x as int);
            assert forall|q: int| 0 <= q < kv.len() implies kv[q] == #[trigger] crate::groupby::key_positions(*self, by@)[q] by {
                assert(self.position(by@[q]@) == Some(ks@[q] as int));
            }
            assert(kv =~= crate::groupby::key_positions(*self, by@));
            assert(sorted_permutation(*self, crate::groupby::key_positions(*self, by@), ascending, p, self.nrows() as int));
            assert(self.picks(p, t));
            assert(exists|p: Seq<int>| sorted_permutation(*self, crate::groupby::key_positions(*self, by@), ascending, p, self.nrows() as int)
                && #[trigger] self.picks(p, t));
            assert forall|q: int| 0 <= q < by@.len() implies (#[trigger] self.position(by@[q]@)) is Some by {
                assert(self.position(by@[q]@) == Some(ks@[q] as int));
            }
            assert(sorted_result(*self, by@, ascending, t));
        }
        Ok(t)
    }
}

/// A row never precedes itself, and two rows never precede each other.
proof fn lemma_precedes_strict(t: TinyFrame, ks: Seq<int>, asc: bool, a: int, b: int)
    requires
        0 <= a < t.nrows(),
        0 <= b < t.nrows(),
        forall|i: int| 0 <= i < ks.len() ==> typed_key(t, #[trigger] ks[i]),
    ensures
        !precedes(t, ks, asc, a, a),
        !(precedes(t, ks, asc, a, b) && precedes(t, ks, asc, b, a)),
{
    lemma_order_props(t, ks, asc, a, a, a);
    lemma_order_props(t, ks, asc, a, b, a);
}

/// A stable sorted order of rows `0..n` lists every one of them.
proof fn lemma_sorted_covers(t: TinyFrame, ks: Seq<int>, asc: bool, p: Seq<int>, n: int)
    requires
        0 <= n <= t.nrows(),
        forall|i: int| 0 <= i < ks.len() ==> typed_key(t, #[trigger] ks[i]),
        sorted_permutation(t, ks, asc, p, n),
    ensures
        p.no_duplicates(),
        forall|x: int| 0 <= x < n ==> p.contains(x),
{
    assert forall|a: int, b: int| 0 <= a < p.len() && 0 <= b < p.len() && a != b implies p[a] != p[b] by {
        lemma_precedes_strict(t, ks, asc, p[a], p[b]);
        if a < b {
            assert(precedes(t, ks, asc, p[a], p[b]));
        } else {
            assert(precedes(t, ks, asc, p[b], p[a]));
        }
    }
    p.unique_seq_to_set();
    vstd::set_lib::lemma_int_range(0, n);
    assert(p.to_set().subset_of(vstd::set_lib::set_int_range(0, n)));
    vstd::set_lib::lemma_len_subset(p.to_set(), vstd::set_lib::set_int_range(0, n));
    vstd::set_lib::lemma_subset_equality(p.to_set(), vstd::set_lib::set_int_range(0, n));
    assert forall|x: int| 0 <= x < n implies p.contains(x) by {
        assert(vstd::set_lib::set_int_range(0, n).contains(x));
        assert(p.to_set().contains(x));
    }
}

proof fn lemma_sorted_prefix_agree(t: TinyFrame, ks: Seq<int>, asc: bool, p: Seq<int>, q: Seq<int>, n: int, k: int)
    requires
        0 <= n <= t.nrows(),
        0 <= k <= n,
        forall|i: int| 0 <= i < ks.len() ==> typed_key(t, #[trigger] ks[i]),
        sorted_permutation(t, ks, asc, p, n),
        sorted_permutation(t, ks, asc, q, n),
    ensures
        forall|j: int| 0 <= j < k ==> p[j] == q[j],
    decreases k,
{
    if k > 0 {
        lemma_sorted_prefix_agree(t, ks, asc, p, q, n, k - 1);
        let j = k - 1;
        if p[j] != q[j] {
            lemma_sorted_covers(t, ks, asc, p, n);
            lemma_sorted_covers(t, ks, asc, q, n);
            assert(0 <= q[j] < n && 0 <= p[j] < n);
            assert(p.contains(q[j]));
            assert(q.contains(p[j]));
            let m = choose|m: int| 0 <= m < p.len() && p[m] == q[j];
            let m2 = choose|m: int| 0 <= m < q.len() && q[m] == p[j];
            if m < j {
                assert(q[m] == p[m]);
            }
            if m2 < j {
                assert(p[m2] == q[m2]);
            }
            assert(precedes(t, ks, asc, p[j], p[m]));
            assert(precedes(t, ks, asc, q[j], q[m2]));
            lemma_precedes_strict(t, ks, asc, p[j], q[j]);
        }
    }
}

/// A stable sort has exactly one result: two stable sorted orders of the same
/// rows are equal, so a parallel sort and a sequential sort agree.
pub proof fn sorted_permutation_unique(t: TinyFrame, ks: Seq<int>, asc: bool, p: Seq<int>, q: Seq<int>)
    requires
        forall|i: int| 0 <= i < ks.len() ==> typed_key(t, #[trigger] ks[i]),
        sorted_permutation(t, ks, asc, p, t.nrows() as int),
        sorted_permutation(t, ks, asc, q, t.nrows() as int),
    ensures
        p == q,
{
    lemma_sorted_prefix_agree(t, ks, asc, p, q, t.nrows() as int, t.nrows() as int);
    assert(p =~= q);
}

/// Rows whose keys compare equal keep their original order.
pub proof fn sort_is_stable(t: TinyFrame, ks: Seq<int>, asc: bool, p: Seq<int>, k1: int, k2: int)
    requires
        sorted_permutation(t, ks, asc, p, t.nrows() as int),
        0 <= k1 < k2 < p.len(),
        order_cmp(t, ks, asc, p[k1], p[k2]) == 0,
    ensures
        p[k1] < p[k2],
{
    assert(precedes(t, ks, asc, p[k1], p[k2]));
}

} // verus!
