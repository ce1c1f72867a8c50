use vstd::prelude::*;
use crate::column::{Cell, TinyColumn, ValueEnum};
use crate::frame::{TinyFrame, FrameError, selected, all_rows, lemma_selected_bounds, lemma_selected_all, pick_all_rows};
use crate::string_optimize::views;

verus! {

/// A row predicate on one column.
#[derive(Debug, Clone)]
pub enum Condition {
    Eq(ValueEnum),
    Ne(ValueEnum),
    Gt(ValueEnum),
    Lt(ValueEnum),
    Ge(ValueEnum),
    Le(ValueEnum),
    /// The value is a string in the set.
    In(Vec<String>),
    /// The value is not a string in the set.
    NotIn(Vec<String>),
}

/// 2^63: the sign bit of a binary64 pattern.
pub open spec fn sign_bit() -> int {
    0x8000_0000_0000_0000
}

/// Whether a binary64 bit pattern is a NaN: all exponent bits set and a
/// nonzero fraction.
pub open spec fn float_is_nan(b: u64) -> bool {
    b as int % sign_bit() > 0x7FF0_0000_0000_0000
}

/// An integer that orders non-NaN binary64 patterns as their numbers are
/// ordered: the magnitude bits, negated when the sign bit is set (so that
/// both zeros map to 0).
pub open spec fn float_key(b: u64) -> int {
    if b as int >= sign_bit() {
        -(b as int % sign_bit())
    } else {
        b as int % sign_bit()
    }
}

pub open spec fn sign_of(x: int) -> int {
    if x < 0 {
        -1
    } else if x > 0 {
        1
    } else {
        0
    }
}

/// The numeric order of two values: `Some(-1 | 0 | 1)` for two integers or
/// two non-NaN floats, `None` for anything else.
pub open spec fn num_cmp(a: Cell, b: Cell) -> Option<int> {
    match (a, b) {
        (Cell::Int(x), Cell::Int(y)) => Some(sign_of(x - y)),
        (Cell::Float(x), Cell::Float(y)) => if float_is_nan(x) || float_is_nan(y) {
            None
        } else {
            Some(sign_of(float_key(x) - float_key(y)))
        },
        _ => None,
    }
}

/// Whether a slot satisfies the condition. A null slot satisfies none.
pub open spec fn row_matches(c: Option<Cell>, cond: Condition) -> bool {
    match c {
        None => false,
        Some(x) => match cond {
            Condition::Eq(v) => match (x, v@) {
                (Cell::Str(a), Cell::Str(b)) => a == b,
                _ => num_cmp(x, v@) == Some(0int),
            },
            Condition::Ne(v) => match (x, v@) {
                (Cell::Str(a), Cell::Str(b)) => a != b,
                (Cell::Float(a), Cell::Float(b)) => float_is_nan(a) || float_is_nan(b) || float_key(a) != float_key(b),
                _ => num_cmp(x, v@) matches Some(k) && k != 0,
            },
            Condition::Gt(v) => num_cmp(x, v@) == Some(1int),
            Condition::Lt(v) => num_cmp(x, v@) == Some(-1int),
            Condition::Ge(v) => num_cmp(x, v@) == Some(1int) || num_cmp(x, v@) == Some(0int),
            Condition::Le(v) => num_cmp(x, v@) == Some(-1int) || num_cmp(x, v@) == Some(0int),
            Condition::In(set) => match x {
                Cell::Str(s) => views(set@).contains(s),
                _ => false,
            },
            Condition::NotIn(set) => match x {
                Cell::Str(s) => !views(set@).contains(s),
                _ => true,
            },
        },
    }
}

/// The literal of a comparison condition; `None` for a set condition.
pub open spec fn literal_of(cond: Condition) -> Option<Cell> {
    match cond {
        Condition::Eq(v) => Some(v@),
        Condition::Ne(v) => Some(v@),
        Condition::Gt(v) => Some(v@),
        Condition::Lt(v) => Some(v@),
        Condition::Ge(v) => Some(v@),
        Condition::Le(v) => Some(v@),
        _ => None,
    }
}

/// The slot and the condition's literal are numbers of different kinds: an
/// integer against a float, or a float against an integer.
pub open spec fn cross_kind(c: Option<Cell>, cond: Condition) -> bool {
    match (c, literal_of(cond)) {
        (Some(Cell::Int(_)), Some(Cell::Float(_))) => true,
        (Some(Cell::Float(_)), Some(Cell::Int(_))) => true,
        _ => false,
    }
}

/// Some row of column `c` holds a number of the other kind than the literal.
/// Comparing them would take a conversion to binary64, which is not done
/// here: such a filter is refused.
pub open spec fn kind_conflict(t: TinyFrame, c: int, cond: Condition) -> bool {
    exists|r: int| 0 <= r < t.nrows() && #[trigger] cross_kind(t.cell(c, r), cond)
}

/// What a filter of `t` on the column named `column` returns: `NotFound`
/// without such a column, `TypeMismatch` on a cross-kind numeric comparison,
/// else the rows that satisfy the condition, in order.
pub open spec fn filter_result(t: TinyFrame, column: Seq<char>, cond: Condition, r: Result<TinyFrame, FrameError>) -> bool {
    match t.position(column) {
        None => r == Err::<TinyFrame, FrameError>(FrameError::NotFound),
        Some(c) => if kind_conflict(t, c, cond) {
            r == Err::<TinyFrame, FrameError>(FrameError::TypeMismatch)
        } else {
            r matches Ok(u) && t.picks(selected(match_mask(t, c, cond)), u)
        },
    }
}

/// The rows of column `c` that satisfy `cond`.
pub open spec fn match_mask(t: TinyFrame, c: int, cond: Condition) -> Seq<bool> {
    Seq::new(t.nrows(), |r: int| row_matches(t.cell(c, r), cond))
}

/// The rows of column `c` that hold a value.
pub open spec fn present_mask(t: TinyFrame, c: int) -> Seq<bool> {
    Seq::new(t.nrows(), |r: int| t.cell(c, r) is Some)
}

/// The ordering key of a binary64 pattern.
pub fn float_order_key(b: u64) -> (r: i64)
    ensures
        r == float_key(b),
{
    let mag = b % 0x8000_0000_0000_0000;
    if b >= 0x8000_0000_0000_0000 {
        -(mag as i64)
    } else {
        mag as i64
    }
}

/// Whether a binary64 pattern is a NaN.
pub fn float_nan(b: u64) -> (r: bool)
    ensures
        r == float_is_nan(b),
{
    b % 0x8000_0000_0000_0000 > 0x7FF0_0000_0000_0000
}

fn sign_i64(a: i64, b: i64) -> (r: i8)
    ensures
        r as int == sign_of(a - b),
{
    if a < b {
        -1
    } else if a > b {
        1
    } else {
        0
    }
}

/// The numeric order of two values, as `num_cmp`.
pub fn compare_numeric(a: &ValueEnum, b: &ValueEnum) -> (r: Option<i8>)
    ensures
        match num_cmp(a@, b@) {
            Some(k) => r == Some(k as i8),
            None => r is None,
        },
{
    match (a, b) {
        (ValueEnum::Int(x), ValueEnum::Int(y)) => Some(sign_i64(*x, *y)),
        (ValueEnum::Float(x), ValueEnum::Float(y)) => {
            if float_nan(*x) || float_nan(*y) {
                None
            } else {
                Some(sign_i64(float_order_key(*x), float_order_key(*y)))
            }
        },
        _ => None,
    }
}

/// Whether a slot satisfies the condition.
pub fn value_matches(v: &Option<ValueEnum>, cond: &Condition) -> (r: bool)
    ensures
        r == row_matches(crate::column::opt_view(*v), *cond),
{
    let x = match v {
        None => {
            return false;
        },
        Some(x) => x,
    };
    match cond {
        Condition::Eq(l) => match (x, l) {
            (ValueEnum::Str(a), ValueEnum::Str(b)) => *a == *b,
            _ => compare_numeric(x, l) == Some(0i8),
        },
        Condition::Ne(l) => match (x, l) {
            (ValueEnum::Str(a), ValueEnum::Str(b)) => *a != *b,
            (ValueEnum::Float(a), ValueEnum::Float(b)) => float_nan(*a) || float_nan(*b) || float_order_key(*a)
                != float_order_key(*b),
            _ => match compare_numeric(x, l) {
                Some(k) => k != 0,
                None => false,
            },
        },
        Condition::Gt(l) => compare_numeric(x, l) == Some(1i8),
        Condition::Lt(l) => compare_numeric(x, l) == Some(-1i8),
        Condition::Ge(l) => {
            let k = compare_numeric(x, l);
            k == Some(1i8) || k == Some(0i8)
        },
        Condition::Le(l) => {
            let k = compare_numeric(x, l);
            k == Some(-1i8) || k == Some(0i8)
        },
        Condition::In(set) => match x {
            ValueEnum::Str(s) => crate::frame::contains_name(set, s.as_str()),
            _ => false,
        },
        Condition::NotIn(set) => match x {
            ValueEnum::Str(s) => !crate::frame::contains_name(set, s.as_str()),
            _ => true,
        },
    }
}

/// Whether a slot and the condition's literal are numbers of different kinds.
fn slot_cross_kind(v: &Option<ValueEnum>, cond: &Condition) -> (r: bool)
    ensures
        r == cross_kind(crate::column::opt_view(*v), *cond),
{
    let lit = match cond {
        Condition::Eq(l) => l,
        Condition::Ne(l) => l,
        Condition::Gt(l) => l,
        Condition::Lt(l) => l,
        Condition::Ge(l) => l,
        Condition::Le(l) => l,
        _ => {
            return false;
        },
    };
    match (v, lit) {
        (Some(ValueEnum::Int(_)), ValueEnum::Float(_)) => true,
        (Some(ValueEnum::Float(_)), ValueEnum::Int(_)) => true,
        _ => false,
    }
}

/// Whether some row of a column holds a number of the other kind than the
/// condition's literal.
pub fn column_cross_kind(col: &TinyColumn, cond: &Condition) -> (r: bool)
    ensures
        r == exists|i: int| 0 <= i < col.cells().len() && #[trigger] cross_kind(col.cells()[i], *cond),
{
    let n = col.len();
    let mut i: usize = 0;
    while i < n
        invariant
            n == col.cells().len(),
            i <= n,
            forall|k: int| 0 <= k < i ==> !#[trigger] cross_kind(col.cells()[k], *cond),
        decreases n - i,
    {
        let v = col.get(i);
        if slot_cross_kind(&v, cond) {
            assert(cross_kind(col.cells()[i as int], *cond));
            return true;
        }
        i = i + 1;
    }
    false
}

/// Evaluate `cond` on every row of a column.
pub fn condition_mask(col: &TinyColumn, cond: &Condition) -> (r: Vec<bool>)
    ensures
        r@ == Seq::new(col.cells().len(), |i: int| row_matches(col.cells()[i], *cond)),
{
    let n = col.len();
    let mut mask: Vec<bool> = Vec::new();
    let mut i: usize = 0;
    while i < n
        invariant
            n == col.cells().len(),
            i <= n,
            mask@ == Seq::new(i as nat, |k: int| row_matches(col.cells()[k], *cond)),
        decreases n - i,
    {
        let v = col.get(i);
        let m = value_matches(&v, cond);
        mask.push(m);
        i = i + 1;
        assert(mask@ =~= Seq::new(i as nat, |k: int| row_matches(col.cells()[k], *cond)));
    }
    mask
}

impl TinyFrame {
    /// The rows whose value in `column` satisfies `cond`, in order. A
    /// comparison of an integer with a float literal, or of a float with an
    /// integer literal, is refused with `TypeMismatch`.
    pub fn filter(&self, column: &str, cond: &Condition) -> (r: Result<TinyFrame, FrameError>)
        requires
            self.wf(),
        ensures
            filter_result(*self, column@, *cond, r),
    {
        let c = match self.find_column(column) {
            Some(c) => c,
            None => {
                return Err(FrameError::NotFound);
            },
        };
        if column_cross_kind(self.column_at(c), cond) {
            proof {
                assert(self.col(c as int).cells().len() == self.nrows());
                let i = choose|i: int| 0 <= i < self.col(c as int).cells().len() && #[trigger] cross_kind(self.col(c as int).cells()[i], *cond);
                assert(cross_kind(self.cell(c as int, i), *cond));
            }
            return Err(FrameError::TypeMismatch);
        }
        proof {
            assert(self.col(c as int).cells().len() == self.nrows());
            assert forall|i: int| 0 <= i < self.nrows() implies !#[trigger] cross_kind(self.cell(c as int, i), *cond) by {}
        }
        let mask = condition_mask(self.column_at(c), cond);
        proof {
            assert(self.col(c as int).cells().len() == self.nrows());
            assert(mask@ =~= match_mask(*self, c as int, *cond));
        }
        Ok(self.select_rows(&mask))
    }

    /// The rows that hold a value in `column`, in order.
    pub fn dropna(&self, column: &str) -> (r: Result<TinyFrame, FrameError>)
        requires
            self.wf(),
        ensures
            match self.position(column@) {
                None => r == Err::<TinyFrame, FrameError>(FrameError::NotFound),
                Some(c) => r matches Ok(t) && self.picks(selected(present_mask(*self, c)), t),
            },
    {
        let c = match self.find_column(column) {
            Some(c) => c,
            None => {
                return Err(FrameError::NotFound);
            },
        };
        let col = self.column_at(c);
        proof {
            assert(self.col(c as int).cells().len() == self.nrows());
        }
        let n = self.len();
        let mut mask: Vec<bool> = Vec::new();
        let mut i: usize = 0;
        while i < n
            invariant
                self.wf(),
                *col == self.col(c as int),
                col.cells().len() == self.nrows(),
                n == self.nrows(),
                i <= self.nrows(),
                mask@ == present_mask(*self, c as int).take(i as int),
            decreases self.nrows() - i,
        {
            mask.push(col.is_present(i));
            i = i + 1;
            assert(mask@ =~= present_mask(*self, c as int).take(i as int));
        }
        assert(present_mask(*self, c as int).take(self.nrows() as int) =~= present_mask(*self, c as int));
        Ok(self.select_rows(&mask))
    }
}

/// Filtering a filtered table again with the same condition keeps every row.
pub proof fn filter_idempotent(t: TinyFrame, c: int, cond: Condition, u: TinyFrame, v: TinyFrame)
    requires
        t.wf(),
        0 <= c < t.ncols(),
        t.picks(selected(match_mask(t, c, cond)), u),
        u.picks(selected(match_mask(u, c, cond)), v),
    ensures
        v.rows() == u.rows(),
        v.names_view() == u.names_view(),
{
    let m = match_mask(t, c, cond);
    lemma_selected_bounds(m);
    let mu = match_mask(u, c, cond);
    assert forall|k: int| 0 <= k < mu.len() implies #[trigger] mu[k] by {
        assert(u.cell(c, k) == t.cell(c, selected(m)[k]));
        assert(m[selected(m)[k]]);
    }
    lemma_selected_all(mu);
    pick_all_rows(u, v);
}

} // verus!
