use vstd::prelude::*;
use vstd::string::StringExecFns;
use crate::column::{Cell, Kind, Shape, TinyColumn, ValueEnum, accepts, cell_kind, infer_column, inferred_shape, opt_view, opt_views};
use crate::frame::{TinyFrame, FrameError};

verus! {

/// Whether `c` is an ASCII decimal digit.
pub open spec fn is_digit(c: char) -> bool {
    '0' <= c && c <= '9'
}

/// The value of a string of decimal digits.
pub open spec fn digits_value(s: Seq<char>) -> int
    decreases s.len(),
{
    if s.len() == 0 {
        0
    } else {
        digits_value(s.drop_last()) * 10 + (s.last() as int - '0' as int)
    }
}

/// The digit character for `d < 10`.
pub open spec fn digit_char(d: nat) -> char {
    (('0' as int) + d) as char
}

/// The decimal digits of `n`, without leading zeros (`"0"` for zero).
pub open spec fn digits_of(n: nat) -> Seq<char>
    decreases n,
{
    if n < 10 {
        seq![digit_char(n)]
    } else {
        digits_of(n / 10).push(digit_char(n % 10))
    }
}

/// The decimal text of an integer: a minus sign for a negative one, then its
/// digits.
pub open spec fn decimal_text(x: int) -> Seq<char> {
    if x < 0 {
        seq!['-'] + digits_of((-x) as nat)
    } else {
        digits_of(x as nat)
    }
}

/// The 64-bit integer a string spells: an optional `+` or `-`, then one or more
/// decimal digits, with a value in range; `None` for anything else.
pub open spec fn parsed_i64(s: Seq<char>) -> Option<int> {
    let neg = s.len() > 0 && s[0] == '-';
    let body = if s.len() > 0 && (s[0] == '-' || s[0] == '+') {
        s.drop_first()
    } else {
        s
    };
    let v = if neg {
        -digits_value(body)
    } else {
        digits_value(body)
    };
    if body.len() > 0 && (forall|i: int| 0 <= i < body.len() ==> is_digit(#[trigger] body[i])) && i64::MIN <= v
        <= i64::MAX {
        Some(v)
    } else {
        None
    }
}

/// Relies on `i64`'s `Display` (through `to_string`): the decimal text, with a
/// minus sign for a negative number and no leading zeros.
#[verifier::external_body]
fn i64_text(x: i64) -> (r: String)
    ensures
        r@ == decimal_text(x as int),
{
    x.to_string()
}

/// Relies on `str::parse::<i64>`: an optional sign and decimal digits whose
/// value fits, else an error.
#[verifier::external_body]
fn parse_i64(s: &str) -> (r: Option<i64>)
    ensures
        match parsed_i64(s@) {
            Some(v) => r == Some(v as i64),
            None => r is None,
        },
{
    s.parse::<i64>().ok()
}

/// The value a slot takes when its column is cast to `target`. A string that
/// is not an integer becomes 0 in a plain column and a null in a nullable one.
pub open spec fn cast_cell(c: Option<Cell>, target: Kind, nullable: bool) -> Option<Cell> {
    match c {
        None => None,
        Some(x) => match (x, target) {
            (Cell::Int(v), Kind::Str) => Some(Cell::Str(decimal_text(v as int))),
            (Cell::Int(v), Kind::Bool) => Some(Cell::Bool(v != 0)),
            (Cell::Bool(b), Kind::Int) => Some(Cell::Int(if b { 1i64 } else { 0i64 })),
            (Cell::Bool(b), Kind::Str) => Some(Cell::Str(if b { seq!['t', 'r', 'u', 'e'] } else { seq!['f', 'a', 'l', 's', 'e'] })),
            (Cell::Str(s), Kind::Int) => match parsed_i64(s) {
                Some(v) => Some(Cell::Int(v as i64)),
                None => if nullable {
                    None
                } else {
                    Some(Cell::Int(0i64))
                },
            },
            (Cell::Str(s), Kind::Bool) => Some(Cell::Bool(s.len() > 0)),
            _ => Some(x),
        },
    }
}

/// Casts between integer, string and boolean columns, and to a column's own
/// kind, are computed here.
pub open spec fn castable(from: Kind, to: Kind) -> bool {
    from == to || ((from == Kind::Int || from == Kind::Str || from == Kind::Bool) && (to == Kind::Int || to == Kind::Str
        || to == Kind::Bool))
}

/// The value of one slot cast to `target`.
fn cast_value(v: &Option<ValueEnum>, target: Kind, nullable: bool) -> (r: Option<ValueEnum>)
    ensures
        opt_view(r) == cast_cell(opt_view(*v), target, nullable),
{
    match v {
        None => None,
        Some(x) => match (x, target) {
            (ValueEnum::Int(i), Kind::Str) => Some(ValueEnum::Str(i64_text(*i))),
            (ValueEnum::Int(i), Kind::Bool) => Some(ValueEnum::Bool(*i != 0)),
            (ValueEnum::Bool(b), Kind::Int) => Some(ValueEnum::Int(if *b { 1 } else { 0 })),
            (ValueEnum::Bool(b), Kind::Str) => {
                let s = if *b {
                    String::from_str("true")
                } else {
                    String::from_str("false")
                };
                proof {
                    reveal_strlit("true");
                    reveal_strlit("false");
                    assert(s@ =~= (if *b { seq!['t', 'r', 'u', 'e'] } else { seq!['f', 'a', 'l', 's', 'e'] }));
                }
                Some(ValueEnum::Str(s))
            },
            (ValueEnum::Str(s), Kind::Int) => match parse_i64(s.as_str()) {
                Some(i) => Some(ValueEnum::Int(i)),
                None => {
                    if nullable {
                        None
                    } else {
                        Some(ValueEnum::Int(0))
                    }
                },
            },
            (ValueEnum::Str(s), Kind::Bool) => Some(ValueEnum::Bool(!s.as_str().is_empty())),
            _ => Some(x.duplicate()),
        },
    }
}

/// Every slot of a column of kind `k` that fits its representation keeps fitting once cast.
proof fn lemma_cast_fits(c: Option<Cell>, from: Kind, to: Kind, nullable: bool)
    requires
        accepts(Shape { kind: Some(from), nullable }, c),
        castable(from, to),
    ensures
        accepts(Shape { kind: Some(to), nullable }, cast_cell(c, to, nullable)),
{
}

/// A column of kind `from` cast to `to`, keeping whether it is nullable.
fn cast_column_values(col: &TinyColumn, to: Kind) -> (r: TinyColumn)
    requires
        col.shape().kind is Some,
        castable(col.shape().kind->Some_0, to),
    ensures
        r.shape() == (Shape { kind: Some(to), nullable: col.shape().nullable }),
        r.cells() == col.cells().map_values(|c: Option<Cell>| cast_cell(c, to, col.shape().nullable)),
{
    let (kind, nullable) = col.representation();
    let n = col.len();
    let mut out = TinyColumn::empty_of(Some(to), nullable);
    let mut i: usize = 0;
    while i < n
        invariant
            n == col.cells().len(),
            kind == col.shape().kind,
            nullable == col.shape().nullable,
            kind is Some,
            castable(kind->Some_0, to),
            out.shape() == (Shape { kind: Some(to), nullable }),
            i <= n,
            out.cells() == col.cells().take(i as int).map_values(|c: Option<Cell>| cast_cell(c, to, nullable)),
        decreases n - i,
    {
        let v = col.get(i);
        let w = cast_value(&v, to, nullable);
        proof {
            col.lemma_accepts_own(i as int);
            lemma_cast_fits(col.cells()[i as int], kind->Some_0, to, nullable);
        }
        out.push_value(&w);
        i = i + 1;
        assert(out.cells() =~= col.cells().take(i as int).map_values(|c: Option<Cell>| cast_cell(c, to, nullable)));
    }
    assert(col.cells().take(n as int) =~= col.cells());
    out
}

/// The slots of a column with every null replaced by `v`.
pub open spec fn filled(cells: Seq<Option<Cell>>, v: Cell) -> Seq<Option<Cell>> {
    cells.map_values(|c: Option<Cell>| match c {
        Some(x) => Some(x),
        None => Some(v),
    })
}

/// A fill with `v` applies to a column of this shape: a column without nulls
/// is left alone; a nullable one must be mixed or of `v`'s kind.
pub open spec fn fillable(s: Shape, v: Cell) -> bool {
    !s.nullable || s.kind is None || s.kind == Some(cell_kind(v))
}

/// A nullable column with its nulls replaced by `v`; the result has no nulls.
fn fill_column(col: &TinyColumn, v: &ValueEnum) -> (r: TinyColumn)
    requires
        col.shape().nullable,
        fillable(col.shape(), v@),
    ensures
        r.shape() == (Shape { kind: col.shape().kind, nullable: false }),
        r.cells() == filled(col.cells(), v@),
{
    let (kind, _) = col.representation();
    let n = col.len();
    let mut out = TinyColumn::empty_of(kind, false);
    let mut i: usize = 0;
    while i < n
        invariant
            n == col.cells().len(),
            kind == col.shape().kind,
            fillable(col.shape(), v@),
            col.shape().nullable,
            out.shape() == (Shape { kind, nullable: false }),
            i <= n,
            out.cells() == filled(col.cells().take(i as int), v@),
        decreases n - i,
    {
        let slot = match col.get(i) {
            Some(x) => Some(x),
            None => Some(v.duplicate()),
        };
        proof {
            col.lemma_accepts_own(i as int);
        }
        out.push_value(&slot);
        i = i + 1;
        assert(out.cells() =~= filled(col.cells().take(i as int), v@));
    }
    assert(col.cells().take(n as int) =~= col.cells());
    out
}

impl TinyFrame {
    /// Convert the column `column` to the kind `target`. Mixed and opaque
    /// columns cannot be cast; casts that produce or read floats are not
    /// computed here.
    pub fn cast_column(&mut self, column: &str, target: Kind) -> (r: Result<(), FrameError>)
        requires
            old(self).wf(),
        ensures
            final(self).wf(),
            match old(self).position(column@) {
                None => r == Err::<(), FrameError>(FrameError::NotFound) && *final(self) == *old(self),
                Some(c) => {
                    let from = old(self).col(c).shape();
                    if from.kind is None || from.kind == Some(Kind::Opaque) {
                        r == Err::<(), FrameError>(FrameError::TypeMismatch) && *final(self) == *old(self)
                    } else if !castable(from.kind->Some_0, target) {
                        r == Err::<(), FrameError>(FrameError::Unsupported) && *final(self) == *old(self)
                    } else {
                        &&& r is Ok
                        &&& final(self).names_view() == old(self).names_view()
                        &&& final(self).nrows() == old(self).nrows()
                        &&& final(self).ncols() == old(self).ncols()
                        &&& final(self).col(c).shape() == (Shape { kind: Some(target), nullable: from.nullable })
                        &&& final(self).col(c).cells() == old(self).col(c).cells().map_values(
                            |x: Option<Cell>| cast_cell(x, target, from.nullable),
                        )
                        &&& forall|d: int| 0 <= d < old(self).ncols() && d != c ==> #[trigger] final(self).col(d) == old(self).col(d)
                    }
                },
            },
    {
        let c = match self.find_column(column) {
            Some(c) => c,
            None => {
                return Err(FrameError::NotFound);
            },
        };
        let col = self.column_at(c);
        let (kind, _) = col.representation();
        let from = match kind {
            None => {
                return Err(FrameError::TypeMismatch);
            },
            Some(Kind::Opaque) => {
                return Err(FrameError::TypeMismatch);
            },
            Some(k) => k,
        };
        let ok = from == target || ((from == Kind::Int || from == Kind::Str || from == Kind::Bool) && (target == Kind::Int
            || target == Kind::Str || target == Kind::Bool));
        if !ok {
            return Err(FrameError::Unsupported);
        }
        let new_col = cast_column_values(col, target);
        proof {
            assert(self.col(c as int).cells().len() == self.nrows());
        }
        self.set_column(c, new_col);
        Ok(())
    }

    /// Replace the nulls of every nullable column by `value`; each such column
    /// then has no nulls. Fails, changing nothing, when a nullable typed column
    /// is of another kind than `value`.
    pub fn fillna(&mut self, value: &ValueEnum) -> (r: Result<(), FrameError>)
        requires
            old(self).wf(),
        ensures
            final(self).wf(),
            (forall|c: int| 0 <= c < old(self).ncols() ==> fillable(#[trigger] old(self).col(c).shape(), value@)) ==> {
                &&& r is Ok
                &&& final(self).names_view() == old(self).names_view()
                &&& final(self).nrows() == old(self).nrows()
                &&& final(self).ncols() == old(self).ncols()
                &&& forall|c: int| 0 <= c < old(self).ncols() ==> (#[trigger] final(self).col(c)).cells() == filled(old(self).col(c).cells(), value@)
                &&& forall|c: int| 0 <= c < old(self).ncols() ==> (#[trigger] final(self).col(c)).shape() == (Shape { kind: old(self).col(c).shape().kind, nullable: false })
            },
            !(forall|c: int| 0 <= c < old(self).ncols() ==> fillable(#[trigger] old(self).col(c).shape(), value@)) ==> {
                &&& r == Err::<(), FrameError>(FrameError::TypeMismatch)
                &&& *final(self) == *old(self)
            },
    {
        let (_, ncols) = self.shape();
        let vk = value.kind();
        let mut c: usize = 0;
        while c < ncols
            invariant
                self.wf(),
                ncols == self.ncols(),
                vk == cell_kind(value@),
                c <= ncols,
                forall|d: int| 0 <= d < c ==> fillable(#[trigger] self.col(d).shape(), value@),
            decreases ncols - c,
        {
            let (kind, nullable) = self.column_at(c).representation();
            if nullable && kind.is_some() && kind != Some(vk) {
                return Err(FrameError::TypeMismatch);
            }
            c = c + 1;
        }
        let ghost start = *self;
        let mut c: usize = 0;
        while c < ncols
            invariant
                self.wf(),
                start.wf(),
                ncols == self.ncols(),
                ncols == start.ncols(),
                self.names_view() == start.names_view(),
                self.nrows() == start.nrows(),
                forall|d: int| 0 <= d < ncols ==> fillable(#[trigger] start.col(d).shape(), value@),
                c <= ncols,
                forall|d: int| 0 <= d < c ==> (#[trigger] self.col(d)).cells() == filled(start.col(d).cells(), value@)
                    && self.col(d).shape() == (Shape { kind: start.col(d).shape().kind, nullable: false }),
                forall|d: int| c <= d < ncols ==> #[trigger] self.col(d) == start.col(d),
            decreases ncols - c,
        {
            let col = self.column_at(c);
            let (_, nullable) = col.representation();
            if nullable {
                let new_col = fill_column(col, value);
                proof {
                    assert(self.col(c as int).cells().len() == self.nrows());
                }
                self.set_column(c, new_col);
            } else {
                proof {
                    let cells = self.col(c as int).cells();
                    assert forall|i: int| 0 <= i < cells.len() implies cells[i] is Some by {
                        self.col(c as int).lemma_accepts_own(i);
                    }
                    assert(filled(cells, value@) =~= cells);
                }
            }
            c = c + 1;
        }
        Ok(())
    }

    /// Put `col` in place of the column named `column`; it must have one slot
    /// per row.
    pub fn replace_column(&mut self, column: &str, col: TinyColumn) -> (r: Result<(), FrameError>)
        requires
            old(self).wf(),
        ensures
            final(self).wf(),
            match old(self).position(column@) {
                None => r == Err::<(), FrameError>(FrameError::NotFound) && *final(self) == *old(self),
                Some(c) => if col.cells().len() != old(self).nrows() {
                    r == Err::<(), FrameError>(FrameError::ValueError) && *final(self) == *old(self)
                } else {
                    &&& r is Ok
                    &&& final(self).names_view() == old(self).names_view()
                    &&& final(self).nrows() == old(self).nrows()
                    &&& final(self).ncols() == old(self).ncols()
                    &&& final(self).col(c) == col
                    &&& forall|d: int| 0 <= d < old(self).ncols() && d != c ==> #[trigger] final(self).col(d) == old(self).col(d)
                },
            },
    {
        let c = match self.find_column(column) {
            Some(c) => c,
            None => {
                return Err(FrameError::NotFound);
            },
        };
        if col.len() != self.len() {
            return Err(FrameError::ValueError);
        }
        self.set_column(c, col);
        Ok(())
    }

    /// Give the column `column` new values (one per row, `None` for null) and
    /// the representation that type inference picks for them.
    pub fn edit_column(&mut self, column: &str, values: &Vec<Option<ValueEnum>>) -> (r: Result<(), FrameError>)
        requires
            old(self).wf(),
        ensures
            final(self).wf(),
            match old(self).position(column@) {
                None => r == Err::<(), FrameError>(FrameError::NotFound) && *final(self) == *old(self),
                Some(c) => if values@.len() != old(self).nrows() {
                    r == Err::<(), FrameError>(FrameError::ValueError) && *final(self) == *old(self)
                } else {
                    &&& r is Ok
                    &&& final(self).names_view() == old(self).names_view()
                    &&& final(self).nrows() == old(self).nrows()
                    &&& final(self).ncols() == old(self).ncols()
                    &&& final(self).col(c).cells() == opt_views(values@)
                    &&& final(self).col(c).shape() == inferred_shape(opt_views(values@))
                    &&& forall|d: int| 0 <= d < old(self).ncols() && d != c ==> #[trigger] final(self).col(d) == old(self).col(d)
                },
            },
    {
        let c = match self.find_column(column) {
            Some(c) => c,
            None => {
                return Err(FrameError::NotFound);
            },
        };
        if values.len() != self.len() {
            return Err(FrameError::ValueError);
        }
        let new_col = infer_column(values);
        self.set_column(c, new_col);
        Ok(())
    }
}

} // verus!
