use vstd::prelude::*;
use crate::column::{Cell, TinyColumn, ValueEnum, opt_view, opt_views, infer_column, inferred_shape, Shape};
use crate::string_optimize::views;

verus! {

/// The error kinds an operation can return.
#[derive(Debug, Clone, Copy, PartialEq, Eq, Structural)]
pub enum FrameError {
    /// A named column does not exist.
    NotFound,
    /// The operation does not apply to the column's representation.
    TypeMismatch,
    /// An argument is out of the operation's domain.
    ValueError,
    /// The operation is not implemented for the column's representation.
    Unsupported,
}

/// A table: named columns of equal length, in insertion order.
#[derive(Debug, Clone)]
pub struct TinyFrame {
    names: Vec<String>,
    columns: Vec<TinyColumn>,
    length: usize,
}

/// The row indices whose mask entry is set, in increasing order.
pub open spec fn selected(mask: Seq<bool>) -> Seq<int>
    decreases mask.len(),
{
    if mask.len() == 0 {
        Seq::empty()
    } else if mask.last() {
        selected(mask.drop_last()).push(mask.len() - 1)
    } else {
        selected(mask.drop_last())
    }
}

/// The indices `0..n`.
pub open spec fn all_rows(n: nat) -> Seq<int> {
    Seq::new(n, |i: int| i)
}

proof fn lemma_filter_push<A>(s: Seq<A>, pred: spec_fn(A) -> bool, x: A)
    ensures
        s.push(x).filter(pred) == (if pred(x) {
            s.filter(pred).push(x)
        } else {
            s.filter(pred)
        }),
{
    reveal(Seq::filter);
    assert(s.push(x).drop_last() =~= s);
}

proof fn lemma_selected_step(mask: Seq<bool>, i: int)
    requires
        0 <= i < mask.len(),
    ensures
        selected(mask.take(i + 1)) == (if mask[i] {
            selected(mask.take(i)).push(i)
        } else {
            selected(mask.take(i))
        }),
{
    assert(mask.take(i + 1).drop_last() =~= mask.take(i));
}

/// Every selected index is in range and marked.
pub proof fn lemma_selected_bounds(mask: Seq<bool>)
    ensures
        forall|k: int| 0 <= k < selected(mask).len() ==> 0 <= #[trigger] selected(mask)[k] < mask.len() && mask[selected(mask)[k]],
    decreases mask.len(),
{
    if mask.len() > 0 {
        lemma_selected_bounds(mask.drop_last());
        let front = mask.drop_last();
        let sf = selected(front);
        assert forall|k: int| 0 <= k < selected(mask).len() implies 0 <= #[trigger] selected(mask)[k] < mask.len() && mask[selected(mask)[k]] by {
            if k < sf.len() {
                assert(selected(mask)[k] == sf[k]);
                assert(front[sf[k]] == mask[sf[k]]);
            }
        }
    }
}

/// A mask with every entry set selects every row.
pub proof fn lemma_selected_all(mask: Seq<bool>)
    requires
        forall|i: int| 0 <= i < mask.len() ==> #[trigger] mask[i],
    ensures
        selected(mask) == all_rows(mask.len()),
    decreases mask.len(),
{
    if mask.len() > 0 {
        lemma_selected_all(mask.drop_last());
        assert(selected(mask) =~= all_rows(mask.len()));
    } else {
        assert(selected(mask) =~= all_rows(mask.len()));
    }
}

impl TinyFrame {
    /// The column names, in order.
    pub closed spec fn names_view(&self) -> Seq<Seq<char>> {
        views(self.names@)
    }

    /// Number of columns.
    pub closed spec fn ncols(&self) -> nat {
        self.columns@.len()
    }

    /// Number of rows.
    pub closed spec fn nrows(&self) -> nat {
        self.length as nat
    }

    /// Column `c`.
    pub closed spec fn col(&self, c: int) -> TinyColumn {
        self.columns@[c]
    }

    /// The slot at column `c`, row `r`.
    pub open spec fn cell(&self, c: int, r: int) -> Option<Cell> {
        self.col(c).cells()[r]
    }

    /// Well-formed: one name per column, names distinct, every column `nrows` long.
    pub open spec fn wf(&self) -> bool {
        &&& self.names_view().len() == self.ncols()
        &&& self.names_view().no_duplicates()
        &&& forall|c: int| 0 <= c < self.ncols() ==> (#[trigger] self.col(c)).cells().len() == self.nrows()
    }

    /// The table row by row: `rows()[r][c]` is column `c` of row `r`.
    pub open spec fn rows(&self) -> Seq<Seq<Option<Cell>>> {
        Seq::new(self.nrows(), |r: int| Seq::new(self.ncols(), |c: int| self.cell(c, r)))
    }

    /// `t` has this table's columns and holds its rows `idx`, in that order.
    pub open spec fn picks(&self, idx: Seq<int>, t: TinyFrame) -> bool {
        &&& t.wf()
        &&& t.names_view() == self.names_view()
        &&& t.ncols() == self.ncols()
        &&& t.nrows() == idx.len()
        &&& forall|c: int| 0 <= c < self.ncols() ==> (#[trigger] t.col(c)).shape() == self.col(c).shape()
        &&& forall|c: int, k: int| 0 <= c < self.ncols() && 0 <= k < idx.len() ==> #[trigger] t.cell(c, k) == self.cell(c, idx[k])
    }

    /// The position of the column named `n`, if any.
    pub open spec fn position(&self, n: Seq<char>) -> Option<int> {
        if self.names_view().contains(n) {
            Some(self.names_view().index_of(n))
        } else {
            None
        }
    }

    /// An empty table.
    pub fn new() -> (r: Self)
        ensures
            r.wf(),
            r.ncols() == 0,
            r.nrows() == 0,
    {
        let r = TinyFrame { names: Vec::new(), columns: Vec::new(), length: 0 };
        assert(r.names_view() =~= Seq::<Seq<char>>::empty());
        r
    }

    /// Number of rows.
    pub fn len(&self) -> (r: usize)
        ensures
            r == self.nrows(),
    {
        self.length
    }

    /// Whether the table has no rows.
    pub fn is_empty(&self) -> (r: bool)
        ensures
            r == (self.nrows() == 0),
    {
        self.length == 0
    }

    /// `(rows, columns)`.
    pub fn shape(&self) -> (r: (usize, usize))
        ensures
            r.0 == self.nrows(),
            r.1 == self.ncols(),
    {
        (self.length, self.columns.len())
    }

    /// The column names, in order.
    pub fn columns(&self) -> (r: Vec<String>)
        ensures
            views(r@) == self.names_view(),
    {
        let mut out: Vec<String> = Vec::new();
        let mut i: usize = 0;
        while i < self.names.len()
            invariant
                i <= self.names@.len(),
                views(out@) == self.names_view().take(i as int),
            decreases self.names@.len() - i,
        {
            let ghost before = out@;
            let s = self.names[i].clone();
            out.push(s);
            assert(out@ == before.push(s));
            assert(s@ == self.names_view()[i as int]);
            assert(views(out@) =~= views(before).push(s@));
            i = i + 1;
            assert(views(out@) =~= self.names_view().take(i as int));
        }
        assert(self.names_view().take(self.names@.len() as int) =~= self.names_view());
        out
    }

    /// The position of the column named `name`.
    pub fn find_column(&self, name: &str) -> (r: Option<usize>)
        requires
            self.wf(),
        ensures
            match r {
                Some(c) => self.position(name@) == Some(c as int),
                None => self.position(name@) is None,
            },
    {
        let owned = name.to_owned();
        let mut i: usize = 0;
        while i < self.names.len()
            invariant
                self.wf(),
                owned@ == name@,
                i <= self.names@.len(),
                forall|j: int| 0 <= j < i ==> self.names_view()[j] != name@,
            decreases self.names@.len() - i,
        {
            if self.names[i] == owned {
                proof {
                    assert(self.names_view()[i as int] == name@);
                    assert(self.names_view().contains(name@));
                    let k = self.names_view().index_of(name@);
                    assert(self.names_view()[k] == name@);
                    assert(k == i);
                }
                return Some(i);
            }
            i = i + 1;
        }
        None
    }

    /// Column `c`.
    pub fn column_at(&self, c: usize) -> (r: &TinyColumn)
        requires
            c < self.ncols(),
        ensures
            *r == self.col(c as int),
    {
        &self.columns[c]
    }

    /// The column named `name`, if any.
    pub fn column(&self, name: &str) -> (r: Option<&TinyColumn>)
        requires
            self.wf(),
        ensures
            match self.position(name@) {
                Some(c) => r == Some(&self.col(c)),
                None => r is None,
            },
    {
        match self.find_column(name) {
            Some(c) => Some(&self.columns[c]),
            None => None,
        }
    }

    /// The table of rows `indices` of this one, in that order.
    pub fn take_rows(&self, indices: &Vec<usize>) -> (r: Self)
        requires
            self.wf(),
            forall|k: int| 0 <= k < indices@.len() ==> #[trigger] indices@[k] < self.nrows(),
        ensures
            self.picks(indices@.map_values(|j: usize| j as int), r),
    {
        let ghost idx = indices@.map_values(|j: usize| j as int);
        let mut cols: Vec<TinyColumn> = Vec::new();
        let mut c: usize = 0;
        while c < self.columns.len()
            invariant
                self.wf(),
                forall|k: int| 0 <= k < indices@.len() ==> #[trigger] indices@[k] < self.nrows(),
                c <= self.ncols(),
                cols@.len() == c,
                forall|d: int| 0 <= d < c ==> (#[trigger] cols@[d]).shape() == self.col(d).shape()
                    && cols@[d].cells() == indices@.map_values(|j: usize| self.col(d).cells()[j as int]),
            decreases self.ncols() - c,
        {
            assert(self.col(c as int).cells().len() == self.nrows());
            let g = self.columns[c].gather(indices.as_slice());
            cols.push(g);
            c = c + 1;
        }
        let r = TinyFrame { names: self.names.clone(), columns: cols, length: indices.len() };
        proof {
            assert(r.names_view() == self.names_view());
            assert forall|d: int| 0 <= d < r.ncols() implies (#[trigger] r.col(d)).cells().len() == r.nrows() by {
                assert(r.col(d) == cols@[d]);
            }
            assert forall|d: int, k: int| 0 <= d < self.ncols() && 0 <= k < idx.len() implies #[trigger] r.cell(d, k) == self.cell(d, idx[k]) by {
                assert(r.col(d) == cols@[d]);
            }
            assert forall|d: int| 0 <= d < self.ncols() implies (#[trigger] r.col(d)).shape() == self.col(d).shape() by {
                assert(r.col(d) == cols@[d]);
            }
        }
        r
    }

    /// The table of the rows whose mask entry is set, in order.
    pub fn select_rows(&self, mask: &Vec<bool>) -> (r: Self)
        requires
            self.wf(),
            mask@.len() == self.nrows(),
        ensures
            self.picks(selected(mask@), r),
    {
        let mut idx: Vec<usize> = Vec::new();
        let mut i: usize = 0;
        while i < mask.len()
            invariant
                i <= mask@.len(),
                idx@.map_values(|j: usize| j as int) == selected(mask@.take(i as int)),
                forall|k: int| 0 <= k < idx@.len() ==> #[trigger] idx@[k] < i,
            decreases mask@.len() - i,
        {
            proof {
                lemma_selected_step(mask@, i as int);
            }
            if mask[i] {
                idx.push(i);
            }
            i = i + 1;
            assert(idx@.map_values(|j: usize| j as int) =~= selected(mask@.take(i as int)));
        }
        assert(mask@.take(mask@.len() as int) =~= mask@);
        self.take_rows(&idx)
    }

    /// Build a table from rows: `rows[r][c]` is the value of column `names[c]`
    /// in row `r` (`None` for null). Each column gets the representation that
    /// type inference picks for its values.
    pub fn from_rows(names: &Vec<String>, rows: &Vec<Vec<Option<ValueEnum>>>) -> (r: Result<Self, FrameError>)
        ensures
            match r {
                Ok(t) => t.ingested(views(names@), rows@.map_values(|row: Vec<Option<ValueEnum>>| opt_views(row@))),
                Err(e) => e == FrameError::ValueError && !ingestible(views(names@), rows@.map_values(|row: Vec<Option<ValueEnum>>| row@.len())),
            },
            ingestible(views(names@), rows@.map_values(|row: Vec<Option<ValueEnum>>| row@.len())) <==> r is Ok,
    {
        let ghost lens = rows@.map_values(|row: Vec<Option<ValueEnum>>| row@.len());
        let ghost model = rows@.map_values(|row: Vec<Option<ValueEnum>>| opt_views(row@));
        if rows.len() == 0 {
            return Err(FrameError::ValueError);
        }
        let mut r: usize = 0;
        while r < rows.len()
            invariant
                lens == rows@.map_values(|row: Vec<Option<ValueEnum>>| row@.len()),
                r <= rows@.len(),
                forall|k: int| 0 <= k < r ==> #[trigger] lens[k] == names@.len(),
            decreases rows@.len() - r,
        {
            if rows[r].len() != names.len() {
                assert(lens[r as int] != names@.len());
                return Err(FrameError::ValueError);
            }
            r = r + 1;
        }
        assert forall|k: int| 0 <= k < rows@.len() implies (#[trigger] rows@[k])@.len() == names@.len() by {
            assert(lens[k] == rows@[k]@.len());
        }
        if !names_distinct(names) {
            return Err(FrameError::ValueError);
        }
        let mut cols: Vec<TinyColumn> = Vec::new();
        let mut c: usize = 0;
        while c < names.len()
            invariant
                model == rows@.map_values(|row: Vec<Option<ValueEnum>>| opt_views(row@)),
                forall|k: int| 0 <= k < rows@.len() ==> (#[trigger] rows@[k])@.len() == names@.len(),
                c <= names@.len(),
                cols@.len() == c,
                forall|d: int| 0 <= d < c ==> (#[trigger] cols@[d]).cells() == column_of(model, d)
                    && cols@[d].shape() == inferred_shape(column_of(model, d)),
            decreases names@.len() - c,
        {
            let mut vals: Vec<Option<ValueEnum>> = Vec::new();
            let mut k: usize = 0;
            while k < rows.len()
                invariant
                    model == rows@.map_values(|row: Vec<Option<ValueEnum>>| opt_views(row@)),
                    forall|k: int| 0 <= k < rows@.len() ==> (#[trigger] rows@[k])@.len() == names@.len(),
                    c < names@.len(),
                    k <= rows@.len(),
                    opt_views(vals@) == column_of(model, c as int).take(k as int),
                decreases rows@.len() - k,
            {
                let v = crate::column::duplicate_opt(&rows[k][c]);
                let ghost before = vals@;
                vals.push(v);
                proof {
                    assert(model[k as int] == opt_views(rows@[k as int]@));
                    assert(column_of(model, c as int)[k as int] == model[k as int][c as int]);
                    assert(opt_view(v) == opt_view(rows@[k as int]@[c as int]));
                    assert(opt_views(vals@) =~= opt_views(before).push(opt_view(v)));
                }
                k = k + 1;
                assert(opt_views(vals@) =~= column_of(model, c as int).take(k as int));
            }
            assert(column_of(model, c as int).take(rows@.len() as int) =~= column_of(model, c as int));
            let col = infer_column(&vals);
            cols.push(col);
            c = c + 1;
        }
        let t = TinyFrame { names: names.clone(), columns: cols, length: rows.len() };
        proof {
            assert forall|k: int| 0 <= k < lens.len() implies #[trigger] lens[k] == views(names@).len() by {
                assert(lens[k] == rows@[k]@.len());
            }
            assert forall|d: int| 0 <= d < t.ncols() implies (#[trigger] t.col(d)).cells().len() == t.nrows() by {
                assert(t.col(d) == cols@[d]);
            }
            assert forall|d: int| 0 <= d < t.ncols() implies (#[trigger] t.col(d)).cells() == column_of(model, d)
                && t.col(d).shape() == inferred_shape(column_of(model, d)) by {
                assert(t.col(d) == cols@[d]);
            }
        }
        Ok(t)
    }

    /// This table is what ingesting `rows` under `names` gives.
    pub open spec fn ingested(&self, names: Seq<Seq<char>>, rows: Seq<Seq<Option<Cell>>>) -> bool {
        &&& self.wf()
        &&& self.names_view() == names
        &&& self.nrows() == rows.len()
        &&& forall|c: int| 0 <= c < self.ncols() ==> (#[trigger] self.col(c)).cells() == column_of(rows, c)
            && self.col(c).shape() == inferred_shape(column_of(rows, c))
    }

    /// The rows of the table, each value re-expanded.
    pub fn to_rows(&self) -> (r: Vec<Vec<Option<ValueEnum>>>)
        requires
            self.wf(),
        ensures
            r@.map_values(|row: Vec<Option<ValueEnum>>| opt_views(row@)) == self.rows(),
    {
        let mut out: Vec<Vec<Option<ValueEnum>>> = Vec::new();
        let mut r: usize = 0;
        while r < self.length
            invariant
                self.wf(),
                r <= self.nrows(),
                out@.len() == r,
                forall|k: int| 0 <= k < r ==> opt_views((#[trigger] out@[k])@) == self.rows()[k],
            decreases self.nrows() - r,
        {
            let mut row: Vec<Option<ValueEnum>> = Vec::new();
            let mut c: usize = 0;
            while c < self.columns.len()
                invariant
                    self.wf(),
                    r < self.nrows(),
                    c <= self.ncols(),
                    opt_views(row@) == self.rows()[r as int].take(c as int),
                decreases self.ncols() - c,
            {
                assert(self.col(c as int).cells().len() == self.nrows());
                let v = self.columns[c].get(r);
                let ghost before = row@;
                row.push(v);
                proof {
                    assert(opt_view(v) == self.cell(c as int, r as int));
                    assert(self.rows()[r as int][c as int] == self.cell(c as int, r as int));
                    assert(opt_views(row@) =~= opt_views(before).push(opt_view(v)));
                }
                c = c + 1;
                assert(opt_views(row@) =~= self.rows()[r as int].take(c as int));
            }
            assert(self.rows()[r as int].take(self.ncols() as int) =~= self.rows()[r as int]);
            out.push(row);
            r = r + 1;
        }
        assert(out@.map_values(|row: Vec<Option<ValueEnum>>| opt_views(row@)) =~= self.rows());
        out
    }

    /// A table from names and columns of equal length.
    pub(crate) fn from_parts(names: Vec<String>, columns: Vec<TinyColumn>, length: usize) -> (t: TinyFrame)
        requires
            views(names@).len() == columns@.len(),
            views(names@).no_duplicates(),
            forall|c: int| 0 <= c < columns@.len() ==> (#[trigger] columns@[c]).cells().len() == length,
        ensures
            t.wf(),
            t.names_view() == views(names@),
            t.ncols() == columns@.len(),
            t.nrows() == length,
            forall|c: int| 0 <= c < columns@.len() ==> #[trigger] t.col(c) == columns@[c],
    {
        let t = TinyFrame { names, columns, length };
        proof {
            assert forall|c: int| 0 <= c < t.ncols() implies (#[trigger] t.col(c)).cells().len() == t.nrows() by {
                assert(t.col(c) == t.columns@[c]);
            }
        }
        t
    }

    /// Replace column `c` by a column of the same length.
    pub(crate) fn set_column(&mut self, c: usize, col: TinyColumn)
        requires
            old(self).wf(),
            c < old(self).ncols(),
            col.cells().len() == old(self).nrows(),
        ensures
            final(self).wf(),
            final(self).names_view() == old(self).names_view(),
            final(self).nrows() == old(self).nrows(),
            final(self).ncols() == old(self).ncols(),
            final(self).col(c as int) == col,
            forall|d: int| 0 <= d < old(self).ncols() && d != c ==> #[trigger] final(self).col(d) == old(self).col(d),
    {
        self.columns.set(c, col);
        proof {
            assert forall|d: int| 0 <= d < self.ncols() implies (#[trigger] self.col(d)).cells().len() == self.nrows() by {
                if d != c {
                    assert(self.col(d) == old(self).col(d));
                }
            }
        }
    }

    /// Append the rows of `other`, a table with the same columns.
    pub fn append_rows(&mut self, other: &TinyFrame)
        requires
            old(self).wf(),
            other.wf(),
            other.names_view() == old(self).names_view(),
            forall|c: int| 0 <= c < old(self).ncols() ==> (#[trigger] other.col(c)).shape() == old(self).col(c).shape(),
            old(self).nrows() + other.nrows() <= usize::MAX,
        ensures
            final(self).wf(),
            final(self).names_view() == old(self).names_view(),
            final(self).ncols() == old(self).ncols(),
            final(self).nrows() == old(self).nrows() + other.nrows(),
            forall|c: int| 0 <= c < old(self).ncols() ==> (#[trigger] final(self).col(c)).shape() == old(self).col(c).shape(),
            forall|c: int| 0 <= c < old(self).ncols() ==> (#[trigger] final(self).col(c)).cells() == old(self).col(c).cells() + other.col(c).cells(),
    {
        let ghost start = *self;
        let ncols = self.columns.len();
        let mut cols: Vec<TinyColumn> = Vec::new();
        let mut c: usize = 0;
        while c < ncols
            invariant
                *self == start,
                start.wf(),
                other.wf(),
                ncols == start.ncols(),
                other.names_view() == start.names_view(),
                forall|d: int| 0 <= d < start.ncols() ==> (#[trigger] other.col(d)).shape() == start.col(d).shape(),
                c <= ncols,
                cols@.len() == c,
                forall|d: int| 0 <= d < c ==> (#[trigger] cols@[d]).shape() == start.col(d).shape()
                    && cols@[d].cells() == start.col(d).cells() + other.col(d).cells(),
            decreases ncols - c,
        {
            let mut col = self.columns[c].clone_column();
            assert(other.ncols() == start.ncols());
            assert(self.col(c as int) == start.col(c as int));
            assert(other.col(c as int).shape() == start.col(c as int).shape());
            col.append_column(&other.columns[c]);
            cols.push(col);
            c = c + 1;
        }
        self.columns = cols;
        self.length = self.length + other.length;
        proof {
            assert forall|d: int| 0 <= d < self.ncols() implies (#[trigger] self.col(d)).cells().len() == self.nrows() by {
                assert(self.col(d) == cols@[d]);
                assert(start.col(d).cells().len() == start.nrows());
                assert(other.col(d).cells().len() == other.nrows());
            }
            assert forall|d: int| 0 <= d < start.ncols() implies (#[trigger] self.col(d)).shape() == start.col(d).shape() by {
                assert(self.col(d) == cols@[d]);
            }
            assert forall|d: int| 0 <= d < start.ncols() implies (#[trigger] self.col(d)).cells() == start.col(d).cells() + other.col(d).cells() by {
                assert(self.col(d) == cols@[d]);
            }
        }
    }

    /// Remove the named columns; if any is missing, nothing is removed.
    pub fn drop_columns(&mut self, to_drop: &Vec<String>) -> (r: Result<(), FrameError>)
        requires
            old(self).wf(),
        ensures
            final(self).wf(),
            (forall|k: int| 0 <= k < to_drop@.len() ==> old(self).names_view().contains(#[trigger] to_drop@[k]@)) ==> {
                &&& r is Ok
                &&& final(self).nrows() == old(self).nrows()
                &&& final(self).names_view() == old(self).names_view().filter(|n: Seq<char>| !views(to_drop@).contains(n))
                &&& final(self).ncols() == kept_positions(old(self).names_view(), views(to_drop@), old(self).ncols() as int).len()
                &&& forall|j: int| 0 <= j < final(self).ncols() ==> (#[trigger] final(self).col(j)).cells() == old(self).col(
                    kept_positions(old(self).names_view(), views(to_drop@), old(self).ncols() as int)[j],
                ).cells() && final(self).col(j).shape() == old(self).col(
                    kept_positions(old(self).names_view(), views(to_drop@), old(self).ncols() as int)[j],
                ).shape()
            },
            !(forall|k: int| 0 <= k < to_drop@.len() ==> old(self).names_view().contains(#[trigger] to_drop@[k]@)) ==> {
                &&& r == Err::<(), FrameError>(FrameError::NotFound)
                &&& *final(self) == *old(self)
            },
    {
        let mut k: usize = 0;
        while k < to_drop.len()
            invariant
                self.wf(),
                k <= to_drop@.len(),
                forall|j: int| 0 <= j < k ==> self.names_view().contains(#[trigger] to_drop@[j]@),
            decreases to_drop@.len() - k,
        {
            if self.find_column(to_drop[k].as_str()).is_none() {
                return Err(FrameError::NotFound);
            }
            k = k + 1;
        }
        let ghost dv = views(to_drop@);
        let mut names: Vec<String> = Vec::new();
        let mut cols: Vec<TinyColumn> = Vec::new();
        let mut c: usize = 0;
        while c < self.columns.len()
            invariant
                self.wf(),
                dv == views(to_drop@),
                c <= self.ncols(),
                names@.len() == cols@.len(),
                views(names@) == self.names_view().take(c as int).filter(|n: Seq<char>| !dv.contains(n)),
                views(names@).no_duplicates(),
                forall|d: int| 0 <= d < cols@.len() ==> (#[trigger] cols@[d]).cells().len() == self.nrows(),
                forall|d: int| 0 <= d < names@.len() ==> self.names_view().take(c as int).contains(#[trigger] views(names@)[d]),
                cols@.len() == kept_positions(self.names_view(), dv, c as int).len(),
                forall|d: int| 0 <= d < cols@.len() ==> (#[trigger] cols@[d]).cells() == self.col(kept_positions(self.names_view(), dv, c as int)[d]).cells()
                    && cols@[d].shape() == self.col(kept_positions(self.names_view(), dv, c as int)[d]).shape(),
            decreases self.ncols() - c,
        {
            let keep = !contains_name(to_drop, self.names[c].as_str());
            proof {
                let t = self.names_view().take(c as int);
                assert(self.names_view().take(c as int + 1) =~= t.push(self.names_view()[c as int]));
                lemma_filter_push(t, |n: Seq<char>| !dv.contains(n), self.names_view()[c as int]);
                assert(self.names_view()[c as int] == self.names@[c as int]@);
                assert(keep == !dv.contains(self.names_view()[c as int]));
                lemma_kept_positions_step(self.names_view(), dv, c as int);
            }
            if keep {
                let ghost before = views(names@);
                proof {
                    assert(!before.contains(self.names_view()[c as int])) by {
                        if before.contains(self.names_view()[c as int]) {
                            let d = choose|d: int| 0 <= d < before.len() && before[d] == self.names_view()[c as int];
                            assert(self.names_view().take(c as int).contains(before[d]));
                            let e = choose|e: int| 0 <= e < c && self.names_view()[e] == before[d];
                        }
                    }
                }
                names.push(self.names[c].clone());
                assert(self.col(c as int).cells().len() == self.nrows());
                let cc = self.columns[c].clone_column();
                let ghost cbefore = cols@;
                cols.push(cc);
                assert(cols@ == cbefore.push(cc));
                assert(cc.cells().len() == self.nrows());
                assert(views(names@) =~= before.push(self.names_view()[c as int]));
                proof {
                    assert forall|a: int, b: int| 0 <= a < b < views(names@).len() implies views(names@)[a] != views(names@)[b] by {
                        if b == before.len() {
                            assert(views(names@)[a] == before[a]);
                        } else {
                            assert(views(names@)[a] == before[a] && views(names@)[b] == before[b]);
                        }
                    }
                    assert forall|d: int| 0 <= d < names@.len() implies self.names_view().take(c as int + 1).contains(#[trigger] views(names@)[d]) by {
                        if d < before.len() {
                            assert(views(names@)[d] == before[d]);
                            assert(self.names_view().take(c as int).contains(before[d]));
                            let e = choose|e: int| 0 <= e < c && self.names_view().take(c as int)[e] == before[d];
                            assert(self.names_view().take(c as int + 1)[e] == before[d]);
                        } else {
                            assert(self.names_view().take(c as int + 1)[c as int] == views(names@)[d]);
                        }
                    }
                }
            } else {
                proof {
                    assert forall|d: int| 0 <= d < names@.len() implies self.names_view().take(c as int + 1).contains(#[trigger] views(names@)[d]) by {
                        assert(self.names_view().take(c as int).contains(views(names@)[d]));
                        let e = choose|e: int| 0 <= e < c && self.names_view().take(c as int)[e] == views(names@)[d];
                        assert(self.names_view().take(c as int + 1)[e] == views(names@)[d]);
                    }
                }
            }
            c = c + 1;
        }
        assert(self.names_view().take(self.ncols() as int) =~= self.names_view());
        let ghost old_names = self.names_view();
        let ghost rows = self.nrows();
        let ghost before = *self;
        self.names = names;
        self.columns = cols;
        proof {
            assert forall|d: int| 0 <= d < self.ncols() implies (#[trigger] self.col(d)).cells().len() == self.nrows() by {
                assert(self.col(d) == cols@[d]);
            }
            assert forall|j: int| 0 <= j < self.ncols() implies (#[trigger] self.col(j)).cells() == before.col(
                kept_positions(before.names_view(), dv, before.ncols() as int)[j],
            ).cells() && self.col(j).shape() == before.col(kept_positions(before.names_view(), dv, before.ncols() as int)[j]).shape() by {
                assert(self.col(j) == cols@[j]);
            }
        }
        Ok(())
    }

    /// Give the column `old_name` the name `new_name`, keeping its position.
    pub fn rename_column(&mut self, old_name: &str, new_name: &str) -> (r: Result<(), FrameError>)
        requires
            old(self).wf(),
        ensures
            final(self).wf(),
            old(self).position(old_name@) is None ==> r == Err::<(), FrameError>(FrameError::NotFound)
                && *final(self) == *old(self),
            old(self).position(old_name@) is Some && old(self).position(new_name@) is Some
                ==> r == Err::<(), FrameError>(FrameError::ValueError) && *final(self) == *old(self),
            old(self).position(old_name@) is Some && old(self).position(new_name@) is None ==> {
                &&& r is Ok
                &&& final(self).names_view() == old(self).names_view().update(
                    old(self).position(old_name@)->Some_0,
                    new_name@,
                )
                &&& final(self).nrows() == old(self).nrows()
                &&& final(self).ncols() == old(self).ncols()
                &&& forall|c: int| 0 <= c < old(self).ncols() ==> #[trigger] final(self).col(c) == old(self).col(c)
            },
    {
        let c = match self.find_column(old_name) {
            Some(c) => c,
            None => {
                return Err(FrameError::NotFound);
            },
        };
        if self.find_column(new_name).is_some() {
            return Err(FrameError::ValueError);
        }
        let ghost before = self.names_view();
        proof {
            assert(!before.contains(new_name@));
        }
        let ghost cols_before = self.columns@;
        self.names.set(c, new_name.to_owned());
        proof {
            assert(self.columns@ == cols_before);
            assert(self.names_view() =~= before.update(c as int, new_name@));
            assert forall|a: int, b: int| 0 <= a < b < self.names_view().len() implies self.names_view()[a] != self.names_view()[b] by {
                if a == c {
                    assert(before[b] == self.names_view()[b]);
                } else if b == c {
                    assert(before[a] == self.names_view()[a]);
                } else {
                }
            }
            assert(self.names_view().len() == self.ncols());
            assert(self.names_view().no_duplicates());
            assert forall|d: int| 0 <= d < self.ncols() implies (#[trigger] self.col(d)).cells().len() == self.nrows() by {
                assert(self.col(d) == old(self).col(d));
            }
        }
        Ok(())
    }
}

/// The positions among the first `n` whose name is not in `drop`, in order.
pub open spec fn kept_positions(names: Seq<Seq<char>>, drop: Seq<Seq<char>>, n: int) -> Seq<int>
    decreases n,
{
    if n <= 0 {
        Seq::empty()
    } else if drop.contains(names[n - 1]) {
        kept_positions(names, drop, n - 1)
    } else {
        kept_positions(names, drop, n - 1).push(n - 1)
    }
}

proof fn lemma_kept_positions_step(names: Seq<Seq<char>>, drop: Seq<Seq<char>>, c: int)
    requires
        0 <= c,
    ensures
        kept_positions(names, drop, c + 1) == (if drop.contains(names[c]) {
            kept_positions(names, drop, c)
        } else {
            kept_positions(names, drop, c).push(c)
        }),
{
}

/// Column `c` of a sequence of rows.
pub open spec fn column_of(rows: Seq<Seq<Option<Cell>>>, c: int) -> Seq<Option<Cell>> {
    rows.map_values(|row: Seq<Option<Cell>>| row[c])
}

/// Rows can be ingested under `names` (given by each row's length): there is
/// at least one row, every row has one slot per name, and names are distinct.
pub open spec fn ingestible(names: Seq<Seq<char>>, row_lens: Seq<nat>) -> bool {
    &&& row_lens.len() > 0
    &&& forall|k: int| 0 <= k < row_lens.len() ==> #[trigger] row_lens[k] == names.len()
    &&& names.no_duplicates()
}

/// Whether `names` holds `name`.
pub fn contains_name(names: &Vec<String>, name: &str) -> (r: bool)
    ensures
        r == views(names@).contains(name@),
{
    let owned = name.to_owned();
    let mut i: usize = 0;
    while i < names.len()
        invariant
            owned@ == name@,
            i <= names@.len(),
            forall|j: int| 0 <= j < i ==> views(names@)[j] != name@,
        decreases names@.len() - i,
    {
        if names[i] == owned {
            assert(views(names@)[i as int] == name@);
            return true;
        }
        i = i + 1;
    }
    false
}

/// Whether no name occurs twice.
pub(crate) fn names_distinct(names: &Vec<String>) -> (r: bool)
    ensures
        r == views(names@).no_duplicates(),
{
    let mut i: usize = 0;
    while i < names.len()
        invariant
            i <= names@.len(),
            forall|a: int, b: int| 0 <= a < b < i ==> views(names@)[a] != views(names@)[b],
        decreases names@.len() - i,
    {
        let mut j: usize = 0;
        while j < i
            invariant
                i < names@.len(),
                j <= i,
                forall|a: int, b: int| 0 <= a < b < i ==> views(names@)[a] != views(names@)[b],
                forall|a: int| 0 <= a < j ==> views(names@)[a] != views(names@)[i as int],
            decreases i - j,
        {
            if names[j] == names[i] {
                assert(views(names@)[j as int] == views(names@)[i as int]);
                return false;
            }
            j = j + 1;
        }
        i = i + 1;
    }
    true
}

impl TinyColumn {
    /// A copy of this column.
    pub fn clone_column(&self) -> (r: Self)
        ensures
            r.cells() == self.cells(),
            r.shape() == self.shape(),
    {
        let n = self.len();
        let mut idx: Vec<usize> = Vec::new();
        let mut i: usize = 0;
        while i < n
            invariant
                n == self.cells().len(),
                i <= n,
                idx@ == Seq::new(i as nat, |k: int| k as usize),
            decreases n - i,
        {
            idx.push(i);
            i = i + 1;
            assert(idx@ =~= Seq::new(i as nat, |k: int| k as usize));
        }
        let r = self.gather(idx.as_slice());
        assert(r.cells() =~= self.cells());
        r
    }
}

/// Ingesting rows and reading them back gives the same rows, value for value.
pub proof fn round_trip(t: TinyFrame, names: Seq<Seq<char>>, rows: Seq<Seq<Option<Cell>>>)
    requires
        t.ingested(names, rows),
        forall|k: int| 0 <= k < rows.len() ==> (#[trigger] rows[k]).len() == names.len(),
    ensures
        t.rows() == rows,
{
    assert forall|r: int| 0 <= r < rows.len() implies #[trigger] t.rows()[r] == rows[r] by {
        assert forall|c: int| 0 <= c < names.len() implies t.rows()[r][c] == rows[r][c] by {
            assert(t.col(c).cells() == column_of(rows, c));
        }
        assert(t.rows()[r] =~= rows[r]);
    }
    assert(t.rows() =~= rows);
}

/// Taking every row of a table, in order, reproduces its rows.
pub proof fn pick_all_rows(t: TinyFrame, u: TinyFrame)
    requires
        t.wf(),
        t.picks(all_rows(t.nrows()), u),
    ensures
        u.rows() == t.rows(),
        u.names_view() == t.names_view(),
{
    assert forall|r: int| 0 <= r < t.nrows() implies #[trigger] u.rows()[r] == t.rows()[r] by {
        assert forall|c: int| 0 <= c < t.ncols() implies u.rows()[r][c] == t.rows()[r][c] by {
            assert(u.cell(c, r) == t.cell(c, all_rows(t.nrows())[r]));
        }
        assert(u.rows()[r] =~= t.rows()[r]);
    }
    assert(u.rows() =~= t.rows());
}

} // verus!
