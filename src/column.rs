use vstd::prelude::*;

verus! {

/// The scalar kinds a column can hold.
#[derive(Debug, Clone, Copy, PartialEq, Eq, Structural)]
pub enum Kind {
    Int,
    Float,
    Str,
    Bool,
    Opaque,
}

/// The mathematical value of a scalar: a float is its IEEE-754 bit pattern,
/// a string its characters, an opaque value its handle into the host's table.
pub enum Cell {
    Int(i64),
    Float(u64),
    Str(Seq<char>),
    Bool(bool),
    Opaque(u64),
}

pub open spec fn cell_kind(c: Cell) -> Kind {
    match c {
        Cell::Int(_) => Kind::Int,
        Cell::Float(_) => Kind::Float,
        Cell::Str(_) => Kind::Str,
        Cell::Bool(_) => Kind::Bool,
        Cell::Opaque(_) => Kind::Opaque,
    }
}

/// One scalar of a mixed column, or one value handed to the engine.
/// `Float` carries the IEEE-754 binary64 bit pattern of the number.
#[derive(Debug, Clone)]
pub enum ValueEnum {
    Int(i64),
    Float(u64),
    Str(String),
    Bool(bool),
    Opaque(u64),
}

impl View for ValueEnum {
    type V = Cell;

    open spec fn view(&self) -> Cell {
        match self {
            ValueEnum::Int(x) => Cell::Int(*x),
            ValueEnum::Float(x) => Cell::Float(*x),
            ValueEnum::Str(s) => Cell::Str(s@),
            ValueEnum::Bool(b) => Cell::Bool(*b),
            ValueEnum::Opaque(h) => Cell::Opaque(*h),
        }
    }
}

/// The value of a slot that may be null.
pub open spec fn opt_view(o: Option<ValueEnum>) -> Option<Cell> {
    match o {
        Some(v) => Some(v@),
        None => None,
    }
}

/// The values of a sequence of slots.
pub open spec fn opt_views(s: Seq<Option<ValueEnum>>) -> Seq<Option<Cell>> {
    s.map_values(|o: Option<ValueEnum>| opt_view(o))
}

impl ValueEnum {
    /// The kind of this value.
    pub fn kind(&self) -> (r: Kind)
        ensures
            r == cell_kind(self@),
    {
        match self {
            ValueEnum::Int(_) => Kind::Int,
            ValueEnum::Float(_) => Kind::Float,
            ValueEnum::Str(_) => Kind::Str,
            ValueEnum::Bool(_) => Kind::Bool,
            ValueEnum::Opaque(_) => Kind::Opaque,
        }
    }

    /// A copy of this value.
    pub fn duplicate(&self) -> (r: Self)
        ensures
            r@ == self@,
    {
        match self {
            ValueEnum::Int(x) => ValueEnum::Int(*x),
            ValueEnum::Float(x) => ValueEnum::Float(*x),
            ValueEnum::Str(s) => ValueEnum::Str(s.clone()),
            ValueEnum::Bool(b) => ValueEnum::Bool(*b),
            ValueEnum::Opaque(h) => ValueEnum::Opaque(*h),
        }
    }
}

/// A copy of a slot that may be null.
pub fn duplicate_opt(o: &Option<ValueEnum>) -> (r: Option<ValueEnum>)
    ensures
        opt_view(r) == opt_view(*o),
{
    match o {
        Some(v) => Some(v.duplicate()),
        None => None,
    }
}

/// The representation of a column: its kind (`None` for a mixed column) and
/// whether it may hold nulls.
pub struct Shape {
    pub kind: Option<Kind>,
    pub nullable: bool,
}

/// Whether a column of shape `s` can store `c`.
pub open spec fn accepts(s: Shape, c: Option<Cell>) -> bool {
    match c {
        None => s.nullable,
        Some(x) => match s.kind {
            Some(k) => cell_kind(x) == k,
            None => true,
        },
    }
}

/// A column: one homogeneous vector per (kind, nullable) pair, plus the two
/// mixed representations for heterogeneous data.
#[derive(Debug, Clone)]
pub enum TinyColumn {
    Int(Vec<i64>),
    Float(Vec<u64>),
    Str(Vec<String>),
    Bool(Vec<bool>),
    OptInt(Vec<Option<i64>>),
    OptFloat(Vec<Option<u64>>),
    OptStr(Vec<Option<String>>),
    OptBool(Vec<Option<bool>>),
    Mixed(Vec<ValueEnum>),
    OptMixed(Vec<Option<ValueEnum>>),
    Opaque(Vec<u64>),
    OptOpaque(Vec<Option<u64>>),
}

impl TinyColumn {
    /// The column's slots, `None` for null.
    pub open spec fn cells(&self) -> Seq<Option<Cell>> {
        match self {
            TinyColumn::Int(v) => v@.map_values(|x: i64| Some(Cell::Int(x))),
            TinyColumn::Float(v) => v@.map_values(|x: u64| Some(Cell::Float(x))),
            TinyColumn::Str(v) => v@.map_values(|x: String| Some(Cell::Str(x@))),
            TinyColumn::Bool(v) => v@.map_values(|x: bool| Some(Cell::Bool(x))),
            TinyColumn::OptInt(v) => v@.map_values(
                |x: Option<i64>|
                    match x {
                        Some(y) => Some(Cell::Int(y)),
                        None => None,
                    },
            ),
            TinyColumn::OptFloat(v) => v@.map_values(
                |x: Option<u64>|
                    match x {
                        Some(y) => Some(Cell::Float(y)),
                        None => None,
                    },
            ),
            TinyColumn::OptStr(v) => v@.map_values(
                |x: Option<String>|
                    match x {
                        Some(y) => Some(Cell::Str(y@)),
                        None => None,
                    },
            ),
            TinyColumn::OptBool(v) => v@.map_values(
                |x: Option<bool>|
                    match x {
                        Some(y) => Some(Cell::Bool(y)),
                        None => None,
                    },
            ),
            TinyColumn::Mixed(v) => v@.map_values(|x: ValueEnum| Some(x@)),
            TinyColumn::OptMixed(v) => opt_views(v@),
            TinyColumn::Opaque(v) => v@.map_values(|x: u64| Some(Cell::Opaque(x))),
            TinyColumn::OptOpaque(v) => v@.map_values(
                |x: Option<u64>|
                    match x {
                        Some(y) => Some(Cell::Opaque(y)),
                        None => None,
                    },
            ),
        }
    }

    /// The column's representation.
    pub open spec fn shape(&self) -> Shape {
        match self {
            TinyColumn::Int(_) => Shape { kind: Some(Kind::Int), nullable: false },
            TinyColumn::Float(_) => Shape { kind: Some(Kind::Float), nullable: false },
            TinyColumn::Str(_) => Shape { kind: Some(Kind::Str), nullable: false },
            TinyColumn::Bool(_) => Shape { kind: Some(Kind::Bool), nullable: false },
            TinyColumn::OptInt(_) => Shape { kind: Some(Kind::Int), nullable: true },
            TinyColumn::OptFloat(_) => Shape { kind: Some(Kind::Float), nullable: true },
            TinyColumn::OptStr(_) => Shape { kind: Some(Kind::Str), nullable: true },
            TinyColumn::OptBool(_) => Shape { kind: Some(Kind::Bool), nullable: true },
            TinyColumn::Mixed(_) => Shape { kind: None, nullable: false },
            TinyColumn::OptMixed(_) => Shape { kind: None, nullable: true },
            TinyColumn::Opaque(_) => Shape { kind: Some(Kind::Opaque), nullable: false },
            TinyColumn::OptOpaque(_) => Shape { kind: Some(Kind::Opaque), nullable: true },
        }
    }

    /// An empty column of the given representation.
    pub fn empty_of(kind: Option<Kind>, nullable: bool) -> (r: Self)
        ensures
            r.cells() == Seq::<Option<Cell>>::empty(),
            r.shape() == (Shape { kind, nullable }),
    {
        let r = match (kind, nullable) {
            (Some(Kind::Int), false) => TinyColumn::Int(Vec::new()),
            (Some(Kind::Float), false) => TinyColumn::Float(Vec::new()),
            (Some(Kind::Str), false) => TinyColumn::Str(Vec::new()),
            (Some(Kind::Bool), false) => TinyColumn::Bool(Vec::new()),
            (Some(Kind::Opaque), false) => TinyColumn::Opaque(Vec::new()),
            (Some(Kind::Int), true) => TinyColumn::OptInt(Vec::new()),
            (Some(Kind::Float), true) => TinyColumn::OptFloat(Vec::new()),
            (Some(Kind::Str), true) => TinyColumn::OptStr(Vec::new()),
            (Some(Kind::Bool), true) => TinyColumn::OptBool(Vec::new()),
            (Some(Kind::Opaque), true) => TinyColumn::OptOpaque(Vec::new()),
            (None, false) => TinyColumn::Mixed(Vec::new()),
            (None, true) => TinyColumn::OptMixed(Vec::new()),
        };
        assert(r.cells() =~= Seq::<Option<Cell>>::empty());
        r
    }

    /// The column's kind (`None` when mixed) and whether it is nullable.
    pub fn representation(&self) -> (r: (Option<Kind>, bool))
        ensures
            r.0 == self.shape().kind,
            r.1 == self.shape().nullable,
    {
        match self {
            TinyColumn::Int(_) => (Some(Kind::Int), false),
            TinyColumn::Float(_) => (Some(Kind::Float), false),
            TinyColumn::Str(_) => (Some(Kind::Str), false),
            TinyColumn::Bool(_) => (Some(Kind::Bool), false),
            TinyColumn::OptInt(_) => (Some(Kind::Int), true),
            TinyColumn::OptFloat(_) => (Some(Kind::Float), true),
            TinyColumn::OptStr(_) => (Some(Kind::Str), true),
            TinyColumn::OptBool(_) => (Some(Kind::Bool), true),
            TinyColumn::Mixed(_) => (None, false),
            TinyColumn::OptMixed(_) => (None, true),
            TinyColumn::Opaque(_) => (Some(Kind::Opaque), false),
            TinyColumn::OptOpaque(_) => (Some(Kind::Opaque), true),
        }
    }

    /// An empty column of the same representation as this one.
    pub fn empty_like(&self) -> (r: Self)
        ensures
            r.cells() == Seq::<Option<Cell>>::empty(),
            r.shape() == self.shape(),
    {
        match self {
            TinyColumn::Int(_) => Self::empty_of(Some(Kind::Int), false),
            TinyColumn::Float(_) => Self::empty_of(Some(Kind::Float), false),
            TinyColumn::Str(_) => Self::empty_of(Some(Kind::Str), false),
            TinyColumn::Bool(_) => Self::empty_of(Some(Kind::Bool), false),
            TinyColumn::OptInt(_) => Self::empty_of(Some(Kind::Int), true),
            TinyColumn::OptFloat(_) => Self::empty_of(Some(Kind::Float), true),
            TinyColumn::OptStr(_) => Self::empty_of(Some(Kind::Str), true),
            TinyColumn::OptBool(_) => Self::empty_of(Some(Kind::Bool), true),
            TinyColumn::Mixed(_) => Self::empty_of(None, false),
            TinyColumn::OptMixed(_) => Self::empty_of(None, true),
            TinyColumn::Opaque(_) => Self::empty_of(Some(Kind::Opaque), false),
            TinyColumn::OptOpaque(_) => Self::empty_of(Some(Kind::Opaque), true),
        }
    }

    /// Number of rows.
    pub fn len(&self) -> (r: usize)
        ensures
            r == self.cells().len(),
    {
        match self {
            TinyColumn::Int(v) => v.len(),
            TinyColumn::Float(v) => v.len(),
            TinyColumn::Str(v) => v.len(),
            TinyColumn::Bool(v) => v.len(),
            TinyColumn::OptInt(v) => v.len(),
            TinyColumn::OptFloat(v) => v.len(),
            TinyColumn::OptStr(v) => v.len(),
            TinyColumn::OptBool(v) => v.len(),
            TinyColumn::Mixed(v) => v.len(),
            TinyColumn::OptMixed(v) => v.len(),
            TinyColumn::Opaque(v) => v.len(),
            TinyColumn::OptOpaque(v) => v.len(),
        }
    }

    /// The value at row `i`; `None` for a null slot or past the end.
    pub fn get(&self, i: usize) -> (r: Option<ValueEnum>)
        ensures
            i < self.cells().len() ==> opt_view(r) == self.cells()[i as int],
            i >= self.cells().len() ==> r is None,
    {
        if i >= self.len() {
            return None;
        }
        match self {
            TinyColumn::Int(v) => Some(ValueEnum::Int(v[i])),
            TinyColumn::Float(v) => Some(ValueEnum::Float(v[i])),
            TinyColumn::Str(v) => Some(ValueEnum::Str(v[i].clone())),
            TinyColumn::Bool(v) => Some(ValueEnum::Bool(v[i])),
            TinyColumn::OptInt(v) => match v[i] {
                Some(x) => Some(ValueEnum::Int(x)),
                None => None,
            },
            TinyColumn::OptFloat(v) => match v[i] {
                Some(x) => Some(ValueEnum::Float(x)),
                None => None,
            },
            TinyColumn::OptStr(v) => match &v[i] {
                Some(x) => Some(ValueEnum::Str(x.clone())),
                None => None,
            },
            TinyColumn::OptBool(v) => match v[i] {
                Some(x) => Some(ValueEnum::Bool(x)),
                None => None,
            },
            TinyColumn::Mixed(v) => Some(v[i].duplicate()),
            TinyColumn::OptMixed(v) => duplicate_opt(&v[i]),
            TinyColumn::Opaque(v) => Some(ValueEnum::Opaque(v[i])),
            TinyColumn::OptOpaque(v) => match v[i] {
                Some(x) => Some(ValueEnum::Opaque(x)),
                None => None,
            },
        }
    }

    /// Whether row `i` holds a value (a row of a non-nullable column always does).
    pub fn is_present(&self, i: usize) -> (r: bool)
        requires
            i < self.cells().len(),
        ensures
            r == self.cells()[i as int] is Some,
    {
        match self {
            TinyColumn::OptInt(v) => v[i].is_some(),
            TinyColumn::OptFloat(v) => v[i].is_some(),
            TinyColumn::OptStr(v) => v[i].is_some(),
            TinyColumn::OptBool(v) => v[i].is_some(),
            TinyColumn::OptMixed(v) => v[i].is_some(),
            TinyColumn::OptOpaque(v) => v[i].is_some(),
            _ => true,
        }
    }

    /// Append one slot; the representation must be able to store it.
    pub fn push_value(&mut self, value: &Option<ValueEnum>)
        requires
            accepts(old(self).shape(), opt_view(*value)),
        ensures
            final(self).cells() == old(self).cells().push(opt_view(*value)),
            final(self).shape() == old(self).shape(),
    {
        let ghost before = self.cells();
        match self {
            TinyColumn::Int(v) => {
                if let Some(ValueEnum::Int(x)) = value {
                    v.push(*x);
                }
            },
            TinyColumn::Float(v) => {
                if let Some(ValueEnum::Float(x)) = value {
                    v.push(*x);
                }
            },
            TinyColumn::Str(v) => {
                if let Some(ValueEnum::Str(x)) = value {
                    v.push(x.clone());
                }
            },
            TinyColumn::Bool(v) => {
                if let Some(ValueEnum::Bool(x)) = value {
                    v.push(*x);
                }
            },
            TinyColumn::Opaque(v) => {
                if let Some(ValueEnum::Opaque(x)) = value {
                    v.push(*x);
                }
            },
            TinyColumn::OptInt(v) => {
                match value {
                    Some(ValueEnum::Int(x)) => v.push(Some(*x)),
                    _ => v.push(None),
                }
            },
            TinyColumn::OptFloat(v) => {
                match value {
                    Some(ValueEnum::Float(x)) => v.push(Some(*x)),
                    _ => v.push(None),
                }
            },
            TinyColumn::OptStr(v) => {
                match value {
                    Some(ValueEnum::Str(x)) => v.push(Some(x.clone())),
                    _ => v.push(None),
                }
            },
            TinyColumn::OptBool(v) => {
                match value {
                    Some(ValueEnum::Bool(x)) => v.push(Some(*x)),
                    _ => v.push(None),
                }
            },
            TinyColumn::OptOpaque(v) => {
                match value {
                    Some(ValueEnum::Opaque(x)) => v.push(Some(*x)),
                    _ => v.push(None),
                }
            },
            TinyColumn::Mixed(v) => {
                if let Some(x) = value {
                    v.push(x.duplicate());
                }
            },
            TinyColumn::OptMixed(v) => {
                v.push(duplicate_opt(value));
            },
        }
        assert(self.cells() =~= before.push(opt_view(*value)));
    }

    /// Append row `i` of `source`, which must be storable here.
    pub fn push_from(&mut self, source: &TinyColumn, i: usize)
        requires
            i < source.cells().len(),
            accepts(old(self).shape(), source.cells()[i as int]),
        ensures
            final(self).cells() == old(self).cells().push(source.cells()[i as int]),
            final(self).shape() == old(self).shape(),
    {
        let v = source.get(i);
        self.push_value(&v);
    }

    /// The rows at `indices`, in that order, in the same representation.
    pub fn gather(&self, indices: &[usize]) -> (r: Self)
        requires
            forall|k: int| 0 <= k < indices@.len() ==> #[trigger] indices@[k] < self.cells().len(),
        ensures
            r.shape() == self.shape(),
            r.cells() == indices@.map_values(|j: usize| self.cells()[j as int]),
    {
        let mut out = self.empty_like();
        let mut k: usize = 0;
        while k < indices.len()
            invariant
                k <= indices@.len(),
                forall|m: int| 0 <= m < indices@.len() ==> #[trigger] indices@[m] < self.cells().len(),
                out.shape() == self.shape(),
                out.cells() == indices@.take(k as int).map_values(|j: usize| self.cells()[j as int]),
            decreases indices@.len() - k,
        {
            let j = indices[k];
            proof {
                assert(accepts(self.shape(), self.cells()[j as int])) by {
                    self.lemma_accepts_own(j as int);
                }
            }
            out.push_from(self, j);
            k = k + 1;
            assert(out.cells() =~= indices@.take(k as int).map_values(|j: usize| self.cells()[j as int]));
        }
        assert(indices@.take(indices@.len() as int) =~= indices@);
        out
    }

    /// The rows at `indices`, in that order, with a null where an index is
    /// absent. The column becomes nullable exactly when a null is inserted
    /// into a column that was not.
    pub fn gather_opt(&self, indices: &[Option<usize>]) -> (r: Self)
        requires
            forall|k: int| 0 <= k < indices@.len() && (#[trigger] indices@[k]) is Some ==> indices@[k]->Some_0 < self.cells().len(),
        ensures
            r.shape().kind == self.shape().kind,
            r.shape().nullable == (self.shape().nullable || has_absent(indices@)),
            r.cells() == indices@.map_values(|o: Option<usize>| slot_at(self.cells(), o)),
    {
        let mut absent = false;
        let mut k: usize = 0;
        while k < indices.len()
            invariant
                k <= indices@.len(),
                absent == has_absent(indices@.take(k as int)),
            decreases indices@.len() - k,
        {
            proof {
                assert(indices@.take(k as int + 1) =~= indices@.take(k as int).push(indices@[k as int]));
                if has_absent(indices@.take(k as int)) {
                    let j = choose|j: int| 0 <= j < k && indices@.take(k as int)[j] is None;
                    assert(indices@.take(k as int + 1)[j] is None);
                }
            }
            if indices[k].is_none() {
                absent = true;
                assert(indices@.take(k as int + 1)[k as int] is None);
            }
            k = k + 1;
        }
        assert(indices@.take(indices@.len() as int) =~= indices@);
        let ghost sh = self.shape();
        let (kind, nullable) = self.representation();
        let mut out = TinyColumn::empty_of(kind, nullable || absent);
        let mut k: usize = 0;
        while k < indices.len()
            invariant
                forall|m: int| 0 <= m < indices@.len() && (#[trigger] indices@[m]) is Some ==> indices@[m]->Some_0 < self.cells().len(),
                sh == self.shape(),
                absent == has_absent(indices@),
                out.shape() == (Shape { kind: sh.kind, nullable: sh.nullable || absent }),
                k <= indices@.len(),
                out.cells() == indices@.take(k as int).map_values(|o: Option<usize>| slot_at(self.cells(), o)),
            decreases indices@.len() - k,
        {
            match indices[k] {
                Some(j) => {
                    proof {
                        self.lemma_accepts_own(j as int);
                    }
                    out.push_from(self, j);
                },
                None => {
                    assert(has_absent(indices@)) by {
                        assert(indices@[k as int] is None);
                    }
                    out.push_value(&None);
                },
            }
            k = k + 1;
            assert(out.cells() =~= indices@.take(k as int).map_values(|o: Option<usize>| slot_at(self.cells(), o)));
        }
        assert(indices@.take(indices@.len() as int) =~= indices@);
        out
    }

    /// Append every row of `other`, which has the same representation.
    pub fn append_column(&mut self, other: &TinyColumn)
        requires
            other.shape() == old(self).shape(),
        ensures
            final(self).cells() == old(self).cells() + other.cells(),
            final(self).shape() == old(self).shape(),
    {
        let n = other.len();
        let ghost start = self.cells();
        let mut i: usize = 0;
        while i < n
            invariant
                n == other.cells().len(),
                other.shape() == self.shape(),
                i <= n,
                self.cells() == start + other.cells().take(i as int),
            decreases n - i,
        {
            proof {
                other.lemma_accepts_own(i as int);
            }
            self.push_from(other, i);
            i = i + 1;
            assert(self.cells() =~= start + other.cells().take(i as int));
        }
        assert(other.cells().take(n as int) =~= other.cells());
    }

    /// Every slot of a column fits its own representation.
    pub proof fn lemma_accepts_own(&self, j: int)
        requires
            0 <= j < self.cells().len(),
        ensures
            accepts(self.shape(), self.cells()[j]),
    {
    }
}

/// Some index of `s` is absent.
pub open spec fn has_absent(s: Seq<Option<usize>>) -> bool {
    exists|i: int| 0 <= i < s.len() && s[i] is None
}

/// The slot an optional index names: the slot itself, or a null.
pub open spec fn slot_at(cells: Seq<Option<Cell>>, o: Option<usize>) -> Option<Cell> {
    match o {
        Some(j) => cells[j as int],
        None => None,
    }
}

/// A cursor over the slots of a column, from the first row.
pub struct TinyColumnIter<'a> {
    pub column: &'a TinyColumn,
    pub index: usize,
}

impl<'a> TinyColumnIter<'a> {
    /// The next slot and the cursor moved past it, or `None` at the end.
    pub fn next(&mut self) -> (r: Option<Option<ValueEnum>>)
        ensures
            final(self).column == old(self).column,
            old(self).index < old(self).column.cells().len() ==> {
                &&& final(self).index == old(self).index + 1
                &&& r matches Some(v) && opt_view(v) == old(self).column.cells()[old(self).index as int]
            },
            old(self).index >= old(self).column.cells().len() ==> r is None && final(self).index == old(self).index,
    {
        if self.index >= self.column.len() {
            return None;
        }
        let v = self.column.get(self.index);
        self.index = self.index + 1;
        Some(v)
    }
}

impl TinyColumn {
    /// A cursor over the slots, from the first row.
    pub fn iter(&self) -> (r: TinyColumnIter<'_>)
        ensures
            r.index == 0,
            r.column == self,
    {
        TinyColumnIter { column: self, index: 0 }
    }
}

/// `s` holds a null.
pub open spec fn has_null(s: Seq<Option<Cell>>) -> bool {
    exists|i: int| 0 <= i < s.len() && s[i] is None
}

/// Every value of `s` is of kind `k`, and there is at least one.
pub open spec fn only_kind(s: Seq<Option<Cell>>, k: Kind) -> bool {
    &&& exists|i: int| 0 <= i < s.len() && s[i] is Some
    &&& forall|i: int| 0 <= i < s.len() && s[i] is Some ==> cell_kind(#[trigger] s[i]->Some_0) == k
}

/// The representation inferred for a column's slots: one kind and no null
/// gives the plain typed column; one kind and some null its nullable form;
/// otherwise a mixed column, nullable when a null was seen.
pub open spec fn inferred_shape(s: Seq<Option<Cell>>) -> Shape {
    if exists|k: Kind| only_kind(s, k) {
        Shape { kind: Some(choose|k: Kind| only_kind(s, k)), nullable: has_null(s) }
    } else {
        Shape { kind: None, nullable: has_null(s) }
    }
}

/// The kind of a nonempty slot.
fn slot_kind(o: &Option<ValueEnum>) -> (r: Option<Kind>)
    ensures
        match opt_view(*o) {
            Some(c) => r == Some(cell_kind(c)),
            None => r is None,
        },
{
    match o {
        Some(v) => Some(v.kind()),
        None => None,
    }
}

/// Build a column from its slots, choosing the narrowest representation.
pub fn infer_column(values: &Vec<Option<ValueEnum>>) -> (r: TinyColumn)
    ensures
        r.cells() == opt_views(values@),
        r.shape() == inferred_shape(opt_views(values@)),
{
    let ghost s = opt_views(values@);
    let mut seen: Option<Kind> = None;
    let mut several = false;
    let mut nulls = false;
    let mut i: usize = 0;
    while i < values.len()
        invariant
            s == opt_views(values@),
            i <= values@.len(),
            nulls == has_null(s.take(i as int)),
            seen is None ==> forall|j: int| 0 <= j < i ==> s[j] is None,
            seen is Some && !several ==> only_kind(s.take(i as int), seen->Some_0),
            several ==> forall|k: Kind| !only_kind(s.take(i as int), k),
            several ==> exists|j: int| 0 <= j < i && s[j] is Some,
        decreases values@.len() - i,
    {
        let ghost t = s.take(i as int);
        let ghost t2 = s.take(i as int + 1);
        assert(t2 =~= t.push(s[i as int]));
        match slot_kind(&values[i]) {
            None => {
                nulls = true;
                assert(t2[i as int] is None);
            },
            Some(k) => {
                match seen {
                    None => {
                        seen = Some(k);
                        assert(t2[i as int] is Some);
                    },
                    Some(k0) => {
                        if k0 != k && !several {
                            several = true;
                            assert forall|kk: Kind| !only_kind(t2, kk) by {
                                let j0 = choose|j: int| 0 <= j < t.len() && t[j] is Some;
                                assert(t2[j0] == t[j0]);
                                assert(cell_kind(t2[j0]->Some_0) == k0);
                                assert(cell_kind(t2[i as int]->Some_0) == k);
                            }
                        }
                    },
                }
            },
        }
        proof {
            if nulls {
                if !has_null(t2) {
                    if has_null(t) {
                        let j = choose|j: int| 0 <= j < t.len() && t[j] is None;
                        assert(t2[j] is None);
                    }
                }
            }
            if has_null(t2) && !has_null(t) {
                let j = choose|j: int| 0 <= j < t2.len() && t2[j] is None;
                assert(j == i);
            }
            if several {
                assert forall|kk: Kind| !only_kind(t2, kk) by {
                    if only_kind(t2, kk) {
                        let j0 = choose|j: int| 0 <= j < i && s[j] is Some;
                        assert(t[j0] == t2[j0]);
                        assert(only_kind(t, kk));
                    }
                }
            }
        }
        i = i + 1;
    }
    assert(s.take(values@.len() as int) =~= s);
    let shape = Shape { kind: if several { None } else { seen }, nullable: nulls };
    proof {
        if seen is None {
            assert forall|k: Kind| !only_kind(s, k) by {}
        }
        if seen is Some && !several {
            let k0 = seen->Some_0;
            assert(only_kind(s, k0));
            assert forall|k: Kind| only_kind(s, k) implies k == k0 by {
                let j = choose|j: int| 0 <= j < s.len() && s[j] is Some;
                assert(cell_kind(s[j]->Some_0) == k);
            }
        }
    }
    let mut out = TinyColumn::empty_of(shape.kind, shape.nullable);
    let mut i: usize = 0;
    while i < values.len()
        invariant
            s == opt_views(values@),
            i <= values@.len(),
            out.shape() == shape,
            shape == inferred_shape(s),
            out.cells() == s.take(i as int),
        decreases values@.len() - i,
    {
        proof {
            if s[i as int] is None {
                assert(has_null(s));
            } else if shape.kind is Some {
                let k = choose|k: Kind| only_kind(s, k);
                assert(only_kind(s, k));
            }
        }
        out.push_value(&values[i]);
        i = i + 1;
        assert(out.cells() =~= s.take(i as int));
    }
    assert(s.take(values@.len() as int) =~= s);
    out
}

} // verus!
