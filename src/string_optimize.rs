use vstd::prelude::*;
use vstd::string::StringSliceAdditionalSpecFns;

verus! {

/// The pool after interning `s`: unchanged if it already holds `s`, else
/// `s` appended under the next id.
pub open spec fn intern_one(pool: Seq<Seq<char>>, s: Seq<char>) -> Seq<Seq<char>> {
    if pool.contains(s) {
        pool
    } else {
        pool.push(s)
    }
}

/// The pool after interning each string of `ss` in order.
pub open spec fn interned(pool: Seq<Seq<char>>, ss: Seq<Seq<char>>) -> Seq<Seq<char>>
    decreases ss.len(),
{
    if ss.len() == 0 {
        pool
    } else {
        intern_one(interned(pool, ss.drop_last()), ss.last())
    }
}

/// The strings that `ids` name in `pool`, skipping ids it does not hold.
pub open spec fn restored(pool: Seq<Seq<char>>, ids: Seq<int>) -> Seq<Seq<char>>
    decreases ids.len(),
{
    if ids.len() == 0 {
        Seq::empty()
    } else {
        let front = restored(pool, ids.drop_last());
        if 0 <= ids.last() < pool.len() {
            front.push(pool[ids.last()])
        } else {
            front
        }
    }
}

/// The character sequences of a sequence of strings.
pub open spec fn views(ss: Seq<String>) -> Seq<Seq<char>> {
    ss.map_values(|s: String| s@)
}

/// Length in UTF-8 bytes.
pub open spec fn byte_len(s: Seq<char>) -> int {
    vstd::utf8::encode_utf8(s).len() as int
}

/// Total length in UTF-8 bytes.
pub open spec fn total_bytes(ss: Seq<Seq<char>>) -> int
    decreases ss.len(),
{
    if ss.len() == 0 {
        0
    } else {
        total_bytes(ss.drop_last()) + byte_len(ss.last())
    }
}

/// `x`, or `usize::MAX` where it does not fit.
pub open spec fn saturate(x: int) -> int {
    if x > usize::MAX {
        usize::MAX as int
    } else {
        x
    }
}

/// The estimated footprint of a pool: each string is held twice (by name and
/// by id) plus four bytes per id.
pub open spec fn pool_footprint(pool: Seq<Seq<char>>) -> int {
    saturate(2 * total_bytes(pool) + 4 * pool.len() as int)
}

/// Number of distinct ids a 32-bit pool can hand out.
pub open spec fn id_space() -> int {
    0x1_0000_0000
}

proof fn lemma_interned_step(pool: Seq<Seq<char>>, ss: Seq<Seq<char>>, i: int)
    requires
        0 <= i < ss.len(),
    ensures
        interned(pool, ss.take(i + 1)) == intern_one(interned(pool, ss.take(i)), ss[i]),
{
    assert(ss.take(i + 1).drop_last() =~= ss.take(i));
}

/// Interning more strings only appends to the pool.
proof fn lemma_interned_grows(pool: Seq<Seq<char>>, ss: Seq<Seq<char>>, i: int)
    requires
        0 <= i <= ss.len(),
    ensures
        interned(pool, ss.take(i)).len() <= interned(pool, ss).len(),
        interned(pool, ss) .take(interned(pool, ss.take(i)).len() as int) == interned(pool, ss.take(i)),
    decreases ss.len() - i,
{
    if i < ss.len() {
        lemma_interned_grows(pool, ss, i + 1);
        lemma_interned_step(pool, ss, i);
        let a = interned(pool, ss.take(i));
        let b = interned(pool, ss.take(i + 1));
        let z = interned(pool, ss);
        assert(b.take(a.len() as int) =~= a);
        assert(z.take(a.len() as int) =~= b.take(a.len() as int));
    } else {
        assert(ss.take(i) =~= ss);
        assert(interned(pool, ss).take(interned(pool, ss).len() as int) =~= interned(pool, ss));
    }
}

proof fn lemma_restored_step(pool: Seq<Seq<char>>, ids: Seq<int>, i: int)
    requires
        0 <= i < ids.len(),
    ensures
        restored(pool, ids.take(i + 1)) == (if 0 <= ids[i] < pool.len() {
            restored(pool, ids.take(i)).push(pool[ids[i]])
        } else {
            restored(pool, ids.take(i))
        }),
{
    assert(ids.take(i + 1).drop_last() =~= ids.take(i));
}

proof fn lemma_total_bytes_step(ss: Seq<Seq<char>>, i: int)
    requires
        0 <= i < ss.len(),
    ensures
        total_bytes(ss.take(i + 1)) == total_bytes(ss.take(i)) + byte_len(ss[i]),
{
    assert(ss.take(i + 1).drop_last() =~= ss.take(i));
}

/// Saturating a partial sum first does not change a saturated total.
proof fn lemma_saturate_add(a: int, b: int)
    requires
        b >= 0,
    ensures
        saturate(saturate(a) + b) == saturate(a + b),
{
}

/// `4 * n`, saturated at `usize::MAX`.
fn times_four(n: usize) -> (r: usize)
    ensures
        r == saturate(4 * n),
{
    if n > usize::MAX / 4 {
        usize::MAX
    } else {
        n * 4
    }
}

/// The total byte length of `ss`, saturated at `usize::MAX`.
fn saturated_bytes(ss: &[String], twice: bool) -> (r: usize)
    ensures
        r == saturate(if twice { 2 * total_bytes(views(ss@)) } else { total_bytes(views(ss@)) }),
{
    let mut acc: usize = 0;
    let mut i: usize = 0;
    while i < ss.len()
        invariant
            i <= ss@.len(),
            acc == saturate(if twice { 2 * total_bytes(views(ss@).take(i as int)) } else { total_bytes(views(ss@).take(i as int)) }),
        decreases ss@.len() - i,
    {
        let st = ss[i].as_str();
        let n = st.as_bytes().len();
        proof {
            assert(views(ss@)[i as int] == ss@[i as int]@);
            assert(n == st.spec_bytes().len());
            assert(n == byte_len(st@));
            lemma_total_bytes_step(views(ss@), i as int);
            let t = total_bytes(views(ss@).take(i as int));
            lemma_saturate_add(if twice { 2 * t } else { t }, n as int);
            lemma_saturate_add(2 * t + n, n as int);
        }
        acc = acc.saturating_add(n);
        if twice {
            acc = acc.saturating_add(n);
        }
        i = i + 1;
    }
    assert(views(ss@).take(ss@.len() as int) =~= views(ss@));
    acc
}

/// A string interner: each distinct string gets the next id, starting at 0.
#[derive(Clone)]
pub struct StringPool {
    strings: Vec<String>,
}

impl View for StringPool {
    type V = Seq<Seq<char>>;

    closed spec fn view(&self) -> Seq<Seq<char>> {
        views(self.strings@)
    }
}

impl StringPool {
    /// Well-formed: no string is held twice, and every id fits in 32 bits.
    pub open spec fn wf(&self) -> bool {
        self@.no_duplicates() && self@.len() <= id_space()
    }

    /// An empty pool.
    pub fn new() -> (r: Self)
        ensures
            r.wf(),
            r@ == Seq::<Seq<char>>::empty(),
    {
        let r = StringPool { strings: Vec::new() };
        assert(r@ =~= Seq::<Seq<char>>::empty());
        r
    }

    /// The id of `s`, interning it first if it is new.
    pub fn intern(&mut self, s: &str) -> (r: u32)
        requires
            old(self).wf(),
            intern_one(old(self)@, s@).len() <= id_space(),
        ensures
            final(self).wf(),
            final(self)@ == intern_one(old(self)@, s@),
            r < final(self)@.len(),
            final(self)@[r as int] == s@,
    {
        let owned = s.to_owned();
        let mut i: usize = 0;
        while i < self.strings.len()
            invariant
                self.strings@ == old(self).strings@,
                self.wf(),
                owned@ == s@,
                i <= self@.len(),
                self@.len() <= id_space(),
                forall|j: int| 0 <= j < i ==> self@[j] != s@,
            decreases self@.len() - i,
        {
            if self.strings[i] == owned {
                assert(self@[i as int] == s@);
                assert(self@.contains(s@));
                return i as u32;
            }
            i = i + 1;
        }
        assert(!self@.contains(s@));
        let ghost before = self@;
        self.strings.push(owned);
        assert(self@ =~= before.push(s@));
        proof {
            assert forall|a: int, b: int| 0 <= a < b < self@.len() implies self@[a] != self@[b] by {
                if b == before.len() {
                    assert(self@[a] == before[a]);
                }
            }
        }
        (self.strings.len() - 1) as u32
    }

    /// The string interned under `id`, if any.
    pub fn get(&self, id: u32) -> (r: Option<String>)
        ensures
            match r {
                Some(x) => id < self@.len() && x@ == self@[id as int],
                None => id >= self@.len(),
            },
    {
        if (id as usize) < self.strings.len() {
            Some(self.strings[id as usize].clone())
        } else {
            None
        }
    }

    /// Number of distinct strings interned.
    pub fn len(&self) -> (r: usize)
        ensures
            r == self@.len(),
    {
        self.strings.len()
    }

    /// The estimated footprint in bytes, saturated at `usize::MAX`.
    pub fn memory_usage(&self) -> (r: usize)
        ensures
            r == pool_footprint(self@),
    {
        let bytes = saturated_bytes(self.strings.as_slice(), true);
        let ids = times_four(self.strings.len());
        proof {
            lemma_saturate_add(2 * total_bytes(self@), 4 * self@.len() as int);
        }
        bytes.saturating_add(ids)
    }
}

/// A string column stored as ids into a pool.
#[derive(Clone)]
pub struct OptimizedStrColumn {
    ids: Vec<u32>,
    pool: StringPool,
}

impl View for OptimizedStrColumn {
    type V = Seq<Seq<char>>;

    closed spec fn view(&self) -> Seq<Seq<char>> {
        self.ids@.map_values(|id: u32| self.pool@[id as int])
    }
}

impl OptimizedStrColumn {
    /// Well-formed: the pool is, and every id names a string in it.
    pub closed spec fn wf(&self) -> bool {
        &&& self.pool.wf()
        &&& forall|i: int| 0 <= i < self.ids@.len() ==> #[trigger] self.ids@[i] < self.pool@.len()
    }

    /// The strings the column's pool holds.
    pub closed spec fn pool_view(&self) -> Seq<Seq<char>> {
        self.pool@
    }

    /// An empty column over `pool`.
    pub fn new(pool: StringPool) -> (r: Self)
        requires
            pool.wf(),
        ensures
            r.wf(),
            r@ == Seq::<Seq<char>>::empty(),
            r.pool_view() == pool@,
    {
        let r = OptimizedStrColumn { ids: Vec::new(), pool };
        assert(r@ =~= Seq::<Seq<char>>::empty());
        r
    }

    /// Append `s`, interning it in the pool.
    pub fn push(&mut self, s: &str)
        requires
            old(self).wf(),
            intern_one(old(self).pool_view(), s@).len() <= id_space(),
        ensures
            final(self).wf(),
            final(self)@ == old(self)@.push(s@),
            final(self).pool_view() == intern_one(old(self).pool_view(), s@),
    {
        let ghost before = self.pool@;
        let id = self.pool.intern(s);
        self.ids.push(id);
        proof {
            assert(self.pool@.take(before.len() as int) =~= before);
            assert forall|i: int| 0 <= i < self.ids@.len() implies #[trigger] self.ids@[i] < self.pool@.len() by {}
            assert forall|i: int| 0 <= i < old(self).ids@.len() implies self.pool@[old(self).ids@[i] as int] == before[old(self).ids@[i] as int] by {
                assert(self.ids@[i] == old(self).ids@[i]);
                assert(old(self).ids@[i] < before.len());
            }
            assert(self@ =~= old(self)@.push(s@));
        }
    }

    /// The string at `index`, if the column has that many rows.
    pub fn get(&self, index: usize) -> (r: Option<String>)
        requires
            self.wf(),
        ensures
            match r {
                Some(x) => index < self@.len() && x@ == self@[index as int],
                None => index >= self@.len(),
            },
    {
        if index < self.ids.len() {
            let id = self.ids[index];
            let r = self.pool.get(id);
            r
        } else {
            None
        }
    }

    /// Number of rows.
    pub fn len(&self) -> (r: usize)
        ensures
            r == self@.len(),
    {
        self.ids.len()
    }

    /// The estimated footprint: four bytes per row plus the pool's.
    pub fn memory_usage(&self) -> (r: usize)
        ensures
            r == saturate(4 * self@.len() + pool_footprint(self.pool_view())),
    {
        let rows = times_four(self.ids.len());
        let pool = self.pool.memory_usage();
        rows.saturating_add(pool)
    }

    /// A cursor over the rows, from the first.
    pub fn iter(&self) -> (r: OptimizedStrColumnIter<'_>)
        ensures
            r.index == 0,
            r.column == self,
    {
        OptimizedStrColumnIter { column: self, index: 0 }
    }

    /// The rows as plain strings.
    pub fn to_regular_strings(&self) -> (r: Vec<String>)
        requires
            self.wf(),
        ensures
            views(r@) == self@,
    {
        let mut out: Vec<String> = Vec::new();
        let mut i: usize = 0;
        while i < self.ids.len()
            invariant
                self.wf(),
                i <= self@.len(),
                views(out@) == self@.take(i as int),
            decreases self@.len() - i,
        {
            let id = self.ids[i];
            let s = self.pool.strings[id as usize].clone();
            assert(self@[i as int] == self.pool@[id as int]);
            assert(self.pool@[id as int] == self.pool.strings@[id as int]@);
            let ghost before = out@;
            out.push(s);
            assert(views(out@) =~= views(before).push(s@));
            i = i + 1;
            assert(views(out@) =~= self@.take(i as int));
        }
        assert(self@.take(self@.len() as int) =~= self@);
        out
    }
}

/// A cursor over the rows of an interned column.
pub struct OptimizedStrColumnIter<'a> {
    pub column: &'a OptimizedStrColumn,
    pub index: usize,
}

impl<'a> OptimizedStrColumnIter<'a> {
    /// The next row and the cursor moved past it, or `None` at the end.
    pub fn next(&mut self) -> (r: Option<Option<String>>)
        requires
            old(self).column.wf(),
        ensures
            final(self).column == old(self).column,
            old(self).index < old(self).column@.len() ==> {
                &&& final(self).index == old(self).index + 1
                &&& r matches Some(Some(x)) && x@ == old(self).column@[old(self).index as int]
            },
            old(self).index >= old(self).column@.len() ==> r is None && final(self).index
                == old(self).index,
    {
        if self.index >= self.column.len() {
            return None;
        }
        let row = self.column.get(self.index);
        self.index = self.index + 1;
        Some(row)
    }
}

/// Replaces repeated strings by ids into a shared pool.
pub struct StringDeduplicator {
    pool: StringPool,
}

impl StringDeduplicator {
    /// The strings interned so far.
    pub closed spec fn pool_view(&self) -> Seq<Seq<char>> {
        self.pool@
    }

    /// Well-formed: the pool is.
    pub closed spec fn wf(&self) -> bool {
        self.pool.wf()
    }

    /// A deduplicator with an empty pool.
    pub fn new() -> (r: Self)
        ensures
            r.wf(),
            r.pool_view() == Seq::<Seq<char>>::empty(),
    {
        StringDeduplicator { pool: StringPool::new() }
    }

    /// The id of each string, interning the new ones in order.
    pub fn deduplicate_strings(&mut self, strings: &[String]) -> (r: Vec<u32>)
        requires
            old(self).wf(),
            interned(old(self).pool_view(), views(strings@)).len() <= id_space(),
        ensures
            final(self).wf(),
            final(self).pool_view() == interned(old(self).pool_view(), views(strings@)),
            final(self).pool_view().no_duplicates(),
            final(self).pool_view().take(old(self).pool_view().len() as int) == old(self).pool_view(),
            r@.len() == strings@.len(),
            forall|i: int| 0 <= i < r@.len() ==> {
                &&& r@[i] < final(self).pool_view().len()
                &&& final(self).pool_view()[r@[i] as int] == strings@[i]@
            },
    {
        let ghost start = self.pool@;
        let ghost sv = views(strings@);
        let mut out: Vec<u32> = Vec::new();
        let mut i: usize = 0;
        while i < strings.len()
            invariant
                sv == views(strings@),
                i <= strings@.len(),
                self.pool.wf(),
                self.pool@ == interned(start, sv.take(i as int)),
                interned(start, sv).len() <= id_space(),
                out@.len() == i,
                forall|j: int| 0 <= j < i ==> {
                    &&& out@[j] < self.pool@.len()
                    &&& self.pool@[out@[j] as int] == strings@[j]@
                },
            decreases strings@.len() - i,
        {
            proof {
                lemma_interned_step(start, sv, i as int);
                lemma_interned_grows(start, sv, i as int + 1);
            }
            let ghost before = self.pool@;
            let id = self.pool.intern(strings[i].as_str());
            proof {
                assert(self.pool@.take(before.len() as int) =~= before);
                assert forall|j: int| 0 <= j < i implies self.pool@[out@[j] as int] == before[out@[j] as int] by {
                }
            }
            out.push(id);
            i = i + 1;
        }
        assert(sv.take(strings@.len() as int) =~= sv);
        proof {
            lemma_interned_grows(start, sv, 0);
            assert(sv.take(0) =~= Seq::<Seq<char>>::empty());
        }
        out
    }

    /// The strings the ids name, skipping ids the pool does not hold.
    pub fn restore_strings(&self, ids: &[u32]) -> (r: Vec<String>)
        ensures
            views(r@) == restored(self.pool_view(), ids@.map_values(|x: u32| x as int)),
    {
        let ghost iv = ids@.map_values(|x: u32| x as int);
        let mut out: Vec<String> = Vec::new();
        let mut i: usize = 0;
        while i < ids.len()
            invariant
                iv == ids@.map_values(|x: u32| x as int),
                i <= ids@.len(),
                views(out@) == restored(self.pool@, iv.take(i as int)),
            decreases ids@.len() - i,
        {
            proof {
                lemma_restored_step(self.pool@, iv, i as int);
            }
            match self.pool.get(ids[i]) {
                Some(s) => {
                    out.push(s);
                },
                None => {},
            }
            i = i + 1;
            assert(views(out@) =~= restored(self.pool@, iv.take(i as int)));
        }
        assert(iv.take(ids@.len() as int) =~= iv);
        out
    }

    /// Bytes saved by interning: the strings' total size less the pool's
    /// footprint, or 0 where the pool is the larger.
    pub fn memory_savings(&self, original_strings: &[String]) -> (r: usize)
        ensures
            r == (if saturate(total_bytes(views(original_strings@))) > pool_footprint(
                self.pool_view(),
            ) {
                saturate(total_bytes(views(original_strings@))) - pool_footprint(self.pool_view())
            } else {
                0
            }),
    {
        let original = saturated_bytes(original_strings, false);
        let pooled = self.pool.memory_usage();
        if original > pooled {
            original - pooled
        } else {
            0
        }
    }
}

/// Dictionary coding of strings into 16-bit codes.
pub struct StringCompressor {
    dictionary: StringPool,
}

/// Number of distinct codes a 16-bit dictionary can hand out.
pub open spec fn code_space() -> int {
    0x1_0000
}

impl StringCompressor {
    /// The dictionary: the string coded by each code, in code order.
    pub closed spec fn dictionary_view(&self) -> Seq<Seq<char>> {
        self.dictionary@
    }

    /// Well-formed: no string is coded twice, and every code fits in 16 bits.
    pub closed spec fn wf(&self) -> bool {
        self.dictionary.wf() && self.dictionary@.len() <= code_space()
    }

    /// A compressor with an empty dictionary.
    pub fn new() -> (r: Self)
        ensures
            r.wf(),
            r.dictionary_view() == Seq::<Seq<char>>::empty(),
    {
        StringCompressor { dictionary: StringPool::new() }
    }

    /// The code of each string, adding new strings to the dictionary in order.
    pub fn compress_strings(&mut self, strings: &[String]) -> (r: Vec<u16>)
        requires
            old(self).wf(),
            interned(old(self).dictionary_view(), views(strings@)).len() <= code_space(),
        ensures
            final(self).wf(),
            final(self).dictionary_view() == interned(old(self).dictionary_view(), views(strings@)),
            final(self).dictionary_view().no_duplicates(),
            final(self).dictionary_view().take(old(self).dictionary_view().len() as int) == old(self).dictionary_view(),
            r@.len() == strings@.len(),
            forall|i: int| 0 <= i < r@.len() ==> {
                &&& r@[i] < final(self).dictionary_view().len()
                &&& final(self).dictionary_view()[r@[i] as int] == strings@[i]@
            },
    {
        let ghost start = self.dictionary@;
        let ghost sv = views(strings@);
        let mut out: Vec<u16> = Vec::new();
        let mut i: usize = 0;
        while i < strings.len()
            invariant
                sv == views(strings@),
                i <= strings@.len(),
                self.wf(),
                self.dictionary@ == interned(start, sv.take(i as int)),
                interned(start, sv).len() <= code_space(),
                out@.len() == i,
                forall|j: int| 0 <= j < i ==> {
                    &&& out@[j] < self.dictionary@.len()
                    &&& self.dictionary@[out@[j] as int] == strings@[j]@
                },
            decreases strings@.len() - i,
        {
            proof {
                lemma_interned_step(start, sv, i as int);
                lemma_interned_grows(start, sv, i as int + 1);
            }
            let ghost before = self.dictionary@;
            let code = self.compress_string(strings[i].as_str());
            proof {
                assert(self.dictionary@.take(before.len() as int) =~= before);
                assert forall|j: int| 0 <= j < i implies self.dictionary@[out@[j] as int] == before[out@[j] as int] by {
                }
            }
            out.push(code);
            i = i + 1;
        }
        assert(sv.take(strings@.len() as int) =~= sv);
        proof {
            lemma_interned_grows(start, sv, 0);
            assert(sv.take(0) =~= Seq::<Seq<char>>::empty());
        }
        out
    }

    fn compress_string(&mut self, s: &str) -> (r: u16)
        requires
            old(self).wf(),
            intern_one(old(self).dictionary_view(), s@).len() <= code_space(),
        ensures
            final(self).wf(),
            final(self).dictionary_view() == intern_one(old(self).dictionary_view(), s@),
            r < final(self).dictionary_view().len(),
            final(self).dictionary_view()[r as int] == s@,
    {
        let code = self.dictionary.intern(s);
        code as u16
    }

    /// The strings the codes name, skipping codes not in the dictionary.
    pub fn decompress_strings(&self, codes: &[u16]) -> (r: Vec<String>)
        ensures
            views(r@) == restored(self.dictionary_view(), codes@.map_values(|x: u16| x as int)),
    {
        let ghost iv = codes@.map_values(|x: u16| x as int);
        let mut out: Vec<String> = Vec::new();
        let mut i: usize = 0;
        while i < codes.len()
            invariant
                iv == codes@.map_values(|x: u16| x as int),
                i <= codes@.len(),
                views(out@) == restored(self.dictionary@, iv.take(i as int)),
            decreases codes@.len() - i,
        {
            proof {
                lemma_restored_step(self.dictionary@, iv, i as int);
            }
            match self.dictionary.get(codes[i] as u32) {
                Some(s) => {
                    out.push(s);
                },
                None => {},
            }
            i = i + 1;
            assert(views(out@) =~= restored(self.dictionary@, iv.take(i as int)));
        }
        assert(iv.take(codes@.len() as int) =~= iv);
        out
    }
}

/// Ids into a pool without duplicates are equal exactly when the strings they
/// name are: deduplication and compression give equal strings equal ids and
/// different strings different ids.
pub proof fn ids_match_strings(pool: Seq<Seq<char>>, strings: Seq<Seq<char>>, ids: Seq<int>, i: int, j: int)
    requires
        pool.no_duplicates(),
        ids.len() == strings.len(),
        forall|k: int| 0 <= k < ids.len() ==> 0 <= #[trigger] ids[k] < pool.len() && pool[ids[k]] == strings[k],
        0 <= i < ids.len(),
        0 <= j < ids.len(),
    ensures
        (ids[i] == ids[j]) <==> (strings[i] == strings[j]),
{
    assert(0 <= ids[i] < pool.len() && pool[ids[i]] == strings[i]);
    assert(0 <= ids[j] < pool.len() && pool[ids[j]] == strings[j]);
}

/// Restoring the ids that deduplication handed out gives back the strings.
pub proof fn dedup_round_trip(pool: Seq<Seq<char>>, strings: Seq<Seq<char>>, ids: Seq<int>)
    requires
        ids.len() == strings.len(),
        forall|i: int| 0 <= i < ids.len() ==> 0 <= #[trigger] ids[i] < pool.len() && pool[ids[i]] == strings[i],
    ensures
        restored(pool, ids) == strings,
    decreases ids.len(),
{
    if ids.len() > 0 {
        let n = ids.len() - 1;
        assert forall|i: int| 0 <= i < n implies 0 <= #[trigger] ids.drop_last()[i] < pool.len() && pool[ids.drop_last()[i]] == strings.drop_last()[i] by {
            assert(ids.drop_last()[i] == ids[i]);
        }
        dedup_round_trip(pool, strings.drop_last(), ids.drop_last());
        assert(ids[n] == ids.last());
        assert(strings =~= strings.drop_last().push(strings.last()));
    } else {
        assert(strings =~= Seq::<Seq<char>>::empty());
    }
}

} // verus!
