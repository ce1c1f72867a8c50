use vstd::prelude::*;
use vstd::string::StringSliceAdditionalSpecFns;
use crate::cpu_features::{get_best_simd_type, SimdType};

verus! {

/// The Unicode upper-case mapping of a string, as std computes it.
pub uninterp spec fn upper_of(s: Seq<char>) -> Seq<char>;

/// The Unicode lower-case mapping of a string, as std computes it.
pub uninterp spec fn lower_of(s: Seq<char>) -> Seq<char>;

/// `needle` occurs in `hay` at byte offset `i`.
pub open spec fn occurs_at(hay: Seq<u8>, needle: Seq<u8>, i: int) -> bool {
    0 <= i && i + needle.len() <= hay.len() && hay.subrange(i, i + needle.len()) == needle
}

/// `needle` occurs somewhere in `hay`, compared as byte sequences.
pub open spec fn bytes_contain(hay: Seq<u8>, needle: Seq<u8>) -> bool {
    exists|i: int| occurs_at(hay, needle, i)
}

/// Relies on `str::to_uppercase`: the result depends on the characters alone,
/// and the empty string maps to the empty string.
#[verifier::external_body]
fn std_to_uppercase(s: &str) -> (r: String)
    ensures
        r@ == upper_of(s@),
        s@.len() == 0 ==> r@.len() == 0,
{
    s.to_uppercase()
}

/// Relies on `str::to_lowercase`: the result depends on the characters alone,
/// and the empty string maps to the empty string.
#[verifier::external_body]
fn std_to_lowercase(s: &str) -> (r: String)
    ensures
        r@ == lower_of(s@),
        s@.len() == 0 ==> r@.len() == 0,
{
    s.to_lowercase()
}

/// Whether the bytes of `needle` match those of `hay` at offset `at`.
fn matches_at(hay: &[u8], needle: &[u8], at: usize) -> (r: bool)
    requires
        at + needle@.len() <= hay@.len(),
    ensures
        r == occurs_at(hay@, needle@, at as int),
{
    let n = hay.len();
    let mut k: usize = 0;
    while k < needle.len()
        invariant
            n == hay@.len(),
            at + needle@.len() <= hay@.len(),
            k <= needle@.len(),
            forall|j: int| 0 <= j < k ==> hay@[at + j] == needle@[j],
        decreases needle@.len() - k,
    {
        let pos: usize = at + k;
        if hay[pos] != needle[k] {
            assert(hay@.subrange(at as int, at + needle@.len())[k as int] != needle@[k as int]);
            return false;
        }
        k = k + 1;
    }
    assert(hay@.subrange(at as int, at + needle@.len()) =~= needle@);
    true
}

/// Substring search over UTF-8 bytes, window by window.
fn contains_bytes(haystack: &str, needle: &str) -> (r: bool)
    ensures
        r == bytes_contain(haystack.spec_bytes(), needle.spec_bytes()),
{
    let hay = haystack.as_bytes();
    let nee = needle.as_bytes();
    if nee.len() > hay.len() {
        assert forall|i: int| !occurs_at(hay@, nee@, i) by {}
        assert(!bytes_contain(hay@, nee@));
        return false;
    }
    let last = hay.len() - nee.len();
    let mut at: usize = 0;
    while at <= last
        invariant
            hay@ == haystack.spec_bytes(),
            nee@ == needle.spec_bytes(),
            last + nee@.len() == hay@.len(),
            at <= last + 1,
            forall|i: int| 0 <= i < at ==> !occurs_at(hay@, nee@, i),
        decreases last + 1 - at,
    {
        if matches_at(hay, nee, at) {
            assert(occurs_at(hay@, nee@, at as int));
            assert(bytes_contain(hay@, nee@));
            return true;
        }
        if at == last {
            assert forall|i: int| !occurs_at(hay@, nee@, i) by {
                if 0 <= i <= at {
                }
            }
            assert(!bytes_contain(hay@, nee@));
            return false;
        }
        at = at + 1;
    }
    false
}

/// Portable string kernels.
pub struct ScalarStringOps;

impl ScalarStringOps {
    /// Upper-case mapping.
    pub fn to_uppercase_simd(input: &str) -> (r: String)
        ensures
            r@ == upper_of(input@),
    {
        std_to_uppercase(input)
    }

    /// Lower-case mapping.
    pub fn to_lowercase_simd(input: &str) -> (r: String)
        ensures
            r@ == lower_of(input@),
    {
        std_to_lowercase(input)
    }

    /// Whether `needle` occurs in `haystack`.
    pub fn contains_simd(haystack: &str, needle: &str) -> (r: bool)
        ensures
            r == bytes_contain(haystack.spec_bytes(), needle.spec_bytes()),
    {
        contains_bytes(haystack, needle)
    }
}

/// String kernels for the two-lane vector path.
pub struct Arm64StringOps;

/// String kernels for the four-lane vector path.
pub struct X86_64StringOps;

/// String kernels dispatched on the detected capabilities.
pub struct SimdStringOps;

impl SimdStringOps {
    /// Upper-case mapping.
    pub fn to_uppercase_simd(input: &str) -> (r: String)
        ensures
            r@ == upper_of(input@),
    {
        match get_best_simd_type() {
            SimdType::Scalar => ScalarStringOps::to_uppercase_simd(input),
            _ => std_to_uppercase(input),
        }
    }

    /// Lower-case mapping.
    pub fn to_lowercase_simd(input: &str) -> (r: String)
        ensures
            r@ == lower_of(input@),
    {
        match get_best_simd_type() {
            SimdType::Scalar => ScalarStringOps::to_lowercase_simd(input),
            _ => std_to_lowercase(input),
        }
    }

    /// Whether `needle` occurs in `haystack`, compared as UTF-8 bytes.
    pub fn contains_simd(haystack: &str, needle: &str) -> (r: bool)
        ensures
            r == bytes_contain(haystack.spec_bytes(), needle.spec_bytes()),
    {
        contains_bytes(haystack, needle)
    }
}

/// Containment is transitive: a string that holds `b`, which holds `c`, holds `c`.
pub proof fn contains_transitive(a: Seq<u8>, b: Seq<u8>, c: Seq<u8>)
    requires
        bytes_contain(a, b),
        bytes_contain(b, c),
    ensures
        bytes_contain(a, c),
{
    let i = choose|i: int| occurs_at(a, b, i);
    let j = choose|j: int| occurs_at(b, c, j);
    assert(a.subrange(i + j, i + j + c.len()) =~= b.subrange(j, j + c.len()));
    assert(occurs_at(a, c, i + j));
}

/// Every string contains itself.
pub proof fn contains_reflexive(a: Seq<u8>)
    ensures
        bytes_contain(a, a),
{
    assert(a.subrange(0, a.len() as int) =~= a);
    assert(occurs_at(a, a, 0));
}

} // verus!
