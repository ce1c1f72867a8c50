use vstd::prelude::*;
use vstd::string::StringSliceAdditionalSpecFns;
use crate::cpu_features::{get_best_simd_type, SimdType, SimdCapabilities, library_capabilities, best_type};

verus! {

/// 2^64, the modulus of 64-bit two's-complement arithmetic.
pub open spec fn modulus() -> int {
    0x1_0000_0000_0000_0000
}

/// The exact sum of a sequence of integers.
pub open spec fn seq_sum(s: Seq<i64>) -> int
    decreases s.len(),
{
    if s.len() == 0 {
        0
    } else {
        seq_sum(s.drop_last()) + s.last()
    }
}

/// The two's-complement value of `x` in 64 bits: the one in `[-2^63, 2^63)`
/// congruent to `x` modulo 2^64.
pub open spec fn wrap_i64(x: int) -> int {
    (x + 0x8000_0000_0000_0000) % modulus() - 0x8000_0000_0000_0000
}

/// `m` is the least element of a nonempty `s`.
pub open spec fn is_min_of(s: Seq<i64>, m: i64) -> bool {
    s.contains(m) && forall|i: int| 0 <= i < s.len() ==> m <= #[trigger] s[i]
}

/// `m` is the greatest element of a nonempty `s`.
pub open spec fn is_max_of(s: Seq<i64>, m: i64) -> bool {
    s.contains(m) && forall|i: int| 0 <= i < s.len() ==> #[trigger] s[i] <= m
}

/// The `(min, max)` pair of a sequence, `(0, 0)` when it is empty.
pub open spec fn min_max_spec(s: Seq<i64>, r: (i64, i64)) -> bool {
    if s.len() == 0 {
        r == (0i64, 0i64)
    } else {
        is_min_of(s, r.0) && is_max_of(s, r.1)
    }
}

pub proof fn lemma_wrap_add(a: int, b: int)
    ensures
        wrap_i64(wrap_i64(a) + b) == wrap_i64(a + b),
{
    let m = modulus();
    let h: int = 0x8000_0000_0000_0000;
    vstd::arithmetic::div_mod::lemma_fundamental_div_mod(a + h, m);
    let q = (a + h) / m;
    assert(wrap_i64(a) + b + h == (a + b + h) - q * m);
    vstd::arithmetic::div_mod::lemma_mod_sub_multiples_vanish(a + b + h, m);
    lemma_mod_multiples_general(a + b + h, q, m);
}

proof fn lemma_mod_multiples_general(x: int, q: int, m: int)
    requires
        m > 0,
    ensures
        (x - q * m) % m == x % m,
    decreases (if q >= 0 { q } else { -q }),
{
    if q > 0 {
        lemma_mod_multiples_general(x, q - 1, m);
        vstd::arithmetic::div_mod::lemma_mod_sub_multiples_vanish(x - (q - 1) * m, m);
        assert(x - q * m == (x - (q - 1) * m) - m) by (nonlinear_arith);
    } else if q < 0 {
        lemma_mod_multiples_general(x, q + 1, m);
        vstd::arithmetic::div_mod::lemma_mod_add_multiples_vanish(x - (q + 1) * m, m);
        assert(x - q * m == m + (x - (q + 1) * m)) by (nonlinear_arith);
    } else {
        assert(x - q * m == x) by (nonlinear_arith)
            requires q == 0;
    }
}

proof fn lemma_wrap_congruent(a: int, b: int, c: int)
    requires
        wrap_i64(a) == wrap_i64(b),
    ensures
        wrap_i64(a + c) == wrap_i64(b + c),
{
    lemma_wrap_add(a, c);
    lemma_wrap_add(b, c);
}

pub proof fn lemma_wrap_small(x: int)
    requires
        -0x8000_0000_0000_0000 <= x < 0x8000_0000_0000_0000,
    ensures
        wrap_i64(x) == x,
{
    vstd::arithmetic::div_mod::lemma_small_mod((x + 0x8000_0000_0000_0000) as nat, modulus() as nat);
}

/// Adding in wrapping 64-bit arithmetic is adding exactly, then wrapping.
pub proof fn lemma_wrapping_add(x: i64, y: i64)
    ensures
        x.wrapping_add(y) == wrap_i64(x + y),
{
    let s = x + y;
    let m = modulus();
    if s > i64::MAX {
        lemma_wrap_small(s - m);
        lemma_mod_multiples_general(s + 0x8000_0000_0000_0000, 1, m);
    } else if s < i64::MIN {
        lemma_wrap_small(s + m);
        lemma_mod_multiples_general(s + 0x8000_0000_0000_0000, -1, m);
    } else {
        lemma_wrap_small(s);
    }
}

proof fn lemma_seq_sum_push(s: Seq<i64>, x: i64)
    ensures
        seq_sum(s.push(x)) == seq_sum(s) + x,
{
    assert(s.push(x).drop_last() =~= s);
}

/// Two accumulators advanced independently still hold the same wrapped total.
proof fn lemma_pair_fold(a: int, b: int, da: int, db: int)
    ensures
        wrap_i64(wrap_i64(a + da) + wrap_i64(b + db)) == wrap_i64(a + b + da + db),
{
    lemma_wrap_add(a + da, wrap_i64(b + db));
    lemma_wrap_add(b + db, a + da);
}

/// Extending a prefix by `k` more elements adds their sum.
proof fn lemma_take_extend(s: Seq<i64>, i: int, k: int)
    requires
        0 <= i,
        0 <= k,
        i + k <= s.len(),
    ensures
        seq_sum(s.take(i + k)) == seq_sum(s.take(i)) + seq_sum(s.subrange(i, i + k)),
    decreases k,
{
    if k > 0 {
        lemma_take_extend(s, i, k - 1);
        assert(s.take(i + k) =~= s.take(i + k - 1).push(s[i + k - 1]));
        assert(s.subrange(i, i + k) =~= s.subrange(i, i + k - 1).push(s[i + k - 1]));
        lemma_seq_sum_push(s.take(i + k - 1), s[i + k - 1]);
        lemma_seq_sum_push(s.subrange(i, i + k - 1), s[i + k - 1]);
    } else {
        assert(s.subrange(i, i) =~= Seq::<i64>::empty());
        assert(s.take(i + 0) =~= s.take(i));
    }
}

/// `acc`, updated with the next element, still holds the wrapped sum of the
/// longer prefix.
proof fn lemma_prefix_step(s: Seq<i64>, i: int, acc: int)
    requires
        0 <= i < s.len(),
        acc == wrap_i64(seq_sum(s.take(i))),
    ensures
        wrap_i64(acc + s[i]) == wrap_i64(seq_sum(s.take(i + 1))),
{
    assert(s.take(i + 1) =~= s.take(i).push(s[i]));
    lemma_seq_sum_push(s.take(i), s[i]);
    lemma_wrap_add(seq_sum(s.take(i)), s[i] as int);
}

/// The wrapped sum of `data[from..]` added onto `acc`.
fn add_tail(data: &[i64], from: usize, acc: i64) -> (r: i64)
    requires
        from <= data@.len(),
        acc == wrap_i64(seq_sum(data@.take(from as int))),
    ensures
        r == wrap_i64(seq_sum(data@)),
{
    let mut total = acc;
    let mut i = from;
    while i < data.len()
        invariant
            from <= i <= data@.len(),
            total == wrap_i64(seq_sum(data@.take(i as int))),
        decreases data@.len() - i,
    {
        proof {
            lemma_prefix_step(data@, i as int, total as int);
            lemma_wrapping_add(total, data@[i as int]);
        }
        total = total.wrapping_add(data[i]);
        i = i + 1;
    }
    assert(data@.take(data@.len() as int) =~= data@);
    total
}

/// Portable reduction kernels: the reference every vector path must match.
pub struct ScalarOps;

impl ScalarOps {
    /// Sum in two's-complement 64-bit arithmetic.
    pub fn sum_i64(data: &[i64]) -> (r: i64)
        ensures
            r == wrap_i64(seq_sum(data@)),
    {
        proof {
            lemma_wrap_small(0);
        }
        add_tail(data, 0, 0)
    }

    /// The least and the greatest element, `(0, 0)` for an empty slice.
    pub fn min_max_i64(data: &[i64]) -> (r: (i64, i64))
        ensures
            min_max_spec(data@, r),
    {
        min_max_scan(data)
    }
}

/// One pass keeping the running least and greatest element.
fn min_max_scan(data: &[i64]) -> (r: (i64, i64))
    ensures
        min_max_spec(data@, r),
{
    if data.len() == 0 {
        return (0, 0);
    }
    let mut lo_at: usize = 0;
    let mut hi_at: usize = 0;
    let mut i: usize = 1;
    while i < data.len()
        invariant
            1 <= i <= data@.len(),
            lo_at < i,
            hi_at < i,
            forall|j: int| 0 <= j < i ==> data@[lo_at as int] <= #[trigger] data@[j] && data@[j] <= data@[hi_at as int],
        decreases data@.len() - i,
    {
        if data[i] < data[lo_at] {
            lo_at = i;
        }
        if data[i] > data[hi_at] {
            hi_at = i;
        }
        i = i + 1;
    }
    let lo = data[lo_at];
    let hi = data[hi_at];
    assert(data@[lo_at as int] == lo);
    assert(data@[hi_at as int] == hi);
    (lo, hi)
}

/// Reduction kernels shaped for a two-lane vector unit.
pub struct Arm64SimdOps;

impl Arm64SimdOps {
    /// Sum with two independent lane accumulators, combined at the end.
    pub fn sum_i64(data: &[i64]) -> (r: i64)
        ensures
            r == wrap_i64(seq_sum(data@)),
    {
        lane_sum_2(data)
    }

    /// The least and the greatest element, `(0, 0)` for an empty slice.
    pub fn min_max_i64(data: &[i64]) -> (r: (i64, i64))
        ensures
            min_max_spec(data@, r),
    {
        min_max_scan(data)
    }
}

/// Reduction kernels shaped for a four-lane vector unit.
pub struct X86_64SimdOps;

impl X86_64SimdOps {
    /// Sum with four independent lane accumulators, combined at the end.
    pub fn sum_i64(data: &[i64]) -> (r: i64)
        ensures
            r == wrap_i64(seq_sum(data@)),
    {
        lane_sum_4(data)
    }

    /// The least and the greatest element, `(0, 0)` for an empty slice.
    pub fn min_max_i64(data: &[i64]) -> (r: (i64, i64))
        ensures
            min_max_spec(data@, r),
    {
        min_max_scan(data)
    }
}

fn lane_sum_2(data: &[i64]) -> (r: i64)
    ensures
        r == wrap_i64(seq_sum(data@)),
{
    if data.len() < 2 {
        return ScalarOps::sum_i64(data);
    }
    let n = data.len();
    let mut a0: i64 = 0;
    let mut a1: i64 = 0;
    let mut i: usize = 0;
    proof {
        lemma_wrap_small(0);
    }
    while i <= n - 2
        invariant
            n == data@.len(),
            n >= 2,
            i <= n,
            wrap_i64(a0 + a1) == wrap_i64(seq_sum(data@.take(i as int))),
        decreases n - i,
    {
        let x0 = data[i];
        let x1 = data[i + 1];
        proof {
            let t = data@.subrange(i as int, i as int + 2);
            let e = Seq::<i64>::empty();
            assert(t =~= e.push(x0).push(x1));
            lemma_seq_sum_push(e, x0);
            lemma_seq_sum_push(e.push(x0), x1);
            lemma_take_extend(data@, i as int, 2);
            lemma_wrapping_add(a0, x0);
            lemma_wrapping_add(a1, x1);
            lemma_pair_fold(a0 as int, a1 as int, x0 as int, x1 as int);
            lemma_wrap_congruent(a0 + a1, seq_sum(data@.take(i as int)), x0 + x1);
        }
        a0 = a0.wrapping_add(x0);
        a1 = a1.wrapping_add(x1);
        i = i + 2;
    }
    proof {
        lemma_wrapping_add(a0, a1);
    }
    add_tail(data, i, a0.wrapping_add(a1))
}

fn lane_sum_4(data: &[i64]) -> (r: i64)
    ensures
        r == wrap_i64(seq_sum(data@)),
{
    if data.len() < 4 {
        return ScalarOps::sum_i64(data);
    }
    let n = data.len();
    let mut lo: i64 = 0;
    let mut hi: i64 = 0;
    let mut i: usize = 0;
    proof {
        lemma_wrap_small(0);
    }
    // Lanes 0 and 1 accumulate in `lo`, lanes 2 and 3 in `hi`, each pair
    // already folded; the total is the same residue.
    while i <= n - 4
        invariant
            n == data@.len(),
            n >= 4,
            i <= n,
            wrap_i64(lo + hi) == wrap_i64(seq_sum(data@.take(i as int))),
        decreases n - i,
    {
        let x0 = data[i];
        let x1 = data[i + 1];
        let x2 = data[i + 2];
        let x3 = data[i + 3];
        proof {
            let t = data@.subrange(i as int, i as int + 4);
            let e = Seq::<i64>::empty();
            assert(t =~= e.push(x0).push(x1).push(x2).push(x3));
            lemma_seq_sum_push(e, x0);
            lemma_seq_sum_push(e.push(x0), x1);
            lemma_seq_sum_push(e.push(x0).push(x1), x2);
            lemma_seq_sum_push(e.push(x0).push(x1).push(x2), x3);
            lemma_take_extend(data@, i as int, 4);
            lemma_wrapping_add(x0, x1);
            lemma_wrapping_add(x2, x3);
            let l2 = x0.wrapping_add(x1);
            let h2 = x2.wrapping_add(x3);
            lemma_wrapping_add(lo, l2);
            lemma_wrapping_add(hi, h2);
            lemma_pair_fold(lo as int, hi as int, l2 as int, h2 as int);
            lemma_wrap_add(x0 + x1, lo + hi + h2);
            lemma_wrap_add(x2 + x3, lo + hi + x0 + x1);
            lemma_wrap_congruent(lo + hi, seq_sum(data@.take(i as int)), x0 + x1 + x2 + x3);
        }
        lo = lo.wrapping_add(x0.wrapping_add(x1));
        hi = hi.wrapping_add(x2.wrapping_add(x3));
        i = i + 4;
    }
    proof {
        lemma_wrapping_add(lo, hi);
    }
    add_tail(data, i, lo.wrapping_add(hi))
}

/// Kernels dispatched on the detected capabilities.
pub struct SimdOps;

impl SimdOps {
    /// Sum in two's-complement 64-bit arithmetic, on the best available path.
    pub fn sum_i64(data: &[i64]) -> (r: i64)
        ensures
            r == wrap_i64(seq_sum(data@)),
    {
        match get_best_simd_type() {
            SimdType::AVX2 => X86_64SimdOps::sum_i64(data),
            SimdType::NEON => Arm64SimdOps::sum_i64(data),
            SimdType::Scalar => ScalarOps::sum_i64(data),
        }
    }

    /// The least and the greatest element, `(0, 0)` for an empty slice.
    pub fn min_max_i64(data: &[i64]) -> (r: (i64, i64))
        ensures
            min_max_spec(data@, r),
    {
        match get_best_simd_type() {
            SimdType::AVX2 => X86_64SimdOps::min_max_i64(data),
            SimdType::NEON => Arm64SimdOps::min_max_i64(data),
            SimdType::Scalar => ScalarOps::min_max_i64(data),
        }
    }

    /// The capability set the dispatcher uses.
    pub fn get_capabilities() -> (r: SimdCapabilities)
        ensures
            r == library_capabilities(),
    {
        crate::cpu_features::get_simd_capabilities()
    }

    /// The kernel family the dispatcher selects.
    pub fn get_simd_type() -> (r: SimdType)
        ensures
            r == best_type(library_capabilities()),
    {
        get_best_simd_type()
    }
}

/// Entry points that a benchmark harness times: each runs the dispatched kernel.
pub struct SimdBenchmarks;

impl SimdBenchmarks {
    /// The dispatched 64-bit sum.
    pub fn benchmark_sum_i64(data: &[i64]) -> (r: i64)
        ensures
            r == wrap_i64(seq_sum(data@)),
    {
        SimdOps::sum_i64(data)
    }

    /// The dispatched min/max.
    pub fn benchmark_min_max_i64(data: &[i64]) -> (r: (i64, i64))
        ensures
            min_max_spec(data@, r),
    {
        SimdOps::min_max_i64(data)
    }

    /// The dispatched upper-case mapping.
    pub fn benchmark_string_uppercase(input: &str) -> (r: String)
        ensures
            r@ == crate::text::upper_of(input@),
    {
        crate::text::SimdStringOps::to_uppercase_simd(input)
    }

    /// The dispatched substring search.
    pub fn benchmark_string_contains(haystack: &str, needle: &str) -> (r: bool)
        ensures
            r == crate::text::bytes_contain(haystack.spec_bytes(), needle.spec_bytes()),
    {
        crate::text::SimdStringOps::contains_simd(haystack, needle)
    }
}

/// The (min, max) pair of a sequence is unique, so every kernel that meets
/// `min_max_spec` returns what the scalar kernel returns.
pub proof fn min_max_is_unique(data: Seq<i64>, r1: (i64, i64), r2: (i64, i64))
    requires
        min_max_spec(data, r1),
        min_max_spec(data, r2),
    ensures
        r1 == r2,
{
    if data.len() > 0 {
        let k1 = choose|k: int| 0 <= k < data.len() && data[k] == r1.0;
        let k2 = choose|k: int| 0 <= k < data.len() && data[k] == r2.0;
        let k3 = choose|k: int| 0 <= k < data.len() && data[k] == r1.1;
        let k4 = choose|k: int| 0 <= k < data.len() && data[k] == r2.1;
        assert(r1.0 <= data[k2] && r2.0 <= data[k1]);
        assert(data[k4] <= r1.1 && data[k3] <= r2.1);
    }
}

} // verus!
