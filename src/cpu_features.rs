use vstd::prelude::*;

verus! {

/// The vector instruction sets a reduction kernel may be dispatched to.
#[derive(Debug, Clone, Copy, PartialEq, Eq, Structural)]
pub enum SimdType {
    AVX2,
    NEON,
    Scalar,
}

/// The instruction-set features available to the kernels.
#[derive(Debug, Clone, Copy, PartialEq, Eq, Structural)]
pub struct SimdCapabilities {
    pub avx2: bool,
    pub neon: bool,
    pub sse2: bool,
    pub sse4_1: bool,
}

/// The kernel family chosen for a capability set: the wide path first, then
/// the narrow one, else the portable loop.
pub open spec fn best_type(c: SimdCapabilities) -> SimdType {
    if c.avx2 {
        SimdType::AVX2
    } else if c.neon {
        SimdType::NEON
    } else {
        SimdType::Scalar
    }
}

/// The features this library dispatches on. Its kernels are portable Rust,
/// so no vector-only feature is ever claimed.
pub open spec fn library_capabilities() -> SimdCapabilities {
    SimdCapabilities { avx2: false, neon: false, sse2: false, sse4_1: false }
}

impl SimdCapabilities {
    /// A capability set with every feature absent.
    pub fn new() -> (r: Self)
        ensures
            r == library_capabilities(),
    {
        SimdCapabilities { avx2: false, neon: false, sse2: false, sse4_1: false }
    }

    /// The capability set the kernels of this library are dispatched with.
    pub fn detect() -> (r: Self)
        ensures
            r == library_capabilities(),
    {
        Self::new()
    }

    /// Whether any vector path is available.
    pub fn has_simd(&self) -> (r: bool)
        ensures
            r == (self.avx2 || self.neon),
    {
        self.avx2 || self.neon
    }

    /// The best kernel family for this capability set.
    pub fn get_best_simd_type(&self) -> (r: SimdType)
        ensures
            r == best_type(*self),
    {
        if self.avx2 {
            SimdType::AVX2
        } else if self.neon {
            SimdType::NEON
        } else {
            SimdType::Scalar
        }
    }
}

/// Whether the wide integer/float path is available.
pub fn has_avx2() -> (r: bool)
    ensures
        r == library_capabilities().avx2,
{
    SimdCapabilities::detect().avx2
}

/// Whether SSE2 is available.
pub fn has_sse2() -> (r: bool)
    ensures
        r == library_capabilities().sse2,
{
    SimdCapabilities::detect().sse2
}

/// Whether SSE4.1 is available.
pub fn has_sse4_1() -> (r: bool)
    ensures
        r == library_capabilities().sse4_1,
{
    SimdCapabilities::detect().sse4_1
}

/// Whether the narrow vector path is available.
pub fn has_neon() -> (r: bool)
    ensures
        r == library_capabilities().neon,
{
    SimdCapabilities::detect().neon
}

/// The capability set the kernels are dispatched with.
pub fn get_simd_capabilities() -> (r: SimdCapabilities)
    ensures
        r == library_capabilities(),
{
    SimdCapabilities::detect()
}

/// The kernel family the dispatcher selects.
pub fn get_best_simd_type() -> (r: SimdType)
    ensures
        r == best_type(library_capabilities()),
{
    SimdCapabilities::detect().get_best_simd_type()
}

} // verus!
