//! The random choices the VM makes (RAND, which EXA a KILL hits, and the
//! noise voice's table), drawn from `fastrand`'s thread-local generator.

use vstd::prelude::*;

verus! {

/// `fastrand::i32` over an inclusive range: a value between the bounds, which
/// one being left to chance. The crate's source panics only on an empty range,
/// which `requires` rules out.
#[verifier::external_body]
pub(crate) fn random_i32_inclusive(lo: i32, hi: i32) -> (r: i32)
    requires
        lo <= hi,
    ensures
        lo <= r <= hi,
{
    fastrand::i32(lo..=hi)
}

/// `fastrand::i16` over an inclusive range: a value between the bounds, which
/// one being left to chance. The crate's source panics only on an empty range,
/// which `requires` rules out.
#[verifier::external_body]
pub(crate) fn random_i16_inclusive(lo: i16, hi: i16) -> (r: i16)
    requires
        lo <= hi,
    ensures
        lo <= r <= hi,
{
    fastrand::i16(lo..=hi)
}

/// `fastrand::usize` over `0..n`: an index below `n`, chosen by chance. The
/// crate's source panics when `n` is zero, which `requires` rules out.
#[verifier::external_body]
pub(crate) fn random_below(n: usize) -> (r: usize)
    requires
        n > 0,
    ensures
        r < n,
{
    fastrand::usize(..n)
}

} // verus!
