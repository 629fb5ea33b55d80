use vstd::prelude::*;
use rand::Rng;
use crate::scalar::Scalar;

verus! {

/// Calls `rand::thread_rng()` and draws one integer from it with
/// `Rng::gen_range` on the half-open range from `low` to `high`. The draw
/// panics on an empty range, which the precondition rules out. Of the result
/// only this is claimed: it lies in the range, `low` included and `high`
/// excluded.
#[verifier::external_body]
fn uniform_raw(low: i64, high: i64) -> (r: i64)
    requires
        low < high,
    ensures
        low <= r < high,
{
    rand::thread_rng().gen_range(low..high)
}

/// A random scalar that is at least `low` and less than `high`.
pub fn uniform(low: Scalar, high: Scalar) -> (r: Scalar)
    requires
        low@ < high@,
    ensures
        low@ <= r@ < high@,
{
    Scalar::from_raw(uniform_raw(low.raw(), high.raw()))
}

/// A random scalar that is at least zero and less than one.
pub fn uniform_unit() -> (r: Scalar)
    ensures
        0 <= r@ < crate::scalar::SCALE,
{
    uniform(Scalar::zero(), Scalar::one())
}

} // verus!
