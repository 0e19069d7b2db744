use num::ToPrimitive;
use vstd::prelude::*;

verus! {

/// `num::ToPrimitive::to_i8` on an `i64`: the value itself where it lies in
/// the range of `i8`, `None` otherwise.
#[verifier::external_body]
pub(crate) fn to_i8(v: i64) -> (r: Option<i8>)
    ensures
        r == (if -128 <= v <= 127 { Some(v as i8) } else { None::<i8> }),
{
    v.to_i8()
}

/// `num::ToPrimitive::to_u64` on a `usize`: always the same number.
#[verifier::external_body]
pub(crate) fn to_u64(v: usize) -> (r: Option<u64>)
    ensures
        r == Some(v as u64),
{
    v.to_u64()
}

} // verus!
