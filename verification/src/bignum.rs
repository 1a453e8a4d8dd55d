//! Trusted interface to `num_bigint::BigUint`, the arbitrary-precision state.
//!
//! Each wrapper makes exactly one `num_bigint` call; its contract states the
//! documented arithmetic meaning of that call over `big_value`, the
//! non-negative integer a `BigUint` holds.

use vstd::prelude::*;
use num_bigint::BigUint;

verus! {

#[verifier::external_type_specification]
#[verifier::external_body]
pub struct ExBigUint(BigUint);

/// The non-negative integer that a `BigUint` holds.
pub uninterp spec fn big_value(b: BigUint) -> nat;

/// Relies on `<BigUint as From<usize>>::from`: the big integer equals `n`.
#[verifier::external_body]
pub(crate) fn big_from_usize(n: usize) -> (r: BigUint)
    ensures
        big_value(r) == n as nat,
{
    BigUint::from(n)
}

/// Relies on `<BigUint as Clone>::clone`: the copy holds the same value.
#[verifier::external_body]
pub(crate) fn big_clone(b: &BigUint) -> (r: BigUint)
    ensures
        big_value(r) == big_value(*b),
{
    b.clone()
}

/// Relies on `<BigUint as Add<usize>>::add`: big-integer addition.
#[verifier::external_body]
pub(crate) fn big_add_usize(b: &BigUint, n: usize) -> (r: BigUint)
    ensures
        big_value(r) == big_value(*b) + n as nat,
{
    b.clone() + n
}

/// Relies on `<BigUint as Sub<usize>>::sub`: big-integer subtraction. It
/// panics when the result would be negative, which the precondition excludes.
#[verifier::external_body]
pub(crate) fn big_sub_usize(b: &BigUint, n: usize) -> (r: BigUint)
    requires
        big_value(*b) >= n as nat,
    ensures
        big_value(r) == big_value(*b) - n as nat,
{
    b.clone() - n
}

/// Relies on `<BigUint as Mul<usize>>::mul`: big-integer multiplication.
#[verifier::external_body]
pub(crate) fn big_mul_usize(b: &BigUint, n: usize) -> (r: BigUint)
    ensures
        big_value(r) == big_value(*b) * n as nat,
{
    b.clone() * n
}

/// Relies on `<BigUint as Div<usize>>::div`: floor division of non-negative
/// integers. It panics on a zero divisor, which the precondition excludes.
#[verifier::external_body]
pub(crate) fn big_div_usize(b: &BigUint, n: usize) -> (r: BigUint)
    requires
        n >= 1,
    ensures
        big_value(r) == big_value(*b) / n as nat,
{
    b.clone() / n
}

/// Relies on `<BigUint as Rem<usize>>::rem`: the non-negative remainder. It
/// panics on a zero divisor, which the precondition excludes; the remainder
/// is below `n`, so `usize::try_from` cannot fail.
#[verifier::external_body]
pub(crate) fn big_mod_usize(b: &BigUint, n: usize) -> (r: usize)
    requires
        n >= 1,
    ensures
        r as nat == big_value(*b) % (n as nat),
{
    usize::try_from(b.clone() % n).unwrap()
}

/// Relies on `<BigUint as Ord>::cmp`: comparison orders by value.
#[verifier::external_body]
pub(crate) fn big_gt(a: &BigUint, b: &BigUint) -> (r: bool)
    ensures
        r == (big_value(*a) > big_value(*b)),
{
    a > b
}

} // verus!
