//! A small stencil set: loading holes, adding, returning, and shuffling
//! every register.
use vstd::prelude::*;

verus! {

/// Loads a hole into the first register.
pub fn load_int_reg1(reg1: usize) -> (r: usize)
    ensures
        r == reg1,
{
    reg1
}

/// Loads a hole into the second register, keeping the first.
pub fn load_int_reg2(noop: usize, reg2: usize) -> (r: (usize, usize))
    ensures
        r == (noop, reg2),
{
    (noop, reg2)
}

/// Adds the second register into the first (wrapping, as the stencils are
/// built without overflow checks), keeping the second.
pub fn add_int1_int2(a: usize, b: usize) -> (r: (usize, usize))
    ensures
        r.0 == (if a + b > usize::MAX {
            a + b - usize::MAX - 1
        } else {
            a + b
        }),
        r.1 == b,
{
    (a.wrapping_add(b), b)
}

/// Returns the first register.
pub fn return_int1(a: usize) -> (r: usize)
    ensures
        r == a,
{
    a
}

/// Rotates sixteen registers by one: the last comes first.
#[allow(clippy::too_many_arguments, clippy::type_complexity)]
pub fn test_abi(
    a: usize,
    b: usize,
    c: usize,
    d: usize,
    e: usize,
    f: usize,
    g: usize,
    h: usize,
    i: usize,
    j: usize,
    k: usize,
    l: usize,
    m: usize,
    n: usize,
    o: usize,
    p: usize,
) -> (r: (
    usize,
    usize,
    usize,
    usize,
    usize,
    usize,
    usize,
    usize,
    usize,
    usize,
    usize,
    usize,
    usize,
    usize,
    usize,
    usize,
))
    ensures
        r == (p, a, b, c, d, e, f, g, h, i, j, k, l, m, n, o),
{
    (p, a, b, c, d, e, f, g, h, i, j, k, l, m, n, o)
}

} // verus!
