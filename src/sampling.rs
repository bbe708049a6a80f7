use vstd::prelude::*;

verus! {

/// Ranges longer than this are first narrowed by the sampling step of the selection.
pub const SAMPLE_THRESHOLD: usize = 600;

const CUBE_ROOT_CAP: u128 = 4194304;

const SQUARE_ROOT_CAP: u128 = 4294967296;

fn cube_at_most(c: u128, v: u128) -> (r: bool)
    requires
        c <= CUBE_ROOT_CAP,
    ensures
        r == (c * c * c <= v),
{
    assert(c * c <= CUBE_ROOT_CAP * CUBE_ROOT_CAP) by (nonlinear_arith)
        requires
            c <= CUBE_ROOT_CAP,
    ;
    assert(c * c * c <= CUBE_ROOT_CAP * CUBE_ROOT_CAP * CUBE_ROOT_CAP) by (nonlinear_arith)
        requires
            c * c <= CUBE_ROOT_CAP * CUBE_ROOT_CAP,
            c <= CUBE_ROOT_CAP,
    ;
    c * c * c <= v
}

fn square_at_most(c: u128, v: u128) -> (r: bool)
    requires
        c <= SQUARE_ROOT_CAP,
    ensures
        r == (c * c <= v),
{
    assert(c * c <= SQUARE_ROOT_CAP * SQUARE_ROOT_CAP) by (nonlinear_arith)
        requires
            c <= SQUARE_ROOT_CAP,
    ;
    c * c <= v
}

/// Integer cube root of `v`, rounded down (for `v < 2^66`).
fn floor_cbrt(v: u128) -> (r: u128)
    ensures
        r <= CUBE_ROOT_CAP,
        r * r * r <= v,
        r < CUBE_ROOT_CAP ==> v < (r + 1) * (r + 1) * (r + 1),
{
    let mut c: u128 = 0;
    while c < CUBE_ROOT_CAP && cube_at_most(c + 1, v)
        invariant
            c <= CUBE_ROOT_CAP,
            c * c * c <= v,
        decreases CUBE_ROOT_CAP - c,
    {
        c += 1;
    }
    c
}

/// Integer square root of `v`, rounded down (for `v < 2^64`).
fn floor_sqrt(v: u128) -> (r: u128)
    ensures
        r <= SQUARE_ROOT_CAP,
        r * r <= v,
        r < SQUARE_ROOT_CAP ==> v < (r + 1) * (r + 1),
{
    let mut c: u128 = 0;
    while c < SQUARE_ROOT_CAP && square_at_most(c + 1, v)
        invariant
            c <= SQUARE_ROOT_CAP,
            c * c <= v,
        decreases SQUARE_ROOT_CAP - c,
    {
        c += 1;
    }
    c
}

/// Base-2 logarithm of `v`, rounded down (`0` for `v <= 1`).
fn floor_log2(v: u128) -> (r: u128)
    ensures
        r <= 128,
{
    let mut w: u128 = v;
    let mut b: u128 = 0;
    while w > 1 && b < 128
        invariant
            b <= 128,
        decreases w,
    {
        w = w / 2;
        b += 1;
    }
    b
}

/// The sampling step of the selection: for the `k`-th position of `left..=right`, of length
/// `n`, a window of about `n^(2/3) / 2` positions around where the `k`-th smallest is expected
/// to stand, shifted by a spread of about `sqrt(ln(n) * s * (1 - s / n)) / 2`, and always
/// holding `k`.
pub(crate) fn sample_window(k: usize, left: usize, right: usize) -> (r: (usize, usize))
    requires
        left <= k <= right,
    ensures
        left <= r.0 <= k <= r.1 <= right,
{
    let n: u128 = (right - left) as u128 + 1;
    let m: u128 = (k - left) as u128 + 1;
    let c = floor_cbrt(n);
    assert(c * c <= CUBE_ROOT_CAP * CUBE_ROOT_CAP) by (nonlinear_arith)
        requires
            c <= CUBE_ROOT_CAP,
    ;
    let s: u128 = c * c / 2;
    let z: u128 = floor_log2(n) * 693 / 1000;
    let rest: u128 = if s < n {
        n - s
    } else {
        0
    };
    assert(z * s <= 128 * CUBE_ROOT_CAP * CUBE_ROOT_CAP) by (nonlinear_arith)
        requires
            z <= 128,
            s <= CUBE_ROOT_CAP * CUBE_ROOT_CAP,
    ;
    assert(z * s * rest <= 128 * CUBE_ROOT_CAP * CUBE_ROOT_CAP * n) by (nonlinear_arith)
        requires
            z * s <= 128 * CUBE_ROOT_CAP * CUBE_ROOT_CAP,
            rest <= n,
    ;
    assert(n <= 0x1_0000_0000_0000_0000);
    assert(128 * CUBE_ROOT_CAP * CUBE_ROOT_CAP * n <= 0x100_0000_0000_0000_0000_0000_0000_0000)
        by (nonlinear_arith)
        requires
            n <= 0x1_0000_0000_0000_0000,
            CUBE_ROOT_CAP == 4194304,
    ;
    let spread: u128 = floor_sqrt(z * s * rest / n) / 2;
    assert(m * s <= n * (CUBE_ROOT_CAP * CUBE_ROOT_CAP)) by (nonlinear_arith)
        requires
            m <= n,
            s <= CUBE_ROOT_CAP * CUBE_ROOT_CAP,
    ;
    let offset: u128 = m * s / n;
    assert(offset <= CUBE_ROOT_CAP * CUBE_ROOT_CAP) by (nonlinear_arith)
        requires
            offset == (m * s) as int / (n as int),
            m * s <= n * (CUBE_ROOT_CAP * CUBE_ROOT_CAP),
            n > 0,
    ;
    let base: i128 = k as i128 - offset as i128;
    let r: i128 = if 2 * m < n {
        base - spread as i128
    } else {
        base + spread as i128
    };
    let lo: usize = if r <= left as i128 {
        left
    } else if r > k as i128 {
        k
    } else {
        r as usize
    };
    let top: i128 = r + s as i128;
    let hi: usize = if top >= right as i128 {
        right
    } else if top < k as i128 {
        k
    } else {
        top as usize
    };
    (lo, hi)
}

} // verus!
