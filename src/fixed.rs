use vstd::prelude::*;

verus! {

/// Number of fixed-point units in one world unit.
pub const SCALE: i64 = 65536;

/// `r` is the integer square root of `n`: the largest `r` with `r * r <= n`.
pub open spec fn is_isqrt(n: int, r: int) -> bool {
    0 <= r && r * r <= n && n < (r + 1) * (r + 1)
}

/// The integer square root of `n`, counted up from zero.
pub open spec fn isqrt_of(n: nat) -> nat
    decreases n,
{
    if n == 0 {
        0
    } else {
        let r = isqrt_of((n - 1) as nat);
        if (r + 1) * (r + 1) <= n {
            r + 1
        } else {
            r
        }
    }
}

/// `isqrt_of` meets the defining inequalities of the integer square root.
pub proof fn lemma_isqrt_of(n: nat)
    ensures
        is_isqrt(n as int, isqrt_of(n) as int),
    decreases n,
{
    if n > 0 {
        lemma_isqrt_of((n - 1) as nat);
        let r = isqrt_of((n - 1) as nat) as int;
        assert((r + 1) * (r + 1) <= n || n < (r + 1) * (r + 1));
        if (r + 1) * (r + 1) <= n {
            assert(n < (r + 2) * (r + 2)) by (nonlinear_arith)
                requires
                    n - 1 < (r + 1) * (r + 1),
                    r >= 0,
            ;
        }
    }
}

/// At most one integer square root exists.
pub proof fn lemma_isqrt_unique(n: int, a: int, b: int)
    requires
        is_isqrt(n, a),
        is_isqrt(n, b),
    ensures
        a == b,
{
    if a < b {
        assert((a + 1) * (a + 1) <= b * b) by (nonlinear_arith)
            requires
                0 <= a < b,
        ;
    } else if b < a {
        assert((b + 1) * (b + 1) <= a * a) by (nonlinear_arith)
            requires
                0 <= b < a,
        ;
    }
}

/// A non-negative number whose square is below `k * k` is below `k`.
pub proof fn lemma_root_below(r: int, k: int)
    requires
        0 <= r,
        0 <= k,
        r * r < k * k,
    ensures
        r < k,
{
    if r >= k {
        assert(k * k <= r * r) by (nonlinear_arith)
            requires
                0 <= k <= r,
        ;
    }
}

/// Integer square root by bisection.
pub fn isqrt(n: u128) -> (r: u128)
    ensures
        is_isqrt(n as int, r as int),
        r as nat == isqrt_of(n as nat),
{
    let mut lo: u128 = 0;
    let mut hi: u128 = 0x1_0000_0000_0000_0000u128;
    assert((n as int) < (hi as int) * (hi as int)) by (nonlinear_arith)
        requires
            n <= 0xffff_ffff_ffff_ffff_ffff_ffff_ffff_ffffu128,
            hi == 0x1_0000_0000_0000_0000u128,
    ;
    while hi - lo > 1
        invariant
            lo < hi,
            hi <= 0x1_0000_0000_0000_0000u128,
            lo * lo <= n,
            (n as int) < (hi as int) * (hi as int),
        decreases hi - lo,
    {
        let mid: u128 = lo + (hi - lo) / 2;
        proof {
            lemma_mul_bound(mid as int, mid as int, 0xffff_ffff_ffff_ffff, 0xffff_ffff_ffff_ffff);
        }
        if mid * mid <= n {
            lo = mid;
        } else {
            hi = mid;
        }
    }
    assert(hi == lo + 1);
    proof {
        lemma_isqrt_of(n as nat);
        lemma_isqrt_unique(n as int, lo as int, isqrt_of(n as nat) as int);
    }
    lo
}

} // verus!

verus! {

/// Floor division by a positive divisor.
pub fn fdiv(a: i128, b: i128) -> (r: i128)
    requires
        b > 0,
    ensures
        r as int == (a as int) / (b as int),
{
    let q = a.checked_div_euclid(b);
    match q {
        Some(v) => v,
        None => {
            proof {
                lemma_div_range(a as int, b as int);
            }
            0
        },
    }
}

/// Dividing by a positive divisor never moves a value away from zero.
pub proof fn lemma_div_range(a: int, b: int)
    requires
        b > 0,
    ensures
        a >= 0 ==> 0 <= a / b <= a,
        a < 0 ==> a <= a / b < 0,
{
    if a >= 0 {
        vstd::arithmetic::div_mod::lemma_div_pos_is_pos(a, b);
        vstd::arithmetic::div_mod::lemma_div_is_ordered_by_denominator(a, 1, b);
    } else {
        vstd::arithmetic::div_mod::lemma_fundamental_div_mod(a, b);
        vstd::arithmetic::div_mod::lemma_mod_bound(a, b);
        assert(a <= a / b < 0) by (nonlinear_arith)
            requires
                a == b * (a / b) + a % b,
                0 <= a % b < b,
                a < 0,
                b > 0,
        ;
    }
}

/// A product of two bounded factors is bounded by the product of the bounds.
pub proof fn lemma_mul_bound(a: int, b: int, ka: int, kb: int)
    requires
        -ka <= a <= ka,
        -kb <= b <= kb,
    ensures
        -(ka * kb) <= a * b <= ka * kb,
{
    assert(-(ka * kb) <= a * b <= ka * kb) by (nonlinear_arith)
        requires
            -ka <= a <= ka,
            -kb <= b <= kb,
    ;
}

} // verus!

verus! {

/// Dividing a value in `[-k * b, k * b]` by `b` lands in `[-k, k]`.
pub proof fn lemma_div_bound(a: int, b: int, k: int)
    requires
        b > 0,
        -(k * b) <= a <= k * b,
    ensures
        -k <= a / b <= k,
{
    vstd::arithmetic::div_mod::lemma_fundamental_div_mod(a, b);
    vstd::arithmetic::div_mod::lemma_mod_bound(a, b);
    let q = a / b;
    assert(-k <= q <= k) by (nonlinear_arith)
        requires
            a == b * q + a % b,
            0 <= a % b < b,
            -(k * b) <= a <= k * b,
            b > 0,
    ;
}

} // verus!
