use vstd::arithmetic::power2::{
    lemma2_to64, lemma2_to64_rest, lemma_pow2_adds, lemma_pow2_pos, lemma_pow2_strictly_increases, lemma_pow2_unfold,
    pow2,
};
use vstd::prelude::*;

verus! {

/// The biased exponent field of an IEEE-754 double.
pub open spec fn exponent_bits(b: u64) -> u64 {
    (b >> 52u64) & 0x7ffu64
}

/// The fraction field of an IEEE-754 double.
pub open spec fn fraction_bits(b: u64) -> u64 {
    b & 0xf_ffff_ffff_ffffu64
}

/// Neither infinite nor NaN.
pub open spec fn is_finite(b: u64) -> bool {
    exponent_bits(b) != 0x7ffu64
}

pub open spec fn is_negative(b: u64) -> bool {
    (b >> 63u64) == 1u64
}

/// The significand, with the hidden bit of a normal number.
pub open spec fn significand(b: u64) -> nat {
    if exponent_bits(b) == 0 {
        fraction_bits(b) as nat
    } else {
        (fraction_bits(b) + pow2(52)) as nat
    }
}

/// The power of two that the significand is scaled by, counted from the
/// smallest subnormal.
pub open spec fn scale(b: u64) -> nat {
    if exponent_bits(b) == 0 {
        0
    } else {
        (exponent_bits(b) - 1) as nat
    }
}

/// A signed multiple of a power of two.
pub open spec fn signed_scaled(negative: bool, m: nat, k: nat) -> int {
    if negative {
        -(m * pow2(k))
    } else {
        (m * pow2(k)) as int
    }
}

/// A finite double's value, in units of the smallest subnormal (2^-1074).
pub open spec fn units(b: u64) -> int {
    signed_scaled(is_negative(b), significand(b), scale(b))
}

pub open spec fn abs_int(x: int) -> int {
    if x < 0 {
        -x
    } else {
        x
    }
}

/// 2^-52 - 2^-106 in units of 2^-1074: the exact differences below it, and
/// only those, round to a double below 2^-52 (`f64::EPSILON`).
pub open spec fn close_bound() -> int {
    (pow2(54) - 1) * pow2(968)
}

/// `(a - b).abs() < f64::EPSILON` for the doubles with encodings `a` and
/// `b`: both are finite, and their exact difference is below `close_bound`.
pub open spec fn reals_close(a: u64, b: u64) -> bool {
    is_finite(a) && is_finite(b) && abs_int(units(a) - units(b)) < close_bound()
}

pub proof fn lemma_close_bound_positive()
    ensures
        close_bound() > 0,
{
    lemma2_to64();
    lemma2_to64_rest();
    lemma_pow2_pos(968);
    assert(close_bound() > 0) by (nonlinear_arith)
        requires
            close_bound() == (pow2(54) - 1) * pow2(968),
            pow2(54) > 1,
            pow2(968) > 0,
    ;
}

/// `x * 2^s`.
fn times_pow2(x: u128, s: u32) -> (r: u128)
    requires
        x * pow2(s as nat) <= u128::MAX,
    ensures
        r == x * pow2(s as nat),
{
    let mut r = x;
    let mut i: u32 = 0;
    proof {
        lemma2_to64();
        lemma2_to64_rest();
    }
    while i < s
        invariant
            i <= s,
            r == x * pow2(i as nat),
            x * pow2(s as nat) <= u128::MAX,
        decreases s - i,
    {
        proof {
            lemma_pow2_unfold((i + 1) as nat);
            if i + 1 < s {
                lemma_pow2_strictly_increases((i + 1) as nat, s as nat);
            }
            assert(x * pow2((i + 1) as nat) <= x * pow2(s as nat)) by (nonlinear_arith)
                requires
                    pow2((i + 1) as nat) <= pow2(s as nat),
            ;
            assert(x * pow2((i + 1) as nat) == 2 * (x * pow2(i as nat))) by (nonlinear_arith)
                requires
                    pow2((i + 1) as nat) == 2 * pow2(i as nat),
            ;
        }
        r = r * 2;
        i = i + 1;
    }
    r
}


/// The significand, scale and sign of a finite double.
fn decode(b: u64) -> (r: (u64, u64, bool))
    requires
        is_finite(b),
    ensures
        r.0 == significand(b),
        r.1 == scale(b),
        r.2 == is_negative(b),
        r.0 < pow2(53),
        r.1 <= 2045,
        r.1 > 0 ==> r.0 >= pow2(52),
{
    proof {
        lemma2_to64();
        lemma2_to64_rest();
    }
    let e = (b >> 52u64) & 0x7ffu64;
    let f = b & 0xf_ffff_ffff_ffffu64;
    let neg = (b >> 63u64) == 1u64;
    assert(f <= 0xf_ffff_ffff_ffffu64) by (bit_vector)
        requires
            f == b & 0xf_ffff_ffff_ffffu64,
    ;
    assert(e <= 0x7ffu64) by (bit_vector)
        requires
            e == (b >> 52u64) & 0x7ffu64,
    ;
    if e == 0 {
        (f, 0, neg)
    } else {
        (f + 0x10_0000_0000_0000u64, e - 1, neg)
    }
}


proof fn lemma_scaled_less(a: int, b: int, p: int)
    requires
        p > 0,
    ensures
        (a * p < b * p) == (a < b),
{
    if a < b {
        assert(a * p < b * p) by (nonlinear_arith)
            requires
                a < b,
                p > 0,
        ;
    } else {
        assert(a * p >= b * p) by (nonlinear_arith)
            requires
                a >= b,
                p > 0,
        ;
    }
}

proof fn lemma_abs_scaled(x: int, p: int)
    requires
        p > 0,
    ensures
        abs_int(x * p) == abs_int(x) * p,
{
    if x < 0 {
        assert(x * p < 0) by (nonlinear_arith)
            requires
                x < 0,
                p > 0,
        ;
        assert(-(x * p) == (-x) * p) by (nonlinear_arith);
    } else {
        assert(x * p >= 0) by (nonlinear_arith)
            requires
                x >= 0,
                p > 0,
        ;
    }
}

/// Closeness of `±ma·2^ka` and `±mb·2^kb` when the scales are at most 64
/// apart: the difference is computed exactly.
fn close_near(ma: u64, ka: u64, na: bool, mb: u64, kb: u64, nb: bool) -> (r: bool)
    requires
        ma < pow2(53),
        mb < pow2(53),
        kb <= ka <= 2045,
        ka - kb <= 64,
    ensures
        r == (abs_int(signed_scaled(na, ma as nat, ka as nat) - signed_scaled(nb, mb as nat, kb as nat))
            < close_bound()),
{
    proof {
        lemma2_to64();
        lemma2_to64_rest();
    }
    let d = (ka - kb) as u32;
    proof {
        lemma_pow2_pos(d as nat);
        if d < 64 {
            lemma_pow2_strictly_increases(d as nat, 64);
        }
        assert(ma * pow2(d as nat) <= pow2(53) * pow2(64)) by (nonlinear_arith)
            requires
                ma < pow2(53),
                pow2(d as nat) <= pow2(64),
        ;
        lemma_pow2_adds(53, 64);
        lemma_pow2_strictly_increases(117, 127);
        lemma_pow2_adds(63, 64);
        assert(pow2(127) == pow2(63) * pow2(64));
    }
    let pa = times_pow2(ma as u128, d);
    let va: i128 = if na {
        -(pa as i128)
    } else {
        pa as i128
    };
    let vb: i128 = if nb {
        -(mb as i128)
    } else {
        mb as i128
    };
    let x: i128 = va - vb;
    let ax: u128 = if x < 0 {
        (-x) as u128
    } else {
        x as u128
    };
    let ghost p = pow2(kb as nat);
    let ghost diff = signed_scaled(na, ma as nat, ka as nat) - signed_scaled(nb, mb as nat, kb as nat);
    let c: u128 = 0x3f_ffff_ffff_ffffu128;
    proof {
        lemma_pow2_pos(kb as nat);
        lemma_pow2_adds(d as nat, kb as nat);
        assert(ma * pow2(ka as nat) == (ma * pow2(d as nat)) * p) by (nonlinear_arith)
            requires
                pow2(ka as nat) == pow2(d as nat) * p,
        ;
        assert(ma * pow2(ka as nat) == pa * p);
        if na {
            assert(signed_scaled(na, ma as nat, ka as nat) == -(pa * p));
            assert(-(pa * p) == (-pa) * p) by (nonlinear_arith);
        }
        if nb {
            assert(signed_scaled(nb, mb as nat, kb as nat) == -(mb * p));
            assert(-(mb * p) == (-mb) * p) by (nonlinear_arith);
        }
        assert(signed_scaled(na, ma as nat, ka as nat) == va * p);
        assert(signed_scaled(nb, mb as nat, kb as nat) == vb * p);
        assert(diff == x * p) by (nonlinear_arith)
            requires
                diff == signed_scaled(na, ma as nat, ka as nat) - signed_scaled(nb, mb as nat, kb as nat),
                signed_scaled(na, ma as nat, ka as nat) == va * p,
                signed_scaled(nb, mb as nat, kb as nat) == vb * p,
                x == va - vb,
        ;
        lemma_abs_scaled(x as int, p as int);
        assert(abs_int(diff) == ax * p);
        assert(c == pow2(54) - 1);
        lemma_pow2_pos(968);
    }
    if ax == 0 {
        proof {
            assert(ax * p == 0);
            lemma_pow2_strictly_increases(0, 54);
            assert(close_bound() > 0) by (nonlinear_arith)
                requires
                    close_bound() == (pow2(54) - 1) * pow2(968),
                    pow2(54) > 1,
                    pow2(968) > 0,
            ;
        }
        return true;
    }
    if kb >= 968 {
        let s = kb - 968;
        proof {
            lemma_pow2_adds(s as nat, 968);
            lemma_pow2_pos(s as nat);
            assert(ax * p == (ax * pow2(s as nat)) * pow2(968)) by (nonlinear_arith)
                requires
                    p == pow2(s as nat) * pow2(968),
            ;
            lemma_scaled_less((ax * pow2(s as nat)) as int, c as int, pow2(968) as int);
        }
        if s >= 54 {
            proof {
                if s > 54 {
                    lemma_pow2_strictly_increases(54, s as nat);
                }
                assert(ax * pow2(s as nat) >= pow2(s as nat)) by (nonlinear_arith)
                    requires
                        ax >= 1,
                ;
            }
            false
        } else if ax > c {
            proof {
                assert(ax * pow2(s as nat) >= ax) by (nonlinear_arith)
                    requires
                        pow2(s as nat) >= 1,
                ;
            }
            false
        } else {
            proof {
                if s < 54 {
                    lemma_pow2_strictly_increases(s as nat, 54);
                }
                assert(ax * pow2(s as nat) <= c * pow2(54)) by (nonlinear_arith)
                    requires
                        ax <= c,
                        pow2(s as nat) <= pow2(54),
                ;
                lemma_pow2_adds(54, 54);
                lemma_pow2_strictly_increases(108, 127);
            }
            let t = times_pow2(ax, s as u32);
            t < c
        }
    } else {
        let s = 968 - kb;
        proof {
            lemma_pow2_adds(s as nat, kb as nat);
            lemma_pow2_pos(s as nat);
            assert(close_bound() == (c * pow2(s as nat)) * p) by (nonlinear_arith)
                requires
                    close_bound() == (pow2(54) - 1) * pow2(968),
                    c == pow2(54) - 1,
                    pow2(968) == pow2(s as nat) * p,
            ;
            lemma_scaled_less(ax as int, (c * pow2(s as nat)) as int, p as int);
            assert(ax <= pow2(117) + pow2(53));
            lemma_pow2_strictly_increases(53, 117);
            lemma_pow2_unfold(118);
        }
        if s >= 65 {
            proof {
                if s > 65 {
                    lemma_pow2_strictly_increases(65, s as nat);
                }
                lemma_pow2_adds(53, 65);
                assert(c * pow2(s as nat) >= pow2(53) * pow2(65)) by (nonlinear_arith)
                    requires
                        c >= pow2(53),
                        pow2(s as nat) >= pow2(65),
                ;
            }
            true
        } else {
            proof {
                if s < 64 {
                    lemma_pow2_strictly_increases(s as nat, 64);
                }
                assert(c * pow2(s as nat) <= c * pow2(64)) by (nonlinear_arith)
                    requires
                        pow2(s as nat) <= pow2(64),
                ;
                lemma_pow2_adds(54, 64);
                lemma_pow2_strictly_increases(118, 127);
                assert(c * pow2(64) < pow2(54) * pow2(64)) by (nonlinear_arith)
                    requires
                        c < pow2(54),
                        pow2(64) > 0,
                ;
            }
            let rhs = times_pow2(c, s as u32);
            ax < rhs
        }
    }
}


/// Closeness of `±ma·2^ka` and `±mb·2^kb` when the scales are more than 64
/// apart: the smaller term is below the resolution that decides, except
/// where the larger equals the bound exactly.
fn close_far(ma: u64, ka: u64, na: bool, mb: u64, kb: u64, nb: bool) -> (r: bool)
    requires
        ma < pow2(53),
        mb < pow2(53),
        kb <= ka <= 2045,
        ka - kb > 64,
        ma >= pow2(52),
    ensures
        r == (abs_int(signed_scaled(na, ma as nat, ka as nat) - signed_scaled(nb, mb as nat, kb as nat))
            < close_bound()),
{
    proof {
        lemma2_to64();
        lemma2_to64_rest();
    }
    let ghost big = ma * pow2(ka as nat);
    let ghost small = mb * pow2(kb as nat);
    let ghost diff = signed_scaled(na, ma as nat, ka as nat) - signed_scaled(nb, mb as nat, kb as nat);
    let ghost c = pow2(54) - 1;
    proof {
        lemma_pow2_pos(ka as nat);
        lemma_pow2_pos(kb as nat);
        lemma_pow2_pos(968);
        lemma_pow2_adds(53, kb as nat);
        assert(small < pow2(53 + kb as nat)) by (nonlinear_arith)
            requires
                small == mb * pow2(kb as nat),
                mb < pow2(53),
                pow2(kb as nat) > 0,
                pow2(53 + kb as nat) == pow2(53) * pow2(kb as nat),
        ;
        assert(small >= 0) by (nonlinear_arith)
            requires
                small == mb * pow2(kb as nat),
        ;
        assert(big >= 0) by (nonlinear_arith)
            requires
                big == ma * pow2(ka as nat),
        ;
        if na == nb {
            assert(abs_int(diff) == abs_int(big - small));
        } else {
            assert(abs_int(diff) == big + small);
        }
        lemma_pow2_adds(54, 968);
        lemma_pow2_adds(53, 968);
        lemma_pow2_strictly_increases(53, 54);
        assert(close_bound() < pow2(1022)) by (nonlinear_arith)
            requires
                close_bound() == (pow2(54) - 1) * pow2(968),
                pow2(1022) == pow2(54) * pow2(968),
                pow2(968) > 0,
        ;
        assert(close_bound() >= pow2(1021)) by (nonlinear_arith)
            requires
                close_bound() == (pow2(54) - 1) * pow2(968),
                pow2(1021) == pow2(53) * pow2(968),
                pow2(54) - 1 >= pow2(53),
                pow2(968) > 0,
        ;
    }
    if ka >= 971 {
        proof {
            lemma_pow2_adds(52, ka as nat);
            assert(big >= pow2(52 + ka as nat)) by (nonlinear_arith)
                requires
                    big == ma * pow2(ka as nat),
                    ma >= pow2(52),
                    pow2(52 + ka as nat) == pow2(52) * pow2(ka as nat),
                    pow2(ka as nat) > 0,
            ;
            lemma_pow2_unfold(52 + ka as nat);
            lemma_pow2_strictly_increases(53 + kb as nat, 51 + ka as nat);
            if 51 + ka > 1022 {
                lemma_pow2_strictly_increases(1022, 51 + ka as nat);
            }
            assert(abs_int(diff) >= big - small);
        }
        false
    } else if ka <= 966 {
        proof {
            lemma_pow2_adds(53, ka as nat);
            assert(big < pow2(53 + ka as nat)) by (nonlinear_arith)
                requires
                    big == ma * pow2(ka as nat),
                    ma < pow2(53),
                    pow2(53 + ka as nat) == pow2(53) * pow2(ka as nat),
                    pow2(ka as nat) > 0,
            ;
            lemma_pow2_strictly_increases(53 + kb as nat, 53 + ka as nat);
            lemma_pow2_unfold(54 + ka as nat);
            if 54 + ka < 1021 {
                lemma_pow2_strictly_increases(54 + ka as nat, 1021);
            }
            assert(abs_int(diff) <= big + small);
        }
        true
    } else {
        let t = (ka - 967) as u32;
        proof {
            lemma_pow2_strictly_increases(t as nat, 4);
            assert(ma * pow2(t as nat) < pow2(53) * pow2(4)) by (nonlinear_arith)
                requires
                    ma < pow2(53),
                    pow2(t as nat) < pow2(4),
            ;
        }
        let a2 = times_pow2(ma as u128, t);
        let t2: u128 = 0x7f_ffff_ffff_fffeu128;
        let ghost q = pow2(967);
        proof {
            lemma_pow2_pos(967);
            lemma_pow2_adds(t as nat, 967);
            assert(big == a2 * q) by (nonlinear_arith)
                requires
                    big == ma * pow2(ka as nat),
                    pow2(ka as nat) == pow2(t as nat) * q,
                    a2 == ma * pow2(t as nat),
            ;
            lemma_pow2_unfold(968);
            assert(close_bound() == t2 * q) by (nonlinear_arith)
                requires
                    close_bound() == (pow2(54) - 1) * pow2(968),
                    pow2(968) == 2 * q,
                    t2 == 2 * (pow2(54) - 1),
            ;
            lemma_pow2_strictly_increases(53 + kb as nat, 967);
            assert(small < q);
        }
        let r = a2 < t2 || (a2 == t2 && na == nb && mb != 0);
        proof {
            if a2 < t2 {
                assert(big <= close_bound() - q) by (nonlinear_arith)
                    requires
                        big == a2 * q,
                        close_bound() == t2 * q,
                        a2 + 1 <= t2,
                        q > 0,
                ;
                assert(abs_int(diff) <= big + small);
            } else if a2 > t2 {
                assert(big >= close_bound() + q) by (nonlinear_arith)
                    requires
                        big == a2 * q,
                        close_bound() == t2 * q,
                        a2 >= t2 + 1,
                        q > 0,
                ;
                assert(abs_int(diff) >= big - small);
            } else {
                assert(big == close_bound());
                if mb == 0 {
                    assert(small == 0) by (nonlinear_arith)
                        requires
                            small == mb * pow2(kb as nat),
                            mb == 0,
                    ;
                } else {
                    assert(small > 0) by (nonlinear_arith)
                        requires
                            small == mb * pow2(kb as nat),
                            mb >= 1,
                            pow2(kb as nat) > 0,
                    ;
                }
            }
        }
        r
    }
}

/// Whether `(a - b).abs() < f64::EPSILON` for the doubles with encodings `a`
/// and `b`, computed exactly on the encodings.
pub fn reals_close_exec(a: u64, b: u64) -> (r: bool)
    ensures
        r == reals_close(a, b),
{
    let ea = (a >> 52u64) & 0x7ffu64;
    let eb = (b >> 52u64) & 0x7ffu64;
    if ea == 0x7ffu64 || eb == 0x7ffu64 {
        return false;
    }
    let (ma, ka, na) = decode(a);
    let (mb, kb, nb) = decode(b);
    if ka >= kb {
        if ka - kb <= 64 {
            close_near(ma, ka, na, mb, kb, nb)
        } else {
            close_far(ma, ka, na, mb, kb, nb)
        }
    } else {
        proof {
            assert(abs_int(units(a) - units(b)) == abs_int(units(b) - units(a)));
        }
        if kb - ka <= 64 {
            close_near(mb, kb, nb, ma, ka, na)
        } else {
            close_far(mb, kb, nb, ma, ka, na)
        }
    }
}

} // verus!
