//! The IEEE-754 readings of a number: the bits of the double nearest to an
//! integer, a single widened to a double, and a double narrowed to single
//! precision (rounding to nearest, ties to even), computed with integers
//! alone.
use vstd::prelude::*;
use vstd::arithmetic::power2::{
    lemma2_to64, lemma_pow2_adds, lemma_pow2_pos, lemma_pow2_strictly_increases, lemma_pow2_unfold,
    pow2,
};

verus! {

/// The position of the highest set bit of `v` (0 for 0 and 1).
pub open spec fn top_bit(v: nat) -> nat
    decreases v,
{
    if v < 2 {
        0
    } else {
        1 + top_bit(v / 2)
    }
}

/// `q`, rounded up by one when the remainder `r` is above half, or exactly
/// half and `q` is odd (ties to even).
pub open spec fn round_even(q: nat, r: nat, half: nat) -> nat {
    if r > half || (r == half && q % 2 == 1) {
        q + 1
    } else {
        q
    }
}

/// The exponent and 53-bit significand of the double nearest to `v` > 0.
pub open spec fn sig53(v: nat) -> (nat, nat) {
    let e = top_bit(v);
    if e <= 52 {
        (e, v * pow2((52 - e) as nat))
    } else {
        let s = (e - 52) as nat;
        let q = round_even(v / pow2(s), v % pow2(s), pow2(s) / 2);
        if q == pow2(53) {
            (e + 1, pow2(52))
        } else {
            (e, q)
        }
    }
}

/// The exponent and 24-bit significand of the single nearest to the double
/// with exponent `e` and 53-bit significand `m`.
pub open spec fn sig24(e: nat, m: nat) -> (nat, nat) {
    let q = round_even(m / pow2(29), m % pow2(29), pow2(28));
    if q == pow2(24) {
        (e + 1, pow2(23))
    } else {
        (e, q)
    }
}

/// The magnitude of an integer.
pub open spec fn magnitude(i: int) -> nat {
    if i < 0 {
        (-i) as nat
    } else {
        i as nat
    }
}

/// The bits of the double nearest to `i` (`i as f64`).
pub open spec fn double_of_int(i: int) -> u64 {
    if i == 0 {
        0
    } else {
        let (e, m) = sig53(magnitude(i));
        ((if i < 0 {
            pow2(63)
        } else {
            0
        }) + (e + 1023) * pow2(52) + (m - pow2(52))) as u64
    }
}

/// The bits of that double narrowed to single precision
/// (`(i as f64) as f32`).
pub open spec fn single_of_int(i: int) -> u32 {
    if i == 0 {
        0
    } else {
        let (e, m) = sig53(magnitude(i));
        let (e2, m2) = sig24(e, m);
        ((if i < 0 {
            pow2(31)
        } else {
            0
        }) + (e2 + 127) * pow2(23) + (m2 - pow2(23))) as u32
    }
}

/// The highest set bit bounds a positive number.
proof fn lemma_top_bit(v: nat)
    requires
        v >= 1,
    ensures
        pow2(top_bit(v)) <= v < pow2(top_bit(v) + 1),
    decreases v,
{
    lemma_pow2_unfold(top_bit(v) + 1);
    if v >= 2 {
        lemma_top_bit(v / 2);
        lemma_pow2_unfold(top_bit(v));
        lemma_pow2_unfold(top_bit(v / 2) + 1);
    } else {
        lemma2_to64();
    }
}

/// The powers of two that the formats use.
proof fn lemma_pow2_consts()
    ensures
        pow2(0) == 1,
        pow2(23) == 0x800000,
        pow2(24) == 0x1000000,
        pow2(28) == 0x10000000,
        pow2(29) == 0x20000000,
        pow2(31) == 0x80000000,
        pow2(52) == 0x10000000000000,
        pow2(53) == 0x20000000000000,
        pow2(63) == 0x8000000000000000,
        pow2(64) == 0x10000000000000000,
{
    lemma2_to64();
    lemma_pow2_adds(32, 20);
    lemma_pow2_adds(32, 21);
    lemma_pow2_adds(32, 31);
}

/// `2` to the power `k`, for `k` up to 64.
fn pow2_of(k: u32) -> (r: u128)
    requires
        k <= 64,
    ensures
        r == pow2(k as nat),
{
    let mut r: u128 = 1;
    let mut j: u32 = 0;
    proof {
        lemma2_to64();
    }
    while j < k
        invariant
            j <= k <= 64,
            r == pow2(j as nat),
        decreases k - j,
    {
        proof {
            lemma_pow2_unfold((j + 1) as nat);
            lemma_pow2_strictly_increases((j + 1) as nat, 65);
            lemma2_to64();
            lemma_pow2_unfold(65);
        }
        r = r * 2;
        j = j + 1;
    }
    r
}

/// The highest set bit of a number from 1 below `2^64`.
fn top_bit_of(v: u128) -> (r: u32)
    requires
        1 <= v,
        v < pow2(64),
    ensures
        r == top_bit(v as nat),
        r < 64,
{
    let mut t: u128 = v;
    let mut e: u32 = 0;
    proof {
        lemma_pow2_consts();
    }
    while t >= 2
        invariant
            1 <= t <= v,
            v < pow2(64),
            top_bit(v as nat) == e + top_bit(t as nat),
            e < 64,
            pow2(e as nat) * t <= v,
        decreases t,
    {
        proof {
            lemma_pow2_unfold((e + 1) as nat);
            assert(pow2((e + 1) as nat) * (t / 2) <= pow2(e as nat) * t) by (nonlinear_arith)
                requires
                    pow2((e + 1) as nat) == 2 * pow2(e as nat),
                    t >= 0,
            ;
            assert(pow2((e + 1) as nat) <= pow2((e + 1) as nat) * (t / 2)) by (nonlinear_arith)
                requires
                    t / 2 >= 1,
                    pow2((e + 1) as nat) >= 0,
            ;
            if e + 1 >= 64 {
                if e + 1 > 64 {
                    lemma_pow2_strictly_increases(64, (e + 1) as nat);
                }
                assert(false);
            }
        }
        t = t / 2;
        e = e + 1;
    }
    e
}

/// The exponent and 53-bit significand of the double nearest to `v`.
fn significand53(v: u128) -> (r: (u32, u128))
    requires
        1 <= v <= pow2(63),
    ensures
        (r.0 as nat, r.1 as nat) == sig53(v as nat),
        pow2(52) <= r.1 < pow2(53),
        r.0 <= 64,
{
    proof {
        lemma_pow2_consts();
        lemma_top_bit(v as nat);
    }
    let e = top_bit_of(v);
    proof {
        if e >= 64 {
            lemma_pow2_strictly_increases(63, e as nat);
        }
    }
    if e <= 52 {
        let p = pow2_of(52 - e);
        proof {
            lemma_pow2_pos((52 - e) as nat);
            lemma_pow2_adds((e + 1) as nat, (52 - e) as nat);
            lemma_pow2_adds(e as nat, (52 - e) as nat);
            assert(v * p < pow2(53)) by (nonlinear_arith)
                requires
                    v < pow2((e + 1) as nat),
                    p > 0,
                    pow2((e + 1) as nat) * p == pow2(53),
            ;
            assert(v * p >= pow2(52)) by (nonlinear_arith)
                requires
                    v >= pow2(e as nat),
                    p > 0,
                    pow2(e as nat) * p == pow2(52),
            ;
        }
        (e, v * p)
    } else {
        let s = e - 52;
        let p = pow2_of(s);
        proof {
            lemma_pow2_pos(s as nat);
            lemma_pow2_adds(52, s as nat);
            lemma_pow2_adds(53, s as nat);
            assert(52 + s == e);
            assert(v / p < pow2(53)) by (nonlinear_arith)
                requires
                    v < pow2(53) * p,
                    p > 0,
            ;
            assert(v / p >= pow2(52)) by (nonlinear_arith)
                requires
                    v >= pow2(52) * p,
                    p > 0,
            ;
        }
        let q0 = v / p;
        let rem = v % p;
        let half = p / 2;
        let q = if rem > half || (rem == half && q0 % 2 == 1) {
            q0 + 1
        } else {
            q0
        };
        if q == 9007199254740992 {
            (e + 1, 4503599627370496)
        } else {
            (e, q)
        }
    }
}

/// The exponent and 24-bit significand of the single nearest to a double.
fn significand24(e: u32, m: u128) -> (r: (u32, u128))
    requires
        e <= 64,
        pow2(52) <= m < pow2(53),
    ensures
        (r.0 as nat, r.1 as nat) == sig24(e as nat, m as nat),
        pow2(23) <= r.1 < pow2(24),
        r.0 <= 65,
{
    proof {
        lemma_pow2_consts();
        assert(m / 536870912 >= 8388608);
        assert(m / 536870912 < 16777216);
    }
    let q0 = m / 536870912;
    let rem = m % 536870912;
    let q = if rem > 268435456 || (rem == 268435456 && q0 % 2 == 1) {
        q0 + 1
    } else {
        q0
    };
    if q == 16777216 {
        (e + 1, 8388608)
    } else {
        (e, q)
    }
}

/// The bits of the double nearest to `i`.
pub fn double_bits_of(i: i64) -> (r: u64)
    ensures
        r == double_of_int(i as int),
{
    if i == 0 {
        return 0;
    }
    proof {
        lemma_pow2_consts();
    }
    let v: u128 = if i < 0 {
        (-(i as i128)) as u128
    } else {
        i as u128
    };
    let (e, m) = significand53(v);
    let sign: u128 = if i < 0 {
        9223372036854775808
    } else {
        0
    };
    let bits = sign + (e as u128 + 1023) * 4503599627370496 + (m - 4503599627370496);
    bits as u64
}

/// The bits of the double nearest to `i`, narrowed to single precision.
pub fn single_bits_of(i: i64) -> (r: u32)
    ensures
        r == single_of_int(i as int),
{
    if i == 0 {
        return 0;
    }
    proof {
        lemma_pow2_consts();
    }
    let v: u128 = if i < 0 {
        (-(i as i128)) as u128
    } else {
        i as u128
    };
    let (e, m) = significand53(v);
    let (e2, m2) = significand24(e, m);
    let sign: u128 = if i < 0 {
        2147483648
    } else {
        0
    };
    let bits = sign + (e2 as u128 + 127) * 8388608 + (m2 - 8388608);
    bits as u32
}

/// The bits of a single widened to a double (`f as f64`, exact).
pub open spec fn widen(b: u32) -> u64 {
    let sign: int = if b >= pow2(31) {
        pow2(63) as int
    } else {
        0
    };
    let ef = (b as nat / pow2(23)) % 256;
    let mf = b as nat % pow2(23);
    (if ef == 0 {
        if mf == 0 {
            sign
        } else {
            let t = top_bit(mf);
            sign + (t + 874) * pow2(52) + (mf * pow2((52 - t) as nat) - pow2(52))
        }
    } else {
        sign + (ef + 896) * pow2(52) + mf * pow2(29)
    }) as u64
}

/// The bits of a double narrowed to single precision (`d as f32`): the
/// nearest single, ties to even; a value past the largest single becomes
/// infinite, one below the smallest becomes a subnormal or zero.
pub open spec fn narrow(d: u64) -> u32 {
    let sign: int = if d >= pow2(63) {
        pow2(31) as int
    } else {
        0
    };
    let ed = (d as nat / pow2(52)) % 2048;
    let md = d as nat % pow2(52);
    (if ed == 0 {
        sign
    } else {
        let m = pow2(52) + md;
        let e = ed - 1023;
        if e < -126 {
            let k = 926 - ed;
            if k >= 55 {
                sign
            } else {
                sign + round_even(m / pow2(k as nat), m % pow2(k as nat), pow2((k - 1) as nat))
            }
        } else {
            let q = round_even(m / pow2(29), m % pow2(29), pow2(28));
            let (e2, q2) = if q == pow2(24) {
                (e + 1, pow2(23))
            } else {
                (e, q)
            };
            if e2 + 127 >= 255 {
                sign + 255 * pow2(23)
            } else {
                sign + ((e2 + 127) as nat) * pow2(23) + (q2 - pow2(23))
            }
        }
    }) as u32
}

/// The bits of a single widened to a double.
pub fn widen_bits(b: u32) -> (r: u64)
    ensures
        r == widen(b),
{
    proof {
        lemma_pow2_consts();
    }
    let sign: u64 = if b >= 2147483648 {
        9223372036854775808
    } else {
        0
    };
    let ef: u64 = ((b / 8388608) % 256) as u64;
    let mf: u64 = (b % 8388608) as u64;
    if ef == 0 {
        if mf == 0 {
            sign
        } else {
            let t = top_bit_of(mf as u128);
            proof {
                lemma_top_bit(mf as nat);
                if t >= 23 {
                    if t > 23 {
                        lemma_pow2_strictly_increases(23, t as nat);
                    }
                }
            }
            let p = pow2_of(52 - t);
            proof {
                lemma_pow2_pos((52 - t) as nat);
                lemma_pow2_adds((t + 1) as nat, (52 - t) as nat);
                lemma_pow2_adds(t as nat, (52 - t) as nat);
                assert(mf * p < pow2(53)) by (nonlinear_arith)
                    requires
                        mf < pow2((t + 1) as nat),
                        p > 0,
                        pow2((t + 1) as nat) * p == pow2(53),
                ;
                assert(mf * p >= pow2(52)) by (nonlinear_arith)
                    requires
                        mf >= pow2(t as nat),
                        p > 0,
                        pow2(t as nat) * p == pow2(52),
                ;
            }
            let m: u64 = (mf as u128 * p) as u64;
            sign + (t as u64 + 874) * 4503599627370496 + (m - 4503599627370496)
        }
    } else {
        sign + (ef + 896) * 4503599627370496 + mf * 536870912
    }
}

/// The bits of a double narrowed to single precision.
pub fn narrow_bits(d: u64) -> (r: u32)
    ensures
        r == narrow(d),
{
    proof {
        lemma_pow2_consts();
    }
    let sign: u64 = if d >= 9223372036854775808 {
        2147483648
    } else {
        0
    };
    let ed: u64 = (d / 4503599627370496) % 2048;
    let md: u64 = d % 4503599627370496;
    if ed == 0 {
        return sign as u32;
    }
    let m: u64 = 4503599627370496 + md;
    if ed < 897 {
        let k: u64 = 926 - ed;
        if k >= 55 {
            return sign as u32;
        }
        let p = pow2_of(k as u32);
        let h = pow2_of((k - 1) as u32);
        proof {
            lemma_pow2_pos(k as nat);
            lemma_pow2_unfold(k as nat);
            if k > 30 {
                lemma_pow2_strictly_increases(30, k as nat);
            }
            lemma_pow2_adds(23, 30);
            assert((m as u128) / p <= pow2(23)) by (nonlinear_arith)
                requires
                    m < pow2(53),
                    pow2(53) == pow2(23) * pow2(30),
                    pow2(30) <= p,
                    p > 0,
            ;
        }
        let q0 = m as u128 / p;
        let rem = m as u128 % p;
        let q = if rem > h || (rem == h && q0 % 2 == 1) {
            q0 + 1
        } else {
            q0
        };
        proof {
            lemma2_to64();
            if q > pow2(23) {
                assert(rem < p);
                assert(q0 == pow2(23));
                assert(m == q0 * p + rem) by (nonlinear_arith)
                    requires
                        q0 == m as u128 / p,
                        rem == m as u128 % p,
                        p > 0,
                ;
                assert(q0 * p >= pow2(23) * pow2(30)) by (nonlinear_arith)
                    requires
                        q0 == pow2(23),
                        p >= pow2(30),
                ;
            }
        }
        return (sign + q as u64) as u32;
    }
    let q0 = m / 536870912;
    let rem = m % 536870912;
    let q = if rem > 268435456 || (rem == 268435456 && q0 % 2 == 1) {
        q0 + 1
    } else {
        q0
    };
    let e: u64 = ed - 897;
    let (e2, q2) = if q == 16777216 {
        (e + 1, 8388608u64)
    } else {
        (e, q)
    };
    if e2 + 1 >= 255 {
        (sign + 255 * 8388608) as u32
    } else {
        (sign + (e2 + 1) * 8388608 + (q2 - 8388608)) as u32
    }
}

} // verus!
