//! Integers as binary64 values: the nearest value, ties to even.
use vstd::arithmetic::power2::{
    lemma2_to64_rest, lemma_pow2_adds, lemma_pow2_pos, lemma_pow2_strictly_increases,
    lemma_pow2_unfold, pow2,
};
use vstd::prelude::*;

verus! {

/// `2^e <= a < 2^(e + 1)`: the highest set bit of `a` is bit `e`.
pub open spec fn top_bit(a: int, e: nat) -> bool {
    pow2(e) <= a < pow2(e + 1)
}

/// The bit pattern of the binary64 value nearest to the integer `n`, ties
/// going to the even significand: what `n as f64` gives for an `i128` `n`.
/// Its magnitude has a highest bit `e`; the significand keeps the 53 bits
/// from there, rounded, and the exponent field holds `e + 1023`.
#[verifier::opaque]
pub open spec fn binary64_bits(n: int) -> u64 {
    if n == 0 {
        0
    } else {
        let a = if n < 0 {
            -n
        } else {
            n
        };
        let e = choose|e: nat| top_bit(a, e);
        let (m, x) = if e <= 52 {
            (a * pow2((52 - e) as nat), e as int)
        } else {
            let s = (e - 52) as nat;
            let q = a / pow2(s) as int;
            let r = a % pow2(s) as int;
            let h = pow2((s - 1) as nat);
            let up = r > h || (r == h && q % 2 == 1);
            let q2 = if up {
                q + 1
            } else {
                q
            };
            if q2 == pow2(53) {
                (pow2(52) as int, (e + 1) as int)
            } else {
                (q2, e as int)
            }
        };
        ((if n < 0 {
            pow2(63) as int
        } else {
            0
        }) + (x + 1023) * pow2(52) + (m - pow2(52))) as u64
    }
}

/// The highest set bit of a positive integer is one bit.
proof fn lemma_top_bit_unique(a: int, e1: nat, e2: nat)
    requires
        top_bit(a, e1),
        top_bit(a, e2),
    ensures
        e1 == e2,
{
    if e1 < e2 {
        if e1 + 1 < e2 {
            lemma_pow2_strictly_increases(e1 + 1, e2);
        }
    }
    if e2 < e1 {
        if e2 + 1 < e1 {
            lemma_pow2_strictly_increases(e2 + 1, e1);
        }
    }
}

/// The binary64 value nearest to `n`, ties to even, by its bit pattern.
pub fn binary64_of(n: i128) -> (r: u64)
    ensures
        r == binary64_bits(n as int),
{
    proof {
        reveal(binary64_bits);
    }
    if n == 0 {
        return 0;
    }
    proof {
        lemma2_to64_rest();
        vstd::arithmetic::power2::lemma2_to64();
    }
    let negative = n < 0;
    let a: u128 = if negative {
        ((-(n + 1)) as u128) + 1
    } else {
        n as u128
    };
    let ghost ai = a as int;
    assert(ai == if n < 0 { -n } else { n as int });
    let sign: u64 = if negative {
        0x8000_0000_0000_0000
    } else {
        0
    };
    let significand: u128;
    let exponent: u64;
    if a < 0x20_0000_0000_0000 {
        let mut m: u128 = a;
        let mut j: u64 = 0;
        while m < 0x10_0000_0000_0000
            invariant
                1 <= m < 0x20_0000_0000_0000,
                ai >= 1,
                j <= 52,
                m == ai * pow2(j as nat),
                m < 0x10_0000_0000_0000 ==> j < 52,
            decreases 52 - j,
        {
            proof {
                lemma_pow2_unfold((j + 1) as nat);
                if j + 1 > 52 {
                    lemma_pow2_pos(j as nat);
                }
            }
            assert(m * 2 == ai * pow2((j + 1) as nat)) by (nonlinear_arith)
                requires
                    m == ai * pow2(j as nat),
                    pow2((j + 1) as nat) == 2 * pow2(j as nat),
            ;
            m = m * 2;
            j = j + 1;
            proof {
                if m < 0x10_0000_0000_0000 && j >= 52 {
                    lemma2_to64_rest();
                    lemma_pow2_pos((j - 52) as nat);
                    lemma_pow2_adds(52, (j - 52) as nat);
                    assert(ai * pow2(j as nat) >= pow2(52)) by (nonlinear_arith)
                        requires
                            ai >= 1,
                            pow2(j as nat) == pow2(52) * pow2((j - 52) as nat),
                            pow2((j - 52) as nat) >= 1,
                    ;
                }
            }
        }
        let e: u64 = 52 - j;
        proof {
            lemma_pow2_adds(e as nat, j as nat);
            lemma_pow2_adds((e + 1) as nat, j as nat);
            lemma_pow2_pos(j as nat);
            assert(pow2(52) == 0x10_0000_0000_0000);
            assert(pow2(53) == 0x20_0000_0000_0000);
            assert(pow2(e as nat) * pow2(j as nat) == pow2(52));
            assert(pow2((e + 1) as nat) * pow2(j as nat) == pow2(53));
            assert(pow2(e as nat) <= ai) by (nonlinear_arith)
                requires
                    ai * pow2(j as nat) >= pow2(e as nat) * pow2(j as nat),
                    pow2(j as nat) > 0,
            ;
            assert(ai < pow2((e + 1) as nat)) by (nonlinear_arith)
                requires
                    ai * pow2(j as nat) < pow2((e + 1) as nat) * pow2(j as nat),
                    pow2(j as nat) > 0,
            ;
            assert(top_bit(ai, e as nat));
            let c = choose|c: nat| top_bit(ai, c);
            lemma_top_bit_unique(ai, c, e as nat);
        }
        significand = m;
        exponent = e;
    } else {
        let mut q: u128 = a;
        let mut p: u128 = 1;
        let mut rem: u128 = 0;
        let mut k: u64 = 0;
        while q >= 0x20_0000_0000_0000
            invariant
                k <= 75,
                ai == q * p + rem,
                rem < p,
                p == pow2(k as nat),
                q >= 1,
                k > 0 ==> q >= 0x10_0000_0000_0000,
                ai >= 0x20_0000_0000_0000,
                ai <= 0x8000_0000_0000_0000_0000_0000_0000_0000,
                p * 0x10_0000_0000_0000 <= ai,
            decreases q,
        {
            proof {
                lemma_pow2_unfold((k + 1) as nat);
            }
            assert(p * 2 * 0x10_0000_0000_0000 <= ai) by (nonlinear_arith)
                requires
                    ai == q * p + rem,
                    q >= 0x20_0000_0000_0000,
                    rem >= 0,
                    p >= 1,
            ;
            proof {
                vstd::arithmetic::power2::lemma2_to64();
                lemma_pow2_adds(64, 11);
                if k + 1 > 75 {
                    lemma_pow2_strictly_increases(75, (k + 1) as nat);
                }
                assert(p * 2 == pow2((k + 1) as nat));
                assert(k + 1 <= 75);
            }
            let bit = q % 2;
            assert(ai == (q / 2) * (p * 2) + (rem + bit * p)) by (nonlinear_arith)
                requires
                    ai == q * p + rem,
                    q == 2 * (q / 2) + bit,
            ;
            assert(rem + bit * p < p * 2) by (nonlinear_arith)
                requires
                    rem < p,
                    bit <= 1,
                    bit >= 0,
            ;
            rem = rem + bit * p;
            q = q / 2;
            p = p * 2;
            k = k + 1;
        }
        proof {
            assert(pow2(52) == 0x10_0000_0000_0000);
            assert(pow2(53) == 0x20_0000_0000_0000);
            if k == 0 {
                assert(p == 1);
                assert(q * p == q) by (nonlinear_arith)
                    requires
                        p == 1,
                ;
            }
            assert(k > 0);
            lemma_pow2_adds(52, k as nat);
            lemma_pow2_adds(53, k as nat);
            assert(pow2((52 + k) as nat) <= ai) by (nonlinear_arith)
                requires
                    ai == q * p + rem,
                    q >= pow2(52),
                    rem >= 0,
                    p >= 1,
                    pow2((52 + k) as nat) == pow2(52) * p,
            ;
            assert(ai < pow2((53 + k) as nat)) by (nonlinear_arith)
                requires
                    ai == q * p + rem,
                    q < pow2(53),
                    rem < p,
                    p >= 1,
                    pow2((53 + k) as nat) == pow2(53) * p,
            ;
            assert(top_bit(ai, (52 + k) as nat));
            let c = choose|c: nat| top_bit(ai, c);
            lemma_top_bit_unique(ai, c, (52 + k) as nat);
            vstd::arithmetic::div_mod::lemma_fundamental_div_mod_converse(ai, p as int, q as int, rem as int);
            lemma_pow2_unfold(k as nat);
        }
        let half = p / 2;
        let up = rem > half || (rem == half && q % 2 == 1);
        let rounded = if up {
            q + 1
        } else {
            q
        };
        if rounded == 0x20_0000_0000_0000 {
            significand = 0x10_0000_0000_0000;
            exponent = 53 + k;
        } else {
            significand = rounded;
            exponent = 52 + k;
        }
    }
    let fraction = (significand - 0x10_0000_0000_0000) as u64;
    sign + (exponent + 1023) * 0x10_0000_0000_0000 + fraction
}

} // verus!
