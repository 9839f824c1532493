use vstd::prelude::*;
use vstd::arithmetic::power2::{pow2, lemma_pow2_pos, lemma_pow2_unfold, lemma_pow2_strictly_increases, lemma2_to64};
use vstd::arithmetic::div_mod::{lemma_fundamental_div_mod, lemma_mod_multiples_basic};

verus! {

/// Whether the sign bit of the binary32 number with the bits `bits` is set.
pub open spec fn sign_bit(bits: u32) -> bool {
    bits >= 0x8000_0000
}

/// The exponent field of a binary32 number: its eight bits after the sign.
pub open spec fn exponent_field(bits: u32) -> int {
    (bits as int / 0x80_0000) % 0x100
}

/// The fraction field of a binary32 number: its lowest 23 bits.
pub open spec fn fraction_field(bits: u32) -> int {
    bits as int % 0x80_0000
}

/// Whether the number is finite: neither an infinity nor a NaN.
pub open spec fn is_finite(bits: u32) -> bool {
    exponent_field(bits) != 0xff
}

/// The power of two by which the significand of a finite number is scaled.
pub open spec fn scale(bits: u32) -> int {
    if exponent_field(bits) == 0 {
        -149
    } else {
        exponent_field(bits) - 150
    }
}

/// The significand of a finite number with its sign: the number is
/// `significand * 2^scale`.
pub open spec fn significand(bits: u32) -> int {
    let magnitude = if exponent_field(bits) == 0 {
        fraction_field(bits)
    } else {
        0x80_0000 + fraction_field(bits)
    };
    if sign_bit(bits) {
        -magnitude
    } else {
        magnitude
    }
}

/// Whether the binary32 number with the bits `bits` is exactly the whole
/// number `n`.
pub open spec fn is_whole(bits: u32, n: int) -> bool {
    &&& is_finite(bits)
    &&& if scale(bits) >= 0 {
        n == significand(bits) * pow2(scale(bits) as nat)
    } else {
        n * pow2((-scale(bits)) as nat) == significand(bits)
    }
}

/// Whether the binary32 number with the bits `bits` lies strictly between
/// the whole numbers `n` and `n + 1`.
pub open spec fn is_between(bits: u32, n: int) -> bool {
    &&& is_finite(bits)
    &&& scale(bits) < 0
    &&& n * pow2((-scale(bits)) as nat) < significand(bits) < (n + 1) * pow2((-scale(bits)) as nat)
}

/// The cost that a binary32 number stands for: the number itself where it
/// is a whole number from 0 to 255, and none otherwise.
pub open spec fn exact_cost(bits: u32) -> Option<u8> {
    if exists|n: int| 0 <= n <= 255 && is_whole(bits, n) {
        Some((choose|n: int| 0 <= n <= 255 && is_whole(bits, n)) as u8)
    } else {
        None
    }
}

proof fn lemma_product_order(a: int, b: int, d: int)
    requires
        d > 0,
        a * d < b * d,
    ensures
        a < b,
{
    assert(a < b) by (nonlinear_arith)
        requires
            d > 0,
            a * d < b * d,
    ;
}

proof fn lemma_product_grows(a: int, b: int, d: int)
    requires
        d > 0,
        a <= b,
    ensures
        a * d <= b * d,
{
    assert(a * d <= b * d) by (nonlinear_arith)
        requires
            d > 0,
            a <= b,
    ;
}

/// A number is at most one whole number.
pub proof fn lemma_whole_is_unique(bits: u32, n: int, k: int)
    requires
        is_whole(bits, n),
        is_whole(bits, k),
    ensures
        n == k,
{
    if scale(bits) < 0 {
        let d = pow2((-scale(bits)) as nat) as int;
        lemma_pow2_pos((-scale(bits)) as nat);
        if n < k {
            lemma_product_grows(n + 1, k, d);
            assert((n + 1) * d == n * d + d) by (nonlinear_arith);
        } else if k < n {
            lemma_product_grows(k + 1, n, d);
            assert((k + 1) * d == k * d + d) by (nonlinear_arith);
        }
    }
}

/// A finite number is a whole number, or it lies strictly between two
/// consecutive whole numbers; it never does both.
pub proof fn lemma_whole_or_between(bits: u32)
    requires
        is_finite(bits),
    ensures
        (exists|n: int| is_whole(bits, n)) != (exists|n: int| is_between(bits, n)),
{
    if scale(bits) >= 0 {
        assert(is_whole(bits, significand(bits) * pow2(scale(bits) as nat)));
    } else {
        let d = pow2((-scale(bits)) as nat) as int;
        let q = significand(bits) / d;
        lemma_pow2_pos((-scale(bits)) as nat);
        lemma_fundamental_div_mod(significand(bits), d);
        assert(d * q == q * d) by (nonlinear_arith);
        assert((q + 1) * d == q * d + d) by (nonlinear_arith);
        if significand(bits) % d == 0 {
            assert(is_whole(bits, q));
        } else {
            assert(is_between(bits, q));
        }
        assert forall|n: int, k: int| is_whole(bits, n) && is_between(bits, k) implies false by {
            lemma_product_order(k, n, d);
            lemma_product_order(n, k + 1, d);
        }
    }
}

/// The cost of a finite number is refused if and only if the number lies
/// strictly between two consecutive whole numbers, and is the number itself
/// otherwise. This holds of the numbers that are no whole number outside
/// the range of a cost, 0 to 255.
pub proof fn lemma_cost_refuses_fractions(bits: u32)
    requires
        is_finite(bits),
        forall|n: int| is_whole(bits, n) ==> 0 <= n <= 255,
    ensures
        exact_cost(bits) is None <==> exists|n: int| is_between(bits, n),
        exact_cost(bits) matches Some(cost) ==> is_whole(bits, cost as int),
{
    lemma_whole_or_between(bits);
    if exists|n: int| is_whole(bits, n) {
        let n = choose|n: int| is_whole(bits, n);
        assert(0 <= n <= 255 && is_whole(bits, n));
    }
}

/// 2 to the power of `shift`.
fn power_of_two(shift: u32) -> (power: u32)
    requires
        shift <= 23,
    ensures
        power == pow2(shift as nat),
        0 < power <= 0x80_0000,
{
    let mut power: u32 = 1;
    let mut i: u32 = 0;
    proof {
        lemma2_to64();
    }
    while i < shift
        invariant
            i <= shift <= 23,
            power == pow2(i as nat),
            pow2(23) == 0x80_0000,
            0 < power <= 0x80_0000,
        decreases shift - i,
    {
        proof {
            lemma_pow2_unfold((i + 1) as nat);
            if i + 1 < 23 {
                lemma_pow2_strictly_increases((i + 1) as nat, 23);
            }
        }
        power = power * 2;
        i += 1;
    }
    power
}

/// The cost that the binary32 number with the bits `bits` stands for: the
/// number itself where it is a whole number from 0 to 255. No cost comes of
/// a number with a fractional part, of one outside that range, or of an
/// infinity or a NaN.
pub fn cmc_f32_to_u8(bits: u32) -> (cost: Option<u8>)
    ensures
        cost == exact_cost(bits),
        match cost {
            Some(n) => is_whole(bits, n as int),
            None => forall|n: int| 0 <= n <= 255 ==> !is_whole(bits, n),
        },
{
    let exponent: u32 = (bits / 0x80_0000) % 0x100;
    let fraction: u32 = bits % 0x80_0000;
    let negative = bits >= 0x8000_0000;
    proof {
        lemma2_to64();
    }
    let cost: Option<u8> = if exponent == 0xff {
        None
    } else if exponent == 0 {
        if fraction == 0 {
            assert(is_whole(bits, 0)) by {
                assert(0 * pow2(149) == 0) by (nonlinear_arith);
            }
            Some(0)
        } else {
            assert forall|n: int| 0 <= n <= 255 implies !is_whole(bits, n) by {
                let d = pow2(149) as int;
                lemma_pow2_strictly_increases(23, 149);
                if n >= 1 {
                    lemma_product_grows(1, n, d);
                }
                assert(0 * d == 0) by (nonlinear_arith);
                assert(1 * d == d) by (nonlinear_arith);
            }
            None
        }
    } else if negative {
        assert forall|n: int| 0 <= n <= 255 implies !is_whole(bits, n) by {
            if scale(bits) >= 0 {
                let d = pow2(scale(bits) as nat) as int;
                lemma_pow2_pos(scale(bits) as nat);
                lemma_product_grows(significand(bits), -1, d);
                assert((-1) * d == -d) by (nonlinear_arith);
            } else {
                let d = pow2((-scale(bits)) as nat) as int;
                lemma_pow2_pos((-scale(bits)) as nat);
                lemma_product_grows(0, n, d);
                assert(0 * d == 0) by (nonlinear_arith);
            }
        }
        None
    } else if exponent < 127 {
        assert forall|n: int| 0 <= n <= 255 implies !is_whole(bits, n) by {
            let d = pow2((150 - exponent) as nat) as int;
            if 150 - exponent > 24 {
                lemma_pow2_strictly_increases(24, (150 - exponent) as nat);
            }
            if n >= 1 {
                lemma_product_grows(1, n, d);
            }
            assert(0 * d == 0) by (nonlinear_arith);
            assert(1 * d == d) by (nonlinear_arith);
        }
        None
    } else if exponent > 134 {
        assert forall|n: int| 0 <= n <= 255 implies !is_whole(bits, n) by {
            if exponent >= 150 {
                let d = pow2((exponent - 150) as nat) as int;
                lemma_pow2_pos((exponent - 150) as nat);
                lemma_product_grows(1, d, significand(bits));
                assert(1 * significand(bits) == significand(bits)) by (nonlinear_arith);
                assert(d * significand(bits) == significand(bits) * d) by (nonlinear_arith);
            } else {
                let d = pow2((150 - exponent) as nat) as int;
                lemma_pow2_pos((150 - exponent) as nat);
                if 150 - exponent < 15 {
                    lemma_pow2_strictly_increases((150 - exponent) as nat, 15);
                }
                lemma_product_grows(n, 255, d);
                assert(255 * d <= 255 * 0x8000) by (nonlinear_arith)
                    requires
                        d <= 0x8000,
                ;
            }
        }
        None
    } else {
        let shift: u32 = 150 - exponent;
        let divisor: u32 = power_of_two(shift);
        let magnitude: u32 = 0x80_0000 + fraction;
        proof {
            if shift > 16 {
                lemma_pow2_strictly_increases(16, shift as nat);
            }
            lemma_fundamental_div_mod(magnitude as int, divisor as int);
        }
        if magnitude % divisor != 0 {
            assert forall|n: int| 0 <= n <= 255 implies !is_whole(bits, n) by {
                lemma_mod_multiples_basic(n, divisor as int);
            }
            None
        } else {
            let whole: u32 = magnitude / divisor;
            proof {
                assert(divisor * whole == whole * divisor) by (nonlinear_arith);
                assert(whole < 256) by {
                    if whole >= 256 {
                        lemma_product_grows(256, whole as int, divisor as int);
                        lemma_product_grows(0x1_0000, divisor as int, 256);
                        assert(256 * divisor == divisor * 256) by (nonlinear_arith);
                    }
                }
                assert(is_whole(bits, whole as int));
            }
            Some(whole as u8)
        }
    };
    proof {
        match cost {
            Some(n) => {
                let k = choose|k: int| 0 <= k <= 255 && is_whole(bits, k);
                lemma_whole_is_unique(bits, n as int, k);
            },
            None => {},
        }
    }
    cost
}

} // verus!
