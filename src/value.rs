use vstd::arithmetic::div_mod::lemma_small_mod;
use vstd::arithmetic::power2::*;
use vstd::prelude::*;

verus! {

/// A JSON number: its binary64 encoding, and the text that the JSON value
/// model gives the same number by default (used wherever the number is not
/// written as a plain integer).
pub struct JsonNumber {
    pub bits: u64,
    pub text: String,
}

/// A parsed JSON document. Object members are held in the order in which the
/// parser yields them, and are visited in that order.
pub enum JsonValue {
    Null,
    Bool(bool),
    Number(JsonNumber),
    String(String),
    Array(Vec<JsonValue>),
    Object(Vec<(String, JsonValue)>),
}

/// 2^52: the unit of the biased exponent field.
pub open spec fn exponent_unit() -> int {
    0x10_0000_0000_0000
}

/// The 11-bit biased exponent of a binary64 encoding.
pub open spec fn exponent_field(bits: u64) -> int {
    (bits as int / exponent_unit()) % 2048
}

/// The 52-bit fraction of a binary64 encoding.
pub open spec fn fraction_field(bits: u64) -> int {
    bits as int % exponent_unit()
}

/// The sign bit of a binary64 encoding.
pub open spec fn sign_bit(bits: u64) -> bool {
    bits as int >= 0x8000_0000_0000_0000
}

/// Neither an infinity nor a NaN: the exponent field is not all ones.
pub open spec fn is_finite(bits: u64) -> bool {
    exponent_field(bits) != 2047
}

/// The significand as an integer, with the hidden bit of a normal number.
pub open spec fn significand(bits: u64) -> nat {
    if exponent_field(bits) == 0 {
        fraction_field(bits) as nat
    } else {
        (fraction_field(bits) + exponent_unit()) as nat
    }
}

/// The magnitude of a finite number is `significand(bits) * 2^(-scale(bits))`.
pub open spec fn scale(bits: u64) -> int {
    if exponent_field(bits) == 0 {
        1074
    } else {
        1075 - exponent_field(bits)
    }
}

/// The number has no fractional part.
pub open spec fn has_integer_value(bits: u64) -> bool {
    scale(bits) <= 0 || significand(bits) % pow2(scale(bits) as nat) == 0
}

/// The integer part of the magnitude (the whole magnitude where it is integral).
pub open spec fn integer_magnitude(bits: u64) -> nat {
    if scale(bits) <= 0 {
        significand(bits) * pow2((-scale(bits)) as nat)
    } else {
        significand(bits) / pow2(scale(bits) as nat)
    }
}

/// Finite, with no fractional part, and of magnitude below 10^15.
pub open spec fn renders_as_integer(bits: u64) -> bool {
    &&& is_finite(bits)
    &&& has_integer_value(bits)
    &&& integer_magnitude(bits) < 1_000_000_000_000_000
}

/// Whether the encoding is an infinity or a NaN.
pub fn is_non_finite(bits: u64) -> (r: bool)
    ensures
        r == !is_finite(bits),
{
    (bits / 0x10_0000_0000_0000) % 2048 == 2047
}

/// 2^k, for k below 64.
fn power_of_two(k: u64) -> (r: u64)
    requires
        k < 64,
    ensures
        r as nat == pow2(k as nat),
{
    let mut r: u64 = 1;
    let mut i: u64 = 0;
    proof {
        lemma2_to64();
    }
    while i < k
        invariant
            i <= k < 64,
            r as nat == pow2(i as nat),
        decreases k - i,
    {
        proof {
            lemma_pow2_unfold((i + 1) as nat);
            if i + 1 < 64 {
                lemma_pow2_strictly_increases((i + 1) as nat, 64);
            }
            lemma2_to64_rest();
        }
        r = r * 2;
        i = i + 1;
    }
    r
}

/// The sign and magnitude of the number where it is written as a plain
/// integer; `None` where it is not.
pub fn integer_form(bits: u64) -> (r: Option<(bool, u64)>)
    ensures
        r is Some <==> renders_as_integer(bits),
        r matches Some((neg, m)) ==> neg == sign_bit(bits) && m as nat == integer_magnitude(bits),
{
    let exp: u64 = (bits / 0x10_0000_0000_0000) % 2048;
    let frac: u64 = bits % 0x10_0000_0000_0000;
    let neg = bits >= 0x8000_0000_0000_0000;
    if exp == 2047 {
        return None;
    }
    let sig: u64 = if exp == 0 {
        frac
    } else {
        frac + 0x10_0000_0000_0000
    };
    assert(sig as nat == significand(bits));
    if exp >= 1075 {
        proof {
            let p = pow2((exp - 1075) as nat);
            lemma_pow2_pos((exp - 1075) as nat);
            assert(sig * p >= sig) by (nonlinear_arith)
                requires
                    p > 0,
            ;
        }
        return None;
    }
    let shift: u64 = if exp == 0 {
        1074
    } else {
        1075 - exp
    };
    assert(shift as int == scale(bits));
    if shift >= 64 {
        proof {
            lemma2_to64();
            lemma2_to64_rest();
            lemma_pow2_strictly_increases(53, shift as nat);
            assert(sig < 0x20_0000_0000_0000);
            let p = pow2(shift as nat);
            lemma_small_mod(sig as nat, p);
            assert(sig as nat / p == 0) by (nonlinear_arith)
                requires
                    sig < p,
            ;
        }
        if sig == 0 {
            return Some((neg, 0));
        } else {
            return None;
        }
    }
    let d = power_of_two(shift);
    proof {
        lemma_pow2_pos(shift as nat);
    }
    if sig % d != 0 {
        return None;
    }
    let m = sig / d;
    if m < 1_000_000_000_000_000 {
        Some((neg, m))
    } else {
        None
    }
}

} // verus!
