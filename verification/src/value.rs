//! Runtime values.
//!
//! The working value type of the machine is an IEEE 754 double-precision
//! float. Verified code handles such a value only as its 64-bit pattern;
//! the arithmetic on those patterns is done by `rustc_apfloat`, a software
//! implementation of IEEE 754 that works on integer bit patterns, behind
//! the trusted wrappers below.

use vstd::arithmetic::power2::{
    lemma2_to64, lemma2_to64_rest, lemma_pow2_adds, lemma_pow2_pos, lemma_pow2_strictly_increases,
    lemma_pow2_unfold, pow2,
};
use vstd::prelude::*;

verus! {

/// The bit pattern of an IEEE 754 double-precision (binary64) value.
pub type Value = u64;

/// The binary64 value, if any, that `rustc_apfloat`'s decimal parser reads
/// from a numeric lexeme. The outcome depends on the lexeme's bytes alone.
pub uninterp spec fn number_bits_of(lexeme: Seq<u8>) -> Option<Value>;

/// The binary64 sum of two values, rounded ties-to-even.
pub uninterp spec fn add_bits(a: Value, b: Value) -> Value;

/// The binary64 difference of two values, rounded ties-to-even.
pub uninterp spec fn sub_bits(a: Value, b: Value) -> Value;

/// The binary64 product of two values, rounded ties-to-even.
pub uninterp spec fn mul_bits(a: Value, b: Value) -> Value;

/// The binary64 quotient of two values, rounded ties-to-even.
pub uninterp spec fn div_bits(a: Value, b: Value) -> Value;

/// Relies on `rustc_apfloat::ieee::Double`'s `FromStr` impl: correctly
/// rounded IEEE 754 binary64 parsing of a decimal lexeme, a function of the
/// lexeme's bytes alone; a lexeme it cannot read yields `None`.
#[verifier::external_body]
pub fn parse_number(lexeme: &[u8]) -> (r: Option<Value>)
    ensures
        r == number_bits_of(lexeme@),
{
    let s = match core::str::from_utf8(lexeme) {
        Ok(s) => s,
        Err(_) => return None,
    };
    match <rustc_apfloat::ieee::Double as core::str::FromStr>::from_str(s) {
        Ok(d) => Some(rustc_apfloat::Float::to_bits(d) as u64),
        Err(_) => None,
    }
}

/// Relies on `rustc_apfloat`'s `Add` impl for `ieee::Double`: IEEE 754
/// binary64 addition, rounded ties-to-even, on the two bit patterns alone.
#[verifier::external_body]
pub fn value_add(a: Value, b: Value) -> (r: Value)
    ensures
        r == add_bits(a, b),
{
    let x: rustc_apfloat::ieee::Double = rustc_apfloat::Float::from_bits(a as u128);
    let y: rustc_apfloat::ieee::Double = rustc_apfloat::Float::from_bits(b as u128);
    rustc_apfloat::Float::to_bits((x + y).value) as u64
}

/// Relies on `rustc_apfloat`'s `Sub` impl for `ieee::Double`: IEEE 754
/// binary64 subtraction, rounded ties-to-even, on the two bit patterns alone.
#[verifier::external_body]
pub fn value_sub(a: Value, b: Value) -> (r: Value)
    ensures
        r == sub_bits(a, b),
{
    let x: rustc_apfloat::ieee::Double = rustc_apfloat::Float::from_bits(a as u128);
    let y: rustc_apfloat::ieee::Double = rustc_apfloat::Float::from_bits(b as u128);
    rustc_apfloat::Float::to_bits((x - y).value) as u64
}

/// Relies on `rustc_apfloat`'s `Mul` impl for `ieee::Double`: IEEE 754
/// binary64 multiplication, rounded ties-to-even, on the two bit patterns alone.
#[verifier::external_body]
pub fn value_mul(a: Value, b: Value) -> (r: Value)
    ensures
        r == mul_bits(a, b),
{
    let x: rustc_apfloat::ieee::Double = rustc_apfloat::Float::from_bits(a as u128);
    let y: rustc_apfloat::ieee::Double = rustc_apfloat::Float::from_bits(b as u128);
    rustc_apfloat::Float::to_bits((x * y).value) as u64
}

/// Relies on `rustc_apfloat`'s `Div` impl for `ieee::Double`: IEEE 754
/// binary64 division, rounded ties-to-even, on the two bit patterns alone.
#[verifier::external_body]
pub fn value_div(a: Value, b: Value) -> (r: Value)
    ensures
        r == div_bits(a, b),
{
    let x: rustc_apfloat::ieee::Double = rustc_apfloat::Float::from_bits(a as u128);
    let y: rustc_apfloat::ieee::Double = rustc_apfloat::Float::from_bits(b as u128);
    rustc_apfloat::Float::to_bits((x / y).value) as u64
}

/// The text `rustc_apfloat`'s `Display` impl writes for the binary64 value
/// with the given bits: a function of the bits alone.
pub uninterp spec fn float_text(bits: u64) -> Seq<u8>;

/// Relies on `rustc_apfloat`'s `Display` impl for `ieee::Double`: renders
/// the value of the given bit pattern as decimal text, in ASCII, a function
/// of the bits alone.
#[verifier::external_body]
pub fn render_value(bits: Value) -> (r: Vec<u8>)
    ensures
        r@ == float_text(bits),
        forall|i: int| 0 <= i < r@.len() ==> r@[i] < 128,
{
    let d: rustc_apfloat::ieee::Double = rustc_apfloat::Float::from_bits(bits as u128);
    format!("{}", d).into_bytes()
}

/// The binary64 negation of a value: IEEE 754 negation flips the sign bit
/// and leaves exponent and significand unchanged.
pub open spec fn negate_bits(a: Value) -> Value {
    a ^ 0x8000_0000_0000_0000
}

/// Negate a value in place of the hardware's float negation.
pub fn value_negate(a: Value) -> (r: Value)
    ensures
        r == negate_bits(a),
{
    a ^ 0x8000_0000_0000_0000
}

/// The position of the highest set bit of `n`, i.e. the floor of its base-2
/// logarithm; 0 for 0 and 1.
pub open spec fn msb(n: nat) -> nat
    decreases n,
{
    if n < 2 {
        0
    } else {
        1 + msb(n / 2)
    }
}

/// The bit pattern of an inline literal widened to binary64. Every 16-bit
/// integer is exactly representable: a positive `n` with highest set bit `e`
/// has biased exponent `1023 + e` and significand `n - 2^e`, placed in the
/// top bits of the 52-bit significand field.
pub open spec fn literal_bits(n: u16) -> Value {
    if n == 0 {
        0
    } else {
        let e = msb(n as nat);
        ((1023 + e) * pow2(52) + (n - pow2(e)) * pow2((52 - e) as nat)) as u64
    }
}

/// The highest set bit of a number lying between two adjacent powers of two
/// is the lower one's exponent.
proof fn lemma_msb_of_range(n: nat, e: nat)
    requires
        pow2(e) <= n < pow2(e + 1),
    ensures
        msb(n) == e,
    decreases e,
{
    lemma2_to64();
    if e == 0 {
        assert(n == 1);
    } else {
        lemma_pow2_unfold(e);
        lemma_pow2_unfold(e + 1);
        assert(pow2((e - 1) as nat) <= n / 2 < pow2(e));
        lemma_msb_of_range(n / 2, (e - 1) as nat);
    }
}

/// 2 to the `k`-th power, computed exactly.
fn pow2_exec(k: u64) -> (r: u64)
    requires
        k <= 63,
    ensures
        r as nat == pow2(k as nat),
{
    let mut i: u64 = 0;
    let mut r: u64 = 1;
    proof {
        lemma2_to64();
    }
    while i < k
        invariant
            i <= k <= 63,
            r as nat == pow2(i as nat),
        decreases k - i,
    {
        proof {
            lemma2_to64();
            lemma2_to64_rest();
            if (i as nat) < 63 {
                lemma_pow2_strictly_increases(i as nat, 63);
            }
            lemma_pow2_unfold((i + 1) as nat);
        }
        r = 2 * r;
        i = i + 1;
    }
    r
}

/// Widen an inline 16-bit literal to its binary64 bit pattern.
pub fn literal_value(n: u16) -> (r: Value)
    ensures
        r == literal_bits(n),
{
    if n == 0 {
        return 0;
    }
    let w: u64 = n as u64;
    let mut e: u64 = 0;
    let mut p: u64 = 1;
    proof {
        lemma2_to64();
    }
    while 2 * p <= w
        invariant
            1 <= p <= w < 0x10000,
            p as nat == pow2(e as nat),
            e <= 15,
        decreases w - p,
    {
        proof {
            lemma2_to64();
            if (e as nat) >= 15 {
                lemma_pow2_strictly_increases(15, e as nat);
            }
            lemma_pow2_unfold((e + 1) as nat);
        }
        p = 2 * p;
        e = e + 1;
    }
    proof {
        lemma_pow2_unfold((e + 1) as nat);
        lemma_msb_of_range(n as nat, e as nat);
    }
    let mantissa: u64 = w - p;
    let scale: u64 = pow2_exec(52 - e);
    let high: u64 = pow2_exec(52);
    proof {
        lemma2_to64_rest();
        lemma_pow2_pos((52 - e) as nat);
        lemma_pow2_adds(e as nat, (52 - e) as nat);
        assert((mantissa as int) * (scale as int) < (p as int) * (scale as int))
            by (nonlinear_arith)
            requires
                (mantissa as int) < (p as int),
                (scale as int) > 0,
        ;
        assert((p as int) * (scale as int) == high as int);
    }
    (1023 + e) * high + mantissa * scale
}

} // verus!
