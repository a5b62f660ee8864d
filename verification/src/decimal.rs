//! The decimal representation: a 96 bit mantissa in three 32 bit words, and a flags word that
//! holds the sign (bit 31) and the scale (bits 16 to 23).
use vstd::prelude::*;

verus! {

/// The largest scale a decimal may have.
pub const MAX_SCALE: u32 = 28;

/// The largest power of ten that fits within a u64.
pub const MAX_I64_SCALE: u32 = 19;

pub const SCALE_SHIFT: u32 = 16;

pub const SIGN_SHIFT: u32 = 31;

pub const SIGN_MASK: u32 = 0x8000_0000;

pub const SCALE_MASK: u32 = 0x00FF_0000;

/// 2^32
pub open spec fn base32() -> nat {
    0x1_0000_0000
}

/// 2^64
pub open spec fn base64() -> nat {
    0x1_0000_0000_0000_0000
}

/// 2^96
pub open spec fn base96() -> nat {
    0x1_0000_0000_0000_0000_0000_0000
}

/// 2^128
pub open spec fn base128() -> nat {
    0x1_0000_0000_0000_0000_0000_0000_0000_0000nat
}

/// The flags word of a decimal with the given sign and scale.
pub open spec fn flags_spec(negative: bool, scale: nat) -> nat {
    (if negative {
        0x8000_0000nat
    } else {
        0nat
    }) + scale * 0x1_0000
}

#[derive(Clone, Copy, Debug)]
pub struct Decimal {
    pub flags: u32,
    pub hi: u32,
    pub lo: u32,
    pub mid: u32,
}

/// The outcome of an arithmetic operation on decimals.
#[derive(Clone, Copy, Debug)]
pub enum CalculationResult {
    Value(Decimal),
    Overflow,
    DivByZero,
}

impl Decimal {
    /// The mantissa as a natural number.
    pub open spec fn mantissa_spec(self) -> nat {
        self.lo as nat + self.mid as nat * base32() + self.hi as nat * base64()
    }

    /// Whether the sign bit is set.
    pub open spec fn negative_spec(self) -> bool {
        self.flags >= 0x8000_0000
    }

    /// The scale held in bits 16 to 23 of the flags.
    pub open spec fn scale_spec(self) -> nat {
        ((self.flags / 0x1_0000) % 0x100) as nat
    }

    /// A well formed decimal: the flags hold only a sign and a scale of at most `MAX_SCALE`.
    pub open spec fn wf(self) -> bool {
        &&& self.flags == flags_spec(self.negative_spec(), self.scale_spec())
        &&& self.scale_spec() <= MAX_SCALE
    }
}


/// Bit level facts about the flags word, in arithmetic terms.
pub proof fn lemma_flags_bits(f: u32)
    ensures
        (f & 0x00FF_0000u32) >> 16u32 == (f / 0x1_0000) % 0x100,
        (f & 0x8000_0000u32 > 0u32) == (f >= 0x8000_0000u32),
{
    assert((f & 0x00FF_0000u32) >> 16u32 == (f / 0x1_0000) % 0x100) by (bit_vector);
    assert((f & 0x8000_0000u32 > 0u32) == (f >= 0x8000_0000u32)) by (bit_vector);
}

/// Three words are all zero exactly when their bitwise or is.
pub proof fn lemma_or3_zero(a: u32, b: u32, c: u32)
    ensures
        (a | b | c == 0u32) == (a == 0u32 && b == 0u32 && c == 0u32),
{
    assert((a | b | c == 0u32) == (a == 0u32 && b == 0u32 && c == 0u32)) by (bit_vector);
}

/// Builds a flags word from a sign and a scale.
pub fn flags(negative: bool, scale: u32) -> (r: u32)
    ensures
        r == (scale << 16u32) | (if negative {
            0x8000_0000u32
        } else {
            0u32
        }),
        scale < 0x8000 ==> r as nat == flags_spec(negative, scale as nat),
{
    let n: u32 = if negative {
        1
    } else {
        0
    };
    proof {
        assert(n <= 1u32 ==> n << 31u32 == (if n == 1u32 {
            0x8000_0000u32
        } else {
            0u32
        })) by (bit_vector);
        if scale < 0x8000 {
            assert(n <= 1u32 && scale < 0x8000u32 ==> (scale << 16u32) | (n << 31u32) == scale
                * 0x1_0000 + n * 0x8000_0000) by (bit_vector);
        }
    }
    (scale << SCALE_SHIFT) | (n << SIGN_SHIFT)
}

impl Decimal {
    /// The largest scale a decimal may have.
    pub const MAX_SCALE: u32 = 28;

    /// Zero, with a positive sign and a scale of zero.
    pub fn zero() -> (d: Decimal)
        ensures
            d.mantissa_spec() == 0,
            !d.negative_spec(),
            d.scale_spec() == 0,
            d.wf(),
    {
        Decimal { flags: 0, hi: 0, lo: 0, mid: 0 }
    }

    /// Builds a decimal from its words and flags as they are.
    pub fn from_parts_raw_unchecked(lo: u32, mid: u32, hi: u32, flags: u32) -> (d: Decimal)
        ensures
            d.lo == lo,
            d.mid == mid,
            d.hi == hi,
            d.flags == flags,
    {
        Decimal { flags, hi, lo, mid }
    }

    /// Builds a decimal from its words, sign and scale. A zero mantissa is always positive.
    pub fn from_parts(lo: u32, mid: u32, hi: u32, negative: bool, scale: u32) -> (d: Decimal)
        requires
            scale <= MAX_SCALE,
        ensures
            d.lo == lo,
            d.mid == mid,
            d.hi == hi,
            d.flags as nat == flags_spec(
                negative && !(lo == 0 && mid == 0 && hi == 0),
                scale as nat,
            ),
    {
        proof {
            lemma_or3_zero(lo, mid, hi);
        }
        let keep_sign = if lo | mid | hi == 0 {
            false
        } else {
            negative
        };
        Decimal { lo, mid, hi, flags: flags(keep_sign, scale) }
    }

    pub fn lo(&self) -> (r: u32)
        ensures
            r == self.lo,
    {
        self.lo
    }

    pub fn mid(&self) -> (r: u32)
        ensures
            r == self.mid,
    {
        self.mid
    }

    pub fn hi(&self) -> (r: u32)
        ensures
            r == self.hi,
    {
        self.hi
    }

    pub fn flags(&self) -> (r: u32)
        ensures
            r == self.flags,
    {
        self.flags
    }

    /// The scale: the number of digits after the decimal point.
    pub fn scale(&self) -> (r: u32)
        ensures
            r as nat == self.scale_spec(),
    {
        proof {
            lemma_flags_bits(self.flags);
        }
        (self.flags & SCALE_MASK) >> SCALE_SHIFT
    }

    /// Whether the sign bit is set (zero may carry it too).
    pub fn is_sign_negative(&self) -> (r: bool)
        ensures
            r == self.negative_spec(),
    {
        proof {
            lemma_flags_bits(self.flags);
        }
        self.flags & SIGN_MASK > 0
    }

    /// Whether the mantissa is zero.
    pub fn is_zero(&self) -> (r: bool)
        ensures
            r == (self.mantissa_spec() == 0),
    {
        proof {
            lemma_or3_zero(self.lo, self.mid, self.hi);
        }
        self.lo | self.mid | self.hi == 0
    }

    /// The signed mantissa.
    pub fn mantissa(&self) -> (r: i128)
        ensures
            r == (if self.negative_spec() {
                -self.mantissa_spec()
            } else {
                self.mantissa_spec() as int
            }),
    {
        let raw: i128 = self.lo as i128 + self.mid as i128 * 0x1_0000_0000i128 + self.hi as i128
            * 0x1_0000_0000_0000_0000i128;
        if self.is_sign_negative() {
            -raw
        } else {
            raw
        }
    }
}

} // verus!
