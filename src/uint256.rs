use vstd::prelude::*;

verus! {

/// 2^128, the weight of the high half of a [`Uint256`].
pub open spec fn half_base() -> nat {
    u128::MAX as nat + 1
}

/// 2^256, one more than the largest value a [`Uint256`] holds.
pub open spec fn word_limit() -> nat {
    half_base() * half_base()
}

/// An unsigned 256-bit integer (a balance or a nonce), held as two 128-bit halves.
#[derive(Clone, Copy, Debug, PartialEq, Eq)]
pub struct Uint256 {
    pub hi: u128,
    pub lo: u128,
}

proof fn lemma_halves_order(h1: int, l1: int, h2: int, l2: int, b: int) by (nonlinear_arith)
    requires
        h1 >= h2 + 1,
        0 <= l1,
        0 <= l2 < b,
    ensures
        h1 * b + l1 > h2 * b + l2,
{
}

proof fn lemma_halves_shift(h: int, b: int) by (nonlinear_arith)
    ensures
        (h - 1) * b + b == h * b,
        (h + 1) * b == h * b + b,
{
}

proof fn lemma_halves_sub(h1: int, h2: int, b: int) by (nonlinear_arith)
    ensures
        (h1 - h2) * b == h1 * b - h2 * b,
        (h1 + h2) * b == h1 * b + h2 * b,
{
}

impl Uint256 {
    /// The number this word stands for.
    pub open spec fn value(self) -> nat {
        self.hi as nat * half_base() + self.lo as nat
    }

    /// Two words with the same value are the same word.
    pub proof fn lemma_value_injective(self, other: Self)
        ensures
            self.value() == other.value() <==> self == other,
    {
        let b = half_base() as int;
        if self.hi > other.hi {
            lemma_halves_order(self.hi as int, self.lo as int, other.hi as int, other.lo as int, b);
        } else if self.hi < other.hi {
            lemma_halves_order(other.hi as int, other.lo as int, self.hi as int, self.lo as int, b);
        }
    }

    pub fn zero() -> (r: Self)
        ensures
            r.value() == 0,
    {
        Uint256 { hi: 0, lo: 0 }
    }

    pub fn from_u128(v: u128) -> (r: Self)
        ensures
            r.value() == v,
    {
        Uint256 { hi: 0, lo: v }
    }

    pub fn is_zero(&self) -> (r: bool)
        ensures
            r == (self.value() == 0),
    {
        proof {
            self.lemma_value_injective(Uint256 { hi: 0, lo: 0 });
        }
        self.hi == 0 && self.lo == 0
    }

    /// Whether the two words hold the same number.
    pub fn eq_value(&self, other: &Self) -> (r: bool)
        ensures
            r == (self.value() == other.value()),
    {
        proof {
            self.lemma_value_injective(*other);
        }
        self.hi == other.hi && self.lo == other.lo
    }

    /// Whether this word is strictly greater than `other`.
    pub fn gt(&self, other: &Self) -> (r: bool)
        ensures
            r == (self.value() > other.value()),
    {
        let ghost b = half_base() as int;
        proof {
            if self.hi > other.hi {
                lemma_halves_order(self.hi as int, self.lo as int, other.hi as int, other.lo as int, b);
            } else if self.hi < other.hi {
                lemma_halves_order(other.hi as int, other.lo as int, self.hi as int, self.lo as int, b);
            }
        }
        self.hi > other.hi || (self.hi == other.hi && self.lo > other.lo)
    }

    /// The distance between the two numbers, `|self - other|`.
    pub fn abs_diff(&self, other: &Self) -> (r: Self)
        ensures
            r.value() == if self.value() >= other.value() {
                self.value() - other.value()
            } else {
                other.value() - self.value()
            },
    {
        if self.gt(other) {
            Self::sub_below(self, other)
        } else {
            Self::sub_below(other, self)
        }
    }

    fn sub_below(a: &Self, b: &Self) -> (r: Self)
        requires
            a.value() >= b.value(),
        ensures
            r.value() == a.value() - b.value(),
    {
        let ghost base = half_base() as int;
        if a.lo >= b.lo {
            proof {
                if a.hi < b.hi {
                    lemma_halves_order(b.hi as int, b.lo as int, a.hi as int, a.lo as int, base);
                }
                lemma_halves_sub(a.hi as int, b.hi as int, base);
            }
            Uint256 { hi: a.hi - b.hi, lo: a.lo - b.lo }
        } else {
            proof {
                if a.hi <= b.hi {
                    if a.hi < b.hi {
                        lemma_halves_order(b.hi as int, b.lo as int, a.hi as int, a.lo as int, base);
                    }
                }
                lemma_halves_sub(a.hi as int, b.hi as int, base);
                lemma_halves_shift(a.hi - b.hi, base);
            }
            Uint256 { hi: a.hi - b.hi - 1, lo: (u128::MAX - b.lo) + a.lo + 1 }
        }
    }

    /// The sum of the two numbers, or `None` where it reaches 2^256.
    pub fn checked_add(&self, other: &Self) -> (r: Option<Self>)
        ensures
            match r {
                Some(s) => s.value() == self.value() + other.value(),
                None => self.value() + other.value() >= word_limit(),
            },
    {
        let ghost base = half_base() as int;
        proof {
            lemma_halves_sub(self.hi as int, other.hi as int, base);
        }
        let (lo, carry): (u128, u128) = if self.lo <= u128::MAX - other.lo {
            (self.lo + other.lo, 0)
        } else {
            (self.lo - (u128::MAX - other.lo) - 1, 1)
        };
        if self.hi > u128::MAX - other.hi || self.hi + other.hi > u128::MAX - carry {
            proof {
                let h = self.hi + other.hi + carry;
                assert(h >= base);
                lemma_halves_shift(self.hi + other.hi, base);
                lemma_halves_order(h, lo as int, base - 1, base - 1, base);
                lemma_halves_shift(base, base);
            }
            None
        } else {
            proof {
                lemma_halves_shift(self.hi + other.hi, base);
            }
            Some(Uint256 { hi: self.hi + other.hi + carry, lo })
        }
    }
}

} // verus!
