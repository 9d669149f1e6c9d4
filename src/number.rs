//! Exact decimal numbers and the units that may follow them.

use vstd::prelude::*;

verus! {

/// Units that may follow a number in source text.
#[derive(Clone, Copy, Debug, PartialEq, Eq, Structural)]
pub enum Unit {
    Px,
    Pc,
    Pt,
    In,
    Cm,
    Mm,
    Vh,
    Vw,
    VMin,
    VMax,
    Rem,
    Em,
    Deg,
    Percent,
    /// No unit was written.
    Arbitrary,
}

/// `10` raised to `k`.
pub open spec fn pow10(k: nat) -> nat
    decreases k,
{
    if k == 0 {
        1
    } else {
        10 * pow10((k - 1) as nat)
    }
}

/// The canonical form of `±mantissa * 10^exponent`: trailing zeros of the
/// mantissa move into the exponent, and zero is unsigned with exponent `0`.
pub open spec fn normal(negative: bool, mantissa: nat, exponent: int) -> (bool, nat, int)
    decreases mantissa,
{
    if mantissa == 0 {
        (false, 0, 0)
    } else if mantissa % 10 == 0 {
        normal(negative, mantissa / 10, exponent + 1)
    } else {
        (negative, mantissa, exponent)
    }
}

/// An exact decimal number `±mantissa * 10^exponent`.
///
/// Well-formed numbers are canonical, so two of them are equal exactly when
/// they denote the same value.
#[derive(Clone, Copy, Debug, PartialEq, Eq, Structural)]
pub struct Number {
    pub negative: bool,
    pub mantissa: u128,
    pub exponent: i64,
}

pub proof fn lemma_normal_canonical(negative: bool, mantissa: nat, exponent: int)
    ensures
        normal(negative, mantissa, exponent).1 == 0 ==> !normal(negative, mantissa, exponent).0
            && normal(negative, mantissa, exponent).2 == 0,
        normal(negative, mantissa, exponent).1 != 0 ==> normal(negative, mantissa, exponent).1 % 10
            != 0,
        normal(negative, mantissa, exponent).1 <= mantissa,
        mantissa != 0 ==> normal(negative, mantissa, exponent).0 == negative,
    decreases mantissa,
{
    if mantissa != 0 && mantissa % 10 == 0 {
        lemma_normal_canonical(negative, mantissa / 10, exponent + 1);
    }
}

impl Number {
    /// Canonical form: see [`normal`].
    pub open spec fn wf(self) -> bool {
        &&& self.mantissa == 0 ==> !self.negative && self.exponent == 0
        &&& self.mantissa != 0 ==> self.mantissa % 10 != 0
    }

    pub open spec fn parts(self) -> (bool, nat, int) {
        (self.negative, self.mantissa as nat, self.exponent as int)
    }

    pub open spec fn from_parts(p: (bool, nat, int)) -> Number {
        Number { negative: p.0, mantissa: p.1 as u128, exponent: p.2 as i64 }
    }

    /// The value with its sign flipped; zero stays unsigned.
    pub open spec fn neg_spec(self) -> Number {
        if self.mantissa == 0 {
            self
        } else {
            Number { negative: !self.negative, ..self }
        }
    }

    /// A quarter of the value, when it is representable: always for a
    /// mantissa that fits in `u64` (see [`lemma_quarter_total`]).
    pub open spec fn quarter_spec(self) -> Option<Number> {
        if self.mantissa > u128::MAX / 25 || self.exponent < i64::MIN + 2 || self.exponent
            > i64::MAX - 40 {
            None
        } else {
            Some(
                Number::from_parts(
                    normal(self.negative, (25 * self.mantissa) as nat, self.exponent - 2),
                ),
            )
        }
    }

    pub fn neg(self) -> (r: Number)
        ensures
            r == self.neg_spec(),
            self.wf() ==> r.wf(),
    {
        if self.mantissa == 0 {
            self
        } else {
            Number { negative: !self.negative, ..self }
        }
    }

    /// The canonical number `±mantissa * 10^exponent`.
    pub fn normalize(negative: bool, mantissa: u128, exponent: i64) -> (r: Number)
        requires
            exponent <= i64::MAX - 40,
        ensures
            r == Number::from_parts(normal(negative, mantissa as nat, exponent as int)),
            r.wf(),
            r.parts() == normal(negative, mantissa as nat, exponent as int),
    {
        let mut m = mantissa;
        let mut e = exponent;
        let mut k: u64 = 0;
        assert(pow10(0) == 1);
        while m != 0 && m % 10 == 0
            invariant
                normal(negative, m as nat, e as int) == normal(
                    negative,
                    mantissa as nat,
                    exponent as int,
                ),
                e == exponent + k,
                m as nat * pow10(k as nat) == mantissa as nat,
                k <= 39,
                exponent <= i64::MAX - 40,
            decreases m,
        {
            proof {
                assert(pow10((k + 1) as nat) == 10 * pow10(k as nat));
                assert((m / 10) as nat * pow10((k + 1) as nat) == mantissa as nat) by (nonlinear_arith)
                    requires
                        m % 10 == 0,
                        pow10((k + 1) as nat) == 10 * pow10(k as nat),
                        m as nat * pow10(k as nat) == mantissa as nat,
                ;
                assert(m / 10 >= 1);
                if k + 1 > 39 {
                    lemma_pow10_ge(40, (k + 1) as nat);
                    assert((m / 10) as nat * pow10((k + 1) as nat) >= pow10((k + 1) as nat)) by (nonlinear_arith)
                        requires m / 10 >= 1;
                    lemma_pow10_40();
                    assert(false);
                }
            }
            m = m / 10;
            e = e + 1;
            k = k + 1;
        }
        proof {
            lemma_normal_canonical(negative, mantissa as nat, exponent as int);
        }
        if m == 0 {
            Number { negative: false, mantissa: 0, exponent: 0 }
        } else {
            Number { negative, mantissa: m, exponent: e }
        }
    }

    /// The number equal to `v`.
    pub fn from_int(v: i64) -> (r: Number)
        ensures
            r.wf(),
            r.parts() == normal(v < 0, (if v < 0 { -v } else { v as int }) as nat, 0),
    {
        let m: u128 = if v < 0 { (-(v as i128)) as u128 } else { v as u128 };
        Number::normalize(v < 0, m, 0)
    }

    /// A quarter of the number, or `None` where that is not representable.
    pub fn quarter(self) -> (r: Option<Number>)
        ensures
            r == self.quarter_spec(),
            r matches Some(n) ==> n.wf(),
    {
        if self.mantissa > u128::MAX / 25 || self.exponent < i64::MIN + 2 || self.exponent
            > i64::MAX - 40 {
            None
        } else {
            Some(Number::normalize(self.negative, 25 * self.mantissa, self.exponent - 2))
        }
    }
}

/// The quarter of a number whose mantissa fits in `u64`, as every number the
/// lexer reads, is representable, unless the exponent sits at the edge of `i64`.
pub proof fn lemma_quarter_total(n: Number)
    requires
        n.mantissa <= u64::MAX,
        i64::MIN + 2 <= n.exponent <= i64::MAX - 40,
    ensures
        n.quarter_spec() is Some,
{
}

proof fn lemma_pow10_40()
    ensures
        pow10(40) > u128::MAX,
{
    reveal_with_fuel(pow10, 41);
}

pub proof fn lemma_pow10_ge(j: nat, k: nat)
    requires
        j <= k,
    ensures
        pow10(j) <= pow10(k),
    decreases k,
{
    if j < k {
        lemma_pow10_ge(j, (k - 1) as nat);
    }
}

} // verus!
