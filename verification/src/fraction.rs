//! Fixed-point fractions with an explicit accuracy denominator.
//!
//! A `Fraction` stores an integer numerator over a fixed denominator (its
//! accuracy class) and represents the ratio `numerator / accuracy`, a value
//! in `[0, 1]`. Construction from a `stake / total_stake` pair is exact:
//! the numerator is `floor(accuracy * stake / total_stake)`, computed
//! without intermediate overflow for 128-bit operands.
use vstd::prelude::*;
use vstd::arithmetic::div_mod::lemma_fundamental_div_mod_converse;

verus! {

/// Accuracy of the high-precision class, used for probabilities and
/// stake ratios.
pub const QUINTILL_ACCURACY: u64 = 1_000_000_000_000_000_000;

/// Accuracy of the lower-precision class, used for general percentages.
pub const BILL_ACCURACY: u64 = 1_000_000_000;

/// A ratio in `[0, 1]` held as `numerator / accuracy`.
#[derive(Clone, Copy, Debug, PartialEq, Eq, Structural)]
pub struct Fraction {
    numerator: u64,
    accuracy: u64,
}

/// Exact scaled division: the pair `(floor(a * p / q), (a * p) % q)`,
/// computed by binary decomposition of `a` so that no intermediate value
/// outgrows 128 bits. Requires `p <= q`, so the quotient never exceeds `a`.
fn scale_div(a: u64, p: u128, q: u128) -> (r: (u64, u128))
    requires
        0 < q,
        p <= q,
    ensures
        a * p == r.0 * q + r.1,
        r.1 < q,
        r.0 <= a,
    decreases a,
{
    if a == 0 {
        (0, 0)
    } else if a % 2 == 0 {
        let (d, rem) = scale_div(a / 2, p, q);
        proof {
            assert(a == 2 * (a / 2));
            assert((2 * (a / 2)) * p == 2 * ((a / 2) * p)) by (nonlinear_arith);
            assert(2 * ((a / 2) as int * p as int) == 2 * (d * q + rem));
            assert(a * p == (2 * d) * q + 2 * rem) by (nonlinear_arith)
                requires a * p == 2 * (d as int * q as int + rem as int);
        }
        if rem >= q - rem {
            proof {
                assert(a * p == (2 * d + 1) * q + (2 * rem - q)) by (nonlinear_arith)
                    requires a * p == (2 * d) as int * q as int + 2 * rem;
                // The quotient stays within `a`: (2d + 1) * q <= a * p <= a * q.
                assert(a * p <= a * q) by (nonlinear_arith)
                    requires p <= q, 0 <= a as int;
                assert((2 * d + 1) * q <= a * q) by (nonlinear_arith)
                    requires
                        (2 * d + 1) * q == a * p - (2 * rem - q),
                        a * p <= a * q,
                        q <= 2 * rem;
                assert(2 * d + 1 <= a) by (nonlinear_arith)
                    requires (2 * d + 1) as int * q as int <= a as int * q as int, 0 < q;
            }
            (2 * d + 1, rem - (q - rem))
        } else {
            proof {
                assert(2 * d <= a);
            }
            (2 * d, rem + rem)
        }
    } else {
        let (d, rem) = scale_div(a - 1, p, q);
        proof {
            assert((a - 1) * p == d * q + rem);
            assert(a * p == d * q + (rem + p)) by (nonlinear_arith)
                requires (a - 1) as int * p as int == d as int * q as int + rem as int;
        }
        if p >= q - rem {
            proof {
                assert(a * p == (d + 1) * q + (rem + p - q)) by (nonlinear_arith)
                    requires a * p == d as int * q as int + (rem + p);
            }
            (d + 1, p - (q - rem))
        } else {
            (d, rem + p)
        }
    }
}

impl Fraction {
    /// A fraction is well formed when its accuracy is positive and the
    /// numerator does not exceed it.
    pub closed spec fn wf(self) -> bool {
        1 <= self.accuracy && self.numerator <= self.accuracy
    }

    pub closed spec fn numerator_spec(self) -> u64 {
        self.numerator
    }

    pub closed spec fn accuracy_spec(self) -> u64 {
        self.accuracy
    }

    /// The numerator that an exact rational construction yields:
    /// `floor(accuracy * p / q)`, saturated at one (the full accuracy)
    /// when the ratio is not below one or the denominator is zero.
    pub open spec fn rational_numerator(p: u128, q: u128, accuracy: u64) -> int {
        if q == 0 || p >= q {
            accuracy as int
        } else {
            (accuracy * p) / (q as int)
        }
    }

    pub fn from_parts(numerator: u64, accuracy: u64) -> (r: Fraction)
        requires
            1 <= accuracy,
            numerator <= accuracy,
        ensures
            r.wf(),
            r.numerator_spec() == numerator,
            r.accuracy_spec() == accuracy,
    {
        Fraction { numerator, accuracy }
    }

    /// Exact fixed-point construction of the ratio `p / q`: the numerator
    /// is `floor(accuracy * p / q)`, with no intermediate precision loss.
    /// A ratio of one or more, or a zero denominator, saturates at one.
    pub fn from_rational(p: u128, q: u128, accuracy: u64) -> (r: Fraction)
        requires
            1 <= accuracy,
        ensures
            r.wf(),
            r.accuracy_spec() == accuracy,
            r.numerator_spec() == Self::rational_numerator(p, q, accuracy),
    {
        if q == 0 || p >= q {
            Fraction { numerator: accuracy, accuracy }
        } else {
            let (d, rem) = scale_div(accuracy, p, q);
            proof {
                lemma_fundamental_div_mod_converse(
                    accuracy as int * p as int,
                    q as int,
                    d as int,
                    rem as int,
                );
            }
            Fraction { numerator: d, accuracy }
        }
    }

    pub fn numerator(&self) -> (r: u64)
        ensures
            r == self.numerator_spec(),
    {
        self.numerator
    }

    pub fn accuracy(&self) -> (r: u64)
        ensures
            r == self.accuracy_spec(),
    {
        self.accuracy
    }
}

} // verus!
