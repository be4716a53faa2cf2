use vstd::prelude::*;

verus! {

/// A non-negative fraction `num / den`. A fraction whose denominator is zero
/// stands for zero.
#[derive(Clone, Copy, Debug)]
pub struct Ratio {
    pub num: usize,
    pub den: usize,
}

impl Ratio {
    /// The numerator of the value that the fraction stands for.
    pub open spec fn top(self) -> nat {
        if self.den == 0 {
            0
        } else {
            self.num as nat
        }
    }

    /// The denominator of the value that the fraction stands for.
    pub open spec fn bottom(self) -> nat {
        if self.den == 0 {
            1
        } else {
            self.den as nat
        }
    }

    /// `self < other`, as fractions.
    pub open spec fn below(self, other: Ratio) -> bool {
        self.top() * other.bottom() < other.top() * self.bottom()
    }

    /// The value lies between zero and one.
    pub open spec fn in_unit_interval(self) -> bool {
        self.num <= self.den
    }

    /// The fraction is written with a denominator and lies between zero and
    /// one: what a threshold has to be.
    pub open spec fn is_threshold(self) -> bool {
        0 < self.den && self.num <= self.den
    }

    /// The value is exactly one.
    pub open spec fn is_one(self) -> bool {
        0 < self.den && self.num == self.den
    }

    /// The share of `len` symbols that `distance` edits leave untouched:
    /// `(len - distance) / len`, and zero where `distance` exceeds `len`.
    pub open spec fn kept(len: nat, distance: nat) -> Ratio {
        Ratio {
            num: if distance <= len {
                (len - distance) as usize
            } else {
                0
            },
            den: len as usize,
        }
    }

    /// The fraction one.
    pub fn one() -> (r: Ratio)
        ensures
            r == (Ratio { num: 1, den: 1 }),
    {
        Ratio { num: 1, den: 1 }
    }

    /// The share of `len` symbols that `distance` edits leave untouched.
    pub fn of_window(len: usize, distance: usize) -> (r: Ratio)
        ensures
            r == Ratio::kept(len as nat, distance as nat),
            r.in_unit_interval(),
    {
        let num: usize = if distance <= len {
            len - distance
        } else {
            0
        };
        Ratio { num, den: len }
    }

    /// Decides `is_threshold`.
    pub fn check_threshold(&self) -> (ok: bool)
        ensures
            ok == self.is_threshold(),
    {
        0 < self.den && self.num <= self.den
    }

    /// Decides `below`.
    pub fn is_below(&self, other: &Ratio) -> (r: bool)
        ensures
            r == self.below(*other),
    {
        let n1: u128 = if self.den == 0 {
            0
        } else {
            self.num as u128
        };
        let d1: u128 = if self.den == 0 {
            1
        } else {
            self.den as u128
        };
        let n2: u128 = if other.den == 0 {
            0
        } else {
            other.num as u128
        };
        let d2: u128 = if other.den == 0 {
            1
        } else {
            other.den as u128
        };
        assert(n1 * d2 <= 0xffff_ffff_ffff_ffff * 0xffff_ffff_ffff_ffff) by (nonlinear_arith)
            requires
                n1 <= 0xffff_ffff_ffff_ffff,
                d2 <= 0xffff_ffff_ffff_ffff,
        ;
        assert(n2 * d1 <= 0xffff_ffff_ffff_ffff * 0xffff_ffff_ffff_ffff) by (nonlinear_arith)
            requires
                n2 <= 0xffff_ffff_ffff_ffff,
                d1 <= 0xffff_ffff_ffff_ffff,
        ;
        n1 * d2 < n2 * d1
    }
}

/// A fraction that is one is below nothing that lies in the unit interval.
pub proof fn lemma_one_is_not_below(r: Ratio, t: Ratio)
    requires
        r.is_one(),
        t.in_unit_interval(),
    ensures
        !r.below(t),
{
    assert(r.top() * t.bottom() >= t.top() * r.bottom()) by (nonlinear_arith)
        requires
            r.top() == r.bottom(),
            t.top() <= t.bottom(),
    ;
}

/// Against a threshold of one, exactly the fractions that are one are not
/// below.
pub proof fn lemma_below_one(r: Ratio, t: Ratio)
    requires
        r.in_unit_interval(),
        t.is_one(),
    ensures
        r.below(t) <==> !r.is_one(),
{
    if r.is_one() {
        lemma_one_is_not_below(r, t);
    } else {
        assert(r.top() * t.bottom() < t.top() * r.bottom()) by (nonlinear_arith)
            requires
                r.top() < r.bottom(),
                t.top() == t.bottom(),
                t.top() > 0,
        ;
    }
}

} // verus!
