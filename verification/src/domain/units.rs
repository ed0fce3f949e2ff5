//! Percentages, held exactly.

use vstd::prelude::*;
use vstd::std_specs::cmp::PartialEqSpec;

verus! {

/// A share of a whole.
pub ghost struct Ratio {
    /// The share.
    pub share: int,
    /// What it is a share of.
    pub whole: int,
}

impl Ratio {
    /// The same part of the whole.
    pub open spec fn same(self, other: Ratio) -> bool {
        self.share * other.whole == other.share * self.whole
    }

    /// A smaller part of the whole.
    pub open spec fn below(self, other: Ratio) -> bool {
        self.share * other.whole < other.share * self.whole
    }
}

/// A percentage within [0, 100], as the share of a whole that it is.
#[derive(Debug, Clone, Copy)]
pub struct Percent {
    share: u64,
    whole: u64,
}

impl Percent {
    /// The share and the whole.
    pub closed spec fn view(self) -> Ratio {
        Ratio { share: self.share as int, whole: self.whole as int }
    }

    /// The whole is something, and the share is no more than it.
    #[verifier::type_invariant]
    pub open spec fn well_formed(self) -> bool {
        0 <= self@.share <= self@.whole <= u64::MAX && 0 < self@.whole
    }

    /// So many hundredths. Refuses more than a hundred.
    #[must_use]
    pub fn new(percent: u64) -> (out: Option<Self>)
        ensures
            match out {
                Some(out) => {
                    &&& percent <= 100
                    &&& out@ == (Ratio { share: percent as int, whole: 100 })
                },
                None => percent > 100,
            },
    {
        if percent <= 100 {
            Some(Percent { share: percent, whole: 100 })
        } else {
            None
        }
    }

    /// A share of a whole. Refuses a whole of nothing and a share beyond the
    /// whole.
    #[must_use]
    pub fn of_ratio(share: u64, whole: u64) -> (out: Option<Self>)
        ensures
            match out {
                Some(out) => {
                    &&& 0 < whole
                    &&& share <= whole
                    &&& out@ == (Ratio { share: share as int, whole: whole as int })
                },
                None => whole == 0 || share > whole,
            },
    {
        if whole > 0 && share <= whole {
            Some(Percent { share, whole })
        } else {
            None
        }
    }

    /// Nothing of the whole.
    #[must_use]
    pub fn zero() -> (out: Self)
        ensures
            out@ == (Ratio { share: 0, whole: 100 }),
    {
        Percent { share: 0, whole: 100 }
    }

    /// The share.
    #[must_use]
    pub fn share(&self) -> (share: u64)
        ensures
            share == self@.share,
    {
        self.share
    }

    /// What the share is a share of.
    #[must_use]
    pub fn whole(&self) -> (whole: u64)
        ensures
            whole == self@.whole,
            whole > 0,
    {
        proof {
            use_type_invariant(self);
        }
        self.whole
    }

    /// Whether this is nothing of the whole.
    #[must_use]
    pub fn is_zero(&self) -> (zero: bool)
        ensures
            zero == (self@.share == 0),
    {
        self.share == 0
    }

    /// Whether this is a smaller part than `other`.
    #[must_use]
    pub fn is_below(&self, other: &Self) -> (below: bool)
        ensures
            below == self@.below(other@),
    {
        times(self.share, other.whole) < times(other.share, self.whole)
    }
}

/// The product, in a type that holds it.
fn times(a: u64, b: u64) -> (product: u128)
    ensures
        product == a * b,
{
    assert(a * b <= 0xffff_ffff_ffff_ffff * 0xffff_ffff_ffff_ffff) by (nonlinear_arith)
        requires
            a <= 0xffff_ffff_ffff_ffff,
            b <= 0xffff_ffff_ffff_ffff,
    ;
    a as u128 * b as u128
}

impl PartialEq for Percent {
    fn eq(&self, other: &Self) -> (equal: bool) {
        times(self.share, other.whole) == times(other.share, self.whole)
    }
}

impl vstd::std_specs::cmp::PartialEqSpecImpl for Percent {
    open spec fn obeys_eq_spec() -> bool {
        true
    }

    open spec fn eq_spec(&self, other: &Self) -> bool {
        self@.same(other@)
    }
}

/// Two percentages are one part of the whole, or one of them is the smaller
/// part.
pub proof fn law_percentages_compare(a: Percent, b: Percent)
    ensures
        a@.same(b@) || a@.below(b@) || b@.below(a@),
        !(a@.below(b@) && b@.below(a@)),
        a@.same(b@) ==> !a@.below(b@) && !b@.below(a@),
{
}

/// One part of the whole is below another where the products across say so,
/// and it is the same part however finely the whole is divided.
pub proof fn law_parts_compare_across(a: Ratio, b: Ratio, times: int)
    requires
        0 < times,
    ensures
        a.below(b) <==> a.share * b.whole < b.share * a.whole,
        a.same(b) <==> a.share * b.whole == b.share * a.whole,
        a.same(Ratio { share: a.share * times, whole: a.whole * times }),
        a.whole == b.whole && 0 < a.whole ==> (a.below(b) <==> a.share < b.share) && (a.same(b)
            <==> a.share == b.share),
{
    assert(a.share * (a.whole * times) == (a.share * times) * a.whole) by (nonlinear_arith);
    if a.whole == b.whole && 0 < a.whole {
        let w = a.whole;
        assert((a.share * w < b.share * w <==> a.share < b.share) && (a.share * w == b.share * w
            <==> a.share == b.share)) by (nonlinear_arith)
            requires
                0 < w,
        ;
    }
}

/// Two percentages are equal where they are the same part of the whole.
pub proof fn law_equal_percentages_are_one_part(a: Percent, b: Percent)
    ensures
        a.eq_spec(&b) <==> a@.share * b@.whole == b@.share * a@.whole,
{
}

} // verus!
