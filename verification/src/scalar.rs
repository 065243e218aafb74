//! Exact sort keys: fractions of integers, with one extra value for "undefined".

use vstd::prelude::*;

verus! {

/// The value `num / den`, or the undefined value when `den` is zero.
///
/// Two scalars may denote the same number without being the same pair (1/2 and 2/4);
/// the order below compares what they denote.
#[derive(Clone, Copy, Debug)]
pub struct Scalar {
    pub num: i32,
    pub den: u32,
}

impl Scalar {
    /// True of the undefined value, which is what a division of zero by zero yields.
    pub open spec fn is_undefined(self) -> bool {
        self.den == 0
    }

    /// `self` is strictly below `other`. Numbers compare by value; the undefined value
    /// lies above every number and level with itself.
    #[verifier::opaque]
    pub open spec fn lt(self, other: Scalar) -> bool {
        !self.is_undefined() && (other.is_undefined() || self.num * other.den < other.num
            * self.den)
    }

    /// `self` is below or level with `other`.
    pub open spec fn le(self, other: Scalar) -> bool {
        !other.lt(self)
    }

    /// Neither is strictly below the other.
    pub open spec fn level(self, other: Scalar) -> bool {
        !self.lt(other) && !other.lt(self)
    }

    /// The whole number `n`.
    pub fn whole(n: u16) -> (s: Scalar)
        ensures
            s == (Scalar { num: n as i32, den: 1 }),
    {
        Scalar { num: n as i32, den: 1 }
    }

    /// Decides [`Scalar::lt`].
    pub fn less_than(&self, other: &Scalar) -> (below: bool)
        ensures
            below == self.lt(*other),
    {
        proof {
            reveal(Scalar::lt);
        }
        if self.den == 0 {
            false
        } else if other.den == 0 {
            true
        } else {
            proof {
                lemma_product_fits(self.num as int, other.den as int);
                lemma_product_fits(other.num as int, self.den as int);
            }
            (self.num as i64) * (other.den as i64) < (other.num as i64) * (self.den as i64)
        }
    }
}

proof fn lemma_product_fits(n: int, d: int)
    requires
        i32::MIN <= n <= i32::MAX,
        0 <= d <= u32::MAX,
    ensures
        i64::MIN <= n * d <= i64::MAX,
{
    assert(n * d <= 0x7fff_ffff * 0xffff_ffff && n * d >= -0x8000_0000 * 0xffff_ffff)
        by (nonlinear_arith)
        requires
            -0x8000_0000 <= n <= 0x7fff_ffff,
            0 <= d <= 0xffff_ffff,
    ;
}

/// No scalar is strictly below itself.
pub proof fn lemma_lt_irreflexive(a: Scalar)
    ensures
        !a.lt(a),
{
    reveal(Scalar::lt);
}

/// Of two scalars at most one is strictly below the other.
pub proof fn lemma_lt_asymmetric(a: Scalar, b: Scalar)
    ensures
        !(a.lt(b) && b.lt(a)),
{
    reveal(Scalar::lt);
}

/// "Below or level" is transitive, which with asymmetry makes the order a total preorder.
pub proof fn lemma_le_transitive(a: Scalar, b: Scalar, c: Scalar)
    requires
        a.le(b),
        b.le(c),
    ensures
        a.le(c),
{
    reveal(Scalar::lt);
    if !a.is_undefined() && !b.is_undefined() && !c.is_undefined() {
        let (an, ad) = (a.num as int, a.den as int);
        let (bn, bd) = (b.num as int, b.den as int);
        let (cn, cd) = (c.num as int, c.den as int);
        assert(an * cd <= cn * ad) by (nonlinear_arith)
            requires
                an * bd <= bn * ad,
                bn * cd <= cn * bd,
                ad > 0,
                bd > 0,
                cd > 0,
        {
            assert((an * bd) * cd <= (bn * ad) * cd);
            assert((bn * cd) * ad <= (cn * bd) * ad);
            assert((an * cd) * bd <= (cn * ad) * bd);
        }
    }
}

/// Strictly below is transitive.
pub proof fn lemma_lt_transitive(a: Scalar, b: Scalar, c: Scalar)
    requires
        a.lt(b),
        b.lt(c),
    ensures
        a.lt(c),
{
    reveal(Scalar::lt);
    if !c.is_undefined() {
        let (an, ad) = (a.num as int, a.den as int);
        let (bn, bd) = (b.num as int, b.den as int);
        let (cn, cd) = (c.num as int, c.den as int);
        assert(an * cd < cn * ad) by (nonlinear_arith)
            requires
                an * bd < bn * ad,
                bn * cd < cn * bd,
                ad > 0,
                bd > 0,
                cd > 0,
        {
            assert((an * bd) * cd < (bn * ad) * cd);
            assert((bn * cd) * ad < (cn * bd) * ad);
            assert((an * cd) * bd < (cn * ad) * bd);
        }
    }
}

/// Being level is transitive: scalars fall into classes of equal value.
pub proof fn lemma_level_transitive(a: Scalar, b: Scalar, c: Scalar)
    requires
        a.level(b),
        b.level(c),
    ensures
        a.level(c),
{
    lemma_le_transitive(a, b, c);
    lemma_le_transitive(c, b, a);
}

} // verus!
