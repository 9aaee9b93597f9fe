use vstd::prelude::*;

verus! {

/// A score `n / d`: accumulated Hamming distance over accumulated length,
/// both biased by the configured penalties. Lower is better.
#[derive(Clone, Copy, Debug)]
pub struct Fraction {
    pub n: u32,
    pub d: u32,
}

/// `a < b` as rationals, by cross-multiplication.
pub open spec fn score_lt(a: Fraction, b: Fraction) -> bool {
    (a.n as int) * (b.d as int) < (b.n as int) * (a.d as int)
}

proof fn lemma_u32_product(a: u64, b: u64)
    requires
        a <= 0xffff_ffff,
        b <= 0xffff_ffff,
    ensures
        a * b <= 0xffff_fffe_0000_0001,
{
    assert(a * b <= 0xffff_ffffu64 * 0xffff_ffffu64) by (nonlinear_arith)
        requires
            a <= 0xffff_ffff,
            b <= 0xffff_ffff,
    ;
}

impl Fraction {
    /// Whether `self` is strictly smaller than `other` as a rational number.
    pub fn less_than(&self, other: &Fraction) -> (r: bool)
        ensures
            r == score_lt(*self, *other),
    {
        let a: u64 = self.n as u64;
        let b: u64 = other.d as u64;
        let c: u64 = other.n as u64;
        let e: u64 = self.d as u64;
        proof {
            lemma_u32_product(a, b);
            lemma_u32_product(c, e);
        }
        a * b < c * e
    }
}

/// `a == b` as rationals, by cross-multiplication.
pub open spec fn score_eq(a: Fraction, b: Fraction) -> bool {
    (a.n as int) * (b.d as int) == (b.n as int) * (a.d as int)
}

impl PartialEq for Fraction {
    /// Equal as rational numbers: `1/2 == 2/4`.
    fn eq(&self, other: &Fraction) -> (r: bool) {
        let a: u64 = self.n as u64;
        let b: u64 = other.d as u64;
        let c: u64 = other.n as u64;
        let e: u64 = self.d as u64;
        proof {
            lemma_u32_product(a, b);
            lemma_u32_product(c, e);
        }
        a * b == c * e
    }
}

impl vstd::std_specs::cmp::PartialEqSpecImpl for Fraction {
    open spec fn obeys_eq_spec() -> bool {
        true
    }

    open spec fn eq_spec(&self, other: &Fraction) -> bool {
        score_eq(*self, *other)
    }
}

/// Cross-multiplied comparisons chain when every denominator is positive.
pub(crate) proof fn lemma_cross_trans(an: int, ad: int, bn: int, bd: int, cn: int, cd: int)
    requires
        ad > 0,
        bd > 0,
        cd > 0,
    ensures
        an * bd <= bn * ad && bn * cd <= cn * bd ==> an * cd <= cn * ad,
        an * bd < bn * ad && bn * cd <= cn * bd ==> an * cd < cn * ad,
        an * bd <= bn * ad && bn * cd < cn * bd ==> an * cd < cn * ad,
{
    if an * bd <= bn * ad && bn * cd <= cn * bd {
        assert(an * bd * cd <= bn * ad * cd) by (nonlinear_arith)
            requires
                an * bd <= bn * ad,
                cd > 0,
        ;
        assert(bn * cd * ad <= cn * bd * ad) by (nonlinear_arith)
            requires
                bn * cd <= cn * bd,
                ad > 0,
        ;
        assert(an * cd * bd <= cn * ad * bd) by (nonlinear_arith)
            requires
                an * bd * cd <= bn * ad * cd,
                bn * cd * ad <= cn * bd * ad,
        ;
        assert(an * cd <= cn * ad) by (nonlinear_arith)
            requires
                an * cd * bd <= cn * ad * bd,
                bd > 0,
        ;
        if an * bd < bn * ad || bn * cd < cn * bd {
            assert(an * bd * cd < bn * ad * cd || bn * cd * ad < cn * bd * ad) by (nonlinear_arith)
                requires
                    an * bd < bn * ad || bn * cd < cn * bd,
                    cd > 0,
                    ad > 0,
            ;
            assert(an * cd * bd < cn * ad * bd) by (nonlinear_arith)
                requires
                    an * bd * cd <= bn * ad * cd,
                    bn * cd * ad <= cn * bd * ad,
                    an * bd * cd < bn * ad * cd || bn * cd * ad < cn * bd * ad,
            ;
            assert(an * cd < cn * ad) by (nonlinear_arith)
                requires
                    an * cd * bd < cn * ad * bd,
                    bd > 0,
            ;
        }
    }
}

} // verus!
