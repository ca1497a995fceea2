use vstd::prelude::*;

verus! {

/// A non-negative rational number as a numerator over a denominator. `==`
/// compares the two parts, not the numbers that they stand for.
pub struct Ratio {
    pub num: nat,
    pub den: nat,
}

impl Ratio {
    /// Whether this number is smaller than `other`, both denominators being
    /// positive.
    pub open spec fn lt(self, other: Ratio) -> bool {
        self.num * other.den < other.num * self.den
    }

    /// Whether this number is at most `other`.
    pub open spec fn le(self, other: Ratio) -> bool {
        self.num * other.den <= other.num * self.den
    }

    /// Whether this is the number zero.
    pub open spec fn is_zero(self) -> bool {
        self.num == 0
    }
}

/// Whether `avg` is `(n_left * left + n_right * right) / (n_left + n_right)`.
pub open spec fn is_weighted_average(
    avg: Ratio,
    n_left: nat,
    left: Ratio,
    n_right: nat,
    right: Ratio,
) -> bool {
    avg.num * (left.den * right.den * (n_left + n_right)) == (n_left * left.num * right.den
        + n_right * right.num * left.den) * avg.den
}

/// The impurity after a split whose sides hold `l` and `r` samples and
/// have the impurities `gl / (l * l)` and `gr / (r * r)`: the average
/// `(gl / l + gr / r) / (l + r)` of the two, each weighted by the size of
/// its side, as one fraction.
pub open spec fn weighted_split(gl: nat, l: nat, gr: nat, r: nat) -> Ratio {
    Ratio { num: gl * r + gr * l, den: l * r * (l + r) }
}

/// `weighted_split` is the weighted average that it is said to be.
pub proof fn lemma_weighted_split(gl: nat, l: nat, gr: nat, r: nat)
    requires
        0 < l,
        0 < r,
    ensures
        l * l > 0,
        r * r > 0,
        weighted_split(gl, l, gr, r).den > 0,
        is_weighted_average(
            weighted_split(gl, l, gr, r),
            l,
            Ratio { num: gl, den: l * l },
            r,
            Ratio { num: gr, den: r * r },
        ),
{
    let a = gl as int;
    let b = gr as int;
    let x = l as int;
    let y = r as int;
    assert((a * y + b * x) * ((x * x) * (y * y) * (x + y)) == (x * a * (y * y) + y * b * (x * x))
        * (x * y * (x + y)) && x * x > 0 && y * y > 0 && x * y * (x + y) > 0) by (nonlinear_arith)
        requires
            0 < x,
            0 < y,
    ;
}

/// The parts of a weighted split fit in 128 bits where the two sides
/// together hold at most `bound` samples, a numerator `g` of `n` samples is
/// at most `scale * n * n`, and `scale * bound * bound * bound` fits.
pub proof fn lemma_weighted_split_fits(gl: int, l: int, gr: int, r: int, scale: int, bound: int)
    requires
        0 < l,
        0 < r,
        l + r <= bound,
        0 <= gl <= scale * (l * l),
        0 <= gr <= scale * (r * r),
        0 < scale,
        scale * (bound * bound * bound) <= u128::MAX,
    ensures
        0 <= gl * r <= u128::MAX,
        0 <= gr * l <= u128::MAX,
        gl * r + gr * l <= u128::MAX,
        0 < l * r <= u128::MAX,
        0 < l * r * (l + r) <= u128::MAX,
{
    assert(gl * r + gr * l <= scale * (l * r * (l + r)) && 0 <= gl * r && 0 <= gr * l) by (nonlinear_arith)
        requires
            0 < l,
            0 < r,
            0 <= gl <= scale * (l * l),
            0 <= gr <= scale * (r * r),
    ;
    assert(0 < l * r && l * r <= l * r * (l + r) && l * r * (l + r) <= bound * bound * bound) by (nonlinear_arith)
        requires
            0 < l,
            0 < r,
            l + r <= bound,
    ;
    assert(scale * (l * r * (l + r)) <= scale * (bound * bound * bound)) by (nonlinear_arith)
        requires
            l * r * (l + r) <= bound * bound * bound,
            0 < scale,
    ;
    assert(l * r * (l + r) <= scale * (l * r * (l + r))) by (nonlinear_arith)
        requires
            0 < l * r * (l + r),
            1 <= scale,
    ;
}

/// Builds the weighted split of the given parts.
pub fn weigh_split(gl: u128, l: u128, gr: u128, r: u128) -> (score: Fraction)
    requires
        0 < l,
        0 < r,
        gl * r + gr * l <= u128::MAX,
        l * r * (l + r) <= u128::MAX,
    ensures
        score@ == weighted_split(gl as nat, l as nat, gr as nat, r as nat),
{
    proof {
        assert(0 <= gl * r && 0 <= gr * l && 0 < l * r && l * r <= l * r * (l + r) && l + r <= l * r
            * (l + r)) by (nonlinear_arith)
            requires
                0 < l,
                0 < r,
                0 <= gl,
                0 <= gr,
        ;
    }
    let num = gl * r + gr * l;
    let den = l * r * (l + r);
    Fraction { num, den }
}

/// Among fractions with positive denominators, `lt` is transitive.
pub proof fn lemma_lt_transitive(a: Ratio, b: Ratio, c: Ratio)
    requires
        a.lt(b),
        b.lt(c),
        b.den > 0,
    ensures
        a.lt(c),
{
    let an = a.num as int;
    let ad = a.den as int;
    let bn = b.num as int;
    let bd = b.den as int;
    let cn = c.num as int;
    let cd = c.den as int;
    assert(ad > 0) by (nonlinear_arith)
        requires
            an * bd < bn * ad,
            an >= 0,
            bd >= 0,
            bn >= 0,
            ad >= 0,
    ;
    assert((an * bd) * cd <= (bn * ad) * cd) by (nonlinear_arith)
        requires
            an * bd < bn * ad,
            cd >= 0,
    ;
    assert((bn * cd) * ad < (cn * bd) * ad) by (nonlinear_arith)
        requires
            bn * cd < cn * bd,
            ad > 0,
    ;
    assert((an * cd) * bd < (cn * ad) * bd) by (nonlinear_arith)
        requires
            (an * bd) * cd <= (bn * ad) * cd,
            (bn * cd) * ad < (cn * bd) * ad,
    ;
    assert(an * cd < cn * ad) by (nonlinear_arith)
        requires
            (an * cd) * bd < (cn * ad) * bd,
            bd > 0,
    ;
}

/// No fraction is smaller than zero.
pub proof fn lemma_not_below_zero(a: Ratio, zero: Ratio)
    requires
        zero.is_zero(),
    ensures
        !a.lt(zero),
{
    assert(zero.num * a.den == 0) by (nonlinear_arith)
        requires
            zero.num == 0,
    ;
}

/// With equal whole parts, two fractions compare as their remainders do.
proof fn lemma_equal_whole_parts(a: int, b: int, c: int, d: int, q: int, ra: int, rc: int)
    requires
        a == q * b + ra,
        c == q * d + rc,
    ensures
        (a * d < c * b) == (ra * d < rc * b),
{
    assert(a * d == q * b * d + ra * d) by (nonlinear_arith)
        requires
            a == q * b + ra,
    ;
    assert(c * b == q * b * d + rc * b) by (nonlinear_arith)
        requires
            c == q * d + rc,
    ;
}

/// A fraction with the smaller whole part is the smaller fraction.
proof fn lemma_smaller_whole_part(a: int, b: int, c: int, d: int, qa: int, qc: int, ra: int, rc: int)
    requires
        a == qa * b + ra,
        c == qc * d + rc,
        0 <= ra < b,
        0 <= rc < d,
        qa < qc,
    ensures
        a * d < c * b,
{
    assert(a * d < (qa + 1) * (b * d)) by (nonlinear_arith)
        requires
            a == qa * b + ra,
            0 <= ra < b,
            0 < d,
    ;
    assert((qa + 1) * (b * d) <= qc * (b * d)) by (nonlinear_arith)
        requires
            qa + 1 <= qc,
            0 < b,
            0 < d,
    ;
    assert(qc * (b * d) <= c * b) by (nonlinear_arith)
        requires
            c == qc * d + rc,
            0 <= rc,
            0 < b,
    ;
}

/// Whether `a / b` is smaller than `c / d`, as exact fractions. No product
/// is formed: whole parts are compared first and, where they agree, the
/// reciprocals of the remainders.
fn parts_lt(a: u128, b: u128, c: u128, d: u128) -> (r: bool)
    requires
        b > 0,
        d > 0,
    ensures
        r == (a * d < c * b),
    decreases b + d,
{
    let qa = a / b;
    let qc = c / d;
    let ra = a % b;
    let rc = c % d;
    proof {
        vstd::arithmetic::div_mod::lemma_fundamental_div_mod(a as int, b as int);
        vstd::arithmetic::div_mod::lemma_fundamental_div_mod(c as int, d as int);
        assert(a as int == qa as int * b as int + ra as int) by (nonlinear_arith)
            requires
                a as int == b as int * (qa as int) + ra as int,
        ;
        assert(c as int == qc as int * d as int + rc as int) by (nonlinear_arith)
            requires
                c as int == d as int * (qc as int) + rc as int,
        ;
    }
    if qa < qc {
        proof {
            lemma_smaller_whole_part(
                a as int,
                b as int,
                c as int,
                d as int,
                qa as int,
                qc as int,
                ra as int,
                rc as int,
            );
        }
        true
    } else if qc < qa {
        proof {
            lemma_smaller_whole_part(
                c as int,
                d as int,
                a as int,
                b as int,
                qc as int,
                qa as int,
                rc as int,
                ra as int,
            );
        }
        false
    } else {
        proof {
            lemma_equal_whole_parts(
                a as int,
                b as int,
                c as int,
                d as int,
                qa as int,
                ra as int,
                rc as int,
            );
        }
        if rc == 0 {
            proof {
                assert(rc as int * b as int == 0) by (nonlinear_arith)
                    requires
                        rc as int == 0,
                ;
                assert(ra as int * d as int >= 0) by (nonlinear_arith)
                    requires
                        ra as int >= 0,
                        d as int > 0,
                ;
            }
            false
        } else if ra == 0 {
            proof {
                assert(ra as int * d as int == 0) by (nonlinear_arith)
                    requires
                        ra as int == 0,
                ;
                assert(rc as int * b as int > 0) by (nonlinear_arith)
                    requires
                        rc as int > 0,
                        b as int > 0,
                ;
            }
            true
        } else {
            proof {
                assert(d as int * ra as int == ra as int * d as int) by (nonlinear_arith);
                assert(b as int * rc as int == rc as int * b as int) by (nonlinear_arith);
            }
            parts_lt(d, rc, b, ra)
        }
    }
}

/// An exact non-negative fraction: an impurity score or a probability.
pub struct Fraction {
    num: u128,
    den: u128,
}

impl View for Fraction {
    type V = Ratio;

    closed spec fn view(&self) -> Ratio {
        Ratio { num: self.num as nat, den: self.den as nat }
    }
}

impl Fraction {
    #[verifier::type_invariant]
    spec fn positive_denominator(self) -> bool {
        self.den > 0
    }

    /// The fraction `num / den`, which exists for every positive `den`.
    pub fn new(num: u128, den: u128) -> (f: Option<Fraction>)
        ensures
            f is Some <==> den > 0,
            f matches Some(x) ==> x@ == (Ratio { num: num as nat, den: den as nat }),
    {
        if den == 0 {
            None
        } else {
            Some(Fraction { num, den })
        }
    }

    /// The fraction zero, as `0 / 1`.
    pub fn zero() -> (f: Fraction)
        ensures
            f@ == (Ratio { num: 0, den: 1 }),
    {
        Fraction { num: 0, den: 1 }
    }

    /// The numerator.
    pub fn numer(&self) -> (n: u128)
        ensures
            n == self@.num,
    {
        self.num
    }

    /// The denominator, which is positive.
    pub fn denom(&self) -> (d: u128)
        ensures
            d == self@.den,
            d > 0,
    {
        proof {
            use_type_invariant(self);
        }
        self.den
    }

    /// Whether this fraction is zero.
    pub fn is_zero(&self) -> (b: bool)
        ensures
            b == self@.is_zero(),
    {
        self.num == 0
    }

    /// Whether this fraction is smaller than `other`, exactly.
    pub fn lt(&self, other: &Fraction) -> (b: bool)
        ensures
            b == self@.lt(other@),
    {
        proof {
            use_type_invariant(self);
            use_type_invariant(other);
        }
        parts_lt(self.num, self.den, other.num, other.den)
    }

    /// A copy of this fraction.
    pub fn copy(&self) -> (f: Fraction)
        ensures
            f@ == self@,
    {
        proof {
            use_type_invariant(self);
        }
        Fraction { num: self.num, den: self.den }
    }
}

} // verus!
