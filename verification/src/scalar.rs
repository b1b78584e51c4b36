use vstd::prelude::*;

verus! {

/// Mathematical value of a matrix entry: a rational number kept as an
/// unreduced numerator/denominator pair of unbounded integers. All value-level
/// reasoning about matrix data is done over this type.
pub struct Rat {
    pub n: int,
    pub d: int,
}

pub open spec fn rat_zero() -> Rat {
    Rat { n: 0, d: 1 }
}

pub open spec fn rat_one() -> Rat {
    Rat { n: 1, d: 1 }
}

pub open spec fn rat_add(a: Rat, b: Rat) -> Rat {
    Rat { n: a.n * b.d + b.n * a.d, d: a.d * b.d }
}

pub open spec fn rat_sub(a: Rat, b: Rat) -> Rat {
    Rat { n: a.n * b.d - b.n * a.d, d: a.d * b.d }
}

pub open spec fn rat_mul(a: Rat, b: Rat) -> Rat {
    Rat { n: a.n * b.n, d: a.d * b.d }
}

/// Division keeps the denominator positive by moving the divisor's sign into
/// the numerator.
pub open spec fn rat_div(a: Rat, b: Rat) -> Rat {
    if b.n < 0 {
        Rat { n: -(a.n * b.d), d: a.d * (-b.n) }
    } else {
        Rat { n: a.n * b.d, d: a.d * b.n }
    }
}

pub open spec fn rat_neg(a: Rat) -> Rat {
    Rat { n: -a.n, d: a.d }
}

pub open spec fn rat_abs_n(a: Rat) -> int {
    if a.n < 0 {
        -a.n
    } else {
        a.n
    }
}

/// The logistic activation used by this library: the algebraic sigmoid
/// `1/2 + x / (2 * (1 + |x|))`, which maps every rational exactly into
/// `(0, 1)`, is `1/2` at zero and satisfies `s(-x) = 1 - s(x)`. The
/// transcendental function `1/(1+e^-x)` has no exact value on rationals, so
/// this library defines its sigmoid as this algebraic variant.
pub open spec fn rat_sigmoid(a: Rat) -> Rat {
    Rat { n: a.d + rat_abs_n(a) + a.n, d: 2 * (a.d + rat_abs_n(a)) }
}

pub open spec fn rat_pow(a: Rat, p: nat) -> Rat
    decreases p,
{
    if p == 0 {
        rat_one()
    } else {
        rat_mul(rat_pow(a, (p - 1) as nat), a)
    }
}

/// Two rationals denote the same value exactly when their cross products
/// agree; this works for unreduced pairs.
pub open spec fn rat_eq(a: Rat, b: Rat) -> bool {
    a.n * b.d == b.n * a.d
}

/// A rational value is representable by `Scalar` when both components fit in
/// a signed 64-bit machine word and the denominator is positive.
pub open spec fn rat_fits(r: Rat) -> bool {
    &&& -0x8000_0000_0000_0000 <= r.n <= 0x7fff_ffff_ffff_ffff
    &&& 1 <= r.d <= 0x7fff_ffff_ffff_ffff
}

/// An exact rational matrix entry: numerator and positive denominator, both
/// machine words. Arithmetic is exact; an operation whose result has no such
/// representation reports that instead of wrapping or rounding.
#[derive(Clone, Copy, Debug)]
pub struct Scalar {
    pub num: i64,
    pub den: i64,
}

impl View for Scalar {
    type V = Rat;

    open spec fn view(&self) -> Rat {
        Rat { n: self.num as int, d: self.den as int }
    }
}

pub proof fn lemma_mul_abs_bound(a: int, b: int, m: int, k: int)
    by (nonlinear_arith)
    requires
        -m <= a <= m,
        -k <= b <= k,
        0 <= m,
        0 <= k,
    ensures
        -(m * k) <= a * b <= m * k,
{
}

pub proof fn lemma_mul_pos_bound(a: int, b: int, m: int, k: int)
    by (nonlinear_arith)
    requires
        1 <= a <= m,
        1 <= b <= k,
    ensures
        1 <= a * b <= m * k,
{
}

/// Bound for a product of a numerator (possibly negative) with a positive
/// denominator: the extremes are reached at the corners only.
pub proof fn lemma_mul_num_den_bound(a: int, b: int)
    by (nonlinear_arith)
    requires
        -0x8000_0000_0000_0000 <= a <= 0x7fff_ffff_ffff_ffff,
        1 <= b <= 0x7fff_ffff_ffff_ffff,
    ensures
        -0x8000_0000_0000_0000 * 0x7fff_ffff_ffff_ffff <= a * b,
        a * b <= 0x7fff_ffff_ffff_ffff * 0x7fff_ffff_ffff_ffff,
{
}

pub proof fn lemma_mul_sign(a: int, b: int)
    by (nonlinear_arith)
    requires
        a >= 1,
    ensures
        b >= 1 ==> a * b >= 1,
        b <= -1 ==> a * b <= -1,
{
}

impl Scalar {
    pub open spec fn wf(self) -> bool {
        self.den >= 1
    }

    pub fn new(num: i64, den: i64) -> (r: Scalar)
        requires
            den >= 1,
        ensures
            r@ == (Rat { n: num as int, d: den as int }),
            r.wf(),
    {
        Scalar { num, den }
    }

    pub fn from_int(v: i64) -> (r: Scalar)
        ensures
            r@ == (Rat { n: v as int, d: 1 }),
            r.wf(),
    {
        Scalar { num: v, den: 1 }
    }

    pub fn zero() -> (r: Scalar)
        ensures
            r@ == rat_zero(),
            r.wf(),
    {
        Scalar { num: 0, den: 1 }
    }

    pub fn one() -> (r: Scalar)
        ensures
            r@ == rat_one(),
            r.wf(),
    {
        Scalar { num: 1, den: 1 }
    }

    pub fn is_zero(&self) -> (r: bool)
        ensures
            r <==> self@.n == 0,
    {
        self.num == 0
    }

    /// Narrows an exactly computed wide result back to machine words, or
    /// reports that the value does not fit.
    fn make(n: i128, d: i128) -> (r: Option<Scalar>)
        requires
            1 <= d,
        ensures
            match r {
                Some(q) => q@ == (Rat { n: n as int, d: d as int }) && q.wf(),
                None => !rat_fits(Rat { n: n as int, d: d as int }),
            },
            rat_fits(Rat { n: n as int, d: d as int }) ==> r is Some,
    {
        if n >= -0x8000_0000_0000_0000i128 && n <= 0x7fff_ffff_ffff_ffffi128
            && d <= 0x7fff_ffff_ffff_ffffi128 {
            Some(Scalar { num: n as i64, den: d as i64 })
        } else {
            None
        }
    }

    proof fn lemma_prod_bounds(a: Scalar, b: Scalar)
        requires
            a.wf(),
            b.wf(),
        ensures
            -0x8000_0000_0000_0000 * 0x7fff_ffff_ffff_ffff <= a@.n * b@.d,
            a@.n * b@.d <= 0x7fff_ffff_ffff_ffff * 0x7fff_ffff_ffff_ffff,
            -0x4000_0000_0000_0000_0000_0000_0000_0000
                <= a@.n * b@.n <= 0x4000_0000_0000_0000_0000_0000_0000_0000,
            1 <= a@.d * b@.d <= 0x4000_0000_0000_0000_0000_0000_0000_0000,
    {
        lemma_mul_num_den_bound(a@.n, b@.d);
        lemma_mul_abs_bound(a@.n, b@.n, 0x8000_0000_0000_0000, 0x8000_0000_0000_0000);
        lemma_mul_pos_bound(a@.d, b@.d, 0x7fff_ffff_ffff_ffff, 0x7fff_ffff_ffff_ffff);
    }

    pub fn add(&self, other: &Scalar) -> (r: Option<Scalar>)
        requires
            self.wf(),
            other.wf(),
        ensures
            match r {
                Some(q) => q@ == rat_add(self@, other@) && q.wf(),
                None => !rat_fits(rat_add(self@, other@)),
            },
            rat_fits(rat_add(self@, other@)) ==> r is Some,
    {
        proof {
            Self::lemma_prod_bounds(*self, *other);
            Self::lemma_prod_bounds(*other, *self);
        }
        let n: i128 = (self.num as i128) * (other.den as i128)
            + (other.num as i128) * (self.den as i128);
        let d: i128 = (self.den as i128) * (other.den as i128);
        Self::make(n, d)
    }

    pub fn sub(&self, other: &Scalar) -> (r: Option<Scalar>)
        requires
            self.wf(),
            other.wf(),
        ensures
            match r {
                Some(q) => q@ == rat_sub(self@, other@) && q.wf(),
                None => !rat_fits(rat_sub(self@, other@)),
            },
            rat_fits(rat_sub(self@, other@)) ==> r is Some,
    {
        proof {
            Self::lemma_prod_bounds(*self, *other);
            Self::lemma_prod_bounds(*other, *self);
        }
        let n: i128 = (self.num as i128) * (other.den as i128)
            - (other.num as i128) * (self.den as i128);
        let d: i128 = (self.den as i128) * (other.den as i128);
        Self::make(n, d)
    }

    pub fn mul(&self, other: &Scalar) -> (r: Option<Scalar>)
        requires
            self.wf(),
            other.wf(),
        ensures
            match r {
                Some(q) => q@ == rat_mul(self@, other@) && q.wf(),
                None => !rat_fits(rat_mul(self@, other@)),
            },
            rat_fits(rat_mul(self@, other@)) ==> r is Some,
    {
        proof {
            Self::lemma_prod_bounds(*self, *other);
        }
        let n: i128 = (self.num as i128) * (other.num as i128);
        let d: i128 = (self.den as i128) * (other.den as i128);
        Self::make(n, d)
    }

    pub fn div(&self, other: &Scalar) -> (r: Option<Scalar>)
        requires
            self.wf(),
            other.wf(),
            other@.n != 0,
        ensures
            match r {
                Some(q) => q@ == rat_div(self@, other@) && q.wf(),
                None => !rat_fits(rat_div(self@, other@)),
            },
            rat_fits(rat_div(self@, other@)) ==> r is Some,
    {
        proof {
            Self::lemma_prod_bounds(*self, *other);
            lemma_mul_abs_bound(
                self@.d,
                other@.n,
                0x7fff_ffff_ffff_ffff,
                0x8000_0000_0000_0000,
            );
            lemma_mul_sign(self@.d, other@.n);
        }
        let n: i128 = (self.num as i128) * (other.den as i128);
        let d: i128 = (self.den as i128) * (other.num as i128);
        if other.num < 0 {
            proof {
                assert(-(self@.d * other@.n) == self@.d * (-other@.n)) by (nonlinear_arith);
            }
            Self::make(-n, -d)
        } else {
            Self::make(n, d)
        }
    }

    pub fn neg(&self) -> (r: Option<Scalar>)
        requires
            self.wf(),
        ensures
            match r {
                Some(q) => q@ == rat_neg(self@) && q.wf(),
                None => !rat_fits(rat_neg(self@)),
            },
            rat_fits(rat_neg(self@)) ==> r is Some,
    {
        Self::make(-(self.num as i128), self.den as i128)
    }

    pub fn sigmoid(&self) -> (r: Option<Scalar>)
        requires
            self.wf(),
        ensures
            match r {
                Some(q) => q@ == rat_sigmoid(self@) && q.wf(),
                None => !rat_fits(rat_sigmoid(self@)),
            },
            rat_fits(rat_sigmoid(self@)) ==> r is Some,
    {
        let a: i128 = if self.num < 0 {
            -(self.num as i128)
        } else {
            self.num as i128
        };
        let s: i128 = (self.den as i128) + a;
        Self::make(s + (self.num as i128), 2 * s)
    }

    pub fn pow(&self, p: u32) -> (r: Option<Scalar>)
        requires
            self.wf(),
        ensures
            match r {
                Some(q) => {
                    &&& q@ == rat_pow(self@, p as nat)
                    &&& q.wf()
                    &&& forall|j: nat| j <= p ==> rat_fits(#[trigger] rat_pow(self@, j))
                },
                None => exists|j: nat| 1 <= j <= p && !rat_fits(#[trigger] rat_pow(self@, j)),
            },
            (forall|j: nat| 1 <= j <= p ==> rat_fits(#[trigger] rat_pow(self@, j))) ==> r is Some,
    {
        let mut acc = Scalar::one();
        let mut k: u32 = 0;
        while k < p
            invariant
                self.wf(),
                acc.wf(),
                0 <= k <= p,
                acc@ == rat_pow(self@, k as nat),
                forall|j: nat| j <= k ==> rat_fits(#[trigger] rat_pow(self@, j)),
            decreases p - k,
        {
            proof {
                assert(rat_pow(self@, (k + 1) as nat) == rat_mul(rat_pow(self@, k as nat), self@));
            }
            let next = acc.mul(self);
            match next {
                Some(q) => {
                    acc = q;
                },
                None => {
                    proof {
                        let j: nat = (k + 1) as nat;
                        assert(1 <= j <= p && !rat_fits(rat_pow(self@, j)));
                    }
                    return None;
                },
            }
            k = k + 1;
        }
        Some(acc)
    }
}

impl PartialEq for Scalar {
    /// Value equality of exact rationals: cross products agree.
    fn eq(&self, other: &Scalar) -> (r: bool) {
        proof {
            lemma_mul_abs_bound(
                self@.n,
                other@.d,
                0x8000_0000_0000_0000,
                0x8000_0000_0000_0000,
            );
            lemma_mul_abs_bound(
                other@.n,
                self@.d,
                0x8000_0000_0000_0000,
                0x8000_0000_0000_0000,
            );
        }
        (self.num as i128) * (other.den as i128) == (other.num as i128) * (self.den as i128)
    }
}

impl vstd::std_specs::cmp::PartialEqSpecImpl for Scalar {
    open spec fn obeys_eq_spec() -> bool {
        true
    }

    open spec fn eq_spec(&self, other: &Scalar) -> bool {
        rat_eq(self@, other@)
    }
}

} // verus!
