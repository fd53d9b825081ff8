//! Modular inversion by the extended Euclidean algorithm.
use super::Uint;
use crate::error::ArithmeticError;
use vstd::arithmetic::div_mod::{
    lemma_fundamental_div_mod,
    lemma_fundamental_div_mod_converse,
    lemma_mod_multiples_basic,
};
use vstd::prelude::*;

verus! {

/// `c` divides `n`.
pub open spec fn divides(c: int, n: int) -> bool {
    n % c == 0
}

/// `n` is a multiple of `c`, by its witness.
proof fn lemma_divides_witness(c: int, n: int)
    requires
        0 < c,
        divides(c, n),
    ensures
        n == c * (n / c),
{
    lemma_fundamental_div_mod(n, c);
}

/// `c * k` is divisible by `c`.
proof fn lemma_divides_multiple(c: int, k: int)
    requires
        0 < c,
    ensures
        divides(c, c * k),
{
    lemma_mod_multiples_basic(k, c);
    assert(k * c == c * k) by (nonlinear_arith);
}

/// A divisor of `r1` and of `rr` divides `q * r1 + rr`.
proof fn lemma_divides_combination(c: int, q: int, r1: int, rr: int)
    requires
        0 < c,
        divides(c, r1),
        divides(c, rr),
    ensures
        divides(c, q * r1 + rr),
{
    lemma_divides_witness(c, r1);
    lemma_divides_witness(c, rr);
    let x = r1 / c;
    let y = rr / c;
    assert(q * r1 + rr == c * (q * x + y)) by (nonlinear_arith)
        requires
            r1 == c * x,
            rr == c * y,
    ;
    lemma_divides_multiple(c, q * x + y);
}

/// The coefficient update of one Euclidean step keeps `s * a == r (mod m)`.
proof fn lemma_bezout_step(
    m: int,
    a: int,
    s0: int,
    s1: int,
    r0: int,
    r1: int,
    q: int,
    rr: int,
    qm: int,
    t: int,
    s2: int,
)
    requires
        0 < m,
        divides(m, s0 * a - r0),
        divides(m, s1 * a - r1),
        r0 == q * r1 + rr,
        qm == q % m,
        t == (qm * s1) % m,
        s2 == (s0 - t) % m,
    ensures
        divides(m, s2 * a - rr),
{
    lemma_divides_witness(m, s0 * a - r0);
    lemma_divides_witness(m, s1 * a - r1);
    lemma_fundamental_div_mod(s0 - t, m);
    lemma_fundamental_div_mod(qm * s1, m);
    lemma_fundamental_div_mod(q, m);
    let e0 = (s0 * a - r0) / m;
    let e1 = (s1 * a - r1) / m;
    let d1 = (s0 - t) / m;
    let d2 = (qm * s1) / m;
    let d3 = q / m;
    let dd = d3 * s1 + d2 - d1;
    assert(s2 == s0 - q * s1 + m * dd) by (nonlinear_arith)
        requires
            s0 - t == m * d1 + s2,
            qm * s1 == m * d2 + t,
            q == m * d3 + qm,
            dd == d3 * s1 + d2 - d1,
    ;
    assert(s2 * a == s0 * a - q * (s1 * a) + m * (dd * a)) by (nonlinear_arith)
        requires
            s2 == s0 - q * s1 + m * dd,
    ;
    assert(q * (s1 * a) == q * r1 + m * (q * e1)) by (nonlinear_arith)
        requires
            s1 * a - r1 == m * e1,
    ;
    let k = e0 - q * e1 + dd * a;
    assert(s2 * a - rr == m * k) by (nonlinear_arith)
        requires
            s2 * a == s0 * a - q * (s1 * a) + m * (dd * a),
            q * (s1 * a) == q * r1 + m * (q * e1),
            s0 * a - r0 == m * e0,
            r0 == q * r1 + rr,
            k == e0 - q * e1 + dd * a,
    ;
    lemma_divides_multiple(m, k);
}

/// Where some `g >= 2` divides both `a` and `m`, no `x` has `a * x == 1 (mod m)`.
proof fn lemma_no_inverse(a: int, m: int, g: int)
    requires
        1 < m,
        2 <= g,
        divides(g, a),
        divides(g, m),
    ensures
        forall|x: int| 0 <= x < m ==> #[trigger] ((a * x) % m) != 1,
{
    assert forall|x: int| 0 <= x < m implies #[trigger] ((a * x) % m) != 1 by {
        if (a * x) % m == 1 {
            lemma_fundamental_div_mod(a * x, m);
            lemma_divides_witness(g, a);
            lemma_divides_witness(g, m);
            let al = a / g;
            let ml = m / g;
            let k = (a * x) / m;
            assert(g * (al * x - ml * k) == 1) by (nonlinear_arith)
                requires
                    a * x == m * k + 1,
                    a == g * al,
                    m == g * ml,
            ;
            assert(false) by (nonlinear_arith)
                requires
                    g * (al * x - ml * k) == 1,
                    2 <= g,
            ;
        }
    }
}

impl<const LIMBS: usize> Uint<LIMBS> {
    /// Multiplying a value by its inverse modulo `m` gives one.
    pub proof fn lemma_inv_mod_mul(a: Self, m: Self, inv: Self, product: Self)
        requires
            inv.value() < m.value(),
            (a.value() * inv.value()) % m.value() == 1,
            product.value() == (a.value() * inv.value()) % m.value(),
        ensures
            product.value() == 1,
    {
    }

    /// The inverse of `self` modulo `m`, for an operand reduced modulo `m`:
    /// `self * r == 1 (mod m)`. Where none exists (`self` and `m` share a
    /// factor, or `m` is 1), `NotInvertible` is returned.
    ///
    /// This runs the classic Euclidean remainder sequence, whose length depends
    /// on the operands: it is not constant-time.
    pub fn inv_mod(&self, m: &Self) -> (r: Result<Self, ArithmeticError>)
        requires
            self.value() < m.value(),
        ensures
            r is Ok ==> r->Ok_0.value() < m.value() && (self.value() * r->Ok_0.value()) % m.value()
                == 1,
            r is Err ==> r == Err::<Self, ArithmeticError>(ArithmeticError::NotInvertible),
            r is Err ==> forall|x: int|
                0 <= x < m.value() ==> #[trigger] ((self.value() * x) % (m.value() as int)) != 1,
    {
        let ghost a = self.value() as int;
        let ghost mv = m.value() as int;
        let one = Self::one();
        if *m == one {
            proof {
                Self::lemma_words_ext(*m, one);
                assert forall|x: int| 0 <= x < mv implies #[trigger] ((a * x) % mv) != 1 by {
                    assert(x == 0);
                    assert(a * x == 0) by (nonlinear_arith)
                        requires
                            x == 0,
                    ;
                }
            }
            return Err(ArithmeticError::NotInvertible);
        }
        proof {
            if one.value() == mv {
                Self::lemma_value_ext(one, *m);
            }
            assert(mv > 1);
        }
        let mut r0 = *m;
        let mut r1 = *self;
        let mut s0 = Self::zero();
        let mut s1 = one;
        proof {
            assert(0 * a - mv == -mv) by (nonlinear_arith);
            lemma_divides_multiple(mv, -1);
            assert(1 * a - a == 0) by (nonlinear_arith);
            lemma_divides_multiple(mv, 0);
        }
        while !r1.is_zero()
            invariant
                mv == m.value(),
                a == self.value(),
                1 < mv,
                0 <= a < mv,
                0 < r0.value(),
                r1.value() < r0.value(),
                s0.value() < mv,
                s1.value() < mv,
                divides(mv, s0.value() * a - r0.value()),
                divides(mv, s1.value() * a - r1.value()),
                forall|c: int|
                    0 < c && #[trigger] divides(c, r0.value() as int) && divides(c, r1.value() as int)
                        ==> divides(c, mv) && divides(c, a),
            decreases r1.value(),
        {
            let (q, rr) = match r0.div_rem(&r1) {
                Ok(qr) => qr,
                Err(_) => {
                    return Err(ArithmeticError::NotInvertible);
                },
            };
            let (qq, qm) = match q.div_rem(m) {
                Ok(qr) => qr,
                Err(_) => {
                    return Err(ArithmeticError::NotInvertible);
                },
            };
            let t = qm.mul_mod(&s1, m);
            let s2 = s0.sub_mod(&t, m);
            proof {
                let qv = q.value() as int;
                let r0v = r0.value() as int;
                let r1v = r1.value() as int;
                let rrv = rr.value() as int;
                assert(r0v == qv * r1v + rrv) by (nonlinear_arith)
                    requires
                        r0v == qv * r1v + rrv,
                ;
                assert(qv == qq.value() * mv + qm.value());
                lemma_fundamental_div_mod_converse(qv, mv, qq.value() as int, qm.value() as int);
                assert(qm.value() == qv % mv);
                lemma_bezout_step(
                    mv,
                    a,
                    s0.value() as int,
                    s1.value() as int,
                    r0v,
                    r1v,
                    qv,
                    rrv,
                    qm.value() as int,
                    t.value() as int,
                    s2.value() as int,
                );
                assert forall|c: int|
                    0 < c && #[trigger] divides(c, r1v) && divides(c, rrv) implies divides(c, mv)
                    && divides(c, a) by {
                    lemma_divides_combination(c, qv, r1v, rrv);
                    assert(divides(c, r0v));
                }
            }
            r0 = r1;
            r1 = rr;
            s0 = s1;
            s1 = s2;
        }
        if r0 == one {
            proof {
                Self::lemma_words_ext(r0, one);
                let s = s0.value() as int;
                lemma_divides_witness(mv, s * a - 1);
                assert(a * s == mv * ((s * a - 1) / mv) + 1) by (nonlinear_arith)
                    requires
                        s * a - 1 == mv * ((s * a - 1) / mv),
                ;
                lemma_fundamental_div_mod_converse(a * s, mv, (s * a - 1) / mv, 1);
            }
            Ok(s0)
        } else {
            proof {
                let g = r0.value() as int;
                if g == 1 {
                    Self::lemma_value_ext(r0, one);
                }
                lemma_divides_multiple(g, 1);
                lemma_divides_multiple(g, 0);
                assert(divides(g, g) && divides(g, 0));
                assert(r1.value() == 0);
                lemma_no_inverse(a, mv, g);
            }
            Err(ArithmeticError::NotInvertible)
        }
    }
}

} // verus!
