//! Newton interpolation modulo `q`: the divided-difference table, its
//! expansion into monomial coefficients by Horner's rule, and the proof that
//! the polynomial so obtained passes through every data point.

use crate::field::{
    add_mod, congruent, has_inverse, inv_mod, inv_mod_spec, is_prime, lemma_congruent_add,
    lemma_congruent_iff, lemma_congruent_mod, lemma_congruent_mul, lemma_congruent_refl,
    lemma_congruent_trans, lemma_inverse_cancels, lemma_inverse_is_spec, lemma_inverse_of_residue,
    lemma_multiple_scaled, lemma_multiple_sum, lemma_prime_unit_iff, mul_mod, mul_mod_spec, neg_mod,
    sub_mod, sub_mod_spec,
};
use crate::utils::ints_of;
use vstd::arithmetic::div_mod::*;
use vstd::prelude::*;

verus! {

/// Why an interpolation was refused.
#[derive(Clone, Copy, Debug, PartialEq, Eq, Structural)]
pub enum InterpError {
    /// Two abscissae differ by a non-unit of the ring; modulo a prime this
    /// means that an abscissa occurs twice.
    RepeatedX,
}

/// Value at `x` of the polynomial with coefficients `c`, lowest degree first.
pub open spec fn poly_eval_int(c: Seq<int>, x: int) -> int
    decreases c.len(),
{
    if c.len() == 0 {
        0
    } else {
        c[0] + x * poly_eval_int(c.drop_first(), x)
    }
}

/// Value at `x`, modulo `q`, of the polynomial with coefficients `c`.
pub open spec fn poly_eval(c: Seq<int>, x: int, q: int) -> int {
    poly_eval_int(c, x) % q
}

/// Every difference of two abscissae is a unit modulo `q`.
pub open spec fn pairwise_units(xs: Seq<int>, q: int) -> bool {
    forall|i: int, j: int| 0 <= i < j < xs.len() ==> has_inverse(#[trigger] xs[j] - #[trigger] xs[i], q)
}

/// No two abscissae are congruent modulo `q`.
pub open spec fn pairwise_distinct(xs: Seq<int>, q: int) -> bool {
    forall|i: int, j: int| 0 <= i < j < xs.len() ==> (#[trigger] xs[j] - #[trigger] xs[i]) % q != 0
}

/// The divided difference of the points `r ..= r + c`, reduced modulo `q`.
pub open spec fn divided_difference(xs: Seq<int>, ys: Seq<int>, q: int, r: int, c: int) -> int
    decreases c,
{
    if c <= 0 {
        ys[r] % q
    } else {
        mul_mod_spec(
            sub_mod_spec(
                divided_difference(xs, ys, q, r + 1, c - 1),
                divided_difference(xs, ys, q, r, c - 1),
                q,
            ),
            inv_mod_spec(sub_mod_spec(xs[r + c], xs[r], q), q),
            q,
        )
    }
}

/// The product of `x - xs[r + j]` over `0 <= j < c`.
pub open spec fn node_product(xs: Seq<int>, r: int, c: int, x: int) -> int
    decreases c,
{
    if c <= 0 {
        1
    } else {
        node_product(xs, r, c - 1, x) * (x - xs[r + c - 1])
    }
}

/// Newton's form of the interpolant through the points `r ..= r + c`.
pub open spec fn newton_sum(xs: Seq<int>, ys: Seq<int>, q: int, r: int, c: int, x: int) -> int
    decreases c,
{
    if c <= 0 {
        divided_difference(xs, ys, q, r, 0)
    } else {
        newton_sum(xs, ys, q, r, c - 1, x) + divided_difference(xs, ys, q, r, c) * node_product(
            xs,
            r,
            c,
            x,
        )
    }
}

/// The nested form `d_j + (x - x_j) (d_{j+1} + (x - x_{j+1}) (...))` of the
/// interpolant through all `n` points, from the `j`-th coefficient on.
pub open spec fn horner_tail(xs: Seq<int>, ys: Seq<int>, q: int, j: int, n: int, x: int) -> int
    decreases n - j,
{
    if j >= n {
        0
    } else {
        divided_difference(xs, ys, q, 0, j) + (x - xs[j]) * horner_tail(xs, ys, q, j + 1, n, x)
    }
}

/// Coefficient `k` of `(X - a) * p`, not reduced.
pub open spec fn shifted(p: Seq<int>, a: int, k: int) -> int {
    (if 1 <= k <= p.len() {
        p[k - 1]
    } else {
        0
    }) - a * (if 0 <= k < p.len() {
        p[k]
    } else {
        0
    })
}

/// The coefficients of `(X - a) * p`, reduced modulo `q`.
pub open spec fn monomial_product(p: Seq<int>, a: int, q: int) -> Seq<int> {
    Seq::new(p.len() + 1, |k: int| shifted(p, a, k) % q)
}

/// The coefficients of `(x - x_{i-1}) (d_i + (x - x_i) (d_{i+1} + ...))`,
/// expanded from the inside out and reduced modulo `q` at each step.
pub open spec fn horner_coefficients(xs: Seq<int>, ys: Seq<int>, q: int, i: int, n: int) -> Seq<int>
    decreases n - i,
{
    if i >= n {
        seq![0int]
    } else {
        let inner = horner_coefficients(xs, ys, q, i + 1, n);
        monomial_product(
            inner.update(0, (inner[0] + divided_difference(xs, ys, q, 0, i)) % q),
            xs[i - 1],
            q,
        )
    }
}

/// The coefficients that Newton's interpolation through the points
/// `(xs[i], ys[i])` computes modulo `q`, lowest degree first.
pub open spec fn newton_coefficients(xs: Seq<int>, ys: Seq<int>, q: int) -> Seq<int> {
    if xs.len() == 0 {
        Seq::empty()
    } else {
        let inner = horner_coefficients(xs, ys, q, 1, xs.len() as int);
        inner.update(0, (inner[0] + divided_difference(xs, ys, q, 0, 0)) % q)
    }
}

// ---------------------------------------------------------------------------
// Evaluation lemmas
// ---------------------------------------------------------------------------
/// Coefficientwise congruent polynomials take congruent values.
pub proof fn lemma_eval_congruent(c: Seq<int>, d: Seq<int>, x: int, q: int)
    requires
        q > 0,
        c.len() == d.len(),
        forall|k: int| 0 <= k < c.len() ==> congruent(#[trigger] c[k], d[k], q),
    ensures
        congruent(poly_eval_int(c, x), poly_eval_int(d, x), q),
    decreases c.len(),
{
    if c.len() == 0 {
        lemma_congruent_refl(0, q);
    } else {
        let c1 = c.drop_first();
        let d1 = d.drop_first();
        assert forall|k: int| 0 <= k < c1.len() implies congruent(#[trigger] c1[k], d1[k], q) by {
            assert(c1[k] == c[k + 1]);
            assert(d1[k] == d[k + 1]);
        }
        lemma_eval_congruent(c1, d1, x, q);
        lemma_congruent_refl(x, q);
        lemma_congruent_mul(x, x, poly_eval_int(c1, x), poly_eval_int(d1, x), q);
        lemma_congruent_add(
            c[0],
            d[0],
            x * poly_eval_int(c1, x),
            x * poly_eval_int(d1, x),
            q,
        );
    }
}

/// Adding `d` to the constant coefficient adds `d` to every value.
pub proof fn lemma_eval_add_constant(c: Seq<int>, d: int, x: int)
    requires
        c.len() > 0,
    ensures
        poly_eval_int(c.update(0, c[0] + d), x) == poly_eval_int(c, x) + d,
{
    assert(c.update(0, c[0] + d).drop_first() =~= c.drop_first());
}

/// The unreduced coefficients of `(X - a) * p` evaluate to `(x - a) * p(x)`.
pub proof fn lemma_eval_shifted(p: Seq<int>, a: int, x: int)
    ensures
        poly_eval_int(Seq::new(p.len() + 1, |k: int| shifted(p, a, k)), x) == (x - a)
            * poly_eval_int(p, x),
    decreases p.len(),
{
    let s = Seq::new(p.len() + 1, |k: int| shifted(p, a, k));
    if p.len() == 0 {
        assert(s.drop_first().len() == 0);
        assert(poly_eval_int(s.drop_first(), x) == 0);
        assert(s[0] == 0);
        assert((x - a) * 0 == 0);
        assert(x * 0 == 0);
    } else {
        let rest = p.drop_first();
        let s1 = Seq::new(rest.len() + 1, |k: int| shifted(rest, a, k));
        lemma_eval_shifted(rest, a, x);
        let t = s.drop_first();
        assert(t =~= s1.update(0, s1[0] + p[0])) by {
            assert forall|k: int| 0 <= k < t.len() implies t[k] == s1.update(0, s1[0] + p[0])[k] by {
                assert(t[k] == shifted(p, a, k + 1));
                if k < rest.len() {
                    assert(rest[k] == p[k + 1]);
                }
                if k >= 1 {
                    assert(rest[k - 1] == p[k]);
                }
            }
        }
        lemma_eval_add_constant(s1, p[0], x);
        let e: int = poly_eval_int(rest, x);
        assert(poly_eval_int(t, x) == (x - a) * e + p[0]);
        assert(s[0] == -(a * p[0]));
        assert(-(a * p[0]) + x * ((x - a) * e + p[0]) == (x - a) * (p[0] + x * e))
            by (nonlinear_arith);
    }
}

/// A sequence congruent, coefficient by coefficient, to `(X - a) * p`
/// evaluates to `(x - a) * p(x)` modulo `q`.
pub proof fn lemma_eval_monomial_product(p: Seq<int>, new_p: Seq<int>, a: int, x: int, q: int)
    requires
        q > 0,
        new_p.len() == p.len() + 1,
        forall|k: int| 0 <= k < new_p.len() ==> congruent(#[trigger] new_p[k], shifted(p, a, k), q),
    ensures
        congruent(poly_eval_int(new_p, x), (x - a) * poly_eval_int(p, x), q),
{
    let s = Seq::new(p.len() + 1, |k: int| shifted(p, a, k));
    lemma_eval_congruent(new_p, s, x, q);
    lemma_eval_shifted(p, a, x);
}

// ---------------------------------------------------------------------------
// Newton's form interpolates
// ---------------------------------------------------------------------------
/// The defining recurrence of divided differences, cleared of the division:
/// `d(r, c) * (x_{r+c} - x_r) == d(r+1, c-1) - d(r, c-1)` modulo `q`.
pub proof fn lemma_divided_difference_recurrence(xs: Seq<int>, ys: Seq<int>, q: int, r: int, c: int)
    requires
        q > 0,
        c >= 1,
        has_inverse(xs[r + c] - xs[r], q),
    ensures
        congruent(
            divided_difference(xs, ys, q, r, c) * (xs[r + c] - xs[r]),
            divided_difference(xs, ys, q, r + 1, c - 1) - divided_difference(xs, ys, q, r, c - 1),
            q,
        ),
{
    let delta: int = divided_difference(xs, ys, q, r + 1, c - 1) - divided_difference(
        xs,
        ys,
        q,
        r,
        c - 1,
    );
    let h: int = xs[r + c] - xs[r];
    let hr: int = h % q;
    assert(has_inverse(hr, q)) by {
        let w: int = inv_mod_spec(h, q);
        lemma_inverse_of_residue(h, w, q);
    }
    let v: int = inv_mod_spec(hr, q);
    let d: int = divided_difference(xs, ys, q, r, c);
    assert(d == ((delta % q) * v) % q);
    // d == delta * v, and (delta * v) * h == delta
    lemma_congruent_mod((delta % q) * v, q);
    lemma_congruent_mod(delta, q);
    lemma_congruent_refl(v, q);
    lemma_congruent_mul(delta % q, delta, v, v, q);
    lemma_congruent_trans(d, (delta % q) * v, delta * v, q);
    lemma_congruent_mod(h, q);
    lemma_congruent_mul(d, delta * v, h, hr, q);
    lemma_inverse_cancels(delta, hr, q);
    lemma_congruent_trans(d * h, delta * v * hr, delta, q);
}

/// The node product over `r .. r + c` splits off its first factor.
pub proof fn lemma_node_product_first(xs: Seq<int>, r: int, c: int, x: int)
    requires
        c >= 1,
    ensures
        node_product(xs, r, c, x) == (x - xs[r]) * node_product(xs, r + 1, c - 1, x),
    decreases c,
{
    if c == 1 {
        assert(node_product(xs, r, 0, x) == 1);
        assert(node_product(xs, r + 1, 0, x) == 1);
        assert(node_product(xs, r, 1, x) == 1 * (x - xs[r]));
        assert(1 * (x - xs[r]) == (x - xs[r]) * 1);
    } else {
        lemma_node_product_first(xs, r, c - 1, x);
        let w: int = node_product(xs, r + 1, c - 2, x);
        let f: int = x - xs[r + c - 1];
        assert(node_product(xs, r + 1, c - 1, x) == w * f);
        assert(((x - xs[r]) * w) * f == (x - xs[r]) * (w * f)) by (nonlinear_arith);
    }
}

/// The node product over `r .. r + c` vanishes at each of its nodes.
pub proof fn lemma_node_product_vanishes(xs: Seq<int>, r: int, c: int, i: int)
    requires
        r <= i < r + c,
    ensures
        node_product(xs, r, c, xs[i]) == 0,
    decreases c,
{
    let x: int = xs[i];
    if i == r + c - 1 {
        assert(node_product(xs, r, c - 1, x) * 0 == 0);
    } else {
        lemma_node_product_vanishes(xs, r, c - 1, i);
        assert(0 * (x - xs[r + c - 1]) == 0);
    }
}

/// Newton's form through `r ..= r + c` is Newton's form through
/// `r + 1 ..= r + c` plus a multiple of the node product over those nodes.
pub proof fn lemma_newton_sum_shift(xs: Seq<int>, ys: Seq<int>, q: int, r: int, c: int, x: int)
    requires
        q > 0,
        c >= 1,
        0 <= r,
        r + c < xs.len(),
        pairwise_units(xs, q),
    ensures
        congruent(
            newton_sum(xs, ys, q, r, c, x),
            newton_sum(xs, ys, q, r + 1, c - 1, x) + divided_difference(xs, ys, q, r, c)
                * node_product(xs, r + 1, c, x),
            q,
        ),
    decreases c,
{
    let d_rc: int = divided_difference(xs, ys, q, r, c);
    let d_lo: int = divided_difference(xs, ys, q, r, c - 1);
    let d_hi: int = divided_difference(xs, ys, q, r + 1, c - 1);
    let h: int = xs[r + c] - xs[r];
    lemma_divided_difference_recurrence(xs, ys, q, r, c);
    // rec: d_rc * h - (d_hi - d_lo) is a multiple of q
    let rec: int = d_rc * h - (d_hi - d_lo);
    let w: int = node_product(xs, r + 1, c - 1, x);
    lemma_multiple_scaled(rec, w, q);
    lemma_node_product_first(xs, r, c, x);
    assert(node_product(xs, r + 1, c, x) == w * (x - xs[r + c]));
    let lhs: int = newton_sum(xs, ys, q, r, c, x);
    let rhs: int = newton_sum(xs, ys, q, r + 1, c - 1, x) + d_rc * node_product(xs, r + 1, c, x);
    if c == 1 {
        assert(w == 1);
        assert(newton_sum(xs, ys, q, r, 0, x) == d_lo);
        assert(newton_sum(xs, ys, q, r + 1, 0, x) == d_hi);
        assert(lhs - rhs == w * rec) by (nonlinear_arith)
            requires
                w == 1,
                lhs == d_lo + d_rc * ((x - xs[r]) * w),
                rhs == d_hi + d_rc * (w * (x - xs[r + c])),
                rec == d_rc * h - (d_hi - d_lo),
                h == xs[r + c] - xs[r],
        ;
    } else {
        lemma_newton_sum_shift(xs, ys, q, r, c - 1, x);
        let p_lo: int = newton_sum(xs, ys, q, r, c - 1, x);
        let p_hi: int = newton_sum(xs, ys, q, r + 1, c - 2, x);
        // ih: p_lo - (p_hi + d_lo * w) is a multiple of q
        let ih: int = p_lo - (p_hi + d_lo * w);
        lemma_multiple_sum(rec, ih, w, q);
        assert(lhs - rhs == w * rec + ih) by (nonlinear_arith)
            requires
                lhs == p_lo + d_rc * ((x - xs[r]) * w),
                rhs == (p_hi + d_hi * w) + d_rc * (w * (x - xs[r + c])),
                rec == d_rc * h - (d_hi - d_lo),
                ih == p_lo - (p_hi + d_lo * w),
                h == xs[r + c] - xs[r],
        ;
    }
}

/// Newton's form through the points `r ..= r + c` takes the value `ys[i]` at
/// each of them.
pub proof fn lemma_newton_sum_interpolates(
    xs: Seq<int>,
    ys: Seq<int>,
    q: int,
    r: int,
    c: int,
    i: int,
)
    requires
        q > 0,
        c >= 0,
        0 <= r <= i <= r + c,
        r + c < xs.len(),
        pairwise_units(xs, q),
    ensures
        congruent(newton_sum(xs, ys, q, r, c, xs[i]), ys[i], q),
    decreases c,
{
    let x: int = xs[i];
    if c == 0 {
        lemma_congruent_mod(ys[i], q);
    } else if i < r + c {
        lemma_newton_sum_interpolates(xs, ys, q, r, c - 1, i);
        lemma_node_product_vanishes(xs, r, c, i);
        assert(divided_difference(xs, ys, q, r, c) * 0 == 0);
    } else {
        lemma_newton_sum_interpolates(xs, ys, q, r + 1, c - 1, i);
        lemma_newton_sum_shift(xs, ys, q, r, c, x);
        lemma_node_product_vanishes(xs, r + 1, c, i);
        assert(divided_difference(xs, ys, q, r, c) * 0 == 0);
        lemma_congruent_trans(
            newton_sum(xs, ys, q, r, c, x),
            newton_sum(xs, ys, q, r + 1, c - 1, x),
            ys[i],
            q,
        );
    }
}

/// The nested form and Newton's form are the same number.
pub proof fn lemma_horner_tail_is_newton_sum(
    xs: Seq<int>,
    ys: Seq<int>,
    q: int,
    j: int,
    n: int,
    x: int,
)
    requires
        0 <= j < n,
    ensures
        horner_tail(xs, ys, q, 0, n, x) == newton_sum(xs, ys, q, 0, j, x) + node_product(
            xs,
            0,
            j + 1,
            x,
        ) * horner_tail(xs, ys, q, j + 1, n, x),
    decreases j,
{
    if j == 0 {
        assert(node_product(xs, 0, 0, x) == 1);
        assert(node_product(xs, 0, 1, x) == 1 * (x - xs[0]));
    } else {
        lemma_horner_tail_is_newton_sum(xs, ys, q, j - 1, n, x);
        let w: int = node_product(xs, 0, j, x);
        let d: int = divided_difference(xs, ys, q, 0, j);
        let t: int = horner_tail(xs, ys, q, j + 1, n, x);
        assert(horner_tail(xs, ys, q, j, n, x) == d + (x - xs[j]) * t);
        assert(node_product(xs, 0, j + 1, x) == w * (x - xs[j]));
        assert(w * (d + (x - xs[j]) * t) == d * w + (w * (x - xs[j])) * t) by (nonlinear_arith);
    }
}

/// The nested form through all `n` points takes the value `ys[i]` at `xs[i]`.
pub proof fn lemma_horner_interpolates(xs: Seq<int>, ys: Seq<int>, q: int, i: int)
    requires
        q > 0,
        0 <= i < xs.len(),
        pairwise_units(xs, q),
    ensures
        congruent(horner_tail(xs, ys, q, 0, xs.len() as int, xs[i]), ys[i], q),
{
    let n: int = xs.len() as int;
    lemma_horner_tail_is_newton_sum(xs, ys, q, n - 1, n, xs[i]);
    assert(horner_tail(xs, ys, q, n, n, xs[i]) == 0);
    assert(node_product(xs, 0, n, xs[i]) * 0 == 0);
    lemma_newton_sum_interpolates(xs, ys, q, 0, n - 1, i);
}

/// Modulo a prime, abscissae that are pairwise distinct differ by units.
pub proof fn lemma_distinct_are_units(xs: Seq<int>, q: int)
    requires
        is_prime(q),
    ensures
        pairwise_units(xs, q) <==> pairwise_distinct(xs, q),
{
    if pairwise_distinct(xs, q) {
        assert forall|i: int, j: int| 0 <= i < j < xs.len() implies has_inverse(
            #[trigger] xs[j] - #[trigger] xs[i],
            q,
        ) by {
            lemma_prime_unit_iff(xs[j] - xs[i], q);
        }
    }
    if pairwise_units(xs, q) {
        assert forall|i: int, j: int| 0 <= i < j < xs.len() implies (#[trigger] xs[j]
            - #[trigger] xs[i]) % q != 0 by {
            lemma_prime_unit_iff(xs[j] - xs[i], q);
        }
    }
}

// ---------------------------------------------------------------------------
// Executable code
// ---------------------------------------------------------------------------
/// Multiplies the polynomial `poly` by the monomial `X - a`, in place.
///
/// With `p = [c_0, ..., c_n]`, the product is
/// `[0, c_0, ..., c_n] - [a c_0, ..., a c_n, 0]`.
pub fn poly_mul_monomial(poly: &mut Vec<u32>, a: u32, q: u32)
    requires
        q > 0,
        old(poly).len() < usize::MAX,
    ensures
        final(poly)@.len() == old(poly)@.len() + 1,
        forall|k: int|
            0 <= k < final(poly)@.len() ==> #[trigger] final(poly)@[k] as int == shifted(
                ints_of(old(poly)@),
                a as int,
                k,
            ) % (q as int),
        forall|x: int|
            congruent(
                #[trigger] poly_eval_int(ints_of(final(poly)@), x),
                (x - a) * poly_eval_int(ints_of(old(poly)@), x),
                q as int,
            ),
{
    let ghost old_p: Seq<int> = ints_of(poly@);
    let ghost qi: int = q as int;
    // make room for another degree
    poly.push(0);
    let degree: usize = poly.len() - 1;
    let mut i: usize = degree;
    while i >= 1
        invariant
            q > 0,
            qi == q as int,
            i <= degree,
            poly@.len() == degree + 1,
            old_p.len() == degree,
            forall|k: int| 0 <= k <= i && k < degree ==> poly@[k] as int == #[trigger] old_p[k],
            i == degree ==> poly@[degree as int] == 0,
            forall|k: int| i < k <= degree ==> #[trigger] poly@[k] as int == shifted(old_p, a as int, k) % qi,
        decreases i,
    {
        // the i-th coefficient of the product is p[i-1] - a * p[i]
        let t: u32 = mul_mod(a, poly[i], q);
        let v: u32 = sub_mod(poly[i - 1], t, q);
        proof {
            let hi: int = if i < degree { old_p[i as int] } else { 0 };
            assert(poly@[i as int] as int == hi);
            assert(shifted(old_p, a as int, i as int) == old_p[i - 1] - a * hi);
            lemma_sub_mod_noop_right(old_p[i - 1], a * hi, qi);
        }
        poly[i] = v;
        i = i - 1;
    }
    // the constant coefficient is -a * c_0
    let t: u32 = mul_mod(a, poly[0], q);
    let v: u32 = neg_mod(t, q);
    proof {
        let lo: int = if 0 < degree { old_p[0] } else { 0 };
        assert(poly@[0] as int == lo);
        assert(shifted(old_p, a as int, 0) == 0 - a * lo);
        lemma_sub_mod_noop_right(0, a * lo, qi);
    }
    poly[0] = v;
    proof {
        let new_p: Seq<int> = ints_of(poly@);
        assert forall|k: int| 0 <= k < new_p.len() implies congruent(
            #[trigger] new_p[k],
            shifted(old_p, a as int, k),
            qi,
        ) by {
            assert(new_p[k] == poly@[k] as int);
            lemma_congruent_mod(shifted(old_p, a as int, k), qi);
        }
        assert forall|x: int|
            congruent(#[trigger] poly_eval_int(ints_of(poly@), x), (x - a) * poly_eval_int(old_p, x), qi) by {
            lemma_eval_monomial_product(old_p, new_p, a as int, x, qi);
        }
    }
}

/// The table of divided differences of the points `(x[r], y[r])`: entry
/// `[r][c]` is the divided difference of the points `r ..= r + c`, so that row
/// `r` has `n - r` entries.
///
/// Fails exactly when two abscissae differ by a non-unit modulo `q`.
pub fn divided_matrix(x: &[u32], y: &[u32], q: u32) -> (res: Result<Vec<Vec<u32>>, InterpError>)
    requires
        x@.len() == y@.len(),
        q > 0,
    ensures
        res is Ok <==> pairwise_units(ints_of(x@), q as int),
        res is Ok ==> {
            let t = res->Ok_0;
            &&& t@.len() == x@.len()
            &&& forall|r: int| 0 <= r < t@.len() ==> (#[trigger] t@[r])@.len() == x@.len() - r
            &&& forall|r: int, c: int|
                0 <= r && 0 <= c && r + c < x@.len() ==> #[trigger] t@[r]@[c] as int
                    == divided_difference(ints_of(x@), ints_of(y@), q as int, r, c)
        },
{
    let n: usize = x.len();
    let ghost xs: Seq<int> = ints_of(x@);
    let ghost ys: Seq<int> = ints_of(y@);
    let ghost qi: int = q as int;
    let mut ddiff: Vec<Vec<u32>> = Vec::new();
    // the 0-th column holds the ordinates
    let mut row: usize = 0;
    while row < n
        invariant
            n == x@.len(),
            n == y@.len(),
            q > 0,
            qi == q as int,
            ys == ints_of(y@),
            row <= n,
            ddiff@.len() == row,
            forall|r: int| 0 <= r < row ==> (#[trigger] ddiff@[r])@.len() == 1,
            forall|r: int|
                0 <= r < row ==> (#[trigger] ddiff@[r])@[0] as int == divided_difference(
                    xs,
                    ys,
                    qi,
                    r,
                    0,
                ),
        decreases n - row,
    {
        let mut line: Vec<u32> = Vec::new();
        line.push(y[row] % q);
        ddiff.push(line);
        row = row + 1;
    }
    let mut col: usize = 1;
    while col < n
        invariant
            n == x@.len(),
            n == y@.len(),
            q > 0,
            qi == q as int,
            xs == ints_of(x@),
            ys == ints_of(y@),
            1 <= col,
            n >= 1 ==> col <= n,
            ddiff@.len() == n,
            forall|r: int|
                0 <= r < n ==> (#[trigger] ddiff@[r])@.len() == (if r + col <= n {
                    col as int
                } else {
                    n - r
                }),
            forall|r: int, c: int|
                0 <= r && 0 <= c < col && r + c < n ==> #[trigger] ddiff@[r]@[c] as int
                    == divided_difference(xs, ys, qi, r, c),
            forall|i: int, j: int|
                0 <= i < j < n && j - i < col ==> has_inverse(#[trigger] xs[j] - #[trigger] xs[i], qi),
        decreases n - col,
    {
        let mut row: usize = 0;
        while row < n - col
            invariant
                n == x@.len(),
                n == y@.len(),
                q > 0,
                qi == q as int,
                xs == ints_of(x@),
                ys == ints_of(y@),
                1 <= col < n,
                row <= n - col,
                ddiff@.len() == n,
                forall|r: int|
                    0 <= r < n ==> (#[trigger] ddiff@[r])@.len() == (if r < row {
                        col as int + 1
                    } else if r + col <= n {
                        col as int
                    } else {
                        n - r
                    }),
                forall|r: int, c: int|
                    0 <= r && 0 <= c < col && r + c < n ==> #[trigger] ddiff@[r]@[c] as int
                        == divided_difference(xs, ys, qi, r, c),
                forall|r: int|
                    0 <= r < row ==> (#[trigger] ddiff@[r])@[col as int] as int
                        == divided_difference(xs, ys, qi, r, col as int),
                forall|i: int, j: int|
                    0 <= i < j < n && (j - i < col || (j - i == col && i < row)) ==> has_inverse(
                        #[trigger] xs[j] - #[trigger] xs[i],
                        qi,
                    ),
            decreases n - col - row,
        {
            let y1: u32 = ddiff[row + 1][col - 1];
            let y0: u32 = ddiff[row][col - 1];
            let y1_y0: u32 = sub_mod(y1, y0, q);
            let x1_x0: u32 = sub_mod(x[row + col], x[row], q);
            let h: Option<u32> = inv_mod(x1_x0, q);
            let ghost hx: int = xs[row + col] - xs[row as int];
            proof {
                assert(xs[row + col] == x@[row + col] as int);
                assert(xs[row as int] == x@[row as int] as int);
                assert(x1_x0 as int == hx % qi);
                assert(has_inverse(hx % qi, qi) <==> has_inverse(hx, qi)) by {
                    if has_inverse(hx % qi, qi) {
                        lemma_inverse_of_residue(hx, inv_mod_spec(hx % qi, qi), qi);
                    }
                    if has_inverse(hx, qi) {
                        lemma_inverse_of_residue(hx, inv_mod_spec(hx, qi), qi);
                    }
                }
            }
            match h {
                None => {
                    return Err(InterpError::RepeatedX);
                },
                Some(inv) => {
                    let v: u32 = mul_mod(y1_y0, inv, q);
                    proof {
                        lemma_inverse_is_spec(x1_x0 as int, inv as int, qi);
                        assert(ddiff@[row + 1]@[col - 1] as int == divided_difference(
                            xs,
                            ys,
                            qi,
                            row + 1,
                            col - 1,
                        ));
                        assert(ddiff@[row as int]@[col - 1] as int == divided_difference(
                            xs,
                            ys,
                            qi,
                            row as int,
                            col - 1,
                        ));
                        assert(v as int == divided_difference(xs, ys, qi, row as int, col as int));
                    }
                    ddiff[row].push(v);
                },
            }
            row = row + 1;
        }
        col = col + 1;
    }
    proof {
        assert forall|i: int, j: int| 0 <= i < j < n implies has_inverse(
            #[trigger] xs[j] - #[trigger] xs[i],
            qi,
        ) by {
            assert(j - i < col);
        }
    }
    Ok(ddiff)
}

/// The coefficients, lowest degree first, of the polynomial of degree below
/// `n` that takes the value `y[i]` at `x[i]` for each of the `n` points.
///
/// Fails exactly when two abscissae differ by a non-unit modulo `q`; for a
/// prime `q`, when they are congruent.
pub fn newton_interpolate(x: &[u32], y: &[u32], q: u32) -> (res: Result<Vec<u32>, InterpError>)
    requires
        x@.len() == y@.len(),
        q > 0,
    ensures
        res is Ok <==> pairwise_units(ints_of(x@), q as int),
        res is Ok ==> {
            let c = res->Ok_0;
            &&& c@.len() == x@.len()
            &&& ints_of(c@) == newton_coefficients(ints_of(x@), ints_of(y@), q as int)
            &&& forall|k: int| 0 <= k < c@.len() ==> #[trigger] c@[k] < q
            &&& forall|i: int|
                0 <= i < x@.len() ==> poly_eval(ints_of(c@), #[trigger] x@[i] as int, q as int) == (
                y@[i] as int) % (q as int)
        },
{
    let n: usize = x.len();
    let ghost xs: Seq<int> = ints_of(x@);
    let ghost ys: Seq<int> = ints_of(y@);
    let ghost qi: int = q as int;
    if n == 0 {
        let none: Vec<u32> = Vec::new();
        assert(ints_of(none@) =~= newton_coefficients(xs, ys, qi));
        return Ok(none);
    }
    let table: Vec<Vec<u32>> = match divided_matrix(x, y, q) {
        Ok(t) => t,
        Err(e) => {
            return Err(e);
        },
    };
    // apply Horner's rule to expand the nested form
    let mut coefficients: Vec<u32> = Vec::new();
    coefficients.push(0);
    proof {
        assert(ints_of(coefficients@) =~= horner_coefficients(xs, ys, qi, n as int, n as int));
        assert forall|z: int|
            congruent(
                #[trigger] poly_eval_int(ints_of(coefficients@), z),
                (z - xs[n - 1]) * horner_tail(xs, ys, qi, n as int, n as int, z),
                qi,
            ) by {
            let c = ints_of(coefficients@);
            assert(c.len() == 1 && c[0] == 0);
            assert(c.drop_first().len() == 0);
            assert(poly_eval_int(c.drop_first(), z) == 0);
            assert(z * 0 == 0);
            assert(poly_eval_int(c, z) == 0);
            assert((z - xs[n - 1]) * 0 == 0);
            lemma_congruent_refl(0, qi);
        }
    }
    let mut i: usize = n - 1;
    while i >= 1
        invariant
            n == x@.len(),
            n == y@.len(),
            n >= 1,
            q > 0,
            qi == q as int,
            xs == ints_of(x@),
            ys == ints_of(y@),
            i < n,
            coefficients@.len() == n - i,
            ints_of(coefficients@) == horner_coefficients(xs, ys, qi, i + 1, n as int),
            forall|k: int| 0 <= k < coefficients@.len() ==> #[trigger] coefficients@[k] < q,
            table@.len() == n,
            forall|r: int| 0 <= r < n ==> (#[trigger] table@[r])@.len() == n - r,
            forall|r: int, c: int|
                0 <= r && 0 <= c && r + c < n ==> #[trigger] table@[r]@[c] as int
                    == divided_difference(xs, ys, qi, r, c),
            forall|z: int|
                congruent(
                    #[trigger] poly_eval_int(ints_of(coefficients@), z),
                    (z - xs[i as int]) * horner_tail(xs, ys, qi, i + 1, n as int, z),
                    qi,
                ),
        decreases i,
    {
        let a_i: u32 = table[0][i];
        let ghost before: Seq<int> = ints_of(coefficients@);
        let c0: u32 = add_mod(coefficients[0], a_i, q);
        coefficients[0] = c0;
        let ghost mid: Seq<int> = ints_of(coefficients@);
        // (c_i x^i + ... + a_i) * (x - x_{i-1})
        poly_mul_monomial(&mut coefficients, x[i - 1], q);
        proof {
            let d: int = divided_difference(xs, ys, qi, 0, i as int);
            assert(a_i as int == d);
            assert(xs[i - 1] == x@[i - 1] as int);
            assert(mid =~= before.update(0, (before[0] + d) % qi));
            assert(ints_of(coefficients@) =~= monomial_product(mid, xs[i - 1], qi));
            assert forall|z: int|
                congruent(
                    #[trigger] poly_eval_int(ints_of(coefficients@), z),
                    (z - xs[i - 1]) * horner_tail(xs, ys, qi, i as int, n as int, z),
                    qi,
                ) by {
                let t1: int = horner_tail(xs, ys, qi, i + 1, n as int, z);
                let t0: int = horner_tail(xs, ys, qi, i as int, n as int, z);
                assert(t0 == d + (z - xs[i as int]) * t1);
                // value after the constant coefficient took a_i
                let plus = before.update(0, before[0] + d);
                lemma_eval_add_constant(before, d, z);
                assert forall|k: int| 0 <= k < mid.len() implies congruent(
                    #[trigger] mid[k],
                    plus[k],
                    qi,
                ) by {
                    if k == 0 {
                        lemma_congruent_mod(before[0] + d, qi);
                    } else {
                        lemma_congruent_refl(mid[k], qi);
                    }
                }
                lemma_eval_congruent(mid, plus, z, qi);
                lemma_congruent_refl(d, qi);
                lemma_congruent_add(
                    poly_eval_int(before, z),
                    (z - xs[i as int]) * t1,
                    d,
                    d,
                    qi,
                );
                lemma_congruent_trans(
                    poly_eval_int(mid, z),
                    poly_eval_int(before, z) + d,
                    t0,
                    qi,
                );
                // value after the multiplication by x - x_{i-1}
                lemma_congruent_refl(z - xs[i - 1], qi);
                lemma_congruent_mul(z - xs[i - 1], z - xs[i - 1], poly_eval_int(mid, z), t0, qi);
                lemma_congruent_trans(
                    poly_eval_int(ints_of(coefficients@), z),
                    (z - xs[i - 1]) * poly_eval_int(mid, z),
                    (z - xs[i - 1]) * t0,
                    qi,
                );
            }
        }
        i = i - 1;
    }
    // the constant term a_0
    let a_0: u32 = table[0][0];
    let ghost before: Seq<int> = ints_of(coefficients@);
    let c0: u32 = add_mod(coefficients[0], a_0, q);
    coefficients[0] = c0;
    proof {
        let d: int = divided_difference(xs, ys, qi, 0, 0);
        let last: Seq<int> = ints_of(coefficients@);
        assert(last =~= before.update(0, (before[0] + d) % qi));
        assert forall|k: int| 0 <= k < x@.len() implies poly_eval(
            ints_of(coefficients@),
            #[trigger] x@[k] as int,
            qi,
        ) == (y@[k] as int) % qi by {
            let z: int = xs[k];
            let t1: int = horner_tail(xs, ys, qi, 1, n as int, z);
            let t0: int = horner_tail(xs, ys, qi, 0, n as int, z);
            assert(t0 == d + (z - xs[0]) * t1);
            let plus = before.update(0, before[0] + d);
            lemma_eval_add_constant(before, d, z);
            assert forall|m: int| 0 <= m < last.len() implies congruent(
                #[trigger] last[m],
                plus[m],
                qi,
            ) by {
                if m == 0 {
                    lemma_congruent_mod(before[0] + d, qi);
                } else {
                    lemma_congruent_refl(last[m], qi);
                }
            }
            lemma_eval_congruent(last, plus, z, qi);
            lemma_congruent_refl(d, qi);
            lemma_congruent_add(poly_eval_int(before, z), (z - xs[0]) * t1, d, d, qi);
            lemma_congruent_trans(poly_eval_int(last, z), poly_eval_int(before, z) + d, t0, qi);
            lemma_horner_interpolates(xs, ys, qi, k);
            lemma_congruent_trans(poly_eval_int(last, z), t0, ys[k], qi);
            lemma_congruent_iff(poly_eval_int(last, z), ys[k], qi);
        }
    }
    Ok(coefficients)
}

/// The value at `x`, modulo `q`, of the polynomial with coefficients `coeffs`
/// (lowest degree first).
pub fn evaluate_poly(x: u32, coeffs: &[u32], q: u32) -> (y: u32)
    requires
        q > 0,
    ensures
        y as int == poly_eval(ints_of(coeffs@), x as int, q as int),
        y < q,
{
    let ghost c: Seq<int> = ints_of(coeffs@);
    let ghost qi: int = q as int;
    let mut y: u32 = 0;
    let mut i: usize = coeffs.len();
    proof {
        assert(c.subrange(i as int, c.len() as int).len() == 0);
        lemma_small_mod(0, q as nat);
    }
    while i > 0
        invariant
            q > 0,
            qi == q as int,
            c == ints_of(coeffs@),
            i <= coeffs@.len(),
            y < q,
            y as int == poly_eval_int(c.subrange(i as int, c.len() as int), x as int) % qi,
        decreases i,
    {
        i = i - 1;
        let t: u32 = mul_mod(y, x, q);
        let ghost y_before: int = y as int;
        y = add_mod(t, coeffs[i], q);
        proof {
            let tail = c.subrange(i + 1, c.len() as int);
            let cur = c.subrange(i as int, c.len() as int);
            assert(cur.drop_first() =~= tail);
            assert(cur[0] == coeffs@[i as int] as int);
            let e: int = poly_eval_int(tail, x as int);
            assert(poly_eval_int(cur, x as int) == cur[0] + x * e);
            // ((e % q) * x % q + c_i) % q == (c_i + x * e) % q
            lemma_mul_mod_noop_left(e, x as int, qi);
            lemma_add_mod_noop_right(cur[0], e * x, qi);
            assert(e * x == x * e) by (nonlinear_arith);
        }
    }
    proof {
        assert(c.subrange(0, c.len() as int) =~= c);
    }
    y
}

// ---------------------------------------------------------------------------
// The coefficients computed interpolate
// ---------------------------------------------------------------------------
/// The expansion down to index `i` has `n - i + 1` coefficients.
pub proof fn lemma_horner_coefficients_len(xs: Seq<int>, ys: Seq<int>, q: int, i: int, n: int)
    requires
        i <= n,
    ensures
        horner_coefficients(xs, ys, q, i, n).len() == n - i + 1,
    decreases n - i,
{
    if i < n {
        lemma_horner_coefficients_len(xs, ys, q, i + 1, n);
    }
}

/// A polynomial whose constant coefficient grew by `d`, up to a multiple of
/// `q`, takes values that grew by `d`, up to a multiple of `q`.
pub proof fn lemma_eval_add_constant_mod(c: Seq<int>, d: int, x: int, q: int)
    requires
        q > 0,
        c.len() > 0,
    ensures
        congruent(
            poly_eval_int(c.update(0, (c[0] + d) % q), x),
            poly_eval_int(c, x) + d,
            q,
        ),
{
    let exact = c.update(0, c[0] + d);
    let reduced = c.update(0, (c[0] + d) % q);
    lemma_eval_add_constant(c, d, x);
    assert forall|k: int| 0 <= k < reduced.len() implies congruent(
        #[trigger] reduced[k],
        exact[k],
        q,
    ) by {
        if k == 0 {
            lemma_congruent_mod(c[0] + d, q);
        } else {
            lemma_congruent_refl(reduced[k], q);
        }
    }
    lemma_eval_congruent(reduced, exact, x, q);
}

/// The expansion down to index `i` is the polynomial
/// `(x - x_{i-1}) (d_i + (x - x_i) (...))`.
pub proof fn lemma_horner_coefficients_eval(
    xs: Seq<int>,
    ys: Seq<int>,
    q: int,
    i: int,
    n: int,
    z: int,
)
    requires
        q > 0,
        i <= n,
    ensures
        congruent(
            poly_eval_int(horner_coefficients(xs, ys, q, i, n), z),
            (z - xs[i - 1]) * horner_tail(xs, ys, q, i, n, z),
            q,
        ),
    decreases n - i,
{
    if i >= n {
        let c = horner_coefficients(xs, ys, q, i, n);
        assert(c.len() == 1 && c[0] == 0);
        assert(c.drop_first().len() == 0);
        assert(poly_eval_int(c.drop_first(), z) == 0);
        assert(z * 0 == 0);
        assert(poly_eval_int(c, z) == 0);
        assert((z - xs[i - 1]) * 0 == 0);
        lemma_congruent_refl(0, q);
    } else {
        let inner = horner_coefficients(xs, ys, q, i + 1, n);
        let d: int = divided_difference(xs, ys, q, 0, i);
        let bumped = inner.update(0, (inner[0] + d) % q);
        let t1: int = horner_tail(xs, ys, q, i + 1, n, z);
        let t0: int = horner_tail(xs, ys, q, i, n, z);
        lemma_horner_coefficients_len(xs, ys, q, i + 1, n);
        lemma_horner_coefficients_eval(xs, ys, q, i + 1, n, z);
        lemma_eval_add_constant_mod(inner, d, z, q);
        lemma_congruent_refl(d, q);
        lemma_congruent_add(poly_eval_int(inner, z), (z - xs[i]) * t1, d, d, q);
        lemma_congruent_trans(poly_eval_int(bumped, z), poly_eval_int(inner, z) + d, t0, q);
        let product = monomial_product(bumped, xs[i - 1], q);
        assert forall|k: int| 0 <= k < product.len() implies congruent(
            #[trigger] product[k],
            shifted(bumped, xs[i - 1], k),
            q,
        ) by {
            lemma_congruent_mod(shifted(bumped, xs[i - 1], k), q);
        }
        lemma_eval_monomial_product(bumped, product, xs[i - 1], z, q);
        lemma_congruent_refl(z - xs[i - 1], q);
        lemma_congruent_mul(z - xs[i - 1], z - xs[i - 1], poly_eval_int(bumped, z), t0, q);
        lemma_congruent_trans(
            poly_eval_int(product, z),
            (z - xs[i - 1]) * poly_eval_int(bumped, z),
            (z - xs[i - 1]) * t0,
            q,
        );
    }
}

/// Newton's interpolation is correct: where the abscissae differ pairwise by
/// units modulo `q`, the polynomial with the coefficients
/// `newton_coefficients(xs, ys, q)` takes the value `ys[i]` at `xs[i]`,
/// modulo `q`, for every point.
pub proof fn lemma_newton_coefficients_interpolate(xs: Seq<int>, ys: Seq<int>, q: int, i: int)
    requires
        q > 0,
        0 <= i < xs.len(),
        pairwise_units(xs, q),
    ensures
        newton_coefficients(xs, ys, q).len() == xs.len(),
        poly_eval(newton_coefficients(xs, ys, q), xs[i], q) == ys[i] % q,
{
    let n: int = xs.len() as int;
    let z: int = xs[i];
    let inner = horner_coefficients(xs, ys, q, 1, n);
    let d: int = divided_difference(xs, ys, q, 0, 0);
    let t1: int = horner_tail(xs, ys, q, 1, n, z);
    let t0: int = horner_tail(xs, ys, q, 0, n, z);
    let c = newton_coefficients(xs, ys, q);
    lemma_horner_coefficients_len(xs, ys, q, 1, n);
    lemma_horner_coefficients_eval(xs, ys, q, 1, n, z);
    lemma_eval_add_constant_mod(inner, d, z, q);
    lemma_congruent_refl(d, q);
    lemma_congruent_add(poly_eval_int(inner, z), (z - xs[0]) * t1, d, d, q);
    lemma_congruent_trans(poly_eval_int(c, z), poly_eval_int(inner, z) + d, t0, q);
    lemma_horner_interpolates(xs, ys, q, i);
    lemma_congruent_trans(poly_eval_int(c, z), t0, ys[i], q);
    lemma_congruent_iff(poly_eval_int(c, z), ys[i], q);
}

/// Zero coefficients evaluate to zero.
pub proof fn lemma_eval_zeros(c: Seq<int>, x: int)
    requires
        forall|j: int| 0 <= j < c.len() ==> c[j] == 0,
    ensures
        poly_eval_int(c, x) == 0,
    decreases c.len(),
{
    if c.len() > 0 {
        let rest = c.drop_first();
        assert forall|j: int| 0 <= j < rest.len() implies rest[j] == 0 by {
            assert(rest[j] == c[j + 1]);
        }
        lemma_eval_zeros(rest, x);
        assert(x * 0 == 0);
    }
}

/// Zero coefficients at the high end do not change the values.
pub proof fn lemma_eval_zero_padded(c: Seq<int>, k: int, x: int)
    requires
        0 <= k <= c.len(),
        forall|j: int| k <= j < c.len() ==> c[j] == 0,
    ensures
        poly_eval_int(c, x) == poly_eval_int(c.take(k), x),
    decreases k,
{
    if k == 0 {
        lemma_eval_zeros(c, x);
        assert(c.take(0).len() == 0);
    } else {
        let rest = c.drop_first();
        assert forall|j: int| k - 1 <= j < rest.len() implies rest[j] == 0 by {
            assert(rest[j] == c[j + 1]);
        }
        lemma_eval_zero_padded(rest, k - 1, x);
        assert(c.take(k).drop_first() =~= rest.take(k - 1));
        assert(c.take(k)[0] == c[0]);
    }
}

} // verus!
