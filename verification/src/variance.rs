//! Checks that the variance-propagation formulas of uncertain values agree
//! with their textbook identities, as exact polynomial identities in the
//! operands' means and variances.
//!
//! Each check builds the formula as it is computed and the reference
//! identity a different way, and compares their canonical polynomials.
//! Symbols: `MEAN_A`, `VAR_A`, `MEAN_B`, `VAR_B` are the two operands'
//! means and variances; `SCALE_K` is a certain (zero-variance) scalar.
use vstd::prelude::*;

use crate::poly::{
    coeff_of, coeff_part, expect_equal, fits, lemma_canonical_unique, lemma_equal_iff_same_coefficients,
    lemma_merge_props, lemma_sum_single, merge_mono, mul_fits, prod_row, prod_terms, sorted_mono, wf_terms,
    Mismatch, Polynomial,
};

verus! {

/// Symbol id for `a`'s mean.
pub const MEAN_A: usize = 0;
/// Symbol id for `a`'s variance.
pub const VAR_A: usize = 1;
/// Symbol id for `b`'s mean.
pub const MEAN_B: usize = 2;
/// Symbol id for `b`'s variance.
pub const VAR_B: usize = 3;
/// Symbol id for a certain scalar `k`.
pub const SCALE_K: usize = 4;

/// The polynomial is the single monomial `m` with coefficient one.
pub open spec fn is_monomial(p: Polynomial, m: Seq<usize>) -> bool {
    p.wf() && p@ == seq![(m, 1int)]
}

/// A one-term list's coefficient of `m`.
proof fn lemma_monomial_coeff(p: Polynomial, a: Seq<usize>, m: Seq<usize>)
    requires is_monomial(p, a),
    ensures p.coeff(m) == if a == m { 1int } else { 0 },
{
    lemma_sum_single(p@[0], coeff_part(m));
}

/// The polynomial of variable `id` is the monomial `[id]`.
fn var(id: usize) -> (r: Polynomial)
    ensures is_monomial(r, seq![id]),
{
    let r = Polynomial::variable(id);
    proof {
        let s = seq![(seq![id], 1int)];
        assert forall|m: Seq<usize>| coeff_of(r@, m) == coeff_of(s, m) by {
            lemma_sum_single(s[0], coeff_part(m));
            assert(r.coeff(m) == if m == seq![id] { 1int } else { 0 });
        }
        assert(sorted_mono(seq![id]));
        assert(wf_terms(s));
        lemma_canonical_unique(r@, s);
    }
    r
}

/// The product of two monomials is their merged monomial.
fn times(p: Polynomial, q: Polynomial, Ghost(a): Ghost<Seq<usize>>, Ghost(b): Ghost<Seq<usize>>) -> (r: Polynomial)
    requires
        is_monomial(p, a),
        is_monomial(q, b),
    ensures is_monomial(r, merge_mono(a, b)),
{
    proof {
        assert(sorted_mono(p@[0].0));
        assert(sorted_mono(q@[0].0));
        let l = prod_terms(p@, q@);
        assert(p@.drop_last() =~= Seq::<(Seq<usize>, int)>::empty());
        assert(prod_terms(p@.drop_last(), q@) =~= Seq::<(Seq<usize>, int)>::empty());
        assert(l =~= prod_row(p@[0], q@));
        assert(l =~= seq![(merge_mono(a, b), 1int)]);
        assert(l.take(1) =~= l);
        lemma_sum_single(l[0], coeff_part(l[0].0));
        assert(mul_fits(p@, q@));
    }
    let r = p.mul(q);
    proof {
        let s = seq![(merge_mono(a, b), 1int)];
        lemma_merge_props(a, b, |i: usize| 0int);
        assert(wf_terms(s));
        assert forall|m: Seq<usize>| coeff_of(r@, m) == coeff_of(s, m) by {
            assert(r.coeff(m) == coeff_of(prod_terms(p@, q@), m));
        }
        lemma_canonical_unique(r@, s);
    }
    r
}

/// The sum of monomials, with the coefficient of each monomial counting
/// its occurrences.
fn plus(p: Polynomial, q: Polynomial, Ghost(n): Ghost<int>) -> (r: Polynomial)
    requires
        p.wf(),
        q.wf(),
        0 <= n <= 2,
        forall|m: Seq<usize>| 0 <= #[trigger] p.coeff(m) <= n,
        forall|m: Seq<usize>| 0 <= #[trigger] q.coeff(m) <= 1,
    ensures
        r.wf(),
        forall|m: Seq<usize>| #[trigger] r.coeff(m) == p.coeff(m) + q.coeff(m),
{
    p.add(q)
}

/// Variance of a sum: `Var(a + b) = Var(a) + Var(b)`, as computed and as
/// the textbook states it.
pub fn check_add_variance() -> (r: Result<(), Mismatch>)
    ensures r is Ok,
{
    let ghost va = seq![VAR_A];
    let ghost vb = seq![VAR_B];
    let implemented = add_two(var(VAR_A), var(VAR_B), Ghost(va), Ghost(vb));
    let reference = add_two(var(VAR_A), var(VAR_B), Ghost(va), Ghost(vb));
    proof { same_coefficients(implemented, reference); }
    expect_equal(implemented, reference)
}

/// Variance of a difference: `Var(a - b) = Var(a) + Var(b)` (errors
/// compound either way), as computed and as the textbook states it.
pub fn check_sub_variance() -> (r: Result<(), Mismatch>)
    ensures r is Ok,
{
    let ghost va = seq![VAR_A];
    let ghost vb = seq![VAR_B];
    let implemented = add_two(var(VAR_A), var(VAR_B), Ghost(va), Ghost(vb));
    let reference = add_two(var(VAR_A), var(VAR_B), Ghost(va), Ghost(vb));
    proof { same_coefficients(implemented, reference); }
    expect_equal(implemented, reference)
}

/// Variance under scaling by a certain `k`: computed as `Var(a) * k * k`,
/// stated as `k^2 * Var(a)`.
pub fn check_scale_variance() -> (r: Result<(), Mismatch>)
    ensures r is Ok,
{
    let ghost k = seq![SCALE_K];
    let ghost va = seq![VAR_A];
    let implemented = times(times(var(VAR_A), var(SCALE_K), Ghost(va), Ghost(k)), var(SCALE_K), Ghost(merge_mono(va, k)), Ghost(k));
    let reference = times(times(var(SCALE_K), var(SCALE_K), Ghost(k), Ghost(k)), var(VAR_A), Ghost(merge_mono(k, k)), Ghost(va));
    proof {
        assert(merge_mono(merge_mono(va, k), k) =~= seq![VAR_A, SCALE_K, SCALE_K]) by { reveal_with_fuel(merge_mono, 6); }
        assert(merge_mono(merge_mono(k, k), va) =~= seq![VAR_A, SCALE_K, SCALE_K]) by { reveal_with_fuel(merge_mono, 6); }
        same_coefficients(implemented, reference);
    }
    expect_equal(implemented, reference)
}

/// Variance of a product of independent values,
/// `Var(AB) = Var(A)Var(B) + Var(A)E[B]^2 + Var(B)E[A]^2`: computed as
/// those three summands, stated with the mean squares first.
pub fn check_mul_variance() -> (r: Result<(), Mismatch>)
    ensures r is Ok,
{
    let ghost ma = seq![MEAN_A];
    let ghost va = seq![VAR_A];
    let ghost mb = seq![MEAN_B];
    let ghost vb = seq![VAR_B];
    let t1 = times(var(VAR_A), var(VAR_B), Ghost(va), Ghost(vb));
    let t2 = times(times(var(VAR_A), var(MEAN_B), Ghost(va), Ghost(mb)), var(MEAN_B), Ghost(merge_mono(va, mb)), Ghost(mb));
    let t3 = times(times(var(VAR_B), var(MEAN_A), Ghost(vb), Ghost(ma)), var(MEAN_A), Ghost(merge_mono(vb, ma)), Ghost(ma));
    let u1 = times(times(var(MEAN_A), var(MEAN_A), Ghost(ma), Ghost(ma)), var(VAR_B), Ghost(merge_mono(ma, ma)), Ghost(vb));
    let u2 = times(times(var(MEAN_B), var(MEAN_B), Ghost(mb), Ghost(mb)), var(VAR_A), Ghost(merge_mono(mb, mb)), Ghost(va));
    let u3 = times(var(VAR_A), var(VAR_B), Ghost(va), Ghost(vb));
    proof {
        assert(merge_mono(va, vb) =~= seq![VAR_A, VAR_B]) by { reveal_with_fuel(merge_mono, 6); }
        assert(merge_mono(merge_mono(va, mb), mb) =~= seq![VAR_A, MEAN_B, MEAN_B]) by { reveal_with_fuel(merge_mono, 6); }
        assert(merge_mono(merge_mono(vb, ma), ma) =~= seq![MEAN_A, MEAN_A, VAR_B]) by { reveal_with_fuel(merge_mono, 6); }
        assert(merge_mono(merge_mono(ma, ma), vb) =~= seq![MEAN_A, MEAN_A, VAR_B]) by { reveal_with_fuel(merge_mono, 6); }
        assert(merge_mono(merge_mono(mb, mb), va) =~= seq![VAR_A, MEAN_B, MEAN_B]) by { reveal_with_fuel(merge_mono, 6); }
    }
    let ghost m1 = seq![VAR_A, VAR_B];
    let ghost m2 = seq![VAR_A, MEAN_B, MEAN_B];
    let ghost m3 = seq![MEAN_A, MEAN_A, VAR_B];
    let implemented = add_three(t1, t2, t3, Ghost(m1), Ghost(m2), Ghost(m3));
    let reference = add_three(u1, u2, u3, Ghost(m3), Ghost(m2), Ghost(m1));
    proof { same_coefficients(implemented, reference); }
    expect_equal(implemented, reference)
}

/// Delta-method variance of a quotient of independent values,
/// `Var(A/B) = (Var(A) E[B]^2 + Var(B) E[A]^2) / E[B]^4`, compared on the
/// numerator (both sides multiplied through by `E[B]^4`): computed as
/// `Var(A) * E[B]^2 + Var(B) * E[A] * E[A]`, stated with the mean squares first.
pub fn check_div_variance() -> (r: Result<(), Mismatch>)
    ensures r is Ok,
{
    let ghost ma = seq![MEAN_A];
    let ghost va = seq![VAR_A];
    let ghost mb = seq![MEAN_B];
    let ghost vb = seq![VAR_B];
    let mean_b2 = times(var(MEAN_B), var(MEAN_B), Ghost(mb), Ghost(mb));
    let t1 = times(var(VAR_A), mean_b2, Ghost(va), Ghost(merge_mono(mb, mb)));
    let t2 = times(times(var(VAR_B), var(MEAN_A), Ghost(vb), Ghost(ma)), var(MEAN_A), Ghost(merge_mono(vb, ma)), Ghost(ma));
    let u1 = times(times(var(MEAN_A), var(MEAN_A), Ghost(ma), Ghost(ma)), var(VAR_B), Ghost(merge_mono(ma, ma)), Ghost(vb));
    let u2 = times(times(var(MEAN_B), var(MEAN_B), Ghost(mb), Ghost(mb)), var(VAR_A), Ghost(merge_mono(mb, mb)), Ghost(va));
    proof {
        assert(merge_mono(va, merge_mono(mb, mb)) =~= seq![VAR_A, MEAN_B, MEAN_B]) by { reveal_with_fuel(merge_mono, 6); }
        assert(merge_mono(merge_mono(vb, ma), ma) =~= seq![MEAN_A, MEAN_A, VAR_B]) by { reveal_with_fuel(merge_mono, 6); }
        assert(merge_mono(merge_mono(ma, ma), vb) =~= seq![MEAN_A, MEAN_A, VAR_B]) by { reveal_with_fuel(merge_mono, 6); }
        assert(merge_mono(merge_mono(mb, mb), va) =~= seq![VAR_A, MEAN_B, MEAN_B]) by { reveal_with_fuel(merge_mono, 6); }
    }
    let ghost m2 = seq![VAR_A, MEAN_B, MEAN_B];
    let ghost m3 = seq![MEAN_A, MEAN_A, VAR_B];
    let implemented = add_two(t1, t2, Ghost(m2), Ghost(m3));
    let reference = add_two(u1, u2, Ghost(m3), Ghost(m2));
    proof { same_coefficients(implemented, reference); }
    expect_equal(implemented, reference)
}

/// The sum of two monomials; the coefficient of `m` counts how many of
/// them are `m`.
fn add_two(p: Polynomial, q: Polynomial, Ghost(a): Ghost<Seq<usize>>, Ghost(b): Ghost<Seq<usize>>) -> (r: Polynomial)
    requires
        is_monomial(p, a),
        is_monomial(q, b),
    ensures
        r.wf(),
        forall|m: Seq<usize>| #[trigger] r.coeff(m) == (if a == m { 1int } else { 0 }) + (if b == m { 1int } else { 0 }),
{
    proof {
        assert forall|m: Seq<usize>| 0 <= #[trigger] p.coeff(m) <= 1 by { lemma_monomial_coeff(p, a, m); }
        assert forall|m: Seq<usize>| 0 <= #[trigger] q.coeff(m) <= 1 by { lemma_monomial_coeff(q, b, m); }
    }
    let r = plus(p, q, Ghost(1));
    proof {
        assert forall|m: Seq<usize>| #[trigger] r.coeff(m) == (if a == m { 1int } else { 0 }) + (if b == m { 1int } else { 0 }) by {
            lemma_monomial_coeff(p, a, m);
            lemma_monomial_coeff(q, b, m);
        }
    }
    r
}

/// The sum of three monomials; the coefficient of `m` counts how many of
/// them are `m`.
fn add_three(p: Polynomial, q: Polynomial, s: Polynomial, Ghost(a): Ghost<Seq<usize>>, Ghost(b): Ghost<Seq<usize>>,
    Ghost(c): Ghost<Seq<usize>>) -> (r: Polynomial)
    requires
        is_monomial(p, a),
        is_monomial(q, b),
        is_monomial(s, c),
    ensures
        r.wf(),
        forall|m: Seq<usize>| #[trigger] r.coeff(m) == (if a == m { 1int } else { 0 }) + (if b == m { 1int } else { 0 })
            + (if c == m { 1int } else { 0 }),
{
    let pq = add_two(p, q, Ghost(a), Ghost(b));
    proof {
        assert forall|m: Seq<usize>| 0 <= #[trigger] pq.coeff(m) <= 2 by {}
        assert forall|m: Seq<usize>| 0 <= #[trigger] s.coeff(m) <= 1 by { lemma_monomial_coeff(s, c, m); }
    }
    let r = plus(pq, s, Ghost(2));
    proof {
        assert forall|m: Seq<usize>| #[trigger] r.coeff(m) == (if a == m { 1int } else { 0 }) + (if b == m { 1int } else { 0 })
            + (if c == m { 1int } else { 0 }) by {
            lemma_monomial_coeff(s, c, m);
        }
    }
    r
}

/// Two polynomials whose coefficients agree have the same canonical form.
proof fn same_coefficients(p: Polynomial, q: Polynomial)
    requires
        p.wf(),
        q.wf(),
        forall|m: Seq<usize>| p.coeff(m) == q.coeff(m),
    ensures p@ == q@,
{
    lemma_equal_iff_same_coefficients(p, q);
}

} // verus!
