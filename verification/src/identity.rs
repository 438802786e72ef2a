//! Distinct canonical polynomials are distinct functions: a term list with
//! a non-zero coefficient has a non-zero value at some integer assignment.
//! So comparing normal forms decides equivalence exactly.
use vstd::prelude::*;

use crate::poly::{
    coeff_of, coeff_part, eval_part, eval_terms, lemma_equal_iff_same_coefficients, lemma_neg_sums, lemma_sum_concat,
    lemma_sum_push, lemma_weighted_sum_coeffs, mono_val, neg_terms, sorted_mono, terms_sorted_monos, weighted,
    Polynomial,
};

verus! {

/// `b` to the power `e`.
pub open spec fn power(b: int, e: nat) -> int
    decreases e,
{
    if e == 0 {
        1
    } else {
        b * power(b, (e - 1) as nat)
    }
}

/// `k` copies of variable `v`.
pub open spec fn repeat(v: usize, k: nat) -> Seq<usize> {
    Seq::new(k, |i: int| v)
}

/// The number of trailing copies of `v` in a monomial.
pub open spec fn top_count(m: Seq<usize>, v: usize) -> nat
    decreases m.len(),
{
    if m.len() > 0 && m.last() == v {
        1 + top_count(m.drop_last(), v)
    } else {
        0
    }
}

/// A monomial without its trailing copies of `v`.
pub open spec fn low_part(m: Seq<usize>, v: usize) -> Seq<usize>
    decreases m.len(),
{
    if m.len() > 0 && m.last() == v {
        low_part(m.drop_last(), v)
    } else {
        m
    }
}

/// A monomial is its low part followed by its trailing copies of `v`; the
/// low part does not end in `v`.
proof fn lemma_split(m: Seq<usize>, v: usize)
    ensures
        m == low_part(m, v) + repeat(v, top_count(m, v)),
        low_part(m, v).len() == 0 || low_part(m, v).last() != v,
        low_part(m, v).len() <= m.len(),
        forall|i: int| 0 <= i < low_part(m, v).len() ==> low_part(m, v)[i] == m[i],
    decreases m.len(),
{
    if m.len() > 0 && m.last() == v {
        let d = m.drop_last();
        lemma_split(d, v);
        let k = top_count(d, v);
        assert(repeat(v, k + 1) =~= repeat(v, k).push(v));
        assert(m =~= d.push(v));
        assert(low_part(d, v) + repeat(v, k).push(v) =~= (low_part(d, v) + repeat(v, k)).push(v));
    } else {
        assert(m + repeat(v, 0) =~= m);
    }
}

/// A monomial written as a part not ending in `v` followed by `k` copies of
/// `v` has that part as low part and `k` as count.
proof fn lemma_split_unique(l: Seq<usize>, v: usize, k: nat)
    requires l.len() == 0 || l.last() != v,
    ensures
        low_part(l + repeat(v, k), v) == l,
        top_count(l + repeat(v, k), v) == k,
    decreases k,
{
    let m = l + repeat(v, k);
    if k == 0 {
        assert(m =~= l);
    } else {
        assert(m.last() == v);
        assert(m.drop_last() =~= l + repeat(v, (k - 1) as nat));
        lemma_split_unique(l, v, (k - 1) as nat);
    }
}

/// The value of a concatenation of monomials is the product of their values.
proof fn lemma_mono_val_concat(a: Seq<usize>, b: Seq<usize>, x: spec_fn(usize) -> int)
    ensures mono_val(a + b, x) == mono_val(a, x) * mono_val(b, x),
    decreases a.len(),
{
    if a.len() == 0 {
        assert(a + b =~= b);
    } else {
        let a1 = a.drop_first();
        lemma_mono_val_concat(a1, b, x);
        assert((a + b).drop_first() =~= a1 + b);
        assert((a + b)[0] == a[0]);
        let x0 = x(a[0]);
        let ma = mono_val(a1, x);
        let mb = mono_val(b, x);
        assert(x0 * (ma * mb) == (x0 * ma) * mb) by (nonlinear_arith);
    }
}

/// `k` copies of `v` are worth `x(v)` to the power `k`.
proof fn lemma_mono_val_repeat(v: usize, k: nat, x: spec_fn(usize) -> int)
    ensures mono_val(repeat(v, k), x) == power(x(v), k),
    decreases k,
{
    if k > 0 {
        lemma_mono_val_repeat(v, (k - 1) as nat, x);
        assert(repeat(v, k).drop_first() =~= repeat(v, (k - 1) as nat));
    }
}

/// A monomial's value depends only on the values of its own ids.
proof fn lemma_mono_val_agree(m: Seq<usize>, x: spec_fn(usize) -> int, y: spec_fn(usize) -> int)
    requires forall|i: int| 0 <= i < m.len() ==> x(m[i]) == y(m[i]),
    ensures mono_val(m, x) == mono_val(m, y),
    decreases m.len(),
{
    if m.len() > 0 {
        assert forall|i: int| 0 <= i < m.drop_first().len() implies x(m.drop_first()[i]) == y(m.drop_first()[i]) by {
            assert(m.drop_first()[i] == m[i + 1]);
        }
        lemma_mono_val_agree(m.drop_first(), x, y);
    }
}


/// The terms of `s` with exactly `j` trailing copies of `v`, each with those
/// copies removed: the coefficient of `v^j` when `s` is read as a
/// polynomial in `v`.
pub open spec fn part(s: Seq<(Seq<usize>, int)>, v: usize, j: nat) -> Seq<(Seq<usize>, int)>
    decreases s.len(),
{
    if s.len() == 0 {
        s
    } else if top_count(s.last().0, v) == j {
        part(s.drop_last(), v, j).push((low_part(s.last().0, v), s.last().1))
    } else {
        part(s.drop_last(), v, j)
    }
}

/// `sum_{j <= n} a(j) * b^j`.
pub open spec fn dsum(a: spec_fn(nat) -> int, b: int, n: nat) -> int
    decreases n,
{
    if n == 0 {
        a(0) * power(b, 0)
    } else {
        dsum(a, b, (n - 1) as nat) + a(n) * power(b, n)
    }
}

/// The values of the parts of `s` in `v` at `x`.
pub open spec fn part_values(s: Seq<(Seq<usize>, int)>, v: usize, x: spec_fn(usize) -> int) -> spec_fn(nat) -> int {
    |j: nat| eval_terms(part(s, v, j), x)
}

/// Every monomial of `s` has at most `n` trailing copies of `v`.
pub open spec fn tops_within(s: Seq<(Seq<usize>, int)>, v: usize, n: nat) -> bool {
    forall|i: int| 0 <= i < s.len() ==> top_count(#[trigger] s[i].0, v) <= n
}

/// Appending a term to `s` adds its share to the part of its count.
proof fn lemma_part_push_values(s: Seq<(Seq<usize>, int)>, t: (Seq<usize>, int), v: usize, x: spec_fn(usize) -> int, n: nat)
    requires top_count(t.0, v) <= n,
    ensures
        dsum(part_values(s.push(t), v, x), x(v), n) == dsum(part_values(s, v, x), x(v), n)
            + t.1 * mono_val(low_part(t.0, v), x) * power(x(v), top_count(t.0, v)),
    decreases n,
{
    let k = top_count(t.0, v);
    let c = t.1 * mono_val(low_part(t.0, v), x);
    let st = s.push(t);
    assert(st.drop_last() =~= s);
    assert forall|j: nat| #[trigger] part_values(st, v, x)(j) == part_values(s, v, x)(j) + (if j == k { c } else { 0 }) by {
        if j == k {
            lemma_sum_push(part(s, v, j), (low_part(t.0, v), t.1), eval_part(x));
        }
    }
    let a1 = part_values(st, v, x);
    let a0 = part_values(s, v, x);
    let pn = power(x(v), n);
    if n == 0 {
        assert(a1(0) * pn == a0(0) * pn + (if 0 == k { c } else { 0 }) * pn) by (nonlinear_arith)
            requires a1(0) == a0(0) + (if 0 == k { c } else { 0 });
    } else {
        if k <= (n - 1) as nat {
            lemma_part_push_values(s, t, v, x, (n - 1) as nat);
        }
        let d1 = dsum(a1, x(v), (n - 1) as nat);
        let d0 = dsum(a0, x(v), (n - 1) as nat);
        assert(a1(n) * pn == a0(n) * pn + (if n == k { c } else { 0 }) * pn) by (nonlinear_arith)
            requires a1(n) == a0(n) + (if n == k { c } else { 0 });
        if k == n {
            assert forall|j: nat| j <= (n - 1) as nat implies #[trigger] a1(j) == a0(j) by {}
            lemma_dsum_same(a1, a0, x(v), (n - 1) as nat);
        }
    }
}

/// Sums of agreeing coefficient functions agree.
proof fn lemma_dsum_same(a: spec_fn(nat) -> int, c: spec_fn(nat) -> int, b: int, n: nat)
    requires forall|j: nat| j <= n ==> #[trigger] a(j) == c(j),
    ensures dsum(a, b, n) == dsum(c, b, n),
    decreases n,
{
    if n > 0 {
        lemma_dsum_same(a, c, b, (n - 1) as nat);
    }
}

/// Reading a term list as a polynomial in `v`: its value is the sum of its
/// parts' values times the powers of `x(v)`.
proof fn lemma_regroup(s: Seq<(Seq<usize>, int)>, v: usize, x: spec_fn(usize) -> int, n: nat)
    requires tops_within(s, v, n),
    ensures eval_terms(s, x) == dsum(part_values(s, v, x), x(v), n),
    decreases s.len(),
{
    if s.len() == 0 {
        assert forall|j: nat| j <= n implies #[trigger] part_values(s, v, x)(j) == (|j: nat| 0int)(j) by {}
        lemma_dsum_same(part_values(s, v, x), |j: nat| 0int, x(v), n);
        lemma_dsum_zero(x(v), n);
    } else {
        let d = s.drop_last();
        let t = s.last();
        assert(tops_within(d, v, n)) by {
            assert forall|i: int| 0 <= i < d.len() implies top_count(#[trigger] d[i].0, v) <= n by {
                assert(d[i] == s[i]);
            }
        }
        assert(top_count(t.0, v) <= n) by {
            assert(t == s[s.len() - 1]);
        }
        lemma_regroup(d, v, x, n);
        assert(s =~= d.push(t));
        lemma_part_push_values(d, t, v, x, n);
        lemma_split(t.0, v);
        lemma_mono_val_concat(low_part(t.0, v), repeat(v, top_count(t.0, v)), x);
        lemma_mono_val_repeat(v, top_count(t.0, v), x);
        let ml = mono_val(low_part(t.0, v), x);
        let pk = power(x(v), top_count(t.0, v));
        assert(t.1 * (ml * pk) == t.1 * ml * pk) by (nonlinear_arith);
    }
}

/// The sum with all coefficients zero is zero.
proof fn lemma_dsum_zero(b: int, n: nat)
    ensures dsum(|j: nat| 0int, b, n) == 0,
    decreases n,
{
    if n > 0 {
        lemma_dsum_zero(b, (n - 1) as nat);
    }
    assert(0 * power(b, n) == 0) by (nonlinear_arith);
}

/// The coefficient of `l` in the part `j` of `s` is the coefficient of
/// `l` followed by `j` copies of `v` in `s`.
proof fn lemma_part_coeff(s: Seq<(Seq<usize>, int)>, v: usize, j: nat, l: Seq<usize>)
    requires l.len() == 0 || l.last() != v,
    ensures coeff_of(part(s, v, j), l) == coeff_of(s, l + repeat(v, j)),
    decreases s.len(),
{
    if s.len() > 0 {
        let d = s.drop_last();
        let t = s.last();
        lemma_part_coeff(d, v, j, l);
        lemma_split(t.0, v);
        lemma_split_unique(l, v, j);
        if top_count(t.0, v) == j {
            lemma_sum_push(part(d, v, j), (low_part(t.0, v), t.1), coeff_part(l));
        }
    }
}


/// `sum_{j <= n} |a(j)|`.
pub open spec fn abs_sum(a: spec_fn(nat) -> int, n: nat) -> int
    decreases n,
{
    let v = if a(n) < 0 { -a(n) } else { a(n) };
    if n == 0 {
        v
    } else {
        abs_sum(a, (n - 1) as nat) + v
    }
}

/// For `b >= 1`: `|sum_{j <= n} a(j) b^j| <= (sum_{j <= n} |a(j)|) * b^n`.
proof fn lemma_dsum_bound(a: spec_fn(nat) -> int, b: int, n: nat)
    requires b >= 1,
    ensures
        power(b, n) >= 1,
        -(abs_sum(a, n) * power(b, n)) <= dsum(a, b, n) <= abs_sum(a, n) * power(b, n),
        abs_sum(a, n) >= 0,
    decreases n,
{
    let an = a(n);
    let pn = power(b, n);
    if n == 0 {
        assert(-((if an < 0 { -an } else { an }) * 1) <= an * 1 <= (if an < 0 { -an } else { an }) * 1) by (nonlinear_arith);
    } else {
        lemma_dsum_bound(a, b, (n - 1) as nat);
        let t = abs_sum(a, (n - 1) as nat);
        let p = power(b, (n - 1) as nat);
        let d = dsum(a, b, (n - 1) as nat);
        let va = if an < 0 { -an } else { an };
        assert(pn == b * p);
        assert(pn >= 1 && -((t + va) * pn) <= d + an * pn <= (t + va) * pn) by (nonlinear_arith)
            requires
                b >= 1,
                p >= 1,
                pn == b * p,
                t >= 0,
                -(t * p) <= d <= t * p,
                va == (if an < 0 { -an } else { an }),
        {
            assert(p <= pn);
            assert(t * p <= t * pn);
            assert(-(va * pn) <= an * pn <= va * pn);
        }
    }
}

/// A sum whose top coefficient is non-zero, at a base exceeding the sum of
/// the magnitudes of the lower ones, is non-zero.
proof fn lemma_dsum_top_nonzero(a: spec_fn(nat) -> int, b: int, n: nat)
    requires
        a(n) != 0,
        b >= 1,
        n > 0 ==> b > abs_sum(a, (n - 1) as nat),
    ensures dsum(a, b, n) != 0,
{
    if n == 0 {
        assert(a(0) * 1 != 0) by (nonlinear_arith)
            requires a(0) != 0;
    } else {
        lemma_dsum_bound(a, b, (n - 1) as nat);
        let t = abs_sum(a, (n - 1) as nat);
        let p = power(b, (n - 1) as nat);
        let d = dsum(a, b, (n - 1) as nat);
        let an = a(n);
        assert(power(b, n) == b * p);
        assert(d + an * (b * p) != 0) by (nonlinear_arith)
            requires
                an != 0,
                p >= 1,
                b > t,
                t >= 0,
                -(t * p) <= d <= t * p,
        {
            assert(t * p < b * p);
            if an > 0 {
                assert(an * (b * p) >= b * p);
            } else {
                assert(an * (b * p) <= -(b * p));
            }
        }
    }
}

/// Coefficients past `m` that are zero do not change the sum.
proof fn lemma_dsum_tail_zero(a: spec_fn(nat) -> int, b: int, m: nat, n: nat)
    requires
        m <= n,
        forall|j: nat| m < j <= n ==> #[trigger] a(j) == 0,
    ensures dsum(a, b, n) == dsum(a, b, m),
    decreases n,
{
    if m < n {
        lemma_dsum_tail_zero(a, b, m, (n - 1) as nat);
        assert(a(n) * power(b, n) == 0) by (nonlinear_arith)
            requires a(n) == 0;
    }
}

/// A term list's value depends only on its coefficient function.
proof fn lemma_eval_coeffs(s: Seq<(Seq<usize>, int)>, s2: Seq<(Seq<usize>, int)>, x: spec_fn(usize) -> int)
    requires forall|m: Seq<usize>| coeff_of(s, m) == coeff_of(s2, m),
    ensures eval_terms(s, x) == eval_terms(s2, x),
{
    let g = |m: Seq<usize>| mono_val(m, x);
    assert(eval_part(x) =~= weighted(g));
    lemma_weighted_sum_coeffs(s, s2, g);
}

/// Every variable id of every monomial of `s` is below `n`.
pub open spec fn ids_below(s: Seq<(Seq<usize>, int)>, n: int) -> bool {
    forall|i: int, k: int| 0 <= i < s.len() && 0 <= k < s[i].0.len() ==> s[i].0[k] < n
}

/// The parts of a list in its top variable have sorted monomials over the
/// variables below it.
proof fn lemma_part_shape(s: Seq<(Seq<usize>, int)>, v: usize, j: nat)
    requires
        terms_sorted_monos(s),
        ids_below(s, v + 1),
    ensures
        terms_sorted_monos(part(s, v, j)),
        ids_below(part(s, v, j), v as int),
    decreases s.len(),
{
    if s.len() > 0 {
        let d = s.drop_last();
        let t = s.last();
        assert(terms_sorted_monos(d)) by {
            assert forall|i: int| 0 <= i < d.len() implies sorted_mono(#[trigger] d[i].0) by {
                assert(d[i] == s[i]);
            }
        }
        assert(ids_below(d, v + 1)) by {
            assert forall|i: int, k: int| 0 <= i < d.len() && 0 <= k < d[i].0.len() implies d[i].0[k] < v + 1 by {
                assert(d[i] == s[i]);
            }
        }
        lemma_part_shape(d, v, j);
        if top_count(t.0, v) == j {
            let l = low_part(t.0, v);
            lemma_split(t.0, v);
            assert(sorted_mono(t.0)) by {
                assert(t == s[s.len() - 1]);
            }
            assert(forall|k: int| 0 <= k < t.0.len() ==> t.0[k] < v + 1) by {
                assert(t == s[s.len() - 1]);
            }
            assert forall|a: int, b: int| 0 <= a <= b < l.len() implies l[a] <= l[b] by {
                assert(l[a] == t.0[a] && l[b] == t.0[b]);
            }
            assert(sorted_mono(l));
            assert forall|k: int| 0 <= k < l.len() implies l[k] < v by {
                assert(l[k] <= l[l.len() - 1]);
                assert(l[l.len() - 1] == t.0[l.len() - 1]);
            }
            let p = part(s, v, j);
            assert(p == part(d, v, j).push((l, t.1)));
            assert forall|i: int| 0 <= i < p.len() implies sorted_mono(#[trigger] p[i].0) by {
                if i < p.len() - 1 {
                    assert(p[i] == part(d, v, j)[i]);
                }
            }
            assert forall|i: int, k: int| 0 <= i < p.len() && 0 <= k < p[i].0.len() implies p[i].0[k] < v by {
                if i < p.len() - 1 {
                    assert(p[i] == part(d, v, j)[i]);
                }
            }
        }
    }
}

/// A list's value does not depend on variables its monomials do not use.
proof fn lemma_eval_agree(s: Seq<(Seq<usize>, int)>, n: int, x: spec_fn(usize) -> int, y: spec_fn(usize) -> int)
    requires
        ids_below(s, n),
        forall|i: usize| i < n ==> #[trigger] x(i) == y(i),
    ensures eval_terms(s, x) == eval_terms(s, y),
    decreases s.len(),
{
    if s.len() > 0 {
        let d = s.drop_last();
        assert(ids_below(d, n)) by {
            assert forall|i: int, k: int| 0 <= i < d.len() && 0 <= k < d[i].0.len() implies d[i].0[k] < n by {
                assert(d[i] == s[i]);
            }
        }
        lemma_eval_agree(d, n, x, y);
        let t = s.last();
        assert(t == s[s.len() - 1]);
        lemma_mono_val_agree(t.0, x, y);
    }
}

/// A coefficient that no term's monomial carries is zero.
proof fn lemma_coeff_found(s: Seq<(Seq<usize>, int)>, m: Seq<usize>)
    requires coeff_of(s, m) != 0,
    ensures exists|i: int| 0 <= i < s.len() && s[i].0 == m,
    decreases s.len(),
{
    if s.len() > 0 {
        let d = s.drop_last();
        if s.last().0 != m {
            lemma_coeff_found(d, m);
            let i = choose|i: int| 0 <= i < d.len() && d[i].0 == m;
            assert(s[i] == d[i]);
        } else {
            assert(s[s.len() - 1].0 == m);
        }
    }
}

/// The length of the longest monomial.
pub open spec fn max_len(s: Seq<(Seq<usize>, int)>) -> nat
    decreases s.len(),
{
    if s.len() == 0 {
        0
    } else {
        let d = max_len(s.drop_last());
        if s.last().0.len() > d { s.last().0.len() } else { d }
    }
}

/// No monomial has more trailing copies of `v` than the longest has ids.
proof fn lemma_tops_within(s: Seq<(Seq<usize>, int)>, v: usize)
    ensures tops_within(s, v, max_len(s)),
    decreases s.len(),
{
    if s.len() > 0 {
        let d = s.drop_last();
        lemma_tops_within(d, v);
        assert forall|i: int| 0 <= i < s.len() implies top_count(#[trigger] s[i].0, v) <= max_len(s) by {
            lemma_split(s[i].0, v);
            if i < s.len() - 1 {
                assert(s[i] == d[i]);
            }
        }
    }
}

/// The highest part of a list, from part `j0` on, with a non-zero
/// coefficient: all parts above it up to `top` have only zero coefficients.
proof fn lemma_find_top(s: Seq<(Seq<usize>, int)>, v: usize, top: nat, j0: nat, l0: Seq<usize>) -> (r: (nat, Seq<usize>))
    requires
        j0 <= top,
        coeff_of(part(s, v, j0), l0) != 0,
    ensures
        j0 <= r.0 <= top,
        coeff_of(part(s, v, r.0), r.1) != 0,
        forall|j: nat, l: Seq<usize>| r.0 < j <= top ==> #[trigger] coeff_of(part(s, v, j), l) == 0,
    decreases top - j0,
{
    if exists|j: nat, l: Seq<usize>| j0 < j <= top && #[trigger] coeff_of(part(s, v, j), l) != 0 {
        let (j, l) = choose|j: nat, l: Seq<usize>| j0 < j <= top && #[trigger] coeff_of(part(s, v, j), l) != 0;
        lemma_find_top(s, v, top, j, l)
    } else {
        (j0, l0)
    }
}

/// A term list over variables below `n` with a non-zero coefficient has a
/// non-zero value somewhere.
pub proof fn lemma_nonzero_somewhere(s: Seq<(Seq<usize>, int)>, n: nat, m0: Seq<usize>)
    requires
        n <= usize::MAX + 1,
        terms_sorted_monos(s),
        ids_below(s, n as int),
        coeff_of(s, m0) != 0,
    ensures exists|x: spec_fn(usize) -> int| eval_terms(s, x) != 0,
    decreases n,
{
    lemma_coeff_found(s, m0);
    let i0 = choose|i: int| 0 <= i < s.len() && s[i].0 == m0;
    if n == 0 {
        let x = |i: usize| 0int;
        assert forall|m: Seq<usize>| coeff_of(s, m) == coeff_of(seq![(Seq::<usize>::empty(), coeff_of(s, Seq::<usize>::empty()))], m) by {
            lemma_all_constant(s, m);
            crate::poly::lemma_sum_single((Seq::<usize>::empty(), coeff_of(s, Seq::<usize>::empty())), coeff_part(m));
            if m.len() == 0 {
                assert(m =~= Seq::<usize>::empty());
            }
        }
        lemma_eval_coeffs(s, seq![(Seq::<usize>::empty(), coeff_of(s, Seq::<usize>::empty()))], x);
        let c = coeff_of(s, Seq::<usize>::empty());
        crate::poly::lemma_sum_single((Seq::<usize>::empty(), c), eval_part(x));
        assert(m0.len() == 0) by {
            if m0.len() > 0 {
                assert(s[i0].0[0] < 0);
            }
        }
        assert(m0 =~= Seq::<usize>::empty());
        assert(c * 1 == c) by (nonlinear_arith);
        assert(eval_terms(s, x) != 0);
    } else {
        let v = (n - 1) as usize;
        let top = max_len(s);
        lemma_tops_within(s, v);
        lemma_split(m0, v);
        let l0 = low_part(m0, v);
        let j0 = top_count(m0, v);
        lemma_part_coeff(s, v, j0, l0);
        assert(j0 <= top) by {
            assert(top_count(s[i0].0, v) <= top);
        }
        let (js, ls) = lemma_find_top(s, v, top, j0, l0);
        lemma_part_shape(s, v, js);
        lemma_nonzero_somewhere(part(s, v, js), (n - 1) as nat, ls);
        let x1 = choose|x: spec_fn(usize) -> int| eval_terms(part(s, v, js), x) != 0;
        let a = part_values(s, v, x1);
        let b = abs_sum(a, js) + 1;
        let x = |i: usize| if i == v { b } else { x1(i) };
        lemma_dsum_bound(a, 1, js);
        assert forall|j: nat| j <= top implies #[trigger] part_values(s, v, x)(j) == a(j) by {
            lemma_part_shape(s, v, j);
            lemma_eval_agree(part(s, v, j), v as int, x, x1);
        }
        assert forall|j: nat| js < j <= top implies #[trigger] a(j) == 0 by {
            assert forall|l: Seq<usize>| coeff_of(part(s, v, j), l) == coeff_of(Seq::<(Seq<usize>, int)>::empty(), l) by {
                assert(coeff_of(part(s, v, j), l) == 0);
            }
            lemma_eval_coeffs(part(s, v, j), Seq::empty(), x1);
        }
        lemma_regroup(s, v, x, top);
        lemma_dsum_same(part_values(s, v, x), a, b, top);
        lemma_dsum_tail_zero(a, b, js, top);
        if js > 0 {
            lemma_abs_sum_grows(a, (js - 1) as nat);
        }
        lemma_dsum_top_nonzero(a, b, js);
        assert(eval_terms(s, x) != 0);
    }
}

/// Partial sums of magnitudes grow.
proof fn lemma_abs_sum_grows(a: spec_fn(nat) -> int, n: nat)
    ensures abs_sum(a, n) <= abs_sum(a, n + 1),
{
}

/// Over no variables, every coefficient but the constant one is zero.
proof fn lemma_all_constant(s: Seq<(Seq<usize>, int)>, m: Seq<usize>)
    requires ids_below(s, 0),
    ensures m.len() > 0 ==> coeff_of(s, m) == 0,
    decreases s.len(),
{
    if s.len() > 0 {
        let d = s.drop_last();
        assert(ids_below(d, 0)) by {
            assert forall|i: int, k: int| 0 <= i < d.len() && 0 <= k < d[i].0.len() implies d[i].0[k] < 0 by {
                assert(d[i] == s[i]);
            }
        }
        lemma_all_constant(d, m);
        if m.len() > 0 {
            assert(s.last().0.len() == 0) by {
                if s.last().0.len() > 0 {
                    assert(s[s.len() - 1].0[0] < 0);
                }
            }
        }
    }
}

/// Distinct canonical polynomials are distinct functions: when two
/// well-formed polynomials have different canonical forms, some integer
/// assignment gives them different values. Together with equal forms
/// evaluating equally, comparing canonical forms decides whether two
/// polynomial expressions are equivalent.
pub proof fn law_different_forms_evaluate_differently(p: Polynomial, q: Polynomial)
    requires
        p.wf(),
        q.wf(),
        p@ != q@,
    ensures exists|x: spec_fn(usize) -> int| p.eval(x) != q.eval(x),
{
    lemma_equal_iff_same_coefficients(p, q);
    let m0 = choose|m: Seq<usize>| p.coeff(m) != q.coeff(m);
    let s = p@ + neg_terms(q@);
    lemma_neg_sums(q@);
    lemma_sum_concat(p@, neg_terms(q@), coeff_part(m0));
    assert(coeff_of(neg_terms(q@), m0) == -coeff_of(q@, m0));
    assert(coeff_of(s, m0) == coeff_of(p@, m0) + coeff_of(neg_terms(q@), m0));
    assert(terms_sorted_monos(s)) by {
        assert forall|i: int| 0 <= i < s.len() implies sorted_mono(#[trigger] s[i].0) by {
            if i < p@.len() {
                assert(s[i] == p@[i]);
            } else {
                assert(s[i].0 == q@[i - p@.len()].0);
            }
        }
    }
    lemma_nonzero_somewhere(s, (usize::MAX + 1) as nat, m0);
    let x = choose|x: spec_fn(usize) -> int| eval_terms(s, x) != 0;
    lemma_sum_concat(p@, neg_terms(q@), eval_part(x));
    assert(eval_terms(neg_terms(q@), x) == -eval_terms(q@, x));
    assert(eval_terms(s, x) == eval_terms(p@, x) + eval_terms(neg_terms(q@), x));
    assert(p.eval(x) != q.eval(x));
}
} // verus!
