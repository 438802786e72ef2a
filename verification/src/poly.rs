//! Canonical multivariate polynomials over `i64` coefficients.
use vstd::prelude::*;

use crate::text::{decimal, int_text, push_decimal, push_int};

verus! {

broadcast use vstd::multiset::group_multiset_axioms;

/// Lexicographic order on monomials (sorted sequences of variable ids),
/// compared from position `i` onwards; a proper prefix sorts first.
pub open spec fn lex_lt_from(a: Seq<usize>, b: Seq<usize>, i: int) -> bool
    decreases a.len() - i,
{
    if i < 0 || i >= a.len() {
        0 <= i < b.len()
    } else if i >= b.len() {
        false
    } else if a[i] < b[i] {
        true
    } else if a[i] > b[i] {
        false
    } else {
        lex_lt_from(a, b, i + 1)
    }
}

/// `a` sorts strictly before `b` (the order of `Vec<usize>`).
pub open spec fn mono_lt(a: Seq<usize>, b: Seq<usize>) -> bool {
    lex_lt_from(a, b, 0)
}

pub proof fn lemma_lex_irreflexive(a: Seq<usize>, i: int)
    requires 0 <= i,
    ensures !lex_lt_from(a, a, i),
    decreases a.len() - i,
{
    if i < a.len() {
        lemma_lex_irreflexive(a, i + 1);
    }
}

pub proof fn lemma_lex_asymmetric(a: Seq<usize>, b: Seq<usize>, i: int)
    requires 0 <= i, lex_lt_from(a, b, i),
    ensures !lex_lt_from(b, a, i),
    decreases a.len() - i,
{
    if i < a.len() && i < b.len() && a[i] == b[i] {
        lemma_lex_asymmetric(a, b, i + 1);
    }
}

pub proof fn lemma_lex_transitive(a: Seq<usize>, b: Seq<usize>, c: Seq<usize>, i: int)
    requires 0 <= i, lex_lt_from(a, b, i), lex_lt_from(b, c, i),
    ensures lex_lt_from(a, c, i),
    decreases a.len() - i,
{
    if i < a.len() && i < b.len() && i < c.len() && a[i] == b[i] && b[i] == c[i] {
        lemma_lex_transitive(a, b, c, i + 1);
    }
}

/// Two sequences that agree before `i` and are unordered from `i` on are equal.
pub proof fn lemma_lex_total(a: Seq<usize>, b: Seq<usize>, i: int)
    requires
        0 <= i <= a.len(),
        i <= b.len(),
        a.subrange(0, i) == b.subrange(0, i),
        !lex_lt_from(a, b, i),
        !lex_lt_from(b, a, i),
    ensures a == b,
    decreases a.len() - i,
{
    if i < a.len() && i < b.len() {
        assert(a.subrange(0, i + 1) =~= a.subrange(0, i).push(a[i]));
        assert(b.subrange(0, i + 1) =~= b.subrange(0, i).push(b[i]));
        lemma_lex_total(a, b, i + 1);
    } else {
        assert(a =~= a.subrange(0, i));
        assert(b =~= b.subrange(0, i));
    }
}

/// Compares two monomials: `-1`, `0` or `1` as `a` sorts before, equal to, or after `b`.
fn compare_monomials(a: &Vec<usize>, b: &Vec<usize>) -> (r: i8)
    ensures
        r == 0 <==> a@ == b@,
        r < 0 <==> mono_lt(a@, b@),
        r > 0 <==> mono_lt(b@, a@),
        -1 <= r <= 1,
{
    let mut i: usize = 0;
    while i < a.len() && i < b.len()
        invariant
            i <= a.len(),
            i <= b.len(),
            a@.subrange(0, i as int) == b@.subrange(0, i as int),
            mono_lt(a@, b@) == lex_lt_from(a@, b@, i as int),
            mono_lt(b@, a@) == lex_lt_from(b@, a@, i as int),
        decreases a.len() - i,
    {
        if a[i] < b[i] {
            proof { lemma_lex_asymmetric(a@, b@, 0); }
            assert(a@ != b@);
            return -1;
        }
        if a[i] > b[i] {
            proof { lemma_lex_asymmetric(b@, a@, 0); }
            assert(a@ != b@);
            return 1;
        }
        assert(a@.subrange(0, i + 1) =~= a@.subrange(0, i as int).push(a@[i as int]));
        assert(b@.subrange(0, i + 1) =~= b@.subrange(0, i as int).push(b@[i as int]));
        i = i + 1;
    }
    if a.len() == b.len() {
        proof {
            assert(a@ =~= a@.subrange(0, i as int));
            assert(b@ =~= b@.subrange(0, i as int));
            lemma_lex_irreflexive(a@, 0);
        }
        0
    } else if a.len() < b.len() {
        proof { lemma_lex_asymmetric(a@, b@, 0); }
        -1
    } else {
        proof { lemma_lex_asymmetric(b@, a@, 0); }
        1
    }
}


/// A monomial's variable ids are sorted (a monomial is a multiset of ids).
pub open spec fn sorted_mono(m: Seq<usize>) -> bool {
    forall|i: int, j: int| 0 <= i <= j < m.len() ==> m[i] <= m[j]
}

/// A term list in canonical form: sorted monomials, strictly increasing
/// in monomial order, with no zero coefficient.
pub open spec fn wf_terms(s: Seq<(Seq<usize>, int)>) -> bool {
    &&& forall|i: int| 0 <= i < s.len() ==> sorted_mono(#[trigger] s[i].0) && s[i].1 != 0
    &&& forall|i: int, j: int| 0 <= i < j < s.len() ==> mono_lt(#[trigger] s[i].0, #[trigger] s[j].0)
}

/// Sum of `f` over the terms of a list.
pub open spec fn sum_terms(s: Seq<(Seq<usize>, int)>, f: spec_fn((Seq<usize>, int)) -> int) -> int
    decreases s.len(),
{
    if s.len() == 0 {
        0
    } else {
        sum_terms(s.drop_last(), f) + f(s.last())
    }
}

/// The coefficient function's term summand for monomial `m`.
pub open spec fn coeff_part(m: Seq<usize>) -> spec_fn((Seq<usize>, int)) -> int {
    |t: (Seq<usize>, int)| if t.0 == m { t.1 } else { 0 }
}

/// Coefficient of monomial `m` in a term list (terms with the same
/// monomial add up).
pub open spec fn coeff_of(s: Seq<(Seq<usize>, int)>, m: Seq<usize>) -> int {
    sum_terms(s, coeff_part(m))
}

/// Value of a monomial under an assignment `x` of integers to variable ids.
pub open spec fn mono_val(m: Seq<usize>, x: spec_fn(usize) -> int) -> int
    decreases m.len(),
{
    if m.len() == 0 {
        1
    } else {
        x(m[0]) * mono_val(m.drop_first(), x)
    }
}

/// The evaluation summand of a term.
pub open spec fn eval_part(x: spec_fn(usize) -> int) -> spec_fn((Seq<usize>, int)) -> int {
    |t: (Seq<usize>, int)| t.1 * mono_val(t.0, x)
}

/// Value of a term list under the assignment `x`.
pub open spec fn eval_terms(s: Seq<(Seq<usize>, int)>, x: spec_fn(usize) -> int) -> int {
    sum_terms(s, eval_part(x))
}

pub proof fn lemma_sum_push(s: Seq<(Seq<usize>, int)>, t: (Seq<usize>, int), f: spec_fn((Seq<usize>, int)) -> int)
    ensures sum_terms(s.push(t), f) == sum_terms(s, f) + f(t),
{
    assert(s.push(t).drop_last() =~= s);
}

pub proof fn lemma_sum_concat(a: Seq<(Seq<usize>, int)>, b: Seq<(Seq<usize>, int)>, f: spec_fn((Seq<usize>, int)) -> int)
    ensures sum_terms(a + b, f) == sum_terms(a, f) + sum_terms(b, f),
    decreases b.len(),
{
    if b.len() == 0 {
        assert(a + b =~= a);
    } else {
        lemma_sum_concat(a, b.drop_last(), f);
        assert((a + b).drop_last() =~= a + b.drop_last());
    }
}

pub proof fn lemma_sum_insert(s: Seq<(Seq<usize>, int)>, i: int, t: (Seq<usize>, int), f: spec_fn((Seq<usize>, int)) -> int)
    requires 0 <= i <= s.len(),
    ensures sum_terms(s.insert(i, t), f) == sum_terms(s, f) + f(t),
{
    let pre = s.subrange(0, i);
    let post = s.subrange(i, s.len() as int);
    assert(s =~= pre + post);
    assert(s.insert(i, t) =~= pre.push(t) + post);
    lemma_sum_concat(pre, post, f);
    lemma_sum_concat(pre.push(t), post, f);
    lemma_sum_push(pre, t, f);
}

pub proof fn lemma_sum_remove(s: Seq<(Seq<usize>, int)>, i: int, f: spec_fn((Seq<usize>, int)) -> int)
    requires 0 <= i < s.len(),
    ensures sum_terms(s.remove(i), f) == sum_terms(s, f) - f(s[i]),
{
    lemma_sum_insert(s.remove(i), i, s[i], f);
    assert(s.remove(i).insert(i, s[i]) =~= s);
}

/// In a canonical list, a monomial's coefficient is that of its unique term,
/// or zero when no term carries it.
pub proof fn lemma_coeff_wf(s: Seq<(Seq<usize>, int)>, m: Seq<usize>)
    requires wf_terms(s),
    ensures
        (forall|k: int| 0 <= k < s.len() ==> s[k].0 != m) ==> coeff_of(s, m) == 0,
        forall|k: int| 0 <= k < s.len() && s[k].0 == m ==> coeff_of(s, m) == s[k].1,
    decreases s.len(),
{
    if s.len() > 0 {
        let d = s.drop_last();
        assert(wf_terms(d));
        lemma_coeff_wf(d, m);
        assert forall|k: int| 0 <= k < s.len() && s[k].0 == m implies coeff_of(s, m) == s[k].1 by {
            if k < s.len() - 1 {
                assert(mono_lt(s[k].0, s[s.len() - 1].0));
                lemma_lex_irreflexive(m, 0);
                assert(d[k] == s[k]);
            } else {
                assert forall|j: int| 0 <= j < d.len() implies d[j].0 != m by {
                    assert(mono_lt(s[j].0, s[s.len() - 1].0));
                    lemma_lex_irreflexive(m, 0);
                }
            }
        }
        assert((forall|k: int| 0 <= k < s.len() ==> s[k].0 != m) ==> coeff_of(s, m) == 0) by {
            if forall|k: int| 0 <= k < s.len() ==> s[k].0 != m {
                assert forall|k: int| 0 <= k < d.len() implies d[k].0 != m by {
                    assert(d[k] == s[k]);
                }
            }
        }
    }
}


/// A canonical term list is determined by its coefficient function.
#[verifier::rlimit(60)]
#[verifier::spinoff_prover]
pub proof fn lemma_canonical_unique(s: Seq<(Seq<usize>, int)>, t: Seq<(Seq<usize>, int)>)
    requires
        wf_terms(s),
        wf_terms(t),
        forall|m: Seq<usize>| coeff_of(s, m) == coeff_of(t, m),
    ensures s == t,
    decreases s.len() + t.len(),
{
    if s.len() == 0 && t.len() == 0 {
        assert(s =~= t);
    } else if s.len() == 0 {
        lemma_coeff_wf(t, t[0].0);
        lemma_coeff_wf(s, t[0].0);
    } else if t.len() == 0 {
        lemma_coeff_wf(s, s[0].0);
        lemma_coeff_wf(t, s[0].0);
    } else {
        let ls = s.len() - 1;
        let lt = t.len() - 1;
        let a = s[ls].0;
        let b = t[lt].0;
        lemma_coeff_wf(s, a);
        lemma_coeff_wf(t, a);
        lemma_coeff_wf(s, b);
        lemma_coeff_wf(t, b);
        let k = choose|k: int| 0 <= k < t.len() && t[k].0 == a;
        let j = choose|j: int| 0 <= j < s.len() && s[j].0 == b;
        if a != b {
            if k < lt {
                assert(mono_lt(t[k].0, t[lt].0));
            }
            if j < ls {
                assert(mono_lt(s[j].0, s[ls].0));
            }
            lemma_lex_asymmetric(a, b, 0);
        }
        assert(a == b);
        let ds = s.drop_last();
        let dt = t.drop_last();
        assert(wf_terms(ds));
        assert(wf_terms(dt));
        assert forall|m: Seq<usize>| coeff_of(ds, m) == coeff_of(dt, m) by {
            assert(coeff_of(s, m) == coeff_of(ds, m) + (coeff_part(m))(s[ls]));
            assert(coeff_of(t, m) == coeff_of(dt, m) + (coeff_part(m))(t[lt]));
        }
        lemma_canonical_unique(ds, dt);
        assert(s =~= ds.push(s[ls]));
        assert(t =~= dt.push(t[lt]));
    }
}


/// The mathematical view of a stored term list.
pub open spec fn term_view(v: Seq<(Vec<usize>, i64)>) -> Seq<(Seq<usize>, int)> {
    v.map_values(|t: (Vec<usize>, i64)| (t.0@, t.1 as int))
}

/// Copies a monomial.
fn copy_mono(m: &Vec<usize>) -> (r: Vec<usize>)
    ensures r@ == m@,
{
    let mut r: Vec<usize> = Vec::new();
    let mut i: usize = 0;
    while i < m.len()
        invariant
            i <= m.len(),
            r@ == m@.subrange(0, i as int),
        decreases m.len() - i,
    {
        r.push(m[i]);
        i = i + 1;
        assert(r@ =~= m@.subrange(0, i as int));
    }
    assert(m@ =~= m@.subrange(0, m.len() as int));
    r
}

/// Adds `coeff * mono` to a canonical term list, keeping it canonical.
#[verifier::spinoff_prover]
#[verifier::rlimit(40)]
pub(crate) fn add_term_vec(terms: &mut Vec<(Vec<usize>, i64)>, mono: Vec<usize>, coeff: i64)
    requires
        wf_terms(term_view(old(terms)@)),
        sorted_mono(mono@),
        i64::MIN <= coeff_of(term_view(old(terms)@), mono@) + coeff <= i64::MAX,
    ensures
        wf_terms(term_view(final(terms)@)),
        forall|m: Seq<usize>|
            coeff_of(term_view(final(terms)@), m) == coeff_of(term_view(old(terms)@), m) + (if m == mono@ {
                coeff as int
            } else {
                0
            }),
        forall|x: spec_fn(usize) -> int|
            eval_terms(term_view(final(terms)@), x) == eval_terms(term_view(old(terms)@), x) + coeff
                * mono_val(mono@, x),
        coeff == 0 ==> final(terms)@ == old(terms)@,
{
    if coeff == 0 {
        return;
    }
    let ghost ov = term_view(terms@);
    let mut i: usize = 0;
    let mut found = false;
    let mut stop = false;
    while !stop && i < terms.len()
        invariant
            i <= terms.len(),
            ov == term_view(terms@),
            forall|j: int| 0 <= j < i ==> mono_lt(#[trigger] ov[j].0, mono@),
            found ==> stop,
            stop ==> i < terms.len(),
            stop && found ==> ov[i as int].0 == mono@,
            stop && !found ==> mono_lt(mono@, ov[i as int].0),
        decreases terms.len() - i + (if stop { 0int } else { 1int }),
    {
        let c = compare_monomials(&terms[i].0, &mono);
        if c == 0 {
            found = true;
            stop = true;
        } else if c > 0 {
            stop = true;
        } else {
            i = i + 1;
        }
    }
    if !found && i < terms.len() {
        assert(mono_lt(mono@, ov[i as int].0));
    }
    let ghost mv = mono@;
    proof { lemma_coeff_wf(ov, mv); }
    if found {
        let existing = terms[i].1;
        assert(ov[i as int].1 == existing as int);
        let sum = existing + coeff;
        let removed = terms.remove(i);
        let m = removed.0;
        assert(term_view(terms@) =~= ov.remove(i as int));
        proof {
            assert forall|f: spec_fn((Seq<usize>, int)) -> int| sum_terms(ov.remove(i as int), f) == sum_terms(ov, f) - f(ov[i as int]) by {
                lemma_sum_remove(ov, i as int, f);
            }
        }
        if sum != 0 {
            let ghost rv = term_view(terms@);
            terms.insert(i, (m, sum));
            assert(term_view(terms@) =~= rv.insert(i as int, (mv, sum as int)));
            proof {
                assert forall|f: spec_fn((Seq<usize>, int)) -> int| sum_terms(rv.insert(i as int, (mv, sum as int)), f) == sum_terms(rv, f) + f((mv, sum as int)) by {
                    lemma_sum_insert(rv, i as int, (mv, sum as int), f);
                }
                let nv = term_view(terms@);
                assert(nv =~= ov.update(i as int, (mv, sum as int)));
                assert forall|a: int, b: int| 0 <= a < b < nv.len() implies mono_lt(#[trigger] nv[a].0, #[trigger] nv[b].0) by {
                    assert(nv[a].0 == ov[a].0 && nv[b].0 == ov[b].0);
                }
                assert forall|x: spec_fn(usize) -> int| eval_terms(nv, x) == eval_terms(ov, x) + coeff * mono_val(mv, x) by {
                    let v = mono_val(mv, x);
                    assert(sum * v == existing * v + coeff * v) by (nonlinear_arith)
                        requires sum == existing + coeff;
                }
            }
        } else {
            proof {
                let nv = term_view(terms@);
                assert forall|a: int, b: int| 0 <= a < b < nv.len() implies mono_lt(#[trigger] nv[a].0, #[trigger] nv[b].0) by {
                    if a < i {
                        if b < i {
                            assert(nv[a] == ov[a] && nv[b] == ov[b]);
                        } else {
                            assert(nv[a] == ov[a] && nv[b] == ov[b + 1]);
                        }
                    } else {
                        assert(nv[a] == ov[a + 1] && nv[b] == ov[b + 1]);
                    }
                }
                assert forall|x: spec_fn(usize) -> int| eval_terms(nv, x) == eval_terms(ov, x) + coeff * mono_val(mv, x) by {
                    let v = mono_val(mv, x);
                    assert(-(existing * v) == coeff * v) by (nonlinear_arith)
                        requires existing + coeff == 0;
                }
            }
        }
    } else {
        terms.insert(i, (mono, coeff));
        assert(term_view(terms@) =~= ov.insert(i as int, (mv, coeff as int)));
        proof {
            assert forall|f: spec_fn((Seq<usize>, int)) -> int| sum_terms(ov.insert(i as int, (mv, coeff as int)), f) == sum_terms(ov, f) + f((mv, coeff as int)) by {
                lemma_sum_insert(ov, i as int, (mv, coeff as int), f);
            }
            let nv = term_view(terms@);
            assert forall|a: int, b: int| 0 <= a < b < nv.len() implies mono_lt(#[trigger] nv[a].0, #[trigger] nv[b].0) by {
                if b < i {
                    assert(nv[a] == ov[a] && nv[b] == ov[b]);
                } else if b == i {
                    assert(nv[a] == ov[a]);
                } else if a < i {
                    assert(nv[a] == ov[a] && nv[b] == ov[b - 1]);
                    assert(mono_lt(ov[a].0, mv));
                    if b - 1 > i {
                        assert(mono_lt(ov[i as int].0, ov[b - 1].0));
                        lemma_lex_transitive(mv, ov[i as int].0, ov[b - 1].0, 0);
                    }
                    lemma_lex_transitive(ov[a].0, mv, ov[b - 1].0, 0);
                } else if a == i {
                    assert(nv[b] == ov[b - 1]);
                    if b - 1 > i {
                        assert(mono_lt(ov[i as int].0, ov[b - 1].0));
                        lemma_lex_transitive(mv, ov[i as int].0, ov[b - 1].0, 0);
                    }
                } else {
                    assert(nv[a] == ov[a - 1] && nv[b] == ov[b - 1]);
                }
            }
        }
    }
}


/// Merge of two sorted monomials: the sorted monomial of their product.
pub open spec fn merge_mono(a: Seq<usize>, b: Seq<usize>) -> Seq<usize>
    decreases a.len() + b.len(),
{
    if a.len() == 0 {
        b
    } else if b.len() == 0 {
        a
    } else if a[0] <= b[0] {
        seq![a[0]] + merge_mono(a.drop_first(), b)
    } else {
        seq![b[0]] + merge_mono(a, b.drop_first())
    }
}

pub proof fn lemma_merge_props(a: Seq<usize>, b: Seq<usize>, x: spec_fn(usize) -> int)
    requires sorted_mono(a), sorted_mono(b),
    ensures
        merge_mono(a, b).len() == a.len() + b.len(),
        sorted_mono(merge_mono(a, b)),
        merge_mono(a, b).len() > 0 ==> (merge_mono(a, b)[0] == a[0] && a.len() > 0) || (merge_mono(
            a,
            b,
        )[0] == b[0] && b.len() > 0),
        mono_val(merge_mono(a, b), x) == mono_val(a, x) * mono_val(b, x),
    decreases a.len() + b.len(),
{
    let r = merge_mono(a, b);
    if a.len() == 0 {
        assert(mono_val(a, x) == 1);
    } else if b.len() == 0 {
        assert(mono_val(b, x) == 1);
    } else if a[0] <= b[0] {
        let a1 = a.drop_first();
        assert(sorted_mono(a1));
        lemma_merge_props(a1, b, x);
        let rest = merge_mono(a1, b);
        assert(r == seq![a[0]] + rest);
        assert forall|i: int, j: int| 0 <= i <= j < r.len() implies r[i] <= r[j] by {
            if i == 0 && j > 0 {
                assert(r[j] == rest[j - 1]);
                assert(rest[0] <= rest[j - 1]);
                if rest[0] == a1[0] && a1.len() > 0 {
                    assert(a[0] <= a[1]);
                }
            } else if i > 0 {
                assert(r[i] == rest[i - 1] && r[j] == rest[j - 1]);
            }
        }
        assert(r.drop_first() =~= rest);
        let va = x(a[0]);
        let m1 = mono_val(a1, x);
        let mb = mono_val(b, x);
        assert(va * (m1 * mb) == (va * m1) * mb) by (nonlinear_arith);
    } else {
        let b1 = b.drop_first();
        assert(sorted_mono(b1));
        lemma_merge_props(a, b1, x);
        let rest = merge_mono(a, b1);
        assert(r == seq![b[0]] + rest);
        assert forall|i: int, j: int| 0 <= i <= j < r.len() implies r[i] <= r[j] by {
            if i == 0 && j > 0 {
                assert(r[j] == rest[j - 1]);
                assert(rest[0] <= rest[j - 1]);
                if rest[0] == b1[0] && b1.len() > 0 {
                    assert(b[0] <= b[1]);
                }
            } else if i > 0 {
                assert(r[i] == rest[i - 1] && r[j] == rest[j - 1]);
            }
        }
        assert(r.drop_first() =~= rest);
        let vb = x(b[0]);
        let ma = mono_val(a, x);
        let m1 = mono_val(b1, x);
        assert(vb * (ma * m1) == ma * (vb * m1)) by (nonlinear_arith);
    }
}

/// Putting a least element `c` in front of the second monomial puts it in
/// front of the merge.
pub proof fn lemma_merge_front(s: Seq<usize>, c: usize, t: Seq<usize>)
    requires
        sorted_mono(s),
        sorted_mono(t),
        s.len() == 0 || c <= s[0],
        t.len() == 0 || c <= t[0],
    ensures merge_mono(s, seq![c] + t) == seq![c] + merge_mono(s, t),
    decreases s.len(),
{
    let ct = seq![c] + t;
    assert(ct[0] == c);
    assert(ct.drop_first() =~= t);
    if s.len() == 0 {
        assert(merge_mono(s, t) == t);
    } else if s[0] == c {
        let s1 = s.drop_first();
        assert(sorted_mono(s1));
        if s1.len() > 0 {
            assert(s[0] <= s[1]);
        }
        lemma_merge_front(s1, c, t);
        if t.len() > 0 {
            assert(merge_mono(s, t) == seq![s[0]] + merge_mono(s1, t));
        } else {
            assert(merge_mono(s, t) == s);
            assert(merge_mono(s1, t) == s1);
            assert(s =~= seq![s[0]] + s1);
        }
        assert(merge_mono(s, ct) == seq![c] + merge_mono(s1, ct));
        assert(seq![c] + (seq![c] + merge_mono(s1, t)) =~= seq![c] + (seq![s[0]] + merge_mono(s1, t)));
    }
}

/// Merging sorted monomials is commutative: a product of monomials does
/// not depend on the order of its factors.
pub proof fn lemma_merge_commutes(a: Seq<usize>, b: Seq<usize>)
    requires
        sorted_mono(a),
        sorted_mono(b),
    ensures merge_mono(a, b) == merge_mono(b, a),
    decreases a.len() + b.len(),
{
    if a.len() > 0 && b.len() > 0 {
        let a1 = a.drop_first();
        let b1 = b.drop_first();
        assert(sorted_mono(a1));
        assert(sorted_mono(b1));
        if a[0] < b[0] {
            lemma_merge_commutes(a1, b);
        } else if b[0] < a[0] {
            lemma_merge_commutes(a, b1);
        } else {
            let c = a[0];
            if a1.len() > 0 {
                assert(a[0] <= a[1]);
            }
            if b1.len() > 0 {
                assert(b[0] <= b[1]);
            }
            assert(b =~= seq![c] + b1);
            assert(a =~= seq![c] + a1);
            lemma_merge_front(a1, c, b1);
            lemma_merge_front(b1, c, a1);
            lemma_merge_commutes(a1, b1);
        }
    }
}

/// A merge holds the ids of both monomials.
pub proof fn lemma_merge_multiset(a: Seq<usize>, b: Seq<usize>)
    ensures merge_mono(a, b).to_multiset() =~= a.to_multiset().add(b.to_multiset()),
    decreases a.len() + b.len(),
{
    if a.len() == 0 {
        a.to_multiset_ensures();
        vstd::multiset::lemma_multiset_empty_len(a.to_multiset());
    } else if b.len() == 0 {
        b.to_multiset_ensures();
        vstd::multiset::lemma_multiset_empty_len(b.to_multiset());
    } else if a[0] <= b[0] {
        let a1 = a.drop_first();
        lemma_merge_multiset(a1, b);
        assert(a =~= seq![a[0]] + a1);
        vstd::seq_lib::lemma_multiset_commutative(seq![a[0]], a1);
        vstd::seq_lib::lemma_multiset_commutative(seq![a[0]], merge_mono(a1, b));
    } else {
        let b1 = b.drop_first();
        lemma_merge_multiset(a, b1);
        assert(b =~= seq![b[0]] + b1);
        vstd::seq_lib::lemma_multiset_commutative(seq![b[0]], b1);
        vstd::seq_lib::lemma_multiset_commutative(seq![b[0]], merge_mono(a, b1));
    }
}

/// Sorted monomials with the same ids are equal.
pub proof fn lemma_sorted_mono_unique(x: Seq<usize>, y: Seq<usize>)
    requires
        sorted_mono(x),
        sorted_mono(y),
        x.to_multiset() == y.to_multiset(),
    ensures x == y,
{
    let leq = |i: usize, j: usize| i <= j;
    assert(vstd::relations::total_ordering(leq));
    assert forall|i: int, j: int| 0 <= i < j < x.len() implies #[trigger] leq(x[i], x[j]) by {}
    assert forall|i: int, j: int| 0 <= i < j < y.len() implies #[trigger] leq(y[i], y[j]) by {}
    vstd::seq_lib::lemma_sorted_unique(x, y, leq);
}

/// Merging sorted monomials is associative.
pub proof fn lemma_merge_associates(a: Seq<usize>, b: Seq<usize>, c: Seq<usize>)
    requires
        sorted_mono(a),
        sorted_mono(b),
        sorted_mono(c),
    ensures merge_mono(merge_mono(a, b), c) == merge_mono(a, merge_mono(b, c)),
{
    let x = |i: usize| 0int;
    lemma_merge_props(a, b, x);
    lemma_merge_props(b, c, x);
    lemma_merge_props(merge_mono(a, b), c, x);
    lemma_merge_props(a, merge_mono(b, c), x);
    lemma_merge_multiset(a, b);
    lemma_merge_multiset(b, c);
    lemma_merge_multiset(merge_mono(a, b), c);
    lemma_merge_multiset(a, merge_mono(b, c));
    assert(merge_mono(merge_mono(a, b), c).to_multiset() =~= merge_mono(a, merge_mono(b, c)).to_multiset());
    lemma_sorted_mono_unique(merge_mono(merge_mono(a, b), c), merge_mono(a, merge_mono(b, c)));
}

/// The products of each term of `ps` with the term `u`, in order.
pub open spec fn prod_col(ps: Seq<(Seq<usize>, int)>, u: (Seq<usize>, int)) -> Seq<(Seq<usize>, int)> {
    Seq::new(ps.len(), |i: int| (merge_mono(ps[i].0, u.0), ps[i].1 * u.1))
}

/// Appending a term to the second factor adds the products with it.
pub proof fn lemma_prod_push_right(ps: Seq<(Seq<usize>, int)>, qs: Seq<(Seq<usize>, int)>, u: (Seq<usize>, int), m: Seq<usize>)
    ensures coeff_of(prod_terms(ps, qs.push(u)), m) == coeff_of(prod_terms(ps, qs), m) + coeff_of(prod_col(ps, u), m),
    decreases ps.len(),
{
    if ps.len() == 0 {
        assert(prod_col(ps, u) =~= Seq::<(Seq<usize>, int)>::empty());
    } else {
        let d = ps.drop_last();
        let t = ps.last();
        lemma_prod_push_right(d, qs, u, m);
        let f = coeff_part(m);
        let extra = (merge_mono(t.0, u.0), t.1 * u.1);
        assert(prod_row(t, qs.push(u)) =~= prod_row(t, qs).push(extra));
        assert(prod_col(ps, u) =~= prod_col(d, u).push(extra));
        lemma_sum_concat(prod_terms(d, qs.push(u)), prod_row(t, qs.push(u)), f);
        lemma_sum_concat(prod_terms(d, qs), prod_row(t, qs), f);
        lemma_sum_push(prod_row(t, qs), extra, f);
        lemma_sum_push(prod_col(d, u), extra, f);
    }
}

/// The coefficient function of a product does not depend on the order of
/// its factors.
pub proof fn lemma_prod_coeff_commutes(ps: Seq<(Seq<usize>, int)>, qs: Seq<(Seq<usize>, int)>, m: Seq<usize>)
    requires
        terms_sorted_monos(ps),
        terms_sorted_monos(qs),
    ensures coeff_of(prod_terms(ps, qs), m) == coeff_of(prod_terms(qs, ps), m),
    decreases qs.len(),
{
    if qs.len() == 0 {
        lemma_prod_empty_right(ps);
        assert(qs =~= Seq::<(Seq<usize>, int)>::empty());
        assert(coeff_of(prod_terms(ps, qs), m) == 0);
        assert(prod_terms(qs, ps) == Seq::<(Seq<usize>, int)>::empty());
    } else {
        let d = qs.drop_last();
        let u = qs.last();
        assert(terms_sorted_monos(d));
        assert(qs =~= d.push(u));
        lemma_prod_coeff_commutes(ps, d, m);
        lemma_prod_push_right(ps, d, u, m);
        lemma_sum_concat(prod_terms(d, ps), prod_row(u, ps), coeff_part(m));
        assert forall|i: int| 0 <= i < ps.len() implies #[trigger] prod_col(ps, u)[i] == prod_row(u, ps)[i] by {
            lemma_merge_commutes(ps[i].0, u.0);
            assert(ps[i].1 * u.1 == u.1 * ps[i].1) by (nonlinear_arith);
        }
        assert(prod_col(ps, u) =~= prod_row(u, ps));
        assert(coeff_of(prod_terms(ps, qs), m) == coeff_of(prod_terms(ps, d), m) + coeff_of(prod_col(ps, u), m));
        assert(prod_terms(qs, ps) == prod_terms(d, ps) + prod_row(u, ps));
    }
}

/// The terms of `s` whose monomial is not `mu`, in order.
pub open spec fn without(s: Seq<(Seq<usize>, int)>, mu: Seq<usize>) -> Seq<(Seq<usize>, int)>
    decreases s.len(),
{
    if s.len() == 0 {
        s
    } else if s.last().0 == mu {
        without(s.drop_last(), mu)
    } else {
        without(s.drop_last(), mu).push(s.last())
    }
}

/// The summand `t.1 * g(t.0)`: a term weighted by a function of its monomial.
pub open spec fn weighted(g: spec_fn(Seq<usize>) -> int) -> spec_fn((Seq<usize>, int)) -> int {
    |t: (Seq<usize>, int)| t.1 * g(t.0)
}

/// Dropping the terms of monomial `mu` zeroes its coefficient, keeps the
/// others, shortens the list when its last term has that monomial, and
/// takes `mu`'s share out of every weighted sum.
pub proof fn lemma_without(s: Seq<(Seq<usize>, int)>, mu: Seq<usize>, g: spec_fn(Seq<usize>) -> int)
    ensures
        without(s, mu).len() <= s.len(),
        s.len() > 0 && s.last().0 == mu ==> without(s, mu).len() < s.len(),
        forall|nu: Seq<usize>| #[trigger] coeff_of(without(s, mu), nu) == if nu == mu { 0 } else { coeff_of(s, nu) },
        sum_terms(s, weighted(g)) == sum_terms(without(s, mu), weighted(g)) + coeff_of(s, mu) * g(mu),
    decreases s.len(),
{
    if s.len() == 0 {
        assert(0 * g(mu) == 0) by (nonlinear_arith);
    } else {
        let d = s.drop_last();
        let t = s.last();
        lemma_without(d, mu, g);
        let w = without(d, mu);
        if t.0 == mu {
            let c = coeff_of(d, mu);
            assert(coeff_of(s, mu) == c + t.1);
            assert((c + t.1) * g(mu) == c * g(mu) + t.1 * g(mu)) by (nonlinear_arith);
        } else {
            lemma_sum_push(w, t, weighted(g));
            assert forall|nu: Seq<usize>| #[trigger] coeff_of(w.push(t), nu) == if nu == mu { 0 } else { coeff_of(s, nu) } by {
                lemma_sum_push(w, t, coeff_part(nu));
                assert(coeff_of(w, nu) == if nu == mu { 0 } else { coeff_of(d, nu) });
                assert(coeff_of(s, nu) == coeff_of(d, nu) + (coeff_part(nu))(t));
            }
        }
    }
}

/// A weighted sum over a term list depends only on its coefficient function.
pub proof fn lemma_weighted_sum_coeffs(s: Seq<(Seq<usize>, int)>, s2: Seq<(Seq<usize>, int)>, g: spec_fn(Seq<usize>) -> int)
    requires forall|nu: Seq<usize>| coeff_of(s, nu) == coeff_of(s2, nu),
    ensures sum_terms(s, weighted(g)) == sum_terms(s2, weighted(g)),
    decreases s.len() + s2.len(),
{
    if s.len() > 0 || s2.len() > 0 {
        let mu = if s.len() > 0 { s.last().0 } else { s2.last().0 };
        lemma_without(s, mu, g);
        lemma_without(s2, mu, g);
        assert forall|nu: Seq<usize>| coeff_of(without(s, mu), nu) == coeff_of(without(s2, mu), nu) by {
            assert(coeff_of(s, nu) == coeff_of(s2, nu));
        }
        assert(coeff_of(s, mu) == coeff_of(s2, mu));
        lemma_weighted_sum_coeffs(without(s, mu), without(s2, mu), g);
    }
}

/// The coefficient of `m` among the products of monomial `mu` with `qs`.
pub open spec fn row_coeff(qs: Seq<(Seq<usize>, int)>, m: Seq<usize>) -> spec_fn(Seq<usize>) -> int {
    |mu: Seq<usize>| coeff_of(prod_row((mu, 1int), qs), m)
}

/// A row of products scales with the coefficient of its left term.
pub proof fn lemma_row_scales(t: (Seq<usize>, int), qs: Seq<(Seq<usize>, int)>, m: Seq<usize>)
    ensures coeff_of(prod_row(t, qs), m) == t.1 * (row_coeff(qs, m))(t.0),
    decreases qs.len(),
{
    if qs.len() == 0 {
        assert(t.1 * 0 == 0) by (nonlinear_arith);
    } else {
        let d = qs.drop_last();
        let u = qs.last();
        lemma_row_scales(t, d, m);
        let one = (t.0, 1int);
        assert(prod_row(t, qs) =~= prod_row(t, d).push((merge_mono(t.0, u.0), t.1 * u.1)));
        assert(prod_row(one, qs) =~= prod_row(one, d).push((merge_mono(t.0, u.0), 1 * u.1)));
        let f = coeff_part(m);
        lemma_sum_push(prod_row(t, d), (merge_mono(t.0, u.0), t.1 * u.1), f);
        lemma_sum_push(prod_row(one, d), (merge_mono(t.0, u.0), 1 * u.1), f);
        let a = coeff_of(prod_row(one, d), m);
        let c = t.1;
        let v = u.1;
        assert(c * (a + 1 * v) == c * a + c * v) by (nonlinear_arith);
        assert(c * (a + 0) == c * a + 0) by (nonlinear_arith);
    }
}

/// A product's coefficient is a weighted sum over its left factor.
pub proof fn lemma_prod_weighted(ps: Seq<(Seq<usize>, int)>, qs: Seq<(Seq<usize>, int)>, m: Seq<usize>)
    ensures coeff_of(prod_terms(ps, qs), m) == sum_terms(ps, weighted(row_coeff(qs, m))),
    decreases ps.len(),
{
    if ps.len() > 0 {
        let d = ps.drop_last();
        lemma_prod_weighted(d, qs, m);
        lemma_sum_concat(prod_terms(d, qs), prod_row(ps.last(), qs), coeff_part(m));
        lemma_row_scales(ps.last(), qs, m);
    }
}

/// A product's coefficients depend only on the coefficients of its left
/// factor, not on how its terms are listed.
pub proof fn lemma_prod_left_coeffs(ps: Seq<(Seq<usize>, int)>, ps2: Seq<(Seq<usize>, int)>, qs: Seq<(Seq<usize>, int)>, m: Seq<usize>)
    requires forall|nu: Seq<usize>| coeff_of(ps, nu) == coeff_of(ps2, nu),
    ensures coeff_of(prod_terms(ps, qs), m) == coeff_of(prod_terms(ps2, qs), m),
{
    lemma_prod_weighted(ps, qs, m);
    lemma_prod_weighted(ps2, qs, m);
    lemma_weighted_sum_coeffs(ps, ps2, row_coeff(qs, m));
}

/// Products distribute over concatenation of the left factor.
pub proof fn lemma_prod_concat_left(xs: Seq<(Seq<usize>, int)>, ys: Seq<(Seq<usize>, int)>, qs: Seq<(Seq<usize>, int)>)
    ensures prod_terms(xs + ys, qs) == prod_terms(xs, qs) + prod_terms(ys, qs),
    decreases ys.len(),
{
    if ys.len() == 0 {
        assert(xs + ys =~= xs);
        assert(prod_terms(xs, qs) + prod_terms(ys, qs) =~= prod_terms(xs, qs));
    } else {
        let d = ys.drop_last();
        lemma_prod_concat_left(xs, d, qs);
        assert((xs + ys).drop_last() =~= xs + d);
        assert((xs + ys).last() == ys.last());
        assert(prod_terms(xs, qs) + prod_terms(ys, qs) =~= (prod_terms(xs, qs) + prod_terms(d, qs)) + prod_row(ys.last(), qs));
    }
}

/// Multiplying a row of products by `c` lists the same terms as
/// multiplying the products of its right side by its left term.
pub proof fn lemma_row_times(t: (Seq<usize>, int), b: Seq<(Seq<usize>, int)>, c: Seq<(Seq<usize>, int)>)
    requires
        sorted_mono(t.0),
        terms_sorted_monos(b),
        terms_sorted_monos(c),
    ensures prod_terms(prod_row(t, b), c) == prod_col(prod_terms(b, c), t),
    decreases b.len(),
{
    if b.len() == 0 {
        assert(prod_row(t, b) =~= Seq::<(Seq<usize>, int)>::empty());
        assert(prod_col(prod_terms(b, c), t) =~= Seq::<(Seq<usize>, int)>::empty());
    } else {
        let d = b.drop_last();
        let u = b.last();
        assert(terms_sorted_monos(d));
        lemma_row_times(t, d, c);
        let v = (merge_mono(t.0, u.0), t.1 * u.1);
        assert(prod_row(t, b) =~= prod_row(t, d).push(v));
        assert(prod_row(t, b).drop_last() =~= prod_row(t, d));
        assert(prod_col(prod_terms(d, c) + prod_row(u, c), t) =~= prod_col(prod_terms(d, c), t) + prod_col(prod_row(u, c), t));
        assert forall|k: int| 0 <= k < c.len() implies #[trigger] prod_row(v, c)[k] == prod_col(prod_row(u, c), t)[k] by {
            let x = |i: usize| 0int;
            lemma_merge_props(u.0, c[k].0, x);
            lemma_merge_associates(t.0, u.0, c[k].0);
            lemma_merge_commutes(t.0, merge_mono(u.0, c[k].0));
            assert((t.1 * u.1) * c[k].1 == (u.1 * c[k].1) * t.1) by (nonlinear_arith);
        }
        assert(prod_row(v, c) =~= prod_col(prod_row(u, c), t));
    }
}

/// The coefficients of `(a * b) * c` and `(b * c) * a` agree term list by
/// term list.
pub proof fn lemma_prod_rotate(a: Seq<(Seq<usize>, int)>, b: Seq<(Seq<usize>, int)>, c: Seq<(Seq<usize>, int)>, m: Seq<usize>)
    requires
        terms_sorted_monos(a),
        terms_sorted_monos(b),
        terms_sorted_monos(c),
    ensures coeff_of(prod_terms(prod_terms(a, b), c), m) == coeff_of(prod_terms(prod_terms(b, c), a), m),
    decreases a.len(),
{
    if a.len() == 0 {
        lemma_prod_empty_right(prod_terms(b, c));
        assert(a =~= Seq::<(Seq<usize>, int)>::empty());
        assert(prod_terms(a, b) == Seq::<(Seq<usize>, int)>::empty());
        assert(prod_terms(prod_terms(a, b), c) == Seq::<(Seq<usize>, int)>::empty());
    } else {
        let d = a.drop_last();
        let t = a.last();
        assert(terms_sorted_monos(d));
        lemma_prod_rotate(d, b, c, m);
        assert(prod_terms(a, b) == prod_terms(d, b) + prod_row(t, b));
        lemma_prod_concat_left(prod_terms(d, b), prod_row(t, b), c);
        lemma_sum_concat(prod_terms(prod_terms(d, b), c), prod_terms(prod_row(t, b), c), coeff_part(m));
        lemma_row_times(t, b, c);
        assert(a =~= d.push(t));
        lemma_prod_push_right(prod_terms(b, c), d, t, m);
    }
}

/// Every monomial of a product is sorted.
pub proof fn lemma_prod_sorted(ps: Seq<(Seq<usize>, int)>, qs: Seq<(Seq<usize>, int)>)
    requires
        terms_sorted_monos(ps),
        terms_sorted_monos(qs),
    ensures terms_sorted_monos(prod_terms(ps, qs)),
    decreases ps.len(),
{
    if ps.len() > 0 {
        let d = ps.drop_last();
        assert(terms_sorted_monos(d));
        lemma_prod_sorted(d, qs);
        let l = prod_terms(d, qs);
        let r = prod_row(ps.last(), qs);
        assert forall|i: int| 0 <= i < (l + r).len() implies sorted_mono(#[trigger] (l + r)[i].0) by {
            if i >= l.len() {
                lemma_merge_props(ps.last().0, qs[i - l.len()].0, |j: usize| 0int);
            }
        }
    }
}

/// A product with no terms on the right has no terms.
pub proof fn lemma_prod_empty_right(ps: Seq<(Seq<usize>, int)>)
    ensures prod_terms(ps, Seq::empty()) =~= Seq::<(Seq<usize>, int)>::empty(),
    decreases ps.len(),
{
    if ps.len() > 0 {
        lemma_prod_empty_right(ps.drop_last());
        assert(prod_row(ps.last(), Seq::empty()) =~= Seq::<(Seq<usize>, int)>::empty());
    }
}

/// Merges two sorted monomials (the sorted concatenation of their ids).
fn merge_monos(a: &Vec<usize>, b: &Vec<usize>) -> (r: Vec<usize>)
    requires sorted_mono(a@), sorted_mono(b@),
    ensures r@ == merge_mono(a@, b@),
{
    let mut out: Vec<usize> = Vec::new();
    let mut i: usize = 0;
    let mut j: usize = 0;
    proof {
        assert(a@.skip(0) =~= a@);
        assert(b@.skip(0) =~= b@);
    }
    while i < a.len() || j < b.len()
        invariant
            i <= a.len(),
            j <= b.len(),
            out@ + merge_mono(a@.skip(i as int), b@.skip(j as int)) == merge_mono(a@, b@),
        decreases a.len() + b.len() - i - j,
    {
        let ghost sa = a@.skip(i as int);
        let ghost sb = b@.skip(j as int);
        if j >= b.len() || (i < a.len() && a[i] <= b[j]) {
            proof {
                assert(sa.drop_first() =~= a@.skip(i + 1));
                if j >= b.len() {
                    assert(sb.len() == 0);
                    assert(merge_mono(sa, sb) == sa);
                    assert(merge_mono(sa.drop_first(), sb) == sa.drop_first());
                    assert(sa =~= seq![sa[0]] + sa.drop_first());
                }
            }
            out.push(a[i]);
            i = i + 1;
            proof {
                assert(out@ + merge_mono(a@.skip(i as int), sb) =~= out@.drop_last() + merge_mono(sa, sb));
            }
        } else {
            proof {
                assert(sb.drop_first() =~= b@.skip(j + 1));
                if i >= a.len() {
                    assert(sa.len() == 0);
                    assert(merge_mono(sa, sb) == sb);
                    assert(merge_mono(sa, sb.drop_first()) == sb.drop_first());
                    assert(sb =~= seq![sb[0]] + sb.drop_first());
                }
            }
            out.push(b[j]);
            j = j + 1;
            proof {
                assert(out@ + merge_mono(sa, b@.skip(j as int)) =~= out@.drop_last() + merge_mono(sa, sb));
            }
        }
    }
    proof {
        assert(a@.skip(i as int).len() == 0);
        assert(b@.skip(j as int).len() == 0);
        assert(out@ + merge_mono(a@.skip(i as int), b@.skip(j as int)) =~= out@);
    }
    out
}


/// The products of one term with every term of `qs`, in order.
pub open spec fn prod_row(t: (Seq<usize>, int), qs: Seq<(Seq<usize>, int)>) -> Seq<(Seq<usize>, int)> {
    Seq::new(qs.len(), |j: int| (merge_mono(t.0, qs[j].0), t.1 * qs[j].1))
}

/// All pairwise term products of `ps` and `qs`, row by row: the order in
/// which a product is accumulated.
pub open spec fn prod_terms(ps: Seq<(Seq<usize>, int)>, qs: Seq<(Seq<usize>, int)>) -> Seq<(Seq<usize>, int)>
    decreases ps.len(),
{
    if ps.len() == 0 {
        Seq::empty()
    } else {
        prod_terms(ps.drop_last(), qs) + prod_row(ps.last(), qs)
    }
}

/// Every partial sum met while accumulating the products of `ps` and `qs`
/// fits in an `i64`, and so does every product.
pub open spec fn mul_fits(ps: Seq<(Seq<usize>, int)>, qs: Seq<(Seq<usize>, int)>) -> bool {
    let l = prod_terms(ps, qs);
    forall|k: int|
        0 <= k < l.len() ==> fits(#[trigger] l[k].1) && fits(
            coeff_of(l.take(k + 1), l[k].0),
        )
}

/// The value fits in an `i64`.
pub open spec fn fits(v: int) -> bool {
    i64::MIN <= v <= i64::MAX
}

/// Every monomial of the list is sorted.
pub open spec fn terms_sorted_monos(s: Seq<(Seq<usize>, int)>) -> bool {
    forall|i: int| 0 <= i < s.len() ==> sorted_mono(#[trigger] s[i].0)
}

pub proof fn lemma_eval_row(t: (Seq<usize>, int), qs: Seq<(Seq<usize>, int)>, x: spec_fn(usize) -> int)
    requires sorted_mono(t.0), terms_sorted_monos(qs),
    ensures eval_terms(prod_row(t, qs), x) == t.1 * mono_val(t.0, x) * eval_terms(qs, x),
    decreases qs.len(),
{
    let r = prod_row(t, qs);
    if qs.len() == 0 {
        assert(t.1 * mono_val(t.0, x) * 0 == 0) by (nonlinear_arith);
    } else {
        let d = qs.drop_last();
        let ql = qs.last();
        lemma_eval_row(t, d, x);
        assert(r.drop_last() =~= prod_row(t, d));
        lemma_merge_props(t.0, ql.0, x);
        let a = t.1;
        let ma = mono_val(t.0, x);
        let b = ql.1;
        let mb = mono_val(ql.0, x);
        let e = eval_terms(d, x);
        assert((a * b) * (ma * mb) + a * ma * e == a * ma * (e + b * mb)) by (nonlinear_arith);
    }
}

/// The accumulated products evaluate to the product of the values.
pub proof fn lemma_eval_prod(ps: Seq<(Seq<usize>, int)>, qs: Seq<(Seq<usize>, int)>, x: spec_fn(usize) -> int)
    requires terms_sorted_monos(ps), terms_sorted_monos(qs),
    ensures eval_terms(prod_terms(ps, qs), x) == eval_terms(ps, x) * eval_terms(qs, x),
    decreases ps.len(),
{
    if ps.len() == 0 {
        assert(0 * eval_terms(qs, x) == 0) by (nonlinear_arith);
    } else {
        let d = ps.drop_last();
        let t = ps.last();
        lemma_eval_prod(d, qs, x);
        lemma_eval_row(t, qs, x);
        lemma_sum_concat(prod_terms(d, qs), prod_row(t, qs), eval_part(x));
        let ed = eval_terms(d, x);
        let eq = eval_terms(qs, x);
        let tm = t.1 * mono_val(t.0, x);
        assert(ed * eq + tm * eq == (ed + tm) * eq) by (nonlinear_arith);
    }
}

/// The products of a prefix of `ps` are a prefix of the products of `ps`.
pub proof fn lemma_prod_prefix(ps: Seq<(Seq<usize>, int)>, qs: Seq<(Seq<usize>, int)>, i: int)
    requires 0 <= i <= ps.len(),
    ensures
        prod_terms(ps.take(i), qs).len() <= prod_terms(ps, qs).len(),
        prod_terms(ps, qs).take(prod_terms(ps.take(i), qs).len() as int) == prod_terms(ps.take(i), qs),
    decreases ps.len(),
{
    if i == ps.len() {
        assert(ps.take(i) =~= ps);
        assert(prod_terms(ps, qs).take(prod_terms(ps, qs).len() as int) =~= prod_terms(ps, qs));
    } else {
        let d = ps.drop_last();
        assert(d.take(i) =~= ps.take(i));
        lemma_prod_prefix(d, qs, i);
        let a = prod_terms(ps.take(i), qs);
        let b = prod_terms(d, qs);
        assert(prod_terms(ps, qs) == b + prod_row(ps.last(), qs));
        assert((b + prod_row(ps.last(), qs)).take(a.len() as int) =~= b.take(a.len() as int));
    }
}


/// A polynomial in canonical form: a map from monomial to its non-zero
/// coefficient, stored as a term list sorted by monomial. Two polynomials
/// are equal iff their canonical forms are equal, however each was built.
///
/// The map is a sorted `Vec` rather than a `BTreeMap`: vstd specifies
/// `BTreeMap` only for keys that obey its `Ord` model, and gives no such
/// model for `Vec<usize>` monomials, so a map keyed by them would carry no
/// usable contract.
#[derive(Clone, Debug, Default, PartialEq, Eq)]
pub struct Polynomial {
    terms: Vec<(Vec<usize>, i64)>,
}

impl View for Polynomial {
    type V = Seq<(Seq<usize>, int)>;

    closed spec fn view(&self) -> Seq<(Seq<usize>, int)> {
        term_view(self.terms@)
    }
}

impl Polynomial {
    /// The stored term list is canonical.
    pub open spec fn wf(&self) -> bool {
        wf_terms(self@)
    }

    /// The coefficient of monomial `m`.
    pub open spec fn coeff(&self, m: Seq<usize>) -> int {
        coeff_of(self@, m)
    }

    /// The value of the polynomial under the assignment `x`.
    pub open spec fn eval(&self, x: spec_fn(usize) -> int) -> int {
        eval_terms(self@, x)
    }

    /// The zero polynomial.
    pub fn zero() -> (r: Self)
        ensures
            r.wf(),
            r@ == Seq::<(Seq<usize>, int)>::empty(),
            forall|m: Seq<usize>| r.coeff(m) == 0,
    {
        let r = Polynomial { terms: Vec::new() };
        assert(r@ =~= Seq::<(Seq<usize>, int)>::empty());
        r
    }

    /// A constant polynomial.
    pub fn constant(value: i64) -> (r: Self)
        ensures
            r.wf(),
            forall|m: Seq<usize>| r.coeff(m) == if m.len() == 0 { value as int } else { 0 },
            forall|x: spec_fn(usize) -> int| r.eval(x) == value,
    {
        let mut terms: Vec<(Vec<usize>, i64)> = Vec::new();
        if value != 0 {
            terms.push((Vec::new(), value));
        }
        let r = Polynomial { terms };
        proof {
            let v = r@;
            if value != 0 {
                assert(v =~= seq![v[0]]);
                assert(v[0].0 =~= Seq::<usize>::empty());
                assert forall|m: Seq<usize>| r.coeff(m) == if m.len() == 0 { value as int } else { 0 } by {
                    lemma_sum_single(v[0], coeff_part(m));
                    if m.len() == 0 {
                        assert(m =~= v[0].0);
                    }
                }
                assert forall|x: spec_fn(usize) -> int| r.eval(x) == value by {
                    lemma_sum_single(v[0], eval_part(x));
                    assert(mono_val(v[0].0, x) == 1);
                }
            } else {
                assert(v.len() == 0);
            }
        }
        r
    }

    /// The polynomial `v_id` (coefficient 1, degree 1).
    pub fn variable(id: usize) -> (r: Self)
        ensures
            r.wf(),
            forall|m: Seq<usize>| r.coeff(m) == if m == seq![id] { 1int } else { 0 },
            forall|x: spec_fn(usize) -> int| r.eval(x) == x(id),
    {
        let mut mono: Vec<usize> = Vec::new();
        mono.push(id);
        let mut terms: Vec<(Vec<usize>, i64)> = Vec::new();
        terms.push((mono, 1));
        let r = Polynomial { terms };
        proof {
            let v = r@;
            assert(v =~= seq![v[0]]);
            assert(v[0].0 =~= seq![id]);
            assert forall|m: Seq<usize>| r.coeff(m) == if m == seq![id] { 1int } else { 0 } by {
                lemma_sum_single(v[0], coeff_part(m));
            }
            assert forall|x: spec_fn(usize) -> int| r.eval(x) == x(id) by {
                lemma_sum_single(v[0], eval_part(x));
                assert(v[0].0.drop_first() =~= Seq::<usize>::empty());
                assert(mono_val(Seq::<usize>::empty(), x) == 1);
                assert(mono_val(v[0].0, x) == x(id) * mono_val(v[0].0.drop_first(), x));
                assert(mono_val(v[0].0, x) == x(id));
                assert((eval_part(x))(v[0]) == v[0].1 * mono_val(v[0].0, x));
                assert(v[0].1 == 1);
                let c = v[0].1;
                let mv = mono_val(v[0].0, x);
                assert(c * mv == mv) by (nonlinear_arith)
                    requires c == 1;
            }
        }
        r
    }

    /// `true` if this polynomial is identically zero.
    pub fn is_zero(&self) -> (r: bool)
        requires self.wf(),
        ensures
            r == (self@.len() == 0),
            r == (forall|m: Seq<usize>| self.coeff(m) == 0),
    {
        proof {
            if self@.len() > 0 {
                lemma_coeff_wf(self@, self@[0].0);
                assert(self.coeff(self@[0].0) != 0);
            } else {
                assert forall|m: Seq<usize>| self.coeff(m) == 0 by {
                    lemma_coeff_wf(self@, m);
                }
            }
        }
        self.terms.len() == 0
    }

    /// Sum of two polynomials.
    pub fn add(self, rhs: Self) -> (r: Self)
        requires
            self.wf(),
            rhs.wf(),
            forall|m: Seq<usize>| fits(self.coeff(m) + rhs.coeff(m)),
        ensures
            r.wf(),
            forall|m: Seq<usize>| r.coeff(m) == self.coeff(m) + rhs.coeff(m),
            forall|x: spec_fn(usize) -> int| r.eval(x) == self.eval(x) + rhs.eval(x),
    {
        let ghost sv = self@;
        let ghost rv = rhs@;
        assert forall|m: Seq<usize>| fits(coeff_of(sv, m) + coeff_of(rv, m)) by {
            assert(fits(self.coeff(m) + rhs.coeff(m)));
        }
        let mut out = self.terms;
        let mut k: usize = 0;
        while k < rhs.terms.len()
            invariant
                k <= rhs.terms.len(),
                rv == term_view(rhs.terms@),
                wf_terms(rv),
                forall|m: Seq<usize>| fits(coeff_of(sv, m) + coeff_of(rv, m)),
                wf_terms(term_view(out@)),
                forall|m: Seq<usize>| coeff_of(term_view(out@), m) == coeff_of(sv, m) + coeff_of(rv.take(k as int), m),
                forall|x: spec_fn(usize) -> int| eval_terms(term_view(out@), x) == eval_terms(sv, x) + eval_terms(rv.take(k as int), x),
            decreases rhs.terms.len() - k,
        {
            let ghost pre = rv.take(k as int);
            let ghost t = rv[k as int];
            proof {
                assert(rv.take(k + 1) =~= pre.push(t));
                assert(wf_terms(pre));
                assert forall|j: int| 0 <= j < pre.len() implies pre[j].0 != t.0 by {
                    assert(mono_lt(rv[j].0, rv[k as int].0));
                    lemma_lex_irreflexive(t.0, 0);
                }
                lemma_coeff_wf(pre, t.0);
                lemma_coeff_wf(rv, t.0);
                assert forall|m: Seq<usize>| coeff_of(rv.take(k + 1), m) == coeff_of(pre, m) + (coeff_part(m))(t) by {
                    lemma_sum_push(pre, t, coeff_part(m));
                }
                assert forall|x: spec_fn(usize) -> int| eval_terms(rv.take(k + 1), x) == eval_terms(pre, x) + (eval_part(x))(t) by {
                    lemma_sum_push(pre, t, eval_part(x));
                }
            }
            let mono = copy_mono(&rhs.terms[k].0);
            add_term_vec(&mut out, mono, rhs.terms[k].1);
            k = k + 1;
        }
        assert(rv.take(k as int) =~= rv);
        Polynomial { terms: out }
    }

    /// Negation.
    pub fn neg(self) -> (r: Self)
        requires
            self.wf(),
            forall|m: Seq<usize>| fits(-self.coeff(m)),
        ensures
            r.wf(),
            forall|m: Seq<usize>| r.coeff(m) == -self.coeff(m),
            forall|x: spec_fn(usize) -> int| r.eval(x) == -self.eval(x),
    {
        let ghost sv = self@;
        assert forall|m: Seq<usize>| fits(-coeff_of(sv, m)) by {
            assert(fits(-self.coeff(m)));
        }
        let mut out: Vec<(Vec<usize>, i64)> = Vec::new();
        let mut k: usize = 0;
        while k < self.terms.len()
            invariant
                k <= self.terms.len(),
                sv == term_view(self.terms@),
                wf_terms(sv),
                forall|m: Seq<usize>| fits(-coeff_of(sv, m)),
                out.len() == k,
                forall|i: int| 0 <= i < k ==> (#[trigger] out@[i]).0@ == sv[i].0 && out@[i].1 as int == -sv[i].1,
            decreases self.terms.len() - k,
        {
            proof {
                lemma_coeff_wf(sv, sv[k as int].0);
            }
            let mono = copy_mono(&self.terms[k].0);
            let c = self.terms[k].1;
            out.push((mono, -c));
            k = k + 1;
        }
        let r = Polynomial { terms: out };
        proof {
            let nv = r@;
            assert(nv =~= neg_terms(sv));
            assert forall|a: int, b: int| 0 <= a < b < nv.len() implies mono_lt(#[trigger] nv[a].0, #[trigger] nv[b].0) by {
                assert(nv[a].0 == sv[a].0 && nv[b].0 == sv[b].0);
            }
            lemma_neg_sums(sv);
        }
        r
    }

    /// Product: every pair of terms is multiplied and accumulated in
    /// order; like terms are collected.
    #[verifier::rlimit(40)]
    pub fn mul(self, rhs: Self) -> (r: Self)
        requires
            self.wf(),
            rhs.wf(),
            mul_fits(self@, rhs@),
        ensures
            r.wf(),
            forall|m: Seq<usize>| r.coeff(m) == coeff_of(prod_terms(self@, rhs@), m),
            forall|x: spec_fn(usize) -> int| r.eval(x) == self.eval(x) * rhs.eval(x),
    {
        let ghost ps = self@;
        let ghost qs = rhs@;
        let ghost l = prod_terms(ps, qs);
        let mut out: Vec<(Vec<usize>, i64)> = Vec::new();
        proof {
            assert(ps.take(0) =~= Seq::<(Seq<usize>, int)>::empty());
            assert(term_view(out@) =~= Seq::<(Seq<usize>, int)>::empty());
        }
        let mut i: usize = 0;
        while i < self.terms.len()
            invariant
                i <= self.terms.len(),
                ps == term_view(self.terms@),
                qs == term_view(rhs.terms@),
                l == prod_terms(ps, qs),
                wf_terms(ps),
                wf_terms(qs),
                mul_fits(ps, qs),
                wf_terms(term_view(out@)),
                forall|m: Seq<usize>| coeff_of(term_view(out@), m) == coeff_of(prod_terms(ps.take(i as int), qs), m),
                forall|x: spec_fn(usize) -> int| eval_terms(term_view(out@), x) == eval_terms(prod_terms(ps.take(i as int), qs), x),
            decreases self.terms.len() - i,
        {
            let ghost pre = prod_terms(ps.take(i as int), qs);
            let ghost row = prod_row(ps[i as int], qs);
            proof {
                assert(ps.take(i + 1).drop_last() =~= ps.take(i as int));
                assert(prod_terms(ps.take(i + 1), qs) == pre + row);
                lemma_prod_prefix(ps, qs, i + 1);
                assert(row.take(0) =~= Seq::<(Seq<usize>, int)>::empty());
                assert(pre + row.take(0) =~= pre);
            }
            let mut j: usize = 0;
            while j < rhs.terms.len()
                invariant
                    i < self.terms.len(),
                    j <= rhs.terms.len(),
                    ps == term_view(self.terms@),
                    qs == term_view(rhs.terms@),
                    l == prod_terms(ps, qs),
                    wf_terms(ps),
                    wf_terms(qs),
                    mul_fits(ps, qs),
                    pre == prod_terms(ps.take(i as int), qs),
                    row == prod_row(ps[i as int], qs),
                    pre.len() + row.len() <= l.len(),
                    l.take((pre.len() + row.len()) as int) == pre + row,
                    wf_terms(term_view(out@)),
                    forall|m: Seq<usize>| coeff_of(term_view(out@), m) == coeff_of(pre + row.take(j as int), m),
                    forall|x: spec_fn(usize) -> int| eval_terms(term_view(out@), x) == eval_terms(pre + row.take(j as int), x),
                decreases rhs.terms.len() - j,
            {
                let ghost k: int = pre.len() + j;
                let ghost t = row[j as int];
                proof {
                    assert((pre + row).take(k + 1) =~= pre + row.take(j + 1));
                    assert(l.take(k + 1) =~= (pre + row).take(k + 1));
                    assert(l[k] == (pre + row)[k]);
                    assert(l[k] == t);
                    assert(fits(l[k].1));
                    assert(pre + row.take(j + 1) =~= (pre + row.take(j as int)).push(t));
                    assert forall|m: Seq<usize>| coeff_of(pre + row.take(j + 1), m) == coeff_of(pre + row.take(j as int), m) + (coeff_part(m))(t) by {
                        lemma_sum_push(pre + row.take(j as int), t, coeff_part(m));
                    }
                    assert forall|x: spec_fn(usize) -> int| eval_terms(pre + row.take(j + 1), x) == eval_terms(pre + row.take(j as int), x) + (eval_part(x))(t) by {
                        lemma_sum_push(pre + row.take(j as int), t, eval_part(x));
                    }
                    assert(fits(coeff_of(l.take(k + 1), l[k].0)));
                    assert(sorted_mono(ps[i as int].0));
                    assert(sorted_mono(qs[j as int].0));
                    lemma_merge_props(ps[i as int].0, qs[j as int].0, |v: usize| 0int);
                }
                let mono = merge_monos(&self.terms[i].0, &rhs.terms[j].0);
                let c = self.terms[i].1 * rhs.terms[j].1;
                add_term_vec(&mut out, mono, c);
                j = j + 1;
            }
            proof {
                assert(row.take(row.len() as int) =~= row);
            }
            i = i + 1;
        }
        proof {
            assert(ps.take(i as int) =~= ps);
            assert forall|x: spec_fn(usize) -> int| eval_terms(l, x) == eval_terms(ps, x) * eval_terms(qs, x) by {
                lemma_eval_prod(ps, qs, x);
            }
        }
        Polynomial { terms: out }
    }

    /// Difference: `self + (-rhs)`.
    pub fn sub(self, rhs: Self) -> (r: Self)
        requires
            self.wf(),
            rhs.wf(),
            forall|m: Seq<usize>| fits(-rhs.coeff(m)),
            forall|m: Seq<usize>| fits(self.coeff(m) - rhs.coeff(m)),
        ensures
            r.wf(),
            forall|m: Seq<usize>| r.coeff(m) == self.coeff(m) - rhs.coeff(m),
            forall|x: spec_fn(usize) -> int| r.eval(x) == self.eval(x) - rhs.eval(x),
    {
        let n = rhs.neg();
        self.add(n)
    }
}

/// The term list with every coefficient negated.
pub open spec fn neg_terms(s: Seq<(Seq<usize>, int)>) -> Seq<(Seq<usize>, int)> {
    s.map_values(|t: (Seq<usize>, int)| (t.0, -t.1))
}

pub proof fn lemma_sum_single(t: (Seq<usize>, int), f: spec_fn((Seq<usize>, int)) -> int)
    ensures sum_terms(seq![t], f) == f(t),
{
    assert(seq![t].drop_last() =~= Seq::<(Seq<usize>, int)>::empty());
    assert(sum_terms(Seq::<(Seq<usize>, int)>::empty(), f) == 0);
}

/// Negating every coefficient negates coefficient and value functions.
pub proof fn lemma_neg_sums(s: Seq<(Seq<usize>, int)>)
    ensures
        forall|m: Seq<usize>| coeff_of(neg_terms(s), m) == -coeff_of(s, m),
        forall|x: spec_fn(usize) -> int| eval_terms(neg_terms(s), x) == -eval_terms(s, x),
    decreases s.len(),
{
    let n = neg_terms(s);
    if s.len() > 0 {
        lemma_neg_sums(s.drop_last());
        assert(n.drop_last() =~= neg_terms(s.drop_last()));
        assert(n.last() == (s.last().0, -s.last().1));
        assert forall|m: Seq<usize>| coeff_of(n, m) == -coeff_of(s, m) by {
            assert(coeff_of(n, m) == coeff_of(n.drop_last(), m) + (coeff_part(m))(n.last()));
        }
        assert forall|x: spec_fn(usize) -> int| eval_terms(n, x) == -eval_terms(s, x) by {
            let c = s.last().1;
            let v = mono_val(s.last().0, x);
            assert((-c) * v == -(c * v)) by (nonlinear_arith);
            assert(eval_terms(n, x) == eval_terms(n.drop_last(), x) + (eval_part(x))(n.last()));
        }
    }
}


/// The text of a monomial: `*v{id}` for each of its ids.
pub open spec fn mono_text(m: Seq<usize>) -> Seq<char>
    decreases m.len(),
{
    if m.len() == 0 {
        Seq::empty()
    } else {
        mono_text(m.drop_last()) + "*v"@ + decimal(m.last() as nat)
    }
}

/// The text of a non-empty term list: the first coefficient with its sign,
/// then ` + c` or ` - c` for each further term, each followed by its monomial.
pub open spec fn terms_text(s: Seq<(Seq<usize>, int)>) -> Seq<char>
    decreases s.len(),
{
    if s.len() == 0 {
        Seq::empty()
    } else if s.len() == 1 {
        int_text(s[0].1) + mono_text(s[0].0)
    } else {
        terms_text(s.drop_last()) + (if s.last().1 >= 0 {
            " + "@ + decimal(s.last().1 as nat)
        } else {
            " - "@ + decimal((-s.last().1) as nat)
        }) + mono_text(s.last().0)
    }
}

/// The readable text of a polynomial (`0` for the zero polynomial).
pub open spec fn poly_text(s: Seq<(Seq<usize>, int)>) -> Seq<char> {
    if s.len() == 0 {
        "0"@
    } else {
        terms_text(s)
    }
}

fn push_mono(out: &mut String, m: &Vec<usize>)
    ensures final(out)@ == old(out)@ + mono_text(m@),
{
    let mut i: usize = 0;
    while i < m.len()
        invariant
            i <= m.len(),
            out@ == old(out)@ + mono_text(m@.take(i as int)),
        decreases m.len() - i,
    {
        out.append("*v");
        push_decimal(out, m[i] as u64);
        proof {
            assert(m@.take(i + 1).drop_last() =~= m@.take(i as int));
        }
        i = i + 1;
        assert(out@ =~= old(out)@ + mono_text(m@.take(i as int)));
    }
    assert(m@.take(i as int) =~= m@);
}

impl Polynomial {
    /// A copy of this polynomial.
    pub(crate) fn copy_of(&self) -> (r: Self)
        ensures r@ == self@,
    {
        let mut terms: Vec<(Vec<usize>, i64)> = Vec::new();
        let mut i: usize = 0;
        while i < self.terms.len()
            invariant
                i <= self.terms.len(),
                terms.len() == i,
                forall|k: int| 0 <= k < i ==> (#[trigger] terms@[k]).0@ == self.terms@[k].0@ && terms@[k].1 == self.terms@[k].1,
            decreases self.terms.len() - i,
        {
            let m = copy_mono(&self.terms[i].0);
            terms.push((m, self.terms[i].1));
            i = i + 1;
        }
        let r = Polynomial { terms };
        assert(r@ =~= self@);
        r
    }

    /// Structural equality of canonical forms.
    pub fn equals(&self, other: &Self) -> (r: bool)
        ensures r == (self@ == other@),
    {
        if self.terms.len() != other.terms.len() {
            assert(self@.len() != other@.len());
            return false;
        }
        let mut i: usize = 0;
        while i < self.terms.len()
            invariant
                i <= self.terms.len(),
                self.terms.len() == other.terms.len(),
                forall|j: int| 0 <= j < i ==> #[trigger] self@[j] == other@[j],
            decreases self.terms.len() - i,
        {
            if compare_monomials(&self.terms[i].0, &other.terms[i].0) != 0 || self.terms[i].1 != other.terms[i].1 {
                assert(self@[i as int] != other@[i as int]);
                return false;
            }
            assert(self@[i as int] == other@[i as int]);
            i = i + 1;
        }
        assert(self@ =~= other@);
        true
    }

    /// Renders the polynomial as readable text, e.g. `-4 + 1*v0*v0`.
    pub fn to_string(&self) -> (r: String)
        requires
            forall|k: int| 1 <= k < self@.len() ==> self@[k].1 != i64::MIN,
        ensures r@ == poly_text(self@),
    {
        let mut out = String::new();
        if self.terms.len() == 0 {
            out.append("0");
            assert(out@ =~= poly_text(self@));
            return out;
        }
        let ghost v = self@;
        let mut i: usize = 0;
        while i < self.terms.len()
            invariant
                i <= self.terms.len(),
                v == self@,
                v.len() > 0,
                forall|k: int| 1 <= k < v.len() ==> v[k].1 != i64::MIN,
                out@ == terms_text(v.take(i as int)),
            decreases self.terms.len() - i,
        {
            let c = self.terms[i].1;
            assert(v[i as int].1 == c as int);
            if i == 0 {
                push_int(&mut out, c);
            } else if c >= 0 {
                out.append(" + ");
                push_decimal(&mut out, c as u64);
            } else {
                out.append(" - ");
                push_decimal(&mut out, (-c) as u64);
            }
            push_mono(&mut out, &self.terms[i].0);
            proof {
                let t = v.take(i + 1);
                assert(t.drop_last() =~= v.take(i as int));
                if i == 0 {
                    assert(t =~= seq![v[0]]);
                }
            }
            i = i + 1;
            assert(out@ =~= terms_text(v.take(i as int)));
        }
        assert(v.take(i as int) =~= v);
        out
    }
}

/// Two polynomials that were expected to be identical but are not.
#[derive(Clone, Debug, PartialEq, Eq)]
pub struct Mismatch {
    /// The polynomial actually found.
    pub found: Polynomial,
    /// The polynomial it was expected to equal.
    pub expected: Polynomial,
}

impl Mismatch {
    /// Renders `expected `<expected>` but found `<found>``.
    pub fn to_string(&self) -> (r: String)
        requires
            forall|k: int| 1 <= k < self.found@.len() ==> self.found@[k].1 != i64::MIN,
            forall|k: int| 1 <= k < self.expected@.len() ==> self.expected@[k].1 != i64::MIN,
        ensures
            r@ == "expected `"@ + poly_text(self.expected@) + "` but found `"@ + poly_text(self.found@) + "`"@,
    {
        let mut out = String::new();
        out.append("expected `");
        let e = self.expected.to_string();
        out.append(e.as_str());
        out.append("` but found `");
        let f = self.found.to_string();
        out.append(f.as_str());
        out.append("`");
        assert(out@ =~= "expected `"@ + poly_text(self.expected@) + "` but found `"@ + poly_text(self.found@) + "`"@);
        out
    }
}

/// Checks that two polynomials are identical, returning a [`Mismatch`]
/// holding both when they are not.
pub fn expect_equal(found: Polynomial, expected: Polynomial) -> (r: Result<(), Mismatch>)
    ensures
        r is Ok <==> found@ == expected@,
        r matches Err(mm) ==> mm.found == found && mm.expected == expected,
{
    if found.equals(&expected) {
        Ok(())
    } else {
        Err(Mismatch { found, expected })
    }
}

/// Canonicity: two well-formed polynomials have the same canonical form
/// exactly when every monomial has the same coefficient in both.
pub proof fn lemma_equal_iff_same_coefficients(p: Polynomial, q: Polynomial)
    requires p.wf(), q.wf(),
    ensures p@ == q@ <==> (forall|m: Seq<usize>| p.coeff(m) == q.coeff(m)),
{
    if forall|m: Seq<usize>| p.coeff(m) == q.coeff(m) {
        assert forall|m: Seq<usize>| coeff_of(p@, m) == coeff_of(q@, m) by {
            assert(p.coeff(m) == q.coeff(m));
        }
        lemma_canonical_unique(p@, q@);
    }
}

/// Equal canonical forms evaluate equally under every assignment.
pub proof fn lemma_equal_forms_evaluate_equally(p: Polynomial, q: Polynomial, x: spec_fn(usize) -> int)
    requires p@ == q@,
    ensures p.eval(x) == q.eval(x),
{
}


/// Addition is commutative: a sum `s` of `p` and `q` and a sum `t` of `q`
/// and `p` are the same polynomial.
pub proof fn law_add_commutes(p: Polynomial, q: Polynomial, s: Polynomial, t: Polynomial)
    requires
        p.wf(),
        q.wf(),
        s.wf(),
        t.wf(),
        forall|m: Seq<usize>| s.coeff(m) == p.coeff(m) + q.coeff(m),
        forall|m: Seq<usize>| t.coeff(m) == q.coeff(m) + p.coeff(m),
    ensures s@ == t@,
{
    lemma_equal_iff_same_coefficients(s, t);
}

/// Addition is associative: `(p + q) + r` and `p + (q + r)` are the same
/// polynomial, where `pq` is a sum of `p` and `q`, `s` of `pq` and `r`,
/// `qr` of `q` and `r`, and `t` of `p` and `qr`.
pub proof fn law_add_associates(p: Polynomial, q: Polynomial, r: Polynomial, pq: Polynomial, s: Polynomial, qr: Polynomial, t: Polynomial)
    requires
        p.wf(),
        q.wf(),
        r.wf(),
        pq.wf(),
        s.wf(),
        qr.wf(),
        t.wf(),
        forall|m: Seq<usize>| pq.coeff(m) == p.coeff(m) + q.coeff(m),
        forall|m: Seq<usize>| s.coeff(m) == pq.coeff(m) + r.coeff(m),
        forall|m: Seq<usize>| qr.coeff(m) == q.coeff(m) + r.coeff(m),
        forall|m: Seq<usize>| t.coeff(m) == p.coeff(m) + qr.coeff(m),
    ensures s@ == t@,
{
    assert forall|m: Seq<usize>| s.coeff(m) == t.coeff(m) by {
        assert(pq.coeff(m) == p.coeff(m) + q.coeff(m));
        assert(qr.coeff(m) == q.coeff(m) + r.coeff(m));
    }
    lemma_equal_iff_same_coefficients(s, t);
}

/// Zero is the identity of addition: a sum of `p` and the zero polynomial
/// is `p`.
pub proof fn law_add_zero(p: Polynomial, z: Polynomial, s: Polynomial)
    requires
        p.wf(),
        z.wf(),
        s.wf(),
        forall|m: Seq<usize>| z.coeff(m) == 0,
        forall|m: Seq<usize>| s.coeff(m) == p.coeff(m) + z.coeff(m),
    ensures s@ == p@,
{
    lemma_equal_iff_same_coefficients(s, p);
}

/// A polynomial minus itself is zero: a difference `d` of `p` and `p` has
/// no terms.
pub proof fn law_sub_self_is_zero(p: Polynomial, d: Polynomial)
    requires
        p.wf(),
        d.wf(),
        forall|m: Seq<usize>| d.coeff(m) == p.coeff(m) - p.coeff(m),
    ensures d@.len() == 0,
{
    if d@.len() > 0 {
        lemma_coeff_wf(d@, d@[0].0);
        assert(d.coeff(d@[0].0) == 0);
    }
}

/// Multiplication is commutative: a product `s` of `p` and `q` and a
/// product `t` of `q` and `p` are the same polynomial.
pub proof fn law_mul_commutes(p: Polynomial, q: Polynomial, s: Polynomial, t: Polynomial)
    requires
        p.wf(),
        q.wf(),
        s.wf(),
        t.wf(),
        forall|m: Seq<usize>| s.coeff(m) == coeff_of(prod_terms(p@, q@), m),
        forall|m: Seq<usize>| t.coeff(m) == coeff_of(prod_terms(q@, p@), m),
    ensures s@ == t@,
{
    assert forall|m: Seq<usize>| s.coeff(m) == t.coeff(m) by {
        lemma_prod_coeff_commutes(p@, q@, m);
    }
    lemma_equal_iff_same_coefficients(s, t);
}

/// Multiplication is associative: `(p * q) * r` and `p * (q * r)` are the
/// same polynomial, where `pq` is a product of `p` and `q`, `s` of `pq` and
/// `r`, `qr` of `q` and `r`, and `t` of `p` and `qr`.
pub proof fn law_mul_associates(p: Polynomial, q: Polynomial, r: Polynomial, pq: Polynomial, s: Polynomial, qr: Polynomial, t: Polynomial)
    requires
        p.wf(),
        q.wf(),
        r.wf(),
        pq.wf(),
        s.wf(),
        qr.wf(),
        t.wf(),
        forall|m: Seq<usize>| pq.coeff(m) == coeff_of(prod_terms(p@, q@), m),
        forall|m: Seq<usize>| s.coeff(m) == coeff_of(prod_terms(pq@, r@), m),
        forall|m: Seq<usize>| qr.coeff(m) == coeff_of(prod_terms(q@, r@), m),
        forall|m: Seq<usize>| t.coeff(m) == coeff_of(prod_terms(p@, qr@), m),
    ensures s@ == t@,
{
    assert forall|m: Seq<usize>| s.coeff(m) == t.coeff(m) by {
        assert forall|nu: Seq<usize>| coeff_of(pq@, nu) == coeff_of(prod_terms(p@, q@), nu) by {
            assert(pq.coeff(nu) == coeff_of(prod_terms(p@, q@), nu));
        }
        assert forall|nu: Seq<usize>| coeff_of(prod_terms(q@, r@), nu) == coeff_of(qr@, nu) by {
            assert(qr.coeff(nu) == coeff_of(prod_terms(q@, r@), nu));
        }
        lemma_prod_left_coeffs(pq@, prod_terms(p@, q@), r@, m);
        lemma_prod_rotate(p@, q@, r@, m);
        lemma_prod_left_coeffs(prod_terms(q@, r@), qr@, p@, m);
        lemma_prod_coeff_commutes(qr@, p@, m);
    }
    lemma_equal_iff_same_coefficients(s, t);
}

/// Multiplication distributes over addition: `p * (q + r)` and
/// `p * q + p * r` are the same polynomial, where `qr` is a sum of `q` and
/// `r`, `s` a product of `p` and `qr`, `pq` and `pr` products of `p` with
/// `q` and `r`, and `t` a sum of `pq` and `pr`.
pub proof fn law_mul_distributes(p: Polynomial, q: Polynomial, r: Polynomial, qr: Polynomial, s: Polynomial, pq: Polynomial, pr: Polynomial, t: Polynomial)
    requires
        p.wf(),
        q.wf(),
        r.wf(),
        qr.wf(),
        s.wf(),
        pq.wf(),
        pr.wf(),
        t.wf(),
        forall|m: Seq<usize>| qr.coeff(m) == q.coeff(m) + r.coeff(m),
        forall|m: Seq<usize>| s.coeff(m) == coeff_of(prod_terms(p@, qr@), m),
        forall|m: Seq<usize>| pq.coeff(m) == coeff_of(prod_terms(p@, q@), m),
        forall|m: Seq<usize>| pr.coeff(m) == coeff_of(prod_terms(p@, r@), m),
        forall|m: Seq<usize>| t.coeff(m) == pq.coeff(m) + pr.coeff(m),
    ensures s@ == t@,
{
    assert forall|m: Seq<usize>| s.coeff(m) == t.coeff(m) by {
        assert forall|nu: Seq<usize>| coeff_of(qr@, nu) == coeff_of(q@ + r@, nu) by {
            assert(qr.coeff(nu) == q.coeff(nu) + r.coeff(nu));
            lemma_sum_concat(q@, r@, coeff_part(nu));
        }
        lemma_prod_coeff_commutes(p@, qr@, m);
        lemma_prod_left_coeffs(qr@, q@ + r@, p@, m);
        lemma_prod_concat_left(q@, r@, p@);
        lemma_sum_concat(prod_terms(q@, p@), prod_terms(r@, p@), coeff_part(m));
        lemma_prod_coeff_commutes(q@, p@, m);
        lemma_prod_coeff_commutes(r@, p@, m);
        assert(pq.coeff(m) == coeff_of(prod_terms(p@, q@), m));
        assert(pr.coeff(m) == coeff_of(prod_terms(p@, r@), m));
    }
    lemma_equal_iff_same_coefficients(s, t);
}


/// A polynomial plus its negation is zero: a sum `s` of `p` and a negation
/// `n` of `p` has no terms.
pub proof fn law_add_neg_is_zero(p: Polynomial, n: Polynomial, s: Polynomial)
    requires
        p.wf(),
        n.wf(),
        s.wf(),
        forall|m: Seq<usize>| n.coeff(m) == -p.coeff(m),
        forall|m: Seq<usize>| s.coeff(m) == p.coeff(m) + n.coeff(m),
    ensures s@ == Seq::<(Seq<usize>, int)>::empty(),
{
    if s@.len() > 0 {
        lemma_coeff_wf(s@, s@[0].0);
        assert(s.coeff(s@[0].0) == p.coeff(s@[0].0) + n.coeff(s@[0].0));
    }
    assert(s@ =~= Seq::<(Seq<usize>, int)>::empty());
}

/// Multiplying every term of `ps` by the constant term `1` gives `ps` back.
pub proof fn lemma_prod_one_right(ps: Seq<(Seq<usize>, int)>)
    ensures prod_terms(ps, seq![(Seq::<usize>::empty(), 1int)]) =~= ps,
    decreases ps.len(),
{
    if ps.len() > 0 {
        lemma_prod_one_right(ps.drop_last());
        let t = ps.last();
        assert(merge_mono(t.0, Seq::<usize>::empty()) == t.0);
        assert(prod_row(t, seq![(Seq::<usize>::empty(), 1int)]) =~= seq![t]);
        assert(ps.drop_last() + seq![t] =~= ps);
    }
}

/// A canonical polynomial whose only coefficient is `1` at the empty
/// monomial is the single constant term `1`.
pub proof fn lemma_one_view(one: Polynomial)
    requires
        one.wf(),
        forall|m: Seq<usize>| one.coeff(m) == if m.len() == 0 { 1int } else { 0 },
    ensures one@ == seq![(Seq::<usize>::empty(), 1int)],
{
    let t = seq![(Seq::<usize>::empty(), 1int)];
    assert(wf_terms(t));
    assert forall|m: Seq<usize>| coeff_of(one@, m) == coeff_of(t, m) by {
        lemma_sum_single(t[0], coeff_part(m));
        assert(one.coeff(m) == coeff_of(one@, m));
        if m.len() == 0 {
            assert(m =~= Seq::<usize>::empty());
        }
    }
    lemma_canonical_unique(one@, t);
}

/// One is the identity of multiplication: a product `s` of `p` and the
/// constant polynomial `1` is `p`.
pub proof fn law_mul_one(p: Polynomial, one: Polynomial, s: Polynomial)
    requires
        p.wf(),
        one.wf(),
        s.wf(),
        forall|m: Seq<usize>| one.coeff(m) == if m.len() == 0 { 1int } else { 0 },
        forall|m: Seq<usize>| s.coeff(m) == coeff_of(prod_terms(p@, one@), m),
    ensures s@ == p@,
{
    lemma_one_view(one);
    lemma_prod_one_right(p@);
    assert forall|m: Seq<usize>| s.coeff(m) == p.coeff(m) by {}
    lemma_equal_iff_same_coefficients(s, p);
}

/// Zero annihilates: a product `s` of `p` and the zero polynomial `z` has
/// no terms.
pub proof fn law_mul_zero(p: Polynomial, z: Polynomial, s: Polynomial)
    requires
        p.wf(),
        z.wf(),
        s.wf(),
        forall|m: Seq<usize>| z.coeff(m) == 0,
        forall|m: Seq<usize>| s.coeff(m) == coeff_of(prod_terms(p@, z@), m),
    ensures s@ == Seq::<(Seq<usize>, int)>::empty(),
{
    if z@.len() > 0 {
        lemma_coeff_wf(z@, z@[0].0);
        assert(z.coeff(z@[0].0) == 0);
    }
    assert(z@ =~= Seq::<(Seq<usize>, int)>::empty());
    lemma_prod_empty_right(p@);
    if s@.len() > 0 {
        lemma_coeff_wf(s@, s@[0].0);
        assert(s.coeff(s@[0].0) == coeff_of(Seq::<(Seq<usize>, int)>::empty(), s@[0].0));
    }
    assert(s@ =~= Seq::<(Seq<usize>, int)>::empty());
}


/// Adding `coeff · mono` to a canonical term list changes only the
/// coefficient of `mono`: every other monomial keeps its coefficient, a zero
/// `coeff` leaves the list as it was, and `mono` is listed afterwards exactly
/// when its new coefficient is not zero.
pub proof fn law_add_term_effect(before: Seq<(Seq<usize>, int)>, after: Seq<(Seq<usize>, int)>, mono: Seq<usize>, coeff: int)
    requires
        wf_terms(before),
        wf_terms(after),
        forall|m: Seq<usize>| #[trigger] coeff_of(after, m) == coeff_of(before, m) + (if m == mono { coeff } else { 0 }),
    ensures
        forall|m: Seq<usize>| m != mono ==> #[trigger] coeff_of(after, m) == coeff_of(before, m),
        coeff_of(after, mono) == coeff_of(before, mono) + coeff,
        coeff == 0 ==> after == before,
        (exists|k: int| 0 <= k < after.len() && (#[trigger] after[k]).0 == mono) <==> coeff_of(before, mono) + coeff != 0,
{
    assert(coeff_of(after, mono) == coeff_of(before, mono) + coeff);
    if coeff == 0 {
        assert forall|m: Seq<usize>| coeff_of(after, m) == coeff_of(before, m) by {
            assert(coeff_of(after, m) == coeff_of(before, m) + (if m == mono { coeff } else { 0 }));
        }
        lemma_canonical_unique(after, before);
    }
    lemma_coeff_wf(after, mono);
}

} // verus!
