//! Checking a [`ConstraintSystem`] against the comparison it should encode,
//! by exact polynomial identity, and evaluating it on concrete inputs.
use vstd::prelude::*;

use crate::circuit::{Constraint, ConstraintSystem, Expr, ExprId, Scalar};
use crate::poly::{
    coeff_of, eval_terms, expect_equal, fits, lemma_canonical_unique, mul_fits, prod_terms,
    wf_terms, Mismatch, Polynomial,
};

verus! {

/// Which comparison a [`Constraint`] is supposed to encode.
#[derive(Clone, Copy, Debug, PartialEq, Eq, Structural)]
pub enum Comparison {
    /// `lhs >= rhs`
    Ge,
    /// `lhs <= rhs`
    Le,
    /// `lhs > rhs`
    Gt,
    /// `lhs < rhs`
    Lt,
    /// `lhs == rhs`
    Eq,
}

/// The canonical term list whose coefficient function is `f`.
pub open spec fn canon(f: spec_fn(Seq<usize>) -> int) -> Seq<(Seq<usize>, int)> {
    choose|s: Seq<(Seq<usize>, int)>| wf_terms(s) && forall|m: Seq<usize>| #[trigger] coeff_of(s, m) == f(m)
}

/// A canonical list is the canonical form of its own coefficient function.
pub proof fn lemma_canon(s: Seq<(Seq<usize>, int)>, f: spec_fn(Seq<usize>) -> int)
    requires
        wf_terms(s),
        forall|m: Seq<usize>| #[trigger] coeff_of(s, m) == f(m),
    ensures canon(f) == s,
{
    let c = canon(f);
    assert(wf_terms(c) && forall|m: Seq<usize>| #[trigger] coeff_of(c, m) == f(m));
    lemma_canonical_unique(c, s);
}

/// Canonical sum of two term lists.
pub open spec fn sum_view(a: Seq<(Seq<usize>, int)>, b: Seq<(Seq<usize>, int)>) -> Seq<(Seq<usize>, int)> {
    canon(|m: Seq<usize>| coeff_of(a, m) + coeff_of(b, m))
}

/// Canonical difference of two term lists.
pub open spec fn diff_view(a: Seq<(Seq<usize>, int)>, b: Seq<(Seq<usize>, int)>) -> Seq<(Seq<usize>, int)> {
    canon(|m: Seq<usize>| coeff_of(a, m) - coeff_of(b, m))
}

/// Canonical negation of a term list.
pub open spec fn neg_view(a: Seq<(Seq<usize>, int)>) -> Seq<(Seq<usize>, int)> {
    canon(|m: Seq<usize>| -coeff_of(a, m))
}

/// Canonical product of two term lists.
pub open spec fn prod_view(a: Seq<(Seq<usize>, int)>, b: Seq<(Seq<usize>, int)>) -> Seq<(Seq<usize>, int)> {
    canon(|m: Seq<usize>| coeff_of(prod_terms(a, b), m))
}

/// Each expression refers only to expressions before it.
pub open spec fn exprs_ordered(exprs: Seq<Expr>) -> bool {
    forall|id: int|
        0 <= id < exprs.len() ==> match #[trigger] exprs[id] {
            Expr::Add(l, r) | Expr::Sub(l, r) | Expr::Mul(l, r) => l < id && r < id,
            Expr::Neg(e) => e < id,
            _ => true,
        }
}

/// The canonical polynomial of expression `id` (variables are polynomial
/// variables by their variable index).
pub open spec fn expr_terms(exprs: Seq<Expr>, id: int) -> Seq<(Seq<usize>, int)>
    decreases id,
{
    if id < 0 || id >= exprs.len() {
        Seq::empty()
    } else {
        match exprs[id] {
            Expr::Const(v) => canon(|m: Seq<usize>| if m.len() == 0 { v as int } else { 0 }),
            Expr::Var(i) => canon(|m: Seq<usize>| if m == seq![i] { 1int } else { 0 }),
            Expr::Add(l, r) => if l < id && r < id {
                sum_view(expr_terms(exprs, l as int), expr_terms(exprs, r as int))
            } else {
                Seq::empty()
            },
            Expr::Sub(l, r) => if l < id && r < id {
                diff_view(expr_terms(exprs, l as int), expr_terms(exprs, r as int))
            } else {
                Seq::empty()
            },
            Expr::Mul(l, r) => if l < id && r < id {
                prod_view(expr_terms(exprs, l as int), expr_terms(exprs, r as int))
            } else {
                Seq::empty()
            },
            Expr::Neg(e) => if e < id {
                neg_view(expr_terms(exprs, e as int))
            } else {
                Seq::empty()
            },
        }
    }
}

/// Integer value of expression `id` when variable `i` has value `x(i)`.
pub open spec fn expr_value(exprs: Seq<Expr>, id: int, x: spec_fn(usize) -> int) -> int
    decreases id,
{
    if id < 0 || id >= exprs.len() {
        0
    } else {
        match exprs[id] {
            Expr::Const(v) => v as int,
            Expr::Var(i) => x(i),
            Expr::Add(l, r) => if l < id && r < id {
                expr_value(exprs, l as int, x) + expr_value(exprs, r as int, x)
            } else {
                0
            },
            Expr::Sub(l, r) => if l < id && r < id {
                expr_value(exprs, l as int, x) - expr_value(exprs, r as int, x)
            } else {
                0
            },
            Expr::Mul(l, r) => if l < id && r < id {
                expr_value(exprs, l as int, x) * expr_value(exprs, r as int, x)
            } else {
                0
            },
            Expr::Neg(e) => if e < id {
                -expr_value(exprs, e as int, x)
            } else {
                0
            },
        }
    }
}

/// Normalizing expression `id` stays within `i64` coefficients.
pub open spec fn expr_step_fits(exprs: Seq<Expr>, id: int) -> bool {
    match exprs[id] {
        Expr::Add(l, r) => forall|m: Seq<usize>|
            fits(#[trigger] coeff_of(expr_terms(exprs, l as int), m) + coeff_of(expr_terms(exprs, r as int), m)),
        Expr::Sub(l, r) => forall|m: Seq<usize>|
            fits(-coeff_of(expr_terms(exprs, r as int), m)) && fits(
                #[trigger] coeff_of(expr_terms(exprs, l as int), m) - coeff_of(expr_terms(exprs, r as int), m),
            ),
        Expr::Mul(l, r) => mul_fits(expr_terms(exprs, l as int), expr_terms(exprs, r as int)),
        Expr::Neg(e) => forall|m: Seq<usize>| fits(-#[trigger] coeff_of(expr_terms(exprs, e as int), m)),
        _ => true,
    }
}

/// Every normalization step stays within `i64` coefficients.
pub open spec fn normalize_fits(exprs: Seq<Expr>) -> bool {
    forall|id: int| 0 <= id < exprs.len() ==> #[trigger] expr_step_fits(exprs, id)
}


/// Computes the canonical polynomial of every expression in `cs`, indexed by
/// [`ExprId`], in a single forward pass.
pub fn normalize_all(cs: &ConstraintSystem) -> (table: Vec<Polynomial>)
    requires
        exprs_ordered(cs.exprs@),
        normalize_fits(cs.exprs@),
    ensures
        table@.len() == cs.exprs@.len(),
        forall|id: int| 0 <= id < table@.len() ==> (#[trigger] table@[id]).wf() && table@[id]@ == expr_terms(cs.exprs@, id),
        forall|id: int, x: spec_fn(usize) -> int| 0 <= id < table@.len() ==> #[trigger] table@[id].eval(x) == expr_value(cs.exprs@, id, x),
{
    let ghost ex = cs.exprs@;
    let mut table: Vec<Polynomial> = Vec::new();
    let mut id: usize = 0;
    while id < cs.exprs.len()
        invariant
            id <= cs.exprs.len(),
            ex == cs.exprs@,
            exprs_ordered(ex),
            normalize_fits(ex),
            table@.len() == id,
            forall|j: int| 0 <= j < id ==> (#[trigger] table@[j]).wf() && table@[j]@ == expr_terms(ex, j),
            forall|j: int, x: spec_fn(usize) -> int| 0 <= j < id ==> #[trigger] table@[j].eval(x) == expr_value(ex, j, x),
        decreases cs.exprs.len() - id,
    {
        let e = cs.exprs[id];
        assert(ex[id as int] == e);
        assert(expr_step_fits(ex, id as int));
        let p = match e {
            Expr::Const(v) => {
                let p = Polynomial::constant(v);
                proof {
                    let f = |m: Seq<usize>| if m.len() == 0 { v as int } else { 0 };
                    assert forall|m: Seq<usize>| #[trigger] coeff_of(p@, m) == f(m) by {
                        assert(p.coeff(m) == if m.len() == 0 { v as int } else { 0 });
                    }
                    lemma_canon(p@, f);
                }
                p
            },
            Expr::Var(i) => {
                let p = Polynomial::variable(i);
                proof {
                    let f = |m: Seq<usize>| if m == seq![i] { 1int } else { 0 };
                    assert forall|m: Seq<usize>| #[trigger] coeff_of(p@, m) == f(m) by {
                        assert(p.coeff(m) == if m == seq![i] { 1int } else { 0 });
                    }
                    lemma_canon(p@, f);
                }
                p
            },
            Expr::Add(l, r) => {
                let a = table[l].copy_of();
                let b = table[r].copy_of();
                let p = a.add(b);
                proof {
                    let f = |m: Seq<usize>| coeff_of(a@, m) + coeff_of(b@, m);
                    assert forall|m: Seq<usize>| #[trigger] coeff_of(p@, m) == f(m) by {
                        assert(p.coeff(m) == a.coeff(m) + b.coeff(m));
                    }
                    lemma_canon(p@, f);
                }
                p
            },
            Expr::Sub(l, r) => {
                let a = table[l].copy_of();
                let b = table[r].copy_of();
                proof {
                    assert forall|m: Seq<usize>| fits(-b.coeff(m)) && fits(a.coeff(m) - b.coeff(m)) by {
                        assert(coeff_of(expr_terms(ex, l as int), m) == a.coeff(m));
                    }
                }
                let p = a.sub(b);
                proof {
                    let f = |m: Seq<usize>| coeff_of(a@, m) - coeff_of(b@, m);
                    assert forall|m: Seq<usize>| #[trigger] coeff_of(p@, m) == f(m) by {
                        assert(p.coeff(m) == a.coeff(m) - b.coeff(m));
                    }
                    lemma_canon(p@, f);
                }
                p
            },
            Expr::Mul(l, r) => {
                let a = table[l].copy_of();
                let b = table[r].copy_of();
                let p = a.mul(b);
                proof {
                    let f = |m: Seq<usize>| coeff_of(prod_terms(a@, b@), m);
                    assert forall|m: Seq<usize>| #[trigger] coeff_of(p@, m) == f(m) by {
                        assert(p.coeff(m) == coeff_of(prod_terms(a@, b@), m));
                    }
                    lemma_canon(p@, f);
                }
                p
            },
            Expr::Neg(n) => {
                let a = table[n].copy_of();
                let p = a.neg();
                proof {
                    let f = |m: Seq<usize>| -coeff_of(a@, m);
                    assert forall|m: Seq<usize>| #[trigger] coeff_of(p@, m) == f(m) by {
                        assert(p.coeff(m) == -a.coeff(m));
                    }
                    lemma_canon(p@, f);
                }
                p
            },
        };
        proof {
            assert forall|x: spec_fn(usize) -> int| p.eval(x) == expr_value(ex, id as int, x) by {
                match e {
                    Expr::Add(l, r) | Expr::Sub(l, r) | Expr::Mul(l, r) => {
                        assert(table@[l as int].eval(x) == expr_value(ex, l as int, x));
                        assert(table@[r as int].eval(x) == expr_value(ex, r as int, x));
                    },
                    Expr::Neg(n) => {
                        assert(table@[n as int].eval(x) == expr_value(ex, n as int, x));
                    },
                    _ => {},
                }
            }
        }
        table.push(p);
        id = id + 1;
    }
    table
}


/// The canonical views of a table of polynomials.
pub open spec fn views(table: Seq<Polynomial>) -> Seq<Seq<(Seq<usize>, int)>> {
    table.map_values(|p: Polynomial| p@)
}

/// The canonical constant polynomial `1`.
pub open spec fn one_view() -> Seq<(Seq<usize>, int)> {
    canon(|m: Seq<usize>| if m.len() == 0 { 1int } else { 0 })
}

/// The polynomial that `lhs <kind> rhs` requires its constraint to encode:
/// `lhs - rhs` for `>=` and `==`, `rhs - lhs` for `<=`, and one less than
/// those for the strict comparisons.
pub open spec fn expected_view(t: Seq<Seq<(Seq<usize>, int)>>, kind: Comparison, lhs: int, rhs: int) -> Seq<(Seq<usize>, int)> {
    match kind {
        Comparison::Ge | Comparison::Eq => diff_view(t[lhs], t[rhs]),
        Comparison::Le => diff_view(t[rhs], t[lhs]),
        Comparison::Gt => diff_view(diff_view(t[lhs], t[rhs]), one_view()),
        Comparison::Lt => diff_view(diff_view(t[rhs], t[lhs]), one_view()),
    }
}

/// The polynomial a constraint encodes: its expression for `NonNegative`
/// and `Zero`, the difference of its sides for `Equal`.
pub open spec fn found_view(t: Seq<Seq<(Seq<usize>, int)>>, c: Constraint) -> Seq<(Seq<usize>, int)> {
    match c {
        Constraint::NonNegative(e) | Constraint::Zero(e) => t[e as int],
        Constraint::Equal(l, r) => diff_view(t[l as int], t[r as int]),
    }
}

/// Subtracting `b` from `a` stays within `i64` coefficients.
pub open spec fn diff_fits(a: Seq<(Seq<usize>, int)>, b: Seq<(Seq<usize>, int)>) -> bool {
    forall|m: Seq<usize>| fits(-#[trigger] coeff_of(b, m)) && fits(coeff_of(a, m) - coeff_of(b, m))
}

/// Computing `a - b - 1` stays within `i64` coefficients.
pub open spec fn diff_one_fits(a: Seq<(Seq<usize>, int)>, b: Seq<(Seq<usize>, int)>) -> bool {
    &&& diff_fits(a, b)
    &&& forall|m: Seq<usize>| fits(#[trigger] coeff_of(a, m) - coeff_of(b, m) - (if m.len() == 0 { 1int } else { 0 }))
}

/// The constraint refers to rows of a table of `n` rows.
pub open spec fn constraint_in_range(c: Constraint, n: int) -> bool {
    match c {
        Constraint::NonNegative(e) | Constraint::Zero(e) => e < n,
        Constraint::Equal(l, r) => l < n && r < n,
    }
}

/// Checking `lhs <kind> rhs` against `c` stays within `i64` coefficients.
pub open spec fn check_fits(t: Seq<Seq<(Seq<usize>, int)>>, c: Constraint, kind: Comparison, lhs: int, rhs: int) -> bool {
    &&& match kind {
        Comparison::Ge | Comparison::Eq => diff_fits(t[lhs], t[rhs]),
        Comparison::Le => diff_fits(t[rhs], t[lhs]),
        Comparison::Gt => diff_one_fits(t[lhs], t[rhs]),
        Comparison::Lt => diff_one_fits(t[rhs], t[lhs]),
    }
    &&& match c {
        Constraint::Equal(l, r) => diff_fits(t[l as int], t[r as int]),
        _ => true,
    }
}

fn diff_of(a: &Polynomial, b: &Polynomial) -> (r: Polynomial)
    requires a.wf(), b.wf(), diff_fits(a@, b@),
    ensures
        r.wf(),
        r@ == diff_view(a@, b@),
        forall|m: Seq<usize>| r.coeff(m) == a.coeff(m) - b.coeff(m),
        forall|x: spec_fn(usize) -> int| r.eval(x) == a.eval(x) - b.eval(x),
{
    let p = a.copy_of();
    let q = b.copy_of();
    assert forall|m: Seq<usize>| fits(-q.coeff(m)) && fits(p.coeff(m) - q.coeff(m)) by {
        assert(fits(-coeff_of(b@, m)) && fits(coeff_of(a@, m) - coeff_of(b@, m)));
    }
    let r = p.sub(q);
    proof {
        let f = |m: Seq<usize>| coeff_of(a@, m) - coeff_of(b@, m);
        assert forall|m: Seq<usize>| #[trigger] coeff_of(r@, m) == f(m) by {
            assert(r.coeff(m) == p.coeff(m) - q.coeff(m));
        }
        lemma_canon(r@, f);
    }
    r
}

fn diff_minus_one(a: &Polynomial, b: &Polynomial) -> (r: Polynomial)
    requires a.wf(), b.wf(), diff_one_fits(a@, b@),
    ensures
        r.wf(),
        r@ == diff_view(diff_view(a@, b@), one_view()),
        forall|x: spec_fn(usize) -> int| r.eval(x) == a.eval(x) - b.eval(x) - 1,
{
    let d = diff_of(a, b);
    let one = Polynomial::constant(1);
    proof {
        let g = |m: Seq<usize>| if m.len() == 0 { 1int } else { 0 };
        assert forall|m: Seq<usize>| #[trigger] coeff_of(one@, m) == g(m) by {
            assert(one.coeff(m) == if m.len() == 0 { 1int } else { 0 });
        }
        lemma_canon(one@, g);
        assert forall|m: Seq<usize>| fits(-#[trigger] coeff_of(one@, m)) && fits(coeff_of(d@, m) - coeff_of(one@, m)) by {
            assert(d.coeff(m) == a.coeff(m) - b.coeff(m));
            assert(fits(coeff_of(a@, m) - coeff_of(b@, m) - (if m.len() == 0 { 1int } else { 0 })));
        }
    }
    diff_of(&d, &one)
}

/// Proves (or disproves) that `constraint` encodes `lhs <comparison> rhs`:
/// `Ok` exactly when the polynomial the constraint encodes is identical to
/// the one the comparison requires, which is exactly when the two agree at
/// every integer assignment; otherwise a [`Mismatch`] holding both.
pub fn check_comparison(
    table: &[Polynomial],
    constraint: &Constraint,
    comparison: Comparison,
    lhs: ExprId,
    rhs: ExprId,
) -> (r: Result<(), Mismatch>)
    requires
        lhs < table@.len(),
        rhs < table@.len(),
        constraint_in_range(*constraint, table@.len() as int),
        forall|i: int| 0 <= i < table@.len() ==> (#[trigger] table@[i]).wf(),
        check_fits(views(table@), *constraint, comparison, lhs as int, rhs as int),
    ensures
        r is Ok <==> found_view(views(table@), *constraint) == expected_view(views(table@), comparison, lhs as int, rhs as int),
        r matches Err(mm) ==> mm.found@ == found_view(views(table@), *constraint)
            && mm.expected@ == expected_view(views(table@), comparison, lhs as int, rhs as int),
        r is Ok ==> forall|x: spec_fn(usize) -> int|
            #[trigger] found_value(table@, *constraint, x) == expected_value(table@, comparison, lhs as int, rhs as int, x),
        r is Err ==> exists|x: spec_fn(usize) -> int|
            #[trigger] found_value(table@, *constraint, x) != expected_value(table@, comparison, lhs as int, rhs as int, x),
{
    let ghost t = views(table@);
    assert(t[lhs as int] == table@[lhs as int]@);
    assert(t[rhs as int] == table@[rhs as int]@);
    let expected = match comparison {
        Comparison::Ge | Comparison::Eq => diff_of(&table[lhs], &table[rhs]),
        Comparison::Le => diff_of(&table[rhs], &table[lhs]),
        Comparison::Gt => diff_minus_one(&table[lhs], &table[rhs]),
        Comparison::Lt => diff_minus_one(&table[rhs], &table[lhs]),
    };
    let ghost tb = table@;
    let found = match *constraint {
        Constraint::NonNegative(e) | Constraint::Zero(e) => {
            assert(t[e as int] == table@[e as int]@);
            table[e].copy_of()
        },
        Constraint::Equal(l, r) => {
            assert(t[l as int] == table@[l as int]@);
            assert(t[r as int] == table@[r as int]@);
            diff_of(&table[l], &table[r])
        },
    };
    let ghost kept_found = found;
    let ghost kept_expected = expected;
    let r = expect_equal(found, expected);
    proof {
        if r is Err {
            crate::identity::law_different_forms_evaluate_differently(kept_found, kept_expected);
            let x = choose|x: spec_fn(usize) -> int| kept_found.eval(x) != kept_expected.eval(x);
            assert(found_value(table@, *constraint, x) != expected_value(table@, comparison, lhs as int, rhs as int, x));
        }
        if r is Ok {
            assert forall|x: spec_fn(usize) -> int|
                #[trigger] found_value(table@, *constraint, x) == expected_value(table@, comparison, lhs as int, rhs as int, x) by {
                assert(found.eval(x) == expected.eval(x));
            }
        }
    }
    r
}


/// The value of the expression a constraint encodes, from a table of
/// polynomials evaluated at `x`.
pub open spec fn found_value(table: Seq<Polynomial>, c: Constraint, x: spec_fn(usize) -> int) -> int {
    match c {
        Constraint::NonNegative(e) | Constraint::Zero(e) => table[e as int].eval(x),
        Constraint::Equal(l, r) => table[l as int].eval(x) - table[r as int].eval(x),
    }
}

/// The value `lhs <kind> rhs` requires its constraint to encode, at `x`.
pub open spec fn expected_value(table: Seq<Polynomial>, kind: Comparison, lhs: int, rhs: int, x: spec_fn(usize) -> int) -> int {
    match kind {
        Comparison::Ge | Comparison::Eq => table[lhs].eval(x) - table[rhs].eval(x),
        Comparison::Le => table[rhs].eval(x) - table[lhs].eval(x),
        Comparison::Gt => table[lhs].eval(x) - table[rhs].eval(x) - 1,
        Comparison::Lt => table[rhs].eval(x) - table[lhs].eval(x) - 1,
    }
}

/// The value of the first input named `name`, or `0` when none is.
pub open spec fn lookup(inputs: Seq<(&str, Scalar)>, name: Seq<char>) -> int
    decreases inputs.len(),
{
    if inputs.len() == 0 {
        0
    } else if inputs[0].0@ == name {
        inputs[0].1 as int
    } else {
        lookup(inputs.drop_first(), name)
    }
}

/// The assignment of variable ids to values that `inputs` gives by name.
pub open spec fn input_assignment(cs: ConstraintSystem, inputs: Seq<(&str, Scalar)>) -> spec_fn(usize) -> int {
    |i: usize| lookup(inputs, cs.variables@[i as int].name@)
}

/// Every variable expression names a declared variable.
pub open spec fn vars_in_range(cs: ConstraintSystem) -> bool {
    forall|id: int|
        0 <= id < cs.exprs@.len() ==> match #[trigger] cs.exprs@[id] {
            Expr::Var(v) => v < cs.variables@.len(),
            _ => true,
        }
}

fn lookup_input(inputs: &[(&str, Scalar)], name: &String) -> (r: Scalar)
    ensures r as int == lookup(inputs@, name@),
{
    let mut k: usize = 0;
    assert(inputs@.skip(0) =~= inputs@);
    while k < inputs.len()
        invariant
            k <= inputs@.len(),
            lookup(inputs@, name@) == lookup(inputs@.skip(k as int), name@),
        decreases inputs.len() - k,
    {
        let candidate = String::from_str(inputs[k].0);
        let ghost rest = inputs@.skip(k as int);
        assert(rest[0] == inputs@[k as int]);
        if candidate == *name {
            return inputs[k].1;
        }
        assert(rest.drop_first() =~= inputs@.skip(k + 1));
        k = k + 1;
    }
    0
}

/// Evaluates every expression in `cs` given concrete values for its named
/// variables, indexed by [`ExprId`]; a variable missing from `inputs`
/// evaluates to `0`.
pub fn evaluate(cs: &ConstraintSystem, inputs: &[(&str, Scalar)]) -> (table: Vec<Scalar>)
    requires
        exprs_ordered(cs.exprs@),
        vars_in_range(*cs),
        forall|id: int| 0 <= id < cs.exprs@.len() ==> fits(#[trigger] expr_value(cs.exprs@, id, input_assignment(*cs, inputs@))),
    ensures
        table@.len() == cs.exprs@.len(),
        forall|id: int| 0 <= id < table@.len() ==> #[trigger] table@[id] as int == expr_value(cs.exprs@, id, input_assignment(*cs, inputs@)),
{
    let ghost x = input_assignment(*cs, inputs@);
    let ghost ex = cs.exprs@;
    let mut table: Vec<Scalar> = Vec::new();
    let mut id: usize = 0;
    while id < cs.exprs.len()
        invariant
            id <= cs.exprs.len(),
            ex == cs.exprs@,
            x == input_assignment(*cs, inputs@),
            exprs_ordered(ex),
            vars_in_range(*cs),
            forall|j: int| 0 <= j < ex.len() ==> fits(#[trigger] expr_value(ex, j, x)),
            table@.len() == id,
            forall|j: int| 0 <= j < id ==> #[trigger] table@[j] as int == expr_value(ex, j, x),
        decreases cs.exprs.len() - id,
    {
        let e = cs.exprs[id];
        assert(ex[id as int] == e);
        assert(fits(expr_value(ex, id as int, x)));
        let v: Scalar = match e {
            Expr::Const(c) => c,
            Expr::Var(i) => lookup_input(inputs, &cs.variables[i].name),
            Expr::Add(l, r) => {
                assert(table@[l as int] as int == expr_value(ex, l as int, x));
                assert(table@[r as int] as int == expr_value(ex, r as int, x));
                table[l] + table[r]
            },
            Expr::Sub(l, r) => {
                assert(table@[l as int] as int == expr_value(ex, l as int, x));
                assert(table@[r as int] as int == expr_value(ex, r as int, x));
                table[l] - table[r]
            },
            Expr::Mul(l, r) => {
                assert(table@[l as int] as int == expr_value(ex, l as int, x));
                assert(table@[r as int] as int == expr_value(ex, r as int, x));
                table[l] * table[r]
            },
            Expr::Neg(n) => {
                assert(table@[n as int] as int == expr_value(ex, n as int, x));
                -table[n]
            },
        };
        table.push(v);
        id = id + 1;
    }
    table
}


/// The constraint holds when variable `i` has value `x(i)`.
pub open spec fn constraint_holds(exprs: Seq<Expr>, c: Constraint, x: spec_fn(usize) -> int) -> bool {
    match c {
        Constraint::NonNegative(e) => expr_value(exprs, e as int, x) >= 0,
        Constraint::Zero(e) => expr_value(exprs, e as int, x) == 0,
        Constraint::Equal(l, r) => expr_value(exprs, l as int, x) == expr_value(exprs, r as int, x),
    }
}

/// `a <kind> b` holds.
pub open spec fn comparison_holds(kind: Comparison, a: int, b: int) -> bool {
    match kind {
        Comparison::Ge => a >= b,
        Comparison::Le => a <= b,
        Comparison::Gt => a > b,
        Comparison::Lt => a < b,
        Comparison::Eq => a == b,
    }
}

/// The constraint has the form that the comparison lowers to: an ordering
/// becomes a non-negativity constraint, an equality a zero or equality one.
pub open spec fn constraint_kind_matches(c: Constraint, kind: Comparison) -> bool {
    match kind {
        Comparison::Eq => c is Zero || c is Equal,
        _ => c is NonNegative,
    }
}

/// The canonical table and the concrete evaluator agree: evaluating the
/// normal form of an expression at the named inputs gives exactly the value
/// `evaluate` computes for it.
pub proof fn law_normal_form_agrees_with_evaluation(
    cs: ConstraintSystem,
    table: Seq<Polynomial>,
    values: Seq<Scalar>,
    inputs: Seq<(&str, Scalar)>,
    id: int,
)
    requires
        0 <= id < cs.exprs@.len(),
        table.len() == cs.exprs@.len(),
        values.len() == cs.exprs@.len(),
        forall|j: int, x: spec_fn(usize) -> int| 0 <= j < table.len() ==> #[trigger] table[j].eval(x) == expr_value(cs.exprs@, j, x),
        forall|j: int| 0 <= j < values.len() ==> #[trigger] values[j] as int == expr_value(cs.exprs@, j, input_assignment(cs, inputs)),
    ensures
        table[id].eval(input_assignment(cs, inputs)) == values[id] as int,
{
    assert(table[id].eval(input_assignment(cs, inputs)) == expr_value(cs.exprs@, id, input_assignment(cs, inputs)));
}

/// Soundness of the circuit check: when the table is the normal form of the
/// system's expressions and `check_comparison` accepts a constraint of the
/// form the comparison lowers to, the constraint holds under an assignment
/// exactly when `lhs <kind> rhs` does.
pub proof fn law_accepted_constraint_enforces_comparison(
    cs: ConstraintSystem,
    table: Seq<Polynomial>,
    c: Constraint,
    kind: Comparison,
    lhs: int,
    rhs: int,
    x: spec_fn(usize) -> int,
)
    requires
        table.len() == cs.exprs@.len(),
        0 <= lhs < table.len(),
        0 <= rhs < table.len(),
        constraint_in_range(c, table.len() as int),
        forall|j: int, y: spec_fn(usize) -> int| 0 <= j < table.len() ==> #[trigger] table[j].eval(y) == expr_value(cs.exprs@, j, y),
        constraint_kind_matches(c, kind),
        forall|y: spec_fn(usize) -> int| #[trigger] found_value(table, c, y) == expected_value(table, kind, lhs, rhs, y),
    ensures
        constraint_holds(cs.exprs@, c, x) <==> comparison_holds(kind, expr_value(cs.exprs@, lhs, x), expr_value(cs.exprs@, rhs, x)),
{
    assert(found_value(table, c, x) == expected_value(table, kind, lhs, rhs, x));
    assert(table[lhs].eval(x) == expr_value(cs.exprs@, lhs, x));
    assert(table[rhs].eval(x) == expr_value(cs.exprs@, rhs, x));
    match c {
        Constraint::NonNegative(e) | Constraint::Zero(e) => {
            assert(table[e as int].eval(x) == expr_value(cs.exprs@, e as int, x));
        },
        Constraint::Equal(l, r) => {
            assert(table[l as int].eval(x) == expr_value(cs.exprs@, l as int, x));
            assert(table[r as int].eval(x) == expr_value(cs.exprs@, r as int, x));
        },
    }
}

} // verus!
