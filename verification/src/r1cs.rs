//! A concrete R1CS lowering of the IR: the quadratic form
//! `Σ aᵢwᵢ · Σ bᵢwᵢ = Σ cᵢwᵢ` over a witness whose slot `0` holds `1`.
use vstd::prelude::*;

use crate::check::{canon, constraint_holds, expr_value, exprs_ordered, lemma_canon};
use crate::circuit::{Constraint, ConstraintSystem, Expr, Scalar};
use crate::poly::{
    add_term_vec, coeff_of, eval_terms, fits, lemma_coeff_wf, lemma_sum_push, lex_lt_from, mono_lt, mono_val,
    term_view, wf_terms, coeff_part, eval_part,
};

verus! {

/// A sparse linear combination `Σ cᵢ · witness[i]`.
pub type Linear = Vec<(usize, Scalar)>;

/// One R1CS gate: `eval(a) * eval(b) == eval(c)`.
#[derive(Clone, Debug, PartialEq, Eq)]
pub struct R1csGate {
    /// Left linear combination.
    pub a: Linear,
    /// Right linear combination.
    pub b: Linear,
    /// Output linear combination.
    pub c: Linear,
}

/// Post-quadratic assertions checked during integer-space evaluation.
#[derive(Clone, Copy, Debug, PartialEq, Eq, Structural)]
pub enum R1csAssertion {
    /// `witness[var] >= 0` under integer evaluation.
    NonNegative(usize),
}

/// A lowered R1CS circuit.
#[derive(Clone, Debug, PartialEq, Eq)]
pub struct R1CS {
    /// Witness size including `witness[0] = 1`.
    pub num_variables: usize,
    /// The quadratic gates.
    pub gates: Vec<R1csGate>,
    /// Assertions checked during integer-space evaluation.
    pub assertions: Vec<R1csAssertion>,
    /// Witness slot holding each public input.
    pub public_slots: Vec<usize>,
    /// Witness slot holding each secret input.
    pub secret_slots: Vec<usize>,
    /// Witness slot holding each expression node (index = ExprId).
    pub expr_slots: Vec<Option<usize>>,
    /// Witness slot holding each named variable (index = variable id).
    pub var_slots: Vec<Option<usize>>,
    /// Variable names for diagnostics; index = witness slot.
    pub names: Vec<Option<String>>,
}

/// An evaluation error: a quadratic gate failed or a non-negativity
/// assertion was violated.
#[derive(Clone, Debug, PartialEq, Eq)]
pub enum EvaluationError {
    /// Gate `index` produced `lhs * rhs != out`.
    GateFailed {
        /// Index of the failing gate.
        index: usize,
        /// `Σ aᵢwᵢ` for the failing gate.
        lhs: Scalar,
        /// `Σ bᵢwᵢ` for the failing gate.
        rhs: Scalar,
        /// `Σ cᵢwᵢ` for the failing gate.
        out: Scalar,
    },
    /// A non-negativity assertion failed for witness slot `slot`.
    NonNegativeFailed {
        /// Witness slot whose value went negative.
        slot: usize,
        /// The offending value.
        value: Scalar,
    },
}

/// The mathematical view of a linear combination.
pub open spec fn lin_view(l: Seq<(usize, Scalar)>) -> Seq<(usize, int)> {
    l.map_values(|p: (usize, Scalar)| (p.0, p.1 as int))
}

/// Value of a linear combination at a witness.
pub open spec fn lin_eval(s: Seq<(usize, int)>, w: Seq<int>) -> int
    decreases s.len(),
{
    if s.len() == 0 {
        0
    } else {
        lin_eval(s.drop_last(), w) + s.last().1 * w[s.last().0 as int]
    }
}

/// A linear combination as a list of degree-one polynomial terms.
pub open spec fn lin_to_terms(s: Seq<(usize, int)>) -> Seq<(Seq<usize>, int)> {
    s.map_values(|p: (usize, int)| (seq![p.0], p.1))
}

/// The canonical linear combination with the same coefficients as `s`:
/// indices strictly increasing, like indices merged, zero coefficients dropped.
pub open spec fn lin_canon(s: Seq<(usize, int)>) -> Seq<(usize, int)> {
    canon(|m: Seq<usize>| coeff_of(lin_to_terms(s), m)).map_values(|t: (Seq<usize>, int)| (t.0[0], t.1))
}

/// The witness as an assignment of values to ids.
pub open spec fn witness_fn(w: Seq<int>) -> spec_fn(usize) -> int {
    |i: usize| w[i as int]
}

pub proof fn lemma_lin_eval_terms(s: Seq<(usize, int)>, w: Seq<int>)
    ensures lin_eval(s, w) == eval_terms(lin_to_terms(s), witness_fn(w)),
    decreases s.len(),
{
    if s.len() > 0 {
        lemma_lin_eval_terms(s.drop_last(), w);
        assert(lin_to_terms(s).drop_last() =~= lin_to_terms(s.drop_last()));
        let m = seq![s.last().0];
        assert(m.drop_first() =~= Seq::<usize>::empty());
        assert(mono_val(m.drop_first(), witness_fn(w)) == 1);
        assert(mono_val(m, witness_fn(w)) == w[s.last().0 as int]);
    }
}

/// Coefficients of a list of terms with coefficients in `[-1, 1]` are bounded by its length.
pub proof fn lemma_small_coeffs(s: Seq<(Seq<usize>, int)>, m: Seq<usize>)
    requires forall|k: int| 0 <= k < s.len() ==> -1 <= #[trigger] s[k].1 <= 1,
    ensures -s.len() <= coeff_of(s, m) <= s.len(),
    decreases s.len(),
{
    if s.len() > 0 {
        lemma_small_coeffs(s.drop_last(), m);
    }
}

/// A term list whose monomials are all singletons gives zero coefficient
/// to every other monomial.
pub proof fn lemma_singleton_support(s: Seq<(Seq<usize>, int)>, m: Seq<usize>)
    requires
        forall|k: int| 0 <= k < s.len() ==> (#[trigger] s[k]).0.len() == 1,
        m.len() != 1,
    ensures coeff_of(s, m) == 0,
    decreases s.len(),
{
    if s.len() > 0 {
        lemma_singleton_support(s.drop_last(), m);
    }
}

/// An index that no entry of the combination names has coefficient zero.
pub proof fn lemma_coeff_absent(s: Seq<(usize, int)>, i: usize)
    requires forall|k: int| 0 <= k < s.len() ==> (#[trigger] s[k]).0 != i,
    ensures coeff_of(lin_to_terms(s), seq![i]) == 0,
    decreases s.len(),
{
    if s.len() > 0 {
        lemma_coeff_absent(s.drop_last(), i);
        assert(lin_to_terms(s).drop_last() =~= lin_to_terms(s.drop_last()));
        assert(lin_to_terms(s).last().0 == seq![s.last().0]);
        assert(seq![s.last().0] != seq![i]) by {
            assert(seq![s.last().0][0] != seq![i][0]);
        }
    }
}

/// Singleton monomials are ordered by their index.
pub proof fn lemma_single_mono_lt(a: usize, b: usize)
    requires mono_lt(seq![a], seq![b]),
    ensures a < b,
{
    reveal_with_fuel(lex_lt_from, 2);
}

/// Summing, in order, the coefficients that a combination gives each index
/// stays within `i64`: every partial sum at the index of each entry fits.
pub open spec fn lin_sums_fit(s: Seq<(usize, int)>) -> bool {
    forall|k: int| 0 <= k < s.len() ==> fits(coeff_of(lin_to_terms(s.take(k + 1)), seq![(#[trigger] s[k]).0]))
}

/// A short combination with coefficients in `[-1, 1]` sums within `i64`.
pub proof fn lemma_small_sums_fit(s: Seq<(usize, int)>)
    requires
        s.len() <= 3,
        forall|k: int| 0 <= k < s.len() ==> -1 <= #[trigger] s[k].1 <= 1,
    ensures lin_sums_fit(s),
{
    assert forall|k: int| 0 <= k < s.len() implies fits(coeff_of(lin_to_terms(s.take(k + 1)), seq![(#[trigger] s[k]).0])) by {
        let t = lin_to_terms(s.take(k + 1));
        assert forall|j: int| 0 <= j < t.len() implies -1 <= #[trigger] t[j].1 <= 1 by {
            assert(t[j].1 == s[j].1);
        }
        lemma_small_coeffs(t, seq![s[k].0]);
    }
}

/// Sorts by index, merges like indices, and drops zero coefficients.
fn normalize(lin: Linear) -> (r: Linear)
    requires
        lin_sums_fit(lin_view(lin@)),
    ensures
        lin_view(r@) == lin_canon(lin_view(lin@)),
        forall|w: Seq<int>| lin_eval(lin_view(r@), w) == lin_eval(lin_view(lin@), w),
        forall|i: int, j: int| 0 <= i < j < r@.len() ==> (#[trigger] r@[i]).0 < (#[trigger] r@[j]).0,
        forall|n: int| lin_in_range(lin_view(lin@), n) ==> #[trigger] lin_in_range(lin_view(r@), n),
{
    let ghost raw = lin_to_terms(lin_view(lin@));
    let mut terms: Vec<(Vec<usize>, i64)> = Vec::new();
    assert(term_view(terms@) =~= Seq::<(Seq<usize>, int)>::empty());
    let mut k: usize = 0;
    while k < lin.len()
        invariant
            k <= lin.len(),
            raw == lin_to_terms(lin_view(lin@)),
            lin_sums_fit(lin_view(lin@)),
            wf_terms(term_view(terms@)),
            forall|m: Seq<usize>| #[trigger] coeff_of(term_view(terms@), m) == coeff_of(raw.take(k as int), m),
            forall|x: spec_fn(usize) -> int| #[trigger] eval_terms(term_view(terms@), x) == eval_terms(raw.take(k as int), x),
        decreases lin.len() - k,
    {
        let (i, c) = lin[k];
        let mut mono: Vec<usize> = Vec::new();
        mono.push(i);
        proof {
            let t = raw[k as int];
            assert(t == (seq![i], c as int));
            assert(raw.take(k + 1) =~= raw.take(k as int).push(t));
            assert forall|m: Seq<usize>| coeff_of(raw.take(k + 1), m) == coeff_of(raw.take(k as int), m) + (coeff_part(m))(t) by {
                lemma_sum_push(raw.take(k as int), t, coeff_part(m));
            }
            assert forall|x: spec_fn(usize) -> int| eval_terms(raw.take(k + 1), x) == eval_terms(raw.take(k as int), x) + (eval_part(x))(t) by {
                lemma_sum_push(raw.take(k as int), t, eval_part(x));
            }
            assert(mono@ =~= seq![i]);
            assert(lin_view(lin@)[k as int] == (i, c as int));
            assert(lin_to_terms(lin_view(lin@).take(k + 1)) =~= raw.take(k + 1));
            assert(fits(coeff_of(raw.take(k + 1), seq![i])));
            assert(coeff_of(raw.take(k + 1), mono@) == coeff_of(raw.take(k as int), mono@) + c);
        }
        add_term_vec(&mut terms, mono, c);
        k = k + 1;
    }
    assert(raw.take(k as int) =~= raw);
    let ghost tv = term_view(terms@);
    assert forall|q: int| 0 <= q < raw.len() implies (#[trigger] raw[q]).0.len() == 1 by {
        assert(raw[q].0 == seq![lin@[q].0]);
    }
    let mut out: Linear = Vec::new();
    let mut j: usize = 0;
    while j < terms.len()
        invariant
            j <= terms.len(),
            tv == term_view(terms@),
            wf_terms(tv),
            forall|m: Seq<usize>| #[trigger] coeff_of(tv, m) == coeff_of(raw, m),
            forall|q: int| 0 <= q < raw.len() ==> (#[trigger] raw[q]).0.len() == 1,
            out@.len() == j,
            forall|q: int| 0 <= q < j ==> (#[trigger] tv[q]).0.len() == 1,
            forall|q: int| 0 <= q < j ==> (#[trigger] out@[q]).0 == tv[q].0[0] && out@[q].1 as int == tv[q].1,
        decreases terms.len() - j,
    {
        proof {
            lemma_coeff_wf(tv, tv[j as int].0);
            if tv[j as int].0.len() != 1 {
                lemma_singleton_support(raw, tv[j as int].0);
                assert(coeff_of(tv, tv[j as int].0) == coeff_of(raw, tv[j as int].0));
            }
            assert(tv[j as int].0.len() == 1);
            assert(tv[j as int] == (terms@[j as int].0@, terms@[j as int].1 as int));
        }
        let idx = terms[j].0[0];
        let cf = terms[j].1;
        out.push((idx, cf));
        assert(out@[j as int].0 == tv[j as int].0[0]);
        j = j + 1;
    }
    proof {
        assert(lin_to_terms(lin_view(out@)) =~= tv) by {
            assert forall|q: int| 0 <= q < tv.len() implies lin_to_terms(lin_view(out@))[q] == tv[q] by {
                assert(tv[q].0.len() == 1);
                assert(tv[q].0 =~= seq![tv[q].0[0]]);
            }
        }
        let f = |m: Seq<usize>| coeff_of(lin_to_terms(lin_view(lin@)), m);
        lemma_canon(tv, f);
        assert(lin_view(out@) =~= tv.map_values(|t: (Seq<usize>, int)| (t.0[0], t.1)));
        assert forall|w: Seq<int>| lin_eval(lin_view(out@), w) == lin_eval(lin_view(lin@), w) by {
            lemma_lin_eval_terms(lin_view(out@), w);
            lemma_lin_eval_terms(lin_view(lin@), w);
        }
        assert forall|i: int, j: int| 0 <= i < j < out@.len() implies (#[trigger] out@[i]).0 < (#[trigger] out@[j]).0 by {
            assert(mono_lt(tv[i].0, tv[j].0));
            assert(tv[i].0 =~= seq![out@[i].0]);
            assert(tv[j].0 =~= seq![out@[j].0]);
            lemma_single_mono_lt(out@[i].0, out@[j].0);
        }
        assert forall|n: int| lin_in_range(lin_view(lin@), n) implies #[trigger] lin_in_range(lin_view(out@), n) by {
            assert forall|q: int| 0 <= q < lin_view(out@).len() implies (#[trigger] lin_view(out@)[q]).0 < n by {
                let idx = out@[q].0;
                assert(tv[q].0 =~= seq![idx]);
                lemma_coeff_wf(tv, tv[q].0);
                assert(coeff_of(raw, seq![idx]) != 0);
                if forall|k: int| 0 <= k < lin_view(lin@).len() ==> (#[trigger] lin_view(lin@)[k]).0 != idx {
                    lemma_coeff_absent(lin_view(lin@), idx);
                }
                let k = choose|k: int| 0 <= k < lin_view(lin@).len() && (#[trigger] lin_view(lin@)[k]).0 == idx;
                assert(lin_view(lin@)[k].0 < n);
            }
        }
    }
    out
}


/// The witness as integers.
pub open spec fn wit_view(w: Seq<Scalar>) -> Seq<int> {
    w.map_values(|v: Scalar| v as int)
}

/// Every index of the combination is a slot of a witness of length `n`.
pub open spec fn lin_in_range(s: Seq<(usize, int)>, n: int) -> bool {
    forall|k: int| 0 <= k < s.len() ==> (#[trigger] s[k]).0 < n
}

/// The combination lists strictly increasing witness indices, each a slot of
/// a witness of length `n`.
pub open spec fn lin_strict(s: Seq<(usize, int)>, n: int) -> bool {
    &&& forall|i: int, j: int| 0 <= i < j < s.len() ==> (#[trigger] s[i]).0 < (#[trigger] s[j]).0
    &&& lin_in_range(s, n)
}

/// Each of a gate's three combinations lists strictly increasing indices
/// below `n`.
pub open spec fn gate_strict(g: (Seq<(usize, int)>, Seq<(usize, int)>, Seq<(usize, int)>), n: int) -> bool {
    lin_strict(g.0, n) && lin_strict(g.1, n) && lin_strict(g.2, n)
}

/// Evaluating the combination in order stays within `i64`: every product
/// and every partial sum fits.
pub open spec fn lin_fits(s: Seq<(usize, int)>, w: Seq<int>) -> bool {
    forall|k: int|
        0 <= k < s.len() ==> fits(#[trigger] s[k].1 * w[s[k].0 as int]) && fits(lin_eval(s.take(k + 1), w))
}

/// Evaluates a linear combination against a witness.
pub fn evaluate_linear(lin: &Linear, witness: &[Scalar]) -> (r: Scalar)
    requires
        lin_in_range(lin_view(lin@), witness@.len() as int),
        lin_fits(lin_view(lin@), wit_view(witness@)),
    ensures r as int == lin_eval(lin_view(lin@), wit_view(witness@)),
{
    let ghost s = lin_view(lin@);
    let ghost w = wit_view(witness@);
    let mut acc: Scalar = 0;
    let mut k: usize = 0;
    assert(s.take(0) =~= Seq::<(usize, int)>::empty());
    while k < lin.len()
        invariant
            k <= lin.len(),
            s == lin_view(lin@),
            w == wit_view(witness@),
            lin_in_range(s, witness@.len() as int),
            lin_fits(s, w),
            acc as int == lin_eval(s.take(k as int), w),
        decreases lin.len() - k,
    {
        let (i, c) = lin[k];
        assert(s[k as int] == (i, c as int));
        assert(s.take(k + 1).drop_last() =~= s.take(k as int));
        assert(w[i as int] == witness@[i as int] as int);
        assert(fits(s[k as int].1 * w[s[k as int].0 as int]));
        let p = c * witness[i];
        acc = acc + p;
        k = k + 1;
    }
    assert(s.take(k as int) =~= s);
    acc
}

/// The mathematical view of a gate.
pub open spec fn gate_view(g: R1csGate) -> (Seq<(usize, int)>, Seq<(usize, int)>, Seq<(usize, int)>) {
    (lin_view(g.a@), lin_view(g.b@), lin_view(g.c@))
}

/// Each of a gate's three combinations refer to slots of a witness of length `n`.
pub open spec fn gate_in_range(g: (Seq<(usize, int)>, Seq<(usize, int)>, Seq<(usize, int)>), n: int) -> bool {
    lin_in_range(g.0, n) && lin_in_range(g.1, n) && lin_in_range(g.2, n)
}

/// `eval(a) * eval(b) == eval(c)` at `w`.
pub open spec fn gate_holds(g: (Seq<(usize, int)>, Seq<(usize, int)>, Seq<(usize, int)>), w: Seq<int>) -> bool {
    lin_eval(g.0, w) * lin_eval(g.1, w) == lin_eval(g.2, w)
}

/// Evaluating a gate stays within `i64`.
pub open spec fn gate_fits(g: (Seq<(usize, int)>, Seq<(usize, int)>, Seq<(usize, int)>), w: Seq<int>) -> bool {
    &&& lin_fits(g.0, w)
    &&& lin_fits(g.1, w)
    &&& lin_fits(g.2, w)
    &&& fits(lin_eval(g.0, w) * lin_eval(g.1, w))
}

impl R1CS {
    /// The views of all gates.
    pub open spec fn gates_view(&self) -> Seq<(Seq<(usize, int)>, Seq<(usize, int)>, Seq<(usize, int)>)> {
        self.gates@.map_values(|g: R1csGate| gate_view(g))
    }

    /// All gates hold at `w`.
    pub open spec fn all_gates_hold(&self, w: Seq<int>) -> bool {
        forall|g: int| 0 <= g < self.gates@.len() ==> gate_holds(#[trigger] self.gates_view()[g], w)
    }

    /// Assertion `k` holds at `w`.
    pub open spec fn assertion_holds(&self, k: int, w: Seq<int>) -> bool {
        match self.assertions@[k] {
            R1csAssertion::NonNegative(slot) => w[slot as int] >= 0,
        }
    }

    /// The slot that assertion `k` checks.
    pub open spec fn assertion_slot(&self, k: int) -> usize {
        match self.assertions@[k] {
            R1csAssertion::NonNegative(slot) => slot,
        }
    }

    /// Everything `evaluate` reads is in range and fits in `i64` up to the
    /// point where it stops.
    pub open spec fn evaluable(&self, witness: Seq<Scalar>) -> bool {
        let w = wit_view(witness);
        &&& forall|g: int| 0 <= g < self.gates@.len() ==> gate_in_range(#[trigger] self.gates_view()[g], witness.len() as int)
        &&& forall|g: int| 0 <= g < self.gates@.len() ==> (forall|j: int| 0 <= j < g ==> gate_holds(#[trigger] self.gates_view()[j], w))
            ==> gate_fits(#[trigger] self.gates_view()[g], w)
        &&& self.all_gates_hold(w) ==> forall|k: int| 0 <= k < self.assertions@.len()
            ==> (forall|j: int| 0 <= j < k ==> #[trigger] self.assertion_holds(j, w))
            ==> #[trigger] self.assertion_slot(k) < witness.len()
    }

    /// Checks a full witness assignment (including `witness[0] == 1`): the
    /// first failing gate, else the first failing assertion, is reported.
    pub fn evaluate(&self, witness: &[Scalar]) -> (r: Result<(), EvaluationError>)
        requires
            witness@.len() == self.num_variables,
            witness@.len() > 0,
            witness@[0] == 1,
            self.evaluable(witness@),
        ensures
            r is Ok <==> self.all_gates_hold(wit_view(witness@)) && forall|k: int|
                0 <= k < self.assertions@.len() ==> #[trigger] self.assertion_holds(k, wit_view(witness@)),
            r matches Err(EvaluationError::GateFailed { index, lhs, rhs, out }) ==> {
                &&& index < self.gates@.len()
                &&& forall|j: int| 0 <= j < index ==> gate_holds(#[trigger] self.gates_view()[j], wit_view(witness@))
                &&& !gate_holds(self.gates_view()[index as int], wit_view(witness@))
                &&& lhs == lin_eval(self.gates_view()[index as int].0, wit_view(witness@))
                &&& rhs == lin_eval(self.gates_view()[index as int].1, wit_view(witness@))
                &&& out == lin_eval(self.gates_view()[index as int].2, wit_view(witness@))
            },
            r matches Err(EvaluationError::NonNegativeFailed { slot, value }) ==> {
                &&& self.all_gates_hold(wit_view(witness@))
                &&& exists|k: int| 0 <= k < self.assertions@.len() && self.assertion_slot(k) == slot
                    && !self.assertion_holds(k, wit_view(witness@))
                    && forall|j: int| 0 <= j < k ==> #[trigger] self.assertion_holds(j, wit_view(witness@))
                &&& slot < witness@.len()
                &&& value == witness@[slot as int]
                &&& value < 0
            },
    {
        let ghost w = wit_view(witness@);
        let mut index: usize = 0;
        while index < self.gates.len()
            invariant
                index <= self.gates@.len(),
                w == wit_view(witness@),
                self.evaluable(witness@),
                forall|j: int| 0 <= j < index ==> gate_holds(#[trigger] self.gates_view()[j], w),
            decreases self.gates.len() - index,
        {
            let gate = &self.gates[index];
            let ghost gv = self.gates_view()[index as int];
            assert(gv == gate_view(*gate));
            assert(gate_in_range(gv, witness@.len() as int));
            assert(gate_fits(gv, w));
            let a = evaluate_linear(&gate.a, witness);
            let b = evaluate_linear(&gate.b, witness);
            let c = evaluate_linear(&gate.c, witness);
            if a * b != c {
                return Err(EvaluationError::GateFailed { index, lhs: a, rhs: b, out: c });
            }
            index = index + 1;
        }
        let mut k: usize = 0;
        while k < self.assertions.len()
            invariant
                k <= self.assertions@.len(),
                w == wit_view(witness@),
                self.evaluable(witness@),
                self.all_gates_hold(w),
                forall|j: int| 0 <= j < k ==> #[trigger] self.assertion_holds(j, w),
            decreases self.assertions.len() - k,
        {
            assert(self.assertion_slot(k as int) < witness@.len());
            match self.assertions[k] {
                R1csAssertion::NonNegative(slot) => {
                    if witness[slot] < 0 {
                        assert(!self.assertion_holds(k as int, w));
                        return Err(EvaluationError::NonNegativeFailed { slot, value: witness[slot] });
                    }
                },
            }
            k = k + 1;
        }
        Ok(())
    }
}


/// A gate as three linear combinations over the integers.
pub type GateView = (Seq<(usize, int)>, Seq<(usize, int)>, Seq<(usize, int)>);

/// The combination `1 * witness[0]`.
pub open spec fn const1() -> Seq<(usize, int)> {
    seq![(0usize, 1int)]
}

/// Witness slot of expression `id`.
pub open spec fn slot(id: int) -> usize {
    (id + 1) as usize
}

/// What an expression lowers to as one gate, before its `a` side is normalized:
/// constants are pinned, sums, differences and negations become `A · 1 = 0`
/// gates, products become genuine quadratic gates, variables need none.
pub open spec fn expr_raw_gate(e: Expr, id: int) -> Seq<GateView> {
    let o = slot(id);
    match e {
        Expr::Const(v) => seq![(seq![(o, 1int)], const1(), seq![(0usize, v as int)])],
        Expr::Var(_) => Seq::empty(),
        Expr::Add(l, r) => seq![(seq![(o, 1int), (slot(l as int), -1int), (slot(r as int), -1int)], const1(), Seq::empty())],
        Expr::Sub(l, r) => seq![(seq![(o, 1int), (slot(l as int), -1int), (slot(r as int), 1int)], const1(), Seq::empty())],
        Expr::Neg(n) => seq![(seq![(o, 1int), (slot(n as int), 1int)], const1(), Seq::empty())],
        Expr::Mul(l, r) => seq![(seq![(slot(l as int), 1int)], seq![(slot(r as int), 1int)], seq![(o, 1int)])],
    }
}

/// The raw gates of all expressions, in table order.
pub open spec fn expr_raw_gates(exprs: Seq<Expr>) -> Seq<GateView>
    decreases exprs.len(),
{
    if exprs.len() == 0 {
        Seq::empty()
    } else {
        expr_raw_gates(exprs.drop_last()) + expr_raw_gate(exprs.last(), exprs.len() - 1)
    }
}

/// The raw gate a constraint lowers to (none for non-negativity).
pub open spec fn constraint_raw_gate(c: Constraint) -> Seq<GateView> {
    match c {
        Constraint::Zero(e) => seq![(seq![(slot(e as int), 1int)], const1(), Seq::empty())],
        Constraint::Equal(l, r) => seq![(seq![(slot(l as int), 1int), (slot(r as int), -1int)], const1(), Seq::empty())],
        Constraint::NonNegative(_) => Seq::empty(),
    }
}

/// The raw gates of all constraints, in order.
pub open spec fn constraint_raw_gates(cs: Seq<Constraint>) -> Seq<GateView>
    decreases cs.len(),
{
    if cs.len() == 0 {
        Seq::empty()
    } else {
        constraint_raw_gates(cs.drop_last()) + constraint_raw_gate(cs.last())
    }
}

/// The assertions that non-negativity constraints lower to.
pub open spec fn constraint_assertions(cs: Seq<Constraint>) -> Seq<R1csAssertion>
    decreases cs.len(),
{
    if cs.len() == 0 {
        Seq::empty()
    } else {
        constraint_assertions(cs.drop_last()) + match cs.last() {
            Constraint::NonNegative(e) => seq![R1csAssertion::NonNegative(slot(e as int))],
            _ => Seq::empty(),
        }
    }
}

/// All raw gates of a system: expressions first, then constraints.
pub open spec fn raw_gates(ir: ConstraintSystem) -> Seq<GateView> {
    expr_raw_gates(ir.exprs@) + constraint_raw_gates(ir.constraints@)
}

/// A gate with its `a` side in canonical form.
pub open spec fn normalize_gate(g: GateView) -> GateView {
    (lin_canon(g.0), g.1, g.2)
}

/// The slot of the last expression that is `Var(v)`, if any.
pub open spec fn var_slot_of(exprs: Seq<Expr>, v: usize) -> Option<usize>
    decreases exprs.len(),
{
    if exprs.len() == 0 {
        None
    } else if exprs.last() == Expr::Var(v) {
        Some(exprs.len() as usize)
    } else {
        var_slot_of(exprs.drop_last(), v)
    }
}

/// The diagnostic name of witness slot `s`: `1` for slot `0`, the name of
/// the variable whose slot it is, or none.
pub open spec fn slot_name(ir: ConstraintSystem, s: int) -> Option<Seq<char>> {
    if s == 0 {
        Some("1"@)
    } else if 1 <= s <= ir.exprs@.len() {
        match ir.exprs@[s - 1] {
            Expr::Var(v) => if v < ir.variables@.len() && var_slot_of(ir.exprs@, v) == Some(s as usize) {
                Some(ir.variables@[v as int].name@)
            } else {
                None
            },
            _ => None,
        }
    } else {
        None
    }
}

/// Every index the lowering reads is in range.
pub open spec fn lowerable(ir: ConstraintSystem) -> bool {
    let n = ir.exprs@.len();
    &&& n < usize::MAX
    &&& forall|id: int| 0 <= id < n ==> match #[trigger] ir.exprs@[id] {
        Expr::Add(l, r) | Expr::Sub(l, r) | Expr::Mul(l, r) => l < n && r < n,
        Expr::Neg(e) => e < n,
        Expr::Var(v) => v < ir.variables@.len(),
        Expr::Const(_) => true,
    }
    &&& forall|k: int| 0 <= k < ir.constraints@.len() ==> match #[trigger] ir.constraints@[k] {
        Constraint::Zero(e) | Constraint::NonNegative(e) => e < n,
        Constraint::Equal(l, r) => l < n && r < n,
    }
    &&& ir.inputs_in_range()
}


/// `gv` is `raw` with each `a` side normalized, evaluating as before.
pub open spec fn gates_match_raw(gv: Seq<GateView>, raw: Seq<GateView>) -> bool {
    &&& gv.len() == raw.len()
    &&& forall|g: int| 0 <= g < gv.len() ==> #[trigger] gv[g] == normalize_gate(raw[g])
    &&& forall|g: int, w: Seq<int>| 0 <= g < gv.len() ==> #[trigger] lin_eval(gv[g].0, w) == lin_eval(raw[g].0, w)
}

/// A single term with non-zero coefficient is already canonical.
pub proof fn lemma_canon_single(i: usize, c: int)
    requires c != 0,
    ensures lin_canon(seq![(i, c)]) == seq![(i, c)],
{
    let s = seq![(i, c)];
    let t = lin_to_terms(s);
    assert(t =~= seq![(seq![i], c)]);
    assert(crate::poly::sorted_mono(seq![i]));
    let f = |m: Seq<usize>| coeff_of(lin_to_terms(s), m);
    lemma_canon(t, f);
    assert(t.map_values(|q: (Seq<usize>, int)| (q.0[0], q.1)) =~= s);
}

fn single(i: usize, c: Scalar) -> (r: Linear)
    ensures
        lin_view(r@) == seq![(i, c as int)],
        r@ == seq![(i, c)],
{
    let mut r: Linear = Vec::new();
    r.push((i, c));
    assert(r@ =~= seq![(i, c)]);
    assert(lin_view(r@) =~= seq![(i, c as int)]);
    r
}

fn pair(i: usize, c: Scalar, j: usize, d: Scalar) -> (r: Linear)
    ensures
        lin_view(r@) == seq![(i, c as int), (j, d as int)],
        r@ == seq![(i, c), (j, d)],
{
    let mut r: Linear = Vec::new();
    r.push((i, c));
    r.push((j, d));
    assert(r@ =~= seq![(i, c), (j, d)]);
    assert(lin_view(r@) =~= seq![(i, c as int), (j, d as int)]);
    r
}

fn triple(i: usize, c: Scalar, j: usize, d: Scalar, k: usize, e: Scalar) -> (r: Linear)
    ensures
        lin_view(r@) == seq![(i, c as int), (j, d as int), (k, e as int)],
        r@ == seq![(i, c), (j, d), (k, e)],
{
    let mut r: Linear = Vec::new();
    r.push((i, c));
    r.push((j, d));
    r.push((k, e));
    assert(r@ =~= seq![(i, c), (j, d), (k, e)]);
    assert(lin_view(r@) =~= seq![(i, c as int), (j, d as int), (k, e as int)]);
    r
}

/// The combination `1 * witness[0]`.
fn const_one() -> (r: Linear)
    ensures lin_view(r@) == const1(),
{
    single(0, 1)
}

fn empty_linear() -> (r: Linear)
    ensures lin_view(r@) == Seq::<(usize, int)>::empty(),
{
    let r: Linear = Vec::new();
    assert(lin_view(r@) =~= Seq::<(usize, int)>::empty());
    r
}

/// A gate pinning witness slot `slot` to `value`.
fn const_gate(slot: usize, value: Scalar) -> (r: R1csGate)
    ensures gate_view(r) == (seq![(slot, 1int)], const1(), seq![(0usize, value as int)]),
{
    R1csGate { a: single(slot, 1), b: const_one(), c: single(0, value) }
}

/// A gate `A · 1 = 0` with `A` normalized from `raw`.
fn linear_gate(raw: Linear) -> (r: R1csGate)
    requires
        raw@.len() <= 3,
        forall|k: int| 0 <= k < raw@.len() ==> -1 <= #[trigger] raw@[k].1 <= 1,
    ensures
        gate_view(r) == normalize_gate((lin_view(raw@), const1(), Seq::<(usize, int)>::empty())),
        forall|w: Seq<int>| lin_eval(gate_view(r).0, w) == lin_eval(lin_view(raw@), w),
        forall|m: int| 0 < m && lin_in_range(lin_view(raw@), m) ==> #[trigger] gate_strict(gate_view(r), m),
{
    proof {
        assert forall|k: int| 0 <= k < lin_view(raw@).len() implies -1 <= #[trigger] lin_view(raw@)[k].1 <= 1 by {
            assert(lin_view(raw@)[k].1 == raw@[k].1);
        }
        lemma_small_sums_fit(lin_view(raw@));
    }
    R1csGate { a: normalize(raw), b: const_one(), c: empty_linear() }
}

/// The views of a list of gates.
pub open spec fn gates_of(gs: Seq<R1csGate>) -> Seq<GateView> {
    gs.map_values(|g: R1csGate| gate_view(g))
}

/// Expression `e` at `id` and the expressions it refers to have slots below `m`.
pub open spec fn expr_slots_below(e: Expr, id: int, m: int) -> bool {
    &&& slot(id) < m
    &&& match e {
        Expr::Add(l, r) | Expr::Sub(l, r) | Expr::Mul(l, r) => slot(l as int) < m && slot(r as int) < m,
        Expr::Neg(n) => slot(n as int) < m,
        _ => true,
    }
}

/// The expressions constraint `c` refers to have slots below `m`.
pub open spec fn constraint_slots_below(c: Constraint, m: int) -> bool {
    match c {
        Constraint::Zero(e) | Constraint::NonNegative(e) => slot(e as int) < m,
        Constraint::Equal(l, r) => slot(l as int) < m && slot(r as int) < m,
    }
}

/// What expression `id` lowers to: its gates.
fn gates_for_expr(e: Expr, id: usize) -> (r: Vec<R1csGate>)
    requires
        id + 1 <= usize::MAX,
        match e {
            Expr::Add(l, r) | Expr::Sub(l, r) | Expr::Mul(l, r) => l < usize::MAX && r < usize::MAX,
            Expr::Neg(n) => n < usize::MAX,
            _ => true,
        },
    ensures
        gates_match_raw(r@.map_values(|g: R1csGate| gate_view(g)), expr_raw_gate(e, id as int)),
        forall|m: int, g: int| expr_slots_below(e, id as int, m) && 0 <= g < r@.len()
            ==> #[trigger] gate_strict(gates_of(r@)[g], m),
{
    let o = id + 1;
    let mut out: Vec<R1csGate> = Vec::new();
    match e {
        Expr::Const(v) => {
            out.push(const_gate(o, v));
            proof { lemma_canon_single(o, 1); }
        },
        Expr::Var(_) => {},
        Expr::Add(l, r) => {
            out.push(linear_gate(triple(o, 1, l + 1, -1, r + 1, -1)));
        },
        Expr::Sub(l, r) => {
            out.push(linear_gate(triple(o, 1, l + 1, -1, r + 1, 1)));
        },
        Expr::Neg(n) => {
            out.push(linear_gate(pair(o, 1, n + 1, 1)));
        },
        Expr::Mul(l, r) => {
            out.push(R1csGate { a: single(l + 1, 1), b: single(r + 1, 1), c: single(o, 1) });
            proof { lemma_canon_single((l + 1) as usize, 1); }
        },
    }
    proof {
        let gv = out@.map_values(|g: R1csGate| gate_view(g));
        let raw = expr_raw_gate(e, id as int);
        assert(gv.len() == raw.len());
        if gv.len() == 1 {
            assert(gv[0] == gate_view(out@[0]));
        }
        assert(gates_of(out@) == gv);
        assert forall|m: int, g: int| expr_slots_below(e, id as int, m) && 0 <= g < out@.len()
            implies #[trigger] gate_strict(gates_of(out@)[g], m) by {
            assert(gv[g] == gate_view(out@[g]));
            match e {
                Expr::Add(l, r) | Expr::Sub(l, r) => {
                    assert(lin_in_range(seq![(o, 1int), ((l + 1) as usize, -1int), ((r + 1) as usize, 1int)], m));
                    assert(lin_in_range(seq![(o, 1int), ((l + 1) as usize, -1int), ((r + 1) as usize, -1int)], m));
                },
                Expr::Neg(n) => {
                    assert(lin_in_range(seq![(o, 1int), ((n + 1) as usize, 1int)], m));
                },
                _ => {},
            }
        }
    }
    out
}

/// What constraint `c` lowers to: its gates.
fn gates_for_constraint(c: Constraint) -> (r: Vec<R1csGate>)
    requires
        match c {
            Constraint::Zero(e) | Constraint::NonNegative(e) => e < usize::MAX,
            Constraint::Equal(l, r) => l < usize::MAX && r < usize::MAX,
        },
    ensures
        gates_match_raw(r@.map_values(|g: R1csGate| gate_view(g)), constraint_raw_gate(c)),
        forall|m: int, g: int| constraint_slots_below(c, m) && 0 <= g < r@.len()
            ==> #[trigger] gate_strict(gates_of(r@)[g], m),
{
    let mut out: Vec<R1csGate> = Vec::new();
    match c {
        Constraint::Zero(e) => {
            out.push(R1csGate { a: single(e + 1, 1), b: const_one(), c: empty_linear() });
            proof { lemma_canon_single((e + 1) as usize, 1); }
        },
        Constraint::Equal(l, r) => {
            out.push(linear_gate(pair(l + 1, 1, r + 1, -1)));
        },
        Constraint::NonNegative(_) => {},
    }
    proof {
        let gv = out@.map_values(|g: R1csGate| gate_view(g));
        if gv.len() == 1 {
            assert(gv[0] == gate_view(out@[0]));
        }
        assert(gates_of(out@) == gv);
        assert forall|m: int, g: int| constraint_slots_below(c, m) && 0 <= g < out@.len()
            implies #[trigger] gate_strict(gates_of(out@)[g], m) by {
            assert(gv[g] == gate_view(out@[g]));
            match c {
                Constraint::Equal(l, r) => {
                    assert(lin_in_range(seq![((l + 1) as usize, 1int), ((r + 1) as usize, -1int)], m));
                },
                _ => {},
            }
        }
    }
    out
}


pub proof fn lemma_gates_match_concat(gv1: Seq<GateView>, raw1: Seq<GateView>, gv2: Seq<GateView>, raw2: Seq<GateView>)
    requires gates_match_raw(gv1, raw1), gates_match_raw(gv2, raw2),
    ensures gates_match_raw(gv1 + gv2, raw1 + raw2),
{
    let gv = gv1 + gv2;
    let raw = raw1 + raw2;
    assert forall|g: int| 0 <= g < gv.len() implies #[trigger] gv[g] == normalize_gate(raw[g]) by {
        if g < gv1.len() {
            assert(gv[g] == gv1[g] && raw[g] == raw1[g]);
        } else {
            assert(gv[g] == gv2[g - gv1.len()] && raw[g] == raw2[g - gv1.len()]);
        }
    }
    assert forall|g: int, w: Seq<int>| 0 <= g < gv.len() implies #[trigger] lin_eval(gv[g].0, w) == lin_eval(raw[g].0, w) by {
        if g < gv1.len() {
            assert(gv[g] == gv1[g] && raw[g] == raw1[g]);
            assert(lin_eval(gv1[g].0, w) == lin_eval(raw1[g].0, w));
        } else {
            let h = g - gv1.len();
            assert(gv[g] == gv2[h] && raw[g] == raw2[h]);
            assert(lin_eval(gv2[h].0, w) == lin_eval(raw2[h].0, w));
        }
    }
}

/// `r` is the reference R1CS form of `ir`: one witness slot per expression
/// after the constant slot, the gates and assertions that the constraints
/// lower to, every expression, variable and input mapped to its slot, each
/// slot named after the variable or input that occupies it, and every gate
/// listing strictly increasing witness indices.
pub open spec fn reference_lowering(ir: ConstraintSystem, r: R1CS) -> bool {
    &&& r.num_variables == ir.exprs@.len() + 1
    &&& gates_match_raw(r.gates_view(), raw_gates(ir))
    &&& r.assertions@ == constraint_assertions(ir.constraints@)
    &&& r.expr_slots@ == Seq::new(ir.exprs@.len(), |id: int| Some(slot(id)))
    &&& r.var_slots@ == Seq::new(ir.variables@.len(), |v: int| var_slot_of(ir.exprs@, v as usize))
    &&& r.public_slots@ == ir.public_inputs@.map_values(|id: usize| slot(id as int))
    &&& r.secret_slots@ == ir.secret_inputs@.map_values(|id: usize| slot(id as int))
    &&& r.names@.len() == r.num_variables
    &&& forall|s: int| 0 <= s < r.names@.len() ==> match #[trigger] r.names@[s] {
        Some(name) => slot_name(ir, s) == Some(name@),
        None => slot_name(ir, s) is None,
    }
    &&& forall|g: int| 0 <= g < r.gates@.len() ==> #[trigger] gate_strict(r.gates_view()[g], r.num_variables as int)
}

/// Lowers a [`ConstraintSystem`] into R1CS.
///
/// Every expression node gets witness slot `id + 1` (`witness[0]` is the
/// constant `1`). Multiplication becomes a genuine quadratic gate; sums,
/// differences, negations, equality and zero constraints become `A · 1 = 0`
/// gates with `A` normalized; constants are pinned by a dedicated gate;
/// non-negativity becomes an assertion on the expression's slot.
#[verifier::rlimit(60)]
pub fn lower_r1cs(ir: &ConstraintSystem) -> (r: R1CS)
    requires lowerable(*ir),
    ensures
        r.num_variables == ir.exprs@.len() + 1,
        gates_match_raw(r.gates_view(), raw_gates(*ir)),
        r.assertions@ == constraint_assertions(ir.constraints@),
        r.expr_slots@ == Seq::new(ir.exprs@.len(), |id: int| Some(slot(id))),
        r.var_slots@ == Seq::new(ir.variables@.len(), |v: int| var_slot_of(ir.exprs@, v as usize)),
        r.public_slots@ == ir.public_inputs@.map_values(|id: usize| slot(id as int)),
        r.secret_slots@ == ir.secret_inputs@.map_values(|id: usize| slot(id as int)),
        r.names@.len() == r.num_variables,
        forall|s: int| 0 <= s < r.names@.len() ==> match #[trigger] r.names@[s] {
            Some(name) => slot_name(*ir, s) == Some(name@),
            None => slot_name(*ir, s) is None,
        },
        forall|g: int| 0 <= g < r.gates@.len() ==> #[trigger] gate_strict(r.gates_view()[g], r.num_variables as int),
{
    let ghost ex = ir.exprs@;
    let n = ir.exprs.len();
    let nv = ir.variables.len();
    let mut expr_slots: Vec<Option<usize>> = Vec::new();
    let mut var_slots: Vec<Option<usize>> = Vec::new();
    let mut v: usize = 0;
    while v < nv
        invariant
            v <= nv,
            nv == ir.variables@.len(),
            var_slots@ == Seq::new(v as nat, |q: int| Option::<usize>::None),
        decreases nv - v,
    {
        var_slots.push(None);
        v = v + 1;
        assert(var_slots@ =~= Seq::new(v as nat, |q: int| Option::<usize>::None));
    }
    assert(ex.take(0) =~= Seq::<Expr>::empty());
    assert(var_slots@ =~= Seq::new(nv as nat, |q: int| var_slot_of(ex.take(0), q as usize)));
    let mut num_vars: usize = 1;
    let mut id: usize = 0;
    while id < n
        invariant
            id <= n,
            n == ex.len(),
            ex == ir.exprs@,
            nv == ir.variables@.len(),
            lowerable(*ir),
            num_vars == id + 1,
            expr_slots@ == Seq::new(id as nat, |q: int| Some(slot(q))),
            var_slots@ == Seq::new(nv as nat, |q: int| var_slot_of(ex.take(id as int), q as usize)),
        decreases n - id,
    {
        expr_slots.push(Some(num_vars));
        let ghost before = var_slots@;
        assert(ex.take(id + 1).drop_last() =~= ex.take(id as int));
        assert(ex.take(id + 1).last() == ex[id as int]);
        match ir.exprs[id] {
            Expr::Var(var) => {
                assert(var < nv);
                var_slots.set(var, Some(num_vars));
            },
            _ => {},
        }
        num_vars = num_vars + 1;
        id = id + 1;
        assert(expr_slots@ =~= Seq::new(id as nat, |q: int| Some(slot(q))));
        assert(var_slots@ =~= Seq::new(nv as nat, |q: int| var_slot_of(ex.take(id as int), q as usize)));
    }
    assert(ex.take(n as int) =~= ex);

    let ghost top: int = n + 1;
    let mut gates: Vec<R1csGate> = Vec::new();
    let mut id: usize = 0;
    assert(gates@.map_values(|g: R1csGate| gate_view(g)) =~= expr_raw_gates(ex.take(0)));
    while id < n
        invariant
            id <= n,
            n == ex.len(),
            ex == ir.exprs@,
            top == n + 1,
            lowerable(*ir),
            gates_match_raw(gates@.map_values(|g: R1csGate| gate_view(g)), expr_raw_gates(ex.take(id as int))),
            forall|g: int| 0 <= g < gates@.len() ==> #[trigger] gate_strict(gates_of(gates@)[g], top),
        decreases n - id,
    {
        let e = ir.exprs[id];
        assert(ex[id as int] == e);
        let mut more = gates_for_expr(e, id);
        let ghost g1 = gates@.map_values(|g: R1csGate| gate_view(g));
        let ghost g2 = more@.map_values(|g: R1csGate| gate_view(g));
        let ghost old_gates = gates@;
        let ghost more_gates = more@;
        proof {
            lemma_gates_match_concat(g1, expr_raw_gates(ex.take(id as int)), g2, expr_raw_gate(e, id as int));
            assert(ex.take(id + 1).drop_last() =~= ex.take(id as int));
            assert(expr_slots_below(e, id as int, top));
        }
        gates.append(&mut more);
        assert(gates@.map_values(|g: R1csGate| gate_view(g)) =~= g1 + g2);
        proof {
            assert(gates_of(gates@) =~= gates_of(old_gates) + gates_of(more_gates));
            assert forall|g: int| 0 <= g < gates@.len() implies #[trigger] gate_strict(gates_of(gates@)[g], top) by {
                if g < old_gates.len() {
                    assert(gate_strict(gates_of(old_gates)[g], top));
                } else {
                    assert(gate_strict(gates_of(more_gates)[g - old_gates.len()], top));
                }
            }
        }
        id = id + 1;
    }
    assert(ex.take(n as int) =~= ex);

    let ghost cs = ir.constraints@;
    let ghost eg = gates@.map_values(|g: R1csGate| gate_view(g));
    let mut assertions: Vec<R1csAssertion> = Vec::new();
    let mut k: usize = 0;
    assert(cs.take(0) =~= Seq::<Constraint>::empty());
    assert(eg + constraint_raw_gates(cs.take(0)) =~= eg);
    assert(expr_raw_gates(ex) + constraint_raw_gates(cs.take(0)) =~= expr_raw_gates(ex));
    while k < ir.constraints.len()
        invariant
            k <= cs.len(),
            cs == ir.constraints@,
            n == ex.len(),
            ex == ir.exprs@,
            lowerable(*ir),
            top == n + 1,
            gates_match_raw(gates@.map_values(|g: R1csGate| gate_view(g)), expr_raw_gates(ex) + constraint_raw_gates(cs.take(k as int))),
            forall|g: int| 0 <= g < gates@.len() ==> #[trigger] gate_strict(gates_of(gates@)[g], top),
            assertions@ == constraint_assertions(cs.take(k as int)),
        decreases cs.len() - k,
    {
        let c = ir.constraints[k];
        assert(cs[k as int] == c);
        let mut more = gates_for_constraint(c);
        let ghost g1 = gates@.map_values(|g: R1csGate| gate_view(g));
        let ghost g2 = more@.map_values(|g: R1csGate| gate_view(g));
        let ghost old_gates = gates@;
        let ghost more_gates = more@;
        proof {
            assert(constraint_slots_below(c, top));
            lemma_gates_match_concat(g1, expr_raw_gates(ex) + constraint_raw_gates(cs.take(k as int)), g2, constraint_raw_gate(c));
            assert(cs.take(k + 1).drop_last() =~= cs.take(k as int));
            assert(expr_raw_gates(ex) + constraint_raw_gates(cs.take(k + 1)) =~= expr_raw_gates(ex) + constraint_raw_gates(cs.take(k as int)) + constraint_raw_gate(c));
        }
        gates.append(&mut more);
        assert(gates@.map_values(|g: R1csGate| gate_view(g)) =~= g1 + g2);
        proof {
            assert(gates_of(gates@) =~= gates_of(old_gates) + gates_of(more_gates));
            assert forall|g: int| 0 <= g < gates@.len() implies #[trigger] gate_strict(gates_of(gates@)[g], top) by {
                if g < old_gates.len() {
                    assert(gate_strict(gates_of(old_gates)[g], top));
                } else {
                    assert(gate_strict(gates_of(more_gates)[g - old_gates.len()], top));
                }
            }
        }
        match c {
            Constraint::NonNegative(e) => {
                assertions.push(R1csAssertion::NonNegative(e + 1));
            },
            _ => {},
        }
        k = k + 1;
        assert(assertions@ =~= constraint_assertions(cs.take(k as int)));
    }
    assert(cs.take(k as int) =~= cs);

    let mut public_slots: Vec<usize> = Vec::new();
    let mut i: usize = 0;
    while i < ir.public_inputs.len()
        invariant
            i <= ir.public_inputs@.len(),
            lowerable(*ir),
            public_slots@ == ir.public_inputs@.take(i as int).map_values(|id: usize| slot(id as int)),
        decreases ir.public_inputs.len() - i,
    {
        assert(ir.public_inputs@[i as int] < ir.exprs@.len());
        public_slots.push(ir.public_inputs[i] + 1);
        i = i + 1;
        assert(public_slots@ =~= ir.public_inputs@.take(i as int).map_values(|id: usize| slot(id as int)));
    }
    assert(ir.public_inputs@.take(i as int) =~= ir.public_inputs@);
    let mut secret_slots: Vec<usize> = Vec::new();
    let mut i: usize = 0;
    while i < ir.secret_inputs.len()
        invariant
            i <= ir.secret_inputs@.len(),
            lowerable(*ir),
            secret_slots@ == ir.secret_inputs@.take(i as int).map_values(|id: usize| slot(id as int)),
        decreases ir.secret_inputs.len() - i,
    {
        assert(ir.secret_inputs@[i as int] < ir.exprs@.len());
        secret_slots.push(ir.secret_inputs[i] + 1);
        i = i + 1;
        assert(secret_slots@ =~= ir.secret_inputs@.take(i as int).map_values(|id: usize| slot(id as int)));
    }
    assert(ir.secret_inputs@.take(i as int) =~= ir.secret_inputs@);

    let names = slot_names(ir, &var_slots, num_vars);
    let ghost final_gates = gates@;
    let r = R1CS {
        num_variables: num_vars,
        gates,
        assertions,
        public_slots,
        secret_slots,
        expr_slots,
        var_slots,
        names,
    };
    proof {
        assert(r.gates_view() == gates_of(final_gates));
        assert forall|g: int| 0 <= g < r.gates@.len() implies #[trigger] gate_strict(r.gates_view()[g], r.num_variables as int) by {
            assert(gate_strict(gates_of(final_gates)[g], top));
        }
    }
    r
}

/// The slot of a variable is that of a `Var` expression for it.
pub proof fn lemma_var_slot(ex: Seq<Expr>, v: usize)
    requires ex.len() <= usize::MAX,
    ensures
        var_slot_of(ex, v) matches Some(s) ==> 1 <= s <= ex.len() && ex[s - 1] == Expr::Var(v),
    decreases ex.len(),
{
    if ex.len() > 0 && ex.last() != Expr::Var(v) {
        lemma_var_slot(ex.drop_last(), v);
    }
}

/// [`slot_name`] restricted to the variables below `k`.
pub open spec fn slot_name_upto(ir: ConstraintSystem, s: int, k: int) -> Option<Seq<char>> {
    if s == 0 {
        Some("1"@)
    } else if 1 <= s <= ir.exprs@.len() {
        match ir.exprs@[s - 1] {
            Expr::Var(v) => if v < k && v < ir.variables@.len() && var_slot_of(ir.exprs@, v) == Some(s as usize) {
                Some(ir.variables@[v as int].name@)
            } else {
                None
            },
            _ => None,
        }
    } else {
        None
    }
}

fn slot_names(ir: &ConstraintSystem, var_slots: &Vec<Option<usize>>, num_vars: usize) -> (names: Vec<Option<String>>)
    requires
        num_vars == ir.exprs@.len() + 1,
        var_slots@ == Seq::new(ir.variables@.len() as nat, |v: int| var_slot_of(ir.exprs@, v as usize)),
    ensures
        names@.len() == num_vars,
        forall|s: int| 0 <= s < names@.len() ==> match #[trigger] names@[s] {
            Some(name) => slot_name(*ir, s) == Some(name@),
            None => slot_name(*ir, s) is None,
        },
{
    let mut names: Vec<Option<String>> = Vec::new();
    let mut s: usize = 0;
    while s < num_vars
        invariant
            s <= num_vars,
            names@.len() == s,
            forall|q: int| 0 <= q < s ==> (#[trigger] names@[q]) is None,
        decreases num_vars - s,
    {
        names.push(None);
        s = s + 1;
    }
    names.set(0, Some(String::from_str("1")));
    let nv = ir.variables.len();
    let mut vid: usize = 0;
    while vid < nv
        invariant
            vid <= nv,
            nv == ir.variables@.len(),
            num_vars == ir.exprs@.len() + 1,
            var_slots@ == Seq::new(ir.variables@.len() as nat, |v: int| var_slot_of(ir.exprs@, v as usize)),
            names@.len() == num_vars,
            forall|q: int| 0 <= q < names@.len() ==> match #[trigger] names@[q] {
                Some(name) => slot_name_upto(*ir, q, vid as int) == Some(name@),
                None => slot_name_upto(*ir, q, vid as int) is None,
            },
        decreases nv - vid,
    {
        let ghost before = names@;
        proof { lemma_var_slot(ir.exprs@, vid); }
        assert(var_slots@[vid as int] == var_slot_of(ir.exprs@, vid));
        match var_slots[vid] {
            Some(sl) => {
                names.set(sl, Some(ir.variables[vid].name.clone()));
            },
            None => {},
        }
        proof {
            assert forall|q: int| 0 <= q < names@.len() implies match #[trigger] names@[q] {
                Some(name) => slot_name_upto(*ir, q, vid + 1) == Some(name@),
                None => slot_name_upto(*ir, q, vid + 1) is None,
            } by {
                if q >= 1 {
                    match ir.exprs@[q - 1] {
                        Expr::Var(v) => {
                            if v == vid && var_slot_of(ir.exprs@, v) == Some(q as usize) {
                                assert(names@[q] == Some(ir.variables@[vid as int].name));
                            } else {
                                if var_slot_of(ir.exprs@, vid) == Some(q as usize) {
                                    assert(ir.exprs@[q - 1] == Expr::Var(vid));
                                }
                                assert(names@[q] == before[q]);
                            }
                        },
                        _ => {
                            if var_slot_of(ir.exprs@, vid) == Some(q as usize) {
                                assert(ir.exprs@[q - 1] == Expr::Var(vid));
                            }
                            assert(names@[q] == before[q]);
                        },
                    }
                } else {
                    if var_slot_of(ir.exprs@, vid) == Some(q as usize) {
                        assert(false);
                    }
                    assert(names@[q] == before[q]);
                }
            }
        }
        vid = vid + 1;
    }
    proof { reveal_strlit("1"); }
    names
}

fn copy_linear(l: &Linear) -> (r: Linear)
    ensures r@ == l@,
{
    let mut r: Linear = Vec::new();
    let mut i: usize = 0;
    while i < l.len()
        invariant
            i <= l.len(),
            r@ == l@.take(i as int),
        decreases l.len() - i,
    {
        r.push(l[i]);
        i = i + 1;
        assert(r@ =~= l@.take(i as int));
    }
    assert(l@.take(i as int) =~= l@);
    r
}

impl R1csGate {
    fn clone_gate(&self) -> (r: R1csGate)
        ensures gate_view(r) == gate_view(*self),
    {
        R1csGate { a: copy_linear(&self.a), b: copy_linear(&self.b), c: copy_linear(&self.c) }
    }
}


/// Every gate of the list holds at `w`.
pub open spec fn all_raw_hold(gs: Seq<GateView>, w: Seq<int>) -> bool {
    forall|g: int| 0 <= g < gs.len() ==> gate_holds(#[trigger] gs[g], w)
}

/// The defining equation of expression `id` over witness slots.
pub open spec fn expr_equation(e: Expr, id: int, w: Seq<int>) -> bool {
    let o = slot(id) as int;
    match e {
        Expr::Const(v) => w[o] == v,
        Expr::Var(_) => true,
        Expr::Add(l, r) => w[o] == w[slot(l as int) as int] + w[slot(r as int) as int],
        Expr::Sub(l, r) => w[o] == w[slot(l as int) as int] - w[slot(r as int) as int],
        Expr::Mul(l, r) => w[o] == w[slot(l as int) as int] * w[slot(r as int) as int],
        Expr::Neg(n) => w[o] == -w[slot(n as int) as int],
    }
}

/// A constraint over the witness slots of its expressions.
pub open spec fn constraint_at_slots(c: Constraint, w: Seq<int>) -> bool {
    match c {
        Constraint::Zero(e) => w[slot(e as int) as int] == 0,
        Constraint::Equal(l, r) => w[slot(l as int) as int] == w[slot(r as int) as int],
        Constraint::NonNegative(e) => w[slot(e as int) as int] >= 0,
    }
}

/// The ordering (non-gate) part of a constraint over witness slots.
pub open spec fn constraint_assertion_ok(c: Constraint, w: Seq<int>) -> bool {
    match c {
        Constraint::NonNegative(e) => w[slot(e as int) as int] >= 0,
        _ => true,
    }
}

/// A constraint over witness slots, as gates.
pub open spec fn constraint_gate_ok(c: Constraint, w: Seq<int>) -> bool {
    match c {
        Constraint::NonNegative(_) => true,
        _ => constraint_at_slots(c, w),
    }
}

pub proof fn lemma_all_raw_concat(a: Seq<GateView>, b: Seq<GateView>, w: Seq<int>)
    ensures all_raw_hold(a + b, w) <==> all_raw_hold(a, w) && all_raw_hold(b, w),
{
    if all_raw_hold(a, w) && all_raw_hold(b, w) {
        assert forall|g: int| 0 <= g < (a + b).len() implies gate_holds(#[trigger] (a + b)[g], w) by {
            if g < a.len() {
                assert((a + b)[g] == a[g]);
            } else {
                assert((a + b)[g] == b[g - a.len()]);
            }
        }
    }
    if all_raw_hold(a + b, w) {
        assert forall|g: int| 0 <= g < a.len() implies gate_holds(#[trigger] a[g], w) by {
            assert((a + b)[g] == a[g]);
        }
        assert forall|g: int| 0 <= g < b.len() implies gate_holds(#[trigger] b[g], w) by {
            assert((a + b)[g + a.len()] == b[g]);
        }
    }
}

proof fn lemma_lin_single(i: usize, c: int, w: Seq<int>)
    ensures lin_eval(seq![(i, c)], w) == c * w[i as int],
{
    reveal_with_fuel(lin_eval, 2);
    let s = seq![(i, c)];
    assert(s.drop_last() =~= Seq::<(usize, int)>::empty());
}

proof fn lemma_lin_pair(i: usize, c: int, j: usize, d: int, w: Seq<int>)
    ensures lin_eval(seq![(i, c), (j, d)], w) == c * w[i as int] + d * w[j as int],
{
    let s = seq![(i, c), (j, d)];
    assert(s.drop_last() =~= seq![(i, c)]);
    lemma_lin_single(i, c, w);
}

proof fn lemma_lin_triple(i: usize, c: int, j: usize, d: int, k: usize, e: int, w: Seq<int>)
    ensures lin_eval(seq![(i, c), (j, d), (k, e)], w) == c * w[i as int] + d * w[j as int] + e * w[k as int],
{
    let s = seq![(i, c), (j, d), (k, e)];
    assert(s.drop_last() =~= seq![(i, c), (j, d)]);
    lemma_lin_pair(i, c, j, d, w);
}

proof fn lemma_lin_unit(i: usize, w: Seq<int>)
    ensures lin_eval(seq![(i, 1int)], w) == w[i as int],
{
    reveal_with_fuel(lin_eval, 2);
    let s = seq![(i, 1int)];
    assert(s.drop_last() =~= Seq::<(usize, int)>::empty());
    let c = s.last().1;
    let v = w[s.last().0 as int];
    assert(c * v == v) by (nonlinear_arith) requires c == 1;
}

proof fn lemma_unit_gate(a: Seq<(usize, int)>, w: Seq<int>)
    requires w.len() > 0, w[0] == 1,
    ensures gate_holds((a, const1(), Seq::empty()), w) <==> lin_eval(a, w) == 0,
{
    reveal_with_fuel(lin_eval, 2);
    assert(lin_eval(const1(), w) == 1);
    let x = lin_eval(a, w);
    assert(x * 1 == x) by (nonlinear_arith);
}

/// A raw expression gate holds exactly when the expression's equation does.
pub proof fn lemma_expr_raw_gate(e: Expr, id: int, w: Seq<int>)
    requires w.len() > 0, w[0] == 1,
    ensures all_raw_hold(expr_raw_gate(e, id), w) <==> expr_equation(e, id, w),
{
    reveal_with_fuel(lin_eval, 4);
    let gs = expr_raw_gate(e, id);
    match e {
        Expr::Var(_) => {},
        Expr::Mul(l, r) => {
            let a = w[slot(l as int) as int];
            let b = w[slot(r as int) as int];
            let o = w[slot(id) as int];
            lemma_lin_unit(slot(l as int), w);
            lemma_lin_unit(slot(r as int), w);
            lemma_lin_unit(slot(id), w);
            assert(lin_eval(gs[0].0, w) == a);
            assert(lin_eval(gs[0].1, w) == b);
            assert(lin_eval(gs[0].2, w) == o);
            assert(gate_holds(gs[0], w) <==> expr_equation(e, id, w));
        },
        Expr::Const(v) => {
            let o = w[slot(id) as int];
            lemma_lin_unit(slot(id), w);
            lemma_lin_unit(0, w);
            lemma_lin_single(0, v as int, w);
            assert(lin_eval(gs[0].0, w) == o);
            assert(lin_eval(gs[0].1, w) == w[0]);
            let vv = v as int;
            let w0 = w[0];
            assert(vv * w0 == vv) by (nonlinear_arith) requires w0 == 1;
            assert(lin_eval(gs[0].2, w) == vv);
            assert(o * w0 == o) by (nonlinear_arith) requires w0 == 1;
            assert(gate_holds(gs[0], w) <==> expr_equation(e, id, w));
        },
        Expr::Add(l, r) => {
            lemma_unit_gate(gs[0].0, w);
            lemma_lin_triple(slot(id), 1, slot(l as int), -1, slot(r as int), -1, w);
        },
        Expr::Sub(l, r) => {
            lemma_unit_gate(gs[0].0, w);
            lemma_lin_triple(slot(id), 1, slot(l as int), -1, slot(r as int), 1, w);
        },
        Expr::Neg(n) => {
            lemma_unit_gate(gs[0].0, w);
            lemma_lin_pair(slot(id), 1, slot(n as int), 1, w);
        },
    }
}

/// The raw gates of all expressions hold exactly when every expression's
/// equation does.
pub proof fn lemma_expr_raw_gates(ex: Seq<Expr>, w: Seq<int>)
    requires w.len() > 0, w[0] == 1,
    ensures
        all_raw_hold(expr_raw_gates(ex), w) <==> forall|id: int| 0 <= id < ex.len() ==> expr_equation(#[trigger] ex[id], id, w),
    decreases ex.len(),
{
    if ex.len() > 0 {
        let d = ex.drop_last();
        lemma_expr_raw_gates(d, w);
        lemma_all_raw_concat(expr_raw_gates(d), expr_raw_gate(ex.last(), ex.len() - 1), w);
        lemma_expr_raw_gate(ex.last(), ex.len() - 1, w);
        if forall|id: int| 0 <= id < d.len() ==> expr_equation(#[trigger] d[id], id, w) {
            if expr_equation(ex.last(), ex.len() - 1, w) {
                assert forall|id: int| 0 <= id < ex.len() implies expr_equation(#[trigger] ex[id], id, w) by {
                    if id < d.len() {
                        assert(ex[id] == d[id]);
                    }
                }
            }
        }
        if forall|id: int| 0 <= id < ex.len() ==> expr_equation(#[trigger] ex[id], id, w) {
            assert forall|id: int| 0 <= id < d.len() implies expr_equation(#[trigger] d[id], id, w) by {
                assert(ex[id] == d[id]);
            }
            assert(expr_equation(ex[ex.len() - 1], ex.len() - 1, w));
        }
    }
}

/// A raw constraint gate holds exactly when the constraint's gate part does.
pub proof fn lemma_constraint_raw_gate(c: Constraint, w: Seq<int>)
    requires w.len() > 0, w[0] == 1,
    ensures all_raw_hold(constraint_raw_gate(c), w) <==> constraint_gate_ok(c, w),
{
    reveal_with_fuel(lin_eval, 3);
    let gs = constraint_raw_gate(c);
    match c {
        Constraint::NonNegative(_) => {},
        Constraint::Zero(e) => {
            lemma_unit_gate(gs[0].0, w);
            lemma_lin_unit(slot(e as int), w);
        },
        Constraint::Equal(l, r) => {
            lemma_unit_gate(gs[0].0, w);
            lemma_lin_pair(slot(l as int), 1, slot(r as int), -1, w);
        },
    }
}

/// The raw gates of all constraints hold exactly when every constraint's
/// gate part does.
pub proof fn lemma_constraint_raw_gates(cs: Seq<Constraint>, w: Seq<int>)
    requires w.len() > 0, w[0] == 1,
    ensures
        all_raw_hold(constraint_raw_gates(cs), w) <==> forall|k: int| 0 <= k < cs.len() ==> constraint_gate_ok(#[trigger] cs[k], w),
    decreases cs.len(),
{
    if cs.len() > 0 {
        let d = cs.drop_last();
        lemma_constraint_raw_gates(d, w);
        lemma_all_raw_concat(constraint_raw_gates(d), constraint_raw_gate(cs.last()), w);
        lemma_constraint_raw_gate(cs.last(), w);
        if forall|k: int| 0 <= k < cs.len() ==> constraint_gate_ok(#[trigger] cs[k], w) {
            assert forall|k: int| 0 <= k < d.len() implies constraint_gate_ok(#[trigger] d[k], w) by {
                assert(cs[k] == d[k]);
            }
            assert(constraint_gate_ok(cs[cs.len() - 1], w));
        }
        if forall|k: int| 0 <= k < d.len() ==> constraint_gate_ok(#[trigger] d[k], w) {
            if constraint_gate_ok(cs.last(), w) {
                assert forall|k: int| 0 <= k < cs.len() implies constraint_gate_ok(#[trigger] cs[k], w) by {
                    if k < d.len() {
                        assert(cs[k] == d[k]);
                    }
                }
            }
        }
    }
}

/// The assertion `NonNegative(s)` holds at `w`.
pub open spec fn assertion_ok(a: R1csAssertion, w: Seq<int>) -> bool {
    match a {
        R1csAssertion::NonNegative(s) => w[s as int] >= 0,
    }
}

/// The assertions of all constraints hold exactly when every constraint's
/// ordering part does.
pub proof fn lemma_constraint_assertions(cs: Seq<Constraint>, w: Seq<int>)
    ensures
        (forall|k: int| 0 <= k < constraint_assertions(cs).len() ==> assertion_ok(#[trigger] constraint_assertions(cs)[k], w))
            <==> forall|k: int| 0 <= k < cs.len() ==> constraint_assertion_ok(#[trigger] cs[k], w),
    decreases cs.len(),
{
    if cs.len() > 0 {
        let d = cs.drop_last();
        lemma_constraint_assertions(d, w);
        let a = constraint_assertions(d);
        let b: Seq<R1csAssertion> = match cs.last() {
            Constraint::NonNegative(e) => seq![R1csAssertion::NonNegative(slot(e as int))],
            _ => Seq::empty(),
        };
        let all = constraint_assertions(cs);
        assert(all == a + b);
        if forall|k: int| 0 <= k < all.len() ==> assertion_ok(#[trigger] all[k], w) {
            assert forall|k: int| 0 <= k < a.len() implies assertion_ok(#[trigger] a[k], w) by {
                assert(all[k] == a[k]);
            }
            if b.len() == 1 {
                assert(all[a.len() as int] == b[0]);
            }
            assert forall|k: int| 0 <= k < cs.len() implies constraint_assertion_ok(#[trigger] cs[k], w) by {
                if k < d.len() {
                    assert(cs[k] == d[k]);
                }
            }
        }
        if forall|k: int| 0 <= k < cs.len() ==> constraint_assertion_ok(#[trigger] cs[k], w) {
            assert forall|k: int| 0 <= k < d.len() implies constraint_assertion_ok(#[trigger] d[k], w) by {
                assert(cs[k] == d[k]);
            }
            assert(constraint_assertion_ok(cs[cs.len() - 1], w));
            assert forall|k: int| 0 <= k < all.len() implies assertion_ok(#[trigger] all[k], w) by {
                if k < a.len() {
                    assert(all[k] == a[k]);
                } else {
                    assert(all[k] == b[k - a.len()]);
                }
            }
        }
    }
}

/// The R1CS lowering agrees with the IR: a witness with `witness[0] == 1`
/// passes every gate and assertion of the lowered circuit exactly when every
/// expression slot satisfies its expression's equation and every constraint
/// holds over the slots.
pub proof fn law_r1cs_accepts_exactly_satisfying_witnesses(ir: ConstraintSystem, r: R1CS, w: Seq<int>)
    requires
        lowerable(ir),
        gates_match_raw(r.gates_view(), raw_gates(ir)),
        r.assertions@ == constraint_assertions(ir.constraints@),
        w.len() == ir.exprs@.len() + 1,
        w[0] == 1,
    ensures
        (r.all_gates_hold(w) && forall|k: int| 0 <= k < r.assertions@.len() ==> #[trigger] r.assertion_holds(k, w))
            <==> (forall|id: int| 0 <= id < ir.exprs@.len() ==> expr_equation(#[trigger] ir.exprs@[id], id, w))
                && (forall|k: int| 0 <= k < ir.constraints@.len() ==> constraint_at_slots(#[trigger] ir.constraints@[k], w)),
{
    let gv = r.gates_view();
    let raw = raw_gates(ir);
    assert forall|g: int| 0 <= g < gv.len() implies (gate_holds(#[trigger] gv[g], w) <==> gate_holds(raw[g], w)) by {
        assert(lin_eval(gv[g].0, w) == lin_eval(raw[g].0, w));
        assert(gv[g] == normalize_gate(raw[g]));
    }
    assert(gv.len() == r.gates@.len());
    if r.all_gates_hold(w) {
        assert forall|g: int| 0 <= g < raw.len() implies gate_holds(#[trigger] raw[g], w) by {
            assert(gate_holds(gv[g], w));
        }
    }
    if all_raw_hold(raw, w) {
        assert forall|g: int| 0 <= g < r.gates@.len() implies gate_holds(#[trigger] r.gates_view()[g], w) by {
            assert(gate_holds(raw[g], w));
        }
    }
    lemma_all_raw_concat(expr_raw_gates(ir.exprs@), constraint_raw_gates(ir.constraints@), w);
    lemma_expr_raw_gates(ir.exprs@, w);
    lemma_constraint_raw_gates(ir.constraints@, w);
    lemma_constraint_assertions(ir.constraints@, w);
    let cs = ir.constraints@;
    let asr = r.assertions@;
    assert((forall|k: int| 0 <= k < asr.len() ==> #[trigger] r.assertion_holds(k, w))
        <==> (forall|k: int| 0 <= k < asr.len() ==> assertion_ok(#[trigger] asr[k], w))) by {
        assert forall|k: int| 0 <= k < asr.len() implies (#[trigger] r.assertion_holds(k, w) <==> assertion_ok(asr[k], w)) by {}
        if forall|k: int| 0 <= k < asr.len() ==> assertion_ok(#[trigger] asr[k], w) {
            assert forall|k: int| 0 <= k < asr.len() implies #[trigger] r.assertion_holds(k, w) by {
                assert(assertion_ok(asr[k], w));
            }
        }
        if forall|k: int| 0 <= k < asr.len() ==> #[trigger] r.assertion_holds(k, w) {
            assert forall|k: int| 0 <= k < asr.len() implies assertion_ok(#[trigger] asr[k], w) by {
                assert(r.assertion_holds(k, w));
            }
        }
    }
    assert((forall|k: int| 0 <= k < cs.len() ==> constraint_at_slots(#[trigger] cs[k], w))
        <==> (forall|k: int| 0 <= k < cs.len() ==> constraint_gate_ok(#[trigger] cs[k], w))
            && (forall|k: int| 0 <= k < cs.len() ==> constraint_assertion_ok(#[trigger] cs[k], w))) by {
        if (forall|k: int| 0 <= k < cs.len() ==> constraint_gate_ok(#[trigger] cs[k], w))
            && (forall|k: int| 0 <= k < cs.len() ==> constraint_assertion_ok(#[trigger] cs[k], w)) {
            assert forall|k: int| 0 <= k < cs.len() implies constraint_at_slots(#[trigger] cs[k], w) by {
                assert(constraint_gate_ok(cs[k], w) && constraint_assertion_ok(cs[k], w));
            }
        }
    }
}

/// The witness that assigns every expression slot its value under `x`.
pub open spec fn honest_witness(ir: ConstraintSystem, x: spec_fn(usize) -> int) -> Seq<int> {
    Seq::new((ir.exprs@.len() + 1) as nat, |i: int| if i == 0 { 1 } else { expr_value(ir.exprs@, i - 1, x) })
}

/// Under the witness that evaluates every expression honestly, the lowered
/// R1CS accepts exactly when every constraint of the IR holds.
pub proof fn law_r1cs_honest_witness_accepted_iff_constraints_hold(ir: ConstraintSystem, r: R1CS, x: spec_fn(usize) -> int)
    requires
        lowerable(ir),
        exprs_ordered(ir.exprs@),
        gates_match_raw(r.gates_view(), raw_gates(ir)),
        r.assertions@ == constraint_assertions(ir.constraints@),
    ensures
        (r.all_gates_hold(honest_witness(ir, x)) && forall|k: int| 0 <= k < r.assertions@.len()
            ==> #[trigger] r.assertion_holds(k, honest_witness(ir, x)))
            <==> forall|k: int| 0 <= k < ir.constraints@.len() ==> constraint_holds(ir.exprs@, #[trigger] ir.constraints@[k], x),
{
    let w = honest_witness(ir, x);
    let ex = ir.exprs@;
    law_r1cs_accepts_exactly_satisfying_witnesses(ir, r, w);
    assert forall|id: int| 0 <= id < ex.len() implies expr_equation(#[trigger] ex[id], id, w) by {
        assert(w[id + 1] == expr_value(ex, id, x));
        match ex[id] {
            Expr::Add(l, r) | Expr::Sub(l, r) | Expr::Mul(l, r) => {
                assert(w[l + 1] == expr_value(ex, l as int, x));
                assert(w[r + 1] == expr_value(ex, r as int, x));
            },
            Expr::Neg(n) => {
                assert(w[n + 1] == expr_value(ex, n as int, x));
            },
            _ => {},
        }
    }
    let cs = ir.constraints@;
    assert forall|k: int| 0 <= k < cs.len() implies (constraint_at_slots(#[trigger] cs[k], w) <==> constraint_holds(ex, cs[k], x)) by {
        match cs[k] {
            Constraint::Zero(e) | Constraint::NonNegative(e) => {
                assert(w[e + 1] == expr_value(ex, e as int, x));
            },
            Constraint::Equal(l, r) => {
                assert(w[l + 1] == expr_value(ex, l as int, x));
                assert(w[r + 1] == expr_value(ex, r as int, x));
            },
        }
    }
}


/// Each variable has at most one `Var` node.
pub open spec fn unique_var_nodes(ir: ConstraintSystem) -> bool {
    forall|j: int, k: int| 0 <= j < ir.exprs@.len() && 0 <= k < ir.exprs@.len()
        && #[trigger] ir.exprs@[j] is Var && #[trigger] ir.exprs@[k] == ir.exprs@[j] ==> j == k
}

/// With a single `Var(v)` node, at `j`, the variable's slot is that node's.
pub proof fn lemma_var_slot_unique(exprs: Seq<Expr>, v: usize, j: int)
    requires
        0 <= j < exprs.len(),
        exprs[j] == Expr::Var(v),
        forall|k: int| 0 <= k < exprs.len() && #[trigger] exprs[k] == Expr::Var(v) ==> k == j,
    ensures var_slot_of(exprs, v) == Some(slot(j)),
    decreases exprs.len(),
{
    if j < exprs.len() - 1 {
        let d = exprs.drop_last();
        assert(exprs.last() != Expr::Var(v));
        assert forall|k: int| 0 <= k < d.len() && #[trigger] d[k] == Expr::Var(v) implies k == j by {
            assert(exprs[k] == d[k]);
        }
        lemma_var_slot_unique(d, v, j);
    }
}

/// Where the R1CS lowering puts everything, when each variable has at most
/// one `Var` node (as the builder guarantees): one slot per expression after
/// the constant slot `0`, named `1`; expression `i` at slot `i + 1`; each
/// input at its expression's slot; each variable at the slot of its `Var`
/// node, which carries the variable's name; every other slot unnamed.
pub proof fn law_lowering_slots_and_names(ir: ConstraintSystem, r: R1CS)
    requires
        lowerable(ir),
        unique_var_nodes(ir),
        reference_lowering(ir, r),
    ensures
        r.num_variables == ir.exprs@.len() + 1,
        forall|i: int| 0 <= i < ir.exprs@.len() ==> #[trigger] r.expr_slots@[i] == Some((i + 1) as usize),
        r.public_slots@ == ir.public_inputs@.map_values(|p: usize| (p + 1) as usize),
        r.secret_slots@ == ir.secret_inputs@.map_values(|p: usize| (p + 1) as usize),
        r.names@[0] matches Some(n) && n@ == "1"@,
        forall|j: int| 0 <= j < ir.exprs@.len() && (#[trigger] ir.exprs@[j]) is Var ==> {
            &&& r.var_slots@[ir.exprs@[j]->Var_0 as int] == Some((j + 1) as usize)
            &&& r.names@[j + 1] matches Some(n) && n@ == ir.variables@[ir.exprs@[j]->Var_0 as int].name@
        },
        forall|j: int| 0 <= j < ir.exprs@.len() && !((#[trigger] ir.exprs@[j]) is Var) ==> r.names@[j + 1] is None,
{
    assert(slot_name(ir, 0) == Some("1"@));
    assert(r.names@[0] matches Some(n) && n@ == "1"@) by {
        assert(0 < r.names@.len());
    }
    assert(r.public_slots@ =~= ir.public_inputs@.map_values(|p: usize| (p + 1) as usize));
    assert(r.secret_slots@ =~= ir.secret_inputs@.map_values(|p: usize| (p + 1) as usize));
    assert forall|j: int| 0 <= j < ir.exprs@.len() && (#[trigger] ir.exprs@[j]) is Var implies {
        &&& r.var_slots@[ir.exprs@[j]->Var_0 as int] == Some((j + 1) as usize)
        &&& r.names@[j + 1] matches Some(n) && n@ == ir.variables@[ir.exprs@[j]->Var_0 as int].name@
    } by {
        let v = ir.exprs@[j]->Var_0;
        assert(v < ir.variables@.len());
        assert forall|k: int| 0 <= k < ir.exprs@.len() && #[trigger] ir.exprs@[k] == Expr::Var(v) implies k == j by {}
        lemma_var_slot_unique(ir.exprs@, v, j);
        assert(slot_name(ir, j + 1) == Some(ir.variables@[v as int].name@));
        assert(0 <= j + 1 < r.names@.len());
    }
    assert forall|j: int| 0 <= j < ir.exprs@.len() && !((#[trigger] ir.exprs@[j]) is Var) implies r.names@[j + 1] is None by {
        assert(slot_name(ir, j + 1) is None);
        assert(0 <= j + 1 < r.names@.len());
    }
}

} // verus!
