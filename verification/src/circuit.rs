//! Core IR types: the expression DAG, variable classification, constraints,
//! and the builder that circuit lowering uses.
use vstd::prelude::*;

use crate::text::{decimal, push_decimal};

verus! {

/// A handle to a node in the constraint system's expression table.
pub type ExprId = usize;

/// Integer scalar model used across the IR.
pub type Scalar = i64;

/// Whether a variable is public (visible to the verifier) or secret (witness).
#[derive(Clone, Copy, Debug, PartialEq, Eq, Structural)]
pub enum Visibility {
    /// Public input or output of the circuit.
    Public,
    /// Secret witness value, hidden from the verifier.
    Secret,
}

/// Metadata about a named variable.
#[derive(Clone, Debug, PartialEq, Eq)]
pub struct VariableInfo {
    /// Human-readable name carried over from the function's parameter.
    pub name: String,
    /// Public or secret.
    pub visibility: Visibility,
}

/// A node in the arithmetic expression DAG; `ExprId`s refer into the table.
#[derive(Clone, Copy, Debug, PartialEq, Eq, Structural)]
pub enum Expr {
    /// A constant.
    Const(Scalar),
    /// Reference to the variable at `variables[index]`.
    Var(usize),
    /// `l + r`
    Add(ExprId, ExprId),
    /// `l - r`
    Sub(ExprId, ExprId),
    /// `l * r`
    Mul(ExprId, ExprId),
    /// `-e`
    Neg(ExprId),
}

/// A logical constraint the circuit must enforce.
#[derive(Clone, Copy, Debug, PartialEq, Eq, Structural)]
pub enum Constraint {
    /// `e == 0`.
    Zero(ExprId),
    /// `l == r`.
    Equal(ExprId, ExprId),
    /// `e >= 0`.
    NonNegative(ExprId),
}

/// A complete, backend-agnostic arithmetic program.
#[derive(Clone, Debug, Default, PartialEq, Eq)]
pub struct ConstraintSystem {
    /// Circuit name.
    pub name: String,
    /// Metadata for every named variable; index is the `Var` id.
    pub variables: Vec<VariableInfo>,
    /// Expression table; `Expr::Var(i)` indexes into `variables`.
    pub exprs: Vec<Expr>,
    /// `ExprId`s declared as public inputs (public outputs included).
    pub public_inputs: Vec<ExprId>,
    /// `ExprId`s declared as secret witnesses.
    pub secret_inputs: Vec<ExprId>,
    /// The logical constraints.
    pub constraints: Vec<Constraint>,
}

/// The text of a constraint, as `Debug` renders it.
pub open spec fn constraint_text(c: Constraint) -> Seq<char> {
    match c {
        Constraint::Zero(e) => "Zero("@ + decimal(e as nat) + ")"@,
        Constraint::Equal(l, r) => "Equal("@ + decimal(l as nat) + ", "@ + decimal(r as nat) + ")"@,
        Constraint::NonNegative(e) => "NonNegative("@ + decimal(e as nat) + ")"@,
    }
}

/// The constraint lines of a description.
pub open spec fn constraints_text(cs: Seq<Constraint>) -> Seq<char>
    decreases cs.len(),
{
    if cs.len() == 0 {
        Seq::empty()
    } else {
        constraints_text(cs.drop_last()) + "    "@ + constraint_text(cs.last()) + "\n"@
    }
}

impl ConstraintSystem {
    /// Expression `id` is a variable whose name is `name`.
    pub open spec fn names_var(&self, id: int, name: Seq<char>) -> bool {
        &&& 0 <= id < self.exprs@.len()
        &&& self.exprs@[id] matches Expr::Var(v) && v < self.variables@.len()
            && self.variables@[v as int].name@ == name
    }

    /// The input lines of a description for the given id list.
    pub open spec fn inputs_text(&self, kind: Seq<char>, ids: Seq<ExprId>) -> Seq<char>
        decreases ids.len(),
    {
        if ids.len() == 0 {
            Seq::empty()
        } else {
            self.inputs_text(kind, ids.drop_last()) + match self.exprs@[ids.last() as int] {
                Expr::Var(v) => if v < self.variables@.len() {
                    "  "@ + kind + " input "@ + self.variables@[v as int].name@ + "\n"@
                } else {
                    Seq::empty()
                },
                _ => Seq::empty(),
            }
        }
    }

    /// The full textual description of the circuit.
    pub open spec fn describe_text(&self) -> Seq<char> {
        "circuit "@ + self.name@ + " {\n"@ + self.inputs_text("public"@, self.public_inputs@)
            + self.inputs_text("secret"@, self.secret_inputs@) + "  constraints\n"@
            + constraints_text(self.constraints@) + "}"@
    }

    /// Every declared input refers to an expression of the table.
    pub open spec fn inputs_in_range(&self) -> bool {
        &&& forall|i: int| 0 <= i < self.public_inputs@.len() ==> #[trigger] self.public_inputs@[i] < self.exprs@.len()
        &&& forall|i: int| 0 <= i < self.secret_inputs@.len() ==> #[trigger] self.secret_inputs@[i] < self.exprs@.len()
    }

    /// Returns the id of the first variable expression named `name`, if any.
    pub fn variable_id(&self, name: &str) -> (r: Option<usize>)
        ensures
            match r {
                Some(id) => self.names_var(id as int, name@) && forall|j: int| 0 <= j < id ==> !self.names_var(j, name@),
                None => forall|j: int| !self.names_var(j, name@),
            },
    {
        let target = String::from_str(name);
        let mut id: usize = 0;
        while id < self.exprs.len()
            invariant
                id <= self.exprs.len(),
                target@ == name@,
                forall|j: int| 0 <= j < id ==> !self.names_var(j, name@),
            decreases self.exprs.len() - id,
        {
            match self.exprs[id] {
                Expr::Var(v) => {
                    if v < self.variables.len() && self.variables[v].name == target {
                        return Some(id);
                    }
                },
                _ => {},
            }
            id = id + 1;
        }
        None
    }

    /// Number of named public inputs and outputs.
    pub fn num_public(&self) -> (r: usize)
        ensures r == self.public_inputs@.len(),
    {
        self.public_inputs.len()
    }

    /// Number of secret witness variables declared.
    pub fn num_secret(&self) -> (r: usize)
        ensures r == self.secret_inputs@.len(),
    {
        self.secret_inputs.len()
    }

    fn push_inputs(&self, out: &mut String, kind: &str, ids: &Vec<ExprId>)
        requires
            forall|i: int| 0 <= i < ids@.len() ==> #[trigger] ids@[i] < self.exprs@.len(),
        ensures
            final(out)@ == old(out)@ + self.inputs_text(kind@, ids@),
    {
        let mut i: usize = 0;
        while i < ids.len()
            invariant
                i <= ids.len(),
                forall|k: int| 0 <= k < ids@.len() ==> #[trigger] ids@[k] < self.exprs@.len(),
                out@ == old(out)@ + self.inputs_text(kind@, ids@.take(i as int)),
            decreases ids.len() - i,
        {
            let id = ids[i];
            let ghost before = out@;
            match self.exprs[id] {
                Expr::Var(v) => {
                    if v < self.variables.len() {
                        out.append("  ");
                        out.append(kind);
                        out.append(" input ");
                        out.append(self.variables[v].name.as_str());
                        out.append("\n");
                    }
                },
                _ => {},
            }
            proof {
                assert(ids@.take(i + 1).drop_last() =~= ids@.take(i as int));
            }
            i = i + 1;
            assert(out@ =~= old(out)@ + self.inputs_text(kind@, ids@.take(i as int)));
        }
        assert(ids@.take(i as int) =~= ids@);
    }

    /// Renders the circuit as a multi-line textual description.
    pub fn describe(&self) -> (r: String)
        requires self.inputs_in_range(),
        ensures r@ == self.describe_text(),
    {
        let mut out = String::new();
        out.append("circuit ");
        out.append(self.name.as_str());
        out.append(" {\n");
        self.push_inputs(&mut out, "public", &self.public_inputs);
        self.push_inputs(&mut out, "secret", &self.secret_inputs);
        out.append("  constraints\n");
        let ghost head = out@;
        let mut i: usize = 0;
        while i < self.constraints.len()
            invariant
                i <= self.constraints.len(),
                out@ == head + constraints_text(self.constraints@.take(i as int)),
            decreases self.constraints.len() - i,
        {
            out.append("    ");
            match self.constraints[i] {
                Constraint::Zero(e) => {
                    out.append("Zero(");
                    push_decimal(&mut out, e as u64);
                    out.append(")");
                },
                Constraint::Equal(l, r) => {
                    out.append("Equal(");
                    push_decimal(&mut out, l as u64);
                    out.append(", ");
                    push_decimal(&mut out, r as u64);
                    out.append(")");
                },
                Constraint::NonNegative(e) => {
                    out.append("NonNegative(");
                    push_decimal(&mut out, e as u64);
                    out.append(")");
                },
            }
            out.append("\n");
            proof {
                assert(self.constraints@.take(i + 1).drop_last() =~= self.constraints@.take(i as int));
            }
            i = i + 1;
            assert(out@ =~= head + constraints_text(self.constraints@.take(i as int)));
        }
        out.append("}");
        assert(self.constraints@.take(i as int) =~= self.constraints@);
        assert(out@ =~= self.describe_text());
        out
    }
}


impl ConstraintSystem {
    /// `self` is `old` with expression `e` appended and nothing else changed.
    pub open spec fn pushed_expr(&self, old: ConstraintSystem, e: Expr) -> bool {
        &&& self.name == old.name
        &&& self.variables@ == old.variables@
        &&& self.exprs@ == old.exprs@.push(e)
        &&& self.public_inputs@ == old.public_inputs@
        &&& self.secret_inputs@ == old.secret_inputs@
        &&& self.constraints@ == old.constraints@
    }

    /// `self` is `old` with constraint `c` appended and nothing else changed.
    pub open spec fn pushed_constraint(&self, old: ConstraintSystem, c: Constraint) -> bool {
        &&& self.name == old.name
        &&& self.variables@ == old.variables@
        &&& self.exprs@ == old.exprs@
        &&& self.public_inputs@ == old.public_inputs@
        &&& self.secret_inputs@ == old.secret_inputs@
        &&& self.constraints@ == old.constraints@.push(c)
    }

    /// `self` is `old` with a variable named `name` of the given visibility
    /// declared: its info, its `Var` expression, and its id in the public or
    /// secret list.
    pub open spec fn declared_var(&self, old: ConstraintSystem, name: Seq<char>, vis: Visibility) -> bool {
        let id = old.exprs@.len() as usize;
        &&& self.name == old.name
        &&& self.variables@.len() == old.variables@.len() + 1
        &&& self.variables@.drop_last() == old.variables@
        &&& self.variables@.last().name@ == name
        &&& self.variables@.last().visibility == vis
        &&& self.exprs@ == old.exprs@.push(Expr::Var(old.variables@.len() as usize))
        &&& self.constraints@ == old.constraints@
        &&& match vis {
            Visibility::Public => self.public_inputs@ == old.public_inputs@.push(id)
                && self.secret_inputs@ == old.secret_inputs@,
            Visibility::Secret => self.secret_inputs@ == old.secret_inputs@.push(id)
                && self.public_inputs@ == old.public_inputs@,
        }
    }
}

/// Incremental builder for [`ConstraintSystem`].
#[derive(Debug, Default)]
pub struct ConstraintSystemBuilder {
    system: ConstraintSystem,
    named_exprs: Vec<Option<String>>,
}

impl ConstraintSystemBuilder {
    /// The system built so far.
    pub closed spec fn system_view(&self) -> ConstraintSystem {
        self.system
    }

    /// Begin building a circuit with the given name.
    pub fn new(name: &str) -> (r: Self)
        ensures
            r.system_view().name@ == name@,
            r.system_view().variables@.len() == 0,
            r.system_view().exprs@.len() == 0,
            r.system_view().public_inputs@.len() == 0,
            r.system_view().secret_inputs@.len() == 0,
            r.system_view().constraints@.len() == 0,
    {
        ConstraintSystemBuilder {
            system: ConstraintSystem {
                name: String::from_str(name),
                variables: Vec::new(),
                exprs: Vec::new(),
                public_inputs: Vec::new(),
                secret_inputs: Vec::new(),
                constraints: Vec::new(),
            },
            named_exprs: Vec::new(),
        }
    }

    /// Declare a public input variable and return its expression id.
    pub fn public_input(&mut self, name: &str) -> (id: ExprId)
        ensures
            id == old(self).system_view().exprs@.len(),
            final(self).system_view().declared_var(old(self).system_view(), name@, Visibility::Public),
    {
        self.declare_var(name, Visibility::Public)
    }

    /// Declare a public output variable (a public input to the verifier).
    pub fn output(&mut self, name: &str) -> (id: ExprId)
        ensures
            id == old(self).system_view().exprs@.len(),
            final(self).system_view().declared_var(old(self).system_view(), name@, Visibility::Public),
    {
        self.declare_var(name, Visibility::Public)
    }

    /// Declare a secret witness variable and return its expression id.
    pub fn secret_input(&mut self, name: &str) -> (id: ExprId)
        ensures
            id == old(self).system_view().exprs@.len(),
            final(self).system_view().declared_var(old(self).system_view(), name@, Visibility::Secret),
    {
        self.declare_var(name, Visibility::Secret)
    }

    fn declare_var(&mut self, name: &str, visibility: Visibility) -> (id: ExprId)
        ensures
            id == old(self).system_view().exprs@.len(),
            final(self).system_view().declared_var(old(self).system_view(), name@, visibility),
    {
        let var_id = self.system.variables.len();
        self.system.variables.push(VariableInfo { name: String::from_str(name), visibility });
        self.system.exprs.push(Expr::Var(var_id));
        self.named_exprs.push(Some(String::from_str(name)));
        let id = self.system.exprs.len() - 1;
        match visibility {
            Visibility::Public => self.system.public_inputs.push(id),
            Visibility::Secret => self.system.secret_inputs.push(id),
        }
        assert(self.system.variables@.drop_last() =~= old(self).system.variables@);
        id
    }

    fn push(&mut self, e: Expr) -> (id: ExprId)
        ensures
            id == old(self).system_view().exprs@.len(),
            final(self).system_view().pushed_expr(old(self).system_view(), e),
    {
        self.named_exprs.push(None);
        self.system.exprs.push(e);
        self.system.exprs.len() - 1
    }

    /// A constant expression.
    pub fn constant(&mut self, value: Scalar) -> (id: ExprId)
        ensures
            id == old(self).system_view().exprs@.len(),
            final(self).system_view().pushed_expr(old(self).system_view(), Expr::Const(value)),
    {
        self.push(Expr::Const(value))
    }

    /// `l + r`
    pub fn add(&mut self, l: ExprId, r: ExprId) -> (id: ExprId)
        ensures
            id == old(self).system_view().exprs@.len(),
            final(self).system_view().pushed_expr(old(self).system_view(), Expr::Add(l, r)),
    {
        self.push(Expr::Add(l, r))
    }

    /// `l - r`
    pub fn sub(&mut self, l: ExprId, r: ExprId) -> (id: ExprId)
        ensures
            id == old(self).system_view().exprs@.len(),
            final(self).system_view().pushed_expr(old(self).system_view(), Expr::Sub(l, r)),
    {
        self.push(Expr::Sub(l, r))
    }

    /// `l * r`
    pub fn mul(&mut self, l: ExprId, r: ExprId) -> (id: ExprId)
        ensures
            id == old(self).system_view().exprs@.len(),
            final(self).system_view().pushed_expr(old(self).system_view(), Expr::Mul(l, r)),
    {
        self.push(Expr::Mul(l, r))
    }

    /// `-e`
    pub fn neg(&mut self, e: ExprId) -> (id: ExprId)
        ensures
            id == old(self).system_view().exprs@.len(),
            final(self).system_view().pushed_expr(old(self).system_view(), Expr::Neg(e)),
    {
        self.push(Expr::Neg(e))
    }

    /// Enforce `e == 0`.
    pub fn constrain_zero(&mut self, e: ExprId)
        ensures final(self).system_view().pushed_constraint(old(self).system_view(), Constraint::Zero(e)),
    {
        self.system.constraints.push(Constraint::Zero(e));
    }

    /// Enforce `l == r`.
    pub fn constrain_eq(&mut self, l: ExprId, r: ExprId)
        ensures final(self).system_view().pushed_constraint(old(self).system_view(), Constraint::Equal(l, r)),
    {
        self.system.constraints.push(Constraint::Equal(l, r));
    }

    /// Enforce `e >= 0`.
    pub fn constrain_non_negative(&mut self, e: ExprId)
        ensures final(self).system_view().pushed_constraint(old(self).system_view(), Constraint::NonNegative(e)),
    {
        self.system.constraints.push(Constraint::NonNegative(e));
    }

    /// Finalize into a [`ConstraintSystem`].
    pub fn build(self) -> (r: ConstraintSystem)
        ensures r == self.system_view(),
    {
        self.system
    }
}


/// A variable declared under a name no earlier expression carries is what
/// looking that name up finds: in the system `after` that declaring it on
/// `before` (whose variable expressions name declared variables) gives, its
/// expression is the first one named `name`.
pub proof fn law_declared_variable_is_found(before: ConstraintSystem, after: ConstraintSystem, name: Seq<char>, vis: Visibility)
    requires
        before.variables@.len() < usize::MAX,
        forall|j: int| 0 <= j < before.exprs@.len() ==> match #[trigger] before.exprs@[j] {
            Expr::Var(v) => v < before.variables@.len(),
            _ => true,
        },
        after.declared_var(before, name, vis),
        forall|j: int| !before.names_var(j, name),
    ensures
        after.names_var(before.exprs@.len() as int, name),
        forall|j: int| 0 <= j < before.exprs@.len() ==> !after.names_var(j, name),
{
    let id = before.exprs@.len() as int;
    assert(after.exprs@[id] == Expr::Var(before.variables@.len() as usize));
    assert(after.variables@[before.variables@.len() as int] == after.variables@.last());
    assert forall|j: int| 0 <= j < before.exprs@.len() implies !after.names_var(j, name) by {
        assert(after.exprs@[j] == before.exprs@[j]);
        if let Expr::Var(v) = before.exprs@[j] {
            if v < before.variables@.len() {
                assert(after.variables@[v as int] == after.variables@.drop_last()[v as int]);
            }
            assert(!before.names_var(j, name));
        }
    }
}

/// The input lines of a description list the inputs in order: the text for
/// the ids `a` followed by `b` is the text for `a` followed by the text for
/// `b`.
pub proof fn law_inputs_text_concatenates(cs: ConstraintSystem, kind: Seq<char>, a: Seq<ExprId>, b: Seq<ExprId>)
    ensures cs.inputs_text(kind, a + b) == cs.inputs_text(kind, a) + cs.inputs_text(kind, b),
    decreases b.len(),
{
    if b.len() == 0 {
        assert(a + b =~= a);
        assert(cs.inputs_text(kind, a) + cs.inputs_text(kind, b) =~= cs.inputs_text(kind, a));
    } else {
        law_inputs_text_concatenates(cs, kind, a, b.drop_last());
        assert((a + b).drop_last() =~= a + b.drop_last());
        assert((a + b).last() == b.last());
    }
}

/// One input gives one line, `  <kind> input <name>`, naming the variable
/// its expression is; an input that is not a variable gives none.
pub proof fn law_input_line(cs: ConstraintSystem, kind: Seq<char>, id: ExprId, v: usize)
    requires id < cs.exprs@.len(),
    ensures
        cs.exprs@[id as int] == Expr::Var(v) && v < cs.variables@.len() ==> cs.inputs_text(kind, seq![id])
            == seq![' ', ' '] + kind + seq![' ', 'i', 'n', 'p', 'u', 't', ' '] + cs.variables@[v as int].name@ + seq!['\n'],
        !(cs.exprs@[id as int] is Var) ==> cs.inputs_text(kind, seq![id]) == Seq::<char>::empty(),
{
    reveal_strlit("  ");
    reveal_strlit(" input ");
    reveal_strlit("\n");
    assert(seq![id].drop_last() =~= Seq::<ExprId>::empty());
    assert(cs.inputs_text(kind, Seq::<ExprId>::empty()) == Seq::<char>::empty());
    if let Expr::Var(w) = cs.exprs@[id as int] {
        if w < cs.variables@.len() {
            assert(Seq::<char>::empty() + ("  "@ + kind + " input "@ + cs.variables@[w as int].name@ + "\n"@)
                =~= seq![' ', ' '] + kind + seq![' ', 'i', 'n', 'p', 'u', 't', ' '] + cs.variables@[w as int].name@ + seq!['\n']);
        }
    } else {
        assert(Seq::<char>::empty() + Seq::<char>::empty() =~= Seq::<char>::empty());
    }
}

} // verus!
