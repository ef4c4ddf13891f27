//! The `augur` probabilistic dialect: distributions, sampling, observation
//! and inference-graph control flow, expressed as an SSA op graph in MLIR's
//! generic operation form.
//!
//! A constant carries the decimal text of its value (the shortest rendering
//! that reads back as the same number, `NaN`, `inf` or `-inf`), which is
//! exactly what the emitters print for it.
use vstd::prelude::*;

verus! {

/// SSA value id, unique within a [`Graph`] (including nested `Cond` regions).
pub type ValueId = u32;

/// A distribution family recognised by the `augur.dist.*` ops.
#[derive(Debug, Clone, Copy, PartialEq, Eq, Structural)]
pub enum DistFamily {
    Normal,
    HalfNormal,
    Beta,
    Gamma,
    Uniform,
    Exponential,
    Binomial,
    Poisson,
    Bernoulli,
}

/// The family a distribution constructor name denotes.
pub open spec fn family_of(name: Seq<char>) -> Option<DistFamily> {
    if name == "Normal"@ {
        Some(DistFamily::Normal)
    } else if name == "HalfNormal"@ {
        Some(DistFamily::HalfNormal)
    } else if name == "Beta"@ {
        Some(DistFamily::Beta)
    } else if name == "Gamma"@ {
        Some(DistFamily::Gamma)
    } else if name == "Uniform"@ {
        Some(DistFamily::Uniform)
    } else if name == "Exponential"@ {
        Some(DistFamily::Exponential)
    } else if name == "Binomial"@ {
        Some(DistFamily::Binomial)
    } else if name == "Poisson"@ {
        Some(DistFamily::Poisson)
    } else if name == "Bernoulli"@ {
        Some(DistFamily::Bernoulli)
    } else {
        None
    }
}

/// The `augur.dist.<op_name>` suffix of a family.
pub open spec fn family_op_name(f: DistFamily) -> Seq<char> {
    match f {
        DistFamily::Normal => "normal"@,
        DistFamily::HalfNormal => "half_normal"@,
        DistFamily::Beta => "beta"@,
        DistFamily::Gamma => "gamma"@,
        DistFamily::Uniform => "uniform"@,
        DistFamily::Exponential => "exponential"@,
        DistFamily::Binomial => "binomial"@,
        DistFamily::Poisson => "poisson"@,
        DistFamily::Bernoulli => "bernoulli"@,
    }
}

impl DistFamily {
    /// The family named by a distribution constructor, if it is one.
    pub fn from_name(name: &str) -> (r: Option<DistFamily>)
        ensures
            r == family_of(name@),
    {
        if crate::util::str_eq(name, "Normal") {
            Some(DistFamily::Normal)
        } else if crate::util::str_eq(name, "HalfNormal") {
            Some(DistFamily::HalfNormal)
        } else if crate::util::str_eq(name, "Beta") {
            Some(DistFamily::Beta)
        } else if crate::util::str_eq(name, "Gamma") {
            Some(DistFamily::Gamma)
        } else if crate::util::str_eq(name, "Uniform") {
            Some(DistFamily::Uniform)
        } else if crate::util::str_eq(name, "Exponential") {
            Some(DistFamily::Exponential)
        } else if crate::util::str_eq(name, "Binomial") {
            Some(DistFamily::Binomial)
        } else if crate::util::str_eq(name, "Poisson") {
            Some(DistFamily::Poisson)
        } else if crate::util::str_eq(name, "Bernoulli") {
            Some(DistFamily::Bernoulli)
        } else {
            None
        }
    }

    /// The `augur.dist.<op_name>` suffix.
    pub fn op_name(&self) -> (r: &'static str)
        ensures
            r@ == family_op_name(*self),
    {
        match self {
            DistFamily::Normal => "normal",
            DistFamily::HalfNormal => "half_normal",
            DistFamily::Beta => "beta",
            DistFamily::Gamma => "gamma",
            DistFamily::Uniform => "uniform",
            DistFamily::Exponential => "exponential",
            DistFamily::Binomial => "binomial",
            DistFamily::Poisson => "poisson",
            DistFamily::Bernoulli => "bernoulli",
        }
    }
}

/// A distribution instance: a family applied to SSA parameter values.
#[derive(Debug, Clone, PartialEq)]
pub struct DistInstance {
    pub family: DistFamily,
    pub params: Vec<ValueId>,
}

/// Deterministic scalar operations over SSA values.
#[derive(Debug, Clone, Copy, PartialEq, Eq, Structural)]
pub enum ScalarOp {
    Add(ValueId, ValueId),
    Sub(ValueId, ValueId),
    Mul(ValueId, ValueId),
    Div(ValueId, ValueId),
    Neg(ValueId),
    CmpGt(ValueId, ValueId),
    CmpLt(ValueId, ValueId),
    CmpGe(ValueId, ValueId),
    CmpLe(ValueId, ValueId),
    CmpEq(ValueId, ValueId),
    CmpNe(ValueId, ValueId),
}

/// The operands of a scalar operation, in order.
pub open spec fn scalar_operands(op: ScalarOp) -> Seq<ValueId> {
    match op {
        ScalarOp::Add(a, b) => seq![a, b],
        ScalarOp::Sub(a, b) => seq![a, b],
        ScalarOp::Mul(a, b) => seq![a, b],
        ScalarOp::Div(a, b) => seq![a, b],
        ScalarOp::Neg(a) => seq![a],
        ScalarOp::CmpGt(a, b) => seq![a, b],
        ScalarOp::CmpLt(a, b) => seq![a, b],
        ScalarOp::CmpGe(a, b) => seq![a, b],
        ScalarOp::CmpLe(a, b) => seq![a, b],
        ScalarOp::CmpEq(a, b) => seq![a, b],
        ScalarOp::CmpNe(a, b) => seq![a, b],
    }
}

/// A single op in the probabilistic inference graph.
#[derive(Debug, PartialEq)]
pub enum Op {
    /// `%result = augur.constant <value>`, the value as decimal text.
    Constant { result: ValueId, value: String },
    /// `%result = augur.dist.<family>(%params...)`: instantiates a distribution.
    Dist { result: ValueId, dist: DistInstance },
    /// `%result = augur.sample(%dist) {name}`: declares a prior random variable.
    Sample { result: ValueId, dist: ValueId, name: String },
    /// Deterministic scalar arithmetic or comparison.
    Scalar { result: ValueId, op: ScalarOp },
    /// `augur.observe(%dist, %value)`: conditions the model. No result.
    Observe { dist: ValueId, value: ValueId },
    /// `augur.let %name = %value`: deterministic named binding.
    Let { name: String, value: ValueId },
    /// `augur.cond(%cond) then { ... } else { ... }`: an inference-graph
    /// branch node gating which nested ops execute at run time.
    Cond { cond: ValueId, then_ops: Vec<Op>, else_ops: Vec<Op> },
}

/// The mathematical content of an [`Op`].
pub enum OpV {
    Constant { result: ValueId, value: Seq<char> },
    Dist { result: ValueId, family: DistFamily, params: Seq<ValueId> },
    Sample { result: ValueId, dist: ValueId, name: Seq<char> },
    Scalar { result: ValueId, op: ScalarOp },
    Observe { dist: ValueId, value: ValueId },
    Let { name: Seq<char>, value: ValueId },
    Cond { cond: ValueId, then_ops: Seq<OpV>, else_ops: Seq<OpV> },
}

/// The view of an op.
pub open spec fn op_v(o: Op) -> OpV
    decreases o,
{
    match o {
        Op::Constant { result, value } => OpV::Constant { result, value: value@ },
        Op::Dist { result, dist } => OpV::Dist { result, family: dist.family, params: dist.params@ },
        Op::Sample { result, dist, name } => OpV::Sample { result, dist, name: name@ },
        Op::Scalar { result, op } => OpV::Scalar { result, op },
        Op::Observe { dist, value } => OpV::Observe { dist, value },
        Op::Let { name, value } => OpV::Let { name: name@, value },
        Op::Cond { cond, then_ops, else_ops } => OpV::Cond {
            cond,
            then_ops: ops_v(then_ops@),
            else_ops: ops_v(else_ops@),
        },
    }
}

/// The views of a sequence of ops.
pub open spec fn ops_v(s: Seq<Op>) -> Seq<OpV>
    decreases s,
{
    if s.len() == 0 {
        seq![]
    } else {
        ops_v(s.drop_last()).push(op_v(s.last()))
    }
}

impl View for Op {
    type V = OpV;

    open spec fn view(&self) -> OpV {
        op_v(*self)
    }
}

/// Proof that the view of a sequence of ops is taken elementwise.
pub proof fn lemma_ops_v(s: Seq<Op>)
    ensures
        ops_v(s).len() == s.len(),
        forall|i: int| 0 <= i < s.len() ==> #[trigger] ops_v(s)[i] == op_v(s[i]),
    decreases s.len(),
{
    if s.len() > 0 {
        lemma_ops_v(s.drop_last());
        assert forall|i: int| 0 <= i < s.len() implies #[trigger] ops_v(s)[i] == op_v(s[i]) by {
            if i < s.len() - 1 {
                assert(s.drop_last()[i] == s[i]);
            }
        }
    }
}

/// Views of concatenated op sequences concatenate.
pub proof fn lemma_ops_v_add(a: Seq<Op>, b: Seq<Op>)
    ensures
        ops_v(a + b) == ops_v(a) + ops_v(b),
    decreases b.len(),
{
    if b.len() == 0 {
        assert(a + b =~= a);
        assert(ops_v(a) + ops_v(b) =~= ops_v(a));
    } else {
        assert((a + b).drop_last() =~= a + b.drop_last());
        lemma_ops_v_add(a, b.drop_last());
        assert(ops_v(a) + ops_v(b) =~= (ops_v(a) + ops_v(b.drop_last())).push(op_v(b.last())));
    }
}

/// The probabilistic inference graph of a whole model: an ordered region of
/// `augur.*` ops plus the fixed prior order (the sample-vector shape the
/// inference engines sample over).
#[derive(Debug, PartialEq)]
pub struct Graph {
    pub ops: Vec<Op>,
    pub prior_order: Vec<String>,
    pub next_value: ValueId,
}

/// The number of ops of a region, counting those nested in `Cond` branches.
pub open spec fn count_ops(s: Seq<OpV>) -> nat
    decreases s,
{
    if s.len() == 0 {
        0
    } else {
        count_ops(s.drop_last()) + count_op(s.last())
    }
}

/// The number of ops an op stands for: itself and its nested ops.
pub open spec fn count_op(o: OpV) -> nat
    decreases o,
{
    match o {
        OpV::Cond { then_ops, else_ops, .. } => 1 + count_ops(then_ops) + count_ops(else_ops),
        _ => 1,
    }
}

fn count_region(ops: &Vec<Op>) -> (n: usize)
    requires
        count_ops(ops_v(ops@)) <= usize::MAX,
    ensures
        n == count_ops(ops_v(ops@)),
    decreases ops, 0nat,
{
    let ghost sv = ops_v(ops@);
    proof {
        lemma_ops_v(ops@);
        assert(decreases_to!(*ops => ops@));
        assert forall|k: int| 0 <= k < ops@.len() implies decreases_to!(*ops => #[trigger] ops@[k]) by {
            assert(decreases_to!(ops@ => ops@[k]));
        }
    }
    let mut n: usize = 0;
    let mut i: usize = 0;
    while i < ops.len()
        invariant
            forall|k: int| 0 <= k < ops@.len() ==> decreases_to!(*ops => #[trigger] ops@[k]),
            i <= ops@.len(),
            sv == ops_v(ops@),
            sv.len() == ops@.len(),
            forall|k: int| 0 <= k < ops@.len() ==> #[trigger] sv[k] == ops@[k]@,
            n == count_ops(sv.take(i as int)),
            count_ops(sv) <= usize::MAX,
        decreases ops.len() - i,
    {
        proof {
            assert(sv.take(i + 1).drop_last() =~= sv.take(i as int));
            assert(sv.take(i + 1).last() == sv[i as int]);
            lemma_count_prefix(sv, i + 1);
        }
        let c = count_one(&ops[i]);
        n = n + c;
        i += 1;
    }
    proof {
        assert(sv.take(ops@.len() as int) =~= sv);
    }
    n
}

fn count_one(o: &Op) -> (n: usize)
    requires
        count_op(o@) <= usize::MAX,
    ensures
        n == count_op(o@),
    decreases o, 1nat,
{
    match o {
        Op::Cond { then_ops, else_ops, .. } => {
            proof {
                assert(decreases_to!(*o => *then_ops));
                assert(decreases_to!(*o => *else_ops));
            }
            let a = count_region(then_ops);
            let b = count_region(else_ops);
            1 + a + b
        },
        _ => 1,
    }
}

/// A prefix of a region counts no more ops than the region.
pub proof fn lemma_count_prefix(s: Seq<OpV>, k: int)
    requires
        0 <= k <= s.len(),
    ensures
        count_ops(s.take(k)) <= count_ops(s),
    decreases s.len(),
{
    if k < s.len() {
        assert(s.drop_last().take(k) =~= s.take(k));
        lemma_count_prefix(s.drop_last(), k);
    } else {
        assert(s.take(k) =~= s);
    }
}

impl Graph {
    /// Total op count, including ops nested inside `Cond` branches.
    pub fn op_count(&self) -> (n: usize)
        requires
            count_ops(ops_v(self.ops@)) <= usize::MAX,
        ensures
            n == count_ops(ops_v(self.ops@)),
    {
        count_region(&self.ops)
    }
}

} // verus!
