//! Lowers a probabilistic dialect [`Graph`] to TPTIR text.
//!
//! The output is a single `module { func.func @entry ... }` in MLIR's generic
//! operation syntax, `%result = "namespace.op"(%operands) {attrs} :
//! (operand_types) -> (result_types)`, with `augur.*` ops beside `tptir.*`
//! ops. Distribution values have the opaque `!augur.dist` type; every other
//! value is `f64`, comparisons included (`1` for true, `0` for false).
use vstd::prelude::*;
use crate::dialect::{Graph, Op, OpV, ScalarOp, ValueId, family_op_name, ops_v, lemma_ops_v, scalar_operands};
use crate::util::{decimal, push_decimal, names_v};
use crate::passes::collect_scalar_operands;

verus! {

/// `%id`.
pub open spec fn operand(id: ValueId) -> Seq<char> {
    "%"@ + decimal(id as nat)
}

/// Operands separated by `, `.
pub open spec fn operand_text(ids: Seq<ValueId>) -> Seq<char>
    decreases ids.len(),
{
    if ids.len() == 0 {
        seq![]
    } else if ids.len() == 1 {
        operand(ids[0])
    } else {
        operand_text(ids.drop_last()) + ", "@ + operand(ids.last())
    }
}

/// `n` copies of `f64` separated by `, `.
pub open spec fn f64_types(n: nat) -> Seq<char>
    decreases n,
{
    if n == 0 {
        seq![]
    } else if n == 1 {
        "f64"@
    } else {
        f64_types((n - 1) as nat) + ", "@ + "f64"@
    }
}

/// The op name of a scalar operation.
pub open spec fn scalar_mnemonic(op: ScalarOp) -> Seq<char> {
    match op {
        ScalarOp::Add(..) => "augur.addf"@,
        ScalarOp::Sub(..) => "augur.subf"@,
        ScalarOp::Mul(..) => "augur.mulf"@,
        ScalarOp::Div(..) => "augur.divf"@,
        ScalarOp::Neg(..) => "augur.negf"@,
        ScalarOp::CmpGt(..) => "augur.cmpf_gt"@,
        ScalarOp::CmpLt(..) => "augur.cmpf_lt"@,
        ScalarOp::CmpGe(..) => "augur.cmpf_ge"@,
        ScalarOp::CmpLe(..) => "augur.cmpf_le"@,
        ScalarOp::CmpEq(..) => "augur.cmpf_eq"@,
        ScalarOp::CmpNe(..) => "augur.cmpf_ne"@,
    }
}

/// The text of one op at indentation `pad`.
pub open spec fn op_text(o: OpV, pad: Seq<char>) -> Seq<char>
    decreases o,
{
    match o {
        OpV::Constant { result, value } => pad + operand(result) + " = \"augur.constant\"() {value = "@ + value
            + " : f64} : () -> f64\n"@,
        OpV::Dist { result, family, params } => pad + operand(result) + " = \"augur.dist."@ + family_op_name(family)
            + "\"("@ + operand_text(params) + ") : ("@ + f64_types(params.len()) + ") -> !augur.dist\n"@,
        OpV::Sample { result, dist, name } => pad + operand(result) + " = \"augur.sample\"("@ + operand(dist)
            + ") {name = \""@ + name + "\"} : (!augur.dist) -> f64\n"@,
        OpV::Scalar { result, op } => pad + operand(result) + " = \""@ + scalar_mnemonic(op) + "\"("@
            + operand_text(scalar_operands(op)) + ") : ("@ + f64_types(scalar_operands(op).len())
            + ") -> f64\n"@,
        OpV::Observe { dist, value } => pad + "\"augur.observe\"("@ + operand(dist) + ", "@ + operand(value)
            + ") : (!augur.dist, f64) -> ()\n"@,
        OpV::Let { name, value } => pad + "\"augur.let\"("@ + operand(value) + ") {name = \""@ + name
            + "\"} : (f64) -> ()\n"@,
        OpV::Cond { cond, then_ops, else_ops } => pad + "\"augur.cond\"("@ + operand(cond) + ") ({\n"@
            + region_text(then_ops, pad + "  "@) + pad + "}, {\n"@ + region_text(else_ops, pad + "  "@) + pad
            + "}) : (f64) -> ()\n"@,
    }
}

/// The text of a region's ops, in order.
pub open spec fn region_text(ops: Seq<OpV>, pad: Seq<char>) -> Seq<char>
    decreases ops,
{
    if ops.len() == 0 {
        seq![]
    } else {
        region_text(ops.drop_last(), pad) + op_text(ops.last(), pad)
    }
}

/// Names, each in double quotes, separated by `, `.
pub open spec fn quoted_list(names: Seq<Seq<char>>) -> Seq<char>
    decreases names.len(),
{
    if names.len() == 0 {
        seq![]
    } else if names.len() == 1 {
        "\""@ + names[0] + "\""@
    } else {
        quoted_list(names.drop_last()) + ", "@ + "\""@ + names.last() + "\""@
    }
}

/// The whole TPTIR module of a graph.
pub open spec fn tptir_text(ops: Seq<OpV>, priors: Seq<Seq<char>>, entry: Seq<char>, hardware: Seq<char>) -> Seq<char> {
    "module {\n  func.func @"@ + entry + "() attributes {tptir.kernel, augur.prior_order = ["@
        + quoted_list(priors) + "], augur.hardware = \""@ + hardware + "\"} {\n"@ + "    ^entry:\n"@
        + region_text(ops, "      "@) + "      tptir.return\n"@ + "  }\n}\n"@
}

fn push_operand(out: &mut String, id: ValueId)
    ensures
        final(out)@ == old(out)@ + operand(id),
{
    out.append("%");
    push_decimal(out, id as u64);
    assert(out@ =~= old(out)@ + operand(id));
}

/// Appends operands separated by `, `.
fn push_operands(out: &mut String, ids: &Vec<ValueId>)
    ensures
        final(out)@ == old(out)@ + operand_text(ids@),
{
    let mut i: usize = 0;
    while i < ids.len()
        invariant
            i <= ids@.len(),
            out@ == old(out)@ + operand_text(ids@.take(i as int)),
        decreases ids.len() - i,
    {
        proof {
            assert(ids@.take(i + 1).drop_last() =~= ids@.take(i as int));
            assert(ids@.take(i + 1).last() == ids@[i as int]);
        }
        if i > 0 {
            out.append(", ");
        }
        push_operand(out, ids[i]);
        proof {
            if i == 0 {
                assert(ids@.take(1) =~= seq![ids@[0]]);
            }
            assert(out@ =~= old(out)@ + operand_text(ids@.take(i + 1)));
        }
        i += 1;
    }
    proof {
        assert(ids@.take(ids@.len() as int) =~= ids@);
    }
}

/// Appends `n` copies of `f64` separated by `, `.
fn push_types(out: &mut String, n: usize)
    ensures
        final(out)@ == old(out)@ + f64_types(n as nat),
{
    let mut i: usize = 0;
    while i < n
        invariant
            i <= n,
            out@ == old(out)@ + f64_types(i as nat),
        decreases n - i,
    {
        if i > 0 {
            out.append(", ");
        }
        out.append("f64");
        proof {
            assert(out@ =~= old(out)@ + f64_types((i + 1) as nat));
        }
        i += 1;
    }
}

fn mnemonic(op: &ScalarOp) -> (r: &'static str)
    ensures
        r@ == scalar_mnemonic(*op),
{
    match op {
        ScalarOp::Add(..) => "augur.addf",
        ScalarOp::Sub(..) => "augur.subf",
        ScalarOp::Mul(..) => "augur.mulf",
        ScalarOp::Div(..) => "augur.divf",
        ScalarOp::Neg(..) => "augur.negf",
        ScalarOp::CmpGt(..) => "augur.cmpf_gt",
        ScalarOp::CmpLt(..) => "augur.cmpf_lt",
        ScalarOp::CmpGe(..) => "augur.cmpf_ge",
        ScalarOp::CmpLe(..) => "augur.cmpf_le",
        ScalarOp::CmpEq(..) => "augur.cmpf_eq",
        ScalarOp::CmpNe(..) => "augur.cmpf_ne",
    }
}

/// Appends the text of a region's ops at indentation `pad`.
pub fn emit_ops(ops: &Vec<Op>, out: &mut String, pad: &String)
    ensures
        final(out)@ == old(out)@ + region_text(ops_v(ops@), pad@),
    decreases ops, 0nat,
{
    let ghost sv = ops_v(ops@);
    proof {
        lemma_ops_v(ops@);
        assert(decreases_to!(*ops => ops@));
        assert forall|k: int| 0 <= k < ops@.len() implies decreases_to!(*ops => #[trigger] ops@[k]) by {
            assert(decreases_to!(ops@ => ops@[k]));
        }
    }
    let mut i: usize = 0;
    while i < ops.len()
        invariant
            forall|k: int| 0 <= k < ops@.len() ==> decreases_to!(*ops => #[trigger] ops@[k]),
            i <= ops@.len(),
            sv == ops_v(ops@),
            sv.len() == ops@.len(),
            forall|k: int| 0 <= k < ops@.len() ==> #[trigger] sv[k] == ops@[k]@,
            out@ == old(out)@ + region_text(sv.take(i as int), pad@),
        decreases ops.len() - i,
    {
        proof {
            assert(sv.take(i + 1).drop_last() =~= sv.take(i as int));
            assert(sv.take(i + 1).last() == sv[i as int]);
        }
        emit_op(&ops[i], out, pad);
        proof {
            assert(out@ =~= old(out)@ + region_text(sv.take(i + 1), pad@));
        }
        i += 1;
    }
    proof {
        assert(sv.take(ops@.len() as int) =~= sv);
    }
}

/// Appends the text of one op at indentation `pad`.
fn emit_op(o: &Op, out: &mut String, pad: &String)
    ensures
        final(out)@ == old(out)@ + op_text(o@, pad@),
    decreases o, 1nat,
{
    out.append(pad.as_str());
    match o {
        Op::Constant { result, value } => {
            push_operand(out, *result);
            out.append(" = \"augur.constant\"() {value = ");
            out.append(value.as_str());
            out.append(" : f64} : () -> f64\n");
        },
        Op::Dist { result, dist } => {
            push_operand(out, *result);
            out.append(" = \"augur.dist.");
            out.append(dist.family.op_name());
            out.append("\"(");
            push_operands(out, &dist.params);
            out.append(") : (");
            push_types(out, dist.params.len());
            out.append(") -> !augur.dist\n");
        },
        Op::Sample { result, dist, name } => {
            push_operand(out, *result);
            out.append(" = \"augur.sample\"(");
            push_operand(out, *dist);
            out.append(") {name = \"");
            out.append(name.as_str());
            out.append("\"} : (!augur.dist) -> f64\n");
        },
        Op::Scalar { result, op } => {
            let mut operands: Vec<ValueId> = Vec::new();
            collect_scalar_operands(op, &mut operands);
            assert(operands@ =~= scalar_operands(*op));
            push_operand(out, *result);
            out.append(" = \"");
            out.append(mnemonic(op));
            out.append("\"(");
            push_operands(out, &operands);
            out.append(") : (");
            push_types(out, operands.len());
            out.append(") -> f64\n");
        },
        Op::Observe { dist, value } => {
            out.append("\"augur.observe\"(");
            push_operand(out, *dist);
            out.append(", ");
            push_operand(out, *value);
            out.append(") : (!augur.dist, f64) -> ()\n");
        },
        Op::Let { name, value } => {
            out.append("\"augur.let\"(");
            push_operand(out, *value);
            out.append(") {name = \"");
            out.append(name.as_str());
            out.append("\"} : (f64) -> ()\n");
        },
        Op::Cond { cond, then_ops, else_ops } => {
            proof {
                assert(decreases_to!(*o => *then_ops));
                assert(decreases_to!(*o => *else_ops));
            }
            let mut inner = pad.clone();
            inner.append("  ");
            out.append("\"augur.cond\"(");
            push_operand(out, *cond);
            out.append(") ({\n");
            emit_ops(then_ops, out, &inner);
            out.append(pad.as_str());
            out.append("}, {\n");
            emit_ops(else_ops, out, &inner);
            out.append(pad.as_str());
            out.append("}) : (f64) -> ()\n");
        },
    }
    proof {
        assert(out@ =~= old(out)@ + op_text(o@, pad@));
    }
}

/// Emits the TPTIR text module of a graph. `entry_name` becomes the
/// `func.func` symbol and `hardware` is recorded as the `augur.hardware`
/// attribute.
pub fn emit_tptir(graph: &Graph, entry_name: &str, hardware: &str) -> (r: String)
    ensures
        r@ == tptir_text(ops_v(graph.ops@), names_v(graph.prior_order@), entry_name@, hardware@),
{
    let ghost priors = names_v(graph.prior_order@);
    let mut out = String::new();
    out.append("module {\n  func.func @");
    out.append(entry_name);
    out.append("() attributes {tptir.kernel, augur.prior_order = [");
    let ghost start = out@;
    let mut i: usize = 0;
    while i < graph.prior_order.len()
        invariant
            i <= graph.prior_order@.len(),
            priors == names_v(graph.prior_order@),
            out@ == start + quoted_list(priors.take(i as int)),
        decreases graph.prior_order.len() - i,
    {
        proof {
            assert(priors.take(i + 1).drop_last() =~= priors.take(i as int));
            assert(priors.take(i + 1).last() == graph.prior_order@[i as int]@);
        }
        if i > 0 {
            out.append(", ");
        }
        out.append("\"");
        out.append(graph.prior_order[i].as_str());
        out.append("\"");
        proof {
            if i == 0 {
                assert(priors.take(1) =~= seq![priors[0]]);
            }
            assert(out@ =~= start + quoted_list(priors.take(i + 1)));
        }
        i += 1;
    }
    proof {
        assert(priors.take(priors.len() as int) =~= priors);
    }
    out.append("], augur.hardware = \"");
    out.append(hardware);
    out.append("\"} {\n");
    out.append("    ^entry:\n");
    let pad = String::from_str("      ");
    emit_ops(&graph.ops, &mut out, &pad);
    out.append("      tptir.return\n");
    out.append("  }\n}\n");
    proof {
        assert(out@ =~= tptir_text(ops_v(graph.ops@), priors, entry_name@, hardware@));
    }
    out
}


/// Distinct scalar operations never share an op name: two scalar ops with
/// the same name are the same operation; a division is `augur.divf`, a
/// multiplication `augur.mulf`, a subtraction `augur.subf`, an addition
/// `augur.addf` and a negation `augur.negf`.
pub proof fn lemma_scalar_names_distinct(s1: ScalarOp, s2: ScalarOp)
    ensures
        scalar_mnemonic(s1) == scalar_mnemonic(s2) ==> {
            &&& (s1 is Add <==> s2 is Add)
            &&& (s1 is Sub <==> s2 is Sub)
            &&& (s1 is Mul <==> s2 is Mul)
            &&& (s1 is Div <==> s2 is Div)
            &&& (s1 is Neg <==> s2 is Neg)
            &&& (s1 is CmpGt <==> s2 is CmpGt)
            &&& (s1 is CmpLt <==> s2 is CmpLt)
            &&& (s1 is CmpGe <==> s2 is CmpGe)
            &&& (s1 is CmpLe <==> s2 is CmpLe)
            &&& (s1 is CmpEq <==> s2 is CmpEq)
            &&& (s1 is CmpNe <==> s2 is CmpNe)
        },
        s1 is Div ==> scalar_mnemonic(s1) == "augur.divf"@,
        s1 is Mul ==> scalar_mnemonic(s1) == "augur.mulf"@,
        s1 is Sub ==> scalar_mnemonic(s1) == "augur.subf"@,
        s1 is Add ==> scalar_mnemonic(s1) == "augur.addf"@,
        s1 is Neg ==> scalar_mnemonic(s1) == "augur.negf"@,
{
    reveal_strlit("augur.addf");
    reveal_strlit("augur.subf");
    reveal_strlit("augur.mulf");
    reveal_strlit("augur.divf");
    reveal_strlit("augur.negf");
    reveal_strlit("augur.cmpf_gt");
    reveal_strlit("augur.cmpf_lt");
    reveal_strlit("augur.cmpf_ge");
    reveal_strlit("augur.cmpf_le");
    reveal_strlit("augur.cmpf_eq");
    reveal_strlit("augur.cmpf_ne");
    let a = scalar_mnemonic(s1);
    let b = scalar_mnemonic(s2);
    if a == b {
        // The names differ in length or in one of their first characters.
        assert(a.len() == b.len());
        assert(a[6] == b[6] && a[7] == b[7] && a.len() == b.len());
        if a.len() == 13 {
            assert(a[11] == b[11] && a[12] == b[12]);
        }
    }
}

} // verus!
