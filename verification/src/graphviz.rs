//! Renders a probabilistic dialect [`Graph`] as Graphviz DOT: each op becomes
//! a node and each operand an edge, so the dependencies between priors,
//! deterministic bindings and observations are visible at a glance.
//!
//! Node ids are globally unique: an op inside a `Cond` cluster has its id
//! prefixed with the cluster's id, and operands resolve to the node id of
//! the op that defined them, wherever it stands.
use std::collections::HashMap;
use vstd::prelude::*;
use crate::dialect::{Graph, Op, OpV, ScalarOp, ValueId, family_op_name, ops_v, lemma_ops_v, scalar_operands};
use crate::util::{decimal, push_decimal, push_char};
use crate::passes::collect_scalar_operands;

verus! {

/// Whether `char::is_alphanumeric` holds of a character.
pub uninterp spec fn is_alphanumeric(c: char) -> bool;

/// `char::is_alphanumeric`: the character is alphabetic or numeric in
/// Unicode's sense. Stated: the result is [`is_alphanumeric`] of the
/// character, and ASCII letters and digits are alphanumeric, as the
/// documentation shows.
#[verifier::external_body]
fn alphanumeric(c: char) -> (b: bool)
    ensures
        b == is_alphanumeric(c),
        ('a' <= c <= 'z' || 'A' <= c <= 'Z' || '0' <= c <= '9') ==> b,
{
    c.is_alphanumeric()
}

/// A node id for a value: `n<id>`.
pub open spec fn node_id(v: ValueId) -> Seq<char> {
    "n"@ + decimal(v as nat)
}

/// The node an operand resolves to: its defining node, else `n<id>`.
pub open spec fn operand_label(v: ValueId, m: Map<ValueId, Seq<char>>) -> Seq<char> {
    if m.contains_key(v) {
        m[v]
    } else {
        node_id(v)
    }
}

/// Operand labels separated by `, `.
pub open spec fn labels(ids: Seq<ValueId>, m: Map<ValueId, Seq<char>>) -> Seq<char>
    decreases ids.len(),
{
    if ids.len() == 0 {
        seq![]
    } else if ids.len() == 1 {
        operand_label(ids[0], m)
    } else {
        labels(ids.drop_last(), m) + ", "@ + operand_label(ids.last(), m)
    }
}

/// A name with every non-alphanumeric character replaced by `_`.
pub open spec fn sanitize(name: Seq<char>) -> Seq<char> {
    name.map_values(|c: char| if is_alphanumeric(c) { c } else { '_' })
}

/// A base id inside the cluster `prefix`, if any.
pub open spec fn qualify(prefix: Option<Seq<char>>, base: Seq<char>) -> Seq<char> {
    match prefix {
        Some(p) => p + "_"@ + base,
        None => base,
    }
}

/// An edge line.
pub open spec fn edge(from: Seq<char>, to: Seq<char>) -> Seq<char> {
    "  "@ + from + " -> "@ + to + ";\n"@
}

/// An edge from each operand's node to `to`, in order.
pub open spec fn edges(ids: Seq<ValueId>, m: Map<ValueId, Seq<char>>, to: Seq<char>) -> Seq<char>
    decreases ids.len(),
{
    if ids.len() == 0 {
        seq![]
    } else {
        edges(ids.drop_last(), m, to) + edge(operand_label(ids.last(), m), to)
    }
}

/// A cluster id, salted by the number of values with a node so far.
pub open spec fn cluster_id(m: Map<ValueId, Seq<char>>, tag: Seq<char>) -> Seq<char> {
    "cluster_"@ + tag + "_"@ + decimal(m.len())
}

/// The symbol of a scalar op.
pub open spec fn scalar_symbol(op: ScalarOp) -> Seq<char> {
    match op {
        ScalarOp::Add(..) => "+"@,
        ScalarOp::Sub(..) => "-"@,
        ScalarOp::Mul(..) => "*"@,
        ScalarOp::Div(..) => "/"@,
        ScalarOp::Neg(..) => "-"@,
        ScalarOp::CmpGt(..) => ">"@,
        ScalarOp::CmpLt(..) => "<"@,
        ScalarOp::CmpGe(..) => ">="@,
        ScalarOp::CmpLe(..) => "<="@,
        ScalarOp::CmpEq(..) => "=="@,
        ScalarOp::CmpNe(..) => "!="@,
    }
}

/// The label of a scalar op: `<lhs><sym> <rhs>`, or `<sym><operand>`.
pub open spec fn scalar_label(op: ScalarOp, m: Map<ValueId, Seq<char>>) -> Seq<char> {
    let xs = scalar_operands(op);
    if xs.len() == 2 {
        operand_label(xs[0], m) + scalar_symbol(op) + " "@ + operand_label(xs[1], m)
    } else {
        scalar_symbol(op) + operand_label(xs[0], m)
    }
}

/// DOT text emitted so far and the nodes defining each value.
pub struct Dot {
    pub text: Seq<char>,
    pub prod: Map<ValueId, Seq<char>>,
}

/// A node line.
pub open spec fn node_line(id: Seq<char>, label: Seq<char>, shape: Seq<char>, color: Seq<char>) -> Seq<char> {
    "  "@ + id + " [label=\""@ + label + "\", shape="@ + shape + ", style=filled, fillcolor=\"#"@ + color
        + "\"];\n"@
}

/// The DOT text of one op.
pub open spec fn dot_op(o: OpV, m: Map<ValueId, Seq<char>>, prefix: Option<Seq<char>>) -> Dot
    decreases o,
{
    match o {
        OpV::Constant { result, value } => {
            let id = qualify(prefix, node_id(result));
            Dot { text: node_line(id, "const "@ + value, "ellipse"@, "e8f0ff"@), prod: m.insert(result, id) }
        },
        OpV::Dist { result, family, params } => {
            let id = qualify(prefix, node_id(result));
            Dot {
                text: node_line(id, family_op_name(family) + "("@ + labels(params, m) + ")"@, "ellipse"@, "fff3e0"@)
                    + edges(params, m, id),
                prod: m.insert(result, id),
            }
        },
        OpV::Sample { result, dist, name } => {
            let id = qualify(prefix, node_id(result));
            Dot {
                text: node_line(id, "sample "@ + name, "box"@, "e6ffe6"@) + edge(operand_label(dist, m), id),
                prod: m.insert(result, id),
            }
        },
        OpV::Scalar { result, op } => {
            let id = qualify(prefix, node_id(result));
            Dot {
                text: node_line(id, scalar_label(op, m), "box"@, "f3e8ff"@) + edges(scalar_operands(op), m, id),
                prod: m.insert(result, id),
            }
        },
        OpV::Observe { dist, value } => {
            let id = qualify(prefix, "obs_"@ + node_id(dist));
            Dot {
                text: node_line(id, "observe"@, "box"@, "ffe6e6"@) + edge(operand_label(dist, m), id)
                    + edge(operand_label(value, m), id),
                prod: m,
            }
        },
        OpV::Let { name, value } => {
            let id = qualify(prefix, "let_"@ + sanitize(name));
            Dot { text: node_line(id, "let "@ + name, "box"@, "e0f7fa"@) + edge(operand_label(value, m), id), prod: m }
        },
        OpV::Cond { cond, then_ops, else_ops } => {
            let cond_id = qualify(prefix, "cond_"@ + node_id(cond));
            let tc = cluster_id(m, "then"@);
            let ec = cluster_id(m, "else"@);
            let t = dot_region(then_ops, m, Some(tc));
            let e = dot_region(else_ops, t.prod, Some(ec));
            Dot {
                text: node_line(cond_id, "if "@ + operand_label(cond, m), "diamond"@, "fffde7"@)
                    + edge(operand_label(cond, m), cond_id) + "  subgraph "@ + tc
                    + " {\n    label=\"then\";\n    style=dashed;\n"@ + t.text + "  }\n"@ + "  subgraph "@ + ec
                    + " {\n    label=\"else\";\n    style=dashed;\n"@ + e.text + "  }\n"@,
                prod: e.prod,
            }
        },
    }
}

/// The DOT text of a region's ops, in order.
pub open spec fn dot_region(ops: Seq<OpV>, m: Map<ValueId, Seq<char>>, prefix: Option<Seq<char>>) -> Dot
    decreases ops,
{
    if ops.len() == 0 {
        Dot { text: seq![], prod: m }
    } else {
        let a = dot_region(ops.drop_last(), m, prefix);
        let b = dot_op(ops.last(), a.prod, prefix);
        Dot { text: a.text + b.text, prod: b.prod }
    }
}

/// The whole DOT document of a graph.
pub open spec fn dot_text(ops: Seq<OpV>) -> Seq<char> {
    "digraph augur_inference_graph {\n"@ + "  rankdir=TB;\n"@
        + "  node [shape=box, style=rounded, fontname=\"monospace\"];\n"@ + dot_region(ops, Map::empty(), None).text
        + "}\n"@
}

// ---------------------------------------------------------------------------
// Executable renderer
// ---------------------------------------------------------------------------

/// The view of a producer table.
pub open spec fn prod_v(m: Map<ValueId, String>) -> Map<ValueId, Seq<char>> {
    m.map_values(|t: String| t@)
}

fn insert_producer(m: &mut HashMap<ValueId, String>, k: ValueId, v: String)
    ensures
        prod_v(final(m)@) == prod_v(old(m)@).insert(k, v@),
{
    broadcast use vstd::std_specs::hash::group_hash_axioms;
    let ghost m0 = m@;
    let ghost vv = v@;
    m.insert(k, v);
    proof {
        assert(prod_v(m@) =~= prod_v(m0).insert(k, vv));
    }
}

fn node_id_text(v: ValueId) -> (r: String)
    ensures
        r@ == node_id(v),
{
    let mut s = String::from_str("n");
    push_decimal(&mut s, v as u64);
    s
}

/// The node a value resolves to.
fn label_of(v: ValueId, m: &HashMap<ValueId, String>) -> (r: String)
    ensures
        r@ == operand_label(v, prod_v(m@)),
{
    broadcast use vstd::std_specs::hash::group_hash_axioms;
    match m.get(&v) {
        Some(t) => t.clone(),
        None => node_id_text(v),
    }
}

fn push_labels(out: &mut String, ids: &Vec<ValueId>, m: &HashMap<ValueId, String>)
    ensures
        final(out)@ == old(out)@ + labels(ids@, prod_v(m@)),
{
    let mut i: usize = 0;
    while i < ids.len()
        invariant
            i <= ids@.len(),
            out@ == old(out)@ + labels(ids@.take(i as int), prod_v(m@)),
        decreases ids.len() - i,
    {
        proof {
            assert(ids@.take(i + 1).drop_last() =~= ids@.take(i as int));
            assert(ids@.take(i + 1).last() == ids@[i as int]);
        }
        if i > 0 {
            out.append(", ");
        }
        let l = label_of(ids[i], m);
        out.append(l.as_str());
        proof {
            if i == 0 {
                assert(ids@.take(1) =~= seq![ids@[0]]);
            }
            assert(out@ =~= old(out)@ + labels(ids@.take(i + 1), prod_v(m@)));
        }
        i += 1;
    }
    proof {
        assert(ids@.take(ids@.len() as int) =~= ids@);
    }
}

fn sanitize_name(name: &String) -> (r: String)
    ensures
        r@ == sanitize(name@),
{
    let v = crate::util::chars_of(name.as_str());
    let mut r = String::new();
    let mut i: usize = 0;
    while i < v.len()
        invariant
            v@ == name@,
            i <= v@.len(),
            r@ == sanitize(name@.take(i as int)),
        decreases v.len() - i,
    {
        let c = v[i];
        if alphanumeric(c) {
            push_char(&mut r, c);
        } else {
            push_char(&mut r, '_');
        }
        proof {
            assert(r@ =~= sanitize(name@.take(i + 1)));
        }
        i += 1;
    }
    proof {
        assert(name@.take(v@.len() as int) =~= name@);
    }
    r
}

fn qualify_id(prefix: &Option<String>, base: String) -> (r: String)
    ensures
        r@ == qualify(match prefix {
            Some(p) => Some(p@),
            None => None,
        }, base@),
{
    match prefix {
        Some(p) => {
            let mut s = p.clone();
            s.append("_");
            s.append(base.as_str());
            s
        },
        None => base,
    }
}

/// The view of an optional prefix.
pub open spec fn prefix_v(p: Option<String>) -> Option<Seq<char>> {
    match p {
        Some(s) => Some(s@),
        None => None,
    }
}

fn push_node_line(out: &mut String, id: &String, label: &String, shape: &str, color: &str)
    ensures
        final(out)@ == old(out)@ + node_line(id@, label@, shape@, color@),
{
    out.append("  ");
    out.append(id.as_str());
    out.append(" [label=\"");
    out.append(label.as_str());
    out.append("\", shape=");
    out.append(shape);
    out.append(", style=filled, fillcolor=\"#");
    out.append(color);
    out.append("\"];\n");
}

fn push_edge(out: &mut String, from: &String, to: &String)
    ensures
        final(out)@ == old(out)@ + edge(from@, to@),
{
    out.append("  ");
    out.append(from.as_str());
    out.append(" -> ");
    out.append(to.as_str());
    out.append(";\n");
}

fn push_edges(out: &mut String, ids: &Vec<ValueId>, m: &HashMap<ValueId, String>, to: &String)
    ensures
        final(out)@ == old(out)@ + edges(ids@, prod_v(m@), to@),
{
    let mut i: usize = 0;
    while i < ids.len()
        invariant
            i <= ids@.len(),
            out@ == old(out)@ + edges(ids@.take(i as int), prod_v(m@), to@),
        decreases ids.len() - i,
    {
        proof {
            assert(ids@.take(i + 1).drop_last() =~= ids@.take(i as int));
            assert(ids@.take(i + 1).last() == ids@[i as int]);
        }
        let l = label_of(ids[i], m);
        push_edge(out, &l, to);
        proof {
            assert(out@ =~= old(out)@ + edges(ids@.take(i + 1), prod_v(m@), to@));
        }
        i += 1;
    }
    proof {
        assert(ids@.take(ids@.len() as int) =~= ids@);
    }
}

fn symbol(op: &ScalarOp) -> (r: &'static str)
    ensures
        r@ == scalar_symbol(*op),
{
    match op {
        ScalarOp::Add(..) => "+",
        ScalarOp::Sub(..) => "-",
        ScalarOp::Mul(..) => "*",
        ScalarOp::Div(..) => "/",
        ScalarOp::Neg(..) => "-",
        ScalarOp::CmpGt(..) => ">",
        ScalarOp::CmpLt(..) => "<",
        ScalarOp::CmpGe(..) => ">=",
        ScalarOp::CmpLe(..) => "<=",
        ScalarOp::CmpEq(..) => "==",
        ScalarOp::CmpNe(..) => "!=",
    }
}

fn scalar_label_text(op: &ScalarOp, m: &HashMap<ValueId, String>) -> (r: String)
    ensures
        r@ == scalar_label(*op, prod_v(m@)),
{
    match *op {
        ScalarOp::Neg(a) => {
            let mut s = String::from_str(symbol(op));
            let l = label_of(a, m);
            s.append(l.as_str());
            s
        },
        ScalarOp::Add(a, b) | ScalarOp::Sub(a, b) | ScalarOp::Mul(a, b) | ScalarOp::Div(a, b)
        | ScalarOp::CmpGt(a, b) | ScalarOp::CmpLt(a, b) | ScalarOp::CmpGe(a, b) | ScalarOp::CmpLe(a, b)
        | ScalarOp::CmpEq(a, b) | ScalarOp::CmpNe(a, b) => {
            let mut s = label_of(a, m);
            s.append(symbol(op));
            s.append(" ");
            let l = label_of(b, m);
            s.append(l.as_str());
            s
        },
    }
}

fn cluster_name(m: &HashMap<ValueId, String>, tag: &str) -> (r: String)
    ensures
        r@ == cluster_id(prod_v(m@), tag@),
{
    broadcast use vstd::std_specs::hash::group_hash_axioms;
    let mut s = String::from_str("cluster_");
    s.append(tag);
    s.append("_");
    let n = m.len();
    proof {
        assert(prod_v(m@).dom() =~= m@.dom());
    }
    push_decimal(&mut s, n as u64);
    s
}

/// Appends the DOT text of a region's ops, inside the cluster `prefix`.
fn emit_region(ops: &Vec<Op>, out: &mut String, producer: &mut HashMap<ValueId, String>, prefix: &Option<String>)
    ensures
        ({
            let d = dot_region(ops_v(ops@), prod_v(old(producer)@), prefix_v(*prefix));
            &&& final(out)@ == old(out)@ + d.text
            &&& prod_v(final(producer)@) == d.prod
        }),
    decreases ops, 0nat,
{
    let ghost sv = ops_v(ops@);
    let ghost m0 = prod_v(producer@);
    proof {
        lemma_ops_v(ops@);
        assert(decreases_to!(*ops => ops@));
        assert forall|k: int| 0 <= k < ops@.len() implies decreases_to!(*ops => #[trigger] ops@[k]) by {
            assert(decreases_to!(ops@ => ops@[k]));
        }
    }
    let mut i: usize = 0;
    while i < ops.len()
        invariant
            forall|k: int| 0 <= k < ops@.len() ==> decreases_to!(*ops => #[trigger] ops@[k]),
            i <= ops@.len(),
            sv == ops_v(ops@),
            sv.len() == ops@.len(),
            forall|k: int| 0 <= k < ops@.len() ==> #[trigger] sv[k] == ops@[k]@,
            ({
                let d = dot_region(sv.take(i as int), m0, prefix_v(*prefix));
                &&& out@ == old(out)@ + d.text
                &&& prod_v(producer@) == d.prod
            }),
        decreases ops.len() - i,
    {
        proof {
            assert(sv.take(i + 1).drop_last() =~= sv.take(i as int));
            assert(sv.take(i + 1).last() == sv[i as int]);
        }
        emit_node(&ops[i], out, producer, prefix);
        proof {
            assert(out@ =~= old(out)@ + dot_region(sv.take(i + 1), m0, prefix_v(*prefix)).text);
        }
        i += 1;
    }
    proof {
        assert(sv.take(ops@.len() as int) =~= sv);
    }
}

/// Appends the DOT text of one op.
#[verifier::rlimit(40)]
#[verifier::spinoff_prover]
fn emit_node(o: &Op, out: &mut String, producer: &mut HashMap<ValueId, String>, prefix: &Option<String>)
    ensures
        ({
            let d = dot_op(o@, prod_v(old(producer)@), prefix_v(*prefix));
            &&& final(out)@ == old(out)@ + d.text
            &&& prod_v(final(producer)@) == d.prod
        }),
    decreases o, 1nat,
{
    let ghost m0 = prod_v(producer@);
    let ghost pre = prefix_v(*prefix);
    match o {
        Op::Constant { result, value } => {
            let id = qualify_id(prefix, node_id_text(*result));
            let mut label = String::from_str("const ");
            label.append(value.as_str());
            push_node_line(out, &id, &label, "ellipse", "e8f0ff");
            insert_producer(producer, *result, id);
        },
        Op::Dist { result, dist } => {
            let id = qualify_id(prefix, node_id_text(*result));
            let mut label = String::from_str(dist.family.op_name());
            label.append("(");
            push_labels(&mut label, &dist.params, producer);
            label.append(")");
            push_node_line(out, &id, &label, "ellipse", "fff3e0");
            push_edges(out, &dist.params, producer, &id);
            insert_producer(producer, *result, id);
        },
        Op::Sample { result, dist, name } => {
            let id = qualify_id(prefix, node_id_text(*result));
            let mut label = String::from_str("sample ");
            label.append(name.as_str());
            push_node_line(out, &id, &label, "box", "e6ffe6");
            let a = label_of(*dist, producer);
            push_edge(out, &a, &id);
            insert_producer(producer, *result, id);
        },
        Op::Scalar { result, op } => {
            let id = qualify_id(prefix, node_id_text(*result));
            let label = scalar_label_text(op, producer);
            push_node_line(out, &id, &label, "box", "f3e8ff");
            let mut xs: Vec<ValueId> = Vec::new();
            collect_scalar_operands(op, &mut xs);
            proof {
                assert(xs@ =~= scalar_operands(*op));
            }
            push_edges(out, &xs, producer, &id);
            insert_producer(producer, *result, id);
        },
        Op::Observe { dist, value } => {
            let mut base = String::from_str("obs_");
            let n = node_id_text(*dist);
            base.append(n.as_str());
            let id = qualify_id(prefix, base);
            let label = String::from_str("observe");
            push_node_line(out, &id, &label, "box", "ffe6e6");
            let a = label_of(*dist, producer);
            push_edge(out, &a, &id);
            let b = label_of(*value, producer);
            push_edge(out, &b, &id);
        },
        Op::Let { name, value } => {
            let mut base = String::from_str("let_");
            let s = sanitize_name(name);
            base.append(s.as_str());
            let id = qualify_id(prefix, base);
            let mut label = String::from_str("let ");
            label.append(name.as_str());
            push_node_line(out, &id, &label, "box", "e0f7fa");
            let a = label_of(*value, producer);
            push_edge(out, &a, &id);
        },
        Op::Cond { cond, then_ops, else_ops } => {
            proof {
                assert(decreases_to!(*o => *then_ops));
                assert(decreases_to!(*o => *else_ops));
            }
            let mut base = String::from_str("cond_");
            let n = node_id_text(*cond);
            base.append(n.as_str());
            let cond_id = qualify_id(prefix, base);
            let mut label = String::from_str("if ");
            let c = label_of(*cond, producer);
            label.append(c.as_str());
            push_node_line(out, &cond_id, &label, "diamond", "fffde7");
            push_edge(out, &c, &cond_id);
            let then_cluster = cluster_name(producer, "then");
            let else_cluster = cluster_name(producer, "else");
            out.append("  subgraph ");
            out.append(then_cluster.as_str());
            out.append(" {\n    label=\"then\";\n    style=dashed;\n");
            let tp = Some(then_cluster);
            emit_region(then_ops, out, producer, &tp);
            out.append("  }\n");
            out.append("  subgraph ");
            out.append(else_cluster.as_str());
            out.append(" {\n    label=\"else\";\n    style=dashed;\n");
            let ep = Some(else_cluster);
            emit_region(else_ops, out, producer, &ep);
            out.append("  }\n");
        },
    }
    proof {
        assert(out@ =~= old(out)@ + dot_op(o@, m0, pre).text);
    }
}

/// Renders a graph as a standalone Graphviz `digraph`.
pub fn to_dot(graph: &Graph) -> (r: String)
    ensures
        r@ == dot_text(ops_v(graph.ops@)),
{
    let mut out = String::from_str("digraph augur_inference_graph {\n");
    out.append("  rankdir=TB;\n");
    out.append("  node [shape=box, style=rounded, fontname=\"monospace\"];\n");
    let mut producer: HashMap<ValueId, String> = HashMap::new();
    proof {
        assert(prod_v(producer@) =~= Map::<ValueId, Seq<char>>::empty());
    }
    emit_region(&graph.ops, &mut out, &mut producer, &None);
    out.append("}\n");
    proof {
        assert(out@ =~= dot_text(ops_v(graph.ops@)));
    }
    out
}

} // verus!
