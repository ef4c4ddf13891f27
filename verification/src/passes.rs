//! Probabilistic pre-lowering passes over the `augur` dialect [`Graph`]:
//! collapsing branches on constant conditions and removing dead values.
//!
//! Each pass returns the number of changes it made (0 means the pass was a
//! no-op on the graph). Passes leave the prior order and the value counter
//! unchanged.
use vstd::prelude::*;
use crate::dialect::{
    DistInstance, Graph, Op, OpV, ValueId, ops_v, lemma_ops_v, count_ops, count_op, lemma_count_prefix,
    scalar_operands, ScalarOp,
};

verus! {

// ---------------------------------------------------------------------------
// Copies of ops
// ---------------------------------------------------------------------------

fn clone_ids(v: &Vec<ValueId>) -> (r: Vec<ValueId>)
    ensures
        r@ == v@,
{
    let mut r: Vec<ValueId> = Vec::new();
    let mut i: usize = 0;
    while i < v.len()
        invariant
            i <= v@.len(),
            r@ == v@.take(i as int),
        decreases v.len() - i,
    {
        r.push(v[i]);
        proof {
            assert(r@ =~= v@.take(i + 1));
        }
        i += 1;
    }
    proof {
        assert(v@.take(v@.len() as int) =~= v@);
    }
    r
}

/// A copy of an op.
pub fn clone_op(o: &Op) -> (r: Op)
    ensures
        r@ == o@,
    decreases o, 1nat,
{
    match o {
        Op::Constant { result, value } => Op::Constant { result: *result, value: value.clone() },
        Op::Dist { result, dist } => Op::Dist {
            result: *result,
            dist: DistInstance { family: dist.family, params: clone_ids(&dist.params) },
        },
        Op::Sample { result, dist, name } => Op::Sample { result: *result, dist: *dist, name: name.clone() },
        Op::Scalar { result, op } => Op::Scalar { result: *result, op: *op },
        Op::Observe { dist, value } => Op::Observe { dist: *dist, value: *value },
        Op::Let { name, value } => Op::Let { name: name.clone(), value: *value },
        Op::Cond { cond, then_ops, else_ops } => {
            proof {
                assert(decreases_to!(*o => *then_ops));
                assert(decreases_to!(*o => *else_ops));
            }
            Op::Cond { cond: *cond, then_ops: clone_ops(then_ops), else_ops: clone_ops(else_ops) }
        },
    }
}

/// A copy of a region of ops.
pub fn clone_ops(v: &Vec<Op>) -> (r: Vec<Op>)
    ensures
        ops_v(r@) == ops_v(v@),
    decreases v, 0nat,
{
    proof {
        lemma_ops_v(v@);
        assert(decreases_to!(*v => v@));
        assert forall|k: int| 0 <= k < v@.len() implies decreases_to!(*v => #[trigger] v@[k]) by {
            assert(decreases_to!(v@ => v@[k]));
        }
    }
    let mut r: Vec<Op> = Vec::new();
    let mut i: usize = 0;
    while i < v.len()
        invariant
            forall|k: int| 0 <= k < v@.len() ==> decreases_to!(*v => #[trigger] v@[k]),
            i <= v@.len(),
            ops_v(r@) == ops_v(v@.take(i as int)),
        decreases v.len() - i,
    {
        let c = clone_op(&v[i]);
        let ghost before = r@;
        r.push(c);
        proof {
            assert(r@.drop_last() =~= before);
            assert(v@.take(i + 1).drop_last() =~= v@.take(i as int));
        }
        i += 1;
    }
    proof {
        assert(v@.take(v@.len() as int) =~= v@);
    }
    r
}

fn push_op(ops: &mut Vec<Op>, o: Op)
    ensures
        ops_v(final(ops)@) == ops_v(old(ops)@).push(o@),
{
    let ghost before = ops@;
    ops.push(o);
    proof {
        assert(ops@.drop_last() =~= before);
    }
}

fn append_ops(ops: &mut Vec<Op>, more: Vec<Op>)
    ensures
        ops_v(final(ops)@) == ops_v(old(ops)@) + ops_v(more@),
{
    let ghost before = ops@;
    let ghost m = more@;
    let mut more = more;
    ops.append(&mut more);
    proof {
        assert(ops@ =~= before + m);
        crate::dialect::lemma_ops_v_add(before, m);
    }
}

// ---------------------------------------------------------------------------
// Constant branches
// ---------------------------------------------------------------------------

/// Whether the decimal text of a constant denotes a value above zero: not
/// negative, not `NaN`, and either `inf` or with a nonzero digit.
pub open spec fn text_positive(v: Seq<char>) -> bool {
    &&& v.len() > 0
    &&& v[0] != '-'
    &&& v != "NaN"@
    &&& (v == "inf"@ || exists|i: int| 0 <= i < v.len() && '1' <= #[trigger] v[i] <= '9')
}

/// The text of the latest constant defining `id`.
pub open spec fn const_get(consts: Seq<(ValueId, Seq<char>)>, id: ValueId) -> Option<Seq<char>>
    decreases consts.len(),
{
    if consts.len() == 0 {
        None
    } else if consts.last().0 == id {
        Some(consts.last().1)
    } else {
        const_get(consts.drop_last(), id)
    }
}

/// The result of simplifying a region: its ops, the changes made, and the
/// constants seen so far.
pub struct Simp {
    pub out: Seq<OpV>,
    pub changes: nat,
    pub consts: Seq<(ValueId, Seq<char>)>,
}

/// Simplifying a region: constants are recorded as they are met; a branch
/// whose condition is a constant of the region is replaced by the ops of the
/// branch it selects (then when the constant is positive, else otherwise),
/// both branches being simplified first.
pub open spec fn simplify_region(ops: Seq<OpV>) -> Simp
    decreases ops,
{
    if ops.len() == 0 {
        Simp { out: seq![], changes: 0, consts: seq![] }
    } else {
        let a = simplify_region(ops.drop_last());
        let b = simplify_op(ops.last(), a.consts);
        Simp { out: a.out + b.out, changes: a.changes + b.changes, consts: b.consts }
    }
}

/// Simplifying one op, with the region's constants so far.
pub open spec fn simplify_op(o: OpV, consts: Seq<(ValueId, Seq<char>)>) -> Simp
    decreases o,
{
    match o {
        OpV::Constant { result, value } => Simp { out: seq![o], changes: 0, consts: consts.push((result, value)) },
        OpV::Cond { cond, then_ops, else_ops } => {
            let t = simplify_region(then_ops);
            let e = simplify_region(else_ops);
            match const_get(consts, cond) {
                Some(v) => Simp {
                    out: if text_positive(v) { t.out } else { e.out },
                    changes: t.changes + e.changes + 1,
                    consts,
                },
                None => Simp {
                    out: seq![OpV::Cond { cond, then_ops: t.out, else_ops: e.out }],
                    changes: t.changes + e.changes,
                    consts,
                },
            }
        },
        _ => Simp { out: seq![o], changes: 0, consts },
    }
}

proof fn lemma_simplify_changes(ops: Seq<OpV>)
    ensures
        simplify_region(ops).changes <= count_ops(ops),
    decreases ops, 0nat,
{
    if ops.len() > 0 {
        lemma_simplify_changes(ops.drop_last());
        lemma_simplify_op_changes(ops.last(), simplify_region(ops.drop_last()).consts);
    }
}

proof fn lemma_simplify_op_changes(o: OpV, consts: Seq<(ValueId, Seq<char>)>)
    ensures
        simplify_op(o, consts).changes <= count_op(o),
    decreases o, 1nat,
{
    if let OpV::Cond { then_ops, else_ops, .. } = o {
        lemma_simplify_changes(then_ops);
        lemma_simplify_changes(else_ops);
    }
}

/// The view of a constants table.
pub open spec fn consts_v(c: Seq<(ValueId, String)>) -> Seq<(ValueId, Seq<char>)> {
    c.map_values(|p: (ValueId, String)| (p.0, p.1@))
}

fn lookup_const(consts: &Vec<(ValueId, String)>, id: ValueId) -> (r: Option<&String>)
    ensures
        match r {
            Some(s) => const_get(consts_v(consts@), id) == Some(s@),
            None => const_get(consts_v(consts@), id) is None,
        },
{
    let ghost cv = consts_v(consts@);
    let mut i: usize = consts.len();
    proof {
        assert(cv.take(i as int) =~= cv);
    }
    while i > 0
        invariant
            i <= consts@.len(),
            cv == consts_v(consts@),
            const_get(cv, id) == const_get(cv.take(i as int), id),
        decreases i,
    {
        proof {
            assert(cv.take(i as int).drop_last() =~= cv.take(i - 1));
            assert(cv.take(i as int).last() == cv[i - 1]);
        }
        if consts[i - 1].0 == id {
            return Some(&consts[i - 1].1);
        }
        i -= 1;
    }
    proof {
        assert(cv.take(0) =~= Seq::<(ValueId, Seq<char>)>::empty());
    }
    None
}

/// Whether the decimal text of a constant denotes a positive value.
pub fn is_positive_text(v: &String) -> (b: bool)
    ensures
        b == text_positive(v@),
{
    let s = v.as_str();
    let n = s.unicode_len();
    if n == 0 {
        return false;
    }
    if s.get_char(0) == '-' {
        return false;
    }
    if crate::util::str_eq(s, "NaN") {
        return false;
    }
    if crate::util::str_eq(s, "inf") {
        return true;
    }
    let mut i: usize = 0;
    while i < n
        invariant
            n == v@.len(),
            s@ == v@,
            i <= n,
            v@.len() > 0 && v@[0] != '-' && v@ != "NaN"@ && v@ != "inf"@,
            forall|k: int| 0 <= k < i ==> !('1' <= #[trigger] v@[k] <= '9'),
        decreases n - i,
    {
        let c = s.get_char(i);
        if '1' <= c && c <= '9' {
            return true;
        }
        i += 1;
    }
    false
}

fn simplify_region_exec(ops: &Vec<Op>) -> (r: (Vec<Op>, usize))
    requires
        count_ops(ops_v(ops@)) <= usize::MAX,
    ensures
        ops_v(r.0@) == simplify_region(ops_v(ops@)).out,
        r.1 == simplify_region(ops_v(ops@)).changes,
    decreases ops, 0nat,
{
    let ghost sv = ops_v(ops@);
    proof {
        lemma_ops_v(ops@);
        assert(decreases_to!(*ops => ops@));
        assert forall|k: int| 0 <= k < ops@.len() implies decreases_to!(*ops => #[trigger] ops@[k]) by {
            assert(decreases_to!(ops@ => ops@[k]));
        }
    }
    let mut consts: Vec<(ValueId, String)> = Vec::new();
    let mut out: Vec<Op> = Vec::new();
    let mut changes: usize = 0;
    let mut i: usize = 0;
    proof {
        assert(consts_v(consts@) =~= Seq::<(ValueId, Seq<char>)>::empty());
    }
    while i < ops.len()
        invariant
            forall|k: int| 0 <= k < ops@.len() ==> decreases_to!(*ops => #[trigger] ops@[k]),
            i <= ops@.len(),
            sv == ops_v(ops@),
            sv.len() == ops@.len(),
            forall|k: int| 0 <= k < ops@.len() ==> #[trigger] sv[k] == ops@[k]@,
            count_ops(sv) <= usize::MAX,
            ({
                let a = simplify_region(sv.take(i as int));
                &&& ops_v(out@) == a.out
                &&& changes == a.changes
                &&& consts_v(consts@) == a.consts
            }),
        decreases ops.len() - i,
    {
        proof {
            assert(sv.take(i + 1).drop_last() =~= sv.take(i as int));
            assert(sv.take(i + 1).last() == sv[i as int]);
            lemma_count_prefix(sv, i + 1);
            lemma_simplify_changes(sv.take(i as int));
        }
        simplify_op_exec(&ops[i], &mut consts, &mut out, &mut changes);
        i += 1;
    }
    proof {
        assert(sv.take(ops@.len() as int) =~= sv);
    }
    (out, changes)
}

fn simplify_op_exec(o: &Op, consts: &mut Vec<(ValueId, String)>, out: &mut Vec<Op>, changes: &mut usize)
    requires
        *old(changes) + count_op(o@) <= usize::MAX,
    ensures
        ({
            let b = simplify_op(o@, consts_v(old(consts)@));
            &&& ops_v(final(out)@) == ops_v(old(out)@) + b.out
            &&& *final(changes) == *old(changes) + b.changes
            &&& consts_v(final(consts)@) == b.consts
        }),
    decreases o, 1nat,
{
    let ghost c0 = consts_v(consts@);
    let ghost o0 = ops_v(out@);
    match o {
        Op::Constant { result, value } => {
            consts.push((*result, value.clone()));
            push_op(out, clone_op(o));
            proof {
                assert(consts_v(consts@) =~= c0.push((*result, value@)));
                assert(ops_v(out@) =~= o0 + simplify_op(o@, c0).out);
            }
        },
        Op::Cond { cond, then_ops, else_ops } => {
            proof {
                assert(decreases_to!(*o => *then_ops));
                assert(decreases_to!(*o => *else_ops));
                lemma_simplify_changes(ops_v(then_ops@));
                lemma_simplify_changes(ops_v(else_ops@));
            }
            let (t, tc) = simplify_region_exec(then_ops);
            let (e, ec) = simplify_region_exec(else_ops);
            match lookup_const(consts, *cond) {
                Some(v) => {
                    if is_positive_text(v) {
                        append_ops(out, t);
                    } else {
                        append_ops(out, e);
                    }
                    *changes = *changes + tc + ec + 1;
                },
                None => {
                    push_op(out, Op::Cond { cond: *cond, then_ops: t, else_ops: e });
                    *changes = *changes + tc + ec;
                    proof {
                        assert(ops_v(out@) =~= o0 + simplify_op(o@, c0).out);
                    }
                },
            }
        },
        _ => {
            push_op(out, clone_op(o));
            proof {
                assert(ops_v(out@) =~= o0 + simplify_op(o@, c0).out);
            }
        },
    }
}

/// Collapses `augur.cond` nodes whose condition is a compile-time constant,
/// inlining the statically selected branch and dropping the other one
/// (every sample and observe it held included). A condition is true when its
/// value is above zero.
pub struct ConstantBranchPass;

impl ConstantBranchPass {
    /// The pass's name.
    pub fn name(&self) -> (r: &'static str)
        ensures
            r@ == "constant-branch"@,
    {
        "constant-branch"
    }

    /// Runs the pass; returns the number of branches collapsed.
    pub fn run(&self, graph: &mut Graph) -> (changes: usize)
        requires
            count_ops(ops_v(old(graph).ops@)) <= usize::MAX,
        ensures
            ops_v(final(graph).ops@) == simplify_region(ops_v(old(graph).ops@)).out,
            changes == simplify_region(ops_v(old(graph).ops@)).changes,
            final(graph).prior_order == old(graph).prior_order,
            final(graph).next_value == old(graph).next_value,
    {
        let (out, changes) = simplify_region_exec(&graph.ops);
        graph.ops = out;
        changes
    }
}

// ---------------------------------------------------------------------------
// Dead values
// ---------------------------------------------------------------------------

/// The values the effects of an op read: a sample's distribution, an
/// observation's distribution and value, a binding's value and a branch's
/// condition, with those of its nested regions.
pub open spec fn op_roots(o: OpV) -> Seq<ValueId>
    decreases o,
{
    match o {
        OpV::Sample { dist, .. } => seq![dist],
        OpV::Observe { dist, value } => seq![dist, value],
        OpV::Let { value, .. } => seq![value],
        OpV::Cond { cond, then_ops, else_ops } => seq![cond] + region_roots(then_ops) + region_roots(else_ops),
        _ => seq![],
    }
}

/// The values the effects of a region read.
pub open spec fn region_roots(ops: Seq<OpV>) -> Seq<ValueId>
    decreases ops,
{
    if ops.len() == 0 {
        seq![]
    } else {
        region_roots(ops.drop_last()) + op_roots(ops.last())
    }
}

/// The operands of an op that defines a value in `live` (a distribution or
/// a scalar op), and those of such ops in its nested regions.
pub open spec fn op_feeds(o: OpV, live: Set<ValueId>) -> Seq<ValueId>
    decreases o,
{
    match o {
        OpV::Dist { result, params, .. } => if live.contains(result) { params } else { seq![] },
        OpV::Scalar { result, op } => if live.contains(result) { scalar_operands(op) } else { seq![] },
        OpV::Cond { then_ops, else_ops, .. } => region_feeds(then_ops, live) + region_feeds(else_ops, live),
        _ => seq![],
    }
}

/// The operands of a region's ops that define a value in `live`.
pub open spec fn region_feeds(ops: Seq<OpV>, live: Set<ValueId>) -> Seq<ValueId>
    decreases ops,
{
    if ops.len() == 0 {
        seq![]
    } else {
        region_feeds(ops.drop_last(), live) + op_feeds(ops.last(), live)
    }
}

/// `live`, grown `rounds` times by the operands of the ops defining its
/// values.
pub open spec fn live_after(ops: Seq<OpV>, live: Set<ValueId>, rounds: nat) -> Set<ValueId>
    decreases rounds,
{
    if rounds == 0 {
        live
    } else {
        live_after(ops, live.union(region_feeds(ops, live).to_set()), (rounds - 1) as nat)
    }
}

/// The live values of a region: those its effects read, and, transitively,
/// the operands of the ops defining a live value. A value is live when a
/// chain of defining ops leads from it to an effect; the shortest such chain
/// passes through each defining op at most once, so as many rounds as the
/// region has ops reach every live value: the set they give is closed
/// (`lemma_live_closed`).
pub open spec fn live_values(ops: Seq<OpV>) -> Set<ValueId> {
    live_after(ops, region_roots(ops).to_set(), count_ops(ops))
}

/// Whether an op only defines a value (a constant, a distribution or a
/// scalar op) and that value is not live.
pub open spec fn is_dead(o: OpV, live: Set<ValueId>) -> bool {
    match o {
        OpV::Constant { result, .. } => !live.contains(result),
        OpV::Dist { result, .. } => !live.contains(result),
        OpV::Scalar { result, .. } => !live.contains(result),
        _ => false,
    }
}

/// Growing a set that already holds the operands of its defining ops
/// changes nothing.
proof fn lemma_live_stable(ops: Seq<OpV>, live: Set<ValueId>, rounds: nat)
    requires
        region_feeds(ops, live).to_set().subset_of(live),
    ensures
        live_after(ops, live, rounds) == live,
    decreases rounds,
{
    assert(live.union(region_feeds(ops, live).to_set()) =~= live);
    if rounds > 0 {
        lemma_live_stable(ops, live, (rounds - 1) as nat);
    }
}

/// The result of pruning: the ops kept and the number removed.
pub struct Pruned {
    pub out: Seq<OpV>,
    pub removed: nat,
}

/// Pruning a region: dead ops are removed, everywhere else nested regions
/// are pruned; samples, observes, lets and branches always stay.
pub open spec fn prune_region(ops: Seq<OpV>, used: Set<ValueId>) -> Pruned
    decreases ops,
{
    if ops.len() == 0 {
        Pruned { out: seq![], removed: 0 }
    } else {
        let a = prune_region(ops.drop_last(), used);
        let b = prune_op(ops.last(), used);
        Pruned { out: a.out + b.out, removed: a.removed + b.removed }
    }
}

/// Pruning one op.
pub open spec fn prune_op(o: OpV, used: Set<ValueId>) -> Pruned
    decreases o,
{
    if is_dead(o, used) {
        Pruned { out: seq![], removed: 1 }
    } else {
        match o {
            OpV::Cond { cond, then_ops, else_ops } => {
                let t = prune_region(then_ops, used);
                let e = prune_region(else_ops, used);
                Pruned {
                    out: seq![OpV::Cond { cond, then_ops: t.out, else_ops: e.out }],
                    removed: t.removed + e.removed,
                }
            },
            _ => Pruned { out: seq![o], removed: 0 },
        }
    }
}

proof fn lemma_prune_removed(ops: Seq<OpV>, used: Set<ValueId>)
    ensures
        prune_region(ops, used).removed <= count_ops(ops),
    decreases ops, 0nat,
{
    if ops.len() > 0 {
        lemma_prune_removed(ops.drop_last(), used);
        lemma_prune_op_removed(ops.last(), used);
    }
}

proof fn lemma_prune_op_removed(o: OpV, used: Set<ValueId>)
    ensures
        prune_op(o, used).removed <= count_op(o),
    decreases o, 1nat,
{
    if let OpV::Cond { then_ops, else_ops, .. } = o {
        lemma_prune_removed(then_ops, used);
        lemma_prune_removed(else_ops, used);
    }
}

fn push_ids(used: &mut Vec<ValueId>, ids: &Vec<ValueId>)
    ensures
        final(used)@ == old(used)@ + ids@,
{
    let mut i: usize = 0;
    while i < ids.len()
        invariant
            i <= ids@.len(),
            used@ == old(used)@ + ids@.take(i as int),
        decreases ids.len() - i,
    {
        used.push(ids[i]);
        proof {
            assert(used@ =~= old(used)@ + ids@.take(i + 1));
        }
        i += 1;
    }
    proof {
        assert(ids@.take(ids@.len() as int) =~= ids@);
    }
}

fn collect_roots(ops: &Vec<Op>, used: &mut Vec<ValueId>)
    ensures
        final(used)@ == old(used)@ + region_roots(ops_v(ops@)),
    decreases ops, 0nat,
{
    let ghost sv = ops_v(ops@);
    proof {
        lemma_ops_v(ops@);
        assert(decreases_to!(*ops => ops@));
        assert forall|k: int| 0 <= k < ops@.len() implies decreases_to!(*ops => #[trigger] ops@[k]) by {
            assert(decreases_to!(ops@ => ops@[k]));
        }
    }
    let mut i: usize = 0;
    while i < ops.len()
        invariant
            forall|k: int| 0 <= k < ops@.len() ==> decreases_to!(*ops => #[trigger] ops@[k]),
            i <= ops@.len(),
            sv == ops_v(ops@),
            sv.len() == ops@.len(),
            forall|k: int| 0 <= k < ops@.len() ==> #[trigger] sv[k] == ops@[k]@,
            used@ == old(used)@ + region_roots(sv.take(i as int)),
        decreases ops.len() - i,
    {
        proof {
            assert(sv.take(i + 1).drop_last() =~= sv.take(i as int));
            assert(sv.take(i + 1).last() == sv[i as int]);
        }
        collect_op_roots(&ops[i], used);
        proof {
            assert(used@ =~= old(used)@ + region_roots(sv.take(i + 1)));
        }
        i += 1;
    }
    proof {
        assert(sv.take(ops@.len() as int) =~= sv);
    }
}

fn collect_op_roots(o: &Op, used: &mut Vec<ValueId>)
    ensures
        final(used)@ == old(used)@ + op_roots(o@),
    decreases o, 1nat,
{
    match o {
        Op::Sample { dist, .. } => {
            used.push(*dist);
        },
        Op::Observe { dist, value } => {
            used.push(*dist);
            used.push(*value);
        },
        Op::Let { value, .. } => {
            used.push(*value);
        },
        Op::Cond { cond, then_ops, else_ops } => {
            proof {
                assert(decreases_to!(*o => *then_ops));
                assert(decreases_to!(*o => *else_ops));
            }
            used.push(*cond);
            collect_roots(then_ops, used);
            collect_roots(else_ops, used);
        },
        _ => {},
    }
    assert(used@ =~= old(used)@ + op_roots(o@));
}

fn collect_feeds(ops: &Vec<Op>, live: &Vec<ValueId>, used: &mut Vec<ValueId>)
    ensures
        final(used)@ == old(used)@ + region_feeds(ops_v(ops@), live@.to_set()),
    decreases ops, 0nat,
{
    let ghost sv = ops_v(ops@);
    let ghost ls = live@.to_set();
    proof {
        lemma_ops_v(ops@);
        assert(decreases_to!(*ops => ops@));
        assert forall|k: int| 0 <= k < ops@.len() implies decreases_to!(*ops => #[trigger] ops@[k]) by {
            assert(decreases_to!(ops@ => ops@[k]));
        }
    }
    let mut i: usize = 0;
    while i < ops.len()
        invariant
            forall|k: int| 0 <= k < ops@.len() ==> decreases_to!(*ops => #[trigger] ops@[k]),
            i <= ops@.len(),
            sv == ops_v(ops@),
            sv.len() == ops@.len(),
            ls == live@.to_set(),
            forall|k: int| 0 <= k < ops@.len() ==> #[trigger] sv[k] == ops@[k]@,
            used@ == old(used)@ + region_feeds(sv.take(i as int), ls),
        decreases ops.len() - i,
    {
        proof {
            assert(sv.take(i + 1).drop_last() =~= sv.take(i as int));
            assert(sv.take(i + 1).last() == sv[i as int]);
        }
        collect_op_feeds(&ops[i], live, used);
        proof {
            assert(used@ =~= old(used)@ + region_feeds(sv.take(i + 1), ls));
        }
        i += 1;
    }
    proof {
        assert(sv.take(ops@.len() as int) =~= sv);
    }
}

fn collect_op_feeds(o: &Op, live: &Vec<ValueId>, used: &mut Vec<ValueId>)
    ensures
        final(used)@ == old(used)@ + op_feeds(o@, live@.to_set()),
    decreases o, 1nat,
{
    match o {
        Op::Dist { result, dist, .. } => {
            if contains_id(live, *result) {
                push_ids(used, &dist.params);
            }
        },
        Op::Scalar { result, op } => {
            if contains_id(live, *result) {
                collect_scalar_operands(op, used);
            }
        },
        Op::Cond { then_ops, else_ops, .. } => {
            proof {
                assert(decreases_to!(*o => *then_ops));
                assert(decreases_to!(*o => *else_ops));
            }
            collect_feeds(then_ops, live, used);
            collect_feeds(else_ops, live, used);
        },
        _ => {},
    }
    assert(used@ =~= old(used)@ + op_feeds(o@, live@.to_set()));
}

proof fn lemma_push_to_set(s: Seq<ValueId>, x: ValueId)
    ensures
        s.push(x).to_set() == s.to_set().insert(x),
{
    assert forall|v: ValueId| s.push(x).to_set().contains(v) == s.to_set().insert(x).contains(v) by {
        if s.push(x).contains(v) {
            let k = choose|k: int| 0 <= k < s.push(x).len() && #[trigger] s.push(x)[k] == v;
            if k < s.len() {
                assert(s[k] == v);
            }
        }
        if s.contains(v) {
            let k = choose|k: int| 0 <= k < s.len() && #[trigger] s[k] == v;
            assert(s.push(x)[k] == v);
        }
        if v == x {
            assert(s.push(x)[s.len() as int] == v);
        }
    }
    assert(s.push(x).to_set() =~= s.to_set().insert(x));
}

/// Adds the values of `d` that `live` lacks; says whether there was one.
fn add_new(live: &mut Vec<ValueId>, d: &Vec<ValueId>) -> (grew: bool)
    ensures
        final(live)@.to_set() == old(live)@.to_set().union(d@.to_set()),
        grew == !d@.to_set().subset_of(old(live)@.to_set()),
{
    let ghost l0 = live@;
    let mut grew = false;
    let mut i: usize = 0;
    proof {
        assert(d@.take(0).to_set() =~= Set::<ValueId>::empty());
        assert(live@.to_set() =~= l0.to_set().union(Set::<ValueId>::empty()));
    }
    while i < d.len()
        invariant
            i <= d@.len(),
            live@.to_set() == l0.to_set().union(d@.take(i as int).to_set()),
            grew == !d@.take(i as int).to_set().subset_of(l0.to_set()),
        decreases d.len() - i,
    {
        let x = d[i];
        let ghost t0 = d@.take(i as int);
        proof {
            assert(d@.take(i + 1) =~= t0.push(x));
            lemma_push_to_set(t0, x);
        }
        let ghost before = live@;
        if !contains_id(live, x) {
            live.push(x);
            proof {
                lemma_push_to_set(before, x);
                assert(!before.contains(x));
                assert(!before.to_set().contains(x));
                assert(!l0.to_set().contains(x));
                assert(t0.push(x).to_set().contains(x));
            }
            grew = true;
        } else {
            proof {
                assert(before.to_set().contains(x));
                if !l0.to_set().contains(x) {
                    assert(t0.to_set().contains(x));
                }
            }
        }
        proof {
            assert(live@.to_set() =~= l0.to_set().union(d@.take(i + 1).to_set()));
        }
        i += 1;
    }
    proof {
        assert(d@.take(d@.len() as int) =~= d@);
    }
    grew
}

/// Appends the operands of a scalar op.
pub fn collect_scalar_operands(op: &ScalarOp, used: &mut Vec<ValueId>)
    ensures
        final(used)@ == old(used)@ + scalar_operands(*op),
{
    match *op {
        ScalarOp::Neg(a) => {
            used.push(a);
        },
        ScalarOp::Add(a, b) | ScalarOp::Sub(a, b) | ScalarOp::Mul(a, b) | ScalarOp::Div(a, b)
        | ScalarOp::CmpGt(a, b) | ScalarOp::CmpLt(a, b) | ScalarOp::CmpGe(a, b) | ScalarOp::CmpLe(a, b)
        | ScalarOp::CmpEq(a, b) | ScalarOp::CmpNe(a, b) => {
            used.push(a);
            used.push(b);
        },
    }
    assert(used@ =~= old(used)@ + scalar_operands(*op));
}

fn contains_id(v: &Vec<ValueId>, id: ValueId) -> (r: bool)
    ensures
        r == v@.contains(id),
{
    let mut i: usize = 0;
    while i < v.len()
        invariant
            i <= v@.len(),
            forall|k: int| 0 <= k < i ==> v@[k] != id,
        decreases v.len() - i,
    {
        if v[i] == id {
            return true;
        }
        i += 1;
    }
    false
}

fn prune_region_exec(ops: &Vec<Op>, used: &Vec<ValueId>) -> (r: (Vec<Op>, usize))
    requires
        count_ops(ops_v(ops@)) <= usize::MAX,
    ensures
        ops_v(r.0@) == prune_region(ops_v(ops@), used@.to_set()).out,
        r.1 == prune_region(ops_v(ops@), used@.to_set()).removed,
    decreases ops, 0nat,
{
    let ghost sv = ops_v(ops@);
    proof {
        lemma_ops_v(ops@);
        assert(decreases_to!(*ops => ops@));
        assert forall|k: int| 0 <= k < ops@.len() implies decreases_to!(*ops => #[trigger] ops@[k]) by {
            assert(decreases_to!(ops@ => ops@[k]));
        }
    }
    let mut out: Vec<Op> = Vec::new();
    let mut removed: usize = 0;
    let mut i: usize = 0;
    while i < ops.len()
        invariant
            forall|k: int| 0 <= k < ops@.len() ==> decreases_to!(*ops => #[trigger] ops@[k]),
            i <= ops@.len(),
            sv == ops_v(ops@),
            sv.len() == ops@.len(),
            forall|k: int| 0 <= k < ops@.len() ==> #[trigger] sv[k] == ops@[k]@,
            count_ops(sv) <= usize::MAX,
            ({
                let a = prune_region(sv.take(i as int), used@.to_set());
                &&& ops_v(out@) == a.out
                &&& removed == a.removed
            }),
        decreases ops.len() - i,
    {
        proof {
            assert(sv.take(i + 1).drop_last() =~= sv.take(i as int));
            assert(sv.take(i + 1).last() == sv[i as int]);
            lemma_count_prefix(sv, i + 1);
            lemma_prune_removed(sv.take(i as int), used@.to_set());
        }
        prune_op_exec(&ops[i], used, &mut out, &mut removed);
        i += 1;
    }
    proof {
        assert(sv.take(ops@.len() as int) =~= sv);
    }
    (out, removed)
}

fn prune_op_exec(o: &Op, used: &Vec<ValueId>, out: &mut Vec<Op>, removed: &mut usize)
    requires
        *old(removed) + count_op(o@) <= usize::MAX,
    ensures
        ({
            let b = prune_op(o@, used@.to_set());
            &&& ops_v(final(out)@) == ops_v(old(out)@) + b.out
            &&& *final(removed) == *old(removed) + b.removed
        }),
    decreases o, 1nat,
{
    let ghost o0 = ops_v(out@);
    let dead = match o {
        Op::Constant { result, .. } => !contains_id(used, *result),
        Op::Dist { result, .. } => !contains_id(used, *result),
        Op::Scalar { result, .. } => !contains_id(used, *result),
        _ => false,
    };
    if dead {
        *removed = *removed + 1;
        proof {
            assert(ops_v(out@) =~= o0 + prune_op(o@, used@.to_set()).out);
        }
        return;
    }
    match o {
        Op::Cond { cond, then_ops, else_ops } => {
            proof {
                assert(decreases_to!(*o => *then_ops));
                assert(decreases_to!(*o => *else_ops));
                lemma_prune_removed(ops_v(then_ops@), used@.to_set());
                lemma_prune_removed(ops_v(else_ops@), used@.to_set());
            }
            let (t, tr) = prune_region_exec(then_ops, used);
            let (e, er) = prune_region_exec(else_ops, used);
            push_op(out, Op::Cond { cond: *cond, then_ops: t, else_ops: e });
            *removed = *removed + tr + er;
        },
        _ => {
            push_op(out, clone_op(o));
        },
    }
    proof {
        assert(ops_v(out@) =~= o0 + prune_op(o@, used@.to_set()).out);
    }
}

/// Removes constant, scalar and `augur.dist.*` ops whose result no live op
/// reads: a live op is a sample, an observation, a binding, a branch, or a
/// distribution or scalar op whose own result a live op reads. Samples,
/// observes, lets and branches are never removed: they declare a prior,
/// condition the model, bind a name or gate other ops.
pub struct DeadValueEliminationPass;

impl DeadValueEliminationPass {
    /// The pass's name.
    pub fn name(&self) -> (r: &'static str)
        ensures
            r@ == "dead-value-elimination"@,
    {
        "dead-value-elimination"
    }

    /// Runs the pass; returns the number of ops removed.
    pub fn run(&self, graph: &mut Graph) -> (changes: usize)
        requires
            count_ops(ops_v(old(graph).ops@)) <= usize::MAX,
        ensures
            ({
                let live = live_values(ops_v(old(graph).ops@));
                &&& ops_v(final(graph).ops@) == prune_region(ops_v(old(graph).ops@), live).out
                &&& changes == prune_region(ops_v(old(graph).ops@), live).removed
            }),
            final(graph).prior_order == old(graph).prior_order,
            final(graph).next_value == old(graph).next_value,
    {
        let ghost sv = ops_v(graph.ops@);
        let n = graph.op_count();
        let mut live: Vec<ValueId> = Vec::new();
        collect_roots(&graph.ops, &mut live);
        proof {
            assert(live@ =~= region_roots(sv));
        }
        let mut k: usize = 0;
        while k < n
            invariant
                sv == ops_v(graph.ops@),
                k <= n,
                n == count_ops(sv),
                live_values(sv) == live_after(sv, live@.to_set(), (n - k) as nat),
            decreases n - k,
        {
            let ghost l0 = live@.to_set();
            let mut fed: Vec<ValueId> = Vec::new();
            collect_feeds(&graph.ops, &live, &mut fed);
            proof {
                assert(fed@ =~= region_feeds(sv, l0));
            }
            let grew = add_new(&mut live, &fed);
            if grew {
                k += 1;
            } else {
                proof {
                    lemma_live_stable(sv, l0, (n - k) as nat);
                    assert(live@.to_set() =~= l0);
                    assert(live_after(sv, live@.to_set(), 0) == live@.to_set());
                }
                k = n;
            }
        }
        let (out, removed) = prune_region_exec(&graph.ops, &live);
        graph.ops = out;
        removed
    }
}

// ---------------------------------------------------------------------------
// Laws of the passes
// ---------------------------------------------------------------------------

/// A region simplified with no change is the region itself: a pass that
/// reports 0 changes left the graph as it was.
pub proof fn lemma_simplify_unchanged(ops: Seq<OpV>)
    ensures
        simplify_region(ops).changes == 0 ==> simplify_region(ops).out == ops,
    decreases ops, 0nat,
{
    if ops.len() > 0 {
        let a = simplify_region(ops.drop_last());
        lemma_simplify_unchanged(ops.drop_last());
        lemma_simplify_op_unchanged(ops.last(), a.consts);
        if simplify_region(ops).changes == 0 {
            assert(ops.drop_last() + seq![ops.last()] =~= ops);
        }
    }
}

/// An op simplified with no change is kept as it is.
pub proof fn lemma_simplify_op_unchanged(o: OpV, consts: Seq<(ValueId, Seq<char>)>)
    ensures
        simplify_op(o, consts).changes == 0 ==> simplify_op(o, consts).out == seq![o],
    decreases o, 1nat,
{
    if let OpV::Cond { then_ops, else_ops, .. } = o {
        lemma_simplify_unchanged(then_ops);
        lemma_simplify_unchanged(else_ops);
    }
}

/// A region pruned with nothing removed is the region itself.
pub proof fn lemma_prune_unchanged(ops: Seq<OpV>, used: Set<ValueId>)
    ensures
        prune_region(ops, used).removed == 0 ==> prune_region(ops, used).out == ops,
    decreases ops, 0nat,
{
    if ops.len() > 0 {
        lemma_prune_unchanged(ops.drop_last(), used);
        lemma_prune_op_unchanged(ops.last(), used);
        if prune_region(ops, used).removed == 0 {
            assert(ops.drop_last() + seq![ops.last()] =~= ops);
        }
    }
}

/// An op pruned with nothing removed is kept as it is.
pub proof fn lemma_prune_op_unchanged(o: OpV, used: Set<ValueId>)
    ensures
        prune_op(o, used).removed == 0 ==> prune_op(o, used).out == seq![o],
    decreases o, 1nat,
{
    if let OpV::Cond { then_ops, else_ops, .. } = o {
        lemma_prune_unchanged(then_ops, used);
        lemma_prune_unchanged(else_ops, used);
    }
}

/// The samples, observations, bindings and branches of a region, counted
/// in nested regions too.
pub open spec fn effect_count(ops: Seq<OpV>) -> nat
    decreases ops,
{
    if ops.len() == 0 {
        0
    } else {
        effect_count(ops.drop_last()) + op_effects(ops.last())
    }
}

/// The effects an op stands for: itself unless it only defines a value,
/// and those of its nested regions.
pub open spec fn op_effects(o: OpV) -> nat
    decreases o,
{
    match o {
        OpV::Constant { .. } => 0,
        OpV::Dist { .. } => 0,
        OpV::Scalar { .. } => 0,
        OpV::Cond { then_ops, else_ops, .. } => 1 + effect_count(then_ops) + effect_count(else_ops),
        _ => 1,
    }
}

proof fn lemma_effect_count_add(a: Seq<OpV>, b: Seq<OpV>)
    ensures
        effect_count(a + b) == effect_count(a) + effect_count(b),
    decreases b.len(),
{
    if b.len() == 0 {
        assert(a + b =~= a);
    } else {
        assert((a + b).drop_last() =~= a + b.drop_last());
        lemma_effect_count_add(a, b.drop_last());
    }
}

/// Dead-value elimination never removes a sample, an observation, a
/// binding or a branch: the pruned region has exactly as many of them.
pub proof fn lemma_prune_keeps_effects(ops: Seq<OpV>, used: Set<ValueId>)
    ensures
        effect_count(prune_region(ops, used).out) == effect_count(ops),
    decreases ops, 0nat,
{
    if ops.len() > 0 {
        let a = prune_region(ops.drop_last(), used);
        let b = prune_op(ops.last(), used);
        lemma_prune_keeps_effects(ops.drop_last(), used);
        lemma_prune_op_keeps_effects(ops.last(), used);
        lemma_effect_count_add(a.out, b.out);
    }
}

/// Pruning an op keeps its effects.
pub proof fn lemma_prune_op_keeps_effects(o: OpV, used: Set<ValueId>)
    ensures
        effect_count(prune_op(o, used).out) == op_effects(o),
    decreases o, 1nat,
{
    let r = prune_op(o, used).out;
    if is_dead(o, used) {
        assert(r =~= Seq::<OpV>::empty());
        assert(effect_count(r) == 0);
        assert(op_effects(o) == 0);
    } else {
        assert(r.drop_last() =~= Seq::<OpV>::empty());
        assert(effect_count(r.drop_last()) == 0);
        match o {
            OpV::Cond { cond, then_ops, else_ops } => {
                lemma_prune_keeps_effects(then_ops, used);
                lemma_prune_keeps_effects(else_ops, used);
                assert(effect_count(r) == op_effects(r.last()));
            },
            _ => {
                assert(r.last() == o);
                assert(effect_count(r) == op_effects(r.last()));
            },
        }
    }
}


// ---------------------------------------------------------------------------
// The live values are closed
// ---------------------------------------------------------------------------

/// The values the distribution and scalar ops of an op define, nested ones
/// included.
pub open spec fn op_defs(o: OpV) -> Seq<ValueId>
    decreases o,
{
    match o {
        OpV::Dist { result, .. } => seq![result],
        OpV::Scalar { result, .. } => seq![result],
        OpV::Cond { then_ops, else_ops, .. } => region_defs(then_ops) + region_defs(else_ops),
        _ => seq![],
    }
}

/// The values the distribution and scalar ops of a region define.
pub open spec fn region_defs(ops: Seq<OpV>) -> Seq<ValueId>
    decreases ops,
{
    if ops.len() == 0 {
        seq![]
    } else {
        region_defs(ops.drop_last()) + op_defs(ops.last())
    }
}

/// One round of growing a live set.
pub open spec fn grow(ops: Seq<OpV>, live: Set<ValueId>) -> Set<ValueId> {
    live.union(region_feeds(ops, live).to_set())
}

proof fn lemma_defs_len(ops: Seq<OpV>)
    ensures
        region_defs(ops).len() <= count_ops(ops),
    decreases ops, 0nat,
{
    if ops.len() > 0 {
        lemma_defs_len(ops.drop_last());
        lemma_op_defs_len(ops.last());
    }
}

proof fn lemma_op_defs_len(o: OpV)
    ensures
        op_defs(o).len() <= count_op(o),
    decreases o, 1nat,
{
    if let OpV::Cond { then_ops, else_ops, .. } = o {
        lemma_defs_len(then_ops);
        lemma_defs_len(else_ops);
    }
}

/// The operands fed by a live set depend only on which defined values it holds.
proof fn lemma_feeds_defs(ops: Seq<OpV>, a: Set<ValueId>, b: Set<ValueId>)
    requires
        forall|v: ValueId| region_defs(ops).contains(v) ==> (a.contains(v) == b.contains(v)),
    ensures
        region_feeds(ops, a) == region_feeds(ops, b),
    decreases ops, 0nat,
{
    if ops.len() > 0 {
        let dl = ops.drop_last();
        assert forall|v: ValueId| region_defs(dl).contains(v) implies (a.contains(v) == b.contains(v)) by {
            let k = choose|k: int| 0 <= k < region_defs(dl).len() && region_defs(dl)[k] == v;
            assert(region_defs(ops)[k] == v);
        }
        assert forall|v: ValueId| op_defs(ops.last()).contains(v) implies (a.contains(v) == b.contains(v)) by {
            let k = choose|k: int| 0 <= k < op_defs(ops.last()).len() && op_defs(ops.last())[k] == v;
            assert(region_defs(ops)[region_defs(dl).len() + k] == v);
        }
        lemma_feeds_defs(dl, a, b);
        lemma_op_feeds_defs(ops.last(), a, b);
    }
}

proof fn lemma_op_feeds_defs(o: OpV, a: Set<ValueId>, b: Set<ValueId>)
    requires
        forall|v: ValueId| op_defs(o).contains(v) ==> (a.contains(v) == b.contains(v)),
    ensures
        op_feeds(o, a) == op_feeds(o, b),
    decreases o, 1nat,
{
    match o {
        OpV::Dist { result, .. } => {
            assert(op_defs(o)[0] == result);
        },
        OpV::Scalar { result, .. } => {
            assert(op_defs(o)[0] == result);
        },
        OpV::Cond { then_ops, else_ops, .. } => {
            let t = region_defs(then_ops);
            let e = region_defs(else_ops);
            assert forall|v: ValueId| t.contains(v) implies (a.contains(v) == b.contains(v)) by {
                let k = choose|k: int| 0 <= k < t.len() && t[k] == v;
                assert(op_defs(o)[k] == v);
            }
            assert forall|v: ValueId| e.contains(v) implies (a.contains(v) == b.contains(v)) by {
                let k = choose|k: int| 0 <= k < e.len() && e[k] == v;
                assert(op_defs(o)[t.len() + k] == v);
            }
            lemma_feeds_defs(then_ops, a, b);
            lemma_feeds_defs(else_ops, a, b);
        },
        _ => {},
    }
}

/// A set holding no defined value feeds nothing.
proof fn lemma_feeds_none(ops: Seq<OpV>, a: Set<ValueId>)
    requires
        forall|v: ValueId| region_defs(ops).contains(v) ==> !a.contains(v),
    ensures
        region_feeds(ops, a).len() == 0,
    decreases ops, 0nat,
{
    if ops.len() > 0 {
        let dl = ops.drop_last();
        assert forall|v: ValueId| region_defs(dl).contains(v) implies !a.contains(v) by {
            let k = choose|k: int| 0 <= k < region_defs(dl).len() && region_defs(dl)[k] == v;
            assert(region_defs(ops)[k] == v);
        }
        assert forall|v: ValueId| op_defs(ops.last()).contains(v) implies !a.contains(v) by {
            let k = choose|k: int| 0 <= k < op_defs(ops.last()).len() && op_defs(ops.last())[k] == v;
            assert(region_defs(ops)[region_defs(dl).len() + k] == v);
        }
        lemma_feeds_none(dl, a);
        lemma_op_feeds_none(ops.last(), a);
    }
}

proof fn lemma_op_feeds_none(o: OpV, a: Set<ValueId>)
    requires
        forall|v: ValueId| op_defs(o).contains(v) ==> !a.contains(v),
    ensures
        op_feeds(o, a).len() == 0,
    decreases o, 1nat,
{
    match o {
        OpV::Dist { result, .. } => {
            assert(op_defs(o)[0] == result);
        },
        OpV::Scalar { result, .. } => {
            assert(op_defs(o)[0] == result);
        },
        OpV::Cond { then_ops, else_ops, .. } => {
            let t = region_defs(then_ops);
            let e = region_defs(else_ops);
            assert forall|v: ValueId| t.contains(v) implies !a.contains(v) by {
                let k = choose|k: int| 0 <= k < t.len() && t[k] == v;
                assert(op_defs(o)[k] == v);
            }
            assert forall|v: ValueId| e.contains(v) implies !a.contains(v) by {
                let k = choose|k: int| 0 <= k < e.len() && e[k] == v;
                assert(op_defs(o)[t.len() + k] == v);
            }
            lemma_feeds_none(then_ops, a);
            lemma_feeds_none(else_ops, a);
        },
        _ => {},
    }
}

proof fn lemma_live_after_last(ops: Seq<OpV>, l: Set<ValueId>, r: nat)
    ensures
        live_after(ops, l, r + 1) == grow(ops, live_after(ops, l, r)),
    decreases r,
{
    assert(live_after(ops, l, r + 1) == live_after(ops, grow(ops, l), r));
    if r > 0 {
        assert(live_after(ops, l, r) == live_after(ops, grow(ops, l), (r - 1) as nat));
        lemma_live_after_last(ops, grow(ops, l), (r - 1) as nat);
    }
}

proof fn lemma_live_after_grows(ops: Seq<OpV>, l: Set<ValueId>, r: nat, q: nat)
    requires
        r <= q,
    ensures
        live_after(ops, l, r).subset_of(live_after(ops, l, q)),
    decreases q - r,
{
    if r < q {
        lemma_live_after_grows(ops, l, r, (q - 1) as nat);
        lemma_live_after_last(ops, l, (q - 1) as nat);
    }
}

/// Once a round adds nothing, no later round does.
proof fn lemma_live_after_settles(ops: Seq<OpV>, l: Set<ValueId>, r: nat, q: nat)
    requires
        r <= q,
        grow(ops, live_after(ops, l, r)) == live_after(ops, l, r),
    ensures
        live_after(ops, l, q) == live_after(ops, l, r),
    decreases q - r,
{
    if r < q {
        lemma_live_after_settles(ops, l, r, (q - 1) as nat);
        lemma_live_after_last(ops, l, (q - 1) as nat);
    }
}

/// The defined values held after round `r`, when the set after `n` rounds is
/// not yet closed, number more than `r`.
proof fn lemma_live_defs_count(ops: Seq<OpV>, l: Set<ValueId>, n: nat, r: nat)
    requires
        r <= n,
        grow(ops, live_after(ops, l, n)) != live_after(ops, l, n),
    ensures
        live_after(ops, l, r).intersect(region_defs(ops).to_set()).len() >= r + 1,
    decreases r,
{
    let res = region_defs(ops).to_set();
    let lr = live_after(ops, l, r);
    assert(res.finite());
    vstd::set_lib::lemma_len_subset(lr.intersect(res), res);
    if grow(ops, lr) == lr {
        lemma_live_after_settles(ops, l, r, n);
        lemma_live_after_last(ops, l, n);
    }
    if r == 0 {
        if lr.intersect(res).len() == 0 {
            assert forall|v: ValueId| region_defs(ops).contains(v) implies !lr.contains(v) by {
                if lr.contains(v) {
                    assert(lr.intersect(res).contains(v));
                }
            }
            lemma_feeds_none(ops, lr);
            assert(region_feeds(ops, lr).to_set() =~= Set::<ValueId>::empty());
            assert(grow(ops, lr) =~= lr);
        }
    } else {
        let lp = live_after(ops, l, (r - 1) as nat);
        lemma_live_defs_count(ops, l, n, (r - 1) as nat);
        lemma_live_after_last(ops, l, (r - 1) as nat);
        assert(lr == grow(ops, lp));
        vstd::set_lib::lemma_len_subset(lp.intersect(res), res);
        if lp.intersect(res) =~= lr.intersect(res) {
            assert forall|v: ValueId| region_defs(ops).contains(v) implies (lp.contains(v) == lr.contains(v)) by {
                assert(res.contains(v));
                assert(lp.intersect(res).contains(v) == lr.intersect(res).contains(v));
            }
            lemma_feeds_defs(ops, lp, lr);
            assert(grow(ops, lr) =~= lr) by {
                assert forall|v: ValueId| grow(ops, lr).contains(v) implies lr.contains(v) by {
                    if region_feeds(ops, lr).to_set().contains(v) {
                        assert(grow(ops, lp).contains(v));
                    }
                }
            }
            assert(false);
        } else {
            let x = choose|x: ValueId| lp.intersect(res).contains(x) != lr.intersect(res).contains(x);
            assert(lp.intersect(res).subset_of(lr.intersect(res)));
            assert(lr.intersect(res).contains(x));
            assert(lp.intersect(res).subset_of(lr.intersect(res).remove(x)));
            vstd::set_lib::lemma_len_subset(lp.intersect(res), lr.intersect(res).remove(x));
        }
    }
}

/// The live values are closed: every operand of a distribution or scalar op
/// whose value is live is live too. So dead-value elimination keeps every
/// op that a kept op reads, and the live values are exactly those a chain
/// of defining ops leads from an effect to.
pub proof fn lemma_live_closed(ops: Seq<OpV>)
    ensures
        region_feeds(ops, live_values(ops)).to_set().subset_of(live_values(ops)),
{
    let l = region_roots(ops).to_set();
    let n = count_ops(ops);
    let res = region_defs(ops).to_set();
    if grow(ops, live_after(ops, l, n)) != live_after(ops, l, n) {
        lemma_live_defs_count(ops, l, n, n);
        assert(res.finite());
        vstd::set_lib::lemma_len_subset(live_after(ops, l, n).intersect(res), res);
        region_defs(ops).lemma_cardinality_of_set();
        lemma_defs_len(ops);
        assert(false);
    }
    assert forall|v: ValueId| region_feeds(ops, live_values(ops)).to_set().contains(v) implies live_values(ops).contains(v) by {
        assert(grow(ops, live_values(ops)).contains(v));
    }
}


// ---------------------------------------------------------------------------
// What dead-value elimination keeps is self-contained
// ---------------------------------------------------------------------------

/// Every value an op reads, its nested ops' included.
pub open spec fn op_reads(o: OpV) -> Seq<ValueId>
    decreases o,
{
    match o {
        OpV::Constant { .. } => seq![],
        OpV::Dist { params, .. } => params,
        OpV::Sample { dist, .. } => seq![dist],
        OpV::Scalar { op, .. } => scalar_operands(op),
        OpV::Observe { dist, value } => seq![dist, value],
        OpV::Let { value, .. } => seq![value],
        OpV::Cond { cond, then_ops, else_ops } => seq![cond] + region_reads(then_ops) + region_reads(else_ops),
    }
}

/// Every value the ops of a region read.
pub open spec fn region_reads(ops: Seq<OpV>) -> Seq<ValueId>
    decreases ops,
{
    if ops.len() == 0 {
        seq![]
    } else {
        region_reads(ops.drop_last()) + op_reads(ops.last())
    }
}

/// Every value an op defines, its nested ops' included.
pub open spec fn op_results(o: OpV) -> Seq<ValueId>
    decreases o,
{
    match o {
        OpV::Constant { result, .. } => seq![result],
        OpV::Dist { result, .. } => seq![result],
        OpV::Sample { result, .. } => seq![result],
        OpV::Scalar { result, .. } => seq![result],
        OpV::Cond { then_ops, else_ops, .. } => region_results(then_ops) + region_results(else_ops),
        _ => seq![],
    }
}

/// Every value the ops of a region define.
pub open spec fn region_results(ops: Seq<OpV>) -> Seq<ValueId>
    decreases ops,
{
    if ops.len() == 0 {
        seq![]
    } else {
        region_results(ops.drop_last()) + op_results(ops.last())
    }
}

proof fn lemma_contains_cat(a: Seq<ValueId>, b: Seq<ValueId>, v: ValueId)
    ensures
        (a + b).contains(v) <==> (a.contains(v) || b.contains(v)),
{
    if (a + b).contains(v) {
        let k = choose|k: int| 0 <= k < (a + b).len() && (a + b)[k] == v;
        if k < a.len() {
            assert(a[k] == v);
        } else {
            assert(b[k - a.len()] == v);
        }
    }
    if a.contains(v) {
        let k = choose|k: int| 0 <= k < a.len() && a[k] == v;
        assert((a + b)[k] == v);
    }
    if b.contains(v) {
        let k = choose|k: int| 0 <= k < b.len() && b[k] == v;
        assert((a + b)[a.len() + k] == v);
    }
}

proof fn lemma_reads_cat(x: Seq<OpV>, y: Seq<OpV>)
    ensures
        region_reads(x + y) == region_reads(x) + region_reads(y),
        region_results(x + y) == region_results(x) + region_results(y),
    decreases y.len(),
{
    if y.len() == 0 {
        assert(x + y =~= x);
        assert(region_reads(x) + region_reads(y) =~= region_reads(x));
        assert(region_results(x) + region_results(y) =~= region_results(x));
    } else {
        assert((x + y).drop_last() =~= x + y.drop_last());
        assert((x + y).last() == y.last());
        lemma_reads_cat(x, y.drop_last());
        assert(region_reads(x + y) =~= region_reads(x) + region_reads(y));
        assert(region_results(x + y) =~= region_results(x) + region_results(y));
    }
}

proof fn lemma_reads_one(o: OpV)
    ensures
        region_reads(seq![o]) == op_reads(o),
        region_results(seq![o]) == op_results(o),
{
    assert(seq![o].drop_last() =~= Seq::<OpV>::empty());
    assert(seq![o].last() == o);
    assert(region_reads(Seq::<OpV>::empty()) == Seq::<ValueId>::empty());
    assert(region_results(Seq::<OpV>::empty()) == Seq::<ValueId>::empty());
    assert(region_reads(seq![o]) == region_reads(seq![o].drop_last()) + op_reads(seq![o].last()));
    assert(region_results(seq![o]) == region_results(seq![o].drop_last()) + op_results(seq![o].last()));
    assert(region_reads(seq![o]) =~= op_reads(o));
    assert(region_results(seq![o]) =~= op_results(o));
}

/// A value a pruned region reads is read by an effect of the region or fed
/// by the live set.
proof fn lemma_pruned_reads(ops: Seq<OpV>, live: Set<ValueId>, v: ValueId)
    requires
        region_reads(prune_region(ops, live).out).contains(v),
    ensures
        region_roots(ops).contains(v) || region_feeds(ops, live).contains(v),
    decreases ops, 0nat,
{
    if ops.len() > 0 {
        let a = prune_region(ops.drop_last(), live);
        let b = prune_op(ops.last(), live);
        lemma_reads_cat(a.out, b.out);
        lemma_contains_cat(region_reads(a.out), region_reads(b.out), v);
        lemma_contains_cat(region_roots(ops.drop_last()), op_roots(ops.last()), v);
        lemma_contains_cat(region_feeds(ops.drop_last(), live), op_feeds(ops.last(), live), v);
        if region_reads(a.out).contains(v) {
            lemma_pruned_reads(ops.drop_last(), live, v);
        } else {
            lemma_pruned_op_reads(ops.last(), live, v);
        }
    }
}

proof fn lemma_pruned_op_reads(o: OpV, live: Set<ValueId>, v: ValueId)
    requires
        region_reads(prune_op(o, live).out).contains(v),
    ensures
        op_roots(o).contains(v) || op_feeds(o, live).contains(v),
    decreases o, 1nat,
{
    let r = prune_op(o, live).out;
    if is_dead(o, live) {
        assert(r.len() == 0);
        assert(region_reads(r).len() == 0);
    } else {
        match o {
            OpV::Cond { cond, then_ops, else_ops } => {
                let t = prune_region(then_ops, live);
                let e = prune_region(else_ops, live);
                let c = OpV::Cond { cond, then_ops: t.out, else_ops: e.out };
                lemma_reads_one(c);
                lemma_contains_cat(seq![cond] + region_reads(t.out), region_reads(e.out), v);
                lemma_contains_cat(seq![cond], region_reads(t.out), v);
                lemma_contains_cat(seq![cond] + region_roots(then_ops), region_roots(else_ops), v);
                lemma_contains_cat(seq![cond], region_roots(then_ops), v);
                lemma_contains_cat(region_feeds(then_ops, live), region_feeds(else_ops, live), v);
                if seq![cond].contains(v) {
                } else if region_reads(t.out).contains(v) {
                    lemma_pruned_reads(then_ops, live, v);
                } else {
                    lemma_pruned_reads(else_ops, live, v);
                }
            },
            _ => {
                lemma_reads_one(o);
            },
        }
    }
}

/// A live value that a region defines is still defined after pruning.
proof fn lemma_pruned_results(ops: Seq<OpV>, live: Set<ValueId>, v: ValueId)
    requires
        region_results(ops).contains(v),
        live.contains(v),
    ensures
        region_results(prune_region(ops, live).out).contains(v),
    decreases ops, 0nat,
{
    if ops.len() > 0 {
        let a = prune_region(ops.drop_last(), live);
        let b = prune_op(ops.last(), live);
        lemma_reads_cat(a.out, b.out);
        lemma_contains_cat(region_results(a.out), region_results(b.out), v);
        lemma_contains_cat(region_results(ops.drop_last()), op_results(ops.last()), v);
        if region_results(ops.drop_last()).contains(v) {
            lemma_pruned_results(ops.drop_last(), live, v);
        } else {
            lemma_pruned_op_results(ops.last(), live, v);
        }
    }
}

proof fn lemma_pruned_op_results(o: OpV, live: Set<ValueId>, v: ValueId)
    requires
        op_results(o).contains(v),
        live.contains(v),
    ensures
        region_results(prune_op(o, live).out).contains(v),
    decreases o, 1nat,
{
    match o {
        OpV::Cond { cond, then_ops, else_ops } => {
            let t = prune_region(then_ops, live);
            let e = prune_region(else_ops, live);
            let c = OpV::Cond { cond, then_ops: t.out, else_ops: e.out };
            lemma_reads_one(c);
            lemma_contains_cat(region_results(then_ops), region_results(else_ops), v);
            lemma_contains_cat(region_results(t.out), region_results(e.out), v);
            if region_results(then_ops).contains(v) {
                lemma_pruned_results(then_ops, live, v);
            } else {
                lemma_pruned_results(else_ops, live, v);
            }
        },
        _ => {
            assert(op_results(o)[0] == v);
            assert(!is_dead(o, live));
            lemma_reads_one(o);
            assert(op_results(o)[0] == v);
        },
    }
}

/// What dead-value elimination keeps is self-contained: every value a kept
/// op reads (a branch's condition, an observation's distribution, an
/// operand of a kept scalar op, ...) that the graph defined is still
/// defined by a kept op.
pub proof fn lemma_pruned_reads_defined(ops: Seq<OpV>, v: ValueId)
    requires
        region_reads(prune_region(ops, live_values(ops)).out).contains(v),
        region_results(ops).contains(v),
    ensures
        region_results(prune_region(ops, live_values(ops)).out).contains(v),
{
    let live = live_values(ops);
    lemma_pruned_reads(ops, live, v);
    lemma_live_closed(ops);
    lemma_live_after_grows(ops, region_roots(ops).to_set(), 0, count_ops(ops));
    if region_roots(ops).contains(v) {
        assert(region_roots(ops).to_set().contains(v));
    } else {
        assert(region_feeds(ops, live).to_set().contains(v));
    }
    assert(live.contains(v));
    lemma_pruned_results(ops, live, v);
}

} // verus!
