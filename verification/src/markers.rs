//! Where the structural markers of the hand-off contract stand in emitted
//! TPTIR: `module {`, `func.func @` and `^entry:` each once, in the header,
//! as long as the entry name, the hardware name, the prior names, the
//! binding names and the constant texts are made of plain characters.
use vstd::prelude::*;
use crate::codegen::{operand, operand_text, f64_types, scalar_mnemonic, op_text, region_text, quoted_list, tptir_text};
use crate::dialect::{OpV, ScalarOp, DistFamily, family_op_name, scalar_operands};
use crate::lexer::{is_alpha, is_digit};
use crate::tpt::{count_from, occurrences};
use crate::util::{decimal, digit_char};

verus! {

/// Letters, digits, `_`, `.` and `-`: the characters of names and number texts.
pub open spec fn plain_c(c: char) -> bool {
    is_alpha(c) || is_digit(c) || c == '_' || c == '.' || c == '-'
}

/// A text made of plain characters.
pub open spec fn plain_text(s: Seq<char>) -> bool {
    forall|k: int| 0 <= k < s.len() ==> plain_c(#[trigger] s[k])
}

/// The names and constant texts of an op, those nested in its branches
/// included, are plain.
pub open spec fn op_plain(o: OpV) -> bool
    decreases o,
{
    match o {
        OpV::Constant { value, .. } => plain_text(value),
        OpV::Sample { name, .. } => plain_text(name),
        OpV::Let { name, .. } => plain_text(name),
        OpV::Cond { then_ops, else_ops, .. } => {
            &&& forall|k: int| 0 <= k < then_ops.len() ==> op_plain(#[trigger] then_ops[k])
            &&& forall|k: int| 0 <= k < else_ops.len() ==> op_plain(#[trigger] else_ops[k])
        },
        _ => true,
    }
}

/// No `e {` (the tail of `module {`).
pub open spec fn no_win(s: Seq<char>) -> bool {
    forall|i: int| 0 <= i && i + 2 < s.len() ==> !(#[trigger] s[i] == 'e' && s[i + 1] == ' ' && s[i + 2] == '{')
}

/// No `@` and no `^`, and no `e {` (the tail of `module {`).
pub open spec fn good(s: Seq<char>) -> bool {
    &&& forall|k: int| 0 <= k < s.len() ==> #[trigger] s[k] != '@' && s[k] != '^'
    &&& no_win(s)
}

/// A text that cannot complete an `e {` begun before it.
pub open spec fn right_ok(s: Seq<char>) -> bool {
    s.len() == 0 || (s[0] != '{' && !(s.len() >= 2 && s[0] == ' ' && s[1] == '{'))
}

/// No `{`, `@` or `^`.
pub open spec fn brace_free(s: Seq<char>) -> bool {
    forall|k: int| 0 <= k < s.len() ==> #[trigger] s[k] != '{' && s[k] != '@' && s[k] != '^'
}

pub(crate) proof fn lemma_brace_free(s: Seq<char>)
    requires
        brace_free(s),
    ensures
        good(s),
        right_ok(s),
{
    assert forall|i: int| 0 <= i && i + 2 < s.len() implies !(#[trigger] s[i] == 'e' && s[i + 1] == ' ' && s[i + 2] == '{') by {
        assert(s[i + 2] != '{');
    }
}

pub(crate) proof fn lemma_plain(s: Seq<char>)
    requires
        plain_text(s),
    ensures
        good(s),
        right_ok(s),
        brace_free(s),
{
    assert forall|k: int| 0 <= k < s.len() implies #[trigger] s[k] != '{' && s[k] != '@' && s[k] != '^' by {
        assert(plain_c(s[k]));
    }
    lemma_brace_free(s);
}

pub(crate) proof fn lemma_cat(a: Seq<char>, b: Seq<char>)
    requires
        good(a),
        good(b),
        right_ok(b),
    ensures
        good(a + b),
{
    let t = a + b;
    assert forall|k: int| 0 <= k < t.len() implies #[trigger] t[k] != '@' && t[k] != '^' by {
        if k < a.len() {
            assert(t[k] == a[k]);
        } else {
            assert(t[k] == b[k - a.len()]);
        }
    }
    assert forall|i: int| 0 <= i && i + 2 < t.len() implies !(#[trigger] t[i] == 'e' && t[i + 1] == ' ' && t[i + 2] == '{') by {
        if i + 2 < a.len() {
            assert(t[i] == a[i] && t[i + 1] == a[i + 1] && t[i + 2] == a[i + 2]);
        } else if i >= a.len() {
            assert(t[i] == b[i - a.len()] && t[i + 1] == b[i + 1 - a.len()] && t[i + 2] == b[i + 2 - a.len()]);
        } else if i + 1 == a.len() {
            assert(t[i + 1] == b[0] && t[i + 2] == b[1]);
        } else {
            assert(t[i + 2] == b[0]);
        }
    }
}

pub(crate) proof fn lemma_cat_win(a: Seq<char>, b: Seq<char>)
    requires
        no_win(a),
        no_win(b),
        right_ok(b),
    ensures
        no_win(a + b),
{
    let t = a + b;
    assert forall|i: int| 0 <= i && i + 2 < t.len() implies !(#[trigger] t[i] == 'e' && t[i + 1] == ' ' && t[i + 2] == '{') by {
        if i + 2 < a.len() {
            assert(t[i] == a[i] && t[i + 1] == a[i + 1] && t[i + 2] == a[i + 2]);
        } else if i >= a.len() {
            assert(t[i] == b[i - a.len()] && t[i + 1] == b[i + 1 - a.len()] && t[i + 2] == b[i + 2 - a.len()]);
        } else if i + 1 == a.len() {
            assert(t[i + 1] == b[0] && t[i + 2] == b[1]);
        } else {
            assert(t[i + 2] == b[0]);
        }
    }
}

pub(crate) proof fn lemma_cat_free(a: Seq<char>, b: Seq<char>)
    requires
        brace_free(a),
        brace_free(b),
    ensures
        brace_free(a + b),
{
    let t = a + b;
    assert forall|k: int| 0 <= k < t.len() implies #[trigger] t[k] != '{' && t[k] != '@' && t[k] != '^' by {
        if k < a.len() {
            assert(t[k] == a[k]);
        } else {
            assert(t[k] == b[k - a.len()]);
        }
    }
}

pub(crate) proof fn lemma_decimal_free(n: nat)
    ensures
        brace_free(decimal(n)),
        decimal(n).len() >= 1,
    decreases n,
{
    if n >= 10 {
        lemma_decimal_free(n / 10);
        let d = decimal(n / 10);
        assert forall|k: int| 0 <= k < decimal(n).len() implies #[trigger] decimal(n)[k] != '{' && decimal(n)[k] != '@' && decimal(n)[k] != '^' by {
            if k < d.len() {
                assert(decimal(n)[k] == d[k]);
            }
        }
    }
}

pub(crate) proof fn lemma_operand_free(id: u32)
    ensures
        brace_free(operand(id)),
        operand(id).len() >= 1,
        operand(id)[0] == '%',
{
    reveal_strlit("%");
    lemma_decimal_free(id as nat);
    lemma_cat_free("%"@, decimal(id as nat));
}

pub(crate) proof fn lemma_operand_text_free(ids: Seq<u32>)
    ensures
        brace_free(operand_text(ids)),
    decreases ids.len(),
{
    reveal_strlit(", ");
    if ids.len() == 1 {
        lemma_operand_free(ids[0]);
    } else if ids.len() > 1 {
        lemma_operand_text_free(ids.drop_last());
        lemma_operand_free(ids.last());
        lemma_cat_free(operand_text(ids.drop_last()), ", "@);
        lemma_cat_free(operand_text(ids.drop_last()) + ", "@, operand(ids.last()));
    }
}

pub(crate) proof fn lemma_types_free(n: nat)
    ensures
        brace_free(f64_types(n)),
    decreases n,
{
    reveal_strlit(", ");
    reveal_strlit("f64");
    if n > 1 {
        lemma_types_free((n - 1) as nat);
        lemma_cat_free(f64_types((n - 1) as nat), ", "@);
        lemma_cat_free(f64_types((n - 1) as nat) + ", "@, "f64"@);
    }
}

pub(crate) proof fn lemma_family_free(f: DistFamily)
    ensures
        brace_free(family_op_name(f)),
{
    reveal_strlit("normal");
    reveal_strlit("half_normal");
    reveal_strlit("beta");
    reveal_strlit("gamma");
    reveal_strlit("uniform");
    reveal_strlit("exponential");
    reveal_strlit("binomial");
    reveal_strlit("poisson");
    reveal_strlit("bernoulli");
}

pub(crate) proof fn lemma_mnemonic_free(op: ScalarOp)
    ensures
        brace_free(scalar_mnemonic(op)),
{
    reveal_strlit("augur.addf");
    reveal_strlit("augur.subf");
    reveal_strlit("augur.mulf");
    reveal_strlit("augur.divf");
    reveal_strlit("augur.negf");
    reveal_strlit("augur.cmpf_gt");
    reveal_strlit("augur.cmpf_lt");
    reveal_strlit("augur.cmpf_ge");
    reveal_strlit("augur.cmpf_le");
    reveal_strlit("augur.cmpf_eq");
    reveal_strlit("augur.cmpf_ne");
}

/// Spaces only, at least two of them.
pub open spec fn indent(pad: Seq<char>) -> bool {
    pad.len() >= 2 && forall|k: int| 0 <= k < pad.len() ==> #[trigger] pad[k] == ' '
}

pub(crate) proof fn lemma_indent(pad: Seq<char>)
    requires
        indent(pad),
    ensures
        brace_free(pad),
        indent(pad + "  "@),
{
    reveal_strlit("  ");
    let q = pad + "  "@;
    assert forall|k: int| 0 <= k < q.len() implies #[trigger] q[k] == ' ' by {
        if k >= pad.len() {
            assert(q[k] == "  "@[k - pad.len()]);
        }
    }
}

/// A text that starts with two spaces, when it is not empty.
pub open spec fn starts_indented(s: Seq<char>) -> bool {
    s.len() == 0 || (s.len() >= 2 && s[0] == ' ' && s[1] == ' ')
}


pub(crate) proof fn lemma_op_good(o: OpV, pad: Seq<char>)
    requires
        indent(pad),
        op_plain(o),
    ensures
        good(op_text(o, pad)),
        starts_indented(op_text(o, pad)),
        op_text(o, pad).len() >= 2,
    decreases o, 1nat,
{
    lemma_indent(pad);
    lemma_brace_free(pad);
    let t = op_text(o, pad);
    match o {
        OpV::Constant { result, value } => {
            let l1 = " = \"augur.constant\"() {value = "@;
            let l2 = " : f64} : () -> f64\n"@;
            reveal_strlit(" = \"augur.constant\"() {value = ");
            reveal_strlit(" : f64} : () -> f64\n");
            assert(good(l1) && right_ok(l1));
            assert(brace_free(l2));
            lemma_brace_free(l2);
            lemma_operand_free(result);
            lemma_brace_free(operand(result));
            lemma_plain(value);
            lemma_cat(pad, operand(result));
            lemma_cat(pad + operand(result), l1);
            lemma_cat(pad + operand(result) + l1, value);
            lemma_cat(pad + operand(result) + l1 + value, l2);
        },
        OpV::Dist { result, family, params } => {
            let l1 = " = \"augur.dist."@;
            let l2 = "\"("@;
            let l3 = ") : ("@;
            let l4 = ") -> !augur.dist\n"@;
            reveal_strlit(" = \"augur.dist.");
            reveal_strlit("\"(");
            reveal_strlit(") : (");
            reveal_strlit(") -> !augur.dist\n");
            assert(brace_free(l1) && brace_free(l2) && brace_free(l3) && brace_free(l4));
            lemma_operand_free(result);
            lemma_family_free(family);
            lemma_operand_text_free(params);
            lemma_types_free(params.len());
            lemma_cat_free(pad, operand(result));
            lemma_cat_free(pad + operand(result), l1);
            lemma_cat_free(pad + operand(result) + l1, family_op_name(family));
            lemma_cat_free(pad + operand(result) + l1 + family_op_name(family), l2);
            lemma_cat_free(pad + operand(result) + l1 + family_op_name(family) + l2, operand_text(params));
            lemma_cat_free(pad + operand(result) + l1 + family_op_name(family) + l2 + operand_text(params), l3);
            lemma_cat_free(pad + operand(result) + l1 + family_op_name(family) + l2 + operand_text(params) + l3,
                f64_types(params.len()));
            lemma_cat_free(pad + operand(result) + l1 + family_op_name(family) + l2 + operand_text(params) + l3
                + f64_types(params.len()), l4);
            lemma_brace_free(t);
        },
        OpV::Sample { result, dist, name } => {
            let l1 = " = \"augur.sample\"("@;
            let l2 = ") {name = \""@;
            let l3 = "\"} : (!augur.dist) -> f64\n"@;
            reveal_strlit(" = \"augur.sample\"(");
            reveal_strlit(") {name = \"");
            reveal_strlit("\"} : (!augur.dist) -> f64\n");
            assert(brace_free(l1) && brace_free(l3));
            assert(good(l2) && right_ok(l2));
            lemma_brace_free(l1);
            lemma_brace_free(l3);
            lemma_operand_free(result);
            lemma_brace_free(operand(result));
            lemma_operand_free(dist);
            lemma_brace_free(operand(dist));
            lemma_plain(name);
            lemma_cat(pad, operand(result));
            lemma_cat(pad + operand(result), l1);
            lemma_cat(pad + operand(result) + l1, operand(dist));
            lemma_cat(pad + operand(result) + l1 + operand(dist), l2);
            lemma_cat(pad + operand(result) + l1 + operand(dist) + l2, name);
            lemma_cat(pad + operand(result) + l1 + operand(dist) + l2 + name, l3);
        },
        OpV::Scalar { result, op } => {
            let l1 = " = \""@;
            let l2 = "\"("@;
            let l3 = ") : ("@;
            let l4 = ") -> f64\n"@;
            let xs = scalar_operands(op);
            reveal_strlit(" = \"");
            reveal_strlit("\"(");
            reveal_strlit(") : (");
            reveal_strlit(") -> f64\n");
            assert(brace_free(l1) && brace_free(l2) && brace_free(l3) && brace_free(l4));
            lemma_operand_free(result);
            lemma_mnemonic_free(op);
            lemma_operand_text_free(xs);
            lemma_types_free(xs.len());
            lemma_cat_free(pad, operand(result));
            lemma_cat_free(pad + operand(result), l1);
            lemma_cat_free(pad + operand(result) + l1, scalar_mnemonic(op));
            lemma_cat_free(pad + operand(result) + l1 + scalar_mnemonic(op), l2);
            lemma_cat_free(pad + operand(result) + l1 + scalar_mnemonic(op) + l2, operand_text(xs));
            lemma_cat_free(pad + operand(result) + l1 + scalar_mnemonic(op) + l2 + operand_text(xs), l3);
            lemma_cat_free(pad + operand(result) + l1 + scalar_mnemonic(op) + l2 + operand_text(xs) + l3,
                f64_types(xs.len()));
            lemma_cat_free(pad + operand(result) + l1 + scalar_mnemonic(op) + l2 + operand_text(xs) + l3
                + f64_types(xs.len()), l4);
            lemma_brace_free(t);
        },
        OpV::Observe { dist, value } => {
            let l1 = "\"augur.observe\"("@;
            let l2 = ", "@;
            let l3 = ") : (!augur.dist, f64) -> ()\n"@;
            reveal_strlit("\"augur.observe\"(");
            reveal_strlit(", ");
            reveal_strlit(") : (!augur.dist, f64) -> ()\n");
            assert(brace_free(l1) && brace_free(l2) && brace_free(l3));
            lemma_operand_free(dist);
            lemma_operand_free(value);
            lemma_cat_free(pad, l1);
            lemma_cat_free(pad + l1, operand(dist));
            lemma_cat_free(pad + l1 + operand(dist), l2);
            lemma_cat_free(pad + l1 + operand(dist) + l2, operand(value));
            lemma_cat_free(pad + l1 + operand(dist) + l2 + operand(value), l3);
            lemma_brace_free(t);
        },
        OpV::Let { name, value } => {
            let l1 = "\"augur.let\"("@;
            let l2 = ") {name = \""@;
            let l3 = "\"} : (f64) -> ()\n"@;
            reveal_strlit("\"augur.let\"(");
            reveal_strlit(") {name = \"");
            reveal_strlit("\"} : (f64) -> ()\n");
            assert(brace_free(l1) && brace_free(l3));
            assert(good(l2) && right_ok(l2));
            lemma_brace_free(l1);
            lemma_brace_free(l3);
            lemma_operand_free(value);
            lemma_brace_free(operand(value));
            lemma_plain(name);
            lemma_cat(pad, l1);
            lemma_cat(pad + l1, operand(value));
            lemma_cat(pad + l1 + operand(value), l2);
            lemma_cat(pad + l1 + operand(value) + l2, name);
            lemma_cat(pad + l1 + operand(value) + l2 + name, l3);
        },
        OpV::Cond { cond, then_ops, else_ops } => {
            let p2 = pad + "  "@;
            let l1 = "\"augur.cond\"("@;
            let l2 = ") ({\n"@;
            let l3 = "}, {\n"@;
            let l4 = "}) : (f64) -> ()\n"@;
            reveal_strlit("\"augur.cond\"(");
            reveal_strlit(") ({\n");
            reveal_strlit("}, {\n");
            reveal_strlit("}) : (f64) -> ()\n");
            assert(brace_free(l1) && brace_free(l4));
            assert(good(l2) && right_ok(l2));
            assert(good(l3) && right_ok(l3));
            lemma_brace_free(l1);
            lemma_brace_free(l4);
            lemma_operand_free(cond);
            lemma_brace_free(operand(cond));
            lemma_region_good(then_ops, p2);
            lemma_region_good(else_ops, p2);
            let rt = region_text(then_ops, p2);
            let re = region_text(else_ops, p2);
            lemma_cat(pad, l1);
            lemma_cat(pad + l1, operand(cond));
            lemma_cat(pad + l1 + operand(cond), l2);
            lemma_cat(pad + l1 + operand(cond) + l2, rt);
            lemma_cat(pad + l1 + operand(cond) + l2 + rt, pad);
            lemma_cat(pad + l1 + operand(cond) + l2 + rt + pad, l3);
            lemma_cat(pad + l1 + operand(cond) + l2 + rt + pad + l3, re);
            lemma_cat(pad + l1 + operand(cond) + l2 + rt + pad + l3 + re, pad);
            lemma_cat(pad + l1 + operand(cond) + l2 + rt + pad + l3 + re + pad, l4);
        },
    }
}

pub(crate) proof fn lemma_region_good(ops: Seq<OpV>, pad: Seq<char>)
    requires
        indent(pad),
        forall|k: int| 0 <= k < ops.len() ==> op_plain(#[trigger] ops[k]),
    ensures
        good(region_text(ops, pad)),
        starts_indented(region_text(ops, pad)),
        right_ok(region_text(ops, pad)),
    decreases ops, 0nat,
{
    if ops.len() > 0 {
        let dl = ops.drop_last();
        assert forall|k: int| 0 <= k < dl.len() implies op_plain(#[trigger] dl[k]) by {
            assert(dl[k] == ops[k]);
        }
        assert(op_plain(ops[ops.len() - 1]));
        lemma_region_good(dl, pad);
        lemma_op_good(ops.last(), pad);
        let a = region_text(dl, pad);
        let b = op_text(ops.last(), pad);
        lemma_cat(a, b);
        let t = a + b;
        if a.len() == 0 {
            assert(t[0] == b[0] && t[1] == b[1]);
        } else {
            assert(t[0] == a[0] && t[1] == a[1]);
        }
    }
}


pub(crate) proof fn lemma_quoted_free(names: Seq<Seq<char>>)
    requires
        forall|k: int| 0 <= k < names.len() ==> plain_text(#[trigger] names[k]),
    ensures
        brace_free(quoted_list(names)),
    decreases names.len(),
{
    reveal_strlit("\"");
    reveal_strlit(", ");
    if names.len() == 1 {
        assert(plain_text(names[0]));
        lemma_plain(names[0]);
        lemma_cat_free("\""@, names[0]);
        lemma_cat_free("\""@ + names[0], "\""@);
    } else if names.len() > 1 {
        let dl = names.drop_last();
        assert forall|k: int| 0 <= k < dl.len() implies plain_text(#[trigger] dl[k]) by {
            assert(dl[k] == names[k]);
        }
        assert(plain_text(names[names.len() - 1]));
        lemma_quoted_free(dl);
        lemma_plain(names.last());
        let q = quoted_list(dl);
        lemma_cat_free(q, ", "@);
        lemma_cat_free(q + ", "@, "\""@);
        lemma_cat_free(q + ", "@ + "\""@, names.last());
        lemma_cat_free(q + ", "@ + "\""@ + names.last(), "\""@);
    }
}

/// How many times `p` stands in `t` from `i` on, when a window of it stands
/// nowhere in `t` but in its place at `k`.
pub(crate) proof fn lemma_count_from_one(t: Seq<char>, p: Seq<char>, k: int, j: int, w: int, i: int)
    requires
        1 <= w,
        0 <= j,
        j + w <= p.len(),
        0 <= k,
        k + p.len() <= t.len(),
        t.subrange(k, k + p.len()) == p,
        forall|x: int| 0 <= x && x + w <= t.len() && #[trigger] t.subrange(x, x + w) == p.subrange(j, j + w) ==> x == k + j,
        0 <= i,
    ensures
        count_from(t, p, i) == (if i <= k { 1nat } else { 0nat }),
    decreases t.len() - i,
{
    if i + p.len() <= t.len() {
        lemma_count_from_one(t, p, k, j, w, i + 1);
        if t.subrange(i, i + p.len()) == p {
            assert(t.subrange(i + j, i + j + w) =~= p.subrange(j, j + w)) by {
                assert forall|q: int| 0 <= q < w implies #[trigger] t.subrange(i + j, i + j + w)[q] == p.subrange(j, j + w)[q] by {
                    assert(t.subrange(i, i + p.len())[j + q] == p[j + q]);
                }
            }
        }
    }
}

/// A text stands once in `t` when a window of it stands nowhere else.
pub(crate) proof fn lemma_count_one(t: Seq<char>, p: Seq<char>, k: int, j: int, w: int)
    requires
        1 <= w,
        0 <= j,
        j + w <= p.len(),
        0 <= k,
        k + p.len() <= t.len(),
        t.subrange(k, k + p.len()) == p,
        forall|x: int| 0 <= x && x + w <= t.len() && #[trigger] t.subrange(x, x + w) == p.subrange(j, j + w) ==> x == k + j,
    ensures
        occurrences(t, p) == 1,
{
    lemma_count_from_one(t, p, k, j, w, 0);
}

} // verus!
