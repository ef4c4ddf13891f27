//! Number literals: their canonical rendering and their exact values.
//!
//! A literal is kept as the text it was written with: decimal digits with at
//! most one `.`, and at least one digit. Its value is the exact decimal
//! number that the text denotes.
use vstd::prelude::*;
use crate::util::{push_char, chars_of};

verus! {

/// Position of the decimal point, or the length when there is none.
pub open spec fn dot_pos(l: Seq<char>) -> int
    decreases l.len(),
{
    if l.len() == 0 {
        0
    } else if l[0] == '.' {
        0
    } else {
        1 + dot_pos(l.drop_first())
    }
}

/// The digits before the decimal point.
pub open spec fn int_part(l: Seq<char>) -> Seq<char> {
    l.take(dot_pos(l))
}

/// The digits after the decimal point (empty when there is no point).
pub open spec fn frac_part(l: Seq<char>) -> Seq<char> {
    if dot_pos(l) < l.len() {
        l.skip(dot_pos(l) + 1)
    } else {
        seq![]
    }
}

/// Drops leading `0`s.
pub open spec fn strip_leading_zeros(s: Seq<char>) -> Seq<char>
    decreases s.len(),
{
    if s.len() > 0 && s[0] == '0' {
        strip_leading_zeros(s.drop_first())
    } else {
        s
    }
}

/// Drops trailing `0`s.
pub open spec fn strip_trailing_zeros(s: Seq<char>) -> Seq<char>
    decreases s.len(),
{
    if s.len() > 0 && s.last() == '0' {
        strip_trailing_zeros(s.drop_last())
    } else {
        s
    }
}

/// The integer digits of a literal without leading zeros, `0` when none are left.
pub open spec fn int_digits(l: Seq<char>) -> Seq<char> {
    let i = strip_leading_zeros(int_part(l));
    if i.len() == 0 { seq!['0'] } else { i }
}

/// Canonical rendering of a literal's value: the integer digits without
/// leading zeros, then the fraction digits without trailing zeros; an
/// integral value below 10^15 is written with `.0`, as in `2.0`.
pub open spec fn num_text(l: Seq<char>) -> Seq<char> {
    canonical_text(l, true)
}

/// The shortest decimal rendering of a literal's value: the integer digits
/// without leading zeros, then the fraction digits without trailing zeros;
/// an integral value is written without a point, as in `2`.
pub open spec fn value_text(l: Seq<char>) -> Seq<char> {
    canonical_text(l, false)
}

/// Canonical decimal rendering; `point` asks for `.0` after an integral
/// value below 10^15.
pub open spec fn canonical_text(l: Seq<char>, point: bool) -> Seq<char> {
    let i = int_digits(l);
    let f = strip_trailing_zeros(frac_part(l));
    if f.len() == 0 {
        if point && i.len() <= 15 { i + "."@ + seq!['0'] } else { i }
    } else {
        i + "."@ + f
    }
}

pub proof fn lemma_dot_pos(l: Seq<char>)
    ensures
        0 <= dot_pos(l) <= l.len(),
        dot_pos(l) < l.len() ==> l[dot_pos(l)] == '.',
        forall|k: int| 0 <= k < dot_pos(l) ==> l[k] != '.',
    decreases l.len(),
{
    if l.len() > 0 && l[0] != '.' {
        lemma_dot_pos(l.drop_first());
        assert forall|k: int| 0 <= k < dot_pos(l) implies l[k] != '.' by {
            if k > 0 {
                assert(l[k] == l.drop_first()[k - 1]);
            }
        }
    }
}

fn exec_dot_pos(v: &Vec<char>) -> (p: usize)
    ensures
        p == dot_pos(v@),
{
    proof {
        lemma_dot_pos(v@);
    }
    let mut k: usize = 0;
    while k < v.len() && v[k] != '.'
        invariant
            k <= v.len(),
            k <= dot_pos(v@),
            forall|m: int| 0 <= m < dot_pos(v@) ==> v@[m] != '.',
            dot_pos(v@) < v@.len() ==> v@[dot_pos(v@)] == '.',
            0 <= dot_pos(v@) <= v@.len(),
        decreases v.len() - k,
    {
        k += 1;
    }
    k
}

proof fn lemma_strip_leading(s: Seq<char>, k: int)
    requires
        0 <= k <= s.len(),
        forall|m: int| 0 <= m < k ==> s[m] == '0',
    ensures
        strip_leading_zeros(s) == strip_leading_zeros(s.skip(k)),
    decreases k,
{
    if k > 0 {
        assert(s.skip(1) == s.drop_first());
        lemma_strip_leading(s.drop_first(), k - 1);
        assert(s.drop_first().skip(k - 1) == s.skip(k));
    } else {
        assert(s.skip(0) == s);
    }
}

proof fn lemma_strip_trailing(s: Seq<char>, k: int)
    requires
        0 <= k <= s.len(),
        forall|m: int| k <= m < s.len() ==> s[m] == '0',
    ensures
        strip_trailing_zeros(s) == strip_trailing_zeros(s.take(k)),
    decreases s.len() - k,
{
    if k < s.len() {
        lemma_strip_trailing(s.drop_last(), k);
        assert(s.drop_last().take(k) == s.take(k));
    } else {
        assert(s.take(k) == s);
    }
}

/// Appends `v[from..to]` to `out`.
fn push_range(out: &mut String, v: &Vec<char>, from: usize, to: usize)
    requires
        from <= to <= v.len(),
    ensures
        final(out)@ == old(out)@ + v@.subrange(from as int, to as int),
{
    let mut k = from;
    while k < to
        invariant
            from <= k <= to <= v.len(),
            out@ == old(out)@ + v@.subrange(from as int, k as int),
        decreases to - k,
    {
        push_char(out, v[k]);
        assert(v@.subrange(from as int, k + 1) == v@.subrange(from as int, k as int).push(v@[k as int]));
        k += 1;
    }
}

/// Appends the canonical rendering of a literal (see [`num_text`]).
pub fn push_num_text(out: &mut String, lit: &String)
    ensures
        final(out)@ == old(out)@ + num_text(lit@),
{
    push_canonical(out, lit, true);
}

/// The shortest decimal rendering of a literal's value (see [`value_text`]).
pub fn literal_value_text(lit: &String) -> (r: String)
    ensures
        r@ == value_text(lit@),
{
    let mut out = String::new();
    push_canonical(&mut out, lit, false);
    proof {
        assert(out@ =~= value_text(lit@));
    }
    out
}

#[verifier::rlimit(50)]
#[verifier::spinoff_prover]
fn push_canonical(out: &mut String, lit: &String, point: bool)
    ensures
        final(out)@ == old(out)@ + canonical_text(lit@, point),
{
    let v = chars_of(lit.as_str());
    let ghost l = v@;
    let d = exec_dot_pos(&v);
    proof {
        lemma_dot_pos(l);
    }
    // Integer digits: skip leading zeros.
    let mut a: usize = 0;
    while a < d && v[a] == '0'
        invariant
            a <= d <= v.len(),
            d == dot_pos(l),
            l == v@,
            forall|m: int| 0 <= m < a ==> l[m] == '0',
        decreases d - a,
    {
        a += 1;
    }
    proof {
        let ip = int_part(l);
        assert forall|m: int| 0 <= m < a implies ip[m] == '0' by {}
        lemma_strip_leading(ip, a as int);
        if a < d {
            assert(ip.skip(a as int)[0] != '0');
        }
        assert(ip.skip(a as int) == l.subrange(a as int, d as int));
        if a == d {
            assert(ip.skip(a as int).len() == 0);
        }
    }
    let int_len = d - a;
    if a == d {
        push_char(out, '0');
    } else {
        push_range(out, &v, a, d);
    }
    // Fraction digits: drop trailing zeros.
    let fs: usize = if d < v.len() { d + 1 } else { v.len() };
    let mut b: usize = v.len();
    while b > fs && v[b - 1] == '0'
        invariant
            fs <= b <= v.len(),
            l == v@,
            forall|m: int| b <= m < l.len() ==> l[m] == '0',
        decreases b,
    {
        b -= 1;
    }
    proof {
        let fp = frac_part(l);
        assert(fp == l.subrange(fs as int, l.len() as int));
        let k = b - fs;
        assert forall|m: int| k <= m < fp.len() implies fp[m] == '0' by {
            assert(fp[m] == l[fs + m]);
        }
        lemma_strip_trailing(fp, k as int);
        assert(fp.take(k as int) == l.subrange(fs as int, b as int));
        if b > fs {
            assert(fp.take(k as int).last() != '0');
        }
    }
    if b == fs {
        if point && int_len <= 15 {
            out.append(".");
            push_char(out, '0');
        }
    } else {
        out.append(".");
        push_range(out, &v, fs, b);
    }
    proof {
        assert(out@ =~= old(out)@ + canonical_text(l, point));
    }
}

// ---------------------------------------------------------------------------
// Exact values of literals
// ---------------------------------------------------------------------------

/// The value of a decimal digit character.
pub open spec fn dval(c: char) -> int {
    c as int - '0' as int
}

/// Whether every character is a decimal digit.
pub open spec fn all_digits(s: Seq<char>) -> bool {
    forall|i: int| 0 <= i < s.len() ==> '0' <= #[trigger] s[i] <= '9'
}

/// The number written by a sequence of decimal digits (most significant first).
pub open spec fn digits_value(s: Seq<char>) -> int
    decreases s.len(),
{
    if s.len() == 0 {
        0
    } else {
        digits_value(s.drop_last()) * 10 + dval(s.last())
    }
}

/// `10^n`.
pub open spec fn pow10(n: nat) -> int
    decreases n,
{
    if n == 0 { 1 } else { 10 * pow10((n - 1) as nat) }
}

/// A well-formed literal: digits with at most one `.`, and at least one digit.
pub open spec fn lit_wf(l: Seq<char>) -> bool {
    &&& all_digits(int_part(l))
    &&& all_digits(frac_part(l))
    &&& int_part(l).len() + frac_part(l).len() >= 1
}

/// All digits of a literal, point removed.
pub open spec fn lit_digits(l: Seq<char>) -> Seq<char> {
    int_part(l) + frac_part(l)
}

/// A literal `l` denotes `digits_value(lit_digits(l)) / 10^frac_len(l)`.
pub open spec fn frac_len(l: Seq<char>) -> nat {
    frac_part(l).len()
}

/// `a <= b` for the exact values of two literals.
pub open spec fn lit_le(a: Seq<char>, b: Seq<char>) -> bool {
    digits_value(lit_digits(a)) * pow10(frac_len(b)) <= digits_value(lit_digits(b)) * pow10(frac_len(a))
}

/// Whether a literal denotes zero.
pub open spec fn lit_is_zero(a: Seq<char>) -> bool {
    digits_value(lit_digits(a)) == 0
}

/// `n` zero digits.
pub open spec fn zeros(n: nat) -> Seq<char> {
    Seq::new(n, |i: int| '0')
}

proof fn lemma_pow10_pos(n: nat)
    ensures
        pow10(n) >= 1,
    decreases n,
{
    if n > 0 {
        lemma_pow10_pos((n - 1) as nat);
    }
}

proof fn lemma_pow10_add(a: nat, b: nat)
    ensures
        pow10(a + b) == pow10(a) * pow10(b),
    decreases a,
{
    if a > 0 {
        lemma_pow10_add((a - 1) as nat, b);
        assert(pow10(a + b) == 10 * pow10((a - 1 + b) as nat));
        assert(10 * (pow10((a - 1) as nat) * pow10(b)) == (10 * pow10((a - 1) as nat)) * pow10(b)) by (nonlinear_arith);
    }
}

/// `value(x + y) == value(x) * 10^|y| + value(y)`.
proof fn lemma_value_concat(x: Seq<char>, y: Seq<char>)
    ensures
        digits_value(x + y) == digits_value(x) * pow10(y.len()) + digits_value(y),
    decreases y.len(),
{
    if y.len() == 0 {
        assert(x + y =~= x);
    } else {
        lemma_value_concat(x, y.drop_last());
        assert((x + y).drop_last() =~= x + y.drop_last());
        assert((x + y).last() == y.last());
        let vx = digits_value(x);
        let p = pow10(y.drop_last().len());
        let vy = digits_value(y.drop_last());
        assert(pow10(y.len()) == 10 * p);
        assert((vx * p + vy) * 10 + dval(y.last()) == vx * (10 * p) + (vy * 10 + dval(y.last()))) by (nonlinear_arith);
    }
}

proof fn lemma_value_zeros(n: nat)
    ensures
        digits_value(zeros(n)) == 0,
    decreases n,
{
    if n > 0 {
        assert(zeros(n).drop_last() =~= zeros((n - 1) as nat));
        lemma_value_zeros((n - 1) as nat);
    }
}

/// Bounds of the value of a digit sequence.
proof fn lemma_value_bounds(s: Seq<char>)
    requires
        all_digits(s),
    ensures
        0 <= digits_value(s) < pow10(s.len()),
        s.len() > 0 && s[0] != '0' ==> pow10((s.len() - 1) as nat) <= digits_value(s),
    decreases s.len(),
{
    if s.len() > 0 {
        let t = s.drop_last();
        assert(all_digits(t)) by {
            assert forall|i: int| 0 <= i < t.len() implies '0' <= #[trigger] t[i] <= '9' by {
                assert(t[i] == s[i]);
            }
        }
        lemma_value_bounds(t);
        let v = digits_value(t);
        let d = dval(s.last());
        assert(0 <= d <= 9) by {
            assert('0' <= s[s.len() - 1] <= '9');
        }
        let p = pow10(t.len());
        assert(v * 10 + d < 10 * p) by (nonlinear_arith)
            requires
                v < p,
                d <= 9,
        ;
        assert(0 <= v * 10 + d) by (nonlinear_arith)
            requires
                v >= 0,
                d >= 0,
        ;
        if s[0] != '0' {
            if t.len() > 0 {
                assert(t[0] == s[0]);
                let q = pow10((t.len() - 1) as nat);
                assert(q * 10 <= v * 10 + d) by (nonlinear_arith)
                    requires
                        q <= v,
                        d >= 0,
                ;
                assert(pow10((s.len() - 1) as nat) == 10 * q);
            } else {
                assert(d >= 1);
            }
        }
    }
}

/// Equal-length digit sequences: the first differing digit decides.
proof fn lemma_value_lex(s: Seq<char>, t: Seq<char>, j: int)
    requires
        all_digits(s),
        all_digits(t),
        s.len() == t.len(),
        0 <= j < s.len(),
        s.take(j) == t.take(j),
        s[j] < t[j],
    ensures
        digits_value(s) < digits_value(t),
{
    let m = (s.len() - j - 1) as nat;
    let ps = s.take(j + 1);
    let pt = t.take(j + 1);
    let rs = s.skip(j + 1);
    let rt = t.skip(j + 1);
    assert(s =~= ps + rs);
    assert(t =~= pt + rt);
    lemma_value_concat(ps, rs);
    lemma_value_concat(pt, rt);
    assert(ps.drop_last() =~= s.take(j));
    assert(pt.drop_last() =~= t.take(j));
    let a = digits_value(s.take(j));
    assert(digits_value(ps) == a * 10 + dval(s[j]));
    assert(digits_value(pt) == a * 10 + dval(t[j]));
    assert(all_digits(rs)) by {
        assert forall|i: int| 0 <= i < rs.len() implies '0' <= #[trigger] rs[i] <= '9' by {
            assert(rs[i] == s[j + 1 + i]);
        }
    }
    assert(all_digits(rt)) by {
        assert forall|i: int| 0 <= i < rt.len() implies '0' <= #[trigger] rt[i] <= '9' by {
            assert(rt[i] == t[j + 1 + i]);
        }
    }
    lemma_value_bounds(rs);
    lemma_value_bounds(rt);
    let p = pow10(m);
    let vs = digits_value(rs);
    let vt = digits_value(rt);
    let ds = dval(s[j]);
    let dt = dval(t[j]);
    assert(rs.len() == m);
    assert((a * 10 + ds) * p + vs < (a * 10 + dt) * p + vt) by (nonlinear_arith)
        requires
            ds < dt,
            0 <= vs < p,
            0 <= vt,
    ;
}

/// Leading zeros do not change the value.
proof fn lemma_value_skip_zeros(s: Seq<char>, k: int)
    requires
        0 <= k <= s.len(),
        forall|i: int| 0 <= i < k ==> s[i] == '0',
    ensures
        digits_value(s) == digits_value(s.skip(k)),
{
    assert(s.take(k) =~= zeros(k as nat));
    assert(s =~= s.take(k) + s.skip(k));
    lemma_value_concat(s.take(k), s.skip(k));
    lemma_value_zeros(k as nat);
}

/// Compares the values of two digit vectors: `-1`, `0` or `1` as the first is
/// smaller, equal or larger.
fn compare_digit_values(x: &Vec<char>, y: &Vec<char>) -> (r: i8)
    requires
        all_digits(x@),
        all_digits(y@),
    ensures
        r == -1 <==> digits_value(x@) < digits_value(y@),
        r == 0 <==> digits_value(x@) == digits_value(y@),
        r == 1 <==> digits_value(x@) > digits_value(y@),
{
    let mut a: usize = 0;
    while a < x.len() && x[a] == '0'
        invariant
            a <= x.len(),
            forall|i: int| 0 <= i < a ==> x@[i] == '0',
        decreases x.len() - a,
    {
        a += 1;
    }
    let mut b: usize = 0;
    while b < y.len() && y[b] == '0'
        invariant
            b <= y.len(),
            forall|i: int| 0 <= i < b ==> y@[i] == '0',
        decreases y.len() - b,
    {
        b += 1;
    }
    let ghost sx = x@.skip(a as int);
    let ghost sy = y@.skip(b as int);
    proof {
        lemma_value_skip_zeros(x@, a as int);
        lemma_value_skip_zeros(y@, b as int);
        assert(all_digits(sx)) by {
            assert forall|i: int| 0 <= i < sx.len() implies '0' <= #[trigger] sx[i] <= '9' by {
                assert(sx[i] == x@[a + i]);
            }
        }
        assert(all_digits(sy)) by {
            assert forall|i: int| 0 <= i < sy.len() implies '0' <= #[trigger] sy[i] <= '9' by {
                assert(sy[i] == y@[b + i]);
            }
        }
        lemma_value_bounds(sx);
        lemma_value_bounds(sy);
        if sx.len() > 0 {
            assert(sx[0] == x@[a as int]);
        }
        if sy.len() > 0 {
            assert(sy[0] == y@[b as int]);
        }
    }
    let nx = x.len() - a;
    let ny = y.len() - b;
    if nx < ny {
        proof {
            assert(sy[0] != '0');
            lemma_pow10_mono(sx.len(), (sy.len() - 1) as nat);
        }
        return -1;
    }
    if nx > ny {
        proof {
            assert(sx[0] != '0');
            lemma_pow10_mono(sy.len(), (sx.len() - 1) as nat);
        }
        return 1;
    }
    let mut j: usize = 0;
    while j < nx
        invariant
            nx == ny,
            a + nx == x.len(),
            b + ny == y.len(),
            sx == x@.skip(a as int),
            sy == y@.skip(b as int),
            j <= nx,
            sx.take(j as int) == sy.take(j as int),
            all_digits(sx),
            all_digits(sy),
            sx.len() == nx,
            sy.len() == ny,
            digits_value(x@) == digits_value(sx),
            digits_value(y@) == digits_value(sy),
        decreases nx - j,
    {
        let cx = x[a + j];
        let cy = y[b + j];
        proof {
            assert(sx[j as int] == cx);
            assert(sy[j as int] == cy);
        }
        if cx < cy {
            proof {
                lemma_value_lex(sx, sy, j as int);
            }
            return -1;
        }
        if cx > cy {
            proof {
                lemma_value_lex(sy, sx, j as int);
            }
            return 1;
        }
        proof {
            assert(sx.take(j + 1) =~= sx.take(j as int).push(cx));
            assert(sy.take(j + 1) =~= sy.take(j as int).push(cy));
        }
        j += 1;
    }
    proof {
        assert(sx =~= sx.take(nx as int));
        assert(sy =~= sy.take(ny as int));
    }
    0
}

proof fn lemma_pow10_mono(a: nat, b: nat)
    requires
        a <= b,
    ensures
        pow10(a) <= pow10(b),
    decreases b,
{
    if a < b {
        lemma_pow10_mono(a, (b - 1) as nat);
        lemma_pow10_pos((b - 1) as nat);
    }
}

/// The digits of a well-formed literal and the number of them after the
/// point; `None` when the text is not a well-formed literal.
pub fn literal_digits(lit: &String) -> (r: Option<(Vec<char>, usize)>)
    ensures
        r is Some <==> lit_wf(lit@),
        r matches Some((d, f)) ==> d@ == lit_digits(lit@) && f == frac_len(lit@),
{
    let v = chars_of(lit.as_str());
    let ghost l = v@;
    let d = exec_dot_pos(&v);
    proof {
        lemma_dot_pos(l);
        assert(l == lit@);
    }
    let mut digits: Vec<char> = Vec::new();
    let mut k: usize = 0;
    while k < d
        invariant
            k <= d <= v.len(),
            l == v@,
            l == lit@,
            d == dot_pos(l),
            digits@ == l.take(k as int),
            all_digits(digits@),
        decreases d - k,
    {
        let c = v[k];
        if !('0' <= c && c <= '9') {
            proof {
                assert(int_part(l)[k as int] == c);
                assert(!all_digits(int_part(l)));
            }
            return None;
        }
        digits.push(c);
        proof {
            assert(l.take(k + 1) =~= l.take(k as int).push(c));
        }
        k += 1;
    }
    let fs: usize = if d < v.len() { d + 1 } else { v.len() };
    let mut m: usize = fs;
    proof {
        assert(int_part(l) == l.take(d as int));
        assert(frac_part(l) =~= l.subrange(fs as int, l.len() as int));
        assert(digits@ + l.subrange(fs as int, fs as int) =~= digits@);
    }
    while m < v.len()
        invariant
            fs <= m <= v.len(),
            l == v@,
            l == lit@,
            d == dot_pos(l),
            int_part(l) == l.take(d as int),
            frac_part(l) == l.subrange(fs as int, l.len() as int),
            all_digits(int_part(l)),
            digits@ == int_part(l) + l.subrange(fs as int, m as int),
            all_digits(digits@),
        decreases v.len() - m,
    {
        let c = v[m];
        if !('0' <= c && c <= '9') {
            proof {
                assert(frac_part(l)[m - fs] == c);
                assert(!all_digits(frac_part(l)));
            }
            return None;
        }
        digits.push(c);
        proof {
            assert(l.subrange(fs as int, m + 1) =~= l.subrange(fs as int, m as int).push(c));
        }
        m += 1;
    }
    proof {
        assert(digits@ =~= lit_digits(l));
        let ip = int_part(l);
        let fp = frac_part(l);
        assert forall|i: int| 0 <= i < fp.len() implies '0' <= #[trigger] fp[i] <= '9' by {
            assert(fp[i] == digits@[ip.len() + i]);
        }
        assert(all_digits(fp));
    }
    if digits.len() == 0 {
        return None;
    }
    Some((digits, v.len() - fs))
}

proof fn lemma_mul_le_iff(x: int, y: int, p: int)
    requires
        p > 0,
    ensures
        x <= y <==> x * p <= y * p,
{
    if x <= y {
        assert(x * p <= y * p) by (nonlinear_arith)
            requires
                x <= y,
                p > 0,
        ;
    } else {
        assert(y * p < x * p) by (nonlinear_arith)
            requires
                y < x,
                p > 0,
        ;
    }
}

/// `digits_value(a) * 10^fb <= digits_value(b) * 10^fa`: the order of the
/// exact values `a / 10^fa` and `b / 10^fb`.
pub fn scaled_le(a: &Vec<char>, fa: usize, b: &Vec<char>, fb: usize) -> (r: bool)
    requires
        all_digits(a@),
        all_digits(b@),
    ensures
        r == (digits_value(a@) * pow10(fb as nat) <= digits_value(b@) * pow10(fa as nat)),
{
    let mut pa = a.clone();
    let mut pb = b.clone();
    let k = if fa >= fb { fa } else { fb };
    let mut i: usize = fa;
    while i < k
        invariant
            fa <= i <= k,
            pa@ == a@ + zeros((i - fa) as nat),
            all_digits(pa@),
        decreases k - i,
    {
        pa.push('0');
        proof {
            assert(pa@ =~= a@ + zeros((i + 1 - fa) as nat));
        }
        i += 1;
    }
    let mut j: usize = fb;
    while j < k
        invariant
            fb <= j <= k,
            pb@ == b@ + zeros((j - fb) as nat),
            all_digits(pb@),
        decreases k - j,
    {
        pb.push('0');
        proof {
            assert(pb@ =~= b@ + zeros((j + 1 - fb) as nat));
        }
        j += 1;
    }
    let c = compare_digit_values(&pa, &pb);
    proof {
        let ea = (k - fa) as nat;
        let eb = (k - fb) as nat;
        lemma_value_concat(a@, zeros(ea));
        lemma_value_concat(b@, zeros(eb));
        lemma_value_zeros(ea);
        lemma_value_zeros(eb);
        let va = digits_value(a@);
        let vb = digits_value(b@);
        if fa >= fb {
            // compare va with vb * 10^(fa-fb); scale both sides by 10^fb
            lemma_pow10_add(eb, fb as nat);
            lemma_pow10_pos(fb as nat);
            assert(pow10(ea) == 1);
            lemma_mul_le_iff(va, vb * pow10(eb), pow10(fb as nat));
            assert(vb * pow10(eb) * pow10(fb as nat) == vb * pow10(fa as nat)) by (nonlinear_arith)
                requires
                    pow10(fa as nat) == pow10(eb) * pow10(fb as nat),
            ;
        } else {
            lemma_pow10_add(ea, fa as nat);
            lemma_pow10_pos(fa as nat);
            assert(pow10(eb) == 1);
            lemma_mul_le_iff(va * pow10(ea), vb, pow10(fa as nat));
            assert(va * pow10(ea) * pow10(fa as nat) == va * pow10(fb as nat)) by (nonlinear_arith)
                requires
                    pow10(fb as nat) == pow10(ea) * pow10(fa as nat),
            ;
        }
    }
    c != 1
}

/// Whether a digit sequence denotes zero.
pub fn digits_zero(a: &Vec<char>) -> (r: bool)
    requires
        all_digits(a@),
    ensures
        r == (digits_value(a@) == 0),
{
    let empty: Vec<char> = Vec::new();
    proof {
        assert(all_digits(empty@));
    }
    compare_digit_values(a, &empty) == 0
}

// ---------------------------------------------------------------------------
// The canonical rendering is canonical
// ---------------------------------------------------------------------------

proof fn lemma_dot_pos_at(s: Seq<char>, k: int)
    requires
        0 <= k <= s.len(),
        forall|m: int| 0 <= m < k ==> s[m] != '.',
        k == s.len() || s[k] == '.',
    ensures
        dot_pos(s) == k,
    decreases k,
{
    if k > 0 {
        assert forall|m: int| 0 <= m < k - 1 implies s.drop_first()[m] != '.' by {
            assert(s.drop_first()[m] == s[m + 1]);
        }
        lemma_dot_pos_at(s.drop_first(), k - 1);
    }
}

proof fn lemma_strip_leading_suffix(s: Seq<char>)
    ensures
        exists|k: int| 0 <= k <= s.len() && strip_leading_zeros(s) == s.skip(k),
        strip_leading_zeros(s).len() > 0 ==> strip_leading_zeros(s)[0] != '0',
    decreases s.len(),
{
    if s.len() > 0 && s[0] == '0' {
        lemma_strip_leading_suffix(s.drop_first());
        let k = choose|k: int| 0 <= k <= s.drop_first().len() && strip_leading_zeros(s.drop_first()) == s.drop_first().skip(k);
        assert(s.drop_first().skip(k) =~= s.skip(k + 1));
    } else {
        assert(s.skip(0) =~= s);
    }
}

proof fn lemma_strip_trailing_prefix(s: Seq<char>)
    ensures
        exists|k: int| 0 <= k <= s.len() && strip_trailing_zeros(s) == s.take(k),
        strip_trailing_zeros(s).len() > 0 ==> strip_trailing_zeros(s).last() != '0',
    decreases s.len(),
{
    if s.len() > 0 && s.last() == '0' {
        lemma_strip_trailing_prefix(s.drop_last());
        let k = choose|k: int| 0 <= k <= s.drop_last().len() && strip_trailing_zeros(s.drop_last()) == s.drop_last().take(k);
        assert(s.drop_last().take(k) =~= s.take(k));
    } else {
        assert(s.take(s.len() as int) =~= s);
    }
}

/// Formatting a formatted number changes nothing: the canonical rendering
/// of a literal is a literal whose canonical rendering is itself.
pub proof fn lemma_num_text_canonical(l: Seq<char>)
    requires
        lit_wf(l),
    ensures
        num_text(num_text(l)) == num_text(l),
{
    lemma_dot_pos(l);
    let ip = int_part(l);
    let fp = frac_part(l);
    let i = int_digits(l);
    let f = strip_trailing_zeros(fp);
    lemma_strip_leading_suffix(ip);
    lemma_strip_trailing_prefix(fp);
    let si = strip_leading_zeros(ip);
    let ki = choose|k: int| 0 <= k <= ip.len() && si == ip.skip(k);
    let kf = choose|k: int| 0 <= k <= fp.len() && f == fp.take(k);
    // The integer digits hold no point, and start with `0` only as `0`.
    assert forall|m: int| 0 <= m < i.len() implies i[m] != '.' by {
        if si.len() > 0 {
            assert(si[m] == ip[ki + m]);
        }
    }
    assert(i.len() > 0);
    assert(i[0] != '0' || i == seq!['0']);
    assert forall|m: int| 0 <= m < f.len() implies f[m] != '.' by {
        assert(f[m] == fp[m]);
    }
    let t = num_text(l);
    if f.len() > 0 {
        assert(t == i + "."@ + f);
        reveal_strlit(".");
        assert(t[i.len() as int] == '.');
        lemma_dot_pos_at(t, i.len() as int);
        assert(int_part(t) =~= i);
        assert(frac_part(t) =~= f);
        lemma_strip_leading_suffix(i);
        if i == seq!['0'] {
            assert(strip_leading_zeros(i.drop_first()) == i.drop_first());
            assert(int_digits(t) =~= i);
        } else {
            assert(strip_leading_zeros(i) == i);
        }
        assert(strip_trailing_zeros(f) == f);
    } else if i.len() <= 15 {
        reveal_strlit(".");
        assert(t == i + "."@ + seq!['0']);
        assert(t[i.len() as int] == '.');
        lemma_dot_pos_at(t, i.len() as int);
        assert(int_part(t) =~= i);
        assert(frac_part(t) =~= seq!['0']);
        if i == seq!['0'] {
            assert(strip_leading_zeros(i.drop_first()) == i.drop_first());
            assert(int_digits(t) =~= i);
        } else {
            assert(strip_leading_zeros(i) == i);
        }
        let z = seq!['0'];
        assert(z.drop_last() =~= Seq::<char>::empty());
        assert(z.len() == 1 && z.last() == '0');
        assert(strip_trailing_zeros(z) == strip_trailing_zeros(z.drop_last()));
        assert(strip_trailing_zeros(Seq::<char>::empty()) == Seq::<char>::empty());
    } else {
        assert(t == i);
        lemma_dot_pos_at(t, t.len() as int);
        assert(int_part(t) =~= i);
        assert(frac_part(t) =~= Seq::<char>::empty());
        assert(strip_leading_zeros(i) == i);
    }
}


/// The canonical rendering of a literal starts with a digit and holds only
/// digits and at most one `.`.
pub proof fn lemma_num_text_chars(l: Seq<char>)
    requires
        lit_wf(l),
    ensures
        num_text(l).len() >= 1,
        '0' <= num_text(l)[0] <= '9',
        forall|k: int| 0 <= k < num_text(l).len() ==> ('0' <= #[trigger] num_text(l)[k] <= '9' || num_text(l)[k] == '.'),
        forall|a: int, b: int|
            0 <= a < b < num_text(l).len() && #[trigger] num_text(l)[a] == '.' ==> #[trigger] num_text(l)[b] != '.',
{
    lemma_dot_pos(l);
    let ip = int_part(l);
    let fp = frac_part(l);
    lemma_strip_leading_suffix(ip);
    lemma_strip_trailing_prefix(fp);
    let si = strip_leading_zeros(ip);
    let ki = choose|k: int| 0 <= k <= ip.len() && si == ip.skip(k);
    let kf = choose|k: int| 0 <= k <= fp.len() && strip_trailing_zeros(fp) == fp.take(k);
    let i = int_digits(l);
    let f = strip_trailing_zeros(fp);
    assert forall|m: int| 0 <= m < i.len() implies '0' <= #[trigger] i[m] <= '9' by {
        if si.len() > 0 {
            assert(i[m] == ip[ki + m]);
        }
    }
    assert forall|m: int| 0 <= m < f.len() implies '0' <= #[trigger] f[m] <= '9' by {
        assert(f[m] == fp[m]);
    }
    reveal_strlit(".");
    let t = num_text(l);
    let g = if f.len() > 0 { f } else { seq!['0'] };
    if f.len() > 0 || i.len() <= 15 {
        assert(t == i + "."@ + g);
        assert forall|k: int| 0 <= k < t.len() implies ('0' <= #[trigger] t[k] <= '9' || t[k] == '.') && (t[k] == '.' ==> k == i.len()) by {
            if k < i.len() {
                assert(t[k] == i[k]);
            } else if k > i.len() {
                assert(t[k] == g[k - i.len() - 1]);
            }
        }
    } else {
        assert(t == i);
    }
}

} // verus!
