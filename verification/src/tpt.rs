//! The hand-off boundary into the tpt-gpu toolchain: hardware targets for
//! the `augur.hardware` attribute and the structural validation of emitted
//! TPTIR modules.
use vstd::prelude::*;
use crate::util::{push_char, str_eq};
use crate::dialect::OpV;
use crate::markers::{
    plain_text, op_plain, good, no_win, right_ok, brace_free, indent, lemma_plain, lemma_quoted_free, lemma_brace_free,
    lemma_cat, lemma_cat_win, lemma_region_good, lemma_count_one,
};

verus! {

/// A hardware target tpt-gpu can dispatch Augur-sampled work to.
#[derive(Debug, Clone, Copy, PartialEq, Eq, Structural)]
pub enum HardwareTarget {
    /// Reference CPU execution (always available; the measured baseline).
    Cpu,
    /// NVIDIA GPUs via the CUDA/PTX execution layers.
    Nvidia,
    /// AMD GPUs via the ROCm execution layers.
    Amd,
    /// Apple Silicon via the Metal execution layers.
    AppleSilicon,
}

/// Errors raised while handing an Augur model off to tpt-gpu.
#[derive(Debug, Clone, PartialEq)]
pub enum TptInteropError {
    /// A hardware name that no target answers to (normalised as looked up).
    UnknownHardware(String),
    /// The emitted module failed the structural hand-off validation.
    HandoffRejected(String),
    /// A frontend or checker error.
    Frontend(String),
}

/// The `augur.hardware` attribute of a target.
pub open spec fn target_name(t: HardwareTarget) -> Seq<char> {
    match t {
        HardwareTarget::Cpu => "cpu"@,
        HardwareTarget::Nvidia => "nvidia"@,
        HardwareTarget::Amd => "amd"@,
        HardwareTarget::AppleSilicon => "apple_silicon"@,
    }
}

/// A name lower-cased in ASCII, with `-` and ` ` turned into `_`.
pub open spec fn normalize(s: Seq<char>) -> Seq<char> {
    s.map_values(|c: char| normalize_char(c))
}

/// One character of [`normalize`].
pub open spec fn normalize_char(c: char) -> char {
    if 'A' <= c <= 'Z' {
        ((c as u32) + 32) as char
    } else if c == '-' || c == ' ' {
        '_'
    } else {
        c
    }
}

/// The target a normalised name denotes.
pub open spec fn target_of(n: Seq<char>) -> Option<HardwareTarget> {
    if n == "cpu"@ {
        Some(HardwareTarget::Cpu)
    } else if n == "nvidia"@ || n == "cuda"@ {
        Some(HardwareTarget::Nvidia)
    } else if n == "amd"@ || n == "rocm"@ {
        Some(HardwareTarget::Amd)
    } else if n == "apple"@ || n == "apple_silicon"@ || n == "metal"@ {
        Some(HardwareTarget::AppleSilicon)
    } else {
        None
    }
}

/// The outcome of looking a hardware name up: its target, or the error
/// naming the normalised name.
pub open spec fn parse_target(s: Seq<char>) -> Result<HardwareTarget, Seq<char>> {
    match target_of(normalize(s)) {
        Some(t) => Ok(t),
        None => Err(normalize(s)),
    }
}

/// The view of a lookup's result: the target, or the name in the error.
pub open spec fn target_result(r: Result<HardwareTarget, TptInteropError>) -> Result<HardwareTarget, Seq<char>> {
    match r {
        Ok(t) => Ok(t),
        Err(TptInteropError::UnknownHardware(n)) => Err(n@),
        Err(_) => Err(seq![]),
    }
}

fn normalize_name(s: &str) -> (r: String)
    ensures
        r@ == normalize(s@),
{
    let v = crate::util::chars_of(s);
    let mut r = String::new();
    let mut i: usize = 0;
    while i < v.len()
        invariant
            v@ == s@,
            i <= v@.len(),
            r@ == normalize(s@.take(i as int)),
        decreases v.len() - i,
    {
        let c = v[i];
        let d = if 'A' <= c && c <= 'Z' {
            lower_ascii(c)
        } else if c == '-' || c == ' ' {
            '_'
        } else {
            c
        };
        push_char(&mut r, d);
        proof {
            assert(r@ =~= normalize(s@.take(i + 1)));
        }
        i += 1;
    }
    proof {
        assert(s@.take(v@.len() as int) =~= s@);
    }
    r
}

fn lower_ascii(c: char) -> (d: char)
    requires
        'A' <= c <= 'Z',
    ensures
        d == ((c as u32) + 32) as char,
{
    let b = (c as u8) + 32;
    b as char
}

impl HardwareTarget {
    /// All targets Augur knows how to dispatch to.
    pub fn supported() -> (r: Vec<HardwareTarget>)
        ensures
            r@ == seq![HardwareTarget::Cpu, HardwareTarget::Nvidia, HardwareTarget::Amd, HardwareTarget::AppleSilicon],
    {
        let mut r: Vec<HardwareTarget> = Vec::new();
        r.push(HardwareTarget::Cpu);
        r.push(HardwareTarget::Nvidia);
        r.push(HardwareTarget::Amd);
        r.push(HardwareTarget::AppleSilicon);
        r
    }

    /// The `augur.hardware` attribute string recorded in emitted TPTIR.
    pub fn as_str(&self) -> (r: &'static str)
        ensures
            r@ == target_name(*self),
    {
        match self {
            HardwareTarget::Cpu => "cpu",
            HardwareTarget::Nvidia => "nvidia",
            HardwareTarget::Amd => "amd",
            HardwareTarget::AppleSilicon => "apple_silicon",
        }
    }

    /// The compile target that best represents this hardware: the generic
    /// TPT ISA text for accelerators, plain text for the CPU.
    pub fn tptc_target(&self) -> (r: &'static str)
        ensures
            r@ == (if *self == HardwareTarget::Cpu { "text"@ } else { "tptisa"@ }),
    {
        match self {
            HardwareTarget::Cpu => "text",
            HardwareTarget::Nvidia | HardwareTarget::Amd | HardwareTarget::AppleSilicon => "tptisa",
        }
    }

    /// Whether this target can be exercised in the current process: only
    /// the CPU is measurable without an attached device.
    pub fn is_locally_measurable(&self) -> (b: bool)
        ensures
            b == (*self == HardwareTarget::Cpu),
    {
        match self {
            HardwareTarget::Cpu => true,
            _ => false,
        }
    }

    /// Looks a hardware name up, ignoring ASCII case and treating `-` and
    /// ` ` as `_`; accepts the aliases `cuda`, `rocm`, `apple` and `metal`.
    pub fn from_str(s: &str) -> (r: Result<HardwareTarget, TptInteropError>)
        ensures
            target_result(r) == parse_target(s@),
            r matches Err(e) ==> e is UnknownHardware,
    {
        let n = normalize_name(s);
        let t = n.as_str();
        if str_eq(t, "cpu") {
            Ok(HardwareTarget::Cpu)
        } else if str_eq(t, "nvidia") || str_eq(t, "cuda") {
            Ok(HardwareTarget::Nvidia)
        } else if str_eq(t, "amd") || str_eq(t, "rocm") {
            Ok(HardwareTarget::Amd)
        } else if str_eq(t, "apple") || str_eq(t, "apple_silicon") || str_eq(t, "metal") {
            Ok(HardwareTarget::AppleSilicon)
        } else {
            Err(TptInteropError::UnknownHardware(n))
        }
    }
}

impl std::str::FromStr for HardwareTarget {
    type Err = TptInteropError;

    fn from_str(s: &str) -> (r: Result<HardwareTarget, TptInteropError>)
        ensures
            target_result(r) == parse_target(s@),
            r matches Err(e) ==> e is UnknownHardware,
    {
        HardwareTarget::from_str(s)
    }
}

/// The result of handing an Augur model to tpt-gpu.
#[derive(Debug, Clone, PartialEq)]
pub struct Handoff {
    /// The Augur `augur.*` TPTIR module.
    pub tptir: String,
    /// The hardware target the module was tagged and dispatched for.
    pub hardware: HardwareTarget,
    /// Number of pre-lowering optimisation changes the pipeline made.
    pub mlir_changes: usize,
    /// Whether the module passed the structural hand-off contract.
    pub structurally_valid: bool,
}

/// Selects a hardware target, the CPU when none is asked for.
pub fn select_hardware_target(requested: Option<&str>) -> (r: Result<HardwareTarget, TptInteropError>)
    ensures
        match requested {
            Some(s) => target_result(r) == parse_target(s@),
            None => r == Ok::<HardwareTarget, TptInteropError>(HardwareTarget::Cpu),
        },
{
    match requested {
        Some(s) => HardwareTarget::from_str(s),
        None => Ok(HardwareTarget::Cpu),
    }
}

/// Whether `pat` occurs in `s`.
pub open spec fn contains_text(s: Seq<char>, pat: Seq<char>) -> bool {
    exists|i: int| 0 <= i <= s.len() - pat.len() && #[trigger] s.subrange(i, i + pat.len()) == pat
}

/// Whether `pat` occurs in `s`.
pub fn text_contains(s: &str, pat: &str) -> (b: bool)
    ensures
        b == contains_text(s@, pat@),
{
    let sv = crate::util::chars_of(s);
    let pv = crate::util::chars_of(pat);
    let n = sv.len();
    let m = pv.len();
    if m > n {
        return false;
    }
    let mut i: usize = 0;
    while i <= n - m
        invariant
            sv@ == s@,
            pv@ == pat@,
            n == sv@.len(),
            m == pv@.len(),
            m <= n,
            i <= n - m + 1,
            forall|k: int| 0 <= k < i ==> #[trigger] s@.subrange(k, k + m) != pat@,
        decreases n - m + 1 - i,
    {
        let mut j: usize = 0;
        while j < m && sv[i + j] == pv[j]
            invariant
                sv@ == s@,
                pv@ == pat@,
                n == sv@.len(),
                m == pv@.len(),
                i + m <= n,
                j <= m,
                forall|q: int| 0 <= q < j ==> sv@[i + q] == pv@[q],
            decreases m - j,
        {
            j += 1;
        }
        if j == m {
            proof {
                assert(s@.subrange(i as int, i + m) =~= pat@);
            }
            return true;
        }
        proof {
            assert(s@.subrange(i as int, i + m)[j as int] != pat@[j as int]);
        }
        i += 1;
    }
    proof {
        if contains_text(s@, pat@) {
            let k = choose|k: int| 0 <= k <= s@.len() - pat@.len() && #[trigger] s@.subrange(k, k + pat@.len()) == pat@;
            assert(s@.subrange(k, k + m) == pat@);
        }
    }
    false
}

/// How many times `p` stands in `t` from position `i` on.
pub open spec fn count_from(t: Seq<char>, p: Seq<char>, i: int) -> nat
    decreases t.len() - i,
{
    if p.len() == 0 || i < 0 || i + p.len() > t.len() {
        0
    } else {
        count_from(t, p, i + 1) + if t.subrange(i, i + p.len()) == p { 1nat } else { 0nat }
    }
}

/// How many times `p` stands in `t`.
pub open spec fn occurrences(t: Seq<char>, p: Seq<char>) -> nat {
    count_from(t, p, 0)
}

/// How many times `pat` stands in `s`.
pub fn text_count(s: &str, pat: &str) -> (c: usize)
    ensures
        c == occurrences(s@, pat@),
{
    let sv = crate::util::chars_of(s);
    let pv = crate::util::chars_of(pat);
    let n = sv.len();
    let m = pv.len();
    if m == 0 || m > n {
        return 0;
    }
    let mut c: usize = 0;
    let mut i: usize = 0;
    while i <= n - m
        invariant
            sv@ == s@,
            pv@ == pat@,
            n == sv@.len(),
            m == pv@.len(),
            1 <= m <= n,
            i <= n - m + 1,
            c <= i,
            c + count_from(s@, pat@, i as int) == occurrences(s@, pat@),
        decreases n - m + 1 - i,
    {
        let mut j: usize = 0;
        while j < m && sv[i + j] == pv[j]
            invariant
                sv@ == s@,
                pv@ == pat@,
                n == sv@.len(),
                m == pv@.len(),
                i + m <= n,
                j <= m,
                forall|q: int| 0 <= q < j ==> sv@[i + q] == pv@[q],
            decreases m - j,
        {
            j += 1;
        }
        if j == m {
            proof {
                assert(s@.subrange(i as int, i + m) =~= pat@);
            }
            c += 1;
        } else {
            proof {
                assert(s@.subrange(i as int, i + m)[j as int] != pat@[j as int]);
            }
        }
        i += 1;
    }
    c
}

/// `true` or `false`.
pub open spec fn bool_text(b: bool) -> Seq<char> {
    if b { "true"@ } else { "false"@ }
}

/// The verdict of the structural hand-off validation: a module holding
/// exactly one `module {`, one `func.func @` and one `^entry:` block, and at
/// least one `augur.*` op, is accepted; otherwise the message says which of
/// the four held.
pub open spec fn validation(t: Seq<char>) -> Result<bool, Seq<char>> {
    let m = occurrences(t, "module {"@) == 1;
    let f = occurrences(t, "func.func @"@) == 1;
    let e = occurrences(t, "^entry:"@) == 1;
    let a = contains_text(t, "\"augur."@);
    if m && f && e && a {
        Ok(true)
    } else {
        Err("module="@ + bool_text(m) + " func="@ + bool_text(f) + " entry="@ + bool_text(e) + " augur_op="@
            + bool_text(a))
    }
}

fn push_bool(out: &mut String, b: bool)
    ensures
        final(out)@ == old(out)@ + bool_text(b),
{
    if b {
        out.append("true");
    } else {
        out.append("false");
    }
}

/// Structural validation of an emitted TPTIR module against the hand-off
/// contract: exactly one `module`, one `func.func` and one `^entry` block,
/// and at least one `augur.*` op.
pub fn validate_tptir(tptir: &str) -> (r: Result<bool, String>)
    ensures
        match r {
            Ok(b) => validation(tptir@) == Ok::<bool, Seq<char>>(b),
            Err(m) => validation(tptir@) == Err::<bool, Seq<char>>(m@),
        },
{
    let has_module = text_count(tptir, "module {") == 1;
    let has_func = text_count(tptir, "func.func @") == 1;
    let has_entry = text_count(tptir, "^entry:") == 1;
    let has_augur_op = text_contains(tptir, "\"augur.");
    if !(has_module && has_func && has_entry && has_augur_op) {
        let mut m = String::from_str("module=");
        push_bool(&mut m, has_module);
        m.append(" func=");
        push_bool(&mut m, has_func);
        m.append(" entry=");
        push_bool(&mut m, has_entry);
        m.append(" augur_op=");
        push_bool(&mut m, has_augur_op);
        return Err(m);
    }
    Ok(true)
}

/// Every target's attribute name (`as_str`) looks up (`from_str`) to the
/// target itself.
pub proof fn lemma_target_name_round_trip(t: HardwareTarget)
    ensures
        parse_target(target_name(t)) == Ok::<HardwareTarget, Seq<char>>(t),
{
    reveal_strlit("cpu");
    reveal_strlit("nvidia");
    reveal_strlit("cuda");
    reveal_strlit("amd");
    reveal_strlit("rocm");
    reveal_strlit("apple");
    reveal_strlit("apple_silicon");
    reveal_strlit("metal");
    let n = target_name(t);
    assert forall|i: int| 0 <= i < n.len() implies normalize_char(#[trigger] n[i]) == n[i] by {
        assert(('a' <= n[i] <= 'z') || n[i] == '_');
    }
    assert(normalize(n) =~= n);
    match t {
        HardwareTarget::Cpu => assert(target_of(n) == Some(HardwareTarget::Cpu)),
        HardwareTarget::Nvidia => assert(target_of(n) == Some(HardwareTarget::Nvidia)),
        HardwareTarget::Amd => {
            assert(n[0] != "cpu"@[0]);
            assert(target_of(n) == Some(HardwareTarget::Amd));
        },
        HardwareTarget::AppleSilicon => {
            assert(n != "cpu"@ && n != "nvidia"@ && n != "cuda"@ && n != "amd"@ && n != "rocm"@);
            assert(n != "apple"@);
            assert(target_of(n) == Some(HardwareTarget::AppleSilicon));
        },
    }
}

/// A text found in `a` is found in `b + a + c`.
pub proof fn lemma_contains_within(a: Seq<char>, b: Seq<char>, c: Seq<char>, pat: Seq<char>)
    requires
        contains_text(a, pat),
    ensures
        contains_text(b + a + c, pat),
{
    let i = choose|i: int| 0 <= i <= a.len() - pat.len() && #[trigger] a.subrange(i, i + pat.len()) == pat;
    let t = b + a + c;
    assert(t.subrange(b.len() + i, b.len() + i + pat.len()) =~= a.subrange(i, i + pat.len()));
}

/// A text is found at position `i` of `s`.
proof fn lemma_found_at(s: Seq<char>, pat: Seq<char>, i: int)
    requires
        0 <= i <= s.len() - pat.len(),
        s.subrange(i, i + pat.len()) == pat,
    ensures
        contains_text(s, pat),
{
}

/// Every op's text names an `augur.*` op.
proof fn lemma_op_text_names_augur_op(o: OpV, pad: Seq<char>)
    ensures
        contains_text(crate::codegen::op_text(o, pad), "\"augur."@),
{
    reveal_strlit("\"augur.");
    let q = "\"augur."@;
    let t = crate::codegen::op_text(o, pad);
    match o {
        OpV::Constant { result, .. } => {
            reveal_strlit(" = \"augur.constant\"() {value = ");
            let k: int = (pad.len() + crate::codegen::operand(result).len() + 3) as int;
            assert(t.subrange(k, k + 7) =~= q);
            lemma_found_at(t, q, k);
        },
        OpV::Dist { result, .. } => {
            reveal_strlit(" = \"augur.dist.");
            let k: int = (pad.len() + crate::codegen::operand(result).len() + 3) as int;
            assert(t.subrange(k, k + 7) =~= q);
            lemma_found_at(t, q, k);
        },
        OpV::Sample { result, .. } => {
            reveal_strlit(" = \"augur.sample\"(");
            let k: int = (pad.len() + crate::codegen::operand(result).len() + 3) as int;
            assert(t.subrange(k, k + 7) =~= q);
            lemma_found_at(t, q, k);
        },
        OpV::Scalar { result, op } => {
            reveal_strlit(" = \"");
            reveal_strlit("augur.addf");
            reveal_strlit("augur.subf");
            reveal_strlit("augur.mulf");
            reveal_strlit("augur.divf");
            reveal_strlit("augur.negf");
            reveal_strlit("augur.cmpf_gt");
            reveal_strlit("augur.cmpf_lt");
            reveal_strlit("augur.cmpf_ge");
            reveal_strlit("augur.cmpf_le");
            reveal_strlit("augur.cmpf_eq");
            reveal_strlit("augur.cmpf_ne");
            let m = crate::codegen::scalar_mnemonic(op);
            assert(m.len() >= 6 && m.subrange(0, 6) =~= "augur."@) by {
                reveal_strlit("augur.");
            }
            let k: int = (pad.len() + crate::codegen::operand(result).len() + 3) as int;
            reveal_strlit("augur.");
            assert(t.subrange(k, k + 7) =~= q);
            lemma_found_at(t, q, k);
        },
        OpV::Observe { .. } => {
            reveal_strlit("\"augur.observe\"(");
            let k = pad.len() as int;
            assert(t.subrange(k, k + 7) =~= q);
            lemma_found_at(t, q, k);
        },
        OpV::Let { .. } => {
            reveal_strlit("\"augur.let\"(");
            let k = pad.len() as int;
            assert(t.subrange(k, k + 7) =~= q);
            lemma_found_at(t, q, k);
        },
        OpV::Cond { .. } => {
            reveal_strlit("\"augur.cond\"(");
            let k = pad.len() as int;
            assert(t.subrange(k, k + 7) =~= q);
            lemma_found_at(t, q, k);
        },
    }
}

/// The TPTIR module emitted for a graph with at least one op passes the
/// structural hand-off validation, whatever the hardware, when the entry
/// name, the hardware name, the prior names, the binding names and the
/// constant texts are made of letters, digits, `_`, `.` and `-`: what
/// `emit_tptir` produces, `validate_tptir` accepts.
pub proof fn lemma_emitted_tptir_validates(
    ops: Seq<crate::dialect::OpV>,
    priors: Seq<Seq<char>>,
    entry: Seq<char>,
    hardware: Seq<char>,
)
    requires
        ops.len() > 0,
        plain_text(entry),
        plain_text(hardware),
        forall|k: int| 0 <= k < priors.len() ==> plain_text(#[trigger] priors[k]),
        forall|k: int| 0 <= k < ops.len() ==> op_plain(#[trigger] ops[k]),
    ensures
        validation(crate::codegen::tptir_text(ops, priors, entry, hardware)) == Ok::<bool, Seq<char>>(true),
{
    let h = "module {\n  func.func @"@;
    let l2 = "() attributes {tptir.kernel, augur.prior_order = ["@;
    let l3 = "], augur.hardware = \""@;
    let l4 = "\"} {\n"@;
    let l5 = "    ^entry:\n"@;
    let l6 = "      tptir.return\n"@;
    let l7 = "  }\n}\n"@;
    let pad = "      "@;
    reveal_strlit("module {\n  func.func @");
    reveal_strlit("() attributes {tptir.kernel, augur.prior_order = [");
    reveal_strlit("], augur.hardware = \"");
    reveal_strlit("\"} {\n");
    reveal_strlit("    ^entry:\n");
    reveal_strlit("      tptir.return\n");
    reveal_strlit("  }\n}\n");
    reveal_strlit("      ");
    reveal_strlit("module {");
    reveal_strlit("func.func @");
    reveal_strlit("^entry:");
    reveal_strlit("\"augur.");
    let ql = crate::codegen::quoted_list(priors);
    let region = crate::codegen::region_text(ops, pad);
    let a = entry + l2 + ql + l3 + hardware + l4;
    let r2 = region + l6 + l7;
    let t = crate::codegen::tptir_text(ops, priors, entry, hardware);
    assert(t =~= h + a + l5 + r2);
    // The pieces after the header hold no `@`, no `^` but the entry's, and no `e {`.
    lemma_plain(entry);
    lemma_plain(hardware);
    lemma_quoted_free(priors);
    lemma_brace_free(ql);
    assert(good(l2) && right_ok(l2));
    assert(brace_free(l3));
    lemma_brace_free(l3);
    assert(good(l4) && right_ok(l4));
    lemma_cat(entry, l2);
    lemma_cat(entry + l2, ql);
    lemma_cat(entry + l2 + ql, l3);
    lemma_cat(entry + l2 + ql + l3, hardware);
    lemma_cat(entry + l2 + ql + l3 + hardware, l4);
    assert(indent(pad));
    lemma_region_good(ops, pad);
    assert(brace_free(l6) && brace_free(l7));
    lemma_brace_free(l6);
    lemma_brace_free(l7);
    lemma_cat(region, l6);
    lemma_cat(region + l6, l7);
    assert(no_win(l5) && right_ok(l5));
    lemma_cat_win(a, l5);
    lemma_cat_win(a + l5, r2);
    let tail = a + l5 + r2;
    assert(t =~= h + tail);
    let hl = h.len() as int;
    assert(hl == 22);
    let ke = hl + a.len() + 4;
    // `module {` stands once: its `e {` stands nowhere else.
    let pm = "module {"@;
    assert(t.subrange(0, 8) =~= pm);
    assert forall|x: int| 0 <= x && x + 3 <= t.len() && #[trigger] t.subrange(x, x + 3) == pm.subrange(5, 8) implies x == 5 by {
        assert(t.subrange(x, x + 3)[0] == t[x]);
        assert(t.subrange(x, x + 3)[1] == t[x + 1]);
        assert(t.subrange(x, x + 3)[2] == t[x + 2]);
        if x >= hl {
            assert(t[x] == tail[x - hl] && t[x + 1] == tail[x - hl + 1] && t[x + 2] == tail[x - hl + 2]);
        } else if x + 2 < hl {
            assert(t[x] == h[x] && t[x + 1] == h[x + 1] && t[x + 2] == h[x + 2]);
        } else {
            assert(t[x] == h[x]);
        }
    }
    lemma_count_one(t, pm, 0, 5, 3);
    // `func.func @` stands once: its `@` stands nowhere else.
    let pf = "func.func @"@;
    assert(t.subrange(11, 22) =~= pf);
    assert forall|x: int| 0 <= x && x + 1 <= t.len() && #[trigger] t.subrange(x, x + 1) == pf.subrange(10, 11) implies x == 21 by {
        assert(t.subrange(x, x + 1)[0] == t[x]);
        if x >= hl {
            assert(t[x] == tail[x - hl]);
            let y = x - hl;
            if y < a.len() {
                assert(tail[y] == a[y]);
            } else if y < a.len() + l5.len() {
                assert(tail[y] == l5[y - a.len()]);
            } else {
                assert(tail[y] == r2[y - a.len() - l5.len()]);
            }
        } else {
            assert(t[x] == h[x]);
        }
    }
    lemma_count_one(t, pf, 11, 10, 1);
    // `^entry:` stands once: its `^` stands nowhere else.
    let pe = "^entry:"@;
    assert(t.subrange(ke, ke + 7) =~= pe) by {
        assert forall|q: int| 0 <= q < 7 implies #[trigger] t.subrange(ke, ke + 7)[q] == pe[q] by {
            assert(t[ke + q] == tail[a.len() + 4 + q]);
            assert(tail[a.len() + 4 + q] == l5[4 + q]);
        }
    }
    assert forall|x: int| 0 <= x && x + 1 <= t.len() && #[trigger] t.subrange(x, x + 1) == pe.subrange(0, 1) implies x == ke by {
        assert(t.subrange(x, x + 1)[0] == t[x]);
        if x >= hl {
            assert(t[x] == tail[x - hl]);
            let y = x - hl;
            if y < a.len() {
                assert(tail[y] == a[y]);
            } else if y < a.len() + l5.len() {
                assert(tail[y] == l5[y - a.len()]);
            } else {
                assert(tail[y] == r2[y - a.len() - l5.len()]);
            }
        } else {
            assert(t[x] == h[x]);
        }
    }
    lemma_count_one(t, pe, ke, 0, 1);
    // The last op names an `augur.*` op.
    let head = crate::codegen::region_text(ops.drop_last(), pad);
    lemma_op_text_names_augur_op(ops.last(), pad);
    lemma_contains_within(crate::codegen::op_text(ops.last(), pad), head, seq![], "\"augur."@);
    assert(head + crate::codegen::op_text(ops.last(), pad) + seq![] =~= region);
    lemma_contains_within(region, h + a + l5, l6 + l7, "\"augur."@);
    assert(h + a + l5 + region + (l6 + l7) =~= t);
}

} // verus!
