//! Language-server support: the diagnostics of a document with their LSP
//! positions, the inference graph as DOT, and hover documentation for
//! distribution constructors, all derived from the parser and the checker.
use vstd::prelude::*;
use crate::diagnostics::{DiagV, Severity};
use crate::lexer::{lex, lex_spec, Tok, TokV, TokenV, tokens_view};
use crate::parser::{parse, parse_spec};
use crate::lower::{lower, low_stmts, ldiags_view, LDiagV, items_v};
use crate::builder::{build_graph, ids_suffice, b_stmts, no_errors, lemma_accepted_program_builds};
use crate::graphviz::{to_dot, dot_text};
use crate::dialect::ops_v;

verus! {

// ---------------------------------------------------------------------------
// Hover documentation
// ---------------------------------------------------------------------------

/// The hover documentation of a distribution constructor.
pub open spec fn doc_of(name: Seq<char>) -> Option<Seq<char>> {
    if name == "Normal"@ {
        Some("**Normal(μ, σ)** — Gaussian prior.\n- μ: mean\n- σ: standard deviation (σ > 0)"@)
    } else if name == "HalfNormal"@ {
        Some("**HalfNormal(σ)** — half-Gaussian, support [0, ∞).\n- σ: scale (σ > 0)"@)
    } else if name == "Beta"@ {
        Some("**Beta(α, β)** — support (0, 1), conjugate to Bernoulli/Binomial.\n- α, β > 0"@)
    } else if name == "Gamma"@ {
        Some("**Gamma(α, β)** — support (0, ∞).\n- α: shape, β: rate (both > 0)"@)
    } else if name == "Uniform"@ {
        Some("**Uniform(lo, hi)** — support [lo, hi].\n- requires lo < hi"@)
    } else if name == "Exponential"@ {
        Some("**Exponential(λ)** — support [0, ∞).\n- λ: rate (λ > 0)"@)
    } else if name == "Binomial"@ {
        Some("**Binomial(n, p)** — counts in n trials.\n- n ≥ 0, p ∈ [0, 1]"@)
    } else if name == "Poisson"@ {
        Some("**Poisson(λ)** — count prior.\n- λ > 0"@)
    } else if name == "Bernoulli"@ {
        Some("**Bernoulli(p)** — binary prior.\n- p ∈ [0, 1]"@)
    } else {
        None
    }
}

/// The hover documentation of a distribution constructor, if `name` is one.
pub fn distribution_doc(name: &str) -> (r: Option<&'static str>)
    ensures
        match r {
            Some(d) => doc_of(name@) == Some(d@),
            None => doc_of(name@) is None,
        },
{
    if crate::util::str_eq(name, "Normal") {
        Some("**Normal(μ, σ)** — Gaussian prior.\n- μ: mean\n- σ: standard deviation (σ > 0)")
    } else if crate::util::str_eq(name, "HalfNormal") {
        Some("**HalfNormal(σ)** — half-Gaussian, support [0, ∞).\n- σ: scale (σ > 0)")
    } else if crate::util::str_eq(name, "Beta") {
        Some("**Beta(α, β)** — support (0, 1), conjugate to Bernoulli/Binomial.\n- α, β > 0")
    } else if crate::util::str_eq(name, "Gamma") {
        Some("**Gamma(α, β)** — support (0, ∞).\n- α: shape, β: rate (both > 0)")
    } else if crate::util::str_eq(name, "Uniform") {
        Some("**Uniform(lo, hi)** — support [lo, hi].\n- requires lo < hi")
    } else if crate::util::str_eq(name, "Exponential") {
        Some("**Exponential(λ)** — support [0, ∞).\n- λ: rate (λ > 0)")
    } else if crate::util::str_eq(name, "Binomial") {
        Some("**Binomial(n, p)** — counts in n trials.\n- n ≥ 0, p ∈ [0, 1]")
    } else if crate::util::str_eq(name, "Poisson") {
        Some("**Poisson(λ)** — count prior.\n- λ > 0")
    } else if crate::util::str_eq(name, "Bernoulli") {
        Some("**Bernoulli(p)** — binary prior.\n- p ∈ [0, 1]")
    } else {
        None
    }
}

/// Whether a token covers the offset and names a documented distribution.
pub open spec fn hover_hit(t: TokenV, off: usize) -> bool {
    &&& t.span.start <= off < t.span.end
    &&& t.tok matches TokV::Ident(n) && doc_of(n) is Some
}

/// The documentation of the first token that covers `off` and names a
/// documented distribution.
pub open spec fn hover_spec(ts: Seq<TokenV>, off: usize) -> Option<Seq<char>>
    decreases ts.len(),
{
    if ts.len() == 0 {
        None
    } else if hover_hit(ts[0], off) {
        match ts[0].tok {
            TokV::Ident(n) => doc_of(n),
            _ => None,
        }
    } else {
        hover_spec(ts.drop_first(), off)
    }
}

/// The view of an optional string.
pub open spec fn opt_text(r: Option<String>) -> Option<Seq<char>> {
    match r {
        Some(s) => Some(s@),
        None => None,
    }
}

/// Hover documentation for the distribution constructor at `char_offset`, if
/// the cursor sits on one.
pub fn hover_at(src: &str, char_offset: usize) -> (r: Option<String>)
    ensures
        opt_text(r) == hover_spec(lex_spec(src@).0, char_offset),
{
    let (tokens, _) = lex(src);
    let ghost tv = tokens_view(tokens@);
    let mut i: usize = 0;
    proof {
        assert(tv.skip(0) =~= tv);
    }
    while i < tokens.len()
        invariant
            i <= tokens@.len(),
            tv == tokens_view(tokens@),
            tv == lex_spec(src@).0,
            tv.len() == tokens@.len(),
            hover_spec(tv, char_offset) == hover_spec(tv.skip(i as int), char_offset),
        decreases tokens.len() - i,
    {
        let tok = &tokens[i];
        proof {
            assert(tv[i as int] == tok@);
            assert(tv.skip(i as int)[0] == tv[i as int]);
            assert(tv.skip(i as int).drop_first() =~= tv.skip(i + 1));
        }
        if tok.span.start <= char_offset && char_offset < tok.span.end {
            if let Tok::Ident(name) = &tok.tok {
                if let Some(doc) = distribution_doc(name.as_str()) {
                    proof {
                        assert(tok@.tok == TokV::Ident(name@));
                        assert(hover_hit(tv.skip(i as int)[0], char_offset));
                    }
                    return Some(String::from_str(doc));
                }
            }
        }
        i += 1;
    }
    None
}

// ---------------------------------------------------------------------------
// Positions
// ---------------------------------------------------------------------------

/// The number of UTF-16 code units of a character.
pub open spec fn utf16_len(c: char) -> nat {
    if (c as u32) < 0x10000 { 1 } else { 2 }
}

/// The number of UTF-16 code units of a text.
pub open spec fn utf16_width(s: Seq<char>) -> nat
    decreases s.len(),
{
    if s.len() == 0 {
        0
    } else {
        utf16_width(s.drop_last()) + utf16_len(s.last())
    }
}

/// The 0-based line and the UTF-16 column of the end of a text.
pub open spec fn end_position(s: Seq<char>) -> (nat, nat)
    decreases s.len(),
{
    if s.len() == 0 {
        (0, 0)
    } else if s.last() == '\n' {
        (end_position(s.drop_last()).0 + 1, 0)
    } else {
        (end_position(s.drop_last()).0, end_position(s.drop_last()).1 + utf16_len(s.last()))
    }
}

/// The LSP position (0-based line, UTF-16 column) of a character offset,
/// offsets past the end standing for the end.
pub open spec fn position(s: Seq<char>, offset: nat) -> (nat, nat) {
    end_position(s.take(if offset < s.len() { offset as int } else { s.len() as int }))
}

proof fn lemma_end_position_bound(s: Seq<char>)
    ensures
        end_position(s).0 <= s.len(),
        end_position(s).1 <= 2 * s.len(),
    decreases s.len(),
{
    if s.len() > 0 {
        lemma_end_position_bound(s.drop_last());
    }
}

fn char_utf16_len(c: char) -> (n: u32)
    ensures
        n == utf16_len(c),
{
    if (c as u32) < 0x10000 { 1 } else { 2 }
}

/// A position whose line and column fit LSP's `u32` fields.
pub open spec fn fits_u32(p: (nat, nat)) -> bool {
    p.0 <= u32::MAX && p.1 <= u32::MAX
}

/// Every position of a text fits LSP's `u32` fields.
pub open spec fn positions_fit(s: Seq<char>) -> bool {
    forall|k: nat| k <= s.len() ==> #[trigger] fits_u32(position(s, k))
}

/// Converts a character offset into an LSP position: 0-based line and
/// UTF-16 code-unit column.
pub fn position_at(src: &str, offset: usize) -> (r: (u32, u32))
    requires
        fits_u32(position(src@, offset as nat)),
    ensures
        r.0 == position(src@, offset as nat).0,
        r.1 == position(src@, offset as nat).1,
{
    let chars = crate::util::chars_of(src);
    let target: usize = if offset < chars.len() { offset } else { chars.len() };
    let mut line: u128 = 0;
    let mut col: u128 = 0;
    let mut i: usize = 0;
    while i < target
        invariant
            chars@ == src@,
            target <= chars@.len(),
            i <= target,
            line == end_position(chars@.take(i as int)).0,
            col == end_position(chars@.take(i as int)).1,
        decreases target - i,
    {
        proof {
            assert(chars@.take(i + 1).drop_last() =~= chars@.take(i as int));
            assert(chars@.take(i + 1).last() == chars@[i as int]);
            lemma_end_position_bound(chars@.take(i as int));
        }
        if chars[i] == '\n' {
            line = line + 1;
            col = 0;
        } else {
            col = col + char_utf16_len(chars[i]) as u128;
        }
        i += 1;
    }
    proof {
        assert(chars@.take(target as int) == src@.take(if (offset as nat) < src@.len() { offset as int } else { src@.len() as int }));
    }
    (line as u32, col as u32)
}

/// Whether every position of a text fits LSP's `u32` fields.
pub fn fits_positions(src: &str) -> (b: bool)
    ensures
        b == positions_fit(src@),
{
    let chars = crate::util::chars_of(src);
    let ghost s = chars@;
    let mut line: u128 = 0;
    let mut col: u128 = 0;
    let mut i: usize = 0;
    while i < chars.len()
        invariant
            s == chars@,
            s == src@,
            i <= s.len(),
            line == end_position(s.take(i as int)).0,
            col == end_position(s.take(i as int)).1,
            forall|k: nat| k < i ==> #[trigger] fits_u32(position(s, k)),
        decreases chars.len() - i,
    {
        proof {
            assert(position(s, i as nat) == end_position(s.take(i as int)));
        }
        if line > u32::MAX as u128 || col > u32::MAX as u128 {
            proof {
                assert(!fits_u32(position(s, i as nat)));
            }
            return false;
        }
        proof {
            assert(s.take(i + 1).drop_last() =~= s.take(i as int));
            assert(s.take(i + 1).last() == s[i as int]);
            lemma_end_position_bound(s.take(i as int));
        }
        if chars[i] == '\n' {
            line = line + 1;
            col = 0;
        } else {
            col = col + char_utf16_len(chars[i]) as u128;
        }
        i += 1;
    }
    proof {
        assert(position(s, s.len()) == end_position(s.take(s.len() as int)));
    }
    if line > u32::MAX as u128 || col > u32::MAX as u128 {
        proof {
            assert(!fits_u32(position(s, s.len())));
        }
        return false;
    }
    proof {
        assert(position(s, s.len()) == end_position(s.take(s.len() as int)));
        assert forall|k: nat| k <= s.len() implies #[trigger] fits_u32(position(s, k)) by {
            if k == s.len() {
                assert(position(s, k) == end_position(s.take(s.len() as int)));
            }
        }
    }
    true
}

// ---------------------------------------------------------------------------
// Document diagnostics
// ---------------------------------------------------------------------------

/// A diagnostic with its LSP range.
#[derive(Debug, Clone, PartialEq)]
pub struct LspDiagnostic {
    pub message: String,
    /// Reported as an error (LSP severity 1) rather than a warning (2).
    pub is_error: bool,
    pub start_line: u32,
    pub start_character: u32,
    pub end_line: u32,
    pub end_character: u32,
}

/// The mathematical content of an [`LspDiagnostic`].
pub struct LspDiagV {
    pub message: Seq<char>,
    pub is_error: bool,
    pub start: (nat, nat),
    pub end: (nat, nat),
}

/// The view of a sequence of LSP diagnostics.
pub open spec fn lsp_view(v: Seq<LspDiagnostic>) -> Seq<LspDiagV> {
    v.map_values(|d: LspDiagnostic| LspDiagV {
        message: d.message@,
        is_error: d.is_error,
        start: (d.start_line as nat, d.start_character as nat),
        end: (d.end_line as nat, d.end_character as nat),
    })
}

/// A diagnostic over `start..end` in `src` (an end before the start stands
/// for the start).
pub open spec fn lsp_of(src: Seq<char>, message: Seq<char>, is_error: bool, start: usize, end: usize) -> LspDiagV {
    LspDiagV {
        message,
        is_error,
        start: position(src, start as nat),
        end: position(src, if end < start { start as nat } else { end as nat }),
    }
}

/// Whether a parse diagnostic is an error.
pub open spec fn parse_failed(d: Seq<DiagV>) -> bool {
    exists|i: int| 0 <= i < d.len() && #[trigger] d[i].severity == Severity::Error
}

/// The diagnostics of a document: those of parsing, then, when parsing
/// raised no error, those of type-checking.
pub open spec fn document_spec(src: Seq<char>) -> Seq<LspDiagV> {
    let (prog, pd) = parse_spec(src);
    let a = pd.map_values(|d: DiagV| lsp_of(src, d.message, d.severity == Severity::Error, d.span.start, d.span.end));
    if parse_failed(pd) {
        a
    } else {
        a + low_stmts(prog, seq![]).d.map_values(
            |d: LDiagV| lsp_of(src, d.message, d.severity == crate::lower::Severity::Error, d.span.start, d.span.end),
        )
    }
}

/// An offset past the end stands for the end.
proof fn lemma_position_clamp(s: Seq<char>, k: nat)
    requires
        positions_fit(s),
    ensures
        fits_u32(position(s, k)),
{
    if k > s.len() {
        assert(position(s, k) == position(s, s.len()));
        assert(fits_u32(position(s, s.len())));
    } else {
        assert(fits_u32(position(s, k)));
    }
}

fn lsp_diag(src: &str, message: &String, is_error: bool, start: usize, end: usize) -> (r: LspDiagnostic)
    requires
        positions_fit(src@),
    ensures
        lsp_view(seq![r])[0] == lsp_of(src@, message@, is_error, start, end),
{
    proof {
        lemma_position_clamp(src@, start as nat);
    }
    let (sl, sc) = position_at(src, start);
    let e = if end < start { start } else { end };
    proof {
        lemma_position_clamp(src@, e as nat);
    }
    let (el, ec) = position_at(src, e);
    LspDiagnostic {
        message: message.clone(),
        is_error,
        start_line: sl,
        start_character: sc,
        end_line: el,
        end_character: ec,
    }
}

fn push_lsp(out: &mut Vec<LspDiagnostic>, d: LspDiagnostic)
    ensures
        lsp_view(final(out)@) == lsp_view(old(out)@).push(lsp_view(seq![d])[0]),
{
    let ghost before = out@;
    out.push(d);
    proof {
        assert(lsp_view(out@) =~= lsp_view(before).push(lsp_view(seq![d])[0]));
    }
}

/// The diagnostics of a document with their LSP ranges: parse diagnostics,
/// then, when the parse is clean, the type-checking diagnostics.
pub fn document_diagnostics(src: &str) -> (r: Vec<LspDiagnostic>)
    requires
        positions_fit(src@),
    ensures
        lsp_view(r@) == document_spec(src@),
{
    let parsed = parse(src);
    let ghost pd = parse_spec(src@).1;
    let ghost pa = pd.map_values(|d: DiagV| lsp_of(src@, d.message, d.severity == Severity::Error, d.span.start, d.span.end));
    let mut out: Vec<LspDiagnostic> = Vec::new();
    let mut i: usize = 0;
    while i < parsed.diagnostics.len()
        invariant
            positions_fit(src@),
            i <= parsed.diagnostics@.len(),
            crate::lexer::diags_view(parsed.diagnostics@) == pd,
            pa == pd.map_values(|d: DiagV| lsp_of(src@, d.message, d.severity == Severity::Error, d.span.start, d.span.end)),
            lsp_view(out@) == pa.take(i as int),
        decreases parsed.diagnostics.len() - i,
    {
        let d = &parsed.diagnostics[i];
        proof {
            assert(pd[i as int] == d@);
        }
        let l = lsp_diag(src, &d.message, d.severity == Severity::Error, d.span.start, d.span.end);
        push_lsp(&mut out, l);
        proof {
            assert(lsp_view(out@) =~= pa.take(i + 1));
        }
        i += 1;
    }
    proof {
        assert(pa.take(pd.len() as int) =~= pa);
    }
    if parsed.has_errors() {
        proof {
            let j = choose|j: int| 0 <= j < parsed.diagnostics@.len() && #[trigger] parsed.diagnostics@[j].severity == Severity::Error;
            assert(pd[j] == parsed.diagnostics@[j]@);
            assert(pd[j].severity == Severity::Error);
        }
        return out;
    }
    proof {
        if parse_failed(pd) {
            let j = choose|j: int| 0 <= j < pd.len() && #[trigger] pd[j].severity == Severity::Error;
            assert(parsed.diagnostics@[j]@ == pd[j]);
        }
    }
    let lowered = lower(&parsed.program);
    let ghost ld = low_stmts(parse_spec(src@).0, seq![]).d;
    let ghost la = ld.map_values(
        |d: LDiagV| lsp_of(src@, d.message, d.severity == crate::lower::Severity::Error, d.span.start, d.span.end),
    );
    let mut k: usize = 0;
    while k < lowered.diagnostics.len()
        invariant
            positions_fit(src@),
            k <= lowered.diagnostics@.len(),
            ldiags_view(lowered.diagnostics@) == ld,
            la == ld.map_values(
                |d: LDiagV| lsp_of(src@, d.message, d.severity == crate::lower::Severity::Error, d.span.start, d.span.end),
            ),
            lsp_view(out@) == pa + la.take(k as int),
        decreases lowered.diagnostics.len() - k,
    {
        let d = &lowered.diagnostics[k];
        proof {
            assert(ld[k as int] == d@);
        }
        let l = lsp_diag(src, &d.message, d.is_error(), d.span.start, d.span.end);
        push_lsp(&mut out, l);
        proof {
            assert(lsp_view(out@) =~= pa + la.take(k + 1));
        }
        k += 1;
    }
    proof {
        assert(la.take(ld.len() as int) =~= la);
    }
    out
}

// ---------------------------------------------------------------------------
// Inference graph
// ---------------------------------------------------------------------------

/// The DOT text of a source's inference graph, when it parses and
/// type-checks cleanly and its values fit SSA ids.
pub open spec fn graph_text(src: Seq<char>) -> Option<Seq<char>> {
    let (prog, pd) = parse_spec(src);
    if !parse_failed(pd) && no_errors(low_stmts(prog, seq![]).d) && b_stmts(prog, seq![], 0).next <= u32::MAX {
        Some(dot_text(b_stmts(prog, seq![], 0).ops))
    } else {
        None
    }
}

/// Builds the inference graph of `src` as DOT, or `None` when the program
/// does not parse or type-check cleanly (or has more values than SSA ids).
pub fn inference_graph_dot(src: &str) -> (r: Option<String>)
    ensures
        ({
            let (prog, pd) = parse_spec(src@);
            let ok = !parse_failed(pd) && no_errors(low_stmts(prog, seq![]).d)
                && b_stmts(prog, seq![], 0).next <= u32::MAX;
            &&& (r is Some <==> ok)
            &&& (r matches Some(d) ==> d@ == dot_text(b_stmts(prog, seq![], 0).ops))
        }),
        opt_text(r) == graph_text(src@),
{
    let parsed = parse(src);
    let ghost pd = parse_spec(src@).1;
    let ghost prog = parse_spec(src@).0;
    if parsed.has_errors() {
        proof {
            let j = choose|j: int| 0 <= j < parsed.diagnostics@.len() && #[trigger] parsed.diagnostics@[j].severity == Severity::Error;
            assert(pd[j] == parsed.diagnostics@[j]@);
            assert(pd[j].severity == Severity::Error);
            assert(parse_failed(pd));
        }
        return None;
    }
    proof {
        if parse_failed(pd) {
            let j = choose|j: int| 0 <= j < pd.len() && #[trigger] pd[j].severity == Severity::Error;
            assert(parsed.diagnostics@[j]@ == pd[j]);
        }
    }
    let lowered = lower(&parsed.program);
    let ghost ld = low_stmts(prog, seq![]).d;
    let mut i: usize = 0;
    while i < lowered.diagnostics.len()
        invariant
            i <= lowered.diagnostics@.len(),
            ldiags_view(lowered.diagnostics@) == ld,
            ld == low_stmts(prog, seq![]).d,
            prog == parse_spec(src@).0,
            forall|j: int| 0 <= j < i ==> (#[trigger] ld[j]).severity != crate::lower::Severity::Error,
        decreases lowered.diagnostics.len() - i,
    {
        proof {
            assert(ld[i as int] == lowered.diagnostics@[i as int]@);
        }
        if lowered.diagnostics[i].is_error() {
            proof {
                assert(ld[i as int].severity == crate::lower::Severity::Error);
                assert(!no_errors(ld));
            }
            return None;
        }
        i += 1;
    }
    if !ids_suffice(&lowered.model) {
        return None;
    }
    proof {
        lemma_accepted_program_builds(prog);
    }
    let graph = build_graph(&lowered.model);
    Some(to_dot(&graph))
}

} // verus!
