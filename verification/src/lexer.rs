//! Lexer for the Augur language.
//!
//! The lexer is total: every character of the input is either part of a
//! token, skipped (whitespace other than newlines, comments), or reported in a
//! diagnostic. Number literals keep the exact text they were written with.
use vstd::prelude::*;
use crate::ast::Span;
use crate::diagnostics::{DiagV, Diagnostic, Severity, error_v};
use crate::util::{push_char, string_of_chars, chars_of};

verus! {

/// A lexical token.
#[derive(Debug, Clone, PartialEq)]
pub enum Tok {
    Let,
    Observe,
    If,
    Else,
    Tilde,
    Equals,
    Eq,
    Ne,
    Gt,
    Lt,
    Ge,
    Le,
    Plus,
    Minus,
    Star,
    Slash,
    LParen,
    RParen,
    LBrace,
    RBrace,
    Comma,
    /// A number literal, as written (digits with at most one `.`).
    Num(String),
    Ident(String),
    Newline,
    Eof,
}

/// The mathematical content of a [`Tok`].
pub enum TokV {
    Let,
    Observe,
    If,
    Else,
    Tilde,
    Equals,
    Eq,
    Ne,
    Gt,
    Lt,
    Ge,
    Le,
    Plus,
    Minus,
    Star,
    Slash,
    LParen,
    RParen,
    LBrace,
    RBrace,
    Comma,
    Num(Seq<char>),
    Ident(Seq<char>),
    Newline,
    Eof,
}

impl View for Tok {
    type V = TokV;

    open spec fn view(&self) -> TokV {
        match self {
            Tok::Let => TokV::Let,
            Tok::Observe => TokV::Observe,
            Tok::If => TokV::If,
            Tok::Else => TokV::Else,
            Tok::Tilde => TokV::Tilde,
            Tok::Equals => TokV::Equals,
            Tok::Eq => TokV::Eq,
            Tok::Ne => TokV::Ne,
            Tok::Gt => TokV::Gt,
            Tok::Lt => TokV::Lt,
            Tok::Ge => TokV::Ge,
            Tok::Le => TokV::Le,
            Tok::Plus => TokV::Plus,
            Tok::Minus => TokV::Minus,
            Tok::Star => TokV::Star,
            Tok::Slash => TokV::Slash,
            Tok::LParen => TokV::LParen,
            Tok::RParen => TokV::RParen,
            Tok::LBrace => TokV::LBrace,
            Tok::RBrace => TokV::RBrace,
            Tok::Comma => TokV::Comma,
            Tok::Num(s) => TokV::Num(s@),
            Tok::Ident(s) => TokV::Ident(s@),
            Tok::Newline => TokV::Newline,
            Tok::Eof => TokV::Eof,
        }
    }
}

/// A token with its position.
#[derive(Debug, Clone)]
pub struct Token {
    pub tok: Tok,
    pub span: Span,
}

/// The mathematical content of a [`Token`].
pub struct TokenV {
    pub tok: TokV,
    pub span: Span,
}

impl View for Token {
    type V = TokenV;

    open spec fn view(&self) -> TokenV {
        TokenV { tok: self.tok@, span: self.span }
    }
}

/// Views of a sequence of tokens.
pub open spec fn tokens_view(v: Seq<Token>) -> Seq<TokenV> {
    v.map_values(|t: Token| t@)
}

/// Views of a sequence of diagnostics.
pub open spec fn diags_view(v: Seq<Diagnostic>) -> Seq<DiagV> {
    v.map_values(|d: Diagnostic| d@)
}

// ---------------------------------------------------------------------------
// Character classes
// ---------------------------------------------------------------------------

/// `char::is_ascii_digit`.
pub open spec fn is_digit(c: char) -> bool {
    '0' <= c <= '9'
}

/// `char::is_ascii_alphabetic`.
pub open spec fn is_alpha(c: char) -> bool {
    ('a' <= c <= 'z') || ('A' <= c <= 'Z')
}

/// Characters that may continue an identifier.
pub open spec fn is_ident_char(c: char) -> bool {
    is_alpha(c) || is_digit(c) || c == '_'
}

/// `char::is_whitespace`: the Unicode `White_Space` property.
pub open spec fn is_whitespace(c: char) -> bool {
    ||| ('\t' <= c <= '\r')
    ||| c == ' '
    ||| c == '\u{85}'
    ||| c == '\u{a0}'
    ||| c == '\u{1680}'
    ||| ('\u{2000}' <= c <= '\u{200a}')
    ||| c == '\u{2028}'
    ||| c == '\u{2029}'
    ||| c == '\u{202f}'
    ||| c == '\u{205f}'
    ||| c == '\u{3000}'
}

fn exec_is_digit(c: char) -> (b: bool)
    ensures
        b == is_digit(c),
{
    '0' <= c && c <= '9'
}

fn exec_is_alpha(c: char) -> (b: bool)
    ensures
        b == is_alpha(c),
{
    ('a' <= c && c <= 'z') || ('A' <= c && c <= 'Z')
}

fn exec_is_whitespace(c: char) -> (b: bool)
    ensures
        b == is_whitespace(c),
{
    ('\t' <= c && c <= '\r') || c == ' ' || c == '\u{85}' || c == '\u{a0}' || c == '\u{1680}'
        || ('\u{2000}' <= c && c <= '\u{200a}') || c == '\u{2028}' || c == '\u{2029}'
        || c == '\u{202f}' || c == '\u{205f}' || c == '\u{3000}'
}

// ---------------------------------------------------------------------------
// Specification of lexing
// ---------------------------------------------------------------------------

/// End of a comment whose body starts at `j`: the next newline, or the end.
pub open spec fn comment_end(s: Seq<char>, j: int) -> int
    decreases s.len() - j,
{
    if j >= s.len() || s[j] == '\n' {
        j
    } else {
        comment_end(s, j + 1)
    }
}

/// End of a number literal whose remaining part starts at `j`, having seen
/// `dots` decimal points so far.
pub open spec fn number_end(s: Seq<char>, j: int, dots: int) -> int
    decreases s.len() - j,
{
    if j >= s.len() {
        j
    } else if is_digit(s[j]) {
        number_end(s, j + 1, dots)
    } else if s[j] == '.' && dots == 0 {
        number_end(s, j + 1, 1)
    } else {
        j
    }
}

/// End of an identifier whose remaining part starts at `j`.
pub open spec fn ident_end(s: Seq<char>, j: int) -> int
    decreases s.len() - j,
{
    if j < s.len() && is_ident_char(s[j]) {
        ident_end(s, j + 1)
    } else {
        j
    }
}

/// A keyword token, or an identifier.
pub open spec fn word_tok(w: Seq<char>) -> TokV {
    if w == "let"@ {
        TokV::Let
    } else if w == "observe"@ {
        TokV::Observe
    } else if w == "if"@ {
        TokV::If
    } else if w == "else"@ {
        TokV::Else
    } else {
        TokV::Ident(w)
    }
}

/// What the lexer does at one position.
pub enum Step {
    /// Emit a token spanning up to `end`.
    Emit(TokV, int),
    /// Report an error spanning up to `end`.
    Fail(Seq<char>, int),
    /// Produce nothing and continue at the given position.
    Skip(int),
}

/// Whether the character after `i` is `=`.
pub open spec fn next_is_eq(s: Seq<char>, i: int) -> bool {
    i + 1 < s.len() && s[i + 1] == '='
}

/// Whether a number literal starts at `i`.
pub open spec fn starts_number(s: Seq<char>, i: int) -> bool {
    is_digit(s[i]) || (s[i] == '.' && i + 1 < s.len() && is_digit(s[i + 1]))
}

/// The diagnostic text for a character that starts no token.
pub open spec fn unexpected_char_msg(c: char) -> Seq<char> {
    "unexpected character `"@ + seq![c] + "`"@
}

/// One lexing step at position `i` (with `0 <= i < s.len()`).
pub open spec fn step(s: Seq<char>, i: int) -> Step {
    let c = s[i];
    if is_whitespace(c) {
        if c == '\n' { Step::Emit(TokV::Newline, i + 1) } else { Step::Skip(i + 1) }
    } else if c == '#' {
        Step::Skip(comment_end(s, i + 1))
    } else if c == '~' {
        Step::Emit(TokV::Tilde, i + 1)
    } else if c == '=' {
        if next_is_eq(s, i) { Step::Emit(TokV::Eq, i + 2) } else { Step::Emit(TokV::Equals, i + 1) }
    } else if c == '!' {
        if next_is_eq(s, i) {
            Step::Emit(TokV::Ne, i + 2)
        } else {
            Step::Fail("unexpected character `!` (did you mean `!=`?)"@, i + 1)
        }
    } else if c == '>' {
        if next_is_eq(s, i) { Step::Emit(TokV::Ge, i + 2) } else { Step::Emit(TokV::Gt, i + 1) }
    } else if c == '<' {
        if next_is_eq(s, i) { Step::Emit(TokV::Le, i + 2) } else { Step::Emit(TokV::Lt, i + 1) }
    } else if c == '+' {
        Step::Emit(TokV::Plus, i + 1)
    } else if c == '-' {
        Step::Emit(TokV::Minus, i + 1)
    } else if c == '*' {
        Step::Emit(TokV::Star, i + 1)
    } else if c == '/' {
        Step::Emit(TokV::Slash, i + 1)
    } else if c == '(' {
        Step::Emit(TokV::LParen, i + 1)
    } else if c == ')' {
        Step::Emit(TokV::RParen, i + 1)
    } else if c == '{' {
        Step::Emit(TokV::LBrace, i + 1)
    } else if c == '}' {
        Step::Emit(TokV::RBrace, i + 1)
    } else if c == ',' {
        Step::Emit(TokV::Comma, i + 1)
    } else if starts_number(s, i) {
        let j = number_end(s, i + 1, if c == '.' { 1 } else { 0 });
        Step::Emit(TokV::Num(s.subrange(i, j)), j)
    } else if is_alpha(c) || c == '_' {
        let j = ident_end(s, i + 1);
        Step::Emit(word_tok(s.subrange(i, j)), j)
    } else {
        Step::Fail(unexpected_char_msg(c), i + 1)
    }
}

/// Where lexing continues after the step at `i`.
pub open spec fn step_next(st: Step) -> int {
    match st {
        Step::Emit(_, e) => e,
        Step::Fail(_, e) => e,
        Step::Skip(e) => e,
    }
}

/// The tokens and diagnostics produced from position `i` on.
pub open spec fn lex_from(s: Seq<char>, i: int) -> (Seq<TokenV>, Seq<DiagV>)
    decreases s.len() - i,
{
    if i < 0 || i >= s.len() {
        (seq![TokenV { tok: TokV::Eof, span: Span { start: s.len() as usize, end: s.len() as usize } }], seq![])
    } else {
        let st = step(s, i);
        let e = step_next(st);
        if e <= i || e > s.len() {
            (seq![], seq![])
        } else {
            let rest = lex_from(s, e);
            match st {
                Step::Emit(t, end) => (
                    seq![TokenV { tok: t, span: Span { start: i as usize, end: end as usize } }] + rest.0,
                    rest.1,
                ),
                Step::Fail(m, end) => (
                    rest.0,
                    seq![error_v(m, Span { start: i as usize, end: end as usize })] + rest.1,
                ),
                Step::Skip(_) => rest,
            }
        }
    }
}

/// The tokens and diagnostics of a whole source text.
pub open spec fn lex_spec(s: Seq<char>) -> (Seq<TokenV>, Seq<DiagV>) {
    lex_from(s, 0)
}

// ---------------------------------------------------------------------------
// Lemmas on the specification
// ---------------------------------------------------------------------------

proof fn lemma_comment_end(s: Seq<char>, j: int)
    requires
        0 <= j <= s.len(),
    ensures
        j <= comment_end(s, j) <= s.len(),
    decreases s.len() - j,
{
    if j < s.len() && s[j] != '\n' {
        lemma_comment_end(s, j + 1);
    }
}

proof fn lemma_number_end(s: Seq<char>, j: int, dots: int)
    requires
        0 <= j <= s.len(),
    ensures
        j <= number_end(s, j, dots) <= s.len(),
    decreases s.len() - j,
{
    if j < s.len() {
        if is_digit(s[j]) {
            lemma_number_end(s, j + 1, dots);
        } else if s[j] == '.' && dots == 0 {
            lemma_number_end(s, j + 1, 1);
        }
    }
}

proof fn lemma_ident_end(s: Seq<char>, j: int)
    requires
        0 <= j <= s.len(),
    ensures
        j <= ident_end(s, j) <= s.len(),
    decreases s.len() - j,
{
    if j < s.len() && is_ident_char(s[j]) {
        lemma_ident_end(s, j + 1);
    }
}

/// Every step advances, and never past the end of the input.
pub proof fn lemma_step_advances(s: Seq<char>, i: int)
    requires
        0 <= i < s.len(),
    ensures
        i < step_next(step(s, i)) <= s.len(),
        step(s, i) matches Step::Emit(_, e) ==> e == step_next(step(s, i)),
        step(s, i) matches Step::Fail(_, e) ==> e == step_next(step(s, i)),
{
    lemma_comment_end(s, i + 1);
    lemma_number_end(s, i + 1, 0);
    lemma_number_end(s, i + 1, 1);
    lemma_ident_end(s, i + 1);
}


/// Token streams as the lexer produces them from position `from` of an input
/// of length `n`: in source order, each token non-empty and inside the input,
/// and exactly one `Eof`, last, at the end of the input.
pub open spec fn tokens_well_formed(t: Seq<TokenV>, from: int, n: int) -> bool {
    &&& t.len() >= 1
    &&& t.last().tok is Eof
    &&& t.last().span == (Span { start: n as usize, end: n as usize })
    &&& forall|k: int|
        0 <= k < t.len() - 1 ==> {
            &&& from <= #[trigger] t[k].span.start < t[k].span.end <= n
            &&& !(t[k].tok is Eof)
        }
    &&& forall|j: int, k: int|
        0 <= j < k < t.len() ==> #[trigger] t[j].span.end <= #[trigger] t[k].span.start
}

proof fn lemma_lex_from_well_formed(s: Seq<char>, i: int)
    requires
        0 <= i <= s.len(),
        s.len() <= usize::MAX,
    ensures
        tokens_well_formed(lex_from(s, i).0, i, s.len() as int),
    decreases s.len() - i,
{
    if i < s.len() {
        lemma_step_advances(s, i);
        let st = step(s, i);
        let e = step_next(st);
        lemma_lex_from_well_formed(s, e);
        let rest = lex_from(s, e).0;
        let t = lex_from(s, i).0;
        match st {
            Step::Emit(tk, end) => {
                assert(t == seq![TokenV { tok: tk, span: Span { start: i as usize, end: end as usize } }] + rest);
                assert forall|k: int| 0 <= k < t.len() - 1 implies {
                    &&& i <= #[trigger] t[k].span.start < t[k].span.end <= s.len()
                    &&& !(t[k].tok is Eof)
                } by {
                    if k > 0 {
                        assert(t[k] == rest[k - 1]);
                    } else {
                        assert(!(tk is Eof));
                    }
                }
                assert forall|j: int, k: int| 0 <= j < k < t.len() implies
                    #[trigger] t[j].span.end <= #[trigger] t[k].span.start by {
                    assert(t[k] == rest[k - 1]);
                    if j > 0 {
                        assert(t[j] == rest[j - 1]);
                    } else if k - 1 < rest.len() - 1 {
                        assert(e <= rest[k - 1].span.start);
                    }
                }
            },
            _ => {},
        }
    }
}

/// The lexer's output is a well-formed token stream for the whole input.
pub proof fn lemma_lex_well_formed(s: Seq<char>)
    requires
        s.len() <= usize::MAX,
    ensures
        tokens_well_formed(lex_spec(s).0, 0, s.len() as int),
{
    lemma_lex_from_well_formed(s, 0);
}

// ---------------------------------------------------------------------------
// Executable lexer
// ---------------------------------------------------------------------------

fn exec_comment_end(s: &Vec<char>, j: usize) -> (e: usize)
    requires
        j <= s.len(),
    ensures
        e == comment_end(s@, j as int),
{
    let mut k = j;
    while k < s.len() && s[k] != '\n'
        invariant
            j <= k <= s.len(),
            comment_end(s@, j as int) == comment_end(s@, k as int),
        decreases s.len() - k,
    {
        k += 1;
    }
    k
}

fn exec_number_end(s: &Vec<char>, j: usize, dots0: usize) -> (e: usize)
    requires
        j <= s.len(),
        dots0 <= 1,
    ensures
        e == number_end(s@, j as int, dots0 as int),
{
    let mut k = j;
    let mut dots = dots0;
    while k < s.len()
        invariant
            j <= k <= s.len(),
            dots <= 1,
            number_end(s@, j as int, dots0 as int) == number_end(s@, k as int, dots as int),
        decreases s.len() - k,
    {
        let d = s[k];
        if exec_is_digit(d) {
            k += 1;
        } else if d == '.' && dots == 0 {
            dots = 1;
            k += 1;
        } else {
            return k;
        }
    }
    k
}

fn exec_ident_end(s: &Vec<char>, j: usize) -> (e: usize)
    requires
        j <= s.len(),
    ensures
        e == ident_end(s@, j as int),
{
    let mut k = j;
    while k < s.len() && (exec_is_alpha(s[k]) || exec_is_digit(s[k]) || s[k] == '_')
        invariant
            j <= k <= s.len(),
            ident_end(s@, j as int) == ident_end(s@, k as int),
        decreases s.len() - k,
    {
        k += 1;
    }
    k
}

/// Whether `s[i..j]` spells the word `w`.
fn spells(s: &Vec<char>, i: usize, j: usize, w: &str) -> (b: bool)
    requires
        i <= j <= s.len(),
    ensures
        b == (s@.subrange(i as int, j as int) == w@),
{
    let n = w.unicode_len();
    if j - i != n {
        return false;
    }
    let mut k: usize = 0;
    while k < n
        invariant
            i <= j <= s.len(),
            j - i == n == w@.len(),
            k <= n,
            forall|m: int| 0 <= m < k ==> s@[i + m] == w@[m],
        decreases n - k,
    {
        if s[i + k] != w.get_char(k) {
            assert(s@.subrange(i as int, j as int)[k as int] != w@[k as int]);
            return false;
        }
        k += 1;
    }
    assert(s@.subrange(i as int, j as int) =~= w@);
    true
}

fn exec_word_tok(s: &Vec<char>, i: usize, j: usize) -> (t: Tok)
    requires
        i <= j <= s.len(),
    ensures
        t@ == word_tok(s@.subrange(i as int, j as int)),
{
    if spells(s, i, j, "let") {
        Tok::Let
    } else if spells(s, i, j, "observe") {
        Tok::Observe
    } else if spells(s, i, j, "if") {
        Tok::If
    } else if spells(s, i, j, "else") {
        Tok::Else
    } else {
        Tok::Ident(string_of_chars(s, i, j))
    }
}

/// Lex a source text into tokens (always ending with [`Tok::Eof`]) and
/// diagnostics for characters that start no token.
pub fn lex(src: &str) -> (r: (Vec<Token>, Vec<Diagnostic>))
    ensures
        tokens_view(r.0@) == lex_spec(src@).0,
        diags_view(r.1@) == lex_spec(src@).1,
        tokens_well_formed(tokens_view(r.0@), 0, src@.len() as int),
{
    let bytes = chars_of(src);
    let n = bytes.len();
    let ghost s = bytes@;
    let mut tokens: Vec<Token> = Vec::new();
    let mut diags: Vec<Diagnostic> = Vec::new();
    let mut i: usize = 0;
    while i < n
        invariant
            s == bytes@,
            s == src@,
            n == s.len(),
            i <= n,
            lex_spec(s).0 == tokens_view(tokens@) + lex_from(s, i as int).0,
            lex_spec(s).1 == diags_view(diags@) + lex_from(s, i as int).1,
        decreases n - i,
    {
        proof {
            lemma_step_advances(s, i as int);
        }
        let c = bytes[i];
        let start = i;
        let ghost st = step(s, i as int);
        let ghost rest = lex_from(s, step_next(st));
        let ghost tv0 = tokens_view(tokens@);
        let ghost dv0 = diags_view(diags@);
        let mut emitted: Option<Tok> = None;
        let next: usize;
        if exec_is_whitespace(c) {
            if c == '\n' {
                emitted = Some(Tok::Newline);
            }
            next = i + 1;
        } else if c == '#' {
            next = exec_comment_end(&bytes, i + 1);
        } else if c == '~' {
            emitted = Some(Tok::Tilde);
            next = i + 1;
        } else if c == '=' {
            if i + 1 < n && bytes[i + 1] == '=' {
                emitted = Some(Tok::Eq);
                next = i + 2;
            } else {
                emitted = Some(Tok::Equals);
                next = i + 1;
            }
        } else if c == '!' {
            if i + 1 < n && bytes[i + 1] == '=' {
                emitted = Some(Tok::Ne);
                next = i + 2;
            } else {
                let d = Diagnostic {
                    severity: Severity::Error,
                    message: String::from_str("unexpected character `!` (did you mean `!=`?)"),
                    span: Span::new(start, i + 1),
                };
                diags.push(d);
                next = i + 1;
            }
        } else if c == '>' {
            if i + 1 < n && bytes[i + 1] == '=' {
                emitted = Some(Tok::Ge);
                next = i + 2;
            } else {
                emitted = Some(Tok::Gt);
                next = i + 1;
            }
        } else if c == '<' {
            if i + 1 < n && bytes[i + 1] == '=' {
                emitted = Some(Tok::Le);
                next = i + 2;
            } else {
                emitted = Some(Tok::Lt);
                next = i + 1;
            }
        } else if c == '+' {
            emitted = Some(Tok::Plus);
            next = i + 1;
        } else if c == '-' {
            emitted = Some(Tok::Minus);
            next = i + 1;
        } else if c == '*' {
            emitted = Some(Tok::Star);
            next = i + 1;
        } else if c == '/' {
            emitted = Some(Tok::Slash);
            next = i + 1;
        } else if c == '(' {
            emitted = Some(Tok::LParen);
            next = i + 1;
        } else if c == ')' {
            emitted = Some(Tok::RParen);
            next = i + 1;
        } else if c == '{' {
            emitted = Some(Tok::LBrace);
            next = i + 1;
        } else if c == '}' {
            emitted = Some(Tok::RBrace);
            next = i + 1;
        } else if c == ',' {
            emitted = Some(Tok::Comma);
            next = i + 1;
        } else if exec_is_digit(c) || (c == '.' && i + 1 < n && exec_is_digit(bytes[i + 1])) {
            let j = exec_number_end(&bytes, i + 1, if c == '.' { 1 } else { 0 });
            emitted = Some(Tok::Num(string_of_chars(&bytes, i, j)));
            next = j;
        } else if exec_is_alpha(c) || c == '_' {
            let j = exec_ident_end(&bytes, i + 1);
            emitted = Some(exec_word_tok(&bytes, i, j));
            next = j;
        } else {
            let mut m = String::from_str("unexpected character `");
            push_char(&mut m, c);
            m.append("`");
            assert(m@ =~= unexpected_char_msg(c));
            diags.push(Diagnostic { severity: Severity::Error, message: m, span: Span::new(start, i + 1) });
            next = i + 1;
        }
        match emitted {
            Some(t) => {
                tokens.push(Token { tok: t, span: Span::new(start, next) });
            },
            None => {},
        }
        proof {
            assert(next as int == step_next(st));
            assert(tokens_view(tokens@) =~= tv0 + (match st {
                Step::Emit(t, end) => seq![TokenV { tok: t, span: Span { start: i as usize, end: end as usize } }],
                _ => seq![],
            }));
            assert(diags_view(diags@) =~= dv0 + (match st {
                Step::Fail(m, end) => seq![error_v(m, Span { start: i as usize, end: end as usize })],
                _ => seq![],
            }));
        }
        i = next;
    }
    tokens.push(Token { tok: Tok::Eof, span: Span::new(n, n) });
    proof {
        assert(tokens_view(tokens@) =~= lex_spec(s).0);
        lemma_lex_well_formed(s);
        assert(diags_view(diags@) =~= lex_spec(s).1);
    }
    (tokens, diags)
}

} // verus!
