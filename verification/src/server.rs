//! The decisions of the language server: the open documents, and for each
//! request what to answer or publish. Reading and writing the JSON-RPC
//! messages is the caller's part; it hands over a [`Request`] and carries out
//! the [`Action`] it gets back.
use vstd::prelude::*;
use crate::lsp::{
    positions_fit, fits_positions,
    document_diagnostics, document_spec, end_position, graph_text, hover_at, hover_spec, inference_graph_dot,
    lsp_view, opt_text, LspDiagnostic, LspDiagV,
};
use crate::lexer::lex_spec;

verus! {

/// An edit of a document: its new text, and the range it replaces (start
/// and end as line and UTF-16 column) when it is not the whole document.
#[derive(Debug, Clone, PartialEq)]
pub struct Change {
    pub text: Option<String>,
    pub range: Option<((u32, u32), (u32, u32))>,
}

/// A request or notification of the client.
#[derive(Debug, Clone, PartialEq)]
pub enum Request {
    Initialize,
    Initialized,
    Shutdown,
    Exit,
    DidOpen { uri: String, text: String },
    DidChange { uri: String, change: Option<Change> },
    DidSave { uri: String },
    Hover { uri: String, line: u32, character: u32 },
    InferenceGraph { uri: String },
    Other { method: String, has_id: bool },
}

/// The result of a request.
#[derive(Debug, Clone, PartialEq)]
pub enum Reply {
    /// The server's capabilities.
    Capabilities,
    Null,
    /// Hover documentation, as markdown.
    Hover(String),
    /// The inference graph, as DOT.
    Graph(String),
    /// The method is not known.
    MethodNotFound(String),
}

/// What the caller does next.
#[derive(Debug, Clone, PartialEq)]
pub enum Action {
    Respond(Reply),
    Publish { uri: String, diagnostics: Vec<LspDiagnostic> },
    Exit(i32),
    Nothing,
}

/// The open documents and whether shutdown was requested.
pub struct Server {
    documents: Vec<(String, String)>,
    shutdown: bool,
}

// ---------------------------------------------------------------------------
// Positions back to offsets, and edits
// ---------------------------------------------------------------------------

/// Whether the search for `(line, character)` stops at `idx`: the position
/// of `idx` is on the line and at or past the column, or ends that line.
pub open spec fn stops_at(s: Seq<char>, line: nat, character: nat, idx: int) -> bool {
    let p = end_position(s.take(idx));
    p.0 == line && (p.1 >= character || s[idx] == '\n')
}

/// The first offset from `i` on where the search stops, else the length.
pub open spec fn first_stop(s: Seq<char>, line: nat, character: nat, i: int) -> int
    decreases s.len() - i,
{
    if i < 0 || i >= s.len() {
        s.len() as int
    } else if stops_at(s, line, character, i) {
        i
    } else {
        first_stop(s, line, character, i + 1)
    }
}

/// The character offset of an LSP position: the first character at or past
/// the column on the line (the line's end when the column is past it), the
/// end of the text when the line is past the last.
pub open spec fn offset_of(s: Seq<char>, line: nat, character: nat) -> int {
    first_stop(s, line, character, 0)
}

proof fn lemma_first_stop_bounds(s: Seq<char>, line: nat, character: nat, i: int)
    requires
        0 <= i,
    ensures
        (if i <= s.len() { i } else { s.len() as int }) <= first_stop(s, line, character, i) <= s.len(),
    decreases s.len() - i,
{
    if i < s.len() && !stops_at(s, line, character, i) {
        lemma_first_stop_bounds(s, line, character, i + 1);
    }
}

proof fn lemma_end_position_bound(s: Seq<char>)
    ensures
        end_position(s).0 <= s.len(),
        end_position(s).1 <= 2 * s.len(),
    decreases s.len(),
{
    if s.len() > 0 {
        lemma_end_position_bound(s.drop_last());
    }
}

/// Maps an LSP position (line, UTF-16 column) to a character offset.
pub fn position_to_offset(src: &str, line: u32, character: u32) -> (r: usize)
    ensures
        r == offset_of(src@, line as nat, character as nat),
{
    let chars = crate::util::chars_of(src);
    let ghost s = chars@;
    let mut cur_line: u128 = 0;
    let mut unit: u128 = 0;
    let mut idx: usize = 0;
    while idx < chars.len()
        invariant
            s == chars@,
            s == src@,
            idx <= s.len(),
            cur_line == end_position(s.take(idx as int)).0,
            unit == end_position(s.take(idx as int)).1,
            offset_of(s, line as nat, character as nat) == first_stop(s, line as nat, character as nat, idx as int),
        decreases chars.len() - idx,
    {
        let c = chars[idx];
        if cur_line == line as u128 && unit >= character as u128 {
            return idx;
        }
        if c == '\n' {
            if cur_line == line as u128 {
                return idx;
            }
        }
        proof {
            assert(s.take(idx + 1).drop_last() =~= s.take(idx as int));
            assert(s.take(idx + 1).last() == s[idx as int]);
            lemma_end_position_bound(s.take(idx as int));
        }
        if c == '\n' {
            cur_line = cur_line + 1;
            unit = 0;
        } else {
            unit = unit + (if (c as u32) < 0x10000 { 1u128 } else { 2u128 });
        }
        idx += 1;
    }
    chars.len()
}

proof fn lemma_position_step(s: Seq<char>, i: int)
    requires
        0 <= i < s.len(),
    ensures
        end_position(s.take(i + 1)) == (if s[i] == '\n' {
            (end_position(s.take(i)).0 + 1, 0nat)
        } else {
            (end_position(s.take(i)).0, end_position(s.take(i)).1 + crate::lsp::utf16_len(s[i]))
        }),
{
    assert(s.take(i + 1).drop_last() =~= s.take(i));
    assert(s.take(i + 1).last() == s[i]);
}

/// Positions only move forward: an earlier offset is on an earlier line, or
/// on the same line at a smaller column and not on a line break.
proof fn lemma_position_increases(s: Seq<char>, i: int, j: int)
    requires
        0 <= i < j <= s.len(),
    ensures
        ({
            let pi = end_position(s.take(i));
            let pj = end_position(s.take(j));
            pi.0 < pj.0 || (pi.0 == pj.0 && pi.1 < pj.1 && s[i] != '\n')
        }),
    decreases j - i,
{
    lemma_position_step(s, j - 1);
    if j > i + 1 {
        lemma_position_increases(s, i, j - 1);
    }
}

proof fn lemma_first_stop_at(s: Seq<char>, k: int, i: int)
    requires
        0 <= i <= k <= s.len(),
    ensures
        first_stop(s, end_position(s.take(k)).0, end_position(s.take(k)).1, i) == k,
    decreases k - i,
{
    let p = end_position(s.take(k));
    if i < k {
        lemma_position_increases(s, i, k);
        assert(!stops_at(s, p.0, p.1, i));
        lemma_first_stop_at(s, k, i + 1);
    }
}

/// Mapping an offset to its LSP position and back gives the offset again,
/// clamped to the end of the text: `position_to_offset` undoes
/// `position_at` on every offset.
pub proof fn lemma_position_round_trip(s: Seq<char>, k: nat)
    ensures
        offset_of(s, crate::lsp::position(s, k).0, crate::lsp::position(s, k).1) == (if k <= s.len() {
            k
        } else {
            s.len()
        }),
{
    if k <= s.len() {
        lemma_first_stop_at(s, k as int, 0);
    } else {
        assert(crate::lsp::position(s, k) == crate::lsp::position(s, s.len()));
        lemma_first_stop_at(s, s.len() as int, 0);
    }
}

/// A document after an edit.
pub open spec fn edited(current: Seq<char>, text: Option<Seq<char>>, range: Option<((u32, u32), (u32, u32))>) -> Seq<char> {
    match text {
        None => current,
        Some(t) => match range {
            None => t,
            Some(((sl, sc), (el, ec))) => {
                let so = offset_of(current, sl as nat, sc as nat);
                let eo = offset_of(current, el as nat, ec as nat);
                current.take(so) + t + current.skip(eo)
            },
        },
    }
}

/// Applies an edit to a document.
pub fn apply_change(current: &String, change: &Change) -> (r: String)
    ensures
        r@ == edited(current@, opt_text(change.text), change.range),
{
    match &change.text {
        None => current.clone(),
        Some(text) => match change.range {
            None => text.clone(),
            Some(((sl, sc), (el, ec))) => {
                let so = position_to_offset(current.as_str(), sl, sc);
                let eo = position_to_offset(current.as_str(), el, ec);
                proof {
                    lemma_first_stop_bounds(current@, sl as nat, sc as nat, 0);
                    lemma_first_stop_bounds(current@, el as nat, ec as nat, 0);
                }
                let chars = crate::util::chars_of(current.as_str());
                let mut next = crate::util::string_of_chars(&chars, 0, so);
                next.append(text.as_str());
                let tail = crate::util::string_of_chars(&chars, eo, chars.len());
                next.append(tail.as_str());
                proof {
                    assert(chars@.subrange(0, so as int) =~= current@.take(so as int));
                    assert(chars@.subrange(eo as int, chars@.len() as int) =~= current@.skip(eo as int));
                }
                next
            },
        },
    }
}

// ---------------------------------------------------------------------------
// The server
// ---------------------------------------------------------------------------

/// The text of document `uri`, if open.
pub open spec fn doc_get(docs: Seq<(Seq<char>, Seq<char>)>, uri: Seq<char>) -> Option<Seq<char>>
    decreases docs.len(),
{
    if docs.len() == 0 {
        None
    } else if docs.last().0 == uri {
        Some(docs.last().1)
    } else {
        doc_get(docs.drop_last(), uri)
    }
}

/// The diagnostics published for a document's text: those of
/// [`document_spec`], none for a text with a position beyond LSP's `u32`
/// lines and columns.
pub open spec fn published(text: Seq<char>) -> Seq<LspDiagV> {
    if positions_fit(text) { document_spec(text) } else { seq![] }
}

/// The view of a reply.
pub enum ReplyV {
    Capabilities,
    Null,
    Hover(Seq<char>),
    Graph(Seq<char>),
    MethodNotFound(Seq<char>),
}

/// The view of an action.
pub enum ActionV {
    Respond(ReplyV),
    Publish { uri: Seq<char>, diagnostics: Seq<LspDiagV> },
    Exit(i32),
    Nothing,
}

/// The view of an action.
pub open spec fn action_v(a: Action) -> ActionV {
    match a {
        Action::Respond(r) => ActionV::Respond(match r {
            Reply::Capabilities => ReplyV::Capabilities,
            Reply::Null => ReplyV::Null,
            Reply::Hover(s) => ReplyV::Hover(s@),
            Reply::Graph(s) => ReplyV::Graph(s@),
            Reply::MethodNotFound(s) => ReplyV::MethodNotFound(s@),
        }),
        Action::Publish { uri, diagnostics } => ActionV::Publish { uri: uri@, diagnostics: lsp_view(diagnostics@) },
        Action::Exit(c) => ActionV::Exit(c),
        Action::Nothing => ActionV::Nothing,
    }
}

/// Publishing the diagnostics of `uri` among `docs`.
pub open spec fn publish_spec(docs: Seq<(Seq<char>, Seq<char>)>, uri: Seq<char>) -> ActionV {
    ActionV::Publish {
        uri,
        diagnostics: match doc_get(docs, uri) {
            Some(t) => published(t),
            None => seq![],
        },
    }
}

impl Server {
    /// The open documents, by uri (a later entry replaces an earlier one).
    pub closed spec fn docs(&self) -> Seq<(Seq<char>, Seq<char>)> {
        self.documents@.map_values(|p: (String, String)| (p.0@, p.1@))
    }

    /// Whether shutdown was requested.
    pub closed spec fn shutting_down(&self) -> bool {
        self.shutdown
    }

    /// A server with no open document.
    pub fn new() -> (r: Server)
        ensures
            r.docs() == Seq::<(Seq<char>, Seq<char>)>::empty(),
            !r.shutting_down(),
    {
        let r = Server { documents: Vec::new(), shutdown: false };
        assert(r.docs() =~= Seq::<(Seq<char>, Seq<char>)>::empty());
        r
    }

    fn get(&self, uri: &String) -> (r: Option<&String>)
        ensures
            match r {
                Some(t) => doc_get(self.docs(), uri@) == Some(t@),
                None => doc_get(self.docs(), uri@) is None,
            },
    {
        let ghost d = self.docs();
        let mut i: usize = self.documents.len();
        proof {
            assert(d.take(i as int) =~= d);
        }
        while i > 0
            invariant
                i <= self.documents@.len(),
                d == self.docs(),
                doc_get(d, uri@) == doc_get(d.take(i as int), uri@),
            decreases i,
        {
            proof {
                assert(d.take(i as int).drop_last() =~= d.take(i - 1));
                assert(d.take(i as int).last() == d[i - 1]);
            }
            if self.documents[i - 1].0 == *uri {
                return Some(&self.documents[i - 1].1);
            }
            i -= 1;
        }
        proof {
            assert(d.take(0) =~= Seq::<(Seq<char>, Seq<char>)>::empty());
        }
        None
    }

    fn put(&mut self, uri: String, text: String)
        ensures
            final(self).docs() == old(self).docs().push((uri@, text@)),
            final(self).shutting_down() == old(self).shutting_down(),
    {
        let ghost before = self.docs();
        let ghost u = uri@;
        let ghost t = text@;
        self.documents.push((uri, text));
        assert(self.docs() =~= before.push((u, t)));
    }

    fn publish(&self, uri: &String) -> (a: Action)
        ensures
            action_v(a) == publish_spec(self.docs(), uri@),
    {
        let diagnostics = match self.get(uri) {
            Some(t) => {
                if fits_positions(t.as_str()) {
                    document_diagnostics(t.as_str())
                } else {
                    let v: Vec<LspDiagnostic> = Vec::new();
                    assert(lsp_view(v@) =~= Seq::<LspDiagV>::empty());
                    v
                }
            },
            None => {
                let v: Vec<LspDiagnostic> = Vec::new();
                assert(lsp_view(v@) =~= Seq::<LspDiagV>::empty());
                v
            },
        };
        Action::Publish { uri: uri.clone(), diagnostics }
    }

    /// Handles one request: updates the open documents and says what to do.
    /// Opening, changing or saving a document publishes its diagnostics;
    /// hover and the inference graph answer for open documents (`Null`
    /// otherwise); `exit` exits with 0 after `shutdown`, with 1 before it;
    /// an unknown request is answered "method not found", an unknown
    /// notification ignored.
    pub fn handle(&mut self, req: Request) -> (a: Action)
        ensures
            match req {
                Request::Initialize => action_v(a) == ActionV::Respond(ReplyV::Capabilities)
                    && final(self).docs() == old(self).docs()
                    && final(self).shutting_down() == old(self).shutting_down(),
                Request::Initialized => action_v(a) == ActionV::Nothing
                    && final(self).docs() == old(self).docs()
                    && final(self).shutting_down() == old(self).shutting_down(),
                Request::Shutdown => action_v(a) == ActionV::Respond(ReplyV::Null)
                    && final(self).docs() == old(self).docs()
                    && final(self).shutting_down(),
                Request::Exit => action_v(a) == ActionV::Exit(if old(self).shutting_down() { 0 } else { 1 })
                    && final(self).docs() == old(self).docs()
                    && final(self).shutting_down() == old(self).shutting_down(),
                Request::DidOpen { uri, text } => final(self).docs() == old(self).docs().push((uri@, text@))
                    && action_v(a) == publish_spec(final(self).docs(), uri@)
                    && final(self).shutting_down() == old(self).shutting_down(),
                Request::DidChange { uri, change } => final(self).shutting_down() == old(self).shutting_down()
                    && action_v(a) == publish_spec(final(self).docs(), uri@)
                    && match change {
                        None => final(self).docs() == old(self).docs(),
                        Some(c) => {
                            let cur = match doc_get(old(self).docs(), uri@) {
                                Some(t) => t,
                                None => seq![],
                            };
                            final(self).docs() == old(self).docs().push((uri@, edited(cur, opt_text(c.text), c.range)))
                        },
                    },
                Request::DidSave { uri } => action_v(a) == publish_spec(old(self).docs(), uri@)
                    && final(self).docs() == old(self).docs()
                    && final(self).shutting_down() == old(self).shutting_down(),
                Request::Hover { uri, line, character } => final(self).docs() == old(self).docs()
                    && final(self).shutting_down() == old(self).shutting_down()
                    && match doc_get(old(self).docs(), uri@) {
                        Some(t) => match hover_spec(lex_spec(t).0, offset_of(t, line as nat, character as nat) as usize) {
                            Some(d) => action_v(a) == ActionV::Respond(ReplyV::Hover(d)),
                            None => action_v(a) == ActionV::Respond(ReplyV::Null),
                        },
                        None => action_v(a) == ActionV::Respond(ReplyV::Null),
                    },
                Request::InferenceGraph { uri } => final(self).docs() == old(self).docs()
                    && final(self).shutting_down() == old(self).shutting_down()
                    && match doc_get(old(self).docs(), uri@) {
                        Some(t) => action_v(a) == ActionV::Respond(match graph_text(t) {
                            Some(d) => ReplyV::Graph(d),
                            None => ReplyV::Null,
                        }),
                        None => action_v(a) == ActionV::Respond(ReplyV::Null),
                    },
                Request::Other { method, has_id } => final(self).docs() == old(self).docs()
                    && final(self).shutting_down() == old(self).shutting_down()
                    && action_v(a) == (if has_id {
                        ActionV::Respond(ReplyV::MethodNotFound(method@))
                    } else {
                        ActionV::Nothing
                    }),
            },
    {
        match req {
            Request::Initialize => Action::Respond(Reply::Capabilities),
            Request::Initialized => Action::Nothing,
            Request::Shutdown => {
                self.shutdown = true;
                Action::Respond(Reply::Null)
            },
            Request::Exit => Action::Exit(if self.shutdown { 0 } else { 1 }),
            Request::DidOpen { uri, text } => {
                self.put(uri.clone(), text);
                self.publish(&uri)
            },
            Request::DidChange { uri, change } => {
                match change {
                    Some(c) => {
                        let cur = match self.get(&uri) {
                            Some(t) => t.clone(),
                            None => String::new(),
                        };
                        let next = apply_change(&cur, &c);
                        self.put(uri.clone(), next);
                    },
                    None => {},
                }
                self.publish(&uri)
            },
            Request::DidSave { uri } => self.publish(&uri),
            Request::Hover { uri, line, character } => {
                match self.get(&uri) {
                    Some(t) => {
                        let off = position_to_offset(t.as_str(), line, character);
                        match hover_at(t.as_str(), off) {
                            Some(d) => Action::Respond(Reply::Hover(d)),
                            None => Action::Respond(Reply::Null),
                        }
                    },
                    None => Action::Respond(Reply::Null),
                }
            },
            Request::InferenceGraph { uri } => {
                match self.get(&uri) {
                    Some(t) => match inference_graph_dot(t.as_str()) {
                        Some(d) => Action::Respond(Reply::Graph(d)),
                        None => Action::Respond(Reply::Null),
                    },
                    None => Action::Respond(Reply::Null),
                }
            },
            Request::Other { method, has_id } => {
                if has_id {
                    Action::Respond(Reply::MethodNotFound(method))
                } else {
                    Action::Nothing
                }
            },
        }
    }
}

} // verus!
