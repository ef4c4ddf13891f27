//! The language server's decisions: documents, edits, positions and replies.

use augur::builder::{build_graph, model_buildable};
use augur::codegen::emit_tptir;
use augur::lower::lower;
use augur::lsp::position_at;
use augur::parser::parse;
use augur::server::{apply_change, position_to_offset, Action, Change, Reply, Request, Server};
use augur::tpt::validate_tptir;

fn uri() -> String {
    "file:///m.augur".to_string()
}

#[test]
fn open_publishes_diagnostics_of_the_document() {
    let mut s = Server::new();
    match s.handle(Request::DidOpen { uri: uri(), text: "let x = y + 1".to_string() }) {
        Action::Publish { uri: u, diagnostics } => {
            assert_eq!(u, uri());
            assert!(diagnostics.iter().any(|d| d.is_error && d.message.contains("undeclared")));
        }
        other => panic!("expected a publish, got {other:?}"),
    }
}

#[test]
fn hover_answers_for_open_documents_only() {
    let mut s = Server::new();
    assert_eq!(s.handle(Request::Hover { uri: uri(), line: 0, character: 9 }), Action::Respond(Reply::Null));
    s.handle(Request::DidOpen { uri: uri(), text: "let mu ~ Normal(0, 1)".to_string() });
    match s.handle(Request::Hover { uri: uri(), line: 0, character: 9 }) {
        Action::Respond(Reply::Hover(doc)) => assert!(doc.contains("Gaussian")),
        other => panic!("expected hover, got {other:?}"),
    }
}

#[test]
fn changes_replace_or_edit_the_document() {
    let mut s = Server::new();
    s.handle(Request::DidOpen { uri: uri(), text: "let x = 1".to_string() });
    let edit = Change { text: Some("y + 2".to_string()), range: Some(((0, 8), (0, 9))) };
    match s.handle(Request::DidChange { uri: uri(), change: Some(edit) }) {
        Action::Publish { diagnostics, .. } => {
            assert!(diagnostics.iter().any(|d| d.message.contains("undeclared variable `y`")))
        }
        other => panic!("expected a publish, got {other:?}"),
    }
    let full = Change { text: Some("let mu ~ Normal(0, 1)".to_string()), range: None };
    match s.handle(Request::DidChange { uri: uri(), change: Some(full) }) {
        Action::Publish { diagnostics, .. } => assert!(diagnostics.is_empty()),
        other => panic!("expected a publish, got {other:?}"),
    }
}

#[test]
fn inference_graph_reply() {
    let mut s = Server::new();
    s.handle(Request::DidOpen { uri: uri(), text: "let mu ~ Normal(0, 1)".to_string() });
    match s.handle(Request::InferenceGraph { uri: uri() }) {
        Action::Respond(Reply::Graph(dot)) => assert!(dot.contains("sample mu")),
        other => panic!("expected a graph, got {other:?}"),
    }
    assert_eq!(s.handle(Request::InferenceGraph { uri: "other".to_string() }), Action::Respond(Reply::Null));
}

#[test]
fn shutdown_then_exit_codes() {
    let mut s = Server::new();
    assert_eq!(s.handle(Request::Exit), Action::Exit(1));
    assert_eq!(s.handle(Request::Shutdown), Action::Respond(Reply::Null));
    assert_eq!(s.handle(Request::Exit), Action::Exit(0));
}

#[test]
fn unknown_methods() {
    let mut s = Server::new();
    assert_eq!(
        s.handle(Request::Other { method: "foo/bar".to_string(), has_id: true }),
        Action::Respond(Reply::MethodNotFound("foo/bar".to_string()))
    );
    assert_eq!(s.handle(Request::Other { method: "foo/baz".to_string(), has_id: false }), Action::Nothing);
    assert_eq!(s.handle(Request::Initialize), Action::Respond(Reply::Capabilities));
}

#[test]
fn positions_map_back_to_offsets() {
    let src = "let a = 1\n😀 b\nc";
    let n = src.chars().count();
    for k in 0..=n {
        let (line, character) = position_at(src, k);
        assert_eq!(position_to_offset(src, line, character), k);
    }
    // A column past the end of a line stops at the line break.
    assert_eq!(position_to_offset(src, 0, 99), 9);
    // A line past the last maps to the end.
    assert_eq!(position_to_offset(src, 7, 0), n);
}

#[test]
fn range_edits_splice_text() {
    let cur = "abc\ndef".to_string();
    let c = Change { text: Some("XY".to_string()), range: Some(((0, 1), (1, 1))) };
    assert_eq!(apply_change(&cur, &c), "aXYef");
    let none = Change { text: None, range: Some(((0, 0), (0, 1))) };
    assert_eq!(apply_change(&cur, &none), cur);
}

#[test]
fn emitted_modules_pass_validation() {
    let p = parse("let mu ~ Normal(0, 1)\nobserve Normal(mu, 1) = 0.5");
    let l = lower(&p.program);
    assert!(model_buildable(&l.model));
    let g = build_graph(&l.model);
    let text = emit_tptir(&g, "entry", "apple_silicon");
    assert_eq!(validate_tptir(&text), Ok(true));
}

#[test]
fn unchecked_models_are_not_buildable() {
    let p = parse("let x = y + 1");
    assert!(!model_buildable(&lower(&p.program).model));
    let p2 = parse("let x ~ Banana(1)");
    assert!(!model_buildable(&lower(&p2.program).model));
}
