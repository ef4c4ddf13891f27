//! Language-server support: document diagnostics, inference graph, hover and
//! positions.

use augur::lsp::{distribution_doc, document_diagnostics, hover_at, inference_graph_dot, position_at};

#[test]
fn diagnostics_report_undeclared_variable() {
    let diags = document_diagnostics("let x = y + 1");
    assert!(!diags.is_empty());
    assert!(diags.iter().any(|d| d.message.contains("undeclared")));
}

#[test]
fn clean_program_has_no_errors() {
    let diags = document_diagnostics("let mu ~ Normal(0, 1)\nobserve Normal(mu, 1) = 0.5");
    assert!(diags.iter().all(|d| !d.is_error));
}

#[test]
fn degenerate_warning_surfaces() {
    let diags = document_diagnostics("let s ~ Normal(0, -1)");
    assert!(diags.iter().any(|d| !d.is_error && d.message.contains("degenerate")));
}

#[test]
fn lib_inference_graph_emits_digraph() {
    let dot = inference_graph_dot("let mu ~ Normal(0, 1)\nobserve Normal(mu, 1) = 0.5").expect("graph");
    assert!(dot.contains("digraph augur_inference_graph"));
    assert!(dot.contains("sample mu"));
}

#[test]
fn lib_hover_on_distribution_returns_doc() {
    let src = "let mu ~ Normal(0, 1)";
    let doc = hover_at(src, 9);
    assert!(doc.is_some());
    assert!(doc.unwrap().contains("Gaussian"));
}

#[test]
fn position_conversion_handles_multibyte() {
    let src = "😀 = 1";
    let (line, character) = position_at(src, 2);
    assert_eq!(line, 0);
    assert_eq!(character, 3);
}

#[test]
fn clean_program_has_no_error_diagnostics() {
    let diags = document_diagnostics("let mu ~ Normal(0, 1)\nobserve Normal(mu, 1) = 0.5");
    assert!(diags.iter().all(|d| !d.is_error));
}

#[test]
fn undeclared_variable_is_reported() {
    let diags = document_diagnostics("let x = y + 1");
    assert!(!diags.is_empty());
    assert!(diags.iter().any(|d| d.message.contains("undeclared")));
}

#[test]
fn unknown_distribution_is_reported() {
    let diags = document_diagnostics("let x ~ Banana(1, 2)");
    assert!(diags.iter().any(|d| d.message.contains("not a known distribution")));
}

#[test]
fn degenerate_parameters_warn() {
    let diags = document_diagnostics("let s ~ Normal(0, -1)");
    assert!(diags.iter().any(|d| !d.is_error && d.message.contains("degenerate")));
}

#[test]
fn lsp_inference_graph_emits_digraph() {
    let dot = inference_graph_dot("let mu ~ Normal(0, 1)\nobserve Normal(mu, 1) = 0.5").expect("graph");
    assert!(dot.contains("digraph augur_inference_graph"));
    assert!(dot.contains("sample mu"));
}

#[test]
fn inference_graph_none_for_broken_program() {
    assert!(inference_graph_dot("let x = y + 1").is_none());
}

#[test]
fn lsp_hover_on_distribution_returns_doc() {
    let doc = hover_at("let mu ~ Normal(0, 1)", 9);
    assert!(doc.is_some());
    assert!(doc.unwrap().contains("Gaussian"));
}

#[test]
fn hover_on_non_distribution_returns_none() {
    assert!(hover_at("let mu ~ Normal(0, 1)", 4).is_none());
}

#[test]
fn hover_at_out_of_bounds_is_none() {
    let src = "let mu ~ Normal(0, 1)";
    assert!(hover_at(src, src.len() + 5).is_none());
}

#[test]
fn positions_count_lines_and_clamp_to_the_end() {
    let src = "ab\ncd";
    assert_eq!(position_at(src, 0), (0, 0));
    assert_eq!(position_at(src, 3), (1, 0));
    assert_eq!(position_at(src, 4), (1, 1));
    assert_eq!(position_at(src, 100), (1, 2));
}

#[test]
fn diagnostic_ranges_are_lsp_positions() {
    let diags = document_diagnostics("let a = 1\nlet x = 1 @ 2");
    let d = diags.iter().find(|d| d.is_error).expect("an error");
    assert_eq!(d.start_line, 1);
}

#[test]
fn distribution_docs_cover_every_family() {
    for name in ["Normal", "HalfNormal", "Beta", "Gamma", "Uniform", "Exponential", "Binomial", "Poisson", "Bernoulli"] {
        assert!(distribution_doc(name).unwrap().contains(name));
    }
    assert!(distribution_doc("Banana").is_none());
}

#[test]
fn positions_of_ordinary_texts_fit() {
    assert!(augur::lsp::fits_positions("let x = 1\nlet y = x\u{1F600}"));
    assert_eq!(position_at("ab\n\u{1F600}c", 5), (1, 3));
}
