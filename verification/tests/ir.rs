//! Lowering a parsed program into a model: shape, type errors and warnings.

use augur::lower::{known_dist_arity, lower, Diagnostic, LowerResult, Model, ModelItem, Severity};
use augur::parser::parse;

fn lower_ok(src: &str) -> Model {
    let r = parse(src);
    assert!(!r.has_errors(), "parse errors: {:?}", r.diagnostics);
    let lr = lower(&r.program);
    assert!(!lr.diagnostics.iter().any(Diagnostic::is_error), "type errors: {:?}", lr.diagnostics);
    lr.model
}

fn lower_with_diags(src: &str) -> LowerResult {
    let r = parse(src);
    assert!(!r.has_errors(), "parse errors: {:?}", r.diagnostics);
    lower(&r.program)
}

#[test]
fn normal_normal_conjugate_shape() {
    let m = lower_ok("let mu ~ Normal(0, 1)\nobserve Normal(mu, 1) = 0.5");
    assert_eq!(m.prior_order, vec!["mu".to_string()]);
}

#[test]
fn beta_binomial_conjugate_shape() {
    let m = lower_ok("let p ~ Beta(1, 1)\nobserve Binomial(10, p) = 7");
    assert_eq!(m.prior_order, vec!["p".to_string()]);
}

#[test]
fn lib_undeclared_variable_is_error() {
    let r = parse("let x = y + 1");
    let lr = lower(&r.program);
    assert!(lr.diagnostics.iter().any(Diagnostic::is_error));
}

#[test]
fn degenerate_literal_warned() {
    let r = parse("let s ~ Normal(0, -1)");
    let lr = lower(&r.program);
    assert!(lr.diagnostics.iter().any(|d| !d.is_error()));
}

#[test]
fn lower_normal_normal_conjugate_shape() {
    let m = lower_ok("let mu ~ Normal(0, 1)\nobserve Normal(mu, 1) = 0.5");
    assert_eq!(m.prior_order, vec!["mu".to_string()]);
}

#[test]
fn lower_beta_binomial_conjugate_shape() {
    let m = lower_ok("let p ~ Beta(1, 1)\nobserve Binomial(10, p) = 7");
    assert_eq!(m.prior_order, vec!["p".to_string()]);
}

#[test]
fn lower_multiple_priors_preserve_order() {
    let m = lower_ok("let a ~ Normal(0,1)\nlet b ~ Normal(0,1)\nlet c ~ Beta(1,1)");
    assert_eq!(m.prior_order, vec!["a", "b", "c"]);
}

#[test]
fn ir_undeclared_variable_is_error() {
    let lr = lower_with_diags("let x = y + 1");
    assert!(lr.diagnostics.iter().any(Diagnostic::is_error));
}

#[test]
fn duplicate_definition_is_error() {
    let lr = lower_with_diags("let mu ~ Normal(0,1)\nlet mu ~ Normal(0,1)");
    assert!(lr.diagnostics.iter().any(Diagnostic::is_error));
}

#[test]
fn unknown_distribution_is_error() {
    let lr = lower_with_diags("let x ~ Banana(1, 2)");
    assert!(lr.diagnostics.iter().any(Diagnostic::is_error));
}

#[test]
fn wrong_arity_is_error() {
    let lr = lower_with_diags("let x ~ Normal(0, 1, 2)");
    assert!(lr.diagnostics.iter().any(Diagnostic::is_error));
}

#[test]
fn distribution_used_as_value_is_error() {
    let lr = lower_with_diags("let x = Normal(0, 1)");
    assert!(lr.diagnostics.iter().any(Diagnostic::is_error));
}

#[test]
fn degenerate_literal_is_warning() {
    let lr = lower_with_diags("let s ~ Normal(0, -1)");
    assert!(lr.diagnostics.iter().any(|d| d.severity == Severity::Warning));
}

#[test]
fn degenerate_uniform_warning() {
    let lr = lower_with_diags("let u ~ Uniform(3, 1)");
    assert!(lr.diagnostics.iter().any(|d| d.severity == Severity::Warning));
}

#[test]
fn degenerate_bernoulli_warning() {
    let lr = lower_with_diags("let b ~ Bernoulli(1.5)");
    assert!(lr.diagnostics.iter().any(|d| d.severity == Severity::Warning));
}

#[test]
fn known_dist_arity_table() {
    assert_eq!(known_dist_arity("Normal"), Some(2));
    assert_eq!(known_dist_arity("Beta"), Some(2));
    assert_eq!(known_dist_arity("Gamma"), Some(2));
    assert_eq!(known_dist_arity("Uniform"), Some(2));
    assert_eq!(known_dist_arity("Binomial"), Some(2));
    assert_eq!(known_dist_arity("HalfNormal"), Some(1));
    assert_eq!(known_dist_arity("Exponential"), Some(1));
    assert_eq!(known_dist_arity("Poisson"), Some(1));
    assert_eq!(known_dist_arity("Bernoulli"), Some(1));
    assert_eq!(known_dist_arity("NotADist"), None);
}

#[test]
fn lowering_keeps_statements_as_items() {
    let m = lower_ok("let mu ~ Normal(0, 1)\nlet s = mu * 2\nobserve Normal(s, 1) = 3");
    assert_eq!(m.items.len(), 3);
    assert!(matches!(&m.items[0], ModelItem::Prior { name, .. } if name == "mu"));
    assert!(matches!(&m.items[1], ModelItem::Let { name, .. } if name == "s"));
    assert!(matches!(&m.items[2], ModelItem::Observe { .. }));
}

#[test]
fn priors_inside_branches_join_the_prior_order() {
    let m = lower_ok("let a ~ Normal(0, 1)\nif a > 0 { let b ~ Normal(0, 1) } else { let c ~ Normal(0, 1) }");
    assert_eq!(m.prior_order, vec!["a", "b", "c"]);
}

#[test]
fn error_messages_name_the_problem() {
    let lr = lower_with_diags("let x ~ Normal(0, 1, 2)\nlet y = z");
    let msgs: Vec<&str> = lr.diagnostics.iter().map(|d| d.message.as_str()).collect();
    assert!(msgs.contains(&"`Normal` expects 2 argument(s), found 3"));
    assert!(msgs.contains(&"use of undeclared variable `z`"));
}

#[test]
fn degenerate_checks_use_exact_values() {
    // Exactly representable boundaries: 1 is a valid Bernoulli probability,
    // 1.0000000001 is not; a zero scale written as 0.000 is degenerate.
    assert!(!lower_with_diags("let b ~ Bernoulli(1)").diagnostics.iter().any(|d| d.severity == Severity::Warning));
    assert!(lower_with_diags("let b ~ Bernoulli(1.0000000001)").diagnostics.iter().any(|d| d.severity == Severity::Warning));
    assert!(lower_with_diags("let s ~ Normal(0, 0.000)").diagnostics.iter().any(|d| d.severity == Severity::Warning));
    assert!(!lower_with_diags("let u ~ Uniform(1, 3)").diagnostics.iter().any(|d| d.severity == Severity::Warning));
}
