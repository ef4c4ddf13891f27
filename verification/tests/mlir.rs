//! The probabilistic dialect: graph construction, passes, TPTIR codegen and
//! Graphviz output.

use augur::builder::{build_graph, ids_suffice};
use augur::codegen::emit_tptir;
use augur::dialect::{DistFamily, Graph, Op, ScalarOp};
use augur::graphviz::to_dot;
use augur::lower::{lower, Diagnostic};
use augur::parser::parse;
use augur::passes::{ConstantBranchPass, DeadValueEliminationPass};

fn graph(src: &str) -> Graph {
    let parsed = parse(src);
    assert!(!parsed.has_errors(), "{:?}", parsed.diagnostics);
    let lowered = lower(&parsed.program);
    assert!(!lowered.diagnostics.iter().any(Diagnostic::is_error), "{:?}", lowered.diagnostics);
    assert!(ids_suffice(&lowered.model));
    build_graph(&lowered.model)
}

#[test]
fn prior_and_observe_produce_sample_and_observe_ops() {
    let g = graph("let mu ~ Normal(0, 1)\nobserve Normal(mu, 1) = 0.5");
    assert_eq!(g.prior_order, vec!["mu".to_string()]);
    let has_sample = g.ops.iter().any(|op| matches!(op, Op::Sample { name, .. } if name == "mu"));
    let has_observe = g.ops.iter().any(|op| matches!(op, Op::Observe { .. }));
    assert!(has_sample && has_observe);
}

#[test]
fn if_lowers_to_cond_op() {
    let src = "let mu ~ Normal(0,1)\nif mu > 0 { observe Normal(mu,1) = 1 } else { observe Normal(mu,1) = -1 }";
    let g = graph(src);
    assert!(g.ops.iter().any(|op| matches!(op, Op::Cond { .. })));
}

#[test]
fn build_emits_sample_and_observe_ops() {
    let g = graph("let mu ~ Normal(0, 1)\nobserve Normal(mu, 1) = 0.5");
    assert_eq!(g.prior_order, vec!["mu".to_string()]);
    assert!(g.ops.iter().any(|op| matches!(op, Op::Sample { name, .. } if name == "mu")));
    assert!(g.ops.iter().any(|op| matches!(op, Op::Observe { .. })));
    assert!(g.ops.iter().any(|op| matches!(op, Op::Dist { .. })));
}

#[test]
fn build_lowers_if_to_cond() {
    let g = graph("let mu ~ Normal(0,1)\nif mu > 0 { observe Normal(mu,1) = 1 } else { observe Normal(mu,1) = -1 }");
    assert!(g.ops.iter().any(|op| matches!(op, Op::Cond { .. })));
}

#[test]
fn build_records_let_bindings() {
    let g = graph("let mu ~ Normal(0, 1)\nlet shifted = mu + 1");
    assert!(g.ops.iter().any(|op| matches!(op, Op::Let { name, .. } if name == "shifted")));
    assert!(g.ops.iter().any(|op| matches!(op, Op::Scalar { op: ScalarOp::Add(..), .. })));
}

#[test]
fn build_numbers_values_in_creation_order() {
    let g = graph("let mu ~ Normal(0, 1)\nobserve Normal(mu, 1) = 0.5");
    // 0 and 1 are the constants, 2 the distribution, 3 the sample; the
    // observation's constant 1 is 4, its distribution 5, and 0.5 is 6.
    assert_eq!(g.next_value, 7);
    assert_eq!(g.ops[0], Op::Constant { result: 0, value: "0".to_string() });
    assert_eq!(g.ops[3], Op::Sample { result: 3, dist: 2, name: "mu".to_string() });
    assert_eq!(g.ops[g.ops.len() - 1], Op::Observe { dist: 5, value: 6 });
    assert_eq!(g.op_count(), 8);
}

#[test]
fn emits_module_with_sample_and_observe() {
    let g = graph("let mu ~ Normal(0, 1)\nobserve Normal(mu, 1) = 0.5");
    let text = emit_tptir(&g, "model", "cpu");
    assert!(text.contains("module {"));
    assert!(text.contains("func.func @model"));
    assert!(text.contains("augur.prior_order = [\"mu\"]"));
    assert!(text.contains("\"augur.dist.normal\""));
    assert!(text.contains("\"augur.sample\""));
    assert!(text.contains("\"augur.observe\""));
    assert!(text.contains("tptir.return"));
}

#[test]
fn emits_cond_region_for_if() {
    let src = "let mu ~ Normal(0,1)\nif mu > 0 { observe Normal(mu,1) = 1 } else { observe Normal(mu,1) = -1 }";
    let text = emit_tptir(&graph(src), "model", "cpu");
    assert!(text.contains("\"augur.cond\""));
    assert!(text.contains("\"augur.cmpf_gt\""));
}

#[test]
fn records_hardware_attribute() {
    let text = emit_tptir(&graph("let mu ~ Normal(0, 1)"), "model", "cpu");
    assert!(text.contains("augur.hardware = \"cpu\""));
}

#[test]
fn codegen_emits_module_and_ops() {
    let g = graph("let mu ~ Normal(0, 1)\nobserve Normal(mu, 1) = 0.5");
    let text = emit_tptir(&g, "model", "cpu");
    assert!(text.contains("module {"));
    assert!(text.contains("func.func @model"));
    assert!(text.contains("augur.prior_order = [\"mu\"]"));
    assert!(text.contains("\"augur.dist.normal\""));
    assert!(text.contains("\"augur.sample\""));
    assert!(text.contains("\"augur.observe\""));
    assert!(text.contains("tptir.return"));
}

#[test]
fn codegen_emits_cond_region() {
    let g = graph("let mu ~ Normal(0,1)\nif mu > 0 { observe Normal(mu,1) = 1 } else { observe Normal(mu,1) = -1 }");
    let text = emit_tptir(&g, "model", "cpu");
    assert!(text.contains("\"augur.cond\""));
    assert!(text.contains("\"augur.cmpf_gt\""));
}

#[test]
fn codegen_records_hardware_attribute() {
    let g = graph("let mu ~ Normal(0, 1)");
    let text = emit_tptir(&g, "model", "nvidia");
    assert!(text.contains("augur.hardware = \"nvidia\""));
}

#[test]
fn codegen_exact_text_of_small_model() {
    let g = graph("let mu ~ Normal(0, 1)");
    let text = emit_tptir(&g, "m", "cpu");
    let expected = "module {\n  func.func @m() attributes {tptir.kernel, augur.prior_order = [\"mu\"], augur.hardware = \"cpu\"} {\n    ^entry:\n      %0 = \"augur.constant\"() {value = 0 : f64} : () -> f64\n      %1 = \"augur.constant\"() {value = 1 : f64} : () -> f64\n      %2 = \"augur.dist.normal\"(%0, %1) : (f64, f64) -> !augur.dist\n      %3 = \"augur.sample\"(%2) {name = \"mu\"} : (!augur.dist) -> f64\n      tptir.return\n  }\n}\n";
    assert_eq!(text, expected);
}

#[test]
fn dot_contains_prior_and_observe_nodes() {
    let dot = to_dot(&graph("let mu ~ Normal(0, 1)\nobserve Normal(mu, 1) = 0.5"));
    assert!(dot.contains("digraph augur_inference_graph"));
    assert!(dot.contains("sample mu"));
    assert!(dot.contains("observe"));
    assert!(dot.contains("->"));
}

#[test]
fn dot_qualifies_nested_cluster_nodes() {
    let dot = to_dot(&graph("let mu ~ Normal(0, 1)\nif mu > 0 { observe Normal(mu, 1) = 1 }"));
    assert!(dot.contains("sample mu"));
    assert!(!dot.contains("cluster_then_:n"));
    assert!(dot.contains("-> cluster_then_") && dot.contains("n3 -> cluster_then_") || dot.contains("cluster_then_"));
}

#[test]
fn dot_compiles_independently_of_tptir() {
    let g = graph("let p ~ Beta(1, 1)\nobserve Binomial(10, p) = 7");
    let _ = to_dot(&g);
    let text = emit_tptir(&g, "m", "cpu");
    assert!(text.contains("func.func"));
}

#[test]
fn dot_contains_prior_and_observe() {
    let dot = to_dot(&graph("let mu ~ Normal(0, 1)\nobserve Normal(mu, 1) = 0.5"));
    assert!(dot.contains("digraph augur_inference_graph"));
    assert!(dot.contains("sample mu"));
    assert!(dot.contains("observe"));
    assert!(dot.contains("->"));
}

#[test]
fn dot_edges_resolve_to_defining_nodes() {
    let dot2 = to_dot(&graph("let mu ~ Normal(0, 1)\nlet shifted = mu + 1"));
    assert!(dot2.contains("  n5 [label=\"n3+ n4\", shape=box, style=filled, fillcolor=\"#f3e8ff\"];\n"));
    assert!(dot2.contains("  n5 -> let_shifted;\n"));
}

#[test]
fn dist_family_names_and_ops() {
    let cases = [
        ("Normal", DistFamily::Normal, "normal"),
        ("HalfNormal", DistFamily::HalfNormal, "half_normal"),
        ("Beta", DistFamily::Beta, "beta"),
        ("Gamma", DistFamily::Gamma, "gamma"),
        ("Uniform", DistFamily::Uniform, "uniform"),
        ("Exponential", DistFamily::Exponential, "exponential"),
        ("Binomial", DistFamily::Binomial, "binomial"),
        ("Poisson", DistFamily::Poisson, "poisson"),
        ("Bernoulli", DistFamily::Bernoulli, "bernoulli"),
    ];
    for (name, family, op) in cases {
        assert_eq!(DistFamily::from_name(name), Some(family));
        assert_eq!(family.op_name(), op);
    }
    assert_eq!(DistFamily::from_name("Nope"), None);
}

#[test]
fn dce_removes_unused_constants() {
    let mut g = graph("let mu ~ Normal(0, 1)");
    let unused = g.next_value;
    g.next_value += 1;
    g.ops.insert(0, Op::Constant { result: unused, value: "42".to_string() });
    let changes = DeadValueEliminationPass.run(&mut g);
    assert!(changes > 0);
    assert!(!g.ops.iter().any(|op| matches!(op, Op::Constant { result, .. } if *result == unused)));
}

#[test]
fn dce_keeps_side_effecting_ops() {
    let mut g = graph("let mu ~ Normal(0, 1)\nobserve Normal(mu, 1) = 0.5");
    let before = g.op_count();
    let changes = DeadValueEliminationPass.run(&mut g);
    assert_eq!(changes, 0);
    assert_eq!(g.op_count(), before);
}

#[test]
fn constant_branch_collapses_on_constant_condition() {
    let mut g = graph("let a = 1\nif a > 0 { let x = 2 } else { let y = 3 }");
    // Replace the comparison by its folded constant, as folding would.
    let cond = match g.ops.iter().find(|op| matches!(op, Op::Cond { .. })) {
        Some(Op::Cond { cond, .. }) => *cond,
        _ => panic!("no branch"),
    };
    let pos = g.ops.iter().position(|op| matches!(op, Op::Scalar { result, .. } if *result == cond)).unwrap();
    g.ops[pos] = Op::Constant { result: cond, value: "1".to_string() };
    let changes = ConstantBranchPass.run(&mut g);
    assert_eq!(changes, 1);
    assert!(!g.ops.iter().any(|op| matches!(op, Op::Cond { .. })));
    assert!(g.ops.iter().any(|op| matches!(op, Op::Let { name, .. } if name == "x")));
    assert!(!g.ops.iter().any(|op| matches!(op, Op::Let { name, .. } if name == "y")));
}

#[test]
fn constant_branch_takes_else_on_non_positive() {
    for text in ["0", "-0", "-2.5", "NaN"] {
        let mut g = graph("let a = 1\nif a > 0 { let x = 2 } else { let y = 3 }");
        let cond = match g.ops.iter().find(|op| matches!(op, Op::Cond { .. })) {
            Some(Op::Cond { cond, .. }) => *cond,
            _ => panic!("no branch"),
        };
        let pos = g.ops.iter().position(|op| matches!(op, Op::Scalar { result, .. } if *result == cond)).unwrap();
        g.ops[pos] = Op::Constant { result: cond, value: text.to_string() };
        ConstantBranchPass.run(&mut g);
        assert!(g.ops.iter().any(|op| matches!(op, Op::Let { name, .. } if name == "y")));
        assert!(!g.ops.iter().any(|op| matches!(op, Op::Let { name, .. } if name == "x")));
    }
}

#[test]
fn constant_branch_keeps_data_dependent_branches() {
    let mut g = graph("let mu ~ Normal(0,1)\nif mu > 0 { observe Normal(mu,1) = 1 }");
    assert_eq!(ConstantBranchPass.run(&mut g), 0);
    assert!(g.ops.iter().any(|op| matches!(op, Op::Cond { .. })));
}

#[test]
fn dot_sanitizes_binding_names() {
    let g = Graph {
        ops: vec![
            Op::Constant { result: 0, value: "2".to_string() },
            Op::Let { name: "x-y z".to_string(), value: 0 },
        ],
        prior_order: vec![],
        next_value: 1,
    };
    let dot = to_dot(&g);
    assert!(dot.contains("  let_x_y_z [label=\"let x-y z\""));
    assert!(dot.contains("  n0 -> let_x_y_z;\n"));
    assert!(dot.contains("[label=\"const 2\", shape=ellipse"));
}

#[test]
fn dce_removes_values_only_dead_ops_read() {
    let mut g = Graph {
        ops: vec![
            Op::Constant { result: 0, value: "1".to_string() },
            Op::Scalar { result: 1, op: ScalarOp::Neg(0) },
        ],
        prior_order: vec![],
        next_value: 2,
    };
    assert_eq!(DeadValueEliminationPass.run(&mut g), 2);
    assert!(g.ops.is_empty());
}

#[test]
fn dce_keeps_chains_that_reach_an_effect() {
    let mut g = Graph {
        ops: vec![
            Op::Constant { result: 0, value: "1".to_string() },
            Op::Constant { result: 1, value: "2".to_string() },
            Op::Scalar { result: 2, op: ScalarOp::Add(0, 1) },
            Op::Scalar { result: 3, op: ScalarOp::Neg(2) },
            Op::Constant { result: 4, value: "5".to_string() },
            Op::Scalar { result: 5, op: ScalarOp::Neg(4) },
            Op::Let { name: "k".to_string(), value: 3 },
        ],
        prior_order: vec![],
        next_value: 6,
    };
    assert_eq!(DeadValueEliminationPass.run(&mut g), 2);
    assert_eq!(g.ops.len(), 5);
    assert!(!g.ops.iter().any(|op| matches!(op, Op::Constant { result: 4, .. } | Op::Scalar { result: 5, .. })));
}

#[test]
fn dot_draws_an_edge_for_every_operand() {
    let g = graph("let mu ~ Normal(0, 1)\nif mu > 0 { let a = -mu }");
    let dot = to_dot(&g);
    assert!(dot.contains("  n0 -> n2;\n"), "{dot}");
    assert!(dot.contains("  n1 -> n2;\n"), "{dot}");
    assert!(dot.contains("  n2 -> n3;\n"), "{dot}");
    assert!(dot.contains("-> cond_n"), "{dot}");
}
