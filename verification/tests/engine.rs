//! Engine names and automatic engine selection.

use std::str::FromStr;

use augur::engine::{select_engine, Engine};
use augur::lower::{lower, Diagnostic, Model};
use augur::parser::parse;

fn model(src: &str) -> Model {
    let p = parse(src);
    assert!(!p.has_errors(), "{:?}", p.diagnostics);
    let l = lower(&p.program);
    assert!(!l.diagnostics.iter().any(Diagnostic::is_error), "{:?}", l.diagnostics);
    l.model
}

#[test]
fn engine_from_str_and_as_str() {
    assert_eq!(Engine::from_str("hmc").unwrap(), Engine::Hmc);
    assert_eq!(Engine::from_str("mh").unwrap(), Engine::MetropolisHastings);
    assert_eq!(Engine::from_str("metropolis-hastings").unwrap(), Engine::MetropolisHastings);
    assert_eq!(Engine::from_str("vi").unwrap(), Engine::Variational);
    assert_eq!(Engine::from_str("pf").unwrap(), Engine::ParticleFilter);
    assert!(Engine::from_str("nonsense").is_err());
    assert_eq!(Engine::Hmc.as_str(), "hmc");
    assert_eq!(Engine::Variational.as_str(), "vi");
    assert_eq!(Engine::MetropolisHastings.as_str(), "mh");
    assert_eq!(Engine::ParticleFilter.as_str(), "pf");
}

#[test]
fn lib_auto_engine_selects_hmc_for_continuous() {
    let m = model("let mu ~ Normal(0, 1)\nobserve Normal(mu, 1) = 0.5");
    assert_eq!(select_engine(&m), Engine::Hmc);
}

#[test]
fn lib_auto_engine_selects_pf_for_discrete() {
    let m = model("let k ~ Binomial(10, 0.5)\nobserve Normal(k, 1) = 6");
    assert_eq!(select_engine(&m), Engine::ParticleFilter);
}

#[test]
fn runtime_auto_engine_selects_hmc_for_continuous() {
    let m = model("let mu ~ Normal(0, 1)\nobserve Normal(mu, 1) = 0.5");
    assert_eq!(select_engine(&m), Engine::Hmc);
}

#[test]
fn runtime_auto_engine_selects_pf_for_discrete() {
    let m = model("let k ~ Binomial(10, 0.5)\nobserve Normal(k, 1) = 6");
    assert_eq!(select_engine(&m), Engine::ParticleFilter);
}

#[test]
fn auto_engine_selects_vi_for_high_dimensional() {
    let priors: String = (0..16).map(|i| format!("let x{i} ~ Normal(0, 1)")).collect::<Vec<_>>().join("\n");
    let m = model(&priors);
    assert_eq!(select_engine(&m), Engine::Variational);
}

#[test]
fn discrete_priors_inside_branches_count() {
    let m = model("let a ~ Normal(0, 1)\nif a > 0 { let b ~ Poisson(3) }");
    assert_eq!(select_engine(&m), Engine::ParticleFilter);
}

#[test]
fn unknown_engine_error_names_the_input() {
    assert_eq!(Engine::from_str("warp"), Err("unknown engine `warp`".to_string()));
    assert_eq!(Engine::from_str("particle-filter"), Ok(Engine::ParticleFilter));
}
