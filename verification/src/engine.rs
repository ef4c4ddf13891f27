//! Choosing an inference engine from the shape of a model: discrete priors
//! call for the particle filter, many continuous priors for variational
//! inference, and otherwise Hamiltonian Monte Carlo.
use vstd::prelude::*;
use crate::ast::{Expr, ExprV, StmtV};
use crate::lower::{Model, ModelItem, items_v};
use crate::util::str_eq;

verus! {

/// An inference engine.
#[derive(Debug, Clone, Copy, PartialEq, Eq, Structural)]
pub enum Engine {
    MetropolisHastings,
    Hmc,
    Variational,
    ParticleFilter,
}

/// The short name of an engine.
pub open spec fn engine_name(e: Engine) -> Seq<char> {
    match e {
        Engine::MetropolisHastings => "mh"@,
        Engine::Hmc => "hmc"@,
        Engine::Variational => "vi"@,
        Engine::ParticleFilter => "pf"@,
    }
}

/// The engine a name or alias denotes.
pub open spec fn engine_of(s: Seq<char>) -> Option<Engine> {
    if s == "mh"@ || s == "metropolis"@ || s == "metropolis-hastings"@ {
        Some(Engine::MetropolisHastings)
    } else if s == "hmc"@ {
        Some(Engine::Hmc)
    } else if s == "vi"@ || s == "variational"@ {
        Some(Engine::Variational)
    } else if s == "pf"@ || s == "particle"@ || s == "particle-filter"@ {
        Some(Engine::ParticleFilter)
    } else {
        None
    }
}

impl Engine {
    /// The short name of the engine.
    pub fn as_str(&self) -> (r: &'static str)
        ensures
            r@ == engine_name(*self),
    {
        match self {
            Engine::MetropolisHastings => "mh",
            Engine::Hmc => "hmc",
            Engine::Variational => "vi",
            Engine::ParticleFilter => "pf",
        }
    }

    /// Looks an engine up by name or alias; the error names the input.
    pub fn from_str(s: &str) -> (r: Result<Engine, String>)
        ensures
            match r {
                Ok(e) => engine_of(s@) == Some(e),
                Err(m) => engine_of(s@) is None && m@ == "unknown engine `"@ + s@ + "`"@,
            },
    {
        if str_eq(s, "mh") || str_eq(s, "metropolis") || str_eq(s, "metropolis-hastings") {
            Ok(Engine::MetropolisHastings)
        } else if str_eq(s, "hmc") {
            Ok(Engine::Hmc)
        } else if str_eq(s, "vi") || str_eq(s, "variational") {
            Ok(Engine::Variational)
        } else if str_eq(s, "pf") || str_eq(s, "particle") || str_eq(s, "particle-filter") {
            Ok(Engine::ParticleFilter)
        } else {
            let mut m = String::from_str("unknown engine `");
            m.append(s);
            m.append("`");
            Err(m)
        }
    }
}

impl std::str::FromStr for Engine {
    type Err = String;

    fn from_str(s: &str) -> (r: Result<Engine, String>)
        ensures
            match r {
                Ok(e) => engine_of(s@) == Some(e),
                Err(m) => engine_of(s@) is None && m@ == "unknown engine `"@ + s@ + "`"@,
            },
    {
        Engine::from_str(s)
    }
}

/// Whether a distribution constructor name is a discrete family.
pub open spec fn is_discrete_name(n: Seq<char>) -> bool {
    n == "Binomial"@ || n == "Poisson"@ || n == "Bernoulli"@
}

/// Whether a statement declares a prior of a discrete family, in nested
/// `if`/`else` bodies included.
pub open spec fn stmt_discrete(s: StmtV) -> bool
    decreases s,
{
    match s {
        StmtV::Prior { dist, .. } => match dist {
            ExprV::Call { name, .. } => is_discrete_name(name),
            _ => false,
        },
        StmtV::If { then_body, else_body, .. } => stmts_discrete(then_body) || stmts_discrete(else_body),
        _ => false,
    }
}

/// Whether any of the statements declares a discrete prior.
pub open spec fn stmts_discrete(ss: Seq<StmtV>) -> bool
    decreases ss,
{
    if ss.len() == 0 {
        false
    } else {
        stmts_discrete(ss.drop_last()) || stmt_discrete(ss.last())
    }
}

/// The engine chosen for a model: the particle filter when a prior is
/// discrete, variational inference past 15 priors, HMC otherwise.
pub open spec fn engine_for(items: Seq<StmtV>, priors: nat) -> Engine {
    if stmts_discrete(items) {
        Engine::ParticleFilter
    } else if priors > 15 {
        Engine::Variational
    } else {
        Engine::Hmc
    }
}

/// Sets `out` when the item declares a discrete prior (nested bodies
/// included); leaves it otherwise.
pub fn collect_discrete(item: &ModelItem, out: &mut bool)
    ensures
        *final(out) == (*old(out) || stmt_discrete(item@)),
    decreases item, 1nat,
{
    match item {
        ModelItem::Prior { dist, .. } => {
            if let Expr::Call { name, .. } = dist {
                let n = name.as_str();
                if str_eq(n, "Binomial") || str_eq(n, "Poisson") || str_eq(n, "Bernoulli") {
                    *out = true;
                }
            }
        },
        ModelItem::If { then_items, else_items, .. } => {
            proof {
                assert(decreases_to!(*item => *then_items));
                assert(decreases_to!(*item => *else_items));
            }
            collect_discrete_all(then_items, out);
            collect_discrete_all(else_items, out);
        },
        _ => {},
    }
}

fn collect_discrete_all(items: &Vec<ModelItem>, out: &mut bool)
    ensures
        *final(out) == (*old(out) || stmts_discrete(items_v(items@))),
    decreases items, 0nat,
{
    let ghost sv = items_v(items@);
    proof {
        crate::lower::lemma_items_v(items@);
        assert(decreases_to!(*items => items@));
        assert forall|k: int| 0 <= k < items@.len() implies decreases_to!(*items => #[trigger] items@[k]) by {
            assert(decreases_to!(items@ => items@[k]));
        }
    }
    let mut i: usize = 0;
    while i < items.len()
        invariant
            forall|k: int| 0 <= k < items@.len() ==> decreases_to!(*items => #[trigger] items@[k]),
            i <= items@.len(),
            sv == items_v(items@),
            sv.len() == items@.len(),
            forall|k: int| 0 <= k < items@.len() ==> #[trigger] sv[k] == items@[k]@,
            *out == (*old(out) || stmts_discrete(sv.take(i as int))),
        decreases items.len() - i,
    {
        proof {
            assert(sv.take(i + 1).drop_last() =~= sv.take(i as int));
            assert(sv.take(i + 1).last() == sv[i as int]);
        }
        collect_discrete(&items[i], out);
        i += 1;
    }
    proof {
        assert(sv.take(items@.len() as int) =~= sv);
    }
}

/// Inspects the model's shape and chooses an engine: discrete priors
/// (Binomial, Poisson, Bernoulli) call for the particle filter, more than 15
/// priors for variational inference, anything else for HMC.
pub fn select_engine(model: &Model) -> (e: Engine)
    ensures
        e == engine_for(items_v(model.items@), model.prior_order@.len()),
{
    let mut has_discrete = false;
    collect_discrete_all(&model.items, &mut has_discrete);
    if has_discrete {
        return Engine::ParticleFilter;
    }
    if model.prior_order.len() > 15 {
        return Engine::Variational;
    }
    Engine::Hmc
}

/// Every engine's short name (`as_str`) looks up (`from_str`) to the
/// engine itself.
pub proof fn lemma_engine_name_round_trip(e: Engine)
    ensures
        engine_of(engine_name(e)) == Some(e),
{
    reveal_strlit("mh");
    reveal_strlit("metropolis");
    reveal_strlit("metropolis-hastings");
    reveal_strlit("hmc");
    reveal_strlit("vi");
    reveal_strlit("variational");
    reveal_strlit("pf");
    reveal_strlit("particle");
    reveal_strlit("particle-filter");
    let n = engine_name(e);
    match e {
        Engine::MetropolisHastings => {},
        Engine::Hmc => {
            assert(n[0] != "mh"@[0]);
        },
        Engine::Variational => {
            assert(n[0] != "mh"@[0]);
        },
        Engine::ParticleFilter => {
            assert(n[0] != "mh"@[0]);
            assert(n[0] != "vi"@[0]);
        },
    }
}


/// Whether a statement declares, at any `if`/`else` depth, a prior whose
/// distribution is a call named `n`.
pub open spec fn stmt_has_prior_call(s: StmtV, n: Seq<char>) -> bool
    decreases s,
{
    match s {
        StmtV::Prior { dist, .. } => dist matches ExprV::Call { name, .. } && name == n,
        StmtV::If { then_body, else_body, .. } => {
            ||| exists|k: int| 0 <= k < then_body.len() && stmt_has_prior_call(#[trigger] then_body[k], n)
            ||| exists|k: int| 0 <= k < else_body.len() && stmt_has_prior_call(#[trigger] else_body[k], n)
        },
        _ => false,
    }
}

/// Whether some statement declares, at any depth, a prior whose
/// distribution is a call named `n`.
pub open spec fn has_prior_call(ss: Seq<StmtV>, n: Seq<char>) -> bool {
    exists|k: int| 0 <= k < ss.len() && stmt_has_prior_call(#[trigger] ss[k], n)
}

proof fn lemma_stmts_discrete_any(ss: Seq<StmtV>)
    ensures
        stmts_discrete(ss) <==> exists|k: int| 0 <= k < ss.len() && stmt_discrete(#[trigger] ss[k]),
    decreases ss.len(),
{
    if ss.len() > 0 {
        let dl = ss.drop_last();
        lemma_stmts_discrete_any(dl);
        if exists|k: int| 0 <= k < dl.len() && stmt_discrete(#[trigger] dl[k]) {
            let k = choose|k: int| 0 <= k < dl.len() && stmt_discrete(#[trigger] dl[k]);
            assert(ss[k] == dl[k]);
        }
        if exists|k: int| 0 <= k < ss.len() && stmt_discrete(#[trigger] ss[k]) {
            let k = choose|k: int| 0 <= k < ss.len() && stmt_discrete(#[trigger] ss[k]);
            if k < ss.len() - 1 {
                assert(dl[k] == ss[k]);
            }
        }
    }
}

/// The discrete-prior test answers exactly for the three discrete families.
proof fn lemma_stmt_discrete_names(s: StmtV)
    ensures
        stmt_discrete(s) <==> (stmt_has_prior_call(s, "Binomial"@) || stmt_has_prior_call(s, "Poisson"@)
            || stmt_has_prior_call(s, "Bernoulli"@)),
    decreases s,
{
    if let StmtV::If { then_body, else_body, .. } = s {
        lemma_stmts_discrete_any(then_body);
        lemma_stmts_discrete_any(else_body);
        assert forall|k: int| 0 <= k < then_body.len() implies (stmt_discrete(#[trigger] then_body[k]) <==> (
            stmt_has_prior_call(then_body[k], "Binomial"@) || stmt_has_prior_call(then_body[k], "Poisson"@)
                || stmt_has_prior_call(then_body[k], "Bernoulli"@))) by {
            lemma_stmt_discrete_names(then_body[k]);
        }
        assert forall|k: int| 0 <= k < else_body.len() implies (stmt_discrete(#[trigger] else_body[k]) <==> (
            stmt_has_prior_call(else_body[k], "Binomial"@) || stmt_has_prior_call(else_body[k], "Poisson"@)
                || stmt_has_prior_call(else_body[k], "Bernoulli"@))) by {
            lemma_stmt_discrete_names(else_body[k]);
        }
    }
}

/// The engine for a model: the particle filter exactly when some prior, at
/// any `if`/`else` depth, is a `Binomial`, `Poisson` or `Bernoulli` call;
/// otherwise variational inference past 15 priors and HMC up to 15.
pub proof fn lemma_engine_choice(items: Seq<StmtV>, priors: nat)
    ensures
        (engine_for(items, priors) == Engine::ParticleFilter) <==> (has_prior_call(items, "Binomial"@)
            || has_prior_call(items, "Poisson"@) || has_prior_call(items, "Bernoulli"@)),
        !(has_prior_call(items, "Binomial"@) || has_prior_call(items, "Poisson"@) || has_prior_call(
            items,
            "Bernoulli"@,
        )) ==> engine_for(items, priors) == (if priors > 15 { Engine::Variational } else { Engine::Hmc }),
{
    lemma_stmts_discrete_any(items);
    assert forall|k: int| 0 <= k < items.len() implies (stmt_discrete(#[trigger] items[k]) <==> (
        stmt_has_prior_call(items[k], "Binomial"@) || stmt_has_prior_call(items[k], "Poisson"@)
            || stmt_has_prior_call(items[k], "Bernoulli"@))) by {
        lemma_stmt_discrete_names(items[k]);
    }
}

} // verus!
