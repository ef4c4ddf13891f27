//! The agent registry.

use augur::agent::{AgentId, AgentInfo, AgentRegistry, AgentState, RetryPolicy};

fn info(name: &str, caps: &[&str]) -> AgentInfo {
    AgentInfo {
        name: name.to_string(),
        capabilities: caps.iter().map(|c| c.to_string()).collect(),
        retry_policy: RetryPolicy,
    }
}

#[test]
fn registered_agents_get_ids_in_order() {
    let mut reg = AgentRegistry::new();
    let a = reg.register(info("planner", &["plan"]));
    let b = reg.register(info("runner", &["run", "plan"]));
    assert_eq!(a, AgentId(0));
    assert_eq!(b, AgentId(1));
    assert_eq!(b.to_string(), "agent-1");
}

#[test]
fn capabilities_answer_for_registered_agents_only() {
    let mut reg = AgentRegistry::new();
    let planner = reg.register(info("planner", &["plan"]));
    assert!(reg.transition(planner, AgentState::Thinking).is_ok());
    assert!(reg.can(planner, "plan"));
    assert!(!reg.can(planner, "run"));
    assert!(!reg.can(AgentId(7), "plan"));
    assert!(reg.transition(AgentId(7), AgentState::Done).is_err());
}

#[test]
fn transition_leaves_capability_answers_unchanged() {
    let mut reg = AgentRegistry::new();
    let a = reg.register(info("planner", &["plan"]));
    let before = (reg.can(a, "plan"), reg.can(a, "fly"), reg.can(AgentId(1), "plan"));
    assert!(reg.transition(a, AgentState::Done).is_ok());
    assert!(reg.transition(AgentId(1), AgentState::Idle).is_err());
    assert_eq!(before, (true, false, false));
    assert_eq!((reg.can(a, "plan"), reg.can(a, "fly"), reg.can(AgentId(1), "plan")), before);
}
