//! A registry of agents and their capabilities: ids are handed out in
//! registration order, and a capability query answers for registered agents
//! only.
use vstd::prelude::*;
use crate::util::{names_v, decimal, digit_char};

verus! {

/// How an agent retries failed work.
#[derive(Debug, Clone, Copy, PartialEq, Eq, Default)]
pub struct RetryPolicy;

/// What is registered about an agent.
#[derive(Debug, Clone)]
pub struct AgentInfo {
    pub name: String,
    /// The capabilities the agent offers; a name may appear more than once.
    pub capabilities: Vec<String>,
    pub retry_policy: RetryPolicy,
}

/// The id of a registered agent: its position in registration order.
#[derive(Debug, Clone, Copy, PartialEq, Eq, Hash, Structural)]
pub struct AgentId(pub usize);

/// The lifecycle states an agent moves through.
#[derive(Debug, Clone, Copy, PartialEq, Eq, Structural)]
pub enum AgentState {
    Thinking,
    Idle,
    Done,
}

/// The error of a transition for an agent that was never registered.
#[derive(Debug, Clone, Copy, PartialEq, Eq, Structural)]
pub struct AgentError;

/// The registered agents, in registration order.
pub struct AgentRegistry {
    agents: Vec<AgentInfo>,
}

/// The display text of an id, `agent-<n>`.
pub open spec fn id_text(id: AgentId) -> Seq<char> {
    "agent-"@ + decimal(id.0 as nat)
}

/// Whether agent `id` is registered in `caps` and offers `c`.
pub open spec fn offers(caps: Seq<Seq<Seq<char>>>, id: AgentId, c: Seq<char>) -> bool {
    id.0 < caps.len() && caps[id.0 as int].contains(c)
}

/// A registration: the new agent's id is the number registered before, and
/// its capabilities come last.
pub open spec fn registered(before: Seq<Seq<Seq<char>>>, after: Seq<Seq<Seq<char>>>, c: Seq<Seq<char>>, id: AgentId) -> bool {
    id.0 == before.len() && after == before.push(c)
}

/// A transition: it succeeds exactly for registered ids and changes nothing
/// registered.
pub open spec fn transitioned(before: Seq<Seq<Seq<char>>>, after: Seq<Seq<Seq<char>>>, id: AgentId, ok: bool) -> bool {
    after == before && (ok <==> id.0 < before.len())
}

impl AgentId {
    /// The id's display text, `agent-<n>`.
    pub fn to_string(&self) -> (s: String)
        ensures
            s@ == id_text(*self),
    {
        let mut s = String::from_str("agent-");
        crate::util::push_decimal(&mut s, self.0 as u64);
        s
    }
}

impl AgentRegistry {
    /// The capabilities of each registered agent, in registration order.
    pub closed spec fn caps(&self) -> Seq<Seq<Seq<char>>> {
        self.agents@.map_values(|a: AgentInfo| names_v(a.capabilities@))
    }

    /// An empty registry.
    pub fn new() -> (r: AgentRegistry)
        ensures
            r.caps() == Seq::<Seq<Seq<char>>>::empty(),
    {
        let r = AgentRegistry { agents: Vec::new() };
        assert(r.caps() =~= Seq::<Seq<Seq<char>>>::empty());
        r
    }

    /// Registers an agent; its id is the number of agents registered before.
    pub fn register(&mut self, info: AgentInfo) -> (id: AgentId)
        ensures
            registered(old(self).caps(), final(self).caps(), names_v(info.capabilities@), id),
    {
        let id = AgentId(self.agents.len());
        let ghost before = self.caps();
        let ghost c = names_v(info.capabilities@);
        self.agents.push(info);
        assert(self.caps() =~= before.push(c));
        id
    }

    /// Moves a registered agent into `state`; an unknown id is an error.
    pub fn transition(&mut self, id: AgentId, state: AgentState) -> (r: Result<(), AgentError>)
        ensures
            transitioned(old(self).caps(), final(self).caps(), id, r is Ok),
    {
        if id.0 < self.agents.len() {
            Ok(())
        } else {
            Err(AgentError)
        }
    }

    /// Whether the agent `id` is registered and offers `capability`.
    pub fn can(&self, id: AgentId, capability: &str) -> (b: bool)
        ensures
            b == offers(self.caps(), id, capability@),
    {
        if id.0 >= self.agents.len() {
            return false;
        }
        let caps = &self.agents[id.0].capabilities;
        assert(self.caps()[id.0 as int] == names_v(caps@));
        let mut i: usize = 0;
        while i < caps.len()
            invariant
                i <= caps@.len(),
                id.0 < self.caps().len(),
                self.caps()[id.0 as int] == names_v(caps@),
                forall|k: int| 0 <= k < i ==> caps@[k]@ != capability@,
            decreases caps.len() - i,
        {
            if crate::util::str_eq(caps[i].as_str(), capability) {
                assert(names_v(caps@)[i as int] == capability@);
                return true;
            }
            i += 1;
        }
        proof {
            if names_v(caps@).contains(capability@) {
                let k = choose|k: int| 0 <= k < names_v(caps@).len() && names_v(caps@)[k] == capability@;
                assert(caps@[k]@ == capability@);
            }
        }
        false
    }
}


proof fn lemma_decimal_len(n: nat)
    ensures
        decimal(n).len() >= 1,
        n >= 10 ==> decimal(n).len() >= 2,
    decreases n,
{
    if n >= 10 {
        lemma_decimal_len(n / 10);
    }
}

/// Different numbers have different decimal texts.
proof fn lemma_decimal_injective(a: nat, b: nat)
    requires
        decimal(a) == decimal(b),
    ensures
        a == b,
    decreases a,
{
    lemma_decimal_len(a);
    lemma_decimal_len(b);
    if a < 10 && b < 10 {
        assert(decimal(a)[0] == digit_char(a));
        assert(decimal(b)[0] == digit_char(b));
    } else if a >= 10 && b >= 10 {
        assert(decimal(a).drop_last() == decimal(a / 10));
        assert(decimal(b).drop_last() == decimal(b / 10));
        lemma_decimal_injective(a / 10, b / 10);
        assert(decimal(a).last() == digit_char(a % 10));
        assert(decimal(b).last() == digit_char(b % 10));
    }
}

proof fn lemma_agent_text_injective(a: nat, b: nat)
    requires
        "agent-"@ + decimal(a) == "agent-"@ + decimal(b),
    ensures
        a == b,
{
    reveal_strlit("agent-");
    let p = "agent-"@;
    assert((p + decimal(a)).skip(p.len() as int) =~= decimal(a));
    assert((p + decimal(b)).skip(p.len() as int) =~= decimal(b));
    lemma_decimal_injective(a, b);
}

/// Two ids with the same display text are the same id.
pub proof fn lemma_id_text_injective(a: AgentId, b: AgentId)
    requires
        id_text(a) == id_text(b),
    ensures
        a == b,
{
    lemma_agent_text_injective(a.0 as nat, b.0 as nat);
}

/// Registering agents one after another into an empty registry hands out
/// the ids `agent-0`, `agent-1`, ... in order, and the registry then holds
/// their capabilities in that order.
pub proof fn lemma_registration_order(
    states: Seq<Seq<Seq<Seq<char>>>>,
    infos: Seq<Seq<Seq<char>>>,
    ids: Seq<AgentId>,
)
    requires
        states.len() == infos.len() + 1,
        ids.len() == infos.len(),
        states[0] == Seq::<Seq<Seq<char>>>::empty(),
        forall|k: int| 0 <= k < infos.len() ==> registered(#[trigger] states[k], states[k + 1], infos[k], ids[k]),
    ensures
        states.last() == infos,
        forall|k: int| 0 <= k < ids.len() ==> #[trigger] id_text(ids[k]) == "agent-"@ + decimal(k as nat),
    decreases infos.len(),
{
    if infos.len() > 0 {
        let n = infos.len() - 1;
        let s2 = states.drop_last();
        let i2 = infos.drop_last();
        let d2 = ids.drop_last();
        assert forall|k: int| 0 <= k < i2.len() implies registered(#[trigger] s2[k], s2[k + 1], i2[k], d2[k]) by {
            assert(registered(states[k], states[k + 1], infos[k], ids[k]));
        }
        lemma_registration_order(s2, i2, d2);
        assert(registered(states[n], states[n + 1], infos[n], ids[n]));
        assert(states[n] == s2.last());
        assert(states.last() =~= infos);
        assert forall|k: int| 0 <= k < ids.len() implies #[trigger] id_text(ids[k]) == "agent-"@ + decimal(k as nat) by {
            if k < n {
                assert(ids[k] == d2[k]);
            } else {
                assert(states[n].len() == n);
            }
        }
    }
}

/// `transition` succeeds exactly for the ids handed out so far (those whose
/// text is `agent-k` for a k below the number of registered agents), and
/// leaves every capability answer as it was.
pub proof fn lemma_transition_law(
    before: Seq<Seq<Seq<char>>>,
    after: Seq<Seq<Seq<char>>>,
    id: AgentId,
    ok: bool,
)
    requires
        transitioned(before, after, id, ok),
    ensures
        ok <==> exists|k: nat| k < before.len() && id_text(id) == "agent-"@ + decimal(k),
        forall|other: AgentId, c: Seq<char>| offers(after, other, c) == offers(before, other, c),
{
    if ok {
        assert(id_text(id) == "agent-"@ + decimal(id.0 as nat));
    }
    if exists|k: nat| k < before.len() && id_text(id) == "agent-"@ + decimal(k) {
        let k = choose|k: nat| k < before.len() && id_text(id) == "agent-"@ + decimal(k);
        lemma_agent_text_injective(k, id.0 as nat);
    }
}

/// `can` answers true exactly for an id handed out so far (`agent-j` for a
/// j below the number of registered agents) whose agent offers the
/// capability.
pub proof fn lemma_can_law(caps: Seq<Seq<Seq<char>>>, id: AgentId, c: Seq<char>)
    ensures
        offers(caps, id, c) <==> exists|j: nat| j < caps.len() && id_text(id) == "agent-"@ + decimal(j) && caps[j as int].contains(c),
{
    if offers(caps, id, c) {
        assert(id_text(id) == "agent-"@ + decimal(id.0 as nat));
    }
    if exists|j: nat| j < caps.len() && id_text(id) == "agent-"@ + decimal(j) && caps[j as int].contains(c) {
        let j = choose|j: nat| j < caps.len() && id_text(id) == "agent-"@ + decimal(j) && caps[j as int].contains(c);
        lemma_agent_text_injective(j, id.0 as nat);
    }
}

} // verus!
