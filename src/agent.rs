//! The self-healing agent: its commands, events and states, and the
//! decision taken for each command. Running the command loop is left to
//! the caller, which performs the fetches and delivers the events.
use vstd::prelude::*;

use crate::block::{BlockHash, BlockHeader};
use crate::coloring::{colored, selected_parent_chain};
use crate::dag::{is_bluest, DagStore};
use crate::lca::{depth_of, greedy_path_intersection, has_diverged, lca_index, local_chain};
use crate::recovery::{ingest_and_recolor, ingested, known_of};

verus! {

/// Commands sent to the agent.
#[derive(Clone, Debug)]
pub enum AgentCommand {
    CheckDivergence { network_tip: BlockHash },
    StartRecovery { lca: BlockHash, missing_blocks: Vec<BlockHash> },
    UpdateNetworkTip { tip: BlockHash },
    UpdateK { new_k: u64 },
    Shutdown,
}

/// Events emitted by the agent.
#[derive(Clone, Debug)]
pub enum AgentEvent {
    StateChanged { from: AgentStateLabel, to: AgentStateLabel },
    RecoveryComplete { blocks_recovered: u64 },
    DivergenceDetected { local_tip: BlockHash, network_tip: BlockHash, divergence_depth: u64 },
    Error { message: String },
}

/// The four agent states.
#[derive(Clone, Copy, Debug, PartialEq, Eq, Structural)]
pub enum AgentStateLabel {
    Synced,
    Drifting,
    Recovering,
    Partitioned,
}

impl AgentStateLabel {
    /// The wire label: `SYNCED`, `DRIFTING`, `RECOVERING` or `PARTITIONED`.
    pub fn label(&self) -> (r: String)
        ensures
            *self is Synced ==> r@ == "SYNCED"@,
            *self is Drifting ==> r@ == "DRIFTING"@,
            *self is Recovering ==> r@ == "RECOVERING"@,
            *self is Partitioned ==> r@ == "PARTITIONED"@,
    {
        match self {
            AgentStateLabel::Synced => "SYNCED".to_owned(),
            AgentStateLabel::Drifting => "DRIFTING".to_owned(),
            AgentStateLabel::Recovering => "RECOVERING".to_owned(),
            AgentStateLabel::Partitioned => "PARTITIONED".to_owned(),
        }
    }
}

/// Events of moving from `from` to `to`: none when they are equal.
pub open spec fn transition_events(from: AgentStateLabel, to: AgentStateLabel) -> Seq<AgentEvent> {
    if from == to {
        Seq::empty()
    } else {
        seq![AgentEvent::StateChanged { from, to }]
    }
}

/// The agent's state and cached view.
#[derive(Clone, Copy, Debug)]
pub struct AgentCore {
    pub state: AgentStateLabel,
    pub local_tip: BlockHash,
    pub network_tip: Option<BlockHash>,
    pub k: u64,
}

/// What `check_divergence` does with the peer tip `nt`.
pub open spec fn check_post(
    dag: &DagStore,
    old: AgentCore,
    new: AgentCore,
    nt: BlockHash,
    events: Seq<AgentEvent>,
) -> bool {
    let lt = old.local_tip;
    &&& new.network_tip == Some(nt)
    &&& new.local_tip == lt
    &&& new.k == old.k
    &&& !dag.has(nt) ==> new.state is Drifting && events == transition_events(
        old.state,
        AgentStateLabel::Drifting,
    ).push(AgentEvent::DivergenceDetected { local_tip: lt, network_tip: nt, divergence_depth: 0 })
    &&& dag.has(nt) ==> {
        let net = local_chain(dag, nt);
        let lc = local_chain(dag, lt);
        let lca_ok = dag.has(lt) && lca_index(net, lc) >= 0;
        let depth = depth_of(net, lc);
        &&& net.contains(lt) ==> new.state is Synced && events == transition_events(
            old.state,
            AgentStateLabel::Synced,
        )
        &&& !net.contains(lt) && !lca_ok ==> new.state == old.state && events.len() == 1
            && events[0] is Error
        &&& !net.contains(lt) && lca_ok && depth > 3 * old.k ==> new.state is Partitioned && events
            == transition_events(old.state, AgentStateLabel::Partitioned)
        &&& !net.contains(lt) && lca_ok && depth <= 3 * old.k ==> new.state is Drifting && events
            == transition_events(old.state, AgentStateLabel::Drifting).push(
            AgentEvent::DivergenceDetected {
                local_tip: lt,
                network_tip: nt,
                divergence_depth: depth as u64,
            },
        )
    }
}

/// What `start_recovery` does: enter RECOVERING, ingest the fetched blocks,
/// re-color; on success move the tip to the bluest block, return to SYNCED
/// and report the number of missing blocks; on failure stay in RECOVERING
/// and report an error.
pub open spec fn recovery_post(
    old_dag: &DagStore,
    new_dag: &DagStore,
    old: AgentCore,
    new: AgentCore,
    missing: Seq<BlockHash>,
    fetched: Seq<BlockHeader>,
    events: Seq<AgentEvent>,
) -> bool {
    let e0 = transition_events(old.state, AgentStateLabel::Recovering);
    let added = ingested(known_of(old_dag), fetched);
    &&& new_dag.wf()
    &&& new_dag.n() == old_dag.n() + added.len()
    &&& forall|i: int|
        0 <= i < new_dag.n() ==> (#[trigger] new_dag.headers_seq()[i]).hash == (old_dag.headers_seq()
            + added)[i].hash && new_dag.headers_seq()[i].parents@ == (old_dag.headers_seq()
            + added)[i].parents@ && new_dag.headers_seq()[i].timestamp == (old_dag.headers_seq()
            + added)[i].timestamp
    &&& new.k == old.k
    &&& new.network_tip == old.network_tip
    &&& (old.k >= 1 && new_dag.n() > 0) ==> {
        &&& colored(new_dag, old.k as int)
        &&& is_bluest(new_dag, new.local_tip)
        &&& new.state is Synced
        &&& events == e0 + seq![
            AgentEvent::StateChanged { from: AgentStateLabel::Recovering, to: AgentStateLabel::Synced },
            AgentEvent::RecoveryComplete { blocks_recovered: missing.len() as u64 },
        ]
    }
    &&& !(old.k >= 1 && new_dag.n() > 0) ==> {
        &&& new.state is Recovering
        &&& new.local_tip == old.local_tip
        &&& events.len() == e0.len() + 1
        &&& events.take(e0.len() as int) == e0
        &&& events.last() is Error
    }
}

impl AgentCore {
    /// A new agent in SYNCED with no known peer tip.
    pub fn new(local_tip: BlockHash, k: u64) -> (r: AgentCore)
        ensures
            r.state is Synced,
            r.local_tip == local_tip,
            r.network_tip is None,
            r.k == k,
    {
        AgentCore { state: AgentStateLabel::Synced, local_tip, network_tip: None, k }
    }

    /// The current state.
    pub fn state(&self) -> (r: AgentStateLabel)
        ensures
            r == self.state,
    {
        self.state
    }

    /// Moves to `to`, recording a `StateChanged` event unless already there.
    fn transition_to(&mut self, to: AgentStateLabel, events: &mut Vec<AgentEvent>)
        ensures
            final(self).state == to,
            final(self).local_tip == old(self).local_tip,
            final(self).network_tip == old(self).network_tip,
            final(self).k == old(self).k,
            final(events)@ == old(events)@ + transition_events(old(self).state, to),
    {
        let from = self.state;
        if from == to {
            proof {
                assert(old(events)@ + transition_events(from, to) =~= old(events)@);
            }
            return;
        }
        self.state = to;
        events.push(AgentEvent::StateChanged { from, to });
        proof {
            assert(final(events)@ =~= old(events)@ + transition_events(from, to));
        }
    }

    /// Re-evaluates divergence against the peer tip `network_tip`. The peer
    /// chain is derived from the local DAG when the peer tip is stored.
    pub fn check_divergence(&mut self, dag: &DagStore, network_tip: BlockHash) -> (events: Vec<AgentEvent>)
        requires
            dag.wf(),
        ensures
            check_post(dag, *old(self), *final(self), network_tip, events@),
    {
        let mut events: Vec<AgentEvent> = Vec::new();
        self.network_tip = Some(network_tip);
        let lt = self.local_tip;
        if !dag.contains(&network_tip) {
            self.transition_to(AgentStateLabel::Drifting, &mut events);
            events.push(AgentEvent::DivergenceDetected { local_tip: lt, network_tip, divergence_depth: 0 });
            return events;
        }
        let network_chain = match selected_parent_chain(dag, &network_tip) {
            Ok(c) => c,
            Err(_) => {
                events.push(AgentEvent::Error { message: "failed to build network chain".to_owned() });
                return events;
            },
        };
        if !has_diverged(&lt, network_chain.as_slice()) {
            self.transition_to(AgentStateLabel::Synced, &mut events);
            return events;
        }
        proof {
            crate::coloring::lemma_chain_terminates(dag, dag.index_of(network_tip));
        }
        let res = match greedy_path_intersection(dag, &lt, network_chain.as_slice()) {
            Ok(r) => r,
            Err(_) => {
                events.push(AgentEvent::Error { message: "LCA computation failed".to_owned() });
                return events;
            },
        };
        let partitioned = if self.k > u64::MAX / 3 {
            false
        } else {
            res.divergence_depth > 3 * self.k
        };
        if partitioned {
            self.transition_to(AgentStateLabel::Partitioned, &mut events);
        } else {
            self.transition_to(AgentStateLabel::Drifting, &mut events);
            events.push(
                AgentEvent::DivergenceDetected {
                    local_tip: lt,
                    network_tip,
                    divergence_depth: res.divergence_depth,
                },
            );
        }
        events
    }

    /// Handles `StartRecovery`: `fetched` holds the headers that the block
    /// source returned for `missing_blocks`.
    pub fn start_recovery(
        &mut self,
        dag: &mut DagStore,
        missing_blocks: &Vec<BlockHash>,
        fetched: Vec<BlockHeader>,
    ) -> (events: Vec<AgentEvent>)
        requires
            old(dag).wf(),
        ensures
            recovery_post(old(dag), final(dag), *old(self), *final(self), missing_blocks@, fetched@, events@),
    {
        let mut events: Vec<AgentEvent> = Vec::new();
        self.transition_to(AgentStateLabel::Recovering, &mut events);
        let ghost e0 = events@;
        let blocks_to_recover = missing_blocks.len() as u64;
        let coloring = ingest_and_recolor(dag, fetched, self.k);
        if coloring.is_err() {
            events.push(AgentEvent::Error { message: "recovery re-coloring failed".to_owned() });
            proof {
                assert(events@.take(e0.len() as int) =~= e0);
            }
            return events;
        }
        self.finish_recovery(dag, &mut events, blocks_to_recover);
        events
    }

    /// The successful end of a recovery: move to the bluest tip, return to
    /// SYNCED and report.
    fn finish_recovery(&mut self, dag: &DagStore, events: &mut Vec<AgentEvent>, count: u64)
        requires
            dag.wf(),
            dag.n() > 0,
            old(self).state is Recovering,
        ensures
            is_bluest(dag, final(self).local_tip),
            final(self).state is Synced,
            final(self).k == old(self).k,
            final(self).network_tip == old(self).network_tip,
            final(events)@ == old(events)@ + seq![
                AgentEvent::StateChanged { from: AgentStateLabel::Recovering, to: AgentStateLabel::Synced },
                AgentEvent::RecoveryComplete { blocks_recovered: count },
            ],
    {
        if let Some(t) = dag.bluest_tip() {
            self.local_tip = t;
        }
        self.transition_to(AgentStateLabel::Synced, events);
        events.push(AgentEvent::RecoveryComplete { blocks_recovered: count });
        proof {
            assert(final(events)@ =~= old(events)@ + seq![
                AgentEvent::StateChanged { from: AgentStateLabel::Recovering, to: AgentStateLabel::Synced },
                AgentEvent::RecoveryComplete { blocks_recovered: count },
            ]);
        }
    }

    /// Handles one command. Returns the events to emit and whether the agent
    /// keeps running (`false` after `Shutdown`). `fetched` holds the headers
    /// fetched for a `StartRecovery`; other commands ignore it.
    pub fn handle(&mut self, dag: &mut DagStore, cmd: AgentCommand, fetched: Vec<BlockHeader>) -> (r: (Vec<AgentEvent>, bool))
        requires
            old(dag).wf(),
        ensures
            final(dag).wf(),
            cmd is Shutdown ==> r.0@.len() == 0 && !r.1 && *final(self) == *old(self) && *final(dag) == *old(dag),
            !(cmd is Shutdown) ==> r.1,
            cmd is UpdateNetworkTip ==> r.0@.len() == 0 && *final(dag) == *old(dag) && *final(self) == (AgentCore {
                network_tip: Some(cmd->UpdateNetworkTip_tip),
                ..*old(self)
            }),
            cmd is UpdateK ==> r.0@.len() == 0 && *final(dag) == *old(dag) && *final(self) == (AgentCore {
                k: cmd->UpdateK_new_k,
                ..*old(self)
            }),
            cmd is CheckDivergence ==> *final(dag) == *old(dag) && check_post(
                old(dag),
                *old(self),
                *final(self),
                cmd->CheckDivergence_network_tip,
                r.0@,
            ),
            cmd is StartRecovery ==> recovery_post(
                old(dag),
                final(dag),
                *old(self),
                *final(self),
                cmd->StartRecovery_missing_blocks@,
                fetched@,
                r.0@,
            ),
    {
        match cmd {
            AgentCommand::Shutdown => (Vec::new(), false),
            AgentCommand::UpdateNetworkTip { tip } => {
                self.network_tip = Some(tip);
                (Vec::new(), true)
            },
            AgentCommand::UpdateK { new_k } => {
                self.k = new_k;
                (Vec::new(), true)
            },
            AgentCommand::CheckDivergence { network_tip } => {
                let events = self.check_divergence(dag, network_tip);
                (events, true)
            },
            AgentCommand::StartRecovery { lca: _, missing_blocks } => {
                let events = self.start_recovery(dag, &missing_blocks, fetched);
                (events, true)
            },
        }
    }
}

/// A divergence check whose peer tip is the agent's own stored local tip,
/// made in SYNCED, emits no event and stays in SYNCED.
pub proof fn lemma_check_idempotent(dag: &DagStore, old: AgentCore, new: AgentCore, events: Seq<AgentEvent>)
    requires
        dag.wf(),
        old.state is Synced,
        dag.has(old.local_tip),
        check_post(dag, old, new, old.local_tip, events),
    ensures
        events.len() == 0,
        new.state is Synced,
{
    let lt = old.local_tip;
    let i = dag.index_of(lt);
    crate::coloring::lemma_chain_terminates(dag, i);
    let w = crate::coloring::walk_down(dag, i);
    let c = local_chain(dag, lt);
    assert(c[c.len() - 1] == w[0]);
    assert(c.contains(lt));
}

} // verus!
