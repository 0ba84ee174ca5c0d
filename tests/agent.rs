use argus::agent::{AgentCommand, AgentCore, AgentEvent, AgentStateLabel};
use argus::block::{BlockHash, BlockHeader};
use argus::coloring::color_dag;
use argus::dag::DagStore;
use argus::errors::GhostDagError;
use argus::lca::{greedy_path_intersection, has_diverged};
use argus::recovery::{ingest_and_recolor, ingest_blocks, tick_decision, RecoveryConfig, TickAction};

fn h(b: u8) -> BlockHash {
    BlockHash::from_byte(b)
}

fn build_divergent_dags() -> (DagStore, Vec<BlockHash>) {
    let mut local_dag = DagStore::new();
    local_dag.add_genesis(BlockHeader::genesis(h(0), 0)).unwrap();
    local_dag.add_block(BlockHeader::new(h(1), vec![h(0)], 1)).unwrap();
    local_dag.add_block(BlockHeader::new(h(2), vec![h(1)], 2)).unwrap();
    color_dag(&mut local_dag, 3).unwrap();
    (local_dag, vec![h(0), h(1), h(3), h(4)])
}

/// G -> A, colored with k = 3; the agent's tip is A.
fn synced_agent() -> (DagStore, AgentCore) {
    let mut dag = DagStore::new();
    dag.add_genesis(BlockHeader::genesis(h(0), 0)).unwrap();
    dag.add_block(BlockHeader::new(h(1), vec![h(0)], 1)).unwrap();
    color_dag(&mut dag, 3).unwrap();
    (dag, AgentCore::new(h(1), 3))
}

#[test]
fn test_lca_detection() {
    let (local_dag, network_chain) = build_divergent_dags();
    let b = BlockHash::from_byte(2);
    let result = greedy_path_intersection(&local_dag, &b, &network_chain).unwrap();
    assert_eq!(result.lca, BlockHash::from_byte(1));
    assert_eq!(result.missing_blocks.len(), 2);
    assert!(result.missing_blocks.contains(&BlockHash::from_byte(3)));
    assert!(result.missing_blocks.contains(&BlockHash::from_byte(4)));
    assert_eq!(result.divergence_depth, 1);
}

#[test]
fn lca_scenario_exact() {
    let (local_dag, network_chain) = build_divergent_dags();
    let result = greedy_path_intersection(&local_dag, &h(2), &network_chain).unwrap();
    assert_eq!(result.lca, h(1));
    assert_eq!(result.missing_blocks, vec![h(3), h(4)]);
    assert_eq!(result.divergence_depth, 1);
}

#[test]
fn test_no_divergence() {
    let g = BlockHash::from_byte(0);
    let a = BlockHash::from_byte(1);
    let mut dag = DagStore::new();
    dag.add_genesis(BlockHeader::genesis(g, 0)).unwrap();
    dag.add_block(BlockHeader::new(a, vec![g], 1)).unwrap();
    color_dag(&mut dag, 3).unwrap();
    let network_chain = vec![g, a];
    let result = greedy_path_intersection(&dag, &a, &network_chain).unwrap();
    assert_eq!(result.lca, a);
    assert!(result.missing_blocks.is_empty());
    assert_eq!(result.divergence_depth, 0);
    assert!(!has_diverged(&a, &network_chain));
}

#[test]
fn test_has_diverged() {
    let a = BlockHash::from_byte(1);
    let b = BlockHash::from_byte(2);
    let chain = vec![BlockHash::from_byte(0), a];
    assert!(!has_diverged(&a, &chain));
    assert!(has_diverged(&b, &chain));
}

#[test]
fn lca_is_latest_common_block_and_skips_stored_ones() {
    let (mut dag, _) = build_divergent_dags();
    dag.add_block(BlockHeader::new(h(3), vec![h(1)], 3)).unwrap();
    color_dag(&mut dag, 3).unwrap();
    // The peer chain runs through C, which the local DAG has but its chain does not.
    let peer = vec![h(0), h(1), h(3), h(5)];
    let result = greedy_path_intersection(&dag, &h(2), &peer).unwrap();
    assert_eq!(result.lca, h(1));
    assert_eq!(result.missing_blocks, vec![h(5)]);
    assert_eq!(result.divergence_depth, 1);
}

#[test]
fn lca_errors() {
    let (dag, network_chain) = build_divergent_dags();
    assert!(matches!(greedy_path_intersection(&dag, &h(2), &[]), Err(GhostDagError::Internal(_))));
    assert!(matches!(
        greedy_path_intersection(&dag, &h(9), &network_chain),
        Err(GhostDagError::BlockNotFound(x)) if x == h(9)
    ));
    assert!(matches!(greedy_path_intersection(&dag, &h(2), &[h(7), h(8)]), Err(GhostDagError::Internal(_))));
}

#[test]
fn test_synced_no_divergence() {
    let (mut dag, mut agent) = synced_agent();
    let (events, running) = agent.handle(&mut dag, AgentCommand::CheckDivergence { network_tip: BlockHash::from_byte(1) }, vec![]);
    assert!(running);
    assert!(events.iter().all(|e| !matches!(e, AgentEvent::DivergenceDetected { .. })));
    assert!(events.is_empty());
    assert_eq!(agent.state(), AgentStateLabel::Synced);
    let (events, running) = agent.handle(&mut dag, AgentCommand::Shutdown, vec![]);
    assert!(!running);
    assert!(events.is_empty());
}

#[test]
fn test_divergence_detection() {
    let (mut dag, mut agent) = synced_agent();
    let (events, _) = agent.handle(&mut dag, AgentCommand::CheckDivergence { network_tip: BlockHash::from_byte(99) }, vec![]);
    match &events[0] {
        AgentEvent::StateChanged { from, to } => {
            assert_eq!(*from, AgentStateLabel::Synced);
            assert_eq!(*to, AgentStateLabel::Drifting);
        }
        other => panic!("Expected StateChanged, got {other:?}"),
    }
}

#[test]
fn divergence_event_scenario() {
    let (mut dag, mut agent) = synced_agent();
    let (events, _) = agent.handle(&mut dag, AgentCommand::CheckDivergence { network_tip: h(99) }, vec![]);
    assert_eq!(events.len(), 2);
    assert!(matches!(events[0], AgentEvent::StateChanged { from: AgentStateLabel::Synced, to: AgentStateLabel::Drifting }));
    assert!(matches!(
        events[1],
        AgentEvent::DivergenceDetected { local_tip, network_tip, divergence_depth: 0 } if local_tip == h(1) && network_tip == h(99)
    ));
    assert_eq!(agent.network_tip, Some(h(99)));
}

#[test]
fn test_recovery_flow() {
    let (mut dag, mut agent) = synced_agent();
    let cmd = AgentCommand::StartRecovery {
        lca: BlockHash::from_byte(0),
        missing_blocks: vec![BlockHash::from_byte(5), BlockHash::from_byte(6)],
    };
    let (events, _) = agent.handle(&mut dag, cmd, vec![]);
    assert!(events.iter().any(|e| matches!(e, AgentEvent::RecoveryComplete { .. })));
}

#[test]
fn recovery_scenario_events() {
    let (mut dag, mut agent) = synced_agent();
    let cmd = AgentCommand::StartRecovery { lca: h(0), missing_blocks: vec![h(5), h(6)] };
    let (events, _) = agent.handle(&mut dag, cmd, vec![]);
    assert_eq!(events.len(), 3);
    assert!(matches!(events[0], AgentEvent::StateChanged { from: AgentStateLabel::Synced, to: AgentStateLabel::Recovering }));
    assert!(matches!(events[1], AgentEvent::StateChanged { from: AgentStateLabel::Recovering, to: AgentStateLabel::Synced }));
    assert!(matches!(events[2], AgentEvent::RecoveryComplete { blocks_recovered: 2 }));
    assert_eq!(agent.state(), AgentStateLabel::Synced);
}

#[test]
fn recovery_ingests_fetched_blocks_and_moves_tip() {
    let (mut dag, mut agent) = synced_agent();
    let fetched = vec![
        BlockHeader::new(h(5), vec![h(1)], 2),
        BlockHeader::new(h(7), vec![h(8)], 3),
        BlockHeader::new(h(6), vec![h(5)], 3),
    ];
    let cmd = AgentCommand::StartRecovery { lca: h(1), missing_blocks: vec![h(5), h(6)] };
    let (events, _) = agent.handle(&mut dag, cmd, fetched);
    assert_eq!(dag.len(), 4);
    assert!(dag.contains(&h(6)) && !dag.contains(&h(7)));
    assert_eq!(agent.local_tip, h(6));
    assert!(matches!(events.last().unwrap(), AgentEvent::RecoveryComplete { blocks_recovered: 2 }));
}

#[test]
fn failed_recoloring_keeps_recovering() {
    let (mut dag, mut agent) = synced_agent();
    agent.handle(&mut dag, AgentCommand::UpdateK { new_k: 0 }, vec![]);
    let cmd = AgentCommand::StartRecovery { lca: h(0), missing_blocks: vec![] };
    let (events, _) = agent.handle(&mut dag, cmd, vec![]);
    assert_eq!(events.len(), 2);
    assert!(matches!(events[1], AgentEvent::Error { .. }));
    assert_eq!(agent.state(), AgentStateLabel::Recovering);
    assert_eq!(agent.local_tip, h(1));
}

#[test]
fn state_machine_test_update_k() {
    let (mut dag, mut agent) = synced_agent();
    let (events, running) = agent.handle(&mut dag, AgentCommand::UpdateK { new_k: 10 }, vec![]);
    assert!(running && events.is_empty());
    assert_eq!(agent.k, 10);
    let (events, _) = agent.handle(&mut dag, AgentCommand::UpdateNetworkTip { tip: h(1) }, vec![]);
    assert!(events.is_empty());
    assert_eq!(agent.network_tip, Some(h(1)));
}

#[test]
fn deep_divergence_is_a_partition() {
    // Local chain G -> A -> B -> C -> D, peer tip E on G; k = 1, threshold 3.
    let mut dag = DagStore::new();
    dag.add_genesis(BlockHeader::genesis(h(0), 0)).unwrap();
    dag.add_block(BlockHeader::new(h(1), vec![h(0)], 1)).unwrap();
    dag.add_block(BlockHeader::new(h(2), vec![h(1)], 2)).unwrap();
    dag.add_block(BlockHeader::new(h(3), vec![h(2)], 3)).unwrap();
    dag.add_block(BlockHeader::new(h(4), vec![h(3)], 4)).unwrap();
    dag.add_block(BlockHeader::new(h(5), vec![h(0)], 5)).unwrap();
    color_dag(&mut dag, 1).unwrap();
    let mut agent = AgentCore::new(h(4), 1);
    let events = agent.check_divergence(&dag, h(5));
    assert_eq!(agent.state(), AgentStateLabel::Partitioned);
    assert_eq!(events.len(), 1);
    // Back within the threshold: PARTITIONED -> DRIFTING.
    agent.k = 2;
    let events = agent.check_divergence(&dag, h(5));
    assert_eq!(agent.state(), AgentStateLabel::Drifting);
    assert!(matches!(events[1], AgentEvent::DivergenceDetected { divergence_depth: 4, .. }));
}

#[test]
fn state_labels() {
    assert_eq!(AgentStateLabel::Synced.label(), "SYNCED");
    assert_eq!(AgentStateLabel::Drifting.label(), "DRIFTING");
    assert_eq!(AgentStateLabel::Recovering.label(), "RECOVERING");
    assert_eq!(AgentStateLabel::Partitioned.label(), "PARTITIONED");
}

#[test]
fn test_ingest_and_recolor() {
    let mut dag = DagStore::new();
    let g = BlockHash::from_byte(0);
    let a = BlockHash::from_byte(1);
    dag.add_genesis(BlockHeader::genesis(g, 0)).unwrap();
    dag.add_block(BlockHeader::new(a, vec![g], 1)).unwrap();
    color_dag(&mut dag, 3).unwrap();
    let b = BlockHash::from_byte(2);
    let new_block = BlockHeader::new(b, vec![a], 2);
    let coloring = ingest_and_recolor(&mut dag, vec![new_block], 3).unwrap();
    assert_eq!(coloring.blue_set.len(), 3);
}

#[test]
fn ingest_skips_duplicates_orphans_and_missing_parents() {
    let (mut dag, _) = synced_agent();
    ingest_blocks(
        &mut dag,
        vec![
            BlockHeader::new(h(1), vec![h(0)], 1),
            BlockHeader::new(h(2), vec![], 1),
            BlockHeader::new(h(3), vec![h(4)], 1),
            BlockHeader::new(h(4), vec![h(1)], 1),
            BlockHeader::new(h(3), vec![h(4)], 1),
        ],
    );
    assert_eq!(dag.all_hashes(), vec![h(0), h(1), h(4), h(3)]);
}

#[test]
fn tick_decisions() {
    let config = RecoveryConfig::default();
    let (local, _) = build_divergent_dags();
    assert!(matches!(tick_decision(&local, None, &config), TickAction::Skip));
    assert!(matches!(tick_decision(&DagStore::new(), Some(h(0)), &config), TickAction::Skip));
    assert!(matches!(tick_decision(&local, Some(h(9)), &config), TickAction::CheckDivergence { network_tip } if network_tip == h(9)));
    assert!(matches!(tick_decision(&local, Some(h(2)), &config), TickAction::InSync));

    let mut dag = local.clone();
    dag.add_block(BlockHeader::new(h(3), vec![h(1)], 3)).unwrap();
    dag.add_block(BlockHeader::new(h(4), vec![h(2)], 3)).unwrap();
    color_dag(&mut dag, 3).unwrap();
    // Bluest tip is D (score 3); the peer tip C forks at A.
    match tick_decision(&dag, Some(h(3)), &config) {
        TickAction::Recover { lca, missing_blocks } => {
            assert_eq!(lca, h(1));
            assert!(missing_blocks.is_empty());
        }
        other => panic!("unexpected {other:?}"),
    }
    let strict = RecoveryConfig { k: 0, ..RecoveryConfig::default() };
    assert!(matches!(
        tick_decision(&dag, Some(h(3)), &strict),
        TickAction::Partitioned { local_tip, divergence_depth: 2, .. } if local_tip == h(4)
    ));
}
