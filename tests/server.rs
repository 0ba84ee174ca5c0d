use argus::block::{BlockHash, BlockHeader};
use argus::coloring::color_dag;
use argus::dag::DagStore;
use argus::server::{bluest_tips, clamp_parent_count, linearize_range_filter, max_blue_score, smart_submit_response, snapshot_of};
use argus::stream::linearize_dag;

fn h(b: u8) -> BlockHash {
    BlockHash::from_byte(b)
}

/// G; A, B on G; C on A and B; D on B.
fn forked_dag() -> DagStore {
    let mut dag = DagStore::new();
    dag.add_genesis(BlockHeader::genesis(h(0), 0)).unwrap();
    dag.add_block(BlockHeader::new(h(1), vec![h(0)], 1)).unwrap();
    dag.add_block(BlockHeader::new(h(2), vec![h(0)], 1)).unwrap();
    dag.add_block(BlockHeader::new(h(3), vec![h(1), h(2)], 2)).unwrap();
    dag.add_block(BlockHeader::new(h(4), vec![h(2)], 2)).unwrap();
    color_dag(&mut dag, 3).unwrap();
    dag
}

#[test]
fn parent_count_is_clamped() {
    assert_eq!(clamp_parent_count(0), 3);
    assert_eq!(clamp_parent_count(3), 3);
    assert_eq!(clamp_parent_count(4), 4);
    assert_eq!(clamp_parent_count(9), 5);
}

#[test]
fn bluest_tips_sorted_by_score() {
    let dag = forked_dag();
    let tips = bluest_tips(&dag, 10);
    assert_eq!(tips, vec![(h(3), 3), (h(4), 2)]);
    assert_eq!(bluest_tips(&dag, 1), vec![(h(3), 3)]);
    assert!(bluest_tips(&dag, 0).is_empty());
}

#[test]
fn smart_submit_proposes_bluest_tips() {
    let dag = forked_dag();
    let tips = bluest_tips(&dag, clamp_parent_count(1));
    let resp = smart_submit_response(&tips, 77);
    assert!(resp.accepted);
    assert_eq!(resp.selected_parents, vec![h(3).to_hex(), h(4).to_hex()]);
    assert_eq!(resp.parent_blue_scores, vec![3, 2]);
    assert_eq!(resp.suggested_timestamp, 77);
    let empty = smart_submit_response(&vec![], 5);
    assert!(!empty.accepted);
}

#[test]
fn snapshot_keeps_last_blocks_and_bluest_tip() {
    let mut dag = forked_dag();
    let coloring = color_dag(&mut dag, 3).unwrap();
    let snap = snapshot_of(&dag, &coloring, 2, 3, 1234).unwrap();
    assert_eq!(snap.total_blocks, 5);
    assert_eq!(snap.blocks.len(), 2);
    assert_eq!(snap.blocks[0].topological_index, 3);
    assert_eq!(snap.blocks[1].topological_index, 4);
    assert_eq!(snap.tip, h(3).to_hex());
    assert_eq!(snap.k, 3);
    assert_eq!(snap.generated_at, 1234);
    let all = snapshot_of(&dag, &coloring, 100, 3, 0).unwrap();
    assert_eq!(all.blocks.len(), 5);
    let empty = snapshot_of(&DagStore::new(), &coloring, 10, 3, 0).unwrap();
    assert!(empty.blocks.is_empty() && empty.tip.is_empty());
}

#[test]
fn range_filter_keeps_scores_in_bounds() {
    let mut dag = forked_dag();
    let coloring = color_dag(&mut dag, 3).unwrap();
    let blocks = linearize_dag(&dag, &coloring).unwrap();
    let mid = linearize_range_filter(blocks, 1, 2);
    let scores: Vec<u64> = mid.iter().map(|b| b.blue_score).collect();
    assert_eq!(scores, vec![1, 1, 2]);
}

#[test]
fn max_score_over_headers() {
    let dag = forked_dag();
    assert_eq!(max_blue_score(&dag), 3);
    assert_eq!(max_blue_score(&DagStore::new()), 0);
}

/// The diamond G; A, B on G; C on A and B, colored with k = 3.
fn colored_diamond() -> (DagStore, argus::coloring::ColoringOutput) {
    let mut dag = DagStore::new();
    dag.add_genesis(BlockHeader::genesis(h(0), 0)).unwrap();
    dag.add_block(BlockHeader::new(h(1), vec![h(0)], 1)).unwrap();
    dag.add_block(BlockHeader::new(h(2), vec![h(0)], 1)).unwrap();
    dag.add_block(BlockHeader::new(h(3), vec![h(1), h(2)], 2)).unwrap();
    let coloring = color_dag(&mut dag, 3).unwrap();
    (dag, coloring)
}

#[test]
fn test_get_snapshot() {
    let (dag, coloring) = colored_diamond();
    let snapshot = snapshot_of(&dag, &coloring, 10, 3, 0).unwrap();
    assert_eq!(snapshot.blocks.len(), 4);
    assert_eq!(snapshot.k, 3);
}

#[test]
fn test_smart_submit() {
    let (dag, _) = colored_diamond();
    let req = argus::SmartSubmitRequest { payload: "deadbeef".to_string(), parent_count: 3 };
    let tips = bluest_tips(&dag, clamp_parent_count(req.parent_count));
    let resp = smart_submit_response(&tips, 0);
    assert!(resp.accepted);
    assert!(!resp.selected_parents.is_empty());
}

#[test]
fn test_linearize_range() {
    let (dag, coloring) = colored_diamond();
    let blocks = linearize_range_filter(linearize_dag(&dag, &coloring).unwrap(), 0, 100);
    assert_eq!(blocks.len(), 4);
}
