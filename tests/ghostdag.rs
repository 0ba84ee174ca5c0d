use argus::block::{BlockHash, BlockHeader};
use argus::coloring::{blue_anticone_size, color_dag, selected_parent_chain};
use argus::dag::DagStore;
use argus::errors::GhostDagError;
use argus::ordering::{compare_blocks, total_order, total_order_hashes};

fn h(b: u8) -> BlockHash {
    BlockHash::from_byte(b)
}

/// G; A, B on G; C on A and B.
fn diamond_dag() -> DagStore {
    let mut dag = DagStore::new();
    dag.add_genesis(BlockHeader::genesis(h(0), 0)).unwrap();
    dag.add_block(BlockHeader::new(h(1), vec![h(0)], 1)).unwrap();
    dag.add_block(BlockHeader::new(h(2), vec![h(0)], 1)).unwrap();
    dag.add_block(BlockHeader::new(h(3), vec![h(1), h(2)], 2)).unwrap();
    dag
}

/// G -> {A, B}; A -> {C, D}; B -> {E, F}; H -> {C, E}.
fn build_test_dag() -> DagStore {
    let mut dag = DagStore::new();
    dag.add_genesis(BlockHeader::genesis(h(0), 0)).unwrap();
    dag.add_block(BlockHeader::new(h(1), vec![h(0)], 1)).unwrap();
    dag.add_block(BlockHeader::new(h(2), vec![h(0)], 1)).unwrap();
    dag.add_block(BlockHeader::new(h(3), vec![h(1)], 2)).unwrap();
    dag.add_block(BlockHeader::new(h(4), vec![h(1)], 2)).unwrap();
    dag.add_block(BlockHeader::new(h(5), vec![h(2)], 2)).unwrap();
    dag.add_block(BlockHeader::new(h(6), vec![h(2)], 2)).unwrap();
    dag.add_block(BlockHeader::new(h(7), vec![h(3), h(5)], 3)).unwrap();
    dag
}

fn build_10_block_dag() -> DagStore {
    let mut dag = DagStore::new();
    dag.add_genesis(BlockHeader::genesis(h(0), 0)).unwrap();
    dag.add_block(BlockHeader::new(h(1), vec![h(0)], 1)).unwrap();
    dag.add_block(BlockHeader::new(h(2), vec![h(0)], 1)).unwrap();
    dag.add_block(BlockHeader::new(h(3), vec![h(0)], 1)).unwrap();
    dag.add_block(BlockHeader::new(h(4), vec![h(1)], 2)).unwrap();
    dag.add_block(BlockHeader::new(h(5), vec![h(1)], 2)).unwrap();
    dag.add_block(BlockHeader::new(h(6), vec![h(3)], 2)).unwrap();
    dag.add_block(BlockHeader::new(h(7), vec![h(4), h(5)], 3)).unwrap();
    dag.add_block(BlockHeader::new(h(8), vec![h(5), h(6)], 3)).unwrap();
    dag.add_block(BlockHeader::new(h(9), vec![h(7), h(8)], 4)).unwrap();
    dag
}

#[test]
fn test_block_hash_xor() {
    let a = BlockHash::from_u64(0xFF00);
    let b = BlockHash::from_u64(0x00FF);
    let c = a.xor(&b);
    assert_eq!(c, BlockHash::from_u64(0xFFFF));
}

#[test]
fn test_block_hash_ordering() {
    let a = BlockHash::from_byte(1);
    let b = BlockHash::from_byte(2);
    assert!(a < b);
}

#[test]
fn test_genesis() {
    let g = BlockHeader::genesis(BlockHash::from_byte(0), 1000);
    assert!(g.is_genesis());
    assert_eq!(g.parents.len(), 0);
}

#[test]
fn hash_compare_and_same_agree_with_byte_order() {
    let a = BlockHash::from_u64(0x0100);
    let b = BlockHash::from_u64(0x00FF);
    assert_eq!(a.compare(&b), std::cmp::Ordering::Greater);
    assert_eq!(b.compare(&a), std::cmp::Ordering::Less);
    assert_eq!(a.compare(&a), std::cmp::Ordering::Equal);
    assert!(a.same(&a));
    assert!(!a.same(&b));
    assert_eq!(a.as_bytes()[30], 1);
    assert_eq!(BlockHash::zero(), BlockHash([0u8; 32]));
}

#[test]
fn hash_to_hex_is_lowercase_big_endian() {
    let a = BlockHash::from_u64(0xABCD);
    let hex = a.to_hex();
    assert_eq!(hex.len(), 64);
    assert_eq!(&hex[..60], "0".repeat(60).as_str());
    assert_eq!(&hex[60..], "abcd");
}

#[test]
fn test_past() {
    let dag = diamond_dag();
    let c = BlockHash::from_byte(3);
    let past = dag.past(&c).unwrap();
    assert!(past.contains(&BlockHash::from_byte(0)));
    assert!(past.contains(&BlockHash::from_byte(1)));
    assert!(past.contains(&BlockHash::from_byte(2)));
    assert!(!past.contains(&c));
}

#[test]
fn test_future() {
    let dag = diamond_dag();
    let g = BlockHash::from_byte(0);
    let future = dag.future(&g).unwrap();
    assert!(future.contains(&BlockHash::from_byte(1)));
    assert!(future.contains(&BlockHash::from_byte(2)));
    assert!(future.contains(&BlockHash::from_byte(3)));
}

#[test]
fn test_anticone() {
    let dag = diamond_dag();
    let a = BlockHash::from_byte(1);
    let ac = dag.anticone(&a).unwrap();
    assert_eq!(ac.len(), 1);
    assert!(ac.contains(&BlockHash::from_byte(2)));
}

#[test]
fn test_tips() {
    let dag = diamond_dag();
    let tips = dag.tips();
    assert_eq!(tips.len(), 1);
    assert_eq!(tips[0], BlockHash::from_byte(3));
}

#[test]
fn test_topological_order() {
    let dag = diamond_dag();
    let order = dag.topological_order().unwrap();
    assert_eq!(order.len(), 4);
    assert_eq!(order[0], BlockHash::from_byte(0));
    assert_eq!(order[3], BlockHash::from_byte(3));
}

#[test]
fn single_block_past_and_future_are_empty() {
    let mut dag = DagStore::new();
    dag.add_genesis(BlockHeader::genesis(h(0), 0)).unwrap();
    assert!(dag.past(&h(0)).unwrap().is_empty());
    assert!(dag.future(&h(0)).unwrap().is_empty());
    assert!(dag.anticone(&h(0)).unwrap().is_empty());
}

#[test]
fn children_and_parents_are_inverse() {
    let dag = diamond_dag();
    let ch = dag.children_of(&h(0)).unwrap();
    assert_eq!(ch.len(), 2);
    assert!(ch.contains(&h(1)) && ch.contains(&h(2)));
    assert_eq!(dag.parents(&h(3)).unwrap(), &[h(1), h(2)][..]);
    assert!(dag.children_of(&h(3)).unwrap().is_empty());
}

#[test]
fn store_queries() {
    let dag = diamond_dag();
    assert_eq!(dag.len(), 4);
    assert!(!dag.is_empty());
    assert_eq!(dag.genesis(), Some(h(0)));
    assert!(dag.contains(&h(2)));
    assert!(!dag.contains(&h(9)));
    assert_eq!(dag.all_hashes(), vec![h(0), h(1), h(2), h(3)]);
    assert_eq!(dag.headers().len(), 4);
    assert_eq!(dag.get(&h(3)).unwrap().timestamp, 2);
    assert!(DagStore::new().is_empty());
}

#[test]
fn duplicate_genesis_is_rejected() {
    let mut dag = diamond_dag();
    let r = dag.add_genesis(BlockHeader::genesis(h(9), 0));
    assert!(matches!(r, Err(GhostDagError::DuplicateBlock(x)) if x == h(9)));
    assert_eq!(dag.len(), 4);
}

#[test]
fn genesis_with_parents_is_rejected() {
    let mut dag = DagStore::new();
    let r = dag.add_genesis(BlockHeader::new(h(1), vec![h(0)], 0));
    assert!(matches!(r, Err(GhostDagError::MissingParent { child, parent }) if child == h(1) && parent == h(0)));
    assert!(dag.is_empty());
}

#[test]
fn duplicate_block_is_rejected() {
    let mut dag = diamond_dag();
    let r = dag.add_block(BlockHeader::new(h(2), vec![h(0)], 5));
    assert!(matches!(r, Err(GhostDagError::DuplicateBlock(x)) if x == h(2)));
}

#[test]
fn parentless_block_is_orphan() {
    let mut dag = diamond_dag();
    let r = dag.add_block(BlockHeader::new(h(8), vec![], 5));
    assert!(matches!(r, Err(GhostDagError::OrphanBlock(x)) if x == h(8)));
}

#[test]
fn first_missing_parent_is_reported() {
    let mut dag = diamond_dag();
    let r = dag.add_block(BlockHeader::new(h(8), vec![h(1), h(7), h(6)], 5));
    assert!(matches!(r, Err(GhostDagError::MissingParent { child, parent }) if child == h(8) && parent == h(7)));
    assert_eq!(dag.len(), 4);
}

#[test]
fn unknown_block_is_not_found() {
    let dag = diamond_dag();
    assert!(matches!(dag.get(&h(9)), Err(GhostDagError::BlockNotFound(x)) if x == h(9)));
    assert!(matches!(dag.past(&h(9)), Err(GhostDagError::BlockNotFound(_))));
    assert!(matches!(dag.future(&h(9)), Err(GhostDagError::BlockNotFound(_))));
    assert!(matches!(dag.anticone(&h(9)), Err(GhostDagError::BlockNotFound(_))));
    assert!(matches!(dag.children_of(&h(9)), Err(GhostDagError::BlockNotFound(_))));
    assert!(matches!(dag.parents(&h(9)), Err(GhostDagError::BlockNotFound(_))));
}

#[test]
fn past_future_duality_and_anticone_symmetry() {
    let dag = build_10_block_dag();
    for a in 0u8..10 {
        let past_a = dag.past(&h(a)).unwrap();
        let ac_a = dag.anticone(&h(a)).unwrap();
        for b in 0u8..10 {
            let future_b = dag.future(&h(b)).unwrap();
            assert_eq!(past_a.contains(&h(b)), future_b.contains(&h(a)));
            let ac_b = dag.anticone(&h(b)).unwrap();
            assert_eq!(ac_a.contains(&h(b)), ac_b.contains(&h(a)));
            if ac_b.contains(&h(a)) {
                assert!(a != b);
                assert!(!dag.past(&h(b)).unwrap().contains(&h(a)));
                assert!(!future_b.contains(&h(a)));
            }
        }
    }
}

#[test]
fn topological_order_puts_parents_first() {
    let dag = build_10_block_dag();
    let order = dag.topological_order().unwrap();
    for (i, x) in order.iter().enumerate() {
        for p in dag.parents(x).unwrap() {
            let j = order.iter().position(|y| y == p).unwrap();
            assert!(j < i);
        }
    }
}

#[test]
fn test_coloring_k1() {
    let mut dag = build_test_dag();
    let result = color_dag(&mut dag, 1).unwrap();
    assert!(result.blue_set.contains(&BlockHash::from_byte(0)));
    assert_eq!(result.blue_set.len() + result.red_set.len(), 8);
    assert!(result.blue_set.len() >= 3);
}

#[test]
fn test_coloring_high_k() {
    let mut dag = build_test_dag();
    let result = color_dag(&mut dag, 100).unwrap();
    assert_eq!(result.blue_set.len(), 8);
    assert!(result.red_set.is_empty());
}

#[test]
fn test_selected_parent_chain() {
    let mut dag = build_test_dag();
    color_dag(&mut dag, 2).unwrap();
    let hh = BlockHash::from_byte(7);
    let chain = selected_parent_chain(&dag, &hh).unwrap();
    assert_eq!(*chain.first().unwrap(), BlockHash::from_byte(0));
    assert_eq!(*chain.last().unwrap(), hh);
}

#[test]
fn diamond_at_k3_scenario() {
    let mut dag = diamond_dag();
    let out = color_dag(&mut dag, 3).unwrap();
    assert_eq!(out.blue_set.len(), 4);
    assert!(out.red_set.is_empty());
    assert_eq!(out.k, 3);
    assert_eq!(dag.get(&h(3)).unwrap().selected_parent, Some(h(1)));
    assert_eq!(dag.get(&h(3)).unwrap().blue_score, 3);
    assert_eq!(dag.get(&h(3)).unwrap().blue_work, 3);
    assert_eq!(dag.get(&h(0)).unwrap().selected_parent, None);
    let order = total_order(&dag).unwrap();
    let hashes: Vec<BlockHash> = order.iter().map(|e| e.hash).collect();
    assert!(hashes == vec![h(0), h(1), h(2), h(3)] || hashes == vec![h(0), h(2), h(1), h(3)]);
    assert_eq!(order[0].hash, h(0));
    assert_eq!(order[0].topological_index, 0);
    assert_eq!(order[3].hash, h(3));
    assert_eq!(order[3].topological_index, 3);
}

#[test]
fn k1_widening_scenario() {
    let mut dag = build_test_dag();
    let out = color_dag(&mut dag, 1).unwrap();
    assert_eq!(out.blue_set.len() + out.red_set.len(), 8);
    assert!(out.blue_set.contains(&h(0)));
    assert!(out.blue_set.len() >= 3);
    // Processed in insertion order: G, A, B, C are blue; D, E and F each see
    // two blue blocks in their anticone; H has every blue block in its past.
    for b in [0u8, 1, 2, 3, 7] {
        assert!(out.blue_set.contains(&h(b)));
    }
    for b in [4u8, 5, 6] {
        assert!(out.red_set.contains(&h(b)));
    }
    assert_eq!(dag.get(&h(7)).unwrap().selected_parent, Some(h(3)));
    assert_eq!(dag.get(&h(7)).unwrap().blue_score, 4);
    assert_eq!(dag.get(&h(7)).unwrap().blue_work, 4);
}

#[test]
fn coloring_partition_and_genesis_blue_for_every_k() {
    for k in 1u64..12 {
        let mut dag = build_10_block_dag();
        let out = color_dag(&mut dag, k).unwrap();
        assert!(out.blue_set.contains(&h(0)));
        for b in 0u8..10 {
            assert!(out.blue_set.contains(&h(b)) != out.red_set.contains(&h(b)));
        }
        assert_eq!(out.blue_set.len() + out.red_set.len(), 10);
        if k >= 10 {
            assert!(out.red_set.is_empty());
        }
    }
}

#[test]
fn coloring_is_deterministic() {
    let mut d1 = build_10_block_dag();
    let mut d2 = build_10_block_dag();
    let o1 = color_dag(&mut d1, 2).unwrap();
    let o2 = color_dag(&mut d2, 2).unwrap();
    assert_eq!(o1.blue_set, o2.blue_set);
    assert_eq!(o1.red_set, o2.red_set);
    for b in 0u8..10 {
        let x = d1.get(&h(b)).unwrap();
        let y = d2.get(&h(b)).unwrap();
        assert_eq!(x.blue_score, y.blue_score);
        assert_eq!(x.blue_work, y.blue_work);
        assert_eq!(x.selected_parent, y.selected_parent);
    }
    assert_eq!(total_order_hashes(&d1).unwrap(), total_order_hashes(&d2).unwrap());
}

#[test]
fn selected_parent_chains_end_at_genesis() {
    let mut dag = build_10_block_dag();
    color_dag(&mut dag, 1).unwrap();
    for b in 0u8..10 {
        let chain = selected_parent_chain(&dag, &h(b)).unwrap();
        assert_eq!(chain[0], h(0));
        assert_eq!(*chain.last().unwrap(), h(b));
        for w in chain.windows(2) {
            assert_eq!(dag.get(&w[1]).unwrap().selected_parent, Some(w[0]));
        }
    }
    assert!(matches!(selected_parent_chain(&dag, &h(42)), Err(GhostDagError::BlockNotFound(_))));
}

#[test]
fn coloring_rejects_zero_k_and_empty_store() {
    let mut dag = diamond_dag();
    assert!(matches!(color_dag(&mut dag, 0), Err(GhostDagError::InvalidK(0))));
    let mut empty = DagStore::new();
    assert!(matches!(color_dag(&mut empty, 3), Err(GhostDagError::NoGenesis)));
}

#[test]
fn blue_anticone_size_counts_blue_concurrent_blocks() {
    let mut dag = diamond_dag();
    let out = color_dag(&mut dag, 3).unwrap();
    assert_eq!(blue_anticone_size(&dag, &h(1), &out.blue_set).unwrap(), 1);
    assert_eq!(blue_anticone_size(&dag, &h(0), &out.blue_set).unwrap(), 0);
    assert_eq!(blue_anticone_size(&dag, &h(1), &vec![h(0), h(3)]).unwrap(), 0);
    assert!(matches!(blue_anticone_size(&dag, &h(9), &out.blue_set), Err(GhostDagError::BlockNotFound(_))));
}

#[test]
fn test_total_order_determinism() {
    let mut dag = build_10_block_dag();
    color_dag(&mut dag, 3).unwrap();
    let order1 = total_order_hashes(&dag).unwrap();
    let order2 = total_order_hashes(&dag).unwrap();
    assert_eq!(order1, order2);
}

#[test]
fn test_total_order_covers_all_blocks() {
    let mut dag = build_10_block_dag();
    color_dag(&mut dag, 3).unwrap();
    let order = total_order(&dag).unwrap();
    assert_eq!(order.len(), 10);
    let indices: Vec<u64> = order.iter().map(|e| e.topological_index).collect();
    let expected: Vec<u64> = (0..10).collect();
    assert_eq!(indices, expected);
}

#[test]
fn test_total_order_genesis_first() {
    let mut dag = build_10_block_dag();
    color_dag(&mut dag, 3).unwrap();
    let order = total_order(&dag).unwrap();
    assert_eq!(order[0].hash, BlockHash::from_byte(0));
}

#[test]
fn test_compare_blocks() {
    let mut dag = build_10_block_dag();
    color_dag(&mut dag, 3).unwrap();
    let g = BlockHash::from_byte(0);
    let j = BlockHash::from_byte(9);
    let cmp = compare_blocks(&dag, &g, &j).unwrap();
    assert_eq!(cmp, std::cmp::Ordering::Less);
}

#[test]
fn total_order_lists_each_block_once_sorted_by_key() {
    let mut dag = build_10_block_dag();
    color_dag(&mut dag, 1).unwrap();
    let order = total_order(&dag).unwrap();
    let mut seen: Vec<BlockHash> = order.iter().map(|e| e.hash).collect();
    seen.sort();
    seen.dedup();
    assert_eq!(seen.len(), 10);
    for w in order.windows(2) {
        assert!((w[0].blue_score, w[0].tiebreak_key) <= (w[1].blue_score, w[1].tiebreak_key));
        assert_ne!(compare_blocks(&dag, &w[0].hash, &w[1].hash).unwrap(), std::cmp::Ordering::Greater);
    }
    for e in &order {
        let hdr = dag.get(&e.hash).unwrap();
        let sp = hdr.selected_parent.unwrap_or(BlockHash::zero());
        assert_eq!(e.tiebreak_key, e.hash.xor(&sp));
        assert_eq!(e.blue_score, hdr.blue_score);
    }
    assert_eq!(order[0].tiebreak_key, h(0));
}

#[test]
fn compare_blocks_reports_missing_blocks() {
    let dag = diamond_dag();
    assert!(matches!(compare_blocks(&dag, &h(9), &h(0)), Err(GhostDagError::BlockNotFound(x)) if x == h(9)));
    assert!(matches!(compare_blocks(&dag, &h(0), &h(8)), Err(GhostDagError::BlockNotFound(x)) if x == h(8)));
    assert_eq!(compare_blocks(&dag, &h(1), &h(1)).unwrap(), std::cmp::Ordering::Equal);
}

#[test]
fn uncolored_order_uses_stored_scores() {
    let dag = diamond_dag();
    let order = total_order_hashes(&dag).unwrap();
    // All scores are 0 and the tiebreak keys are the hashes themselves.
    assert_eq!(order, vec![h(0), h(1), h(2), h(3)]);
}

fn store_from(order: &[(u8, &[u8])]) -> DagStore {
    let mut dag = DagStore::new();
    for (b, ps) in order {
        if ps.is_empty() {
            dag.add_genesis(BlockHeader::genesis(h(*b), 0)).unwrap();
        } else {
            let parents: Vec<BlockHash> = ps.iter().map(|p| h(*p)).collect();
            dag.add_block(BlockHeader::new(h(*b), parents, 1)).unwrap();
        }
    }
    dag
}

#[test]
fn coloring_ignores_insertion_order() {
    let mut d1 = store_from(&[(0, &[]), (1, &[0]), (2, &[0]), (3, &[0])]);
    let mut d2 = store_from(&[(0, &[]), (3, &[0]), (1, &[0]), (2, &[0])]);
    let o1 = color_dag(&mut d1, 1).unwrap();
    let o2 = color_dag(&mut d2, 1).unwrap();
    for b in 0u8..4 {
        assert_eq!(o1.blue_set.contains(&h(b)), o2.blue_set.contains(&h(b)));
        assert_eq!(o1.red_set.contains(&h(b)), o2.red_set.contains(&h(b)));
        let x = d1.get(&h(b)).unwrap();
        let y = d2.get(&h(b)).unwrap();
        assert_eq!((x.blue_score, x.blue_work, x.selected_parent), (y.blue_score, y.blue_work, y.selected_parent));
    }
    // Canonical order G, A, B, C: C sees A and B blue in its anticone.
    assert!(o1.blue_set.contains(&h(2)));
    assert!(o1.red_set.contains(&h(3)));
}

#[test]
fn total_order_ties_broken_by_hash() {
    // X = 5 under A = 1 and Y = 6 under B = 2 share score 2 and key 4.
    let mut d1 = store_from(&[(0, &[]), (1, &[0]), (2, &[0]), (5, &[1]), (6, &[2])]);
    let mut d2 = store_from(&[(0, &[]), (2, &[0]), (6, &[2]), (1, &[0]), (5, &[1])]);
    color_dag(&mut d1, 3).unwrap();
    color_dag(&mut d2, 3).unwrap();
    let o1 = total_order_hashes(&d1).unwrap();
    let o2 = total_order_hashes(&d2).unwrap();
    assert_eq!(o1, o2);
    let e = total_order(&d1).unwrap();
    assert_eq!(e[3].tiebreak_key, e[4].tiebreak_key);
    assert_eq!((e[3].hash, e[4].hash), (h(5), h(6)));
}

#[test]
fn add_block_stores_header_as_given() {
    let mut dag = DagStore::new();
    dag.add_genesis(BlockHeader::genesis(h(0), 0)).unwrap();
    let mut hdr = BlockHeader::new(h(1), vec![h(0)], 7);
    hdr.selected_parent = Some(h(0));
    hdr.blue_score = 9;
    dag.add_block(hdr).unwrap();
    let stored = dag.get(&h(1)).unwrap();
    assert_eq!(stored.selected_parent, Some(h(0)));
    assert_eq!(stored.blue_score, 9);
    assert_eq!(stored.timestamp, 7);
}

#[test]
fn topological_order_is_canonical() {
    let d1 = store_from(&[(0, &[]), (3, &[0]), (1, &[0]), (2, &[1, 3])]);
    let d2 = store_from(&[(0, &[]), (1, &[0]), (3, &[0]), (2, &[1, 3])]);
    let o1 = d1.topological_order().unwrap();
    assert_eq!(o1, vec![h(0), h(1), h(3), h(2)]);
    assert_eq!(o1, d2.topological_order().unwrap());
}
