use argus::block::{BlockHash, BlockHeader};
use argus::coloring::{color_dag, ColoringOutput};
use argus::dag::DagStore;
use argus::schema::default_parent_count;
use argus::stream::linearize_dag;

fn build_test_dag() -> (DagStore, ColoringOutput) {
    let mut dag = DagStore::new();
    let g = BlockHash::from_byte(0);
    let a = BlockHash::from_byte(1);
    let b = BlockHash::from_byte(2);
    let c = BlockHash::from_byte(3);
    dag.add_genesis(BlockHeader::genesis(g, 0)).unwrap();
    dag.add_block(BlockHeader::new(a, vec![g], 1)).unwrap();
    dag.add_block(BlockHeader::new(b, vec![g], 1)).unwrap();
    dag.add_block(BlockHeader::new(c, vec![a, b], 2)).unwrap();
    let coloring = color_dag(&mut dag, 3).unwrap();
    (dag, coloring)
}

#[test]
fn test_linearize_dag() {
    let (dag, coloring) = build_test_dag();
    let blocks = linearize_dag(&dag, &coloring).unwrap();
    assert_eq!(blocks.len(), 4);
    for (i, b) in blocks.iter().enumerate() {
        assert_eq!(b.topological_index, i as u64);
    }
    assert!(blocks.iter().all(|b| b.is_blue));
}

#[test]
fn test_linearized_block_has_adjacency() {
    let (dag, coloring) = build_test_dag();
    let blocks = linearize_dag(&dag, &coloring).unwrap();
    let c_block = blocks.iter().find(|b| b.hash == BlockHash::from_byte(3).to_hex()).unwrap();
    assert_eq!(c_block.adjacency_list.len(), 2);
}

#[test]
fn linearized_records_carry_hex_and_decimal_fields() {
    let (dag, coloring) = build_test_dag();
    let blocks = linearize_dag(&dag, &coloring).unwrap();
    let g = &blocks[0];
    assert_eq!(g.hash, BlockHash::from_byte(0).to_hex());
    assert_eq!(g.blue_work, "1");
    assert!(g.selected_parent.is_none());
    assert!(g.adjacency_list.is_empty());
    let c = &blocks[3];
    assert_eq!(c.blue_work, "3");
    assert_eq!(c.blue_score, 3);
    assert_eq!(c.selected_parent, Some(BlockHash::from_byte(1).to_hex()));
    assert_eq!(c.adjacency_list, vec![BlockHash::from_byte(1).to_hex(), BlockHash::from_byte(2).to_hex()]);
}

#[test]
fn blue_work_renders_multi_digit_decimal() {
    let mut dag = DagStore::new();
    dag.add_genesis(BlockHeader::genesis(BlockHash::from_byte(0), 0)).unwrap();
    for i in 1u8..12 {
        dag.add_block(BlockHeader::new(BlockHash::from_byte(i), vec![BlockHash::from_byte(i - 1)], i as u64)).unwrap();
    }
    let coloring = color_dag(&mut dag, 1).unwrap();
    let blocks = linearize_dag(&dag, &coloring).unwrap();
    assert_eq!(blocks[11].blue_work, "12");
    assert_eq!(blocks[11].hash, BlockHash::from_byte(11).to_hex());
}

#[test]
fn red_blocks_are_marked() {
    let mut dag = DagStore::new();
    dag.add_genesis(BlockHeader::genesis(BlockHash::from_byte(0), 0)).unwrap();
    for i in 1u8..5 {
        dag.add_block(BlockHeader::new(BlockHash::from_byte(i), vec![BlockHash::from_byte(0)], 1)).unwrap();
    }
    let coloring = color_dag(&mut dag, 1).unwrap();
    let blocks = linearize_dag(&dag, &coloring).unwrap();
    let reds = blocks.iter().filter(|b| !b.is_blue).count();
    assert_eq!(reds, coloring.red_set.len());
    assert!(reds > 0);
}

#[test]
fn parent_count_defaults_to_three() {
    assert_eq!(default_parent_count(), 3);
}
