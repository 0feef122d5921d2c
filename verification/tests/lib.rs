use hlife::block::Block;
use hlife::leaf::{LG_LEAF_SIZE, LEAF_MASK, LEAF_SIZE};
use hlife::{leaf_from_byte, Hashlife};
use rand::rngs::StdRng;
use rand::SeedableRng;

fn use_random_blocks() {
    let mut hl = Hashlife::new();
    let mut rng = StdRng::seed_from_u64(7);
    for depth in 0..5 {
        let block = hl.raw_random_block(&mut rng, depth).unwrap();
        assert_eq!(block.lg_size(hl.block_cache()), depth + 1);
        assert_eq!(block.lg_size_verified(hl.block_cache()), Ok(depth + 1));
    }
    let mut same = 0;
    let first = hl.raw_random_block(&mut rng, 3).unwrap();
    for _ in 0..8 {
        if hl.raw_random_block(&mut rng, 3).unwrap() == first {
            same += 1;
        }
    }
    assert!(same < 8);
    assert_eq!(leaf_from_byte(0xff), 0x33);
    assert_eq!(leaf_from_byte(0x5a), 0x12);
}

#[test]
fn test_blank0() {
    Hashlife::with_new(|mut hl| {
        let blank3 = hl.raw_blank(5).unwrap();
        assert_eq!(blank3.lg_size(hl.block_cache()), 5);
        let blank1 = hl.raw_blank(3).unwrap();
        let blank2 = hl.raw_blank(4).unwrap();
        assert_eq!(hl.block_cache().heap_node(blank3.unwrap_node()).corners(), &[[blank2; 2]; 2]);
        assert_eq!(hl.block_cache().heap_node(blank2.unwrap_node()).corners(), &[[blank1; 2]; 2]);
    });
}

#[test]
fn test_blank1() {
    Hashlife::with_new(|mut hl| {
        assert_eq!(hl.raw_blank(LG_LEAF_SIZE).unwrap(), Block::Leaf(0));
        assert_eq!(hl.raw_blank(4).unwrap().lg_size(hl.block_cache()), 4);
        assert_eq!(hl.raw_blank(5).unwrap().lg_size(hl.block_cache()), 5);
    });
}

#[test]
fn blocks_and_nodes() {
    let mut hl = Hashlife::new();
    assert_eq!(LEAF_SIZE, 2);
    assert_eq!(LEAF_MASK, 0x33);
    let leaf = hl.leaf(0x21);
    assert_eq!(leaf.lg_size(), 1);
    assert_eq!(leaf.lg_size_verified(), Ok(1));
    assert_eq!(leaf.to_raw(), Block::Leaf(0x21));
    assert_eq!(leaf.unwrap_leaf(), 0x21);
    assert_eq!(leaf.destruct(), Err(0x21));
    assert!(!leaf.is_blank(&hl));
    let dead = hl.leaf(0);
    assert!(dead.is_blank(&hl));
    let node = hl.node([[leaf, dead], [dead, leaf]]).unwrap();
    assert_eq!(node.lg_size(), 2);
    assert!(node.node_of_leafs());
    assert_eq!(node.corners(&hl), [[leaf, dead], [dead, leaf]]);
    let block = hl.node_block([[leaf, dead], [dead, leaf]]).unwrap();
    assert_eq!(block.unwrap_node(), node);
    assert_eq!(block.destruct(), Ok(node));
    assert_eq!(block.to_raw(), Block::Node(node.to_raw()));
    assert_eq!(hlife::Block::from_node(node), block);
    assert_eq!(hl.block_from_raw(block.to_raw()), block);
    assert_eq!(hl.node_from_raw(node.to_raw()).lg_size(), 2);
    let bigger = hl.node([[block; 2]; 2]).unwrap();
    assert!(!bigger.node_of_leafs());
    assert_eq!(bigger.lg_size(), 3);
    assert_eq!(bigger.evolve(&mut hl).unwrap(), hl.big_step(bigger).unwrap());
    assert_eq!(hl.raw_node_block([[block.to_raw(); 2]; 2]).unwrap(), Block::Node(bigger.to_raw()));
    assert_eq!(hl.raw_node([[block.to_raw(); 2]; 2]).unwrap(), bigger.to_raw());
    assert_eq!(hl.small_evolve_cache()[0x0660], 0x33);
    let blank = hl.blank(3).unwrap();
    assert!(blank.is_blank(&hl));
    assert_eq!(blank.lg_size(), 3);
}

#[test]
fn random_blocks_have_the_size_asked_for() {
    use_random_blocks();
}
