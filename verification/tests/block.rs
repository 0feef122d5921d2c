use hlife::block::{Block, CABlockCache, XorHasher};
use hlife::leaf::LG_LEAF_SIZE;

#[test]
fn test_lg_size() {
    CABlockCache::with_new(|mut bc| {
        let leaf = Block::Leaf(0x03);
        assert_eq!(leaf.lg_size(&bc), LG_LEAF_SIZE);
        let n = bc.node([[leaf, leaf], [Block::Leaf(0x10), leaf]]);
        let mut block = Block::Node(n);
        assert_eq!(block.lg_size(&bc), LG_LEAF_SIZE + 1);
        for i in 2..10 {
            block = Block::Node(bc.node([[block; 2]; 2]));
            assert_eq!(block.lg_size(&bc), LG_LEAF_SIZE + i);
        }
    });
}

#[test]
fn test_lg_size_verified() {
    CABlockCache::with_new(|mut bc| {
        let leaf = Block::Leaf(0x30);
        assert_eq!(leaf.lg_size_verified(&bc), Ok(LG_LEAF_SIZE));
        let node1 = Block::Node(bc.node([[leaf; 2]; 2]));
        assert_eq!(node1.lg_size_verified(&bc), Ok(LG_LEAF_SIZE + 1));
        let node2 = Block::Node(bc.node([[node1; 2]; 2]));
        assert_eq!(node2.lg_size_verified(&bc), Ok(LG_LEAF_SIZE + 2));
        let node_err = Block::Node(bc.node([[node1, leaf], [node1, node1]]));
        assert_eq!(node_err.lg_size_verified(&bc), Err(()));
    });
}

#[test]
fn test_blank() {
    CABlockCache::with_new(|mut bc| {
        let leaf0 = Block::Leaf(0);
        let leaf1 = Block::Leaf(3);
        assert!(leaf0.is_blank(&bc));
        assert!(!leaf1.is_blank(&bc));
        let node0 = Block::Node(bc.node([[leaf0, leaf0], [leaf0, leaf0]]));
        assert!(node0.is_blank(&bc));
        for i in 0..2 {
            for j in 0..2 {
                let mut corners = [[leaf0; 2]; 2];
                corners[i][j] = leaf1;
                let nodes_1_to_4 = Block::Node(bc.node(corners));
                assert!(!nodes_1_to_4.is_blank(&bc));
            }
        }
    });
}

#[test]
fn intern_twice_gives_the_same_node() {
    let mut bc = CABlockCache::new();
    let a = Block::Leaf(0x01);
    let b = Block::Leaf(0x02);
    let c = Block::Leaf(0x10);
    let d = Block::Leaf(0x20);
    let first = bc.node([[a, b], [c, d]]);
    let other = bc.node([[d, c], [b, a]]);
    let second = bc.node([[a, b], [c, d]]);
    assert_eq!(first, second);
    assert_ne!(first, other);
    assert_eq!(bc.node_nopanic([[a, b], [c, d]]).unwrap(), first);
    let big1 = bc.node([[Block::Node(first), Block::Node(other)], [Block::Node(other), Block::Node(first)]]);
    let big2 = bc.node([[Block::Node(first), Block::Node(other)], [Block::Node(other), Block::Node(first)]]);
    assert_eq!(big1, big2);
    assert_eq!(bc.heap_node(big1).corners()[0][1], Block::Node(other));
}

#[test]
fn fingerprint_depends_on_the_places_of_the_children() {
    let mut bc = CABlockCache::new();
    let a = Block::Leaf(0x01);
    let b = Block::Leaf(0x02);
    let c = Block::Leaf(0x10);
    let d = Block::Leaf(0x20);
    let by_rows = bc.node([[a, b], [c, d]]);
    let by_columns = bc.node([[a, c], [b, d]]);
    assert_ne!(by_rows, by_columns);
    assert_ne!(bc.fingerprint_of(&[[a, b], [c, d]]), bc.fingerprint_of(&[[a, c], [b, d]]));
    assert_eq!(bc.heap_node(by_rows).corners(), &[[a, b], [c, d]]);
    assert_eq!(bc.heap_node(by_columns).corners(), &[[a, c], [b, d]]);
}

#[test]
fn fingerprint_is_fnv1a_of_the_children() {
    let bc = CABlockCache::new();
    let leaves = [[Block::Leaf(0x01), Block::Leaf(0x02)], [Block::Leaf(0x10), Block::Leaf(0x20)]];
    let mut expected: u64 = 0xcbf29ce484222325;
    for byte in [1u8, 0x01, 1, 0x02, 1, 0x10, 1, 0x20] {
        expected ^= byte as u64;
        expected = expected.wrapping_mul(0x100000001b3);
    }
    assert_eq!(bc.fingerprint_of(&leaves), expected);
    assert_ne!(bc.fingerprint_of(&leaves), 0xcbf29ce484222325);
}

#[test]
fn node_of_leafs_and_lg_size_of_stored_nodes() {
    let mut bc = CABlockCache::new();
    let leaf = Block::Leaf(0x21);
    let n1 = bc.node([[leaf; 2]; 2]);
    let n2 = bc.node([[Block::Node(n1); 2]; 2]);
    assert!(bc.heap_node(n1).node_of_leafs());
    assert!(!bc.heap_node(n2).node_of_leafs());
    assert_eq!(bc.heap_node(n1).lg_size(&bc), 2);
    assert_eq!(bc.heap_node(n2).lg_size(&bc), 3);
    assert_eq!(Block::Node(n2).unwrap_node(), n2);
    assert_eq!(leaf.unwrap_leaf(), 0x21);
    assert_eq!(bc.heap_node(n1).evolve_cache().get(), None);
}

#[test]
fn xor_hasher_folds_bytes() {
    let mut h = XorHasher::default();
    assert_eq!(h.finish(), 0);
    h.write(&[0x01, 0x02]);
    assert_eq!(h.finish(), 0x0201);
    h.write(&[0x01]);
    assert_eq!(h.finish(), 0x0200);
    let mut g = XorHasher::default();
    g.write(&[1, 2, 3, 4, 5, 6, 7, 8, 0xff]);
    assert_eq!(g.finish(), 0x0807060504030201 ^ 0xff);
}
