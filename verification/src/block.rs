//! Blocks and the cache that owns them.
//!
//! A block is a leaf or a node of four blocks. Nodes live in a
//! `CABlockCache` and are named by their position in it; a node is stored
//! after its children, so a block can never contain itself. The cache keeps
//! one node for each four-tuple of children: asking twice for the same
//! children gives the same node.

use vstd::prelude::*;
use vstd::bytes::{spec_u64_to_le_bytes, u64_to_le_bytes};
use vstd::pervasive::unreached;
use std::collections::HashMap;
use std::hash::Hasher;
use fnv::FnvHasher;
use crate::cache::Cache;
use crate::leaf::{Leaf, LG_LEAF_SIZE};
use crate::tree::{Tree, center_future, lemma_side};

verus! {

/// Two different four-tuples of children have the same fingerprint.
#[derive(Debug, PartialEq, Eq)]
pub struct HashCollision;

/// The name of a node: its position in the cache that owns it.
#[derive(Clone, Copy, PartialEq, Eq, Structural, Debug, Hash)]
pub struct Node {
    pub index: usize,
}

/// A square of cells: a leaf, or a node of four blocks.
#[derive(Clone, Copy, PartialEq, Eq, Structural, Debug, Hash)]
pub enum Block {
    Node(Node),
    Leaf(Leaf),
}

/// A node as the cache stores it: the four children as `corners[y][x]`, the
/// fingerprint of the children, and the central block of the node's future
/// once it has been computed.
#[derive(Debug)]
pub struct HeapNode {
    corners: [[Block; 2]; 2],
    hash: u64,
    evolve: Cache<Block>,
}

/// What a stored node holds.
pub struct NodeView {
    pub corners: [[Block; 2]; 2],
    pub hash: u64,
    pub future: Option<Block>,
}

impl View for HeapNode {
    type V = NodeView;

    closed spec fn view(&self) -> NodeView {
        NodeView { corners: self.corners, hash: self.hash, future: self.evolve@ }
    }
}

/// The cache of all nodes of a computation.
pub struct CABlockCache {
    nodes: Vec<HeapNode>,
    table: HashMap<u64, usize>,
}

impl View for CABlockCache {
    type V = Seq<NodeView>;

    closed spec fn view(&self) -> Seq<NodeView> {
        self.nodes@.map_values(|h: HeapNode| h@)
    }
}

/// FNV-1a over a sequence of bytes, in 64 bits.
pub open spec fn fnv1a(bytes: Seq<u8>) -> u64
    decreases bytes.len(),
{
    if bytes.len() == 0 {
        0xcbf29ce484222325
    } else {
        (((fnv1a(bytes.drop_last()) ^ (bytes.last() as u64)) * 0x100000001b3)
            % 0x1_0000_0000_0000_0000) as u64
    }
}

/// Zero for a leaf; for a node, one more than its position.
pub open spec fn rank(b: Block) -> nat {
    match b {
        Block::Leaf(_) => 0,
        Block::Node(n) => (n.index + 1) as nat,
    }
}

/// Whether `b` names something in a cache of `c`: any leaf, or a node of
/// `c`.
pub open spec fn in_arena(c: Seq<NodeView>, b: Block) -> bool {
    rank(b) <= c.len()
}

/// Whether the four blocks are all in a cache of `c`.
pub open spec fn corners_in_arena(c: Seq<NodeView>, k: [[Block; 2]; 2]) -> bool {
    &&& in_arena(c, k[0][0])
    &&& in_arena(c, k[0][1])
    &&& in_arena(c, k[1][0])
    &&& in_arena(c, k[1][1])
}

/// The bytes that stand for a child in a fingerprint: a tag, then the leaf,
/// or the fingerprint of the node in little-endian order.
pub open spec fn child_code(c: Seq<NodeView>, b: Block) -> Seq<u8> {
    match b {
        Block::Leaf(l) => seq![1u8, l],
        Block::Node(n) => seq![0u8] + spec_u64_to_le_bytes(c[n.index as int].hash),
    }
}

/// The bytes that stand for four children, row by row.
pub open spec fn corners_code(c: Seq<NodeView>, k: [[Block; 2]; 2]) -> Seq<u8> {
    child_code(c, k[0][0]) + child_code(c, k[0][1]) + child_code(c, k[1][0]) + child_code(
        c,
        k[1][1],
    )
}

/// The fingerprint of four children: FNV-1a of their bytes.
pub open spec fn fingerprint(c: Seq<NodeView>, k: [[Block; 2]; 2]) -> u64 {
    fnv1a(corners_code(c, k))
}

/// The tree that `b` stands for in a cache of `c`.
pub open spec fn tree_of(c: Seq<NodeView>, b: Block) -> Tree
    decreases rank(b),
{
    match b {
        Block::Leaf(l) => Tree::Leaf(l),
        Block::Node(n) => {
            if n.index < c.len() && corners_in_arena(c.take(n.index as int), c[n.index as int].corners) {
                let k = c[n.index as int].corners;
                Tree::Node(
                    Box::new(tree_of(c, k[0][0])),
                    Box::new(tree_of(c, k[0][1])),
                    Box::new(tree_of(c, k[1][0])),
                    Box::new(tree_of(c, k[1][1])),
                )
            } else {
                Tree::Leaf(0)
            }
        },
    }
}

/// What holds of the node at position `i` of a well-formed cache: its
/// children were stored before it, its fingerprint is that of its children,
/// and a stored future is the node's central block a quarter of its side in
/// generations later.
pub open spec fn node_ok(c: Seq<NodeView>, i: int) -> bool {
    &&& corners_in_arena(c.take(i), c[i].corners)
    &&& c[i].hash == fingerprint(c, c[i].corners)
    &&& c[i].future matches Some(r) ==> {
        &&& in_arena(c, r)
        &&& center_future(tree_of(c, Block::Node(Node { index: i as usize })), tree_of(c, r))
    }
}

/// A well-formed cache: every node is in order, and no two nodes have the
/// same fingerprint.
pub open spec fn cache_wf(c: Seq<NodeView>) -> bool {
    &&& c.len() <= isize::MAX
    &&& forall|i: int| 0 <= i < c.len() ==> #[trigger] node_ok(c, i)
    &&& forall|i: int, j: int|
        0 <= i < c.len() && 0 <= j < c.len() && #[trigger] c[i].hash == #[trigger] c[j].hash ==> i
            == j
}

/// `new` holds every node of `old` at its place, with the same children and
/// fingerprint, and with every future that `old` had stored.
pub open spec fn extends(old: Seq<NodeView>, new: Seq<NodeView>) -> bool {
    &&& old.len() <= new.len()
    &&& forall|i: int|
        0 <= i < old.len() ==> {
            &&& (#[trigger] new[i]).corners == old[i].corners
            &&& new[i].hash == old[i].hash
            &&& (old[i].future is Some ==> new[i].future == old[i].future)
        }
}

/// Some node of `c` has the fingerprint of `k` but other children.
pub open spec fn collides(c: Seq<NodeView>, k: [[Block; 2]; 2]) -> bool {
    exists|i: int| 0 <= i < c.len() && #[trigger] c[i].hash == fingerprint(c, k) && c[i].corners != k
}

/// Whether the node at position `i` of `c` has the children `k`.
pub open spec fn is_node_of(c: Seq<NodeView>, i: int, k: [[Block; 2]; 2]) -> bool {
    0 <= i < c.len() && c[i].corners == k
}

/// Four blocks are equal one by one iff the arrays are equal.
pub proof fn lemma_corners_eq(a: [[Block; 2]; 2], b: [[Block; 2]; 2])
    ensures
        (a[0][0] == b[0][0] && a[0][1] == b[0][1] && a[1][0] == b[1][0] && a[1][1] == b[1][1]) <==> a
            == b,
{
    if a[0][0] == b[0][0] && a[0][1] == b[0][1] && a[1][0] == b[1][0] && a[1][1] == b[1][1] {
        assert(a[0] =~= b[0]);
        assert(a[1] =~= b[1]);
        assert(a =~= b);
    }
}

/// A cache extends itself, and extension is transitive.
pub proof fn lemma_extends_trans(a: Seq<NodeView>, b: Seq<NodeView>, c: Seq<NodeView>)
    requires
        extends(a, b),
        extends(b, c),
    ensures
        extends(a, c),
        extends(a, a),
{
    assert forall|i: int| 0 <= i < a.len() implies {
        &&& (#[trigger] c[i]).corners == a[i].corners
        &&& c[i].hash == a[i].hash
        &&& (a[i].future is Some ==> c[i].future == a[i].future)
    } by {
        let _ = b[i];
    }
}

/// The tree of a block does not change when the cache grows.
pub proof fn lemma_tree_extends(old: Seq<NodeView>, new: Seq<NodeView>, b: Block)
    requires
        extends(old, new),
        in_arena(old, b),
    ensures
        tree_of(new, b) == tree_of(old, b),
    decreases rank(b),
{
    match b {
        Block::Leaf(_) => {},
        Block::Node(n) => {
            let i = n.index as int;
            let k = old[i].corners;
            assert(new[i].corners == k);
            assert(old.take(i).len() == i);
            assert(new.take(i).len() == i);
            if corners_in_arena(old.take(i), k) {
                lemma_tree_extends(old, new, k[0][0]);
                lemma_tree_extends(old, new, k[0][1]);
                lemma_tree_extends(old, new, k[1][0]);
                lemma_tree_extends(old, new, k[1][1]);
            }
        },
    }
}

/// The fingerprint of four blocks does not change when the cache grows.
pub proof fn lemma_fingerprint_extends(old: Seq<NodeView>, new: Seq<NodeView>, k: [[Block; 2]; 2])
    requires
        extends(old, new),
        corners_in_arena(old, k),
    ensures
        fingerprint(new, k) == fingerprint(old, k),
{
    lemma_child_code_extends(old, new, k[0][0]);
    lemma_child_code_extends(old, new, k[0][1]);
    lemma_child_code_extends(old, new, k[1][0]);
    lemma_child_code_extends(old, new, k[1][1]);
}

proof fn lemma_child_code_extends(old: Seq<NodeView>, new: Seq<NodeView>, b: Block)
    requires
        extends(old, new),
        in_arena(old, b),
    ensures
        child_code(new, b) == child_code(old, b),
{
    match b {
        Block::Leaf(_) => {},
        Block::Node(n) => {
            assert(new[n.index as int].hash == old[n.index as int].hash);
        },
    }
}

/// Each node of a well-formed cache stands for a node of four trees: the
/// trees of its children.
pub proof fn lemma_tree_of_node(c: Seq<NodeView>, n: Node)
    requires
        cache_wf(c),
        n.index < c.len(),
    ensures
        corners_in_arena(c, c[n.index as int].corners),
        tree_of(c, Block::Node(n)) == Tree::Node(
            Box::new(tree_of(c, c[n.index as int].corners[0][0])),
            Box::new(tree_of(c, c[n.index as int].corners[0][1])),
            Box::new(tree_of(c, c[n.index as int].corners[1][0])),
            Box::new(tree_of(c, c[n.index as int].corners[1][1])),
        ),
        rank(c[n.index as int].corners[0][0]) < rank(Block::Node(n)),
        rank(c[n.index as int].corners[0][1]) < rank(Block::Node(n)),
        rank(c[n.index as int].corners[1][0]) < rank(Block::Node(n)),
        rank(c[n.index as int].corners[1][1]) < rank(Block::Node(n)),
{
    assert(node_ok(c, n.index as int));
    assert(c.take(n.index as int).len() == n.index);
}

/// In a well-formed cache, two blocks that stand for the same tree are the
/// same block.
pub proof fn lemma_canonical(c: Seq<NodeView>, a: Block, b: Block)
    requires
        cache_wf(c),
        in_arena(c, a),
        in_arena(c, b),
        tree_of(c, a) == tree_of(c, b),
    ensures
        a == b,
    decreases rank(a),
{
    match a {
        Block::Leaf(_) => {
            match b {
                Block::Leaf(_) => {},
                Block::Node(m) => {
                    lemma_tree_of_node(c, m);
                },
            }
        },
        Block::Node(n) => {
            lemma_tree_of_node(c, n);
            match b {
                Block::Leaf(_) => {},
                Block::Node(m) => {
                    lemma_tree_of_node(c, m);
                    let ka = c[n.index as int].corners;
                    let kb = c[m.index as int].corners;
                    lemma_canonical(c, ka[0][0], kb[0][0]);
                    lemma_canonical(c, ka[0][1], kb[0][1]);
                    lemma_canonical(c, ka[1][0], kb[1][0]);
                    lemma_canonical(c, ka[1][1], kb[1][1]);
                    lemma_corners_eq(ka, kb);
                    assert(node_ok(c, n.index as int));
                    assert(node_ok(c, m.index as int));
                    assert(c[n.index as int].hash == c[m.index as int].hash);
                },
            }
        },
    }
}

/// In a well-formed cache, at most one node has given children.
pub proof fn lemma_one_node_per_corners(c: Seq<NodeView>, i: int, j: int, k: [[Block; 2]; 2])
    requires
        cache_wf(c),
        is_node_of(c, i, k),
        is_node_of(c, j, k),
    ensures
        i == j,
{
    assert(node_ok(c, i));
    assert(node_ok(c, j));
    assert(c[i].hash == c[j].hash);
}

/// Feeds `bytes` to a fresh `fnv::FnvHasher` and returns what it has then:
/// FNV-1a of the bytes, in 64 bits.
#[verifier::external_body]
fn fnv_hash(bytes: &Vec<u8>) -> (h: u64)
    ensures
        h == fnv1a(bytes@),
{
    let mut hasher = FnvHasher::default();
    hasher.write(bytes.as_slice());
    hasher.finish()
}

/// `Vec::len`. A vector never holds more than `isize::MAX` bytes, and a
/// stored node takes more than one byte.
#[verifier::external_body]
fn node_count(nodes: &Vec<HeapNode>) -> (n: usize)
    ensures
        n == nodes.len(),
        n <= isize::MAX,
{
    nodes.len()
}

impl HeapNode {
    fn from_elems_and_hash(elems: [[Block; 2]; 2], hash: u64) -> (node: HeapNode)
        ensures
            node@ == (NodeView { corners: elems, hash: hash, future: None }),
    {
        HeapNode { corners: elems, hash: hash, evolve: Cache::new() }
    }

    /// The four children, as `corners[y][x]`.
    pub fn corners(&self) -> (corners: &[[Block; 2]; 2])
        ensures
            *corners == self@.corners,
    {
        &self.corners
    }

    /// The cell that holds the node's future once it is known.
    pub fn evolve_cache(&self) -> (cell: &Cache<Block>)
        ensures
            cell@ == self@.future,
    {
        &self.evolve
    }

    /// Base-two logarithm of the node's side: one more than that of its
    /// north-west child.
    pub fn lg_size(&self, cache: &CABlockCache) -> (lg: usize)
        requires
            cache.wf(),
            cache.contains(self@.corners[0][0]),
        ensures
            lg == cache.tree(self@.corners[0][0]).lg_size() + 1,
    {
        proof {
            lemma_lg_bound(cache@, self@.corners[0][0]);
        }
        self.corners[0][0].lg_size(cache) + 1
    }

    /// Whether the children are leaves.
    pub fn node_of_leafs(&self) -> (leafs: bool)
        ensures
            leafs == (self@.corners[0][0] is Leaf),
    {
        match self.corners[0][0] {
            Block::Leaf(_) => true,
            Block::Node(_) => false,
        }
    }
}

impl CABlockCache {
    /// The table finds every node by its fingerprint, and nothing else.
    pub closed spec fn table_ok(&self) -> bool {
        &&& forall|h: u64| #[trigger]
            self.table@.contains_key(h) ==> self.table@[h] < self.nodes.len() && self.nodes[self.table@[h] as int].hash
                == h
        &&& forall|i: int|
            0 <= i < self.nodes.len() ==> self.table@.contains_key(#[trigger] self.nodes[i].hash)
    }

    /// The invariant of the cache.
    pub open spec fn wf(&self) -> bool {
        self.table_ok() && cache_wf(self@)
    }

    /// Whether `b` is a leaf or a node of this cache.
    pub open spec fn contains(&self, b: Block) -> bool {
        in_arena(self@, b)
    }

    /// The tree that `b` stands for in this cache.
    pub open spec fn tree(&self, b: Block) -> Tree {
        tree_of(self@, b)
    }

    /// The cache with no node.
    pub fn new() -> (cache: CABlockCache)
        ensures
            cache.wf(),
            cache@.len() == 0,
    {
        CABlockCache { nodes: Vec::new(), table: HashMap::new() }
    }

    /// Creates a new cache and passes it to `f`.
    pub fn with_new<F: FnOnce(CABlockCache) -> T, T>(f: F) -> (r: T)
        requires
            forall|cache: CABlockCache| cache.wf() && cache@.len() == 0 ==> #[trigger] f.requires((cache,)),
        ensures
            exists|cache: CABlockCache| cache.wf() && cache@.len() == 0 && #[trigger] f.ensures((cache,), r),
    {
        let ca_block_cache = CABlockCache::new();
        f(ca_block_cache)
    }

    /// The stored node that `n` names.
    pub fn heap_node(&self, n: Node) -> (node: &HeapNode)
        requires
            n.index < self@.len(),
        ensures
            node@ == self@[n.index as int],
    {
        &self.nodes[n.index]
    }

    proof fn lemma_view(&self)
        ensures
            self@.len() == self.nodes.len(),
            forall|i: int| 0 <= i < self.nodes.len() ==> #[trigger] self@[i] == self.nodes[i]@,
    {
    }

    fn push_child_code(&self, buf: &mut Vec<u8>, b: Block)
        requires
            self.contains(b),
        ensures
            final(buf)@ == old(buf)@ + child_code(self@, b),
    {
        proof {
            self.lemma_view();
        }
        match b {
            Block::Leaf(l) => {
                buf.push(1);
                buf.push(l);
                assert(buf@ =~= old(buf)@ + seq![1u8, l]);
            },
            Block::Node(n) => {
                buf.push(0);
                let bytes = u64_to_le_bytes(self.nodes[n.index].hash);
                let mut i: usize = 0;
                while i < bytes.len()
                    invariant
                        i <= bytes.len(),
                        buf@ == old(buf)@ + seq![0u8] + bytes@.take(i as int),
                    decreases bytes.len() - i,
                {
                    buf.push(bytes[i]);
                    assert(bytes@.take(i + 1) =~= bytes@.take(i as int).push(bytes@[i as int]));
                    i += 1;
                }
                assert(bytes@.take(i as int) =~= bytes@);
                assert(buf@ =~= old(buf)@ + (seq![0u8] + bytes@));
            },
        }
    }

    /// The fingerprint of four blocks of this cache.
    pub fn fingerprint_of(&self, elems: &[[Block; 2]; 2]) -> (h: u64)
        requires
            corners_in_arena(self@, *elems),
        ensures
            h == fingerprint(self@, *elems),
    {
        let mut buf: Vec<u8> = Vec::new();
        self.push_child_code(&mut buf, elems[0][0]);
        self.push_child_code(&mut buf, elems[0][1]);
        self.push_child_code(&mut buf, elems[1][0]);
        self.push_child_code(&mut buf, elems[1][1]);
        assert(buf@ =~= corners_code(self@, *elems));
        fnv_hash(&buf)
    }

    /// Records `future` as the future of the node `n`, which has none yet.
    pub fn set_future(&mut self, n: Node, future: Block)
        requires
            old(self).wf(),
            n.index < old(self)@.len(),
            old(self)@[n.index as int].future is None,
            old(self).contains(future),
            center_future(old(self).tree(Block::Node(n)), old(self).tree(future)),
        ensures
            final(self).wf(),
            extends(old(self)@, final(self)@),
            final(self)@ == old(self)@.update(
                n.index as int,
                NodeView {
                    corners: old(self)@[n.index as int].corners,
                    hash: old(self)@[n.index as int].hash,
                    future: Some(future),
                },
            ),
    {
        proof {
            self.lemma_view();
        }
        let corners = self.nodes[n.index].corners;
        let hash = self.nodes[n.index].hash;
        let mut evolve: Cache<Block> = Cache::new();
        evolve.set(future);
        self.nodes.set(n.index, HeapNode { corners: corners, hash: hash, evolve: evolve });
        proof {
            let c = old(self)@;
            let d = self@;
            let i = n.index as int;
            self.lemma_view();
            assert(d =~= c.update(i, NodeView { corners: c[i].corners, hash: c[i].hash, future: Some(future) }));
            assert(extends(c, d));
            assert forall|j: int| 0 <= j < d.len() implies #[trigger] node_ok(d, j) by {
                assert(node_ok(c, j));
                assert(d.take(j).len() == j);
                assert(c.take(j).len() == j);
                lemma_fingerprint_extends(c, d, c[j].corners);
                lemma_tree_extends(c, d, Block::Node(Node { index: j as usize }));
                if let Some(r) = d[j].future {
                    lemma_tree_extends(c, d, r);
                }
            }
            assert forall|h: u64| #[trigger] self.table@.contains_key(h) implies self.table@[h]
                < self.nodes.len() && self.nodes[self.table@[h] as int].hash == h by {
                assert(old(self).table@.contains_key(h));
            }
            assert forall|j: int| 0 <= j < self.nodes.len() implies self.table@.contains_key(
                #[trigger] self.nodes[j].hash,
            ) by {
                assert(old(self).table@.contains_key(old(self).nodes[j].hash));
            }
        }
    }

    /// The node with `elems` as corners, which is stored if the cache does
    /// not hold it yet. The caller knows that `elems` collides with no
    /// stored node.
    pub fn node(&mut self, elems: [[Block; 2]; 2]) -> (n: Node)
        requires
            old(self).wf(),
            corners_in_arena(old(self)@, elems),
            !collides(old(self)@, elems),
        ensures
            final(self).wf(),
            extends(old(self)@, final(self)@),
            interned(old(self)@, final(self)@, elems, n),
    {
        match self.node_nopanic(elems) {
            Ok(n) => n,
            Err(_) => unreached(),
        }
    }

    /// The node with `elems` as corners, which is stored if the cache does
    /// not hold it yet; `HashCollision` if a stored node has the same
    /// fingerprint and other corners, and then the cache is unchanged.
    pub fn node_nopanic(&mut self, elems: [[Block; 2]; 2]) -> (r: Result<Node, HashCollision>)
        requires
            old(self).wf(),
            corners_in_arena(old(self)@, elems),
        ensures
            final(self).wf(),
            extends(old(self)@, final(self)@),
            r is Err <==> collides(old(self)@, elems),
            r is Err ==> final(self)@ == old(self)@,
            r matches Ok(n) ==> interned(old(self)@, final(self)@, elems, n),
    {
        proof {
            self.lemma_view();
        }
        let hash = self.fingerprint_of(&elems);
        let found = match self.table.get(&hash) {
            Some(i) => Some(*i),
            None => None,
        };
        match found {
            Some(i) => {
                let k = &self.nodes[i].corners;
                let same = k[0][0] == elems[0][0] && k[0][1] == elems[0][1] && k[1][0] == elems[1][0]
                    && k[1][1] == elems[1][1];
                proof {
                    lemma_corners_eq(*k, elems);
                    assert(self@[i as int].hash == hash);
                    lemma_extends_trans(self@, self@, self@);
                }
                if same {
                    proof {
                        assert(is_node_of(self@, i as int, elems));
                        assert forall|j: int|
                            0 <= j < self@.len() && #[trigger] self@[j].hash == hash implies self@[j].corners
                            == elems by {
                            assert(self@[j].hash == self@[i as int].hash);
                        }
                        lemma_tree_of_node(self@, Node { index: i });
                        assert(self@[i as int].corners == elems);
                        assert(self@ == old(self)@);
                        assert(is_node_of(old(self)@, i as int, elems));
                        assert(tree_of(self@, Block::Node(Node { index: i })) == Tree::Node(
                            Box::new(tree_of(self@, elems[0][0])),
                            Box::new(tree_of(self@, elems[0][1])),
                            Box::new(tree_of(self@, elems[1][0])),
                            Box::new(tree_of(self@, elems[1][1])),
                        ));
                    }
                    Ok(Node { index: i })
                } else {
                    Err(HashCollision)
                }
            },
            None => {
                let i = node_count(&self.nodes);
                self.nodes.push(HeapNode::from_elems_and_hash(elems, hash));
                self.table.insert(hash, i);
                let _ = node_count(&self.nodes);
                proof {
                    let c = old(self)@;
                    let d = self@;
                    let v = NodeView { corners: elems, hash: hash, future: None };
                    self.lemma_view();
                    assert(d =~= c.push(v));
                    assert forall|j: int| 0 <= j < c.len() implies c[j].hash != hash by {
                        assert(old(self).table@.contains_key(old(self).nodes[j].hash));
                    }
                    assert forall|j: int| !is_node_of(c, j, elems) by {
                        if is_node_of(c, j, elems) {
                            assert(node_ok(c, j));
                        }
                    }
                    assert(extends(c, d));
                    lemma_fingerprint_extends(c, d, elems);
                    assert forall|j: int| 0 <= j < d.len() implies #[trigger] node_ok(d, j) by {
                        if j < c.len() {
                            assert(node_ok(c, j));
                            assert(d.take(j) =~= c.take(j));
                            assert(c.take(j).len() == j);
                            lemma_fingerprint_extends(c, d, c[j].corners);
                            lemma_tree_extends(c, d, Block::Node(Node { index: j as usize }));
                            if let Some(r) = c[j].future {
                                lemma_tree_extends(c, d, r);
                            }
                        } else {
                            assert(d.take(j) =~= c);
                        }
                    }
                    assert(cache_wf(d));
                    assert(self.table_ok());
                    assert(is_node_of(d, i as int, elems));
                    lemma_tree_of_node(d, Node { index: i });
                    lemma_tree_extends(c, d, elems[0][0]);
                    lemma_tree_extends(c, d, elems[0][1]);
                    lemma_tree_extends(c, d, elems[1][0]);
                    lemma_tree_extends(c, d, elems[1][1]);
                }
                Ok(Node { index: i })
            },
        }
    }
}

/// What an intern of `k` that gave `n` has done to a cache that held `old`
/// and now holds `new`: `n` is the node with the children `k`; if `old` had
/// that node, nothing has changed, and else `n` was added at the end.
pub open spec fn interned(old: Seq<NodeView>, new: Seq<NodeView>, k: [[Block; 2]; 2], n: Node) -> bool {
    &&& is_node_of(new, n.index as int, k)
    &&& tree_of(new, Block::Node(n)) == Tree::Node(
        Box::new(tree_of(old, k[0][0])),
        Box::new(tree_of(old, k[0][1])),
        Box::new(tree_of(old, k[1][0])),
        Box::new(tree_of(old, k[1][1])),
    )
    &&& if exists|i: int| is_node_of(old, i, k) {
        new == old
    } else {
        n.index == old.len() && new == old.push(
            NodeView { corners: k, hash: fingerprint(old, k), future: None },
        )
    }
}

impl Block {
    /// The leaf that a leaf block holds.
    pub fn unwrap_leaf(&self) -> (leaf: Leaf)
        requires
            self is Leaf,
        ensures
            *self == Block::Leaf(leaf),
    {
        match *self {
            Block::Leaf(l) => l,
            Block::Node(_) => unreached(),
        }
    }

    /// The node that a node block holds.
    pub fn unwrap_node(&self) -> (node: Node)
        requires
            self is Node,
        ensures
            *self == Block::Node(node),
    {
        match *self {
            Block::Node(n) => n,
            Block::Leaf(_) => unreached(),
        }
    }

    /// Base-two logarithm of the side, measured along the north-west
    /// children.
    pub fn lg_size(&self, cache: &CABlockCache) -> (lg: usize)
        requires
            cache.wf(),
            cache.contains(*self),
        ensures
            lg == cache.tree(*self).lg_size(),
    {
        let mut count: usize = LG_LEAF_SIZE;
        let mut block: Block = *self;
        loop
            invariant
                cache.wf(),
                cache.contains(block),
                count + cache.tree(block).lg_size() == 1 + cache.tree(*self).lg_size(),
                count + rank(block) <= 1 + rank(*self),
                rank(*self) <= cache@.len(),
            ensures
                count == cache.tree(*self).lg_size(),
            decreases rank(block),
        {
            match block {
                Block::Leaf(_) => {
                    break ;
                },
                Block::Node(n) => {
                    proof {
                        lemma_tree_of_node(cache@, n);
                    }
                    block = cache.heap_node(n).corners()[0][0];
                    count += 1;
                },
            }
        }
        count
    }

    /// Base-two logarithm of the side if the four children of every node
    /// have the same size, and an error if some node has children of
    /// different sizes.
    pub fn lg_size_verified(&self, cache: &CABlockCache) -> (r: Result<usize, ()>)
        requires
            cache.wf(),
            cache.contains(*self),
        ensures
            r is Ok <==> cache.tree(*self).uniform(),
            r matches Ok(lg) ==> lg == cache.tree(*self).lg_size(),
        decreases rank(*self),
    {
        match *self {
            Block::Leaf(_) => Ok(LG_LEAF_SIZE),
            Block::Node(n) => {
                proof {
                    lemma_tree_of_node(cache@, n);
                    lemma_lg_bound(cache@, *self);
                }
                let corners = cache.heap_node(n).corners();
                let size_m1 = match corners[0][0].lg_size_verified(cache) {
                    Ok(lg) => lg,
                    Err(_) => {
                        return Err(());
                    },
                };
                match corners[0][1].lg_size_verified(cache) {
                    Ok(lg) => {
                        if lg != size_m1 {
                            return Err(());
                        }
                    },
                    Err(_) => {
                        return Err(());
                    },
                }
                match corners[1][0].lg_size_verified(cache) {
                    Ok(lg) => {
                        if lg != size_m1 {
                            return Err(());
                        }
                    },
                    Err(_) => {
                        return Err(());
                    },
                }
                match corners[1][1].lg_size_verified(cache) {
                    Ok(lg) => {
                        if lg != size_m1 {
                            return Err(());
                        }
                    },
                    Err(_) => {
                        return Err(());
                    },
                }
                Ok(size_m1 + 1)
            },
        }
    }

    /// Whether the block is all of one piece down to a dead leaf: the four
    /// children of every node are the same block, and the leaf is dead.
    pub fn is_blank(&self, cache: &CABlockCache) -> (blank: bool)
        requires
            cache.wf(),
            cache.contains(*self),
        ensures
            blank == cache.tree(*self).is_blank(),
        decreases rank(*self),
    {
        match *self {
            Block::Leaf(l) => l == 0,
            Block::Node(n) => {
                proof {
                    lemma_tree_of_node(cache@, n);
                }
                let c = cache.heap_node(n).corners();
                let x = c[0][0];
                proof {
                    if cache.tree(c[0][1]) == cache.tree(x) {
                        lemma_canonical(cache@, c[0][1], x);
                    }
                    if cache.tree(c[1][0]) == cache.tree(x) {
                        lemma_canonical(cache@, c[1][0], x);
                    }
                    if cache.tree(c[1][1]) == cache.tree(x) {
                        lemma_canonical(cache@, c[1][1], x);
                    }
                }
                c[0][1] == x && c[1][0] == x && c[1][1] == x && x.is_blank(cache)
            },
        }
    }
}

/// The logarithm of the side of a block is at most one more than its rank.
pub proof fn lemma_lg_bound(c: Seq<NodeView>, b: Block)
    requires
        cache_wf(c),
        in_arena(c, b),
    ensures
        tree_of(c, b).lg_size() <= rank(b) + 1,
        tree_of(c, b).lg_size() < usize::MAX,
    decreases rank(b),
{
    match b {
        Block::Leaf(_) => {},
        Block::Node(n) => {
            lemma_tree_of_node(c, n);
            lemma_lg_bound(c, c[n.index as int].corners[0][0]);
        },
    }
}

/// A block whose tree is a leaf is a leaf block, and a block whose tree is a
/// node is a node block.
pub proof fn lemma_block_kind(c: Seq<NodeView>, b: Block)
    requires
        cache_wf(c),
        in_arena(c, b),
    ensures
        b is Leaf <==> tree_of(c, b) is Leaf,
        b is Leaf <==> tree_of(c, b).lg_size() == 1,
        b matches Block::Leaf(l) ==> tree_of(c, b) == Tree::Leaf(l),
{
    match b {
        Block::Leaf(_) => {},
        Block::Node(n) => {
            lemma_tree_of_node(c, n);
            lemma_side(tree_of(c, c[n.index as int].corners[0][0]));
        },
    }
}

/// A hasher that does close to nothing: it folds the bytes it is given into
/// 64 bits with exclusive or, eight bytes to a round. A table that is keyed
/// by fingerprints can use it to keep the fingerprint as it is.
pub struct XorHasher(u64);

/// `state` with `bytes` folded in: the byte at position `i` is shifted left
/// by eight times `i` modulo eight bits.
pub open spec fn xor_fold(state: u64, bytes: Seq<u8>) -> u64
    decreases bytes.len(),
{
    if bytes.len() == 0 {
        state
    } else {
        xor_fold(state, bytes.drop_last()) ^ ((bytes.last() as u64) << ((8 * ((bytes.len() - 1) % 8)) as u64))
    }
}

impl View for XorHasher {
    type V = u64;

    closed spec fn view(&self) -> u64 {
        self.0
    }
}

impl Default for XorHasher {
    fn default() -> (hasher: XorHasher)
        ensures
            hasher@ == 0,
    {
        XorHasher(0)
    }
}

impl XorHasher {
    /// The hash of the bytes written so far.
    pub fn finish(&self) -> (hash: u64)
        ensures
            hash == self@,
    {
        self.0
    }

    /// Folds `bytes` into the hash.
    pub fn write(&mut self, bytes: &[u8])
        ensures
            final(self)@ == xor_fold(old(self)@, bytes@),
    {
        let mut i: usize = 0;
        let mut shift: u64 = 0;
        while i < bytes.len()
            invariant
                i <= bytes@.len(),
                shift == 8 * (i % 8),
                self@ == xor_fold(old(self)@, bytes@.take(i as int)),
            decreases bytes@.len() - i,
        {
            proof {
                assert(bytes@.take(i + 1).drop_last() =~= bytes@.take(i as int));
            }
            self.0 = self.0 ^ ((bytes[i] as u64) << shift);
            shift = if shift == 56 {
                0
            } else {
                shift + 8
            };
            i += 1;
        }
        proof {
            assert(bytes@.take(bytes@.len() as int) =~= bytes@);
        }
    }
}

/// Interning is canonical: once a cache holds a node with given children,
/// every later intern of those children, however the cache has grown since,
/// gives that node and leaves the cache as it is.
pub proof fn law_intern_canonical(
    first: Seq<NodeView>,
    later: Seq<NodeView>,
    after: Seq<NodeView>,
    k: [[Block; 2]; 2],
    n1: Node,
    n2: Node,
)
    requires
        is_node_of(first, n1.index as int, k),
        extends(first, later),
        cache_wf(later),
        cache_wf(after),
        interned(later, after, k, n2),
    ensures
        n2 == n1,
        after == later,
{
    assert(is_node_of(later, n1.index as int, k));
    lemma_one_node_per_corners(after, n1.index as int, n2.index as int, k);
}

/// A future that a node has is permanent: it is still the node's future
/// however the cache has grown since.
pub proof fn law_future_is_kept(before: Seq<NodeView>, after: Seq<NodeView>, n: Node, future: Block)
    requires
        extends(before, after),
        n.index < before.len(),
        before[n.index as int].future == Some(future),
    ensures
        after[n.index as int].future == Some(future),
{
}

} // verus!
