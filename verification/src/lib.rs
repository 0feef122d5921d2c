//! Hashlife: Conway's Game of Life on hash-consed quadtrees.
//!
//! A `Hashlife` owns every node of a computation. Blocks and nodes are small
//! values that name what it owns; every operation on them takes the
//! `Hashlife` they belong to.

pub mod block;
pub mod cache;
pub mod evolve;
pub mod format;
pub mod global;
pub mod leaf;
pub mod life;
pub mod tree;
pub mod util;

use vstd::prelude::*;
use vstd::arithmetic::power2::pow2;
use vstd::pervasive::unreached;
use vstd::std_specs::cmp::PartialEqSpecImpl;
use rand::rngs::StdRng;
use rand::Rng;
use crate::block::{
    Block as RawBlock,
    Node as RawNode,
    CABlockCache,
    HashCollision,
    NodeView,
    cache_wf,
    collides,
    corners_in_arena,
    extends,
    in_arena,
    interned,
    tree_of,
    lemma_tree_extends,
    lemma_extends_trans,
    lemma_tree_of_node,
    lemma_lg_bound,
};
use crate::evolve::{mk_small_evolve_cache, small_evolve, is_subblock};
use crate::leaf::{Leaf, LG_LEAF_SIZE, LEAF_MASK, leaf_masked};
use crate::tree::{Tree, center_after, center_future, lemma_blank, lemma_side};

verus! {

/// The state of a Hashlife computation: the cache of nodes, the table of one
/// generation on 4x4 squares, and the blank blocks made so far.
pub struct Hashlife {
    table: CABlockCache,
    small_evolve_cache: [u8; 65536],
    blank_cache: Vec<RawBlock>,
}

/// A well-formed block of a `Hashlife`, with the logarithm of its side.
#[derive(Clone, Copy, Debug)]
pub struct Block {
    raw: RawBlock,
    lg_size: usize,
}

/// A well-formed node of a `Hashlife`, with the logarithm of its side.
#[derive(Clone, Copy, Debug)]
pub struct Node {
    raw: RawNode,
    lg_size: usize,
}

impl View for Hashlife {
    type V = Seq<NodeView>;

    closed spec fn view(&self) -> Seq<NodeView> {
        self.table@
    }
}

/// The standard random number generator of `rand`, of whose state nothing
/// is known.
#[verifier::external_type_specification]
#[verifier::external_body]
pub struct ExStdRng(rand::rngs::StdRng);

/// `Rng::gen` for a byte, on a `StdRng`: the next random byte, of which
/// nothing is known.
#[verifier::external_body]
fn random_byte(rng: &mut StdRng) -> (byte: u8) {
    rng.gen::<u8>()
}

/// The leaf whose cells are the bits of `byte` at the places of a leaf's
/// cells.
pub fn leaf_from_byte(byte: u8) -> (leaf: Leaf)
    ensures
        leaf == byte & LEAF_MASK,
        leaf_masked(leaf),
{
    assert((byte & 0x33) & 0xCC == 0) by (bit_vector);
    byte & LEAF_MASK
}

/// Some four blocks of the cache have the fingerprint of a stored node with
/// other children: the only reason for which an operation gives up.
pub open spec fn has_collision(c: Seq<NodeView>) -> bool {
    exists|k: [[RawBlock; 2]; 2]| corners_in_arena(c, k) && collides(c, k)
}

impl Hashlife {
    /// What holds of the parts beside the node cache: the table is the
    /// table of `small_evolve`, and the blank blocks are blank.
    pub closed spec fn parts_ok(&self) -> bool {
        &&& self.table.wf()
        &&& forall|x: u32| x < 65536 ==> #[trigger] self.small_evolve_cache[x as int] == small_evolve(x)
        &&& self.blank_cache.len() >= 1
        &&& forall|d: int|
            0 <= d < self.blank_cache.len() ==> in_arena(self@, #[trigger] self.blank_cache[d]) && tree_of(
                self@,
                self.blank_cache[d],
            ) == Tree::blank((d + 1) as nat)
    }

    /// The invariant of a `Hashlife`.
    pub open spec fn wf(&self) -> bool {
        cache_wf(self@) && self.parts_ok()
    }

    /// Whether `b` is a leaf or a node of this `Hashlife`.
    pub open spec fn contains(&self, b: RawBlock) -> bool {
        in_arena(self@, b)
    }

    /// The tree that `b` stands for.
    pub open spec fn tree(&self, b: RawBlock) -> Tree {
        tree_of(self@, b)
    }

    /// A raw node of this `Hashlife` whose tree is well formed.
    pub open spec fn sound_node(&self, n: RawNode) -> bool {
        n.index < self@.len() && self.tree(RawBlock::Node(n)).well_formed()
    }

    /// A raw block of this `Hashlife` whose tree is well formed.
    pub open spec fn sound(&self, b: RawBlock) -> bool {
        self.contains(b) && self.tree(b).well_formed()
    }

    proof fn lemma_parts_extend(&self, before: &Hashlife)
        requires
            before.wf(),
            self.table.wf(),
            extends(before@, self@),
            self.small_evolve_cache == before.small_evolve_cache,
            self.blank_cache == before.blank_cache,
        ensures
            self.wf(),
    {
        assert forall|d: int| 0 <= d < self.blank_cache.len() implies in_arena(
            self@,
            #[trigger] self.blank_cache[d],
        ) && tree_of(self@, self.blank_cache[d]) == Tree::blank((d + 1) as nat) by {
            lemma_tree_extends(before@, self@, before.blank_cache[d]);
        }
    }

    /// A new `Hashlife` with no node.
    pub fn new() -> (hl: Hashlife)
        ensures
            hl.wf(),
            hl@.len() == 0,
    {
        let mut blank_cache: Vec<RawBlock> = Vec::new();
        blank_cache.push(RawBlock::Leaf(0));
        let hl = Hashlife {
            table: CABlockCache::new(),
            small_evolve_cache: mk_small_evolve_cache(),
            blank_cache: blank_cache,
        };
        hl
    }

    /// Creates a new `Hashlife` and passes it to `f`.
    pub fn with_new<F: FnOnce(Hashlife) -> T, T>(f: F) -> (r: T)
        requires
            forall|hl: Hashlife| hl.wf() && hl@.len() == 0 ==> #[trigger] f.requires((hl,)),
        ensures
            exists|hl: Hashlife| hl.wf() && hl@.len() == 0 && #[trigger] f.ensures((hl,), r),
    {
        let hl = Hashlife::new();
        f(hl)
    }

    /// The raw node with `elems` as corners, which is stored if it is new.
    pub fn raw_node(&mut self, elems: [[RawBlock; 2]; 2]) -> (r: Result<RawNode, HashCollision>)
        requires
            old(self).wf(),
            corners_in_arena(old(self)@, elems),
        ensures
            final(self).wf(),
            extends(old(self)@, final(self)@),
            r is Err <==> collides(old(self)@, elems),
            r is Err ==> final(self)@ == old(self)@ && has_collision(final(self)@),
            r matches Ok(n) ==> interned(old(self)@, final(self)@, elems, n),
    {
        let ghost before = *self;
        let r = self.table.node_nopanic(elems);
        proof {
            self.lemma_parts_extend(&before);
        }
        r
    }

    /// The raw block of the node with `elems` as corners.
    pub fn raw_node_block(&mut self, elems: [[RawBlock; 2]; 2]) -> (r: Result<RawBlock, HashCollision>)
        requires
            old(self).wf(),
            corners_in_arena(old(self)@, elems),
        ensures
            final(self).wf(),
            extends(old(self)@, final(self)@),
            r is Err <==> collides(old(self)@, elems),
            r is Err ==> final(self)@ == old(self)@ && has_collision(final(self)@),
            r matches Ok(b) ==> b is Node && interned(old(self)@, final(self)@, elems, b->Node_0),
    {
        match self.raw_node(elems) {
            Ok(n) => Ok(RawBlock::Node(n)),
            Err(e) => Err(e),
        }
    }

    /// The underlying cache of nodes.
    pub fn block_cache(&self) -> (cache: &CABlockCache)
        requires
            self.wf(),
        ensures
            cache.wf(),
            cache@ == self@,
    {
        &self.table
    }

    /// The table of one generation on 4x4 squares.
    pub fn small_evolve_cache(&self) -> (table: &[u8; 65536])
        requires
            self.wf(),
        ensures
            forall|x: u32| x < 65536 ==> #[trigger] table[x as int] == small_evolve(x),
    {
        &self.small_evolve_cache
    }

    /// The future of the raw node `n`, if it has been computed.
    pub fn cached_future(&self, n: RawNode) -> (future: Option<RawBlock>)
        requires
            self.wf(),
            n.index < self@.len(),
        ensures
            future == self@[n.index as int].future,
            future matches Some(b) ==> self.contains(b) && center_future(
                self.tree(RawBlock::Node(n)),
                self.tree(b),
            ),
    {
        proof {
            assert(crate::block::node_ok(self@, n.index as int));
        }
        self.table.heap_node(n).evolve_cache().get()
    }

    /// Records `future` as the future of the raw node `n`, which has none
    /// yet.
    pub fn store_future(&mut self, n: RawNode, future: RawBlock)
        requires
            old(self).wf(),
            n.index < old(self)@.len(),
            old(self)@[n.index as int].future is None,
            old(self).contains(future),
            center_future(old(self).tree(RawBlock::Node(n)), old(self).tree(future)),
        ensures
            final(self).wf(),
            extends(old(self)@, final(self)@),
            final(self)@.len() == old(self)@.len(),
            final(self)@[n.index as int].future == Some(future),
    {
        let ghost before = *self;
        self.table.set_future(n, future);
        proof {
            self.lemma_parts_extend(&before);
        }
    }

    /// The raw blank block with the given logarithm of the side: every cell
    /// is dead.
    pub fn raw_blank(&mut self, lg_size: usize) -> (r: Result<RawBlock, HashCollision>)
        requires
            old(self).wf(),
            lg_size >= LG_LEAF_SIZE,
        ensures
            final(self).wf(),
            extends(old(self)@, final(self)@),
            r is Err ==> has_collision(final(self)@),
            r matches Ok(b) ==> final(self).contains(b) && final(self).tree(b) == Tree::blank(
                lg_size as nat,
            ),
    {
        let depth = lg_size - LG_LEAF_SIZE;
        proof {
            lemma_extends_trans(self@, self@, self@);
        }
        if depth < self.blank_cache.len() {
            Ok(self.blank_cache[depth])
        } else {
            let mut big_blank = self.blank_cache[self.blank_cache.len() - 1];
            while self.blank_cache.len() <= depth
                invariant
                    self.wf(),
                    extends(old(self)@, self@),
                    big_blank == self.blank_cache[self.blank_cache.len() - 1],
                    self.blank_cache.len() <= depth + 1,
                    depth < usize::MAX,
                decreases depth + 1 - self.blank_cache.len(),
            {
                let ghost before = *self;
                let node = match self.table.node_nopanic([[big_blank, big_blank], [big_blank, big_blank]]) {
                    Ok(n) => n,
                    Err(e) => {
                        proof {
                            self.lemma_parts_extend(&before);
                            lemma_extends_trans(old(self)@, before@, self@);
                        }
                        return Err(e);
                    },
                };
                big_blank = RawBlock::Node(node);
                proof {
                    self.lemma_parts_extend(&before);
                    lemma_extends_trans(old(self)@, before@, self@);
                    lemma_blank(before.blank_cache.len() as nat);
                }
                self.blank_cache.push(big_blank);
                proof {
                    assert forall|d: int| 0 <= d < self.blank_cache.len() implies in_arena(
                        self@,
                        #[trigger] self.blank_cache[d],
                    ) && tree_of(self@, self.blank_cache[d]) == Tree::blank((d + 1) as nat) by {
                        if d < before.blank_cache.len() {
                            assert(self.blank_cache[d] == before.blank_cache[d]);
                            lemma_tree_extends(before@, self@, before.blank_cache[d]);
                        }
                    }
                }
            }
            Ok(big_blank)
        }
    }
}

impl View for Block {
    type V = RawBlock;

    closed spec fn view(&self) -> RawBlock {
        self.raw
    }
}

impl View for Node {
    type V = RawNode;

    closed spec fn view(&self) -> RawNode {
        self.raw
    }
}

impl PartialEq for Block {
    fn eq(&self, other: &Self) -> (r: bool) {
        self.raw == other.raw
    }
}

impl PartialEqSpecImpl for Block {
    open spec fn obeys_eq_spec() -> bool {
        true
    }

    open spec fn eq_spec(&self, other: &Block) -> bool {
        self@ == other@
    }
}

impl Eq for Block {

}

impl PartialEq for Node {
    fn eq(&self, other: &Self) -> (r: bool) {
        self.raw == other.raw
    }
}

impl PartialEqSpecImpl for Node {
    open spec fn obeys_eq_spec() -> bool {
        true
    }

    open spec fn eq_spec(&self, other: &Node) -> bool {
        self@ == other@
    }
}

impl Eq for Node {

}

impl Node {
    /// The logarithm of the side that the node carries.
    pub closed spec fn lg(&self) -> usize {
        self.lg_size
    }

    /// Whether this is a well-formed node of `hl` and carries the logarithm
    /// of its side.
    pub open spec fn valid(&self, hl: &Hashlife) -> bool {
        hl.sound_node(self@) && self.lg() == hl.tree(RawBlock::Node(self@)).lg_size()
    }

    /// The tree that the node stands for in `hl`.
    pub open spec fn tree(&self, hl: &Hashlife) -> Tree {
        hl.tree(RawBlock::Node(self@))
    }

    /// The raw node.
    pub fn to_raw(&self) -> (raw: RawNode)
        ensures
            raw == self@,
    {
        self.raw
    }

    /// The central block of the node after a quarter of its side in
    /// generations.
    pub fn evolve(&self, hl: &mut Hashlife) -> (r: Result<Block, HashCollision>)
        requires
            old(hl).wf(),
            self.valid(old(hl)),
        ensures
            final(hl).wf(),
            extends(old(hl)@, final(hl)@),
            r is Err ==> has_collision(final(hl)@),
            r matches Ok(b) ==> b.valid(final(hl)) && center_future(self.tree(old(hl)), b.tree(final(hl))),
    {
        hl.big_step(*self)
    }

    /// The four children, as `corners[y][x]`.
    pub fn corners(&self, hl: &Hashlife) -> (corners: [[Block; 2]; 2])
        requires
            hl.wf(),
            self.valid(hl),
        ensures
            forall|y: int, x: int|
                0 <= y < 2 && 0 <= x < 2 ==> (#[trigger] corners[y][x]).valid(hl) && corners[y][x]@
                    == hl@[self@.index as int].corners[y][x] && corners[y][x].tree(hl) == self.tree(
                    hl,
                ).child(y, x),
    {
        proof {
            lemma_tree_of_node(hl@, self@);
        }
        let k = hl.block_cache().heap_node(self.raw).corners();
        let lg = self.lg_size - 1;
        [
            [Block { raw: k[0][0], lg_size: lg }, Block { raw: k[0][1], lg_size: lg }],
            [Block { raw: k[1][0], lg_size: lg }, Block { raw: k[1][1], lg_size: lg }],
        ]
    }

    /// Base-two logarithm of the side.
    pub fn lg_size(&self) -> (lg: usize)
        ensures
            lg == self.lg(),
    {
        self.lg_size
    }

    /// Whether the children are leaves.
    pub fn node_of_leafs(&self) -> (leafs: bool)
        ensures
            leafs == (self.lg() == LG_LEAF_SIZE + 1),
    {
        self.lg_size == LG_LEAF_SIZE + 1
    }
}

impl Block {
    /// The logarithm of the side that the block carries.
    pub closed spec fn lg(&self) -> usize {
        self.lg_size
    }

    /// Whether this is a well-formed block of `hl` and carries the
    /// logarithm of its side.
    pub open spec fn valid(&self, hl: &Hashlife) -> bool {
        hl.sound(self@) && self.lg() == hl.tree(self@).lg_size()
    }

    /// The tree that the block stands for in `hl`.
    pub open spec fn tree(&self, hl: &Hashlife) -> Tree {
        hl.tree(self@)
    }

    /// The raw block.
    pub fn to_raw(&self) -> (raw: RawBlock)
        ensures
            raw == self@,
    {
        self.raw
    }

    /// The block of a node.
    pub fn from_node(node: Node) -> (block: Block)
        ensures
            block@ == RawBlock::Node(node@),
            block.lg() == node.lg(),
    {
        Block { raw: RawBlock::Node(node.raw), lg_size: node.lg_size }
    }

    /// The node of a node block, or the leaf of a leaf block.
    pub fn destruct(self) -> (r: Result<Node, Leaf>)
        ensures
            match r {
                Ok(n) => self@ == RawBlock::Node(n@) && n.lg() == self.lg(),
                Err(l) => self@ == RawBlock::Leaf(l),
            },
    {
        match self.raw {
            RawBlock::Node(n) => Ok(Node { raw: n, lg_size: self.lg_size }),
            RawBlock::Leaf(l) => Err(l),
        }
    }

    /// The leaf of a leaf block.
    pub fn unwrap_leaf(self) -> (leaf: Leaf)
        requires
            self@ is Leaf,
        ensures
            self@ == RawBlock::Leaf(leaf),
    {
        match self.destruct() {
            Err(l) => l,
            Ok(_) => unreached(),
        }
    }

    /// The node of a node block.
    pub fn unwrap_node(self) -> (node: Node)
        requires
            self@ is Node,
        ensures
            self@ == RawBlock::Node(node@),
            node.lg() == self.lg(),
    {
        match self.destruct() {
            Ok(n) => n,
            Err(_) => unreached(),
        }
    }

    /// Base-two logarithm of the side.
    pub fn lg_size(&self) -> (lg: usize)
        ensures
            lg == self.lg(),
    {
        self.lg_size
    }

    /// Base-two logarithm of the side; a block of this kind is never ill
    /// formed.
    pub fn lg_size_verified(&self) -> (r: Result<usize, ()>)
        ensures
            r == Ok::<usize, ()>(self.lg()),
    {
        Ok(self.lg_size())
    }

    /// Whether every cell is dead.
    pub fn is_blank(&self, hl: &Hashlife) -> (blank: bool)
        requires
            hl.wf(),
            self.valid(hl),
        ensures
            blank == self.tree(hl).is_blank(),
            blank == (self.tree(hl) == Tree::blank(self.lg() as nat)),
    {
        proof {
            lemma_side(self.tree(hl));
            if self.tree(hl).is_blank() {
                crate::tree::lemma_is_blank(self.tree(hl));
            } else {
                lemma_blank(self.lg() as nat);
            }
        }
        self.raw.is_blank(hl.block_cache())
    }
}

impl Hashlife {
    /// The node with `elems` as corners, which all have the same size.
    pub fn node(&mut self, elems: [[Block; 2]; 2]) -> (r: Result<Node, HashCollision>)
        requires
            old(self).wf(),
            elems[0][0].valid(old(self)),
            elems[0][1].valid(old(self)),
            elems[1][0].valid(old(self)),
            elems[1][1].valid(old(self)),
            elems[0][1].lg() == elems[0][0].lg(),
            elems[1][0].lg() == elems[0][0].lg(),
            elems[1][1].lg() == elems[0][0].lg(),
        ensures
            final(self).wf(),
            extends(old(self)@, final(self)@),
            r is Err <==> collides(old(self)@, [[elems[0][0]@, elems[0][1]@], [elems[1][0]@, elems[1][1]@]]),
            r is Err ==> final(self)@ == old(self)@ && has_collision(final(self)@),
            r matches Ok(n) ==> {
                &&& n.valid(final(self))
                &&& n.lg() == elems[0][0].lg() + 1
                &&& interned(
                    old(self)@,
                    final(self)@,
                    [[elems[0][0]@, elems[0][1]@], [elems[1][0]@, elems[1][1]@]],
                    n@,
                )
                &&& n.tree(final(self)) == Tree::Node(
                    Box::new(elems[0][0].tree(old(self))),
                    Box::new(elems[0][1].tree(old(self))),
                    Box::new(elems[1][0].tree(old(self))),
                    Box::new(elems[1][1].tree(old(self))),
                )
            },
    {
        let elem_lg_size = elems[0][0].lg_size();
        let raw_elems = [
            [elems[0][0].to_raw(), elems[0][1].to_raw()],
            [elems[1][0].to_raw(), elems[1][1].to_raw()],
        ];
        let raw = self.raw_node(raw_elems)?;
        proof {
            lemma_lg_bound(self@, RawBlock::Node(raw));
        }
        Ok(Node { raw: raw, lg_size: elem_lg_size + 1 })
    }

    /// The block of the node with `elems` as corners, which all have the
    /// same size.
    pub fn node_block(&mut self, elems: [[Block; 2]; 2]) -> (r: Result<Block, HashCollision>)
        requires
            old(self).wf(),
            elems[0][0].valid(old(self)),
            elems[0][1].valid(old(self)),
            elems[1][0].valid(old(self)),
            elems[1][1].valid(old(self)),
            elems[0][1].lg() == elems[0][0].lg(),
            elems[1][0].lg() == elems[0][0].lg(),
            elems[1][1].lg() == elems[0][0].lg(),
        ensures
            final(self).wf(),
            extends(old(self)@, final(self)@),
            r is Err <==> collides(old(self)@, [[elems[0][0]@, elems[0][1]@], [elems[1][0]@, elems[1][1]@]]),
            r is Err ==> final(self)@ == old(self)@ && has_collision(final(self)@),
            r matches Ok(b) ==> {
                &&& b.valid(final(self))
                &&& b@ is Node
                &&& b.lg() == elems[0][0].lg() + 1
                &&& interned(
                    old(self)@,
                    final(self)@,
                    [[elems[0][0]@, elems[0][1]@], [elems[1][0]@, elems[1][1]@]],
                    b@->Node_0,
                )
                &&& b.tree(final(self)) == Tree::Node(
                    Box::new(elems[0][0].tree(old(self))),
                    Box::new(elems[0][1].tree(old(self))),
                    Box::new(elems[1][0].tree(old(self))),
                    Box::new(elems[1][1].tree(old(self))),
                )
            },
    {
        match self.node(elems) {
            Ok(n) => Ok(Block::from_node(n)),
            Err(e) => Err(e),
        }
    }

    /// The block of a masked leaf.
    pub fn leaf(&self, leaf: Leaf) -> (b: Block)
        requires
            leaf_masked(leaf),
        ensures
            b@ == RawBlock::Leaf(leaf),
            b.valid(self),
            b.lg() == LG_LEAF_SIZE,
    {
        Block { raw: RawBlock::Leaf(leaf), lg_size: LG_LEAF_SIZE }
    }

    /// The central block of the raw node `node`, half its side, after a
    /// quarter of its side in generations.
    pub fn raw_evolve(&mut self, node: RawNode) -> (r: Result<RawBlock, HashCollision>)
        requires
            old(self).wf(),
            old(self).sound_node(node),
        ensures
            final(self).wf(),
            extends(old(self)@, final(self)@),
            r is Err ==> has_collision(final(self)@),
            r matches Ok(b) ==> {
                &&& final(self).sound(b)
                &&& center_future(old(self).tree(RawBlock::Node(node)), final(self).tree(b))
                &&& final(self)@[node.index as int].future == Some(b)
            },
            old(self)@[node.index as int].future matches Some(b) ==> r == Ok::<RawBlock, HashCollision>(
                b,
            ) && final(self)@ == old(self)@,
    {
        evolve::evolve(self, node)
    }

    /// The central block of `node`, half its side, after a quarter of its
    /// side in generations: the main step of the algorithm.
    pub fn big_step(&mut self, node: Node) -> (r: Result<Block, HashCollision>)
        requires
            old(self).wf(),
            node.valid(old(self)),
        ensures
            final(self).wf(),
            extends(old(self)@, final(self)@),
            r is Err ==> has_collision(final(self)@),
            r matches Ok(b) ==> {
                &&& b.valid(final(self))
                &&& b.lg() + 1 == node.lg()
                &&& center_future(node.tree(old(self)), b.tree(final(self)))
                &&& final(self)@[node@.index as int].future == Some(b@)
            },
            old(self)@[node@.index as int].future matches Some(b) ==> r is Ok && r->Ok_0@ == b
                && final(self)@ == old(self)@,
    {
        proof {
            lemma_side(node.tree(self));
        }
        let raw = evolve::evolve(self, node.raw)?;
        Ok(Block { raw: raw, lg_size: node.lg_size - 1 })
    }

    /// The raw sub-block of `node` in row `y` and column `x`, for `y` and
    /// `x` in `{0, 1, 2}`.
    pub fn raw_subblock(&mut self, node: RawNode, y: u8, x: u8) -> (r: Result<RawBlock, HashCollision>)
        requires
            old(self).wf(),
            old(self).sound_node(node),
            y < 3,
            x < 3,
        ensures
            final(self).wf(),
            extends(old(self)@, final(self)@),
            r is Err ==> has_collision(final(self)@),
            r matches Ok(b) ==> final(self).sound(b) && is_subblock(
                old(self).tree(RawBlock::Node(node)),
                final(self).tree(b),
                y as int,
                x as int,
            ),
    {
        evolve::subblock(self, node, y, x)
    }

    /// The blank block with the given logarithm of the side: every cell is
    /// dead.
    pub fn blank(&mut self, lg_size: usize) -> (r: Result<Block, HashCollision>)
        requires
            old(self).wf(),
            lg_size >= LG_LEAF_SIZE,
        ensures
            final(self).wf(),
            extends(old(self)@, final(self)@),
            r is Err ==> has_collision(final(self)@),
            r matches Ok(b) ==> b.valid(final(self)) && b.lg() == lg_size && b.tree(final(self))
                == Tree::blank(lg_size as nat),
    {
        let raw = self.raw_blank(lg_size)?;
        proof {
            lemma_blank(lg_size as nat);
        }
        Ok(Block { raw: raw, lg_size: lg_size })
    }

    /// The block of a raw block whose tree is well formed.
    pub fn block_from_raw(&self, raw: RawBlock) -> (b: Block)
        requires
            self.wf(),
            self.sound(raw),
        ensures
            b@ == raw,
            b.valid(self),
    {
        Block { raw: raw, lg_size: raw.lg_size(self.block_cache()) }
    }

    /// The node of a raw node whose tree is well formed.
    pub fn node_from_raw(&self, raw: RawNode) -> (n: Node)
        requires
            self.wf(),
            self.sound_node(raw),
        ensures
            n@ == raw,
            n.valid(self),
    {
        Node { raw: raw, lg_size: RawBlock::Node(raw).lg_size(self.block_cache()) }
    }

    /// A raw block whose side is two to the power `depth + 1`, with cells
    /// that `rng` sets at random.
    pub fn raw_random_block(&mut self, rng: &mut StdRng, depth: usize) -> (r: Result<
        RawBlock,
        HashCollision,
    >)
        requires
            old(self).wf(),
            depth < usize::MAX,
        ensures
            final(self).wf(),
            extends(old(self)@, final(self)@),
            r is Err ==> has_collision(final(self)@),
            r matches Ok(b) ==> final(self).sound(b) && final(self).tree(b).lg_size() == depth + 1,
        decreases depth,
    {
        let ghost c0 = self@;
        proof {
            lemma_extends_trans(c0, c0, c0);
        }
        let lg_size = depth + 1;
        if lg_size == LG_LEAF_SIZE {
            let leaf = leaf_from_byte(random_byte(rng));
            Ok(RawBlock::Leaf(leaf))
        } else {
            let nw = self.raw_random_block(rng, depth - 1);
            let ghost c1 = self@;
            let nw = nw?;
            let ne = self.raw_random_block(rng, depth - 1);
            let ghost c2 = self@;
            proof {
                lemma_extends_trans(c0, c1, c2);
                lemma_tree_extends(c1, c2, nw);
            }
            let ne = ne?;
            let sw = self.raw_random_block(rng, depth - 1);
            let ghost c3 = self@;
            proof {
                lemma_extends_trans(c0, c2, c3);
                lemma_tree_extends(c2, c3, nw);
                lemma_tree_extends(c2, c3, ne);
            }
            let sw = sw?;
            let se = self.raw_random_block(rng, depth - 1);
            let ghost c4 = self@;
            proof {
                lemma_extends_trans(c0, c3, c4);
                lemma_tree_extends(c3, c4, nw);
                lemma_tree_extends(c3, c4, ne);
                lemma_tree_extends(c3, c4, sw);
            }
            let se = se?;
            let node = self.raw_node_block([[nw, ne], [sw, se]]);
            proof {
                lemma_extends_trans(c0, c4, self@);
            }
            node
        }
    }

    /// The central block of the raw node `node`, half its side, after two
    /// to the power `lognsteps` generations.
    pub fn raw_step_pow2(&mut self, node: RawNode, lognsteps: usize) -> (r: Result<
        RawBlock,
        HashCollision,
    >)
        requires
            old(self).wf(),
            old(self).sound_node(node),
            lognsteps + 2 <= old(self).tree(RawBlock::Node(node)).lg_size(),
        ensures
            final(self).wf(),
            extends(old(self)@, final(self)@),
            r is Err ==> has_collision(final(self)@),
            r matches Ok(b) ==> final(self).sound(b) && center_after(
                old(self).tree(RawBlock::Node(node)),
                final(self).tree(b),
                pow2(lognsteps as nat),
            ),
    {
        evolve::step_pow2(self, node, lognsteps)
    }

    /// The central block of `node`, half its side, after two to the power
    /// `lognsteps` generations.
    pub fn step_pow2(&mut self, node: Node, lognsteps: usize) -> (r: Result<Block, HashCollision>)
        requires
            old(self).wf(),
            node.valid(old(self)),
            lognsteps + 2 <= node.lg(),
        ensures
            final(self).wf(),
            extends(old(self)@, final(self)@),
            r is Err ==> has_collision(final(self)@),
            r matches Ok(b) ==> b.valid(final(self)) && b.lg() + 1 == node.lg() && center_after(
                node.tree(old(self)),
                b.tree(final(self)),
                pow2(lognsteps as nat),
            ),
    {
        let raw_node = self.raw_step_pow2(node.to_raw(), lognsteps)?;
        Ok(Block { raw: raw_node, lg_size: node.lg_size() - 1 })
    }

    /// The central block of `node`, half its side, after `nsteps`
    /// generations, for `nsteps` below a quarter of the side of `node`.
    pub fn step(&mut self, node: Node, nsteps: u64) -> (r: Result<Block, HashCollision>)
        requires
            old(self).wf(),
            node.valid(old(self)),
            nsteps < pow2((node.lg() - 2) as nat),
        ensures
            final(self).wf(),
            extends(old(self)@, final(self)@),
            r is Err ==> has_collision(final(self)@),
            r matches Ok(b) ==> b.valid(final(self)) && b.lg() + 1 == node.lg() && center_after(
                node.tree(old(self)),
                b.tree(final(self)),
                nsteps as nat,
            ),
    {
        proof {
            lemma_tree_of_node(self@, node@);
            lemma_side(self.tree(self@[node@.index as int].corners[0][0]));
        }
        let raw = evolve::step(self, node.to_raw(), node.lg_size() - 2, nsteps)?;
        Ok(Block { raw: raw, lg_size: node.lg_size() - 1 })
    }
}

/// A block of a `Hashlife` is a block of it, with the same tree, once more
/// nodes have been stored.
pub proof fn lemma_valid_extends(b: Block, before: &Hashlife, after: &Hashlife)
    requires
        extends(before@, after@),
        b.valid(before),
    ensures
        b.valid(after),
        b.tree(after) == b.tree(before),
{
    lemma_tree_extends(before@, after@, b@);
}

} // verus!
