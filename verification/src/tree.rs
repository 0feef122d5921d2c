//! The mathematical model of a block: a quadtree of leaves, and the square
//! of cells it stands for.
//!
//! Every contract of the block algorithms is stated over these trees. The
//! central relation is `window_after`: a tree `r` shows a given square window
//! of another tree `n` as it is `t` generations later. A sub-block is a
//! window after no generation, and the result of a big step is the central
//! window after a quarter of the side.

use vstd::prelude::*;
use crate::leaf::{Leaf, leaf_cell, leaf_masked, lemma_leaf_ext, lemma_dead_leaf};
use crate::life::{evolve_cell, evolve_grid, lemma_evolve_local, lemma_evolve_add, lemma_evolve_far_from_life};
use vstd::arithmetic::power2::{pow2, lemma_pow2_unfold, lemma2_to64};

verus! {

/// A quadtree: a leaf, or the four quadrants north-west, north-east,
/// south-west and south-east.
pub enum Tree {
    Leaf(Leaf),
    Node(Box<Tree>, Box<Tree>, Box<Tree>, Box<Tree>),
}

impl Tree {
    /// Base-two logarithm of the side, measured along the north-west spine.
    pub open spec fn lg_size(self) -> nat
        decreases self,
    {
        match self {
            Tree::Leaf(_) => 1,
            Tree::Node(nw, _, _, _) => nw.lg_size() + 1,
        }
    }

    /// The side in cells: two to the power `lg_size`.
    pub open spec fn side(self) -> int
        decreases self,
    {
        match self {
            Tree::Leaf(_) => 2,
            Tree::Node(nw, _, _, _) => 2 * nw.side(),
        }
    }

    /// Whether the four quadrants of every node have the same size.
    pub open spec fn uniform(self) -> bool
        decreases self,
    {
        match self {
            Tree::Leaf(_) => true,
            Tree::Node(nw, ne, sw, se) => {
                &&& nw.uniform()
                &&& ne.uniform()
                &&& sw.uniform()
                &&& se.uniform()
                &&& ne.lg_size() == nw.lg_size()
                &&& sw.lg_size() == nw.lg_size()
                &&& se.lg_size() == nw.lg_size()
            },
        }
    }

    /// Whether every leaf is masked.
    pub open spec fn masked(self) -> bool
        decreases self,
    {
        match self {
            Tree::Leaf(l) => leaf_masked(l),
            Tree::Node(nw, ne, sw, se) => nw.masked() && ne.masked() && sw.masked() && se.masked(),
        }
    }

    /// A tree that stands for a square of cells: uniform, with masked leaves.
    pub open spec fn well_formed(self) -> bool {
        self.uniform() && self.masked()
    }

    /// Whether the cell in row `y` and column `x` is alive, rows counted
    /// southwards and columns eastwards from the north-west corner.
    pub open spec fn cell(self, y: int, x: int) -> bool
        decreases self,
    {
        match self {
            Tree::Leaf(l) => leaf_cell(l, y, x),
            Tree::Node(nw, ne, sw, se) => {
                let h = nw.side();
                if y < h {
                    if x < h {
                        nw.cell(y, x)
                    } else {
                        ne.cell(y, x - h)
                    }
                } else {
                    if x < h {
                        sw.cell(y - h, x)
                    } else {
                        se.cell(y - h, x - h)
                    }
                }
            },
        }
    }

    /// The plane that holds this tree's cells with the north-west corner at
    /// the origin, and is dead elsewhere.
    pub open spec fn grid(self) -> spec_fn(int, int) -> bool {
        |y: int, x: int| 0 <= y < self.side() && 0 <= x < self.side() && self.cell(y, x)
    }

    /// Whether the four quadrants of every node are one and the same tree,
    /// down to a dead leaf.
    pub open spec fn is_blank(self) -> bool
        decreases self,
    {
        match self {
            Tree::Leaf(l) => l == 0,
            Tree::Node(nw, ne, sw, se) => *ne == *nw && *sw == *nw && *se == *nw && nw.is_blank(),
        }
    }

    /// The quadrant in row `y` and column `x` of a node, for `y` and `x` in
    /// `{0, 1}`.
    pub open spec fn child(self, y: int, x: int) -> Tree {
        match self {
            Tree::Leaf(_) => self,
            Tree::Node(nw, ne, sw, se) => if y == 0 {
                if x == 0 {
                    *nw
                } else {
                    *ne
                }
            } else {
                if x == 0 {
                    *sw
                } else {
                    *se
                }
            },
        }
    }

    /// The quadrant of a quadrant in row `y` and column `x` of the 4x4
    /// arrangement of a node's grandchildren, for `y` and `x` below four.
    pub open spec fn grandchild(self, y: int, x: int) -> Tree {
        self.child(y / 2, x / 2).child(y % 2, x % 2)
    }

    /// The tree of four equal quadrants.
    pub open spec fn square_of(quadrant: Tree) -> Tree {
        Tree::Node(Box::new(quadrant), Box::new(quadrant), Box::new(quadrant), Box::new(quadrant))
    }

    /// The all-dead tree with the given logarithm of the side, for
    /// `lg_size >= 1`.
    pub open spec fn blank(lg_size: nat) -> Tree
        decreases lg_size,
    {
        if lg_size <= 1 {
            Tree::Leaf(0)
        } else {
            Tree::square_of(Tree::blank((lg_size - 1) as nat))
        }
    }
}

/// The side of a tree is at least two and even.
pub proof fn lemma_side(t: Tree)
    ensures
        t.side() >= 2,
        t.side() % 2 == 0,
        t.lg_size() >= 1,
        t.lg_size() >= 2 ==> t.side() % 4 == 0,
    decreases t,
{
    match t {
        Tree::Leaf(_) => {},
        Tree::Node(nw, _, _, _) => {
            lemma_side(*nw);
        },
    }
}

/// Trees with the same logarithm of the side have the same side.
pub proof fn lemma_side_of_lg(a: Tree, b: Tree)
    requires
        a.lg_size() == b.lg_size(),
    ensures
        a.side() == b.side(),
    decreases a,
{
    lemma_side(a);
    lemma_side(b);
    match a {
        Tree::Leaf(_) => {
            match b {
                Tree::Leaf(_) => {},
                Tree::Node(bnw, _, _, _) => {
                    lemma_side(*bnw);
                },
            }
        },
        Tree::Node(anw, _, _, _) => {
            match b {
                Tree::Leaf(_) => {
                    lemma_side(*anw);
                },
                Tree::Node(bnw, _, _, _) => {
                    lemma_side_of_lg(*anw, *bnw);
                },
            }
        },
    }
}

/// Outside its square, a uniform tree has no live cell.
pub proof fn lemma_cell_in_square(t: Tree, y: int, x: int)
    requires
        t.uniform(),
        t.cell(y, x),
    ensures
        0 <= y < t.side(),
        0 <= x < t.side(),
    decreases t,
{
    match t {
        Tree::Leaf(_) => {},
        Tree::Node(nw, ne, sw, se) => {
            let h = nw.side();
            lemma_side_of_lg(*ne, *nw);
            lemma_side_of_lg(*sw, *nw);
            lemma_side_of_lg(*se, *nw);
            if y < h {
                if x < h {
                    lemma_cell_in_square(*nw, y, x);
                } else {
                    lemma_cell_in_square(*ne, y, x - h);
                }
            } else {
                if x < h {
                    lemma_cell_in_square(*sw, y - h, x);
                } else {
                    lemma_cell_in_square(*se, y - h, x - h);
                }
            }
        },
    }
}

/// Two well-formed trees of the same size with the same cells are the same
/// tree.
pub proof fn lemma_tree_ext(a: Tree, b: Tree)
    requires
        a.well_formed(),
        b.well_formed(),
        a.lg_size() == b.lg_size(),
        forall|y: int, x: int|
            0 <= y < a.side() && 0 <= x < a.side() ==> a.cell(y, x) == #[trigger] b.cell(y, x),
    ensures
        a == b,
    decreases a,
{
    match a {
        Tree::Leaf(la) => {
            match b {
                Tree::Leaf(lb) => {
                    assert forall|y: int, x: int| 0 <= y < 2 && 0 <= x < 2 implies leaf_cell(la, y, x)
                        == leaf_cell(lb, y, x) by {
                        assert(a.cell(y, x) == b.cell(y, x));
                    }
                    lemma_leaf_ext(la, lb);
                },
                Tree::Node(bnw, _, _, _) => {
                    lemma_side(*bnw);
                },
            }
        },
        Tree::Node(anw, ane, asw, ase) => {
            match b {
                Tree::Leaf(_) => {
                    lemma_side(*anw);
                },
                Tree::Node(bnw, bne, bsw, bse) => {
                    let h = anw.side();
                    lemma_side(*anw);
                    lemma_side_of_lg(*anw, *bnw);
                    lemma_side_of_lg(*ane, *anw);
                    lemma_side_of_lg(*asw, *anw);
                    lemma_side_of_lg(*ase, *anw);
                    assert forall|y: int, x: int| 0 <= y < h && 0 <= x < h implies anw.cell(y, x)
                        == #[trigger] bnw.cell(y, x) by {
                        assert(a.cell(y, x) == b.cell(y, x));
                    }
                    assert forall|y: int, x: int| 0 <= y < h && 0 <= x < h implies ane.cell(y, x)
                        == #[trigger] bne.cell(y, x) by {
                        assert(a.cell(y, x + h) == b.cell(y, x + h));
                    }
                    assert forall|y: int, x: int| 0 <= y < h && 0 <= x < h implies asw.cell(y, x)
                        == #[trigger] bsw.cell(y, x) by {
                        assert(a.cell(y + h, x) == b.cell(y + h, x));
                    }
                    assert forall|y: int, x: int| 0 <= y < h && 0 <= x < h implies ase.cell(y, x)
                        == #[trigger] bse.cell(y, x) by {
                        assert(a.cell(y + h, x + h) == b.cell(y + h, x + h));
                    }
                    lemma_tree_ext(*anw, *bnw);
                    lemma_tree_ext(*ane, *bne);
                    lemma_tree_ext(*asw, *bsw);
                    lemma_tree_ext(*ase, *bse);
                },
            }
        },
    }
}

/// `r` shows the window of `n` whose north-west corner is `oy` rows south
/// and `ox` columns east of the corner of `n`, as it is `t` generations
/// later. The window lies so far inside `n` that nothing outside `n` can
/// reach it in `t` generations.
pub open spec fn window_after(n: Tree, r: Tree, t: nat, oy: int, ox: int) -> bool {
    &&& n.well_formed()
    &&& r.well_formed()
    &&& t <= oy
    &&& t <= ox
    &&& oy + r.side() + t <= n.side()
    &&& ox + r.side() + t <= n.side()
    &&& forall|y: int, x: int|
        0 <= y < r.side() && 0 <= x < r.side() ==> #[trigger] r.cell(y, x) == evolve_cell(
            n.grid(),
            t,
            y + oy,
            x + ox,
        )
}

/// `r` is the central block of `n`, half its side, `t` generations later.
pub open spec fn center_after(n: Tree, r: Tree, t: nat) -> bool {
    &&& r.lg_size() + 1 == n.lg_size()
    &&& window_after(n, r, t, r.side() / 2, r.side() / 2)
}

/// `r` is the central block of `n` after a quarter of the side of `n` in
/// generations: the future that a node keeps once it has been computed.
pub open spec fn center_future(n: Tree, r: Tree) -> bool {
    center_after(n, r, (n.side() / 4) as nat)
}

/// The one tree of a given size that shows a given window of `n` after `t`
/// generations.
pub proof fn lemma_window_unique(n: Tree, r1: Tree, r2: Tree, t: nat, oy: int, ox: int)
    requires
        window_after(n, r1, t, oy, ox),
        window_after(n, r2, t, oy, ox),
        r1.lg_size() == r2.lg_size(),
    ensures
        r1 == r2,
{
    lemma_side_of_lg(r1, r2);
    lemma_tree_ext(r1, r2);
}

/// The central block of `n` after `t` generations is unique.
pub proof fn lemma_center_unique(n: Tree, r1: Tree, r2: Tree, t: nat)
    requires
        center_after(n, r1, t),
        center_after(n, r2, t),
    ensures
        r1 == r2,
{
    lemma_side_of_lg(r1, r2);
    lemma_window_unique(n, r1, r2, t, r1.side() / 2, r1.side() / 2);
}

/// A window of a window is a window: offsets and generations add up.
pub proof fn lemma_window_compose(
    n: Tree,
    w: Tree,
    r: Tree,
    t1: nat,
    oy1: int,
    ox1: int,
    t2: nat,
    oy2: int,
    ox2: int,
)
    requires
        window_after(n, w, t1, oy1, ox1),
        window_after(w, r, t2, oy2, ox2),
    ensures
        window_after(n, r, t1 + t2, oy1 + oy2, ox1 + ox2),
{
    let gn = n.grid();
    let gw = w.grid();
    let mid = evolve_grid(gn, t1);
    assert forall|y: int, x: int| 0 <= y < r.side() && 0 <= x < r.side() implies #[trigger] r.cell(
        y,
        x,
    ) == evolve_cell(gn, t1 + t2, y + oy1 + oy2, x + ox1 + ox2) by {
        assert forall|v: int, u: int|
            y + oy2 - t2 <= v <= y + oy2 + t2 && x + ox2 - t2 <= u <= x + ox2 + t2 implies #[trigger] gw(
            v,
            u,
        ) == mid(v + oy1, u + ox1) by {
            assert(w.cell(v, u) == evolve_cell(gn, t1, v + oy1, u + ox1));
        }
        lemma_evolve_local(gw, mid, t2, y + oy2, x + ox2, oy1, ox1);
        lemma_evolve_add(gn, t1, t2, y + oy2 + oy1, x + ox2 + ox1);
    }
}

/// Each quadrant of a well-formed node is a window of it, after no
/// generation.
pub proof fn lemma_quadrant_windows(n: Tree)
    requires
        n.well_formed(),
        n is Node,
    ensures
        window_after(n, *n->Node_0, 0, 0, 0),
        window_after(n, *n->Node_1, 0, 0, n->Node_0.side()),
        window_after(n, *n->Node_2, 0, n->Node_0.side(), 0),
        window_after(n, *n->Node_3, 0, n->Node_0.side(), n->Node_0.side()),
{
    let h = n->Node_0.side();
    lemma_side(*n->Node_0);
    lemma_side_of_lg(*n->Node_1, *n->Node_0);
    lemma_side_of_lg(*n->Node_2, *n->Node_0);
    lemma_side_of_lg(*n->Node_3, *n->Node_0);
}

/// Four windows of the same size that tile a square make up the window of
/// that square.
pub proof fn lemma_window_assemble(
    n: Tree,
    nw: Tree,
    ne: Tree,
    sw: Tree,
    se: Tree,
    t: nat,
    oy: int,
    ox: int,
)
    requires
        window_after(n, nw, t, oy, ox),
        window_after(n, ne, t, oy, ox + nw.side()),
        window_after(n, sw, t, oy + nw.side(), ox),
        window_after(n, se, t, oy + nw.side(), ox + nw.side()),
        ne.lg_size() == nw.lg_size(),
        sw.lg_size() == nw.lg_size(),
        se.lg_size() == nw.lg_size(),
    ensures
        window_after(n, Tree::Node(Box::new(nw), Box::new(ne), Box::new(sw), Box::new(se)), t, oy, ox),
{
    let r = Tree::Node(Box::new(nw), Box::new(ne), Box::new(sw), Box::new(se));
    let h = nw.side();
    lemma_side(nw);
    lemma_side_of_lg(ne, nw);
    lemma_side_of_lg(sw, nw);
    lemma_side_of_lg(se, nw);
    assert forall|y: int, x: int| 0 <= y < r.side() && 0 <= x < r.side() implies #[trigger] r.cell(
        y,
        x,
    ) == evolve_cell(n.grid(), t, y + oy, x + ox) by {
        if y < h {
            if x < h {
                assert(nw.cell(y, x) == evolve_cell(n.grid(), t, y + oy, x + ox));
            } else {
                assert(ne.cell(y, x - h) == evolve_cell(n.grid(), t, y + oy, x - h + ox + h));
            }
        } else {
            if x < h {
                assert(sw.cell(y - h, x) == evolve_cell(n.grid(), t, y - h + oy + h, x + ox));
            } else {
                assert(se.cell(y - h, x - h) == evolve_cell(
                    n.grid(),
                    t,
                    y - h + oy + h,
                    x - h + ox + h,
                ));
            }
        }
    }
}

/// The blank tree is well formed, has the size asked for, and no live cell.
pub proof fn lemma_blank(lg_size: nat)
    requires
        lg_size >= 1,
    ensures
        Tree::blank(lg_size).well_formed(),
        Tree::blank(lg_size).lg_size() == lg_size,
        Tree::blank(lg_size).is_blank(),
        forall|y: int, x: int| !Tree::blank(lg_size).cell(y, x),
    decreases lg_size,
{
    if lg_size <= 1 {
        lemma_dead_leaf(0);
    } else {
        let q = Tree::blank((lg_size - 1) as nat);
        lemma_blank((lg_size - 1) as nat);
        assert forall|y: int, x: int| !Tree::blank(lg_size).cell(y, x) by {
            let h = q.side();
            assert(!q.cell(y, x));
            assert(!q.cell(y, x - h));
            assert(!q.cell(y - h, x));
            assert(!q.cell(y - h, x - h));
        }
    }
}

/// A blank tree is the blank tree of its size.
pub proof fn lemma_is_blank(t: Tree)
    requires
        t.is_blank(),
    ensures
        t == Tree::blank(t.lg_size()),
    decreases t,
{
    match t {
        Tree::Leaf(_) => {},
        Tree::Node(nw, _, _, _) => {
            lemma_is_blank(*nw);
            lemma_side(*nw);
        },
    }
}

/// A well-formed tree without a live cell is blank.
pub proof fn lemma_dead_is_blank(t: Tree)
    requires
        t.well_formed(),
        forall|y: int, x: int| 0 <= y < t.side() && 0 <= x < t.side() ==> !#[trigger] t.cell(y, x),
    ensures
        t == Tree::blank(t.lg_size()),
{
    lemma_side(t);
    lemma_blank(t.lg_size());
    lemma_side_of_lg(t, Tree::blank(t.lg_size()));
    lemma_tree_ext(Tree::blank(t.lg_size()), t);
}

/// `k` times `q`, for `k` up to four, without a product.
pub open spec fn times(k: int, q: int) -> int {
    if k == 0 {
        0
    } else if k == 1 {
        q
    } else if k == 2 {
        q + q
    } else if k == 3 {
        q + q + q
    } else {
        q + q + q + q
    }
}

/// Each quadrant of a well-formed node is a window of it.
pub proof fn lemma_child_window(n: Tree, y: int, x: int)
    requires
        n.well_formed(),
        n.lg_size() >= 2,
        0 <= y < 2,
        0 <= x < 2,
    ensures
        n is Node,
        n.child(y, x).well_formed(),
        n.child(y, x).lg_size() + 1 == n.lg_size(),
        2 * n.child(y, x).side() == n.side(),
        window_after(n, n.child(y, x), 0, times(y, n.side() / 2), times(x, n.side() / 2)),
{
    lemma_side(n);
    match n {
        Tree::Leaf(_) => {},
        Tree::Node(nw, ne, sw, se) => {
            lemma_quadrant_windows(n);
            lemma_side_of_lg(*ne, *nw);
            lemma_side_of_lg(*sw, *nw);
            lemma_side_of_lg(*se, *nw);
        },
    }
}

/// Each grandchild of a well-formed node of nodes is a window of it.
pub proof fn lemma_grandchild_window(n: Tree, y: int, x: int)
    requires
        n.well_formed(),
        n.lg_size() >= 3,
        0 <= y < 4,
        0 <= x < 4,
    ensures
        n.grandchild(y, x).well_formed(),
        n.grandchild(y, x).lg_size() + 2 == n.lg_size(),
        4 * n.grandchild(y, x).side() == n.side(),
        window_after(n, n.grandchild(y, x), 0, times(y, n.side() / 4), times(x, n.side() / 4)),
{
    let c = n.child(y / 2, x / 2);
    lemma_child_window(n, y / 2, x / 2);
    lemma_child_window(c, y % 2, x % 2);
    lemma_window_compose(
        n,
        c,
        n.grandchild(y, x),
        0,
        times(y / 2, n.side() / 2),
        times(x / 2, n.side() / 2),
        0,
        times(y % 2, c.side() / 2),
        times(x % 2, c.side() / 2),
    );
}

/// One more in the logarithm of the side is twice the side.
pub proof fn lemma_side_double(a: Tree, b: Tree)
    requires
        a.lg_size() + 1 == b.lg_size(),
    ensures
        2 * a.side() == b.side(),
{
    lemma_side(a);
    match b {
        Tree::Leaf(_) => {},
        Tree::Node(bnw, _, _, _) => {
            lemma_side_of_lg(a, *bnw);
        },
    }
}

/// The side is two to the power of its logarithm.
pub proof fn lemma_side_pow2(t: Tree)
    ensures
        t.side() == pow2(t.lg_size()),
        t.lg_size() >= 2 ==> t.side() / 4 == pow2((t.lg_size() - 2) as nat),
        t.lg_size() >= 3 ==> t.side() / 8 == pow2((t.lg_size() - 3) as nat) && t.side() % 8 == 0,
    decreases t,
{
    lemma2_to64();
    match t {
        Tree::Leaf(_) => {},
        Tree::Node(nw, _, _, _) => {
            lemma_side_pow2(*nw);
            lemma_side(*nw);
            lemma_pow2_unfold(t.lg_size());
        },
    }
    if t.lg_size() >= 2 {
        lemma_pow2_unfold(t.lg_size());
        lemma_pow2_unfold((t.lg_size() - 1) as nat);
    }
    if t.lg_size() >= 3 {
        lemma_pow2_unfold((t.lg_size() - 2) as nat);
    }
}

/// The tree of twice the side that holds `t` in its centre and is dead
/// around it.
pub open spec fn encase_tree(t: Tree) -> Tree {
    match t {
        Tree::Leaf(_) => t,
        Tree::Node(nw, ne, sw, se) => {
            let z = Tree::blank(nw.lg_size());
            Tree::Node(
                Box::new(Tree::Node(Box::new(z), Box::new(z), Box::new(z), nw)),
                Box::new(Tree::Node(Box::new(z), Box::new(z), ne, Box::new(z))),
                Box::new(Tree::Node(Box::new(z), sw, Box::new(z), Box::new(z))),
                Box::new(Tree::Node(se, Box::new(z), Box::new(z), Box::new(z))),
            )
        },
    }
}

/// Encasing a well-formed node gives a well-formed node of twice the side
/// whose cells are those of the node, half the node's side further south and
/// east.
pub proof fn lemma_encase(t: Tree)
    requires
        t.well_formed(),
        t is Node,
    ensures
        encase_tree(t).well_formed(),
        encase_tree(t).lg_size() == t.lg_size() + 1,
        encase_tree(t).side() == 2 * t.side(),
        forall|y: int, x: int| #[trigger]
            encase_tree(t).grid()(y, x) == t.grid()(y - t.side() / 2, x - t.side() / 2),
{
    let e = encase_tree(t);
    match t {
        Tree::Leaf(_) => {},
        Tree::Node(nw, ne, sw, se) => {
            let z = Tree::blank(nw.lg_size());
            let h = nw.side();
            lemma_side(*nw);
            lemma_blank(nw.lg_size());
            lemma_side_of_lg(z, *nw);
            lemma_side_of_lg(*ne, *nw);
            lemma_side_of_lg(*sw, *nw);
            lemma_side_of_lg(*se, *nw);
            let a = Tree::Node(Box::new(z), Box::new(z), Box::new(z), nw);
            let b = Tree::Node(Box::new(z), Box::new(z), ne, Box::new(z));
            let c = Tree::Node(Box::new(z), sw, Box::new(z), Box::new(z));
            let d = Tree::Node(se, Box::new(z), Box::new(z), Box::new(z));
            assert(a.well_formed() && a.lg_size() == t.lg_size() && a.side() == 2 * h);
            assert(b.well_formed() && b.lg_size() == t.lg_size() && b.side() == 2 * h);
            assert(c.well_formed() && c.lg_size() == t.lg_size() && c.side() == 2 * h);
            assert(d.well_formed() && d.lg_size() == t.lg_size() && d.side() == 2 * h);
            assert(e.side() == 4 * h);
            assert forall|y: int, x: int| #[trigger]
                e.grid()(y, x) == t.grid()(y - t.side() / 2, x - t.side() / 2) by {
                assert(!z.cell(y, x));
                assert(!z.cell(y - h, x));
                assert(!z.cell(y, x - h));
                assert(!z.cell(y - h, x - h));
                assert(!z.cell(y - 2 * h, x));
                assert(!z.cell(y, x - 2 * h));
                assert(!z.cell(y - 2 * h, x - h));
                assert(!z.cell(y - h, x - 2 * h));
                assert(!z.cell(y - 2 * h, x - 2 * h));
                assert(!z.cell(y - 3 * h, x));
                assert(!z.cell(y, x - 3 * h));
                assert(!z.cell(y - 3 * h, x - h));
                assert(!z.cell(y - h, x - 3 * h));
                assert(!z.cell(y - 3 * h, x - 2 * h));
                assert(!z.cell(y - 2 * h, x - 3 * h));
                assert(!z.cell(y - 3 * h, x - 3 * h));
                if y < 2 * h {
                    if x < 2 * h {
                        assert(e.cell(y, x) == a.cell(y, x));
                    } else {
                        assert(e.cell(y, x) == b.cell(y, x - 2 * h));
                    }
                } else {
                    if x < 2 * h {
                        assert(e.cell(y, x) == c.cell(y - 2 * h, x));
                    } else {
                        assert(e.cell(y, x) == d.cell(y - 2 * h, x - 2 * h));
                    }
                }
                if 0 <= y - h < 2 * h && 0 <= x - h < 2 * h {
                } else {
                    if nw.cell(y - h, x - h) && y < 2 * h && x < 2 * h {
                        lemma_cell_in_square(*nw, y - h, x - h);
                    }
                    if ne.cell(y - h, x - 2 * h) && y < 2 * h && x >= 2 * h {
                        lemma_cell_in_square(*ne, y - h, x - 2 * h);
                    }
                    if sw.cell(y - 2 * h, x - h) && y >= 2 * h && x < 2 * h {
                        lemma_cell_in_square(*sw, y - 2 * h, x - h);
                    }
                    if se.cell(y - 2 * h, x - 2 * h) && y >= 2 * h && x >= 2 * h {
                        lemma_cell_in_square(*se, y - 2 * h, x - 2 * h);
                    }
                }
            }
        },
    }
}

/// The future of a blank tree is blank: the central block of the blank tree
/// of a given size, after a quarter of its side in generations, is the
/// blank tree one size smaller.
pub proof fn law_blank_future(lg_size: nat, r: Tree)
    requires
        lg_size >= 2,
        center_future(Tree::blank(lg_size), r),
    ensures
        r == Tree::blank((lg_size - 1) as nat),
{
    let n = Tree::blank(lg_size);
    let t = (n.side() / 4) as nat;
    lemma_blank(lg_size);
    assert forall|y: int, x: int| 0 <= y < r.side() && 0 <= x < r.side() implies !#[trigger] r.cell(y, x) by {
        lemma_evolve_far_from_life(n.grid(), t, y + r.side() / 2, x + r.side() / 2);
    }
    lemma_dead_is_blank(r);
}

/// A step by the largest power of two is the big step: the central block of
/// a tree after two to the power of the logarithm of its side less two
/// generations is its future.
pub proof fn law_top_power_is_future(n: Tree, by_power: Tree, future: Tree)
    requires
        n.lg_size() >= 2,
        center_after(n, by_power, pow2((n.lg_size() - 2) as nat)),
        center_future(n, future),
    ensures
        by_power == future,
{
    lemma_side_pow2(n);
    lemma_center_unique(n, by_power, future, (n.side() / 4) as nat);
}

/// A window after no generation shows the cells of the tree as they are:
/// the cell in row `y` and column `x` of the window is the cell of the tree
/// in row `y + oy` and column `x + ox`.
pub proof fn law_window_cells(n: Tree, r: Tree, oy: int, ox: int)
    requires
        window_after(n, r, 0, oy, ox),
    ensures
        forall|y: int, x: int|
            0 <= y < r.side() && 0 <= x < r.side() ==> #[trigger] r.cell(y, x) == n.cell(y + oy, x + ox),
{
    assert forall|y: int, x: int| 0 <= y < r.side() && 0 <= x < r.side() implies #[trigger] r.cell(y, x)
        == n.cell(y + oy, x + ox) by {
        assert(r.cell(y, x) == evolve_cell(n.grid(), 0, y + oy, x + ox));
    }
}

} // verus!
