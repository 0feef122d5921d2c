//! Patterns on the unbounded plane: a block with dead space around it.

use vstd::prelude::*;
use vstd::arithmetic::power2::{pow2, lemma_pow2_pos, lemma_pow2_unfold, lemma_pow2_strictly_increases};
use num::BigUint;
use crate::{Block, Hashlife, has_collision, lemma_valid_extends};
use crate::block::{HashCollision, extends, lemma_extends_trans, lemma_canonical, lemma_block_kind, lemma_lg_bound};
use crate::life::{evolve_cell, evolve_grid, lemma_evolve_local, lemma_evolve_add, lemma_evolve_far_from_life};
use crate::tree::{
    Tree,
    center_after,
    encase_tree,
    lemma_encase,
    lemma_side,
    lemma_side_double,
    lemma_side_of_lg,
    lemma_side_pow2,
    lemma_tree_ext,
    lemma_blank,
    lemma_child_window,
};
use crate::util::{
    big_value,
    big_add,
    big_bit,
    big_bits,
    big_from_u64,
    big_half,
    big_pow2,
    big_sub,
    log2_upper_bigu,
    lemma_log2_upper,
};

verus! {

/// The plane that holds the cells of `t` with the centre of `t` at the
/// origin, and is dead elsewhere.
pub open spec fn centered(t: Tree) -> spec_fn(int, int) -> bool {
    |y: int, x: int| t.grid()(y + t.side() / 2, x + t.side() / 2)
}

/// Whether every live cell of `t` is at least `d` cells away from each of
/// the four sides of `t`.
pub open spec fn margin_dead(t: Tree, d: int) -> bool {
    &&& 0 <= d
    &&& 2 * d <= t.side()
    &&& forall|y: int, x: int| #[trigger]
        t.grid()(y, x) ==> d <= y < t.side() - d && d <= x < t.side() - d
}

/// Whether two planes hold the same cells.
pub open spec fn same_plane(g: spec_fn(int, int) -> bool, h: spec_fn(int, int) -> bool) -> bool {
    forall|y: int, x: int| #[trigger] g(y, x) == h(y, x)
}

/// Whether `h` is `g` after `t` generations.
pub open spec fn plane_after(g: spec_fn(int, int) -> bool, t: nat, h: spec_fn(int, int) -> bool) -> bool {
    forall|y: int, x: int| #[trigger] h(y, x) == evolve_cell(g, t, y, x)
}

/// Encasing keeps the plane and adds half the side to the margin.
pub proof fn lemma_encase_plane(t: Tree, d: int)
    requires
        t.well_formed(),
        t is Node,
        margin_dead(t, d),
    ensures
        margin_dead(encase_tree(t), d + t.side() / 2),
        same_plane(centered(encase_tree(t)), centered(t)),
{
    let e = encase_tree(t);
    lemma_encase(t);
    lemma_side(t);
    assert forall|y: int, x: int| #[trigger]
        e.grid()(y, x) implies d + t.side() / 2 <= y < e.side() - (d + t.side() / 2) && d + t.side() / 2
        <= x < e.side() - (d + t.side() / 2) by {
        assert(t.grid()(y - t.side() / 2, x - t.side() / 2));
    }
    assert forall|y: int, x: int| #[trigger] centered(e)(y, x) == centered(t)(y, x) by {
        assert(e.grid()(y + e.side() / 2, x + e.side() / 2) == t.grid()(
            y + e.side() / 2 - t.side() / 2,
            x + e.side() / 2 - t.side() / 2,
        ));
    }
}

/// The central block of a tree with a wide enough margin shows the whole
/// plane `t` generations later, and has what is left of the margin.
pub proof fn lemma_center_plane(n: Tree, r: Tree, t: nat, d: int)
    requires
        center_after(n, r, t),
        margin_dead(n, d),
        d >= n.side() / 4 + t,
    ensures
        margin_dead(r, d - n.side() / 4 - t),
        plane_after(centered(n), t, centered(r)),
{
    let s = n.side();
    let q = s / 4;
    lemma_side(n);
    lemma_side(r);
    lemma_side_double(r, n);
    let g = n.grid();
    assert forall|y: int, x: int| #[trigger] centered(r)(y, x) == evolve_cell(centered(n), t, y, x) by {
        assert forall|v: int, u: int| y - t <= v <= y + t && x - t <= u <= x + t implies #[trigger] centered(
            n,
        )(v, u) == g(v + s / 2, u + s / 2) by {}
        lemma_evolve_local(centered(n), g, t, y, x, s / 2, s / 2);
        if 0 <= y + q < r.side() && 0 <= x + q < r.side() {
            assert(r.cell(y + q, x + q) == evolve_cell(g, t, y + q + q, x + q + q));
        } else {
            assert forall|v: int, u: int|
                y + s / 2 - t <= v <= y + s / 2 + t && x + s / 2 - t <= u <= x + s / 2 + t implies !#[trigger] g(
                v,
                u,
            ) by {}
            lemma_evolve_far_from_life(g, t, y + s / 2, x + s / 2);
        }
    }
    let m = d - q - t;
    assert forall|y: int, x: int| #[trigger] r.grid()(y, x) implies m <= y < r.side() - m && m <= x
        < r.side() - m by {
        assert(r.cell(y, x) == evolve_cell(g, t, y + q, x + q));
        if !(m <= y < r.side() - m && m <= x < r.side() - m) {
            assert forall|v: int, u: int|
                y + q - t <= v <= y + q + t && x + q - t <= u <= x + q + t implies !#[trigger] g(v, u) by {}
            lemma_evolve_far_from_life(g, t, y + q, x + q);
        }
    }
}

/// The same plane evolves to the same plane.
pub proof fn lemma_plane_after_same(
    g1: spec_fn(int, int) -> bool,
    g2: spec_fn(int, int) -> bool,
    t: nat,
    h: spec_fn(int, int) -> bool,
)
    requires
        same_plane(g1, g2),
        plane_after(g1, t, h),
    ensures
        plane_after(g2, t, h),
{
    assert forall|y: int, x: int| #[trigger] h(y, x) == evolve_cell(g2, t, y, x) by {
        lemma_evolve_local(g1, g2, t, y, x, 0, 0);
    }
}

/// Steps add up: `a` generations and then `b` more are `a + b` generations.
pub proof fn lemma_plane_after_add(
    g: spec_fn(int, int) -> bool,
    a: nat,
    mid: spec_fn(int, int) -> bool,
    b: nat,
    h: spec_fn(int, int) -> bool,
)
    requires
        plane_after(g, a, mid),
        plane_after(mid, b, h),
    ensures
        plane_after(g, a + b, h),
{
    assert forall|y: int, x: int| #[trigger] h(y, x) == evolve_cell(g, a + b, y, x) by {
        assert forall|v: int, u: int| y - b <= v <= y + b && x - b <= u <= x + b implies #[trigger] mid(v, u)
            == evolve_grid(g, a)(v, u) by {}
        lemma_evolve_local(mid, evolve_grid(g, a), b, y, x, 0, 0);
        lemma_evolve_add(g, a, b, y, x);
    }
}

/// The block of twice the side that holds the node block `b` in its centre
/// and is dead around it.
pub fn encase(hl: &mut Hashlife, b: Block) -> (r: Result<Block, HashCollision>)
    requires
        old(hl).wf(),
        b.valid(old(hl)),
        b@ is Node,
    ensures
        final(hl).wf(),
        extends(old(hl)@, final(hl)@),
        r is Err ==> has_collision(final(hl)@),
        r matches Ok(e) ==> {
            &&& e.valid(final(hl))
            &&& e@ is Node
            &&& e.lg() == b.lg() + 1
            &&& e.tree(final(hl)) == encase_tree(b.tree(old(hl)))
        },
{
    let ghost h0 = *hl;
    let ghost t = b.tree(hl);
    proof {
        lemma_extends_trans(hl@, hl@, hl@);
        lemma_block_kind(hl@, b@);
        lemma_child_window(t, 0, 0);
        lemma_side(*t->Node_0);
        lemma_blank(t->Node_0.lg_size());
    }
    let n = b.unwrap_node();
    let c = n.corners(hl);
    let z = hl.blank(b.lg_size() - 1);
    let ghost h1 = *hl;
    let z = z?;
    proof {
        lemma_valid_extends(c[0][0], &h0, &h1);
        lemma_valid_extends(c[0][1], &h0, &h1);
        lemma_valid_extends(c[1][0], &h0, &h1);
        lemma_valid_extends(c[1][1], &h0, &h1);
        lemma_child_window(t, 0, 1);
        lemma_child_window(t, 1, 0);
        lemma_child_window(t, 1, 1);
    }
    let nw = hl.node_block([[z, z], [z, c[0][0]]]);
    let ghost h2 = *hl;
    proof {
        lemma_extends_trans(h0@, h1@, h2@);
    }
    let nw = nw?;
    proof {
        lemma_valid_extends(z, &h1, &h2);
        lemma_valid_extends(c[0][1], &h1, &h2);
        lemma_valid_extends(c[1][0], &h1, &h2);
        lemma_valid_extends(c[1][1], &h1, &h2);
    }
    let ne = hl.node_block([[z, z], [c[0][1], z]]);
    let ghost h3 = *hl;
    proof {
        lemma_extends_trans(h0@, h2@, h3@);
    }
    let ne = ne?;
    proof {
        lemma_valid_extends(z, &h2, &h3);
        lemma_valid_extends(nw, &h2, &h3);
        lemma_valid_extends(c[1][0], &h2, &h3);
        lemma_valid_extends(c[1][1], &h2, &h3);
    }
    let sw = hl.node_block([[z, c[1][0]], [z, z]]);
    let ghost h4 = *hl;
    proof {
        lemma_extends_trans(h0@, h3@, h4@);
    }
    let sw = sw?;
    proof {
        lemma_valid_extends(z, &h3, &h4);
        lemma_valid_extends(nw, &h3, &h4);
        lemma_valid_extends(ne, &h3, &h4);
        lemma_valid_extends(c[1][1], &h3, &h4);
    }
    let se = hl.node_block([[c[1][1], z], [z, z]]);
    let ghost h5 = *hl;
    proof {
        lemma_extends_trans(h0@, h4@, h5@);
    }
    let se = se?;
    proof {
        lemma_valid_extends(nw, &h4, &h5);
        lemma_valid_extends(ne, &h4, &h5);
        lemma_valid_extends(sw, &h4, &h5);
    }
    let e = hl.node_block([[nw, ne], [sw, se]]);
    proof {
        lemma_extends_trans(h0@, h5@, hl@);
        lemma_encase(t);
    }
    e
}

/// A pattern on the unbounded plane that is dead in all but a finite area:
/// a node block, and a number of cells next to each of its sides that are
/// known to be dead.
#[derive(Debug)]
pub struct Pattern {
    block: Block,
    dead_space: BigUint,
}

impl Pattern {
    /// The block of the pattern.
    pub closed spec fn root(&self) -> Block {
        self.block
    }

    /// The width of the margin that is known to be dead.
    pub closed spec fn dead(&self) -> nat {
        big_value(self.dead_space)
    }

    /// The invariant of a pattern of `hl`.
    pub open spec fn wf(&self, hl: &Hashlife) -> bool {
        &&& self.root().valid(hl)
        &&& self.root()@ is Node
        &&& margin_dead(self.root().tree(hl), self.dead() as int)
        &&& 2 * self.dead() < self.root().tree(hl).side()
    }

    /// The plane that the pattern stands for, with the centre of its block
    /// at the origin.
    pub open spec fn plane(&self, hl: &Hashlife) -> spec_fn(int, int) -> bool {
        centered(self.root().tree(hl))
    }

    /// The pattern of a node block, with no cell known to be dead.
    pub fn new(block: Block) -> (p: Pattern)
        requires
            block@ is Node,
        ensures
            p.root() == block,
            p.dead() == 0,
    {
        Pattern { block: block, dead_space: big_from_u64(0) }
    }

    /// The block of the pattern.
    pub fn block(&self) -> (b: Block)
        ensures
            b == self.root(),
    {
        self.block
    }
}

/// Planes that are the same as a third are the same.
pub proof fn lemma_same_plane_trans(
    f: spec_fn(int, int) -> bool,
    g: spec_fn(int, int) -> bool,
    h: spec_fn(int, int) -> bool,
)
    requires
        same_plane(f, g),
        same_plane(g, h),
    ensures
        same_plane(f, h),
        same_plane(h, f),
{
    assert forall|y: int, x: int| #[trigger] f(y, x) == h(y, x) by {
        assert(f(y, x) == g(y, x));
        assert(g(y, x) == h(y, x));
    }
    assert forall|y: int, x: int| #[trigger] h(y, x) == f(y, x) by {
        assert(f(y, x) == h(y, x));
    }
}

/// Encases the node block `block` until the logarithm of its side is above
/// `log`.
fn grow(hl: &mut Hashlife, block: Block, log: u64, Ghost(d): Ghost<int>) -> (r: Result<Block, HashCollision>)
    requires
        old(hl).wf(),
        block.valid(old(hl)),
        block@ is Node,
        margin_dead(block.tree(old(hl)), d),
    ensures
        final(hl).wf(),
        extends(old(hl)@, final(hl)@),
        r is Err ==> has_collision(final(hl)@),
        r matches Ok(g) ==> {
            &&& g.valid(final(hl))
            &&& g@ is Node
            &&& g.lg() > log
            &&& g.tree(final(hl)).side() >= block.tree(old(hl)).side()
            &&& same_plane(centered(g.tree(final(hl))), centered(block.tree(old(hl))))
            &&& margin_dead(
                g.tree(final(hl)),
                d + (g.tree(final(hl)).side() - block.tree(old(hl)).side()) / 2,
            )
        },
    decreases log + 1 - block.lg(),
{
    let ghost h0 = *hl;
    let ghost t0 = block.tree(hl);
    proof {
        lemma_extends_trans(h0@, h0@, h0@);
        lemma_side(t0);
    }
    if block.lg_size() as u64 <= log {
        let encased = encase(hl, block)?;
        let ghost h1 = *hl;
        let ghost t1 = encased.tree(hl);
        proof {
            lemma_encase_plane(t0, d);
            lemma_encase(t0);
        }
        let grown = grow(hl, encased, log, Ghost(d + t0.side() / 2));
        proof {
            lemma_extends_trans(h0@, h1@, hl@);
            if let Ok(g) = grown {
                lemma_same_plane_trans(centered(g.tree(hl)), centered(t1), centered(t0));
            }
        }
        grown
    } else {
        Ok(block)
    }
}

impl Pattern {
    /// Advances the pattern by two to the power `k` generations. The block
    /// is first encased until the generations cannot reach its border from
    /// the live area; the central block of the step is the new block.
    fn step_pow2(&mut self, hl: &mut Hashlife, k: u64) -> (r: Result<(), HashCollision>)
        requires
            old(hl).wf(),
            old(self).wf(old(hl)),
            k < u64::MAX,
        ensures
            final(hl).wf(),
            extends(old(hl)@, final(hl)@),
            final(self).wf(final(hl)),
            r is Err ==> has_collision(final(hl)@) && *final(self) == *old(self),
            r is Ok ==> plane_after(old(self).plane(old(hl)), pow2(k as nat), final(self).plane(final(hl))),
    {
        let ghost h0 = *hl;
        let ghost t0 = self.block.tree(hl);
        let ghost d0 = self.dead() as int;
        proof {
            lemma_extends_trans(h0@, h0@, h0@);
            lemma_side_pow2(t0);
            lemma_lg_bound(h0@, self.block@);
            lemma_pow2_pos((k + 1) as nat);
        }
        let wide = grow(hl, self.block, k + 1, Ghost(d0));
        let wide = match wide {
            Ok(b) => b,
            Err(e) => {
                proof {
                    lemma_valid_extends(self.block, &h0, hl);
                }
                return Err(e);
            },
        };
        let ghost h1 = *hl;
        let ghost t1 = wide.tree(hl);
        let ghost d1 = d0 + (t1.side() - t0.side()) / 2;
        proof {
            lemma_lg_bound(h1@, wide@);
        }
        let length = self.length_bigu();
        let step_span = big_pow2(k + 1);
        let new_length = big_add(&length, &step_span);
        let log = log2_upper_bigu(&new_length);
        let ghost len = big_value(length) as int;
        let ghost new_len = big_value(new_length) as int;
        let grown = grow(hl, wide, log, Ghost(d1));
        proof {
            lemma_extends_trans(h0@, h1@, hl@);
        }
        let block = match grown {
            Ok(b) => b,
            Err(e) => {
                proof {
                    lemma_valid_extends(self.block, &h0, hl);
                }
                return Err(e);
            },
        };
        let ghost d = d1 + (block.tree(hl).side() - t1.side()) / 2;
        proof {
            lemma_side(t1);
            lemma_side(block.tree(hl));
            lemma_same_plane_trans(centered(block.tree(hl)), centered(t1), centered(t0));
        }
        let ghost h2 = *hl;
        let ghost t2 = block.tree(hl);
        proof {
            let lg = t2.lg_size();
            lemma_side_pow2(t2);
            lemma_side(t2);
            lemma_log2_upper(new_len as nat);
            lemma_pow2_unfold(lg);
            lemma_pow2_unfold((k + 1) as nat);
            if log < lg - 1 {
                lemma_pow2_strictly_increases(log as nat, (lg - 1) as nat);
            }
            assert(pow2((lg - 1) as nat) >= new_len);
            if k + 1 > lg - 1 {
                lemma_pow2_strictly_increases((lg - 1) as nat, (k + 1) as nat);
            }
            assert(k + 2 <= lg);
            vstd::arithmetic::power2::lemma2_to64();
            assert(new_len >= 3);
            assert(log >= 2);
            assert(lg >= 3);
            lemma_block_kind(hl@, block@);
        }
        let node = block.unwrap_node();
        let stepped = hl.step_pow2(node, k as usize);
        proof {
            lemma_extends_trans(h0@, h2@, hl@);
        }
        let stepped = match stepped {
            Ok(b) => b,
            Err(e) => {
                proof {
                    lemma_valid_extends(self.block, &h0, hl);
                }
                return Err(e);
            },
        };
        let ghost t3 = stepped.tree(hl);
        proof {
            lemma_side_pow2(t3);
            lemma_side_double(t3, t2);
            lemma_center_plane(t2, t3, pow2(k as nat), d);
            lemma_plane_after_same(centered(t2), centered(t0), pow2(k as nat), centered(t3));
            lemma_block_kind(hl@, stepped@);
            lemma_lg_bound(hl@, stepped@);
        }
        let half = big_pow2(stepped.lg_size() as u64);
        let slack = big_sub(&half, &new_length);
        self.dead_space = big_half(&slack);
        self.block = stepped;
        proof {
            let s = t2.side();
            assert(t3.side() * 2 == s);
            assert(big_value(half) == t3.side());
            assert(s - 2 * d == len);
            assert(new_len == len + 2 * pow2(k as nat));
            assert(big_value(slack) == 2 * d - s / 2 - 2 * pow2(k as nat));
            assert(self.dead() == d - s / 4 - pow2(k as nat));
        }
        Ok(())
    }

    /// The side of the area in the middle of the block that may hold live
    /// cells: the side of the block less the dead space on both sides.
    fn length_bigu(&self) -> (length: BigUint)
        requires
            2 * self.dead() <= pow2(self.root().lg() as nat),
        ensures
            big_value(length) == pow2(self.root().lg() as nat) - 2 * self.dead(),
    {
        let side = big_pow2(self.block.lg_size() as u64);
        let twice_dead = big_add(&self.dead_space, &self.dead_space);
        big_sub(&side, &twice_dead)
    }

    /// Advances the pattern by `nsteps` generations.
    pub fn step(&mut self, hl: &mut Hashlife, nsteps: u64) -> (r: Result<(), HashCollision>)
        requires
            old(hl).wf(),
            old(self).wf(old(hl)),
        ensures
            final(hl).wf(),
            extends(old(hl)@, final(hl)@),
            final(self).wf(final(hl)),
            r is Err ==> has_collision(final(hl)@) && exists|done: nat|
                done <= nsteps && #[trigger] plane_after(
                    old(self).plane(old(hl)),
                    done,
                    final(self).plane(final(hl)),
                ),
            r is Ok ==> plane_after(old(self).plane(old(hl)), nsteps as nat, final(self).plane(final(hl))),
    {
        let n = big_from_u64(nsteps);
        self.step_bigu(hl, &n)
    }

    /// Advances the pattern by `nsteps` generations: by two to the power
    /// `k` for each bit `k` that is set in `nsteps`, from the lowest bit up.
    pub fn step_bigu(&mut self, hl: &mut Hashlife, nsteps: &BigUint) -> (r: Result<(), HashCollision>)
        requires
            old(hl).wf(),
            old(self).wf(old(hl)),
        ensures
            final(hl).wf(),
            extends(old(hl)@, final(hl)@),
            final(self).wf(final(hl)),
            r is Err ==> has_collision(final(hl)@) && exists|done: nat|
                done <= big_value(*nsteps) && #[trigger] plane_after(
                    old(self).plane(old(hl)),
                    done,
                    final(self).plane(final(hl)),
                ),
            r is Ok ==> plane_after(
                old(self).plane(old(hl)),
                big_value(*nsteps),
                final(self).plane(final(hl)),
            ),
    {
        let ghost h0 = *hl;
        let ghost g0 = self.plane(hl);
        let ghost total = big_value(*nsteps);
        let nbits = big_bits(nsteps);
        let mut k: u64 = 0;
        proof {
            lemma_extends_trans(h0@, h0@, h0@);
            vstd::arithmetic::power2::lemma2_to64();
            reveal_with_fuel(evolve_cell, 1);
        }
        while k < nbits
            invariant
                k <= nbits,
                hl.wf(),
                self.wf(hl),
                h0@ == old(hl)@,
                extends(h0@, hl@),
                total == big_value(*nsteps),
                total < pow2(nbits as nat),
                g0 == old(self).plane(old(hl)),
                plane_after(g0, (total % pow2(k as nat)) as nat, self.plane(hl)),
            decreases nbits - k,
        {
            let ghost h1 = *hl;
            let ghost g1 = self.plane(hl);
            let ghost done = (total % pow2(k as nat)) as nat;
            proof {
                lemma_pow2_pos(k as nat);
                lemma_pow2_unfold((k + 1) as nat);
                vstd::arithmetic::div_mod::lemma_mod_breakdown(total as int, pow2(k as nat) as int, 2);
                vstd::arithmetic::div_mod::lemma_mod_pos_bound(total as int, pow2(k as nat) as int);
            }
            if big_bit(nsteps, k) {
                let ghost before = *self;
                let stepped = self.step_pow2(hl, k);
                proof {
                    lemma_extends_trans(h0@, h1@, hl@);
                    if stepped is Err {
                        lemma_valid_extends(before.root(), &h1, hl);
                        vstd::arithmetic::div_mod::lemma_mod_decreases(total, pow2(k as nat));
                        assert(done <= total);
                        assert(plane_after(g0, done, self.plane(hl)));
                    }
                }
                stepped?;
                proof {
                    lemma_plane_after_add(g0, done, g1, pow2(k as nat), self.plane(hl));
                    assert(pow2(k as nat) * 1 == pow2(k as nat)) by (nonlinear_arith);
                }
            } else {
                proof {
                    assert(pow2(k as nat) * 0 == 0) by (nonlinear_arith);
                }
            }
            k += 1;
        }
        proof {
            vstd::arithmetic::div_mod::lemma_small_mod(total, pow2(nbits as nat));
        }
        Ok(())
    }

    /// Whether the two patterns are the same plane: the smaller block is
    /// encased until it has the size of the larger, and the two are then
    /// the same block or not.
    pub fn eq(&self, other: &Pattern, hl: &mut Hashlife) -> (r: Result<bool, HashCollision>)
        requires
            old(hl).wf(),
            self.wf(old(hl)),
            other.wf(old(hl)),
        ensures
            final(hl).wf(),
            extends(old(hl)@, final(hl)@),
            r is Err ==> has_collision(final(hl)@),
            r matches Ok(same) ==> same == same_plane(self.plane(old(hl)), other.plane(old(hl))),
    {
        let ghost h0 = *hl;
        let (mut a, mut b) = (self.block(), other.block());
        if a.lg_size() > b.lg_size() {
            let c = a;
            a = b;
            b = c;
        }
        let ghost ta = a.tree(hl);
        let ghost tb = b.tree(hl);
        let ghost d: int = 0;
        proof {
            lemma_extends_trans(h0@, h0@, h0@);
            lemma_side(ta);
        }
        while b.lg_size() > a.lg_size()
            invariant
                hl.wf(),
                h0@ == old(hl)@,
                extends(h0@, hl@),
                a.valid(hl),
                a@ is Node,
                b.valid(hl),
                b.tree(hl) == tb,
                a.lg() <= b.lg(),
                same_plane(centered(a.tree(hl)), centered(ta)),
            decreases b.lg() - a.lg(),
        {
            let ghost h1 = *hl;
            let ghost t1 = a.tree(hl);
            let encased = encase(hl, a);
            proof {
                lemma_extends_trans(h0@, h1@, hl@);
                lemma_valid_extends(b, &h1, hl);
            }
            let encased = encased?;
            proof {
                lemma_encase(t1);
                assert forall|y: int, x: int| #[trigger]
                    centered(encased.tree(hl))(y, x) == centered(ta)(y, x) by {
                    assert(encase_tree(t1).grid()(
                        y + encase_tree(t1).side() / 2,
                        x + encase_tree(t1).side() / 2,
                    ) == t1.grid()(
                        y + encase_tree(t1).side() / 2 - t1.side() / 2,
                        x + encase_tree(t1).side() / 2 - t1.side() / 2,
                    ));
                    assert(centered(t1)(y, x) == centered(ta)(y, x));
                }
            }
            a = encased;
        }
        proof {
            let t = a.tree(hl);
            lemma_side_of_lg(t, tb);
            lemma_side(t);
            let s = t.side();
            if a@ == b@ {
            } else {
                if same_plane(centered(ta), centered(tb)) {
                    assert forall|y: int, x: int| 0 <= y < s && 0 <= x < s implies t.cell(y, x)
                        == #[trigger] tb.cell(y, x) by {
                        assert(centered(t)(y - s / 2, x - s / 2) == centered(ta)(y - s / 2, x - s / 2));
                        assert(centered(ta)(y - s / 2, x - s / 2) == centered(tb)(y - s / 2, x - s / 2));
                    }
                    lemma_tree_ext(t, tb);
                    lemma_canonical(hl@, a@, b@);
                }
            }
            if a@ == b@ {
                assert forall|y: int, x: int| #[trigger] centered(ta)(y, x) == centered(tb)(y, x) by {
                    assert(centered(t)(y, x) == centered(ta)(y, x));
                }
            }
        }
        Ok(a == b)
    }
}

/// Steps add up: a pattern stepped by `a` and then by `b` is the plane of
/// the pattern stepped by `a + b`.
pub proof fn law_step_additive(
    start: spec_fn(int, int) -> bool,
    a: nat,
    after_a: spec_fn(int, int) -> bool,
    b: nat,
    after_b: spec_fn(int, int) -> bool,
    after_sum: spec_fn(int, int) -> bool,
)
    requires
        plane_after(start, a, after_a),
        plane_after(after_a, b, after_b),
        plane_after(start, a + b, after_sum),
    ensures
        same_plane(after_b, after_sum),
{
    lemma_plane_after_add(start, a, after_a, b, after_b);
    assert forall|y: int, x: int| #[trigger] after_b(y, x) == after_sum(y, x) by {
        assert(after_b(y, x) == evolve_cell(start, a + b, y, x));
        assert(after_sum(y, x) == evolve_cell(start, a + b, y, x));
    }
}

} // verus!
