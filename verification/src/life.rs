//! Conway's Game of Life on the unbounded plane.
//!
//! A configuration is a function from a row and a column to whether the cell
//! there is alive. This module defines `t` generations of the rule B3/S23,
//! and proves the three facts the block algorithms rest on: the state of a
//! cell after `t` generations depends only on the cells within distance `t`
//! of it, evolution commutes with shifting the plane, and evolving for `a`
//! and then `b` generations is evolving for `a + b`.

use vstd::prelude::*;

verus! {

/// One for a live cell, zero for a dead one.
pub open spec fn b2i(alive: bool) -> int {
    if alive {
        1
    } else {
        0
    }
}

/// The rule B3/S23: a cell with `n` live neighbours is alive in the next
/// generation iff `n` is 3, or it is alive now and `n` is 2.
pub open spec fn rule(alive: bool, n: int) -> bool {
    n == 3 || (alive && n == 2)
}

/// Whether `(y, x)` is alive `t` generations after `g`: after no generation
/// as it is in `g`, and after one more generation as the rule says of the
/// cell and its eight neighbours.
pub open spec fn evolve_cell(g: spec_fn(int, int) -> bool, t: nat, y: int, x: int) -> bool
    decreases t,
{
    if t == 0 {
        g(y, x)
    } else {
        let s = (t - 1) as nat;
        rule(
            evolve_cell(g, s, y, x),
            b2i(evolve_cell(g, s, y - 1, x - 1)) + b2i(evolve_cell(g, s, y - 1, x)) + b2i(
                evolve_cell(g, s, y - 1, x + 1),
            ) + b2i(evolve_cell(g, s, y, x - 1)) + b2i(evolve_cell(g, s, y, x + 1)) + b2i(
                evolve_cell(g, s, y + 1, x - 1),
            ) + b2i(evolve_cell(g, s, y + 1, x)) + b2i(evolve_cell(g, s, y + 1, x + 1)),
        )
    }
}

/// The configuration `t` generations after `g`.
pub open spec fn evolve_grid(g: spec_fn(int, int) -> bool, t: nat) -> spec_fn(int, int) -> bool {
    |y: int, x: int| evolve_cell(g, t, y, x)
}

/// The configuration in which every cell is dead.
pub open spec fn dead_grid() -> spec_fn(int, int) -> bool {
    |y: int, x: int| false
}

/// Locality and shifting: if `g1` around `(y, x)` looks like `g2` around
/// `(y + dy, x + dx)` within distance `t`, the two cells agree after `t`
/// generations.
pub proof fn lemma_evolve_local(
    g1: spec_fn(int, int) -> bool,
    g2: spec_fn(int, int) -> bool,
    t: nat,
    y: int,
    x: int,
    dy: int,
    dx: int,
)
    requires
        forall|v: int, u: int|
            y - t <= v <= y + t && x - t <= u <= x + t ==> #[trigger] g1(v, u) == g2(v + dy, u + dx),
    ensures
        evolve_cell(g1, t, y, x) == evolve_cell(g2, t, y + dy, x + dx),
    decreases t,
{
    if t > 0 {
        let s = (t - 1) as nat;
        lemma_evolve_local(g1, g2, s, y - 1, x - 1, dy, dx);
        lemma_evolve_local(g1, g2, s, y - 1, x, dy, dx);
        lemma_evolve_local(g1, g2, s, y - 1, x + 1, dy, dx);
        lemma_evolve_local(g1, g2, s, y, x - 1, dy, dx);
        lemma_evolve_local(g1, g2, s, y, x, dy, dx);
        lemma_evolve_local(g1, g2, s, y, x + 1, dy, dx);
        lemma_evolve_local(g1, g2, s, y + 1, x - 1, dy, dx);
        lemma_evolve_local(g1, g2, s, y + 1, x, dy, dx);
        lemma_evolve_local(g1, g2, s, y + 1, x + 1, dy, dx);
    }
}

/// Evolving for `a` generations and then for `b` more is evolving for `a + b`.
pub proof fn lemma_evolve_add(g: spec_fn(int, int) -> bool, a: nat, b: nat, y: int, x: int)
    ensures
        evolve_cell(g, a + b, y, x) == evolve_cell(evolve_grid(g, a), b, y, x),
    decreases b,
{
    if b > 0 {
        let s = (b - 1) as nat;
        assert(a + s == (a + b - 1) as nat);
        lemma_evolve_add(g, a, s, y - 1, x - 1);
        lemma_evolve_add(g, a, s, y - 1, x);
        lemma_evolve_add(g, a, s, y - 1, x + 1);
        lemma_evolve_add(g, a, s, y, x - 1);
        lemma_evolve_add(g, a, s, y, x);
        lemma_evolve_add(g, a, s, y, x + 1);
        lemma_evolve_add(g, a, s, y + 1, x - 1);
        lemma_evolve_add(g, a, s, y + 1, x);
        lemma_evolve_add(g, a, s, y + 1, x + 1);
    }
}

/// The dead plane stays dead.
pub proof fn lemma_evolve_dead(t: nat, y: int, x: int)
    ensures
        !evolve_cell(dead_grid(), t, y, x),
    decreases t,
{
    if t > 0 {
        let s = (t - 1) as nat;
        lemma_evolve_dead(s, y - 1, x - 1);
        lemma_evolve_dead(s, y - 1, x);
        lemma_evolve_dead(s, y - 1, x + 1);
        lemma_evolve_dead(s, y, x - 1);
        lemma_evolve_dead(s, y, x);
        lemma_evolve_dead(s, y, x + 1);
        lemma_evolve_dead(s, y + 1, x - 1);
        lemma_evolve_dead(s, y + 1, x);
        lemma_evolve_dead(s, y + 1, x + 1);
    }
}

/// A cell with no live cell within distance `t` is dead after `t` generations.
pub proof fn lemma_evolve_far_from_life(g: spec_fn(int, int) -> bool, t: nat, y: int, x: int)
    requires
        forall|v: int, u: int| y - t <= v <= y + t && x - t <= u <= x + t ==> !#[trigger] g(v, u),
    ensures
        !evolve_cell(g, t, y, x),
{
    lemma_evolve_local(g, dead_grid(), t, y, x, 0, 0);
    lemma_evolve_dead(t, y, x);
}

} // verus!
