//! Blocks from the tokens of an RLE file.

use vstd::prelude::*;
use vstd::arithmetic::power2::{pow2, lemma_pow2_unfold, lemma_pow2_pos, lemma2_to64, lemma_pow2_strictly_increases};
use vstd::slice::slice_subrange;
use std::ops::Range;
use crate::{Hashlife, has_collision};
use crate::block::{Block, HashCollision, extends, lemma_extends_trans, lemma_tree_extends};
use crate::leaf::{Leaf, LEAF_SIZE, leaf_of_cells, leaf_cell, put_cell, lemma_cells_of_leaf, lemma_leaf_ext, lemma_dead_leaf};
use crate::tree::{Tree, times, lemma_side, lemma_side_of_lg, lemma_side_pow2, lemma_tree_ext};
use super::parse::{RLEToken, State};

verus! {

/// The sequence in which each item of `rle` stands as often as its count
/// says.
pub open spec fn spec_expand<A>(rle: Seq<(usize, A)>) -> Seq<A>
    decreases rle.len(),
{
    if rle.len() == 0 {
        Seq::empty()
    } else {
        spec_expand(rle.drop_last()) + Seq::new(rle.last().0 as nat, |i: int| rle.last().1)
    }
}

/// The rows that the tokens from `i` on add to the rows `rows` and the
/// unfinished row `cur`, up to the first end of the pattern; nothing if the
/// pattern does not end.
pub open spec fn spec_rows_from(tokens: Seq<RLEToken>, i: int, rows: Seq<Seq<State>>, cur: Seq<State>) -> Option<
    Seq<Seq<State>>,
>
    decreases tokens.len() - i,
{
    if i < 0 || i >= tokens.len() {
        None
    } else {
        match tokens[i] {
            RLEToken::State(state) => spec_rows_from(tokens, i + 1, rows, cur.push(state)),
            RLEToken::EndLine => spec_rows_from(tokens, i + 1, rows.push(cur), Seq::empty()),
            RLEToken::EndBlock => Some(rows.push(cur)),
        }
    }
}

/// The rows of cells that the tokens describe; nothing if the pattern does
/// not end.
pub open spec fn spec_tokens_to_matrix(tokens: Seq<RLEToken>) -> Option<Seq<Seq<State>>> {
    spec_rows_from(tokens, 0, Seq::empty(), Seq::empty())
}

/// Whether the cell in row `y` and column `x` of a matrix of rows of any
/// length is alive. Where the matrix has no cell, the cell is dead.
pub open spec fn cell_alive(m: Seq<Seq<State>>, y: int, x: int) -> bool {
    0 <= y < m.len() && 0 <= x < m[y].len() && m[y][x] == State::Alive
}

/// The rows of a vector of rows.
pub open spec fn rows_of(m: Vec<Vec<State>>) -> Seq<Seq<State>> {
    m@.map_values(|row: Vec<State>| row@)
}

/// The rows of a vector of slices.
pub open spec fn slices_of<T>(m: Seq<&[T]>) -> Seq<Seq<T>> {
    m.map_values(|row: &[T]| row@)
}

/// Whether a tree shows the cells of a matrix.
pub open spec fn shows(t: Tree, m: Seq<Seq<State>>) -> bool {
    forall|y: int, x: int|
        0 <= y < t.side() && 0 <= x < t.side() ==> #[trigger] t.cell(y, x) == cell_alive(m, y, x)
}

/// The length of the longest row of the first `n` rows.
pub open spec fn longest_row(m: Seq<Seq<State>>, n: int) -> nat
    decreases n,
{
    if n <= 0 {
        0
    } else {
        let rest = longest_row(m, n - 1);
        if m[n - 1].len() > rest {
            m[n - 1].len()
        } else {
            rest
        }
    }
}

/// The side that a square needs to hold all rows and the longest row.
pub open spec fn needed_side(m: Seq<Seq<State>>) -> nat {
    if longest_row(m, m.len() as int) > m.len() {
        longest_row(m, m.len() as int)
    } else {
        m.len()
    }
}

/// The least logarithm, at least one, of a side that is no smaller than
/// `side`.
pub open spec fn fit_lg(side: nat) -> nat
    decreases side,
{
    if side <= 2 {
        1
    } else {
        fit_lg(((side + 1) / 2) as nat) + 1
    }
}

/// `fit_lg(side)` is the least logarithm, at least one, whose power of two
/// reaches `side`.
pub proof fn lemma_fit_lg(side: nat)
    ensures
        fit_lg(side) >= 1,
        side <= pow2(fit_lg(side)),
        fit_lg(side) > 1 ==> pow2((fit_lg(side) - 1) as nat) < side,
    decreases side,
{
    lemma2_to64();
    if side > 2 {
        lemma_fit_lg(((side + 1) / 2) as nat);
        lemma_pow2_unfold(fit_lg(side));
        lemma_pow2_unfold((fit_lg(side) - 1) as nat);
    }
}

/// The logarithm found by doubling from a leaf is `fit_lg`.
pub proof fn lemma_fit_lg_unique(side: nat, lg: nat)
    requires
        lg >= 1,
        side <= pow2(lg),
        lg > 1 ==> pow2((lg - 1) as nat) < side,
    ensures
        lg == fit_lg(side),
{
    lemma_fit_lg(side);
    let f = fit_lg(side);
    if lg < f {
        if lg < f - 1 {
            lemma_pow2_strictly_increases(lg, (f - 1) as nat);
        }
    } else if f < lg {
        if f < lg - 1 {
            lemma_pow2_strictly_increases(f, (lg - 1) as nat);
        }
    }
}

/// No row of a matrix is longer than its longest row.
pub proof fn lemma_longest_row(m: Seq<Seq<State>>, n: int, y: int)
    requires
        0 <= y < n <= m.len(),
    ensures
        m[y].len() <= longest_row(m, n),
    decreases n,
{
    if y < n - 1 {
        lemma_longest_row(m, n - 1, y);
    }
}

/// Each item of `rle` as often as its count says.
pub fn expand_rle<A: Copy>(rle: &[(usize, A)]) -> (out: Vec<A>)
    ensures
        out@ == spec_expand(rle@),
{
    let mut out: Vec<A> = Vec::new();
    let mut i: usize = 0;
    while i < rle.len()
        invariant
            i <= rle.len(),
            out@ == spec_expand(rle@.take(i as int)),
        decreases rle.len() - i,
    {
        let (n, item) = rle[i];
        let ghost before = out@;
        let mut k: usize = 0;
        while k < n
            invariant
                k <= n,
                out@ == before + Seq::new(k as nat, |j: int| item),
            decreases n - k,
        {
            out.push(item);
            proof {
                assert(before + Seq::new((k + 1) as nat, |j: int| item) =~= (before + Seq::new(
                    k as nat,
                    |j: int| item,
                )).push(item));
            }
            k += 1;
        }
        proof {
            let next = rle@.take(i + 1);
            assert(next.drop_last() =~= rle@.take(i as int));
            assert(next.last() == rle@[i as int]);
        }
        i += 1;
    }
    proof {
        assert(rle@.take(rle.len() as int) =~= rle@);
    }
    out
}

/// The rows of cells that the tokens describe, as `matrix[y][x]`; an error
/// if the pattern does not end.
pub fn tokens_to_matrix(tokens: &[RLEToken]) -> (r: Result<Vec<Vec<State>>, ()>)
    ensures
        match r {
            Ok(matrix) => spec_tokens_to_matrix(tokens@) == Some(rows_of(matrix)),
            Err(_) => spec_tokens_to_matrix(tokens@) is None,
        },
{
    let mut matrix: Vec<Vec<State>> = Vec::new();
    let mut cur_line: Vec<State> = Vec::new();
    let mut i: usize = 0;
    proof {
        assert(rows_of(matrix) =~= Seq::<Seq<State>>::empty());
    }
    while i < tokens.len()
        invariant
            i <= tokens.len(),
            spec_tokens_to_matrix(tokens@) == spec_rows_from(tokens@, i as int, rows_of(matrix), cur_line@),
        decreases tokens.len() - i,
    {
        match tokens[i] {
            RLEToken::State(state) => {
                cur_line.push(state);
            },
            RLEToken::EndLine => {
                proof {
                    assert(rows_of(matrix).push(cur_line@) =~= m_push(matrix@, cur_line));
                }
                matrix.push(cur_line);
                cur_line = Vec::new();
            },
            RLEToken::EndBlock => {
                proof {
                    assert(rows_of(matrix).push(cur_line@) =~= m_push(matrix@, cur_line));
                }
                matrix.push(cur_line);
                return Ok(matrix);
            },
        }
        i += 1;
    }
    Err(())
}

/// The rows of a vector of rows with one more row.
pub open spec fn m_push(m: Seq<Vec<State>>, row: Vec<State>) -> Seq<Seq<State>> {
    m.push(row).map_values(|r: Vec<State>| r@)
}

/// The leaf of a 2x2 matrix of cells.
pub fn states_to_leaf(states: &[&[State]]) -> (leaf: Leaf)
    requires
        states@.len() == LEAF_SIZE,
        forall|y: int| 0 <= y < LEAF_SIZE ==> (#[trigger] states@[y])@.len() == LEAF_SIZE,
    ensures
        leaf == leaf_of_cells(
            states@[0]@[0] == State::Alive,
            states@[0]@[1] == State::Alive,
            states@[1]@[0] == State::Alive,
            states@[1]@[1] == State::Alive,
        ),
{
    let mut res: Leaf = 0;
    proof {
        lemma_dead_leaf(0);
        assert(states@[0]@.len() == LEAF_SIZE);
        assert(states@[1]@.len() == LEAF_SIZE);
    }
    let mut y: usize = 0;
    while y < LEAF_SIZE
        invariant
            y <= LEAF_SIZE,
            states@.len() == LEAF_SIZE,
            forall|k: int| 0 <= k < LEAF_SIZE ==> (#[trigger] states@[k])@.len() == LEAF_SIZE,
            crate::leaf::leaf_masked(res),
            forall|v: int, u: int|
                0 <= v < 2 && 0 <= u < 2 ==> #[trigger] leaf_cell(res, v, u) == (v < y && states@[v]@[u]
                    == State::Alive),
        decreases LEAF_SIZE - y,
    {
        let mut x: usize = 0;
        while x < LEAF_SIZE
            invariant
                y < LEAF_SIZE,
                x <= LEAF_SIZE,
                states@.len() == LEAF_SIZE,
                forall|k: int| 0 <= k < LEAF_SIZE ==> (#[trigger] states@[k])@.len() == LEAF_SIZE,
                crate::leaf::leaf_masked(res),
                forall|v: int, u: int|
                    0 <= v < 2 && 0 <= u < 2 ==> #[trigger] leaf_cell(res, v, u) == ((v < y || (v == y
                        && u < x)) && states@[v]@[u] == State::Alive),
            decreases LEAF_SIZE - x,
        {
            proof {
                assert(states@[y as int]@.len() == LEAF_SIZE);
            }
            let bit = state_to_bit(states[y][x]);
            res = put_cell(res, bit, y, x);
            x += 1;
        }
        y += 1;
    }
    proof {
        lemma_cells_of_leaf(
            states@[0]@[0] == State::Alive,
            states@[0]@[1] == State::Alive,
            states@[1]@[0] == State::Alive,
            states@[1]@[1] == State::Alive,
        );
        lemma_leaf_ext(
            res,
            leaf_of_cells(
                states@[0]@[0] == State::Alive,
                states@[0]@[1] == State::Alive,
                states@[1]@[0] == State::Alive,
                states@[1]@[1] == State::Alive,
            ),
        );
    }
    res
}

/// One for a live cell, zero for a dead one.
fn state_to_bit(state: State) -> (bit: u8)
    ensures
        bit == (if state == State::Alive {
            1u8
        } else {
            0u8
        }),
{
    match state {
        State::Dead => 0,
        State::Alive => 1,
    }
}

/// Whether the rows from `first` up to `last` of `m` are at least `width`
/// long.
pub open spec fn rows_reach<T>(m: Seq<Seq<T>>, first: int, last: int, width: int) -> bool {
    forall|y: int| first <= y < last ==> width <= (#[trigger] m[y]).len()
}

/// The rows `outer` of `matrix`, each cut down to the columns `inner`.
pub fn submatrix<'a, T>(matrix: &[&'a [T]], outer: Range<usize>, inner: Range<usize>) -> (r: Vec<&'a [T]>)
    requires
        outer.start <= outer.end <= matrix@.len(),
        inner.start <= inner.end,
        rows_reach(slices_of(matrix@), outer.start as int, outer.end as int, inner.end as int),
    ensures
        r@.len() == outer.end - outer.start,
        forall|y: int|
            0 <= y < r@.len() ==> (#[trigger] r@[y])@ == matrix@[outer.start + y]@.subrange(
                inner.start as int,
                inner.end as int,
            ),
{
    let mut out: Vec<&'a [T]> = Vec::new();
    let first = outer.start;
    let last = outer.end;
    let left = inner.start;
    let right = inner.end;
    let mut y = first;
    while y < last
        invariant
            first <= y <= last <= matrix@.len(),
            left <= right,
            rows_reach(slices_of(matrix@), first as int, last as int, right as int),
            out@.len() == y - first,
            forall|k: int|
                0 <= k < out@.len() ==> (#[trigger] out@[k])@ == matrix@[first + k]@.subrange(
                    left as int,
                    right as int,
                ),
        decreases last - y,
    {
        let row: &'a [T] = matrix[y];
        proof {
            assert(slices_of(matrix@)[y as int] == row@);
        }
        out.push(slice_subrange(row, left, right));
        y += 1;
    }
    out
}

/// Whether `m` is a square of cells of side two to the power `depth + 1`.
pub open spec fn is_square(m: Seq<Seq<State>>, depth: nat) -> bool {
    &&& m.len() == pow2(depth + 1)
    &&& forall|y: int| 0 <= y < m.len() ==> (#[trigger] m[y]).len() == m.len()
}

/// The block of a square matrix of cells of side two to the power
/// `depth + 1`.
pub fn block_from_matrix(hl: &mut Hashlife, depth: u32, matrix: Vec<&[State]>) -> (r: Result<
    Block,
    HashCollision,
>)
    requires
        old(hl).wf(),
        is_square(slices_of(matrix@), depth as nat),
    ensures
        final(hl).wf(),
        extends(old(hl)@, final(hl)@),
        r is Err ==> has_collision(final(hl)@),
        r matches Ok(b) ==> {
            &&& final(hl).sound(b)
            &&& final(hl).tree(b).lg_size() == depth + 1
            &&& shows(final(hl).tree(b), slices_of(matrix@))
        },
    decreases depth,
{
    let ghost m = slices_of(matrix@);
    let ghost c0 = hl@;
    proof {
        lemma_extends_trans(c0, c0, c0);
        lemma2_to64();
        lemma_pow2_unfold((depth + 1) as nat);
        lemma_pow2_pos(depth as nat);
    }
    if depth == 0 {
        proof {
            assert(m[0].len() == 2);
            assert(m[1].len() == 2);
            assert forall|y: int| 0 <= y < LEAF_SIZE implies (#[trigger] matrix@[y])@.len() == LEAF_SIZE by {
                assert(m[y].len() == m.len());
            }
        }
        let leaf = states_to_leaf(matrix.as_slice());
        proof {
            lemma_cells_of_leaf(
                m[0][0] == State::Alive,
                m[0][1] == State::Alive,
                m[1][0] == State::Alive,
                m[1][1] == State::Alive,
            );
            assert forall|y: int, x: int| 0 <= y < 2 && 0 <= x < 2 implies #[trigger] Tree::Leaf(leaf).cell(
                y,
                x,
            ) == cell_alive(m, y, x) by {
                assert((y == 0 || y == 1) && (x == 0 || x == 1));
                assert(m[y].len() == m.len());
            }
        }
        Ok(Block::Leaf(leaf))
    } else {
        let slen = matrix.len() / 2;
        let mut subblocks = [[Block::Leaf(0); 2]; 2];
        let mut i: usize = 0;
        while i < 2
            invariant
                i <= 2,
                depth > 0,
                hl.wf(),
                c0 == old(hl)@,
                extends(c0, hl@),
                m == slices_of(matrix@),
                is_square(m, depth as nat),
                2 * slen == m.len(),
                2 * slen == matrix@.len(),
                2 * slen <= usize::MAX,
                slen == pow2(depth as nat),
                forall|a: int, b: int|
                    0 <= a < i && 0 <= b < 2 ==> quadrant_ok(hl@, #[trigger] subblocks[a][b], m, depth as nat, a, b),
            decreases 2 - i,
        {
            let mut j: usize = 0;
            while j < 2
                invariant
                    i < 2,
                    j <= 2,
                    depth > 0,
                    hl.wf(),
                    c0 == old(hl)@,
                    extends(c0, hl@),
                    m == slices_of(matrix@),
                    is_square(m, depth as nat),
                    2 * slen == m.len(),
                    2 * slen == matrix@.len(),
                    2 * slen <= usize::MAX,
                2 * slen <= usize::MAX,
                    slen == pow2(depth as nat),
                    forall|a: int, b: int|
                        0 <= a < 2 && 0 <= b < 2 && 2 * a + b < 2 * i + j ==> quadrant_ok(
                            hl@,
                            #[trigger] subblocks[a][b],
                            m,
                            depth as nat,
                            a,
                            b,
                        ),
                decreases 2 - j,
            {
                let ghost c1 = hl@;
                let top = if i == 0 {
                    0
                } else {
                    slen
                };
                let left = if j == 0 {
                    0
                } else {
                    slen
                };
                proof {
                    assert forall|y: int| top <= y < top + slen implies left + slen <= (#[trigger] m[y]).len() by {
                        assert(m[y].len() == m.len());
                    }
                }
                let sub = submatrix(matrix.as_slice(), top..top + slen, left..left + slen);
                proof {
                    let sm = slices_of(sub@);
                    assert forall|y: int| 0 <= y < sm.len() implies (#[trigger] sm[y]).len() == sm.len() by {
                        assert(sub@[y]@ == matrix@[top + y]@.subrange(left as int, left + slen));
                        assert(m[top + y].len() == m.len());
                        assert(m[top + y] == matrix@[top + y]@);
                    }
                }
                let ghost sm = slices_of(sub@);
                let built = block_from_matrix(hl, depth - 1, sub);
                let ghost c2 = hl@;
                proof {
                    lemma_extends_trans(c0, c1, c2);
                }
                let built = built?;
                let ghost before = subblocks;
                subblocks[i][j] = built;
                proof {
                    let t = crate::block::tree_of(c2, built);
                    lemma_side_pow2(t);
                    assert forall|y: int, x: int| 0 <= y < slen && 0 <= x < slen implies #[trigger] t.cell(
                        y,
                        x,
                    ) == cell_alive(m, top + y, left + x) by {
                        assert(t.cell(y, x) == cell_alive(sm, y, x));
                        assert(sub@[y]@ == matrix@[top + y]@.subrange(left as int, left + slen));
                        assert(sm[y] == sub@[y]@);
                        assert(m[top + y] == matrix@[top + y]@);
                        assert(m[top + y].len() == m.len());
                    }
                    assert forall|a: int, b: int|
                        0 <= a < 2 && 0 <= b < 2 && 2 * a + b < 2 * i + j + 1 implies quadrant_ok(
                        c2,
                        #[trigger] subblocks[a][b],
                        m,
                        depth as nat,
                        a,
                        b,
                    ) by {
                        if a == i && b == j {
                        } else {
                            assert(subblocks[a][b] == before[a][b]);
                            assert(quadrant_ok(c1, before[a][b], m, depth as nat, a, b));
                            lemma_tree_extends(c1, c2, before[a][b]);
                        }
                    }
                }
                j += 1;
            }
            i += 1;
        }
        let ghost c3 = hl@;
        proof {
            assert(quadrant_ok(c3, subblocks[0][0], m, depth as nat, 0, 0));
            assert(quadrant_ok(c3, subblocks[0][1], m, depth as nat, 0, 1));
            assert(quadrant_ok(c3, subblocks[1][0], m, depth as nat, 1, 0));
            assert(quadrant_ok(c3, subblocks[1][1], m, depth as nat, 1, 1));
        }
        let node = hl.raw_node_block(subblocks);
        proof {
            lemma_extends_trans(c0, c3, hl@);
            if let Ok(b) = node {
                let t = hl.tree(b);
                let nw = crate::block::tree_of(c3, subblocks[0][0]);
                let ne = crate::block::tree_of(c3, subblocks[0][1]);
                let sw = crate::block::tree_of(c3, subblocks[1][0]);
                let se = crate::block::tree_of(c3, subblocks[1][1]);
                lemma_side_pow2(nw);
                lemma_side_of_lg(ne, nw);
                lemma_side_of_lg(sw, nw);
                lemma_side_of_lg(se, nw);
                assert forall|y: int, x: int| 0 <= y < t.side() && 0 <= x < t.side() implies #[trigger] t.cell(
                    y,
                    x,
                ) == cell_alive(m, y, x) by {
                    let h = nw.side();
                    if y < h {
                        if x < h {
                            assert(nw.cell(y, x) == cell_alive(m, y, x));
                        } else {
                            assert(ne.cell(y, x - h) == cell_alive(m, y, slen + (x - h)));
                        }
                    } else {
                        if x < h {
                            assert(sw.cell(y - h, x) == cell_alive(m, slen + (y - h), x));
                        } else {
                            assert(se.cell(y - h, x - h) == cell_alive(m, slen + (y - h), slen + (x - h)));
                        }
                    }
                }
            }
        }
        node
    }
}

/// What is known of the quadrant in row `a` and column `b` of the block of
/// a square matrix, once it is built.
pub open spec fn quadrant_ok(
    c: Seq<crate::block::NodeView>,
    q: Block,
    m: Seq<Seq<State>>,
    depth: nat,
    a: int,
    b: int,
) -> bool {
    &&& crate::block::in_arena(c, q)
    &&& crate::block::tree_of(c, q).well_formed()
    &&& crate::block::tree_of(c, q).lg_size() == depth
    &&& forall|y: int, x: int|
        0 <= y < pow2(depth) && 0 <= x < pow2(depth) ==> #[trigger] crate::block::tree_of(c, q).cell(y, x)
            == cell_alive(m, times(a, pow2(depth) as int) + y, times(b, pow2(depth) as int) + x)
}

/// The row of `side` cells that starts with the cells of `row` and, where
/// `row` is shorter, goes on with dead cells.
pub fn pad_row(row: &Vec<State>, side: usize) -> (out: Vec<State>)
    ensures
        out@.len() == side,
        forall|x: int|
            0 <= x < side ==> #[trigger] out@[x] == (if x < row@.len() {
                row@[x]
            } else {
                State::Dead
            }),
{
    let mut out: Vec<State> = Vec::new();
    let mut x: usize = 0;
    while x < side
        invariant
            x <= side,
            out@.len() == x,
            forall|k: int|
                0 <= k < x ==> #[trigger] out@[k] == (if k < row@.len() {
                    row@[k]
                } else {
                    State::Dead
                }),
        decreases side - x,
    {
        if x < row.len() {
            out.push(row[x]);
        } else {
            out.push(State::Dead);
        }
        x += 1;
    }
    out
}

/// The square of side `side` that holds `matrix` in its north-west corner
/// and is dead elsewhere.
fn pad_matrix(matrix: &Vec<Vec<State>>, side: usize) -> (out: Vec<Vec<State>>)
    requires
        needed_side(rows_of(*matrix)) <= side,
    ensures
        rows_of(out).len() == side,
        forall|y: int| 0 <= y < side ==> (#[trigger] rows_of(out)[y]).len() == side,
        forall|y: int, x: int|
            0 <= y < side && 0 <= x < side ==> cell_alive(rows_of(out), y, x) == cell_alive(
                rows_of(*matrix),
                y,
                x,
            ),
{
    let ghost m = rows_of(*matrix);
    let empty_row: Vec<State> = Vec::new();
    let mut out: Vec<Vec<State>> = Vec::new();
    let mut y: usize = 0;
    while y < side
        invariant
            y <= side,
            m == rows_of(*matrix),
            needed_side(m) <= side,
            empty_row@.len() == 0,
            out@.len() == y,
            forall|k: int| 0 <= k < y ==> (#[trigger] out@[k])@.len() == side,
            forall|k: int, x: int|
                0 <= k < y && 0 <= x < side ==> (#[trigger] out@[k]@[x] == State::Alive) == cell_alive(
                    m,
                    k,
                    x,
                ),
        decreases side - y,
    {
        let row = if y < matrix.len() {
            proof {
                lemma_longest_row(m, m.len() as int, y as int);
                assert(m[y as int] == matrix@[y as int]@);
            }
            pad_row(&matrix[y], side)
        } else {
            pad_row(&empty_row, side)
        };
        let ghost before = out@;
        out.push(row);
        proof {
            assert forall|k: int, x: int| 0 <= k < y + 1 && 0 <= x < side implies (#[trigger] out@[k]@[x]
                == State::Alive) == cell_alive(m, k, x) by {
                if k < y {
                    assert(out@[k] == before[k]);
                }
            }
        }
        y += 1;
    }
    proof {
        assert forall|k: int| 0 <= k < side implies (#[trigger] rows_of(out)[k]).len() == side by {
            assert(rows_of(out)[k] == out@[k]@);
        }
        assert forall|k: int, x: int| 0 <= k < side && 0 <= x < side implies cell_alive(rows_of(out), k, x)
            == cell_alive(m, k, x) by {
            assert(rows_of(out)[k] == out@[k]@);
            assert((out@[k]@[x] == State::Alive) == cell_alive(m, k, x));
        }
    }
    out
}

/// The length of the longest row of `matrix`.
fn max_row_len(matrix: &Vec<Vec<State>>) -> (len: usize)
    ensures
        len == longest_row(rows_of(*matrix), matrix@.len() as int),
{
    let mut len: usize = 0;
    let mut y: usize = 0;
    while y < matrix.len()
        invariant
            y <= matrix@.len(),
            len == longest_row(rows_of(*matrix), y as int),
        decreases matrix@.len() - y,
    {
        proof {
            assert(rows_of(*matrix)[y as int] == matrix@[y as int]@);
        }
        if matrix[y].len() > len {
            len = matrix[y].len();
        }
        y += 1;
    }
    len
}

/// The block of the pattern that the tokens of `rle` describe: the
/// smallest block that holds all of its rows and columns, with the pattern
/// in its north-west corner. An error if the pattern does not end.
pub fn block_from_rle(hl: &mut Hashlife, rle: &[(usize, RLEToken)]) -> (r: Result<Block, ()>)
    requires
        old(hl).wf(),
    ensures
        final(hl).wf(),
        extends(old(hl)@, final(hl)@),
        match spec_tokens_to_matrix(spec_expand(rle@)) {
            None => r is Err,
            Some(m) => match r {
                Ok(b) => {
                    &&& final(hl).sound(b)
                    &&& final(hl).tree(b).lg_size() == fit_lg(needed_side(m))
                    &&& shows(final(hl).tree(b), m)
                },
                Err(_) => has_collision(final(hl)@) || pow2(fit_lg(needed_side(m))) > usize::MAX,
            },
        },
{
    proof {
        lemma_extends_trans(hl@, hl@, hl@);
        lemma2_to64();
    }
    let tokens = expand_rle(rle);
    let matrix = tokens_to_matrix(tokens.as_slice())?;
    let ghost m = rows_of(matrix);
    let longest = max_row_len(&matrix);
    let max_side = if longest > matrix.len() {
        longest
    } else {
        matrix.len()
    };
    let mut res_side: usize = LEAF_SIZE;
    let mut res_depth: u32 = 0;
    while res_side < max_side
        invariant
            res_side == pow2((res_depth + 1) as nat),
            res_side >= 2,
            res_depth > 0 ==> pow2(res_depth as nat) < max_side,
            res_depth < 64,
            max_side == needed_side(m),
            hl.wf(),
            hl@ == old(hl)@,
            extends(old(hl)@, hl@),
            spec_tokens_to_matrix(spec_expand(rle@)) == Some(m),
        decreases 64 - res_depth,
    {
        proof {
            lemma_pow2_unfold((res_depth + 2) as nat);
            vstd::arithmetic::power2::lemma2_to64_rest();
            if res_depth >= 63 {
                lemma_pow2_strictly_increases(64, (res_depth + 1) as nat);
            }
        }
        match res_side.checked_mul(2) {
            Some(doubled) => {
                res_side = doubled;
            },
            None => {
                proof {
                    lemma_fit_lg(max_side as nat);
                    let f = fit_lg(max_side as nat);
                    if f <= res_depth + 1 {
                        if f < res_depth + 1 {
                            lemma_pow2_strictly_increases(f, (res_depth + 1) as nat);
                        }
                    } else if f > res_depth + 2 {
                        lemma_pow2_strictly_increases((res_depth + 2) as nat, f);
                    }
                }
                return Err(());
            },
        }
        res_depth += 1;
    }
    proof {
        lemma_fit_lg_unique(max_side as nat, (res_depth + 1) as nat);
    }
    let padded = pad_matrix(&matrix, res_side);
    let mut refs: Vec<&[State]> = Vec::new();
    let mut y: usize = 0;
    while y < padded.len()
        invariant
            y <= padded@.len(),
            refs@.len() == y,
            forall|k: int| 0 <= k < y ==> (#[trigger] refs@[k])@ == padded@[k]@,
        decreases padded@.len() - y,
    {
        refs.push(padded[y].as_slice());
        y += 1;
    }
    proof {
        assert(slices_of(refs@) =~= rows_of(padded));
    }
    match block_from_matrix(hl, res_depth, refs) {
        Ok(b) => {
            proof {
                let t = hl.tree(b);
                lemma_side_pow2(t);
                assert forall|v: int, u: int| 0 <= v < t.side() && 0 <= u < t.side() implies #[trigger] t.cell(
                    v,
                    u,
                ) == cell_alive(m, v, u) by {
                    assert(t.cell(v, u) == cell_alive(rows_of(padded), v, u));
                }
            }
            Ok(b)
        },
        Err(_) => Err(()),
    }
}

/// The tree with the given logarithm of the side that shows the cells of
/// `m` from row `y0` and column `x0` on.
pub open spec fn tree_of_matrix(m: Seq<Seq<State>>, lg_size: nat, y0: int, x0: int) -> Tree
    decreases lg_size,
{
    if lg_size <= 1 {
        Tree::Leaf(
            leaf_of_cells(
                cell_alive(m, y0, x0),
                cell_alive(m, y0, x0 + 1),
                cell_alive(m, y0 + 1, x0),
                cell_alive(m, y0 + 1, x0 + 1),
            ),
        )
    } else {
        let h = pow2((lg_size - 1) as nat) as int;
        Tree::Node(
            Box::new(tree_of_matrix(m, (lg_size - 1) as nat, y0, x0)),
            Box::new(tree_of_matrix(m, (lg_size - 1) as nat, y0, x0 + h)),
            Box::new(tree_of_matrix(m, (lg_size - 1) as nat, y0 + h, x0)),
            Box::new(tree_of_matrix(m, (lg_size - 1) as nat, y0 + h, x0 + h)),
        )
    }
}

/// The tree of a matrix is well formed, has the size asked for, and shows
/// the cells of the matrix.
pub proof fn lemma_tree_of_matrix(m: Seq<Seq<State>>, lg_size: nat, y0: int, x0: int)
    requires
        lg_size >= 1,
    ensures
        tree_of_matrix(m, lg_size, y0, x0).well_formed(),
        tree_of_matrix(m, lg_size, y0, x0).lg_size() == lg_size,
        tree_of_matrix(m, lg_size, y0, x0).side() == pow2(lg_size),
        forall|y: int, x: int|
            0 <= y < pow2(lg_size) && 0 <= x < pow2(lg_size) ==> #[trigger] tree_of_matrix(
                m,
                lg_size,
                y0,
                x0,
            ).cell(y, x) == cell_alive(m, y0 + y, x0 + x),
    decreases lg_size,
{
    let t = tree_of_matrix(m, lg_size, y0, x0);
    lemma2_to64();
    if lg_size <= 1 {
        lemma_cells_of_leaf(
            cell_alive(m, y0, x0),
            cell_alive(m, y0, x0 + 1),
            cell_alive(m, y0 + 1, x0),
            cell_alive(m, y0 + 1, x0 + 1),
        );
        assert forall|y: int, x: int| 0 <= y < 2 && 0 <= x < 2 implies #[trigger] t.cell(y, x)
            == cell_alive(m, y0 + y, x0 + x) by {
            assert((y == 0 || y == 1) && (x == 0 || x == 1));
        }
    } else {
        let l = (lg_size - 1) as nat;
        let h = pow2(l) as int;
        lemma_pow2_unfold(lg_size);
        lemma_tree_of_matrix(m, l, y0, x0);
        lemma_tree_of_matrix(m, l, y0, x0 + h);
        lemma_tree_of_matrix(m, l, y0 + h, x0);
        lemma_tree_of_matrix(m, l, y0 + h, x0 + h);
        let nw = tree_of_matrix(m, l, y0, x0);
        let ne = tree_of_matrix(m, l, y0, x0 + h);
        let sw = tree_of_matrix(m, l, y0 + h, x0);
        let se = tree_of_matrix(m, l, y0 + h, x0 + h);
        assert forall|y: int, x: int| 0 <= y < pow2(lg_size) && 0 <= x < pow2(lg_size) implies #[trigger] t.cell(
            y,
            x,
        ) == cell_alive(m, y0 + y, x0 + x) by {
            if y < h {
                if x < h {
                    assert(nw.cell(y, x) == cell_alive(m, y0 + y, x0 + x));
                } else {
                    assert(ne.cell(y, x - h) == cell_alive(m, y0 + y, x0 + h + (x - h)));
                }
            } else {
                if x < h {
                    assert(sw.cell(y - h, x) == cell_alive(m, y0 + h + (y - h), x0 + x));
                } else {
                    assert(se.cell(y - h, x - h) == cell_alive(m, y0 + h + (y - h), x0 + h + (x - h)));
                }
            }
        }
    }
}

/// A well-formed tree that shows the cells of a matrix is the tree of the
/// matrix.
pub proof fn lemma_shows_unique(t: Tree, m: Seq<Seq<State>>)
    requires
        t.well_formed(),
        shows(t, m),
    ensures
        t == tree_of_matrix(m, t.lg_size(), 0, 0),
{
    lemma_side(t);
    lemma_side_pow2(t);
    lemma_tree_of_matrix(m, t.lg_size(), 0, 0);
    let u = tree_of_matrix(m, t.lg_size(), 0, 0);
    assert forall|y: int, x: int| 0 <= y < t.side() && 0 <= x < t.side() implies t.cell(y, x)
        == #[trigger] u.cell(y, x) by {
        assert(t.cell(y, x) == cell_alive(m, y, x));
    }
    lemma_tree_ext(t, u);
}

} // verus!
