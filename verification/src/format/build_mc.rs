//! Blocks from the lines of a Macrocell file.

use vstd::prelude::*;
use vstd::arithmetic::power2::lemma2_to64;
use crate::{Block, Hashlife, has_collision, lemma_valid_extends};
use crate::block::{extends, lemma_extends_trans};
use crate::tree::Tree;
use super::build_rle::{block_from_matrix, pad_row, slices_of, cell_alive, tree_of_matrix, lemma_shows_unique};
use super::parse::{State, MCLine, MCLeaf, MCLineView};

verus! {

/// The child that a node line names by `index`: the blank tree one size
/// below the depth `d` of the line for zero, and else the tree of the line
/// with that number, counted from one, among the lines before.
pub open spec fn spec_mc_child(d: usize, index: usize, table: Seq<Tree>) -> Option<Tree> {
    if index == 0 {
        if d >= 2 {
            Some(Tree::blank((d - 1) as nat))
        } else {
            None
        }
    } else if index - 1 < table.len() {
        Some(table[index - 1])
    } else {
        None
    }
}

/// The tree of a Macrocell line, given the trees of the lines before it: of
/// a leaf line of eight rows, the 8x8 tree of its cells; of a node line,
/// the node of its four children, which have the same size.
pub open spec fn spec_mc_tree(line: MCLineView, table: Seq<Tree>) -> Option<Tree> {
    match line {
        MCLineView::Leaf(rows) => if rows.len() == 8 {
            Some(tree_of_matrix(rows, 3, 0, 0))
        } else {
            None
        },
        MCLineView::Node(node) => match (
            spec_mc_child(node.0, node.1, table),
            spec_mc_child(node.0, node.2, table),
            spec_mc_child(node.0, node.3, table),
            spec_mc_child(node.0, node.4, table),
        ) {
            (Some(nw), Some(ne), Some(sw), Some(se)) => if ne.lg_size() == nw.lg_size() && sw.lg_size()
                == nw.lg_size() && se.lg_size() == nw.lg_size() {
                Some(Tree::Node(Box::new(nw), Box::new(ne), Box::new(sw), Box::new(se)))
            } else {
                None
            },
            _ => None,
        },
    }
}

/// The trees of the first `n` lines; nothing if one of them has none.
pub open spec fn spec_mc_table(lines: Seq<MCLineView>, n: nat) -> Option<Seq<Tree>>
    decreases n,
{
    if n == 0 {
        Some(Seq::empty())
    } else {
        match spec_mc_table(lines, (n - 1) as nat) {
            Some(table) => match spec_mc_tree(lines[n - 1], table) {
                Some(tree) => Some(table.push(tree)),
                None => None,
            },
            None => None,
        }
    }
}

/// The tree of a Macrocell file: the tree of its last line.
pub open spec fn spec_build_mc(lines: Seq<MCLineView>) -> Option<Tree> {
    match spec_mc_table(lines, lines.len()) {
        Some(table) => if table.len() > 0 {
            Some(table.last())
        } else {
            None
        },
        None => None,
    }
}

/// Once a line has no tree, the file has none.
pub proof fn lemma_mc_table_fails(lines: Seq<MCLineView>, n: nat, m: nat)
    requires
        n <= m,
        spec_mc_table(lines, n) is None,
    ensures
        spec_mc_table(lines, m) is None,
    decreases m - n,
{
    if n < m {
        lemma_mc_table_fails(lines, n, (m - 1) as nat);
    }
}

/// Whether each block of `table` is a block of `hl` and stands for the tree
/// at its place in `trees`.
pub open spec fn table_ok(hl: &Hashlife, table: Seq<Block>, trees: Seq<Tree>) -> bool {
    &&& table.len() == trees.len()
    &&& forall|i: int| 0 <= i < table.len() ==> (#[trigger] table[i]).valid(hl) && table[i].tree(hl) == trees[i]
}

proof fn lemma_table_extends(before: &Hashlife, after: &Hashlife, table: Seq<Block>, trees: Seq<Tree>)
    requires
        extends(before@, after@),
        table_ok(before, table, trees),
    ensures
        table_ok(after, table, trees),
{
    assert forall|i: int| 0 <= i < table.len() implies (#[trigger] table[i]).valid(after) && table[i].tree(
        after,
    ) == trees[i] by {
        lemma_valid_extends(table[i], before, after);
    }
}

/// The block of a leaf line of eight rows: the 8x8 block of its cells, each
/// row cut or filled up with dead cells to eight. An error if the rows are
/// not eight.
pub fn build_mc_leaf(hl: &mut Hashlife, leaf: &MCLeaf) -> (r: Result<Block, ()>)
    requires
        old(hl).wf(),
    ensures
        final(hl).wf(),
        extends(old(hl)@, final(hl)@),
        leaf@.len() != 8 ==> r is Err,
        r is Err ==> leaf@.len() != 8 || has_collision(final(hl)@),
        r matches Ok(b) ==> b.valid(final(hl)) && b.tree(final(hl)) == tree_of_matrix(leaf@, 3, 0, 0),
{
    proof {
        lemma_extends_trans(hl@, hl@, hl@);
        lemma2_to64();
    }
    if leaf.0.len() != 8 {
        return Err(());
    }
    let mut full_leaf: Vec<Vec<State>> = Vec::new();
    let mut y: usize = 0;
    while y < 8
        invariant
            y <= 8,
            leaf.0@.len() == 8,
            full_leaf@.len() == y,
            forall|k: int| 0 <= k < y ==> (#[trigger] full_leaf@[k])@.len() == 8,
            forall|k: int, x: int|
                0 <= k < y && 0 <= x < 8 ==> (#[trigger] full_leaf@[k]@[x] == State::Alive) == cell_alive(
                    leaf@,
                    k,
                    x,
                ),
        decreases 8 - y,
    {
        let row = pad_row(&leaf.0[y], 8);
        let ghost before = full_leaf@;
        proof {
            assert(leaf@[y as int] == leaf.0@[y as int]@);
        }
        full_leaf.push(row);
        proof {
            assert forall|k: int, x: int| 0 <= k < y + 1 && 0 <= x < 8 implies (
            #[trigger] full_leaf@[k]@[x] == State::Alive) == cell_alive(leaf@, k, x) by {
                if k < y {
                    assert(full_leaf@[k] == before[k]);
                }
            }
        }
        y += 1;
    }
    let mut matrix: Vec<&[State]> = Vec::new();
    let mut y: usize = 0;
    while y < full_leaf.len()
        invariant
            y <= full_leaf@.len(),
            matrix@.len() == y,
            forall|k: int| 0 <= k < y ==> (#[trigger] matrix@[k])@ == full_leaf@[k]@,
        decreases full_leaf@.len() - y,
    {
        matrix.push(full_leaf[y].as_slice());
        y += 1;
    }
    proof {
        let m = slices_of(matrix@);
        assert(m.len() == 8);
        assert forall|k: int| 0 <= k < m.len() implies (#[trigger] m[k]).len() == m.len() by {
            assert(m[k] == matrix@[k]@);
        }
    }
    let ghost m = slices_of(matrix@);
    match block_from_matrix(hl, 2, matrix) {
        Ok(raw) => {
            proof {
                let t = hl.tree(raw);
                crate::tree::lemma_side_pow2(t);
                assert forall|v: int, u: int| 0 <= v < t.side() && 0 <= u < t.side() implies #[trigger] t.cell(
                    v,
                    u,
                ) == cell_alive(leaf@, v, u) by {
                    assert(t.cell(v, u) == cell_alive(m, v, u));
                    assert(m[v] == full_leaf@[v]@);
                    assert((full_leaf@[v]@[u] == State::Alive) == cell_alive(leaf@, v, u));
                }
                lemma_shows_unique(t, leaf@);
            }
            Ok(hl.block_from_raw(raw))
        },
        Err(_) => Err(()),
    }
}

/// The child that a node line names by `index`.
fn mc_child(hl: &mut Hashlife, d: usize, index: usize, table: &Vec<Block>, Ghost(trees): Ghost<Seq<Tree>>) -> (r:
    Result<Block, ()>)
    requires
        old(hl).wf(),
        table_ok(old(hl), table@, trees),
    ensures
        final(hl).wf(),
        extends(old(hl)@, final(hl)@),
        table_ok(final(hl), table@, trees),
        spec_mc_child(d, index, trees) is None ==> r is Err,
        r is Err ==> spec_mc_child(d, index, trees) is None || has_collision(final(hl)@),
        r matches Ok(b) ==> b.valid(final(hl)) && Some(b.tree(final(hl))) == spec_mc_child(d, index, trees),
{
    let ghost h0 = *hl;
    proof {
        lemma_extends_trans(hl@, hl@, hl@);
    }
    if index == 0 {
        if d < 2 {
            return Err(());
        }
        let blank = hl.blank(d - 1);
        proof {
            lemma_table_extends(&h0, hl, table@, trees);
        }
        match blank {
            Ok(b) => Ok(b),
            Err(_) => Err(()),
        }
    } else if index - 1 < table.len() {
        Ok(table[index - 1])
    } else {
        Err(())
    }
}

/// The block of a Macrocell file: the block of its last line. An error if
/// the file has no line, if a leaf line has not eight rows, if a node line
/// names a line that does not stand before it or asks for a blank child
/// smaller than a leaf, or if the children of a node differ in size.
pub fn build_mc(hl: &mut Hashlife, mclines: &[MCLine]) -> (r: Result<Block, ()>)
    requires
        old(hl).wf(),
    ensures
        final(hl).wf(),
        extends(old(hl)@, final(hl)@),
        spec_build_mc(mclines@.map_values(|l: MCLine| l@)) is None ==> r is Err,
        r is Err ==> spec_build_mc(mclines@.map_values(|l: MCLine| l@)) is None || has_collision(
            final(hl)@,
        ),
        r matches Ok(b) ==> b.valid(final(hl)) && Some(b.tree(final(hl))) == spec_build_mc(
            mclines@.map_values(|l: MCLine| l@),
        ),
{
    let ghost lines = mclines@.map_values(|l: MCLine| l@);
    let ghost h0 = *hl;
    let mut table: Vec<Block> = Vec::new();
    let ghost mut trees: Seq<Tree> = Seq::empty();
    let mut n: usize = 0;
    proof {
        lemma_extends_trans(hl@, hl@, hl@);
    }
    while n < mclines.len()
        invariant
            n <= mclines@.len(),
            lines == mclines@.map_values(|l: MCLine| l@),
            hl.wf(),
            h0@ == old(hl)@,
            extends(h0@, hl@),
            table_ok(hl, table@, trees),
            spec_mc_table(lines, n as nat) == Some(trees),
            table@.len() == n,
        decreases mclines@.len() - n,
    {
        let ghost h1 = *hl;
        proof {
            assert(lines[n as int] == mclines@[n as int]@);
        }
        let new_block = match &mclines[n] {
            MCLine::Leaf(leaf) => {
                let built = build_mc_leaf(hl, leaf);
                proof {
                    lemma_extends_trans(h0@, h1@, hl@);
                    lemma_table_extends(&h1, hl, table@, trees);
                    if built is Err && leaf@.len() != 8 {
                        assert(spec_mc_table(lines, (n + 1) as nat) is None);
                        lemma_mc_table_fails(lines, (n + 1) as nat, lines.len());
                    }
                }
                built?
            },
            MCLine::Node(node) => {
                let d = node.0;
                let nw = mc_child(hl, d, node.1, &table, Ghost(trees));
                let ghost h2 = *hl;
                proof {
                    lemma_extends_trans(h0@, h1@, h2@);
                    if spec_mc_child(d, node.1, trees) is None {
                        assert(spec_mc_table(lines, (n + 1) as nat) is None);
                        lemma_mc_table_fails(lines, (n + 1) as nat, lines.len());
                    }
                }
                let nw = nw?;
                let ne = mc_child(hl, d, node.2, &table, Ghost(trees));
                let ghost h3 = *hl;
                proof {
                    lemma_extends_trans(h0@, h2@, h3@);
                    lemma_valid_extends(nw, &h2, &h3);
                    if spec_mc_child(d, node.2, trees) is None {
                        assert(spec_mc_table(lines, (n + 1) as nat) is None);
                        lemma_mc_table_fails(lines, (n + 1) as nat, lines.len());
                    }
                }
                let ne = ne?;
                let sw = mc_child(hl, d, node.3, &table, Ghost(trees));
                let ghost h4 = *hl;
                proof {
                    lemma_extends_trans(h0@, h3@, h4@);
                    lemma_valid_extends(nw, &h3, &h4);
                    lemma_valid_extends(ne, &h3, &h4);
                    if spec_mc_child(d, node.3, trees) is None {
                        assert(spec_mc_table(lines, (n + 1) as nat) is None);
                        lemma_mc_table_fails(lines, (n + 1) as nat, lines.len());
                    }
                }
                let sw = sw?;
                let se = mc_child(hl, d, node.4, &table, Ghost(trees));
                let ghost h5 = *hl;
                proof {
                    lemma_extends_trans(h0@, h4@, h5@);
                    lemma_valid_extends(nw, &h4, &h5);
                    lemma_valid_extends(ne, &h4, &h5);
                    lemma_valid_extends(sw, &h4, &h5);
                    if spec_mc_child(d, node.4, trees) is None {
                        assert(spec_mc_table(lines, (n + 1) as nat) is None);
                        lemma_mc_table_fails(lines, (n + 1) as nat, lines.len());
                    }
                }
                let se = se?;
                if ne.lg_size() != nw.lg_size() || sw.lg_size() != nw.lg_size() || se.lg_size()
                    != nw.lg_size() {
                    proof {
                        assert(spec_mc_table(lines, (n + 1) as nat) is None);
                        lemma_mc_table_fails(lines, (n + 1) as nat, lines.len());
                    }
                    return Err(());
                }
                let built = hl.node_block([[nw, ne], [sw, se]]);
                proof {
                    lemma_extends_trans(h0@, h5@, hl@);
                    lemma_table_extends(&h5, hl, table@, trees);
                }
                match built {
                    Ok(b) => b,
                    Err(_) => {
                        return Err(());
                    },
                }
            },
        };
        proof {
            let tree = new_block.tree(hl);
            assert(spec_mc_tree(lines[n as int], trees) == Some(tree));
            assert forall|i: int| 0 <= i < table@.push(new_block).len() implies (#[trigger] table@.push(
                new_block,
            )[i]).valid(hl) && table@.push(new_block)[i].tree(hl) == trees.push(tree)[i] by {
                if i < table@.len() {
                    assert(table@[i].valid(hl));
                }
            }
            trees = trees.push(tree);
        }
        table.push(new_block);
        n += 1;
    }
    if table.len() > 0 {
        Ok(table[table.len() - 1])
    } else {
        Err(())
    }
}

} // verus!
