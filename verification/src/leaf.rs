//! The leaf of the block tree: a 2x2 tile of cells packed into one byte.
//!
//! The cell in row `y` and column `x` of a leaf is the bit at position
//! `y * LEAF_Y_SHIFT + x * LEAF_X_SHIFT`; a set bit is a live cell. Only the
//! bits of `LEAF_MASK` carry cells, and a leaf whose other bits are clear is
//! called masked.

use vstd::prelude::*;

verus! {

/// A 2x2 tile of cells.
pub type Leaf = u8;

/// Base-two logarithm of the side of a leaf.
pub const LG_LEAF_SIZE: usize = 1;

/// Side of a leaf, in cells.
pub const LEAF_SIZE: usize = 2;

/// All the bits of a leaf that carry a cell.
pub const LEAF_MASK: Leaf = 0x33;

/// The bits of the north-west quarter of a leaf: a single cell.
pub const QUARTER_LEAF_MASK: Leaf = 0x01;

/// Distance in bits between two rows of a leaf.
pub const LEAF_Y_SHIFT: usize = 4;

/// Distance in bits between two columns of a leaf.
pub const LEAF_X_SHIFT: usize = 1;

/// The bit of a leaf that holds the cell in row `y` and column `x`.
pub open spec fn cell_mask(y: int, x: int) -> Leaf {
    if y == 0 {
        if x == 0 {
            0x01
        } else {
            0x02
        }
    } else {
        if x == 0 {
            0x10
        } else {
            0x20
        }
    }
}

/// Whether the cell in row `y` and column `x` of `leaf` is alive. Outside the
/// leaf every cell is dead.
pub open spec fn leaf_cell(leaf: Leaf, y: int, x: int) -> bool {
    0 <= y < 2 && 0 <= x < 2 && leaf & cell_mask(y, x) != 0
}

/// Whether `leaf` has no bit set outside `LEAF_MASK`.
pub open spec fn leaf_masked(leaf: Leaf) -> bool {
    leaf & 0xCC == 0
}

/// The masked leaf with the four given cells.
pub open spec fn leaf_of_cells(nw: bool, ne: bool, sw: bool, se: bool) -> Leaf {
    (if nw { 0x01u8 } else { 0u8 }) | (if ne { 0x02u8 } else { 0u8 }) | (if sw { 0x10u8 } else { 0u8 })
        | (if se { 0x20u8 } else { 0u8 })
}

/// A masked leaf is determined by its four cells.
pub proof fn lemma_leaf_of_cells(leaf: Leaf)
    requires
        leaf_masked(leaf),
    ensures
        leaf == leaf_of_cells(
            leaf_cell(leaf, 0, 0),
            leaf_cell(leaf, 0, 1),
            leaf_cell(leaf, 1, 0),
            leaf_cell(leaf, 1, 1),
        ),
{
    assert(leaf & 0xCC == 0 ==> leaf == (if leaf & 0x01 != 0 { 0x01u8 } else { 0u8 }) | (if leaf & 0x02
        != 0 { 0x02u8 } else { 0u8 }) | (if leaf & 0x10 != 0 { 0x10u8 } else { 0u8 }) | (if leaf & 0x20
        != 0 { 0x20u8 } else { 0u8 })) by (bit_vector);
}

/// The leaf built from four cells is masked and has exactly those cells.
pub proof fn lemma_cells_of_leaf(nw: bool, ne: bool, sw: bool, se: bool)
    ensures
        leaf_masked(leaf_of_cells(nw, ne, sw, se)),
        leaf_cell(leaf_of_cells(nw, ne, sw, se), 0, 0) == nw,
        leaf_cell(leaf_of_cells(nw, ne, sw, se), 0, 1) == ne,
        leaf_cell(leaf_of_cells(nw, ne, sw, se), 1, 0) == sw,
        leaf_cell(leaf_of_cells(nw, ne, sw, se), 1, 1) == se,
{
    let l = leaf_of_cells(nw, ne, sw, se);
    let a: u8 = if nw { 0x01u8 } else { 0u8 };
    let b: u8 = if ne { 0x02u8 } else { 0u8 };
    let c: u8 = if sw { 0x10u8 } else { 0u8 };
    let d: u8 = if se { 0x20u8 } else { 0u8 };
    assert((a == 0 || a == 1) && (b == 0 || b == 2) && (c == 0 || c == 0x10) && (d == 0 || d == 0x20)
        ==> ((a | b | c | d) & 0xCC == 0 && ((a | b | c | d) & 0x01 != 0) == (a != 0) && ((a | b | c
        | d) & 0x02 != 0) == (b != 0) && ((a | b | c | d) & 0x10 != 0) == (c != 0) && ((a | b | c | d)
        & 0x20 != 0) == (d != 0))) by (bit_vector);
}

/// Two masked leaves with the same four cells are the same leaf.
pub proof fn lemma_leaf_ext(a: Leaf, b: Leaf)
    requires
        leaf_masked(a),
        leaf_masked(b),
        forall|y: int, x: int| 0 <= y < 2 && 0 <= x < 2 ==> leaf_cell(a, y, x) == leaf_cell(b, y, x),
    ensures
        a == b,
{
    lemma_leaf_of_cells(a);
    lemma_leaf_of_cells(b);
    assert(leaf_cell(a, 0, 0) == leaf_cell(b, 0, 0));
    assert(leaf_cell(a, 0, 1) == leaf_cell(b, 0, 1));
    assert(leaf_cell(a, 1, 0) == leaf_cell(b, 1, 0));
    assert(leaf_cell(a, 1, 1) == leaf_cell(b, 1, 1));
}

/// The dead leaf is masked and has no live cell; a masked leaf with no live
/// cell is the dead leaf.
pub proof fn lemma_dead_leaf(leaf: Leaf)
    ensures
        leaf_masked(0),
        forall|y: int, x: int| !leaf_cell(0, y, x),
        leaf_masked(leaf) && (forall|y: int, x: int| 0 <= y < 2 && 0 <= x < 2 ==> !leaf_cell(leaf, y, x))
            ==> leaf == 0,
{
    assert(0u8 & 0xCC == 0 && 0u8 & 0x01 == 0 && 0u8 & 0x02 == 0 && 0u8 & 0x10 == 0 && 0u8 & 0x20 == 0)
        by (bit_vector);
    if leaf_masked(leaf) && (forall|y: int, x: int|
        0 <= y < 2 && 0 <= x < 2 ==> !leaf_cell(leaf, y, x)) {
        assert(!leaf_cell(leaf, 0, 0));
        assert(!leaf_cell(leaf, 0, 1));
        assert(!leaf_cell(leaf, 1, 0));
        assert(!leaf_cell(leaf, 1, 1));
        lemma_leaf_ext(leaf, 0);
    }
}

/// The cell in row `y` and column `x` of `leaf`, as the low bit of a leaf.
pub fn get_cell(leaf: Leaf, y: usize, x: usize) -> (cell: Leaf)
    requires
        y < 2,
        x < 2,
    ensures
        cell == (if leaf_cell(leaf, y as int, x as int) {
            1u8
        } else {
            0u8
        }),
{
    let shift = y * LEAF_Y_SHIFT + x * LEAF_X_SHIFT;
    assert(shift == 0 || shift == 1 || shift == 4 || shift == 5 ==> (0x01u8 & (leaf >> shift)) == (if (
    if shift == 0 {
        leaf & 0x01
    } else if shift == 1 {
        leaf & 0x02
    } else if shift == 4 {
        leaf & 0x10
    } else {
        leaf & 0x20
    }) != 0 {
        1u8
    } else {
        0u8
    })) by (bit_vector);
    QUARTER_LEAF_MASK & (leaf >> shift)
}

/// `leaf` with the cell in row `y` and column `x` made alive if `cell` is
/// one, and left as it is if `cell` is zero.
pub fn put_cell(leaf: Leaf, cell: Leaf, y: usize, x: usize) -> (out: Leaf)
    requires
        y < 2,
        x < 2,
        cell <= 1,
    ensures
        leaf_masked(leaf) ==> leaf_masked(out),
        forall|v: int, u: int|
            0 <= v < 2 && 0 <= u < 2 ==> #[trigger] leaf_cell(out, v, u) == (leaf_cell(leaf, v, u) || (v
                == y && u == x && cell == 1)),
{
    let shift = y * LEAF_Y_SHIFT + x * LEAF_X_SHIFT;
    let out = leaf | (cell << shift);
    assert(cell <= 1 && (shift == 0 || shift == 1 || shift == 4 || shift == 5) ==> {
        let o = leaf | (cell << shift);
        &&& (leaf & 0xCC == 0 ==> o & 0xCC == 0)
        &&& (o & 0x01 != 0) == (leaf & 0x01 != 0 || (shift == 0 && cell == 1))
        &&& (o & 0x02 != 0) == (leaf & 0x02 != 0 || (shift == 1 && cell == 1))
        &&& (o & 0x10 != 0) == (leaf & 0x10 != 0 || (shift == 4 && cell == 1))
        &&& (o & 0x20 != 0) == (leaf & 0x20 != 0 || (shift == 5 && cell == 1))
    }) by (bit_vector);
    out
}

} // verus!
