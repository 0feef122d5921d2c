//! The evolution kernel: the table of one generation on 4x4 squares, and the
//! recursive operators on nodes that are built on it.

use vstd::prelude::*;
use crate::leaf::{Leaf, leaf_cell, leaf_masked, leaf_of_cells, lemma_cells_of_leaf, lemma_dead_leaf, get_cell, put_cell};
use crate::life::{b2i, evolve_cell};
use crate::tree::{
    Tree,
    center_after,
    center_future,
    window_after,
    times,
    lemma_side,
    lemma_child_window,
    lemma_grandchild_window,
    lemma_window_assemble,
    lemma_window_compose,
    lemma_center_unique,
    lemma_side_double,
    lemma_side_pow2,
};
use crate::block::{
    Block as RawBlock,
    Node as RawNode,
    HashCollision,
    NodeView,
    corners_in_arena,
    extends,
    in_arena,
    tree_of,
    lemma_tree_of_node,
    lemma_tree_extends,
    lemma_extends_trans,
    lemma_block_kind,
    lemma_canonical,
    lemma_lg_bound,
};
use crate::{Hashlife, has_collision};
use vstd::arithmetic::power2::{pow2, lemma_pow2_unfold, lemma_pow2_pos, lemma_pow2_strictly_increases, lemma2_to64, lemma2_to64_rest};
use vstd::bits::{lemma_u64_shr_is_div, lemma_u64_low_bits_mask_is_mod, lemma_u64_shl_is_mul};

verus! {

/// Number of live cells in a 3x3 window packed as three rows of four bits,
/// the fourth bit of each row unused.
pub open spec fn window_count(m: u32) -> int {
    b2i(m & 0x001 != 0) + b2i(m & 0x002 != 0) + b2i(m & 0x004 != 0) + b2i(m & 0x010 != 0) + b2i(
        m & 0x020 != 0,
    ) + b2i(m & 0x040 != 0) + b2i(m & 0x100 != 0) + b2i(m & 0x200 != 0) + b2i(m & 0x400 != 0)
}

/// Whether the middle cell of a packed 3x3 window is alive in the next
/// generation: the window holds three live cells, or four and the middle
/// cell is one of them.
pub open spec fn window_alive(m: u32) -> bool {
    window_count(m) == 3 || (window_count(m) == 4 && m & 0x020 != 0)
}

/// The 2x2 centre, one generation later, of the 4x4 square packed into `x`
/// as four rows of four bits.
pub open spec fn small_evolve(x: u32) -> Leaf {
    leaf_of_cells(
        window_alive(x & 0x777),
        window_alive((x >> 1) & 0x777),
        window_alive((x >> 4) & 0x777),
        window_alive((x >> 5) & 0x777),
    )
}

/// The bit of a leaf at a given shift.
pub open spec fn shifted_bit(shift: u32) -> Leaf {
    if shift == 0 {
        0x01
    } else if shift == 1 {
        0x02
    } else if shift == 4 {
        0x10
    } else {
        0x20
    }
}

spec fn pop3(a: int) -> int {
    a % 2 + (a / 2) % 2 + (a / 4) % 2
}

spec fn rows_alive(a: int, b: int, c: int) -> bool {
    let count = pop3(a) + pop3(b) + pop3(c);
    count == 3 || (count == 4 && (b / 2) % 2 == 1)
}

spec fn rows_index(a: int, b: int, c: int) -> int {
    a + 16 * b + 256 * c
}

spec fn rows_done(a: int, b: int, c: int, na: int, nb: int, nc: int) -> bool {
    a < na || (a == na && (b < nb || (b == nb && c < nc)))
}

spec fn rows_filled(res: [u8; 65536], na: int, nb: int, nc: int) -> bool {
    forall|a: int, b: int, c: int|
        0 <= a < 8 && 0 <= b < 8 && 0 <= c < 8 && rows_done(a, b, c, na, nb, nc) ==> res[#[trigger] rows_index(
            a,
            b,
            c,
        )] == (if rows_alive(a, b, c) {
            1u8
        } else {
            0u8
        })
}

spec fn windows_known(res: [u8; 65536]) -> bool {
    forall|m: u32| m & 0x777 == m ==> (#[trigger] res[m as int] & 1 != 0) == window_alive(m)
}

proof fn lemma_rows_pack(a: u32, b: u32, c: u32)
    requires
        a < 8,
        b < 8,
        c < 8,
    ensures
        (a | b << 4 | c << 8) == rows_index(a as int, b as int, c as int),
        (b & 2 != 0) == ((b as int / 2) % 2 == 1),
{
    assert(a < 8 && b < 8 && c < 8 ==> (a | b << 4 | c << 8) == a + 16 * b + 256 * c) by (bit_vector);
    assert((b & 2 != 0) == ((b / 2) % 2 == 1)) by (bit_vector);
}

proof fn lemma_rows_unpack(m: u32)
    requires
        m & 0x777 == m,
    ensures
        m < 0x800,
        m == rows_index((m & 7) as int, ((m >> 4) & 7) as int, ((m >> 8) & 7) as int),
        (m & 7) < 8,
        ((m >> 4) & 7) < 8,
        ((m >> 8) & 7) < 8,
        window_alive(m) == rows_alive((m & 7) as int, ((m >> 4) & 7) as int, ((m >> 8) & 7) as int),
{
    let a = m & 7;
    let b = (m >> 4) & 7;
    let c = (m >> 8) & 7;
    assert(m & 0x777 == m ==> m < 0x800 && m == (m & 7) + 16 * ((m >> 4) & 7) + 256 * ((m >> 8) & 7)
        && (m & 7) < 8 && ((m >> 4) & 7) < 8 && ((m >> 8) & 7) < 8) by (bit_vector);
    assert((m & 0x001 != 0) == ((m & 7) % 2 == 1) && (m & 0x002 != 0) == (((m & 7) / 2) % 2 == 1) && (m
        & 0x004 != 0) == (((m & 7) / 4) % 2 == 1)) by (bit_vector);
    assert((m & 0x010 != 0) == (((m >> 4) & 7) % 2 == 1) && (m & 0x020 != 0) == ((((m >> 4) & 7) / 2)
        % 2 == 1) && (m & 0x040 != 0) == ((((m >> 4) & 7) / 4) % 2 == 1)) by (bit_vector);
    assert((m & 0x100 != 0) == (((m >> 8) & 7) % 2 == 1) && (m & 0x200 != 0) == ((((m >> 8) & 7) / 2)
        % 2 == 1) && (m & 0x400 != 0) == ((((m >> 8) & 7) / 4) % 2 == 1)) by (bit_vector);
    assert(pop3(a as int) == b2i(m & 0x001 != 0) + b2i(m & 0x002 != 0) + b2i(m & 0x004 != 0));
    assert(pop3(b as int) == b2i(m & 0x010 != 0) + b2i(m & 0x020 != 0) + b2i(m & 0x040 != 0));
    assert(pop3(c as int) == b2i(m & 0x100 != 0) + b2i(m & 0x200 != 0) + b2i(m & 0x400 != 0));
}

proof fn lemma_window_index(x: u32, shift: u32)
    requires
        shift < 32,
    ensures
        ((x >> shift) & 0x777) & 0x777 == (x >> shift) & 0x777,
        (x >> shift) & 0x777 < 0x800,
        x & 0x777 == x ==> (x >> 0) & 0x777 == x,
        (x >> 0) == x,
{
    assert(shift < 32 ==> ((x >> shift) & 0x777) & 0x777 == (x >> shift) & 0x777 && (x >> shift)
        & 0x777 < 0x800 && (x >> 0) == x) by (bit_vector);
}

proof fn lemma_low_bit(v: u8, shift: u32)
    requires
        shift == 0 || shift == 1 || shift == 4 || shift == 5,
    ensures
        ((v & 1) << shift) == (if v & 1 != 0 {
            shifted_bit(shift)
        } else {
            0u8
        }),
{
    assert(((v & 1) << 0u32) == (if v & 1 != 0 { 0x01u8 } else { 0u8 }) && ((v & 1) << 1u32) == (if v
        & 1 != 0 { 0x02u8 } else { 0u8 }) && ((v & 1) << 4u32) == (if v & 1 != 0 { 0x10u8 } else { 0u8 })
        && ((v & 1) << 5u32) == (if v & 1 != 0 { 0x20u8 } else { 0u8 })) by (bit_vector);
}

proof fn lemma_low_bit_of_leaf(nw: bool, ne: bool, sw: bool, se: bool)
    ensures
        (leaf_of_cells(nw, ne, sw, se) & 1 != 0) == nw,
{
    let a: u8 = if nw { 0x01u8 } else { 0u8 };
    let b: u8 = if ne { 0x02u8 } else { 0u8 };
    let c: u8 = if sw { 0x10u8 } else { 0u8 };
    let d: u8 = if se { 0x20u8 } else { 0u8 };
    assert((a == 0 || a == 1) && (b == 0 || b == 2) && (c == 0 || c == 0x10) && (d == 0 || d == 0x20)
        ==> (((a | b | c | d) & 1 != 0) == (a != 0))) by (bit_vector);
}

/// The contribution of one 3x3 window of the 4x4 square `x` to its centre:
/// the window that starts `shift` bits in, looked up in the part of the
/// table that is known by then, and put at the place of its middle cell.
fn window_bit(res: &[u8; 65536], x: u32, shift: u32) -> (bit: u8)
    requires
        windows_known(*res),
        shift == 0 || shift == 1 || shift == 4 || shift == 5,
    ensures
        bit == (if window_alive((x >> shift) & 0x777) {
            shifted_bit(shift)
        } else {
            0u8
        }),
{
    let subblock = (x >> shift) & 0x777;
    proof {
        lemma_window_index(x, shift);
        lemma_low_bit(res[subblock as int], shift);
    }
    (res[subblock as usize] & 1) << shift
}

/// A table containing the 2x2 centre after one generation of every 4x4
/// square, indexed by the square packed as four rows of four bits.
pub fn mk_small_evolve_cache() -> (res: [u8; 65536])
    ensures
        forall|x: u32| x < 65536 ==> #[trigger] res[x as int] == small_evolve(x),
{
    let mut res: [u8; 65536] = [0u8; 65536];
    let bitcount: [u8; 8] = [0, 1, 1, 2, 1, 2, 2, 3];
    let mut a: u32 = 0;
    while a < 8
        invariant
            a <= 8,
            bitcount@ == seq![0u8, 1, 1, 2, 1, 2, 2, 3],
            rows_filled(res, a as int, 0, 0),
        decreases 8 - a,
    {
        let mut b: u32 = 0;
        while b < 8
            invariant
                a < 8,
                b <= 8,
                bitcount@ == seq![0u8, 1, 1, 2, 1, 2, 2, 3],
                rows_filled(res, a as int, b as int, 0),
            decreases 8 - b,
        {
            let mut c: u32 = 0;
            while c < 8
                invariant
                    a < 8,
                    b < 8,
                    c <= 8,
                    bitcount@ == seq![0u8, 1, 1, 2, 1, 2, 2, 3],
                    rows_filled(res, a as int, b as int, c as int),
                decreases 8 - c,
            {
                let entry = a | b << 4 | c << 8;
                let count = bitcount[a as usize] + bitcount[b as usize] + bitcount[c as usize];
                let living = count == 3 || (count == 4 && (b & 2 != 0));
                proof {
                    lemma_rows_pack(a, b, c);
                    assert(bitcount[a as int] == pop3(a as int));
                    assert(bitcount[b as int] == pop3(b as int));
                    assert(bitcount[c as int] == pop3(c as int));
                    assert(living == rows_alive(a as int, b as int, c as int));
                }
                let ghost before = res;
                res[entry as usize] = if living {
                    1
                } else {
                    0
                };
                proof {
                    assert forall|a2: int, b2: int, c2: int|
                        0 <= a2 < 8 && 0 <= b2 < 8 && 0 <= c2 < 8 && rows_done(
                            a2,
                            b2,
                            c2,
                            a as int,
                            b as int,
                            c + 1,
                        ) implies res[#[trigger] rows_index(a2, b2, c2)] == (if rows_alive(a2, b2, c2) {
                        1u8
                    } else {
                        0u8
                    }) by {
                        if a2 == a && b2 == b && c2 == c {
                        } else {
                            assert(rows_done(a2, b2, c2, a as int, b as int, c as int));
                            assert(rows_index(a2, b2, c2) != rows_index(a as int, b as int, c as int));
                            assert(before[rows_index(a2, b2, c2)] == res[rows_index(a2, b2, c2)]);
                        }
                    }
                }
                c += 1;
            }
            b += 1;
        }
        a += 1;
    }
    proof {
        assert forall|m: u32| m & 0x777 == m implies (#[trigger] res[m as int] & 1 != 0)
            == window_alive(m) by {
            lemma_rows_unpack(m);
            let ma = (m & 7) as int;
            let mb = ((m >> 4) & 7) as int;
            let mc = ((m >> 8) & 7) as int;
            assert(rows_done(ma, mb, mc, 8, 0, 0));
            assert(res[rows_index(ma, mb, mc)] == (if rows_alive(ma, mb, mc) {
                1u8
            } else {
                0u8
            }));
            assert(1u8 & 1 != 0 && 0u8 & 1 == 0) by (bit_vector);
        }
    }
    let mut x: u32 = 0;
    while x < 65536
        invariant
            x <= 65536,
            windows_known(res),
            forall|y: u32| y < x ==> #[trigger] res[y as int] == small_evolve(y),
        decreases 65536 - x,
    {
        let evolve = window_bit(&res, x, 0) | window_bit(&res, x, 1) | window_bit(&res, x, 4)
            | window_bit(&res, x, 5);
        proof {
            lemma_window_index(x, 0);
            assert(evolve == small_evolve(x));
            lemma_low_bit_of_leaf(
                window_alive(x & 0x777),
                window_alive((x >> 1) & 0x777),
                window_alive((x >> 4) & 0x777),
                window_alive((x >> 5) & 0x777),
            );
        }
        let ghost before = res;
        res[x as usize] = evolve;
        proof {
            assert forall|m: u32| m & 0x777 == m implies (#[trigger] res[m as int] & 1 != 0)
                == window_alive(m) by {
                lemma_rows_unpack(m);
                if m != x {
                    assert(before[m as int] == res[m as int]);
                }
            }
            assert forall|y: u32| y < x + 1 implies #[trigger] res[y as int] == small_evolve(y) by {
                if y < x {
                    assert(before[y as int] == res[y as int]);
                }
            }
        }
        x += 1;
    }
    res
}

/// The node of four leaves.
pub open spec fn leaf_node(nw: Leaf, ne: Leaf, sw: Leaf, se: Leaf) -> Tree {
    Tree::Node(
        Box::new(Tree::Leaf(nw)),
        Box::new(Tree::Leaf(ne)),
        Box::new(Tree::Leaf(sw)),
        Box::new(Tree::Leaf(se)),
    )
}

/// The 4x4 square of four leaves, packed as four rows of four bits.
pub open spec fn pack_leafs(nw: Leaf, ne: Leaf, sw: Leaf, se: Leaf) -> u32 {
    (nw as u32) | (ne as u32) << 2 | (sw as u32) << 8 | (se as u32) << 10
}

proof fn lemma_pack_windows(a: Leaf, b: Leaf, c: Leaf, d: Leaf)
    requires
        leaf_masked(a),
        leaf_masked(b),
        leaf_masked(c),
        leaf_masked(d),
    ensures
        ({
            let x = pack_leafs(a, b, c, d);
            let w0 = x & 0x777;
            let w1 = (x >> 1) & 0x777;
            let w4 = (x >> 4) & 0x777;
            let w5 = (x >> 5) & 0x777;
            &&& x < 65536
            &&& x == (a as u32) + ((b as u32) << 2) + ((c as u32) << 8) + ((d as u32) << 10)
            &&& (w0 & 0x001 != 0) == (a & 0x01 != 0)
            &&& (w0 & 0x002 != 0) == (a & 0x02 != 0)
            &&& (w0 & 0x004 != 0) == (b & 0x01 != 0)
            &&& (w0 & 0x010 != 0) == (a & 0x10 != 0)
            &&& (w0 & 0x020 != 0) == (a & 0x20 != 0)
            &&& (w0 & 0x040 != 0) == (b & 0x10 != 0)
            &&& (w0 & 0x100 != 0) == (c & 0x01 != 0)
            &&& (w0 & 0x200 != 0) == (c & 0x02 != 0)
            &&& (w0 & 0x400 != 0) == (d & 0x01 != 0)
            &&& (w1 & 0x001 != 0) == (a & 0x02 != 0)
            &&& (w1 & 0x002 != 0) == (b & 0x01 != 0)
            &&& (w1 & 0x004 != 0) == (b & 0x02 != 0)
            &&& (w1 & 0x010 != 0) == (a & 0x20 != 0)
            &&& (w1 & 0x020 != 0) == (b & 0x10 != 0)
            &&& (w1 & 0x040 != 0) == (b & 0x20 != 0)
            &&& (w1 & 0x100 != 0) == (c & 0x02 != 0)
            &&& (w1 & 0x200 != 0) == (d & 0x01 != 0)
            &&& (w1 & 0x400 != 0) == (d & 0x02 != 0)
            &&& (w4 & 0x001 != 0) == (a & 0x10 != 0)
            &&& (w4 & 0x002 != 0) == (a & 0x20 != 0)
            &&& (w4 & 0x004 != 0) == (b & 0x10 != 0)
            &&& (w4 & 0x010 != 0) == (c & 0x01 != 0)
            &&& (w4 & 0x020 != 0) == (c & 0x02 != 0)
            &&& (w4 & 0x040 != 0) == (d & 0x01 != 0)
            &&& (w4 & 0x100 != 0) == (c & 0x10 != 0)
            &&& (w4 & 0x200 != 0) == (c & 0x20 != 0)
            &&& (w4 & 0x400 != 0) == (d & 0x10 != 0)
            &&& (w5 & 0x001 != 0) == (a & 0x20 != 0)
            &&& (w5 & 0x002 != 0) == (b & 0x10 != 0)
            &&& (w5 & 0x004 != 0) == (b & 0x20 != 0)
            &&& (w5 & 0x010 != 0) == (c & 0x02 != 0)
            &&& (w5 & 0x020 != 0) == (d & 0x01 != 0)
            &&& (w5 & 0x040 != 0) == (d & 0x02 != 0)
            &&& (w5 & 0x100 != 0) == (c & 0x20 != 0)
            &&& (w5 & 0x200 != 0) == (d & 0x10 != 0)
            &&& (w5 & 0x400 != 0) == (d & 0x20 != 0)
        }),
{
    assert(a & 0xCC == 0 && b & 0xCC == 0 && c & 0xCC == 0 && d & 0xCC == 0 ==> {
        let x = (a as u32) | (b as u32) << 2 | (c as u32) << 8 | (d as u32) << 10;
        let w0 = x & 0x777;
        &&& x < 65536
        &&& x == (a as u32) + ((b as u32) << 2) + ((c as u32) << 8) + ((d as u32) << 10)
        &&& (w0 & 0x001 != 0) == (a & 0x01 != 0)
        &&& (w0 & 0x002 != 0) == (a & 0x02 != 0)
        &&& (w0 & 0x004 != 0) == (b & 0x01 != 0)
        &&& (w0 & 0x010 != 0) == (a & 0x10 != 0)
        &&& (w0 & 0x020 != 0) == (a & 0x20 != 0)
        &&& (w0 & 0x040 != 0) == (b & 0x10 != 0)
        &&& (w0 & 0x100 != 0) == (c & 0x01 != 0)
        &&& (w0 & 0x200 != 0) == (c & 0x02 != 0)
        &&& (w0 & 0x400 != 0) == (d & 0x01 != 0)
    }) by (bit_vector);
    assert(a & 0xCC == 0 && b & 0xCC == 0 && c & 0xCC == 0 && d & 0xCC == 0 ==> {
        let x = (a as u32) | (b as u32) << 2 | (c as u32) << 8 | (d as u32) << 10;
        let w1 = (x >> 1) & 0x777;
        &&& (w1 & 0x001 != 0) == (a & 0x02 != 0)
        &&& (w1 & 0x002 != 0) == (b & 0x01 != 0)
        &&& (w1 & 0x004 != 0) == (b & 0x02 != 0)
        &&& (w1 & 0x010 != 0) == (a & 0x20 != 0)
        &&& (w1 & 0x020 != 0) == (b & 0x10 != 0)
        &&& (w1 & 0x040 != 0) == (b & 0x20 != 0)
        &&& (w1 & 0x100 != 0) == (c & 0x02 != 0)
        &&& (w1 & 0x200 != 0) == (d & 0x01 != 0)
        &&& (w1 & 0x400 != 0) == (d & 0x02 != 0)
    }) by (bit_vector);
    assert(a & 0xCC == 0 && b & 0xCC == 0 && c & 0xCC == 0 && d & 0xCC == 0 ==> {
        let x = (a as u32) | (b as u32) << 2 | (c as u32) << 8 | (d as u32) << 10;
        let w4 = (x >> 4) & 0x777;
        &&& (w4 & 0x001 != 0) == (a & 0x10 != 0)
        &&& (w4 & 0x002 != 0) == (a & 0x20 != 0)
        &&& (w4 & 0x004 != 0) == (b & 0x10 != 0)
        &&& (w4 & 0x010 != 0) == (c & 0x01 != 0)
        &&& (w4 & 0x020 != 0) == (c & 0x02 != 0)
        &&& (w4 & 0x040 != 0) == (d & 0x01 != 0)
        &&& (w4 & 0x100 != 0) == (c & 0x10 != 0)
        &&& (w4 & 0x200 != 0) == (c & 0x20 != 0)
        &&& (w4 & 0x400 != 0) == (d & 0x10 != 0)
    }) by (bit_vector);
    assert(a & 0xCC == 0 && b & 0xCC == 0 && c & 0xCC == 0 && d & 0xCC == 0 ==> {
        let x = (a as u32) | (b as u32) << 2 | (c as u32) << 8 | (d as u32) << 10;
        let w5 = (x >> 5) & 0x777;
        &&& (w5 & 0x001 != 0) == (a & 0x20 != 0)
        &&& (w5 & 0x002 != 0) == (b & 0x10 != 0)
        &&& (w5 & 0x004 != 0) == (b & 0x20 != 0)
        &&& (w5 & 0x010 != 0) == (c & 0x02 != 0)
        &&& (w5 & 0x020 != 0) == (d & 0x01 != 0)
        &&& (w5 & 0x040 != 0) == (d & 0x02 != 0)
        &&& (w5 & 0x100 != 0) == (c & 0x20 != 0)
        &&& (w5 & 0x200 != 0) == (d & 0x10 != 0)
        &&& (w5 & 0x400 != 0) == (d & 0x20 != 0)
    }) by (bit_vector);
}

/// The cells of a node of four leaves, leaf by leaf.
pub proof fn lemma_leaf_node_cells(a: Leaf, b: Leaf, c: Leaf, d: Leaf)
    ensures
        leaf_node(a, b, c, d).side() == 4,
        leaf_node(a, b, c, d).lg_size() == 2,
        leaf_node(a, b, c, d).uniform(),
        leaf_node(a, b, c, d).masked() == (leaf_masked(a) && leaf_masked(b) && leaf_masked(c)
            && leaf_masked(d)),
        forall|y: int, x: int|
            0 <= y < 2 && 0 <= x < 2 ==> {
                &&& #[trigger] leaf_node(a, b, c, d).cell(y, x) == leaf_cell(a, y, x)
                &&& leaf_node(a, b, c, d).cell(y, x + 2) == leaf_cell(b, y, x)
                &&& leaf_node(a, b, c, d).cell(y + 2, x) == leaf_cell(c, y, x)
                &&& leaf_node(a, b, c, d).cell(y + 2, x + 2) == leaf_cell(d, y, x)
            },
{
    reveal_with_fuel(Tree::side, 2);
    reveal_with_fuel(Tree::lg_size, 2);
    reveal_with_fuel(Tree::uniform, 2);
    reveal_with_fuel(Tree::masked, 2);
    reveal_with_fuel(Tree::cell, 2);
}

proof fn lemma_window_rule(m: u32, g: spec_fn(int, int) -> bool, y: int, x: int)
    requires
        (m & 0x001 != 0) == g(y - 1, x - 1),
        (m & 0x002 != 0) == g(y - 1, x),
        (m & 0x004 != 0) == g(y - 1, x + 1),
        (m & 0x010 != 0) == g(y, x - 1),
        (m & 0x020 != 0) == g(y, x),
        (m & 0x040 != 0) == g(y, x + 1),
        (m & 0x100 != 0) == g(y + 1, x - 1),
        (m & 0x200 != 0) == g(y + 1, x),
        (m & 0x400 != 0) == g(y + 1, x + 1),
    ensures
        window_alive(m) == evolve_cell(g, 1, y, x),
{
    reveal_with_fuel(evolve_cell, 2);
}

proof fn lemma_grid_bits(a: Leaf, b: Leaf, c: Leaf, d: Leaf)
    ensures
        ({
            let g = leaf_node(a, b, c, d).grid();
            &&& g(0, 0) == (a & 0x01 != 0)
            &&& g(0, 1) == (a & 0x02 != 0)
            &&& g(1, 0) == (a & 0x10 != 0)
            &&& g(1, 1) == (a & 0x20 != 0)
            &&& g(0, 2) == (b & 0x01 != 0)
            &&& g(0, 3) == (b & 0x02 != 0)
            &&& g(1, 2) == (b & 0x10 != 0)
            &&& g(1, 3) == (b & 0x20 != 0)
            &&& g(2, 0) == (c & 0x01 != 0)
            &&& g(2, 1) == (c & 0x02 != 0)
            &&& g(3, 0) == (c & 0x10 != 0)
            &&& g(3, 1) == (c & 0x20 != 0)
            &&& g(2, 2) == (d & 0x01 != 0)
            &&& g(2, 3) == (d & 0x02 != 0)
            &&& g(3, 2) == (d & 0x10 != 0)
            &&& g(3, 3) == (d & 0x20 != 0)
        }),
{
    let n = leaf_node(a, b, c, d);
    lemma_leaf_node_cells(a, b, c, d);
    assert(n.cell(0, 0) == leaf_cell(a, 0, 0));
    assert(n.cell(0, 1) == leaf_cell(a, 0, 1));
    assert(n.cell(1, 0) == leaf_cell(a, 1, 0));
    assert(n.cell(1, 1) == leaf_cell(a, 1, 1));
    assert(n.cell(0, 2) == leaf_cell(b, 0, 0));
    assert(n.cell(0, 3) == leaf_cell(b, 0, 1));
    assert(n.cell(1, 2) == leaf_cell(b, 1, 0));
    assert(n.cell(1, 3) == leaf_cell(b, 1, 1));
    assert(n.cell(2, 0) == leaf_cell(c, 0, 0));
    assert(n.cell(2, 1) == leaf_cell(c, 0, 1));
    assert(n.cell(3, 0) == leaf_cell(c, 1, 0));
    assert(n.cell(3, 1) == leaf_cell(c, 1, 1));
    assert(n.cell(2, 2) == leaf_cell(d, 0, 0));
    assert(n.cell(2, 3) == leaf_cell(d, 0, 1));
    assert(n.cell(3, 2) == leaf_cell(d, 1, 0));
    assert(n.cell(3, 3) == leaf_cell(d, 1, 1));
}

/// The table entry of a 4x4 square is its centre one generation later.
pub proof fn lemma_small_evolve(a: Leaf, b: Leaf, c: Leaf, d: Leaf)
    requires
        leaf_masked(a),
        leaf_masked(b),
        leaf_masked(c),
        leaf_masked(d),
    ensures
        pack_leafs(a, b, c, d) < 65536,
        center_after(leaf_node(a, b, c, d), Tree::Leaf(small_evolve(pack_leafs(a, b, c, d))), 1),
        center_future(leaf_node(a, b, c, d), Tree::Leaf(small_evolve(pack_leafs(a, b, c, d)))),
{
    let n = leaf_node(a, b, c, d);
    let x = pack_leafs(a, b, c, d);
    let r = small_evolve(x);
    let g = n.grid();
    lemma_pack_windows(a, b, c, d);
    lemma_grid_bits(a, b, c, d);
    lemma_window_rule(x & 0x777, g, 1, 1);
    lemma_window_rule((x >> 1) & 0x777, g, 1, 2);
    lemma_window_rule((x >> 4) & 0x777, g, 2, 1);
    lemma_window_rule((x >> 5) & 0x777, g, 2, 2);
    lemma_cells_of_leaf(
        window_alive(x & 0x777),
        window_alive((x >> 1) & 0x777),
        window_alive((x >> 4) & 0x777),
        window_alive((x >> 5) & 0x777),
    );
    lemma_leaf_node_cells(a, b, c, d);
    assert forall|v: int, u: int| 0 <= v < 2 && 0 <= u < 2 implies #[trigger] Tree::Leaf(r).cell(v, u)
        == evolve_cell(g, 1, v + 1, u + 1) by {
        assert((v == 0 || v == 1) && (u == 0 || u == 1));
    }
}

/// The centre of a 4x4 square of four masked leaves one generation later,
/// looked up in `table`.
pub fn evolve_leaf(table: &[u8; 65536], leafs: [[Leaf; 2]; 2]) -> (leaf: Leaf)
    requires
        forall|x: u32| x < 65536 ==> #[trigger] table[x as int] == small_evolve(x),
        leaf_masked(leafs[0][0]),
        leaf_masked(leafs[0][1]),
        leaf_masked(leafs[1][0]),
        leaf_masked(leafs[1][1]),
    ensures
        leaf == small_evolve(pack_leafs(leafs[0][0], leafs[0][1], leafs[1][0], leafs[1][1])),
        center_future(leaf_node(leafs[0][0], leafs[0][1], leafs[1][0], leafs[1][1]), Tree::Leaf(leaf)),
{
    proof {
        lemma_pack_windows(leafs[0][0], leafs[0][1], leafs[1][0], leafs[1][1]);
        lemma_small_evolve(leafs[0][0], leafs[0][1], leafs[1][0], leafs[1][1]);
    }
    let entry: u32 = leafs[0][0] as u32 + ((leafs[0][1] as u32) << 2) + ((leafs[1][0] as u32) << 8) + ((
    leafs[1][1] as u32) << 10);
    table[entry as usize]
}

/// The 2x2 centre of a 4x4 square of four leaves, as it is: no generation
/// passes.
pub fn leaf_step(leafs: [[Leaf; 2]; 2], nstep: u64) -> (leaf: Leaf)
    requires
        nstep == 0,
    ensures
        leaf == leaf_of_cells(
            leaf_cell(leafs[0][0], 1, 1),
            leaf_cell(leafs[0][1], 1, 0),
            leaf_cell(leafs[1][0], 0, 1),
            leaf_cell(leafs[1][1], 0, 0),
        ),
{
    let mut res: Leaf = 0;
    proof {
        lemma_dead_leaf(0);
    }
    res = put_cell(res, get_cell(leafs[0][0], 1, 1), 0, 0);
    res = put_cell(res, get_cell(leafs[0][1], 1, 0), 0, 1);
    res = put_cell(res, get_cell(leafs[1][0], 0, 1), 1, 0);
    res = put_cell(res, get_cell(leafs[1][1], 0, 0), 1, 1);
    proof {
        lemma_cells_of_leaf(
            leaf_cell(leafs[0][0], 1, 1),
            leaf_cell(leafs[0][1], 1, 0),
            leaf_cell(leafs[1][0], 0, 1),
            leaf_cell(leafs[1][1], 0, 0),
        );
        crate::leaf::lemma_leaf_ext(
            res,
            leaf_of_cells(
                leaf_cell(leafs[0][0], 1, 1),
                leaf_cell(leafs[0][1], 1, 0),
                leaf_cell(leafs[1][0], 0, 1),
                leaf_cell(leafs[1][1], 0, 0),
            ),
        );
    }
    res
}

/// `r` is the sub-block of `n` in row `y` and column `x` of the 3x3
/// arrangement of blocks of half the side of `n`, a quarter of that side
/// apart.
pub open spec fn is_subblock(n: Tree, r: Tree, y: int, x: int) -> bool {
    &&& r.lg_size() + 1 == n.lg_size()
    &&& window_after(n, r, 0, times(y, n.side() / 4), times(x, n.side() / 4))
}

/// The corners of a node, with what the cache knows of them.
fn corners_of(hl: &Hashlife, node: RawNode) -> (k: [[RawBlock; 2]; 2])
    requires
        hl.wf(),
        node.index < hl@.len(),
    ensures
        k == hl@[node.index as int].corners,
        corners_in_arena(hl@, k),
        hl.tree(RawBlock::Node(node)) == Tree::Node(
            Box::new(hl.tree(k[0][0])),
            Box::new(hl.tree(k[0][1])),
            Box::new(hl.tree(k[1][0])),
            Box::new(hl.tree(k[1][1])),
        ),
        forall|y: int, x: int|
            0 <= y < 2 && 0 <= x < 2 ==> hl.tree(#[trigger] k[y][x]) == hl.tree(RawBlock::Node(node)).child(
                y,
                x,
            ),
{
    proof {
        lemma_tree_of_node(hl@, node);
    }
    *hl.block_cache().heap_node(node).corners()
}

/// One cell of a node of four leaves, as the low bit of a leaf.
fn quarter_cell(k: &[[RawBlock; 2]; 2], yy: usize, xx: usize) -> (cell: Leaf)
    requires
        yy < 4,
        xx < 4,
        k[0][0] is Leaf,
        k[0][1] is Leaf,
        k[1][0] is Leaf,
        k[1][1] is Leaf,
    ensures
        cell <= 1,
        (cell == 1) == leaf_node(
            k[0][0]->Leaf_0,
            k[0][1]->Leaf_0,
            k[1][0]->Leaf_0,
            k[1][1]->Leaf_0,
        ).cell(yy as int, xx as int),
{
    let source_leaf = k[yy / 2][xx / 2].unwrap_leaf();
    proof {
        let n = leaf_node(k[0][0]->Leaf_0, k[0][1]->Leaf_0, k[1][0]->Leaf_0, k[1][1]->Leaf_0);
        lemma_leaf_node_cells(k[0][0]->Leaf_0, k[0][1]->Leaf_0, k[1][0]->Leaf_0, k[1][1]->Leaf_0);
        let _ = n.cell(yy as int % 2, xx as int % 2);
    }
    get_cell(source_leaf, yy % 2, xx % 2)
}

/// The sub-block of a node of leaves: a leaf put together from one cell of
/// each of up to four leaves.
fn subblock_leaf(hl: &Hashlife, node: RawNode, y: usize, x: usize) -> (r: RawBlock)
    requires
        hl.wf(),
        hl.sound_node(node),
        hl.tree(RawBlock::Node(node)).lg_size() == 2,
        y < 3,
        x < 3,
    ensures
        r is Leaf,
        hl.sound(r),
        is_subblock(hl.tree(RawBlock::Node(node)), hl.tree(r), y as int, x as int),
{
    let k = corners_of(hl, node);
    proof {
        lemma_block_kind(hl@, k[0][0]);
        lemma_block_kind(hl@, k[0][1]);
        lemma_block_kind(hl@, k[1][0]);
        lemma_block_kind(hl@, k[1][1]);
        lemma_dead_leaf(0);
    }
    let mut out: Leaf = 0;
    out = put_cell(out, quarter_cell(&k, y, x), 0, 0);
    out = put_cell(out, quarter_cell(&k, y, x + 1), 0, 1);
    out = put_cell(out, quarter_cell(&k, y + 1, x), 1, 0);
    out = put_cell(out, quarter_cell(&k, y + 1, x + 1), 1, 1);
    proof {
        let n = hl.tree(RawBlock::Node(node));
        lemma_leaf_node_cells(k[0][0]->Leaf_0, k[0][1]->Leaf_0, k[1][0]->Leaf_0, k[1][1]->Leaf_0);
        reveal_with_fuel(evolve_cell, 1);
        assert forall|v: int, u: int| 0 <= v < 2 && 0 <= u < 2 implies #[trigger] Tree::Leaf(out).cell(
            v,
            u,
        ) == evolve_cell(n.grid(), 0, v + y, u + x) by {
            assert((v == 0 || v == 1) && (u == 0 || u == 1));
        }
    }
    RawBlock::Leaf(out)
}

/// One of the sixteen grandchildren of a node of nodes.
fn grandchild_of(hl: &Hashlife, node: RawNode, yy: usize, xx: usize) -> (g: RawBlock)
    requires
        hl.wf(),
        hl.sound_node(node),
        hl.tree(RawBlock::Node(node)).lg_size() >= 3,
        yy < 4,
        xx < 4,
    ensures
        hl.contains(g),
        hl.tree(g) == hl.tree(RawBlock::Node(node)).grandchild(yy as int, xx as int),
{
    let k = corners_of(hl, node);
    let child_block = k[yy / 2][xx / 2];
    proof {
        lemma_child_window(hl.tree(RawBlock::Node(node)), yy as int / 2, xx as int / 2);
        lemma_block_kind(hl@, child_block);
    }
    let child = child_block.unwrap_node();
    let kk = corners_of(hl, child);
    kk[yy % 2][xx % 2]
}

/// The sub-block of a node of nodes: the node of four grandchildren.
fn subblock_node(hl: &mut Hashlife, node: RawNode, y: usize, x: usize) -> (r: Result<
    RawBlock,
    HashCollision,
>)
    requires
        old(hl).wf(),
        old(hl).sound_node(node),
        old(hl).tree(RawBlock::Node(node)).lg_size() >= 3,
        y < 3,
        x < 3,
    ensures
        final(hl).wf(),
        extends(old(hl)@, final(hl)@),
        r is Err ==> has_collision(final(hl)@),
        r matches Ok(b) ==> final(hl).sound(b) && is_subblock(
            old(hl).tree(RawBlock::Node(node)),
            final(hl).tree(b),
            y as int,
            x as int,
        ),
{
    let nw = grandchild_of(hl, node, y, x);
    let ne = grandchild_of(hl, node, y, x + 1);
    let sw = grandchild_of(hl, node, y + 1, x);
    let se = grandchild_of(hl, node, y + 1, x + 1);
    proof {
        let n = hl.tree(RawBlock::Node(node));
        lemma_grandchild_window(n, y as int, x as int);
        lemma_grandchild_window(n, y as int, x + 1);
        lemma_grandchild_window(n, y + 1, x as int);
        lemma_grandchild_window(n, y + 1, x + 1);
        lemma_window_assemble(
            n,
            hl.tree(nw),
            hl.tree(ne),
            hl.tree(sw),
            hl.tree(se),
            0,
            times(y as int, n.side() / 4),
            times(x as int, n.side() / 4),
        );
    }
    hl.raw_node_block([[nw, ne], [sw, se]])
}

/// The sub-block of `node` in row `y` and column `x`, for `y` and `x` in
/// `{0, 1, 2}`: the block of half the side of `node` whose north-west corner
/// is `y` quarters of that side south and `x` quarters east of the corner of
/// `node`.
pub fn subblock(hl: &mut Hashlife, node: RawNode, y: u8, x: u8) -> (r: Result<RawBlock, HashCollision>)
    requires
        old(hl).wf(),
        old(hl).sound_node(node),
        y < 3,
        x < 3,
    ensures
        final(hl).wf(),
        extends(old(hl)@, final(hl)@),
        r is Err ==> has_collision(final(hl)@),
        r matches Ok(b) ==> final(hl).sound(b) && is_subblock(
            old(hl).tree(RawBlock::Node(node)),
            final(hl).tree(b),
            y as int,
            x as int,
        ),
{
    let (x, y) = (x as usize, y as usize);
    proof {
        lemma_extends_trans(hl@, hl@, hl@);
        lemma_side(hl.tree(RawBlock::Node(node)));
        lemma_tree_of_node(hl@, node);
        lemma_side(hl.tree(hl@[node.index as int].corners[0][0]));
    }
    if x % 2 == 0 && y % 2 == 0 {
        let k = corners_of(hl, node);
        proof {
            lemma_child_window(hl.tree(RawBlock::Node(node)), y as int / 2, x as int / 2);
        }
        Ok(k[y / 2][x / 2])
    } else if hl.block_cache().heap_node(node).node_of_leafs() {
        proof {
            lemma_block_kind(hl@, hl@[node.index as int].corners[0][0]);
        }
        Ok(subblock_leaf(hl, node, y, x))
    } else {
        proof {
            lemma_block_kind(hl@, hl@[node.index as int].corners[0][0]);
        }
        subblock_node(hl, node, y, x)
    }
}

/// A quarter of the side of `n`.
pub open spec fn quarter(n: Tree) -> int {
    n.side() / 4
}

/// An eighth of the side of `n`.
pub open spec fn eighth(n: Tree) -> int {
    n.side() / 8
}

/// `p` is the block in row `i` and column `j` of the 3x3 arrangement of
/// blocks of a quarter of the side of `n` that covers `n` but for a margin
/// of an eighth of its side, `t` generations later.
pub open spec fn part_ok(c: Seq<NodeView>, p: RawBlock, n: Tree, t: nat, i: int, j: int) -> bool {
    &&& in_arena(c, p)
    &&& tree_of(c, p).lg_size() + 2 == n.lg_size()
    &&& window_after(
        n,
        tree_of(c, p),
        t,
        times(i, quarter(n)) + eighth(n),
        times(j, quarter(n)) + eighth(n),
    )
}

/// The first `done` blocks of `parts`, row by row, are in order.
pub open spec fn parts_ok(c: Seq<NodeView>, parts: [[RawBlock; 3]; 3], n: Tree, t: nat, done: int) -> bool {
    forall|i: int, j: int|
        0 <= i < 3 && 0 <= j < 3 && 3 * i + j < done ==> part_ok(c, #[trigger] parts[i][j], n, t, i, j)
}

/// `r` is the block in row `a` and column `b` of the 2x2 arrangement of
/// blocks of a quarter of the side of `n` that makes up the centre of `n`,
/// `t` generations later.
pub open spec fn comp_ok(c: Seq<NodeView>, r: RawBlock, n: Tree, t: nat, a: int, b: int) -> bool {
    &&& in_arena(c, r)
    &&& tree_of(c, r).lg_size() + 2 == n.lg_size()
    &&& window_after(
        n,
        tree_of(c, r),
        t,
        times(a, quarter(n)) + quarter(n),
        times(b, quarter(n)) + quarter(n),
    )
}

proof fn lemma_keep(c: Seq<NodeView>, d: Seq<NodeView>, b: RawBlock)
    requires
        extends(c, d),
        in_arena(c, b),
    ensures
        in_arena(d, b),
        tree_of(d, b) == tree_of(c, b),
{
    lemma_tree_extends(c, d, b);
}

proof fn lemma_parts_keep(
    c: Seq<NodeView>,
    d: Seq<NodeView>,
    parts: [[RawBlock; 3]; 3],
    n: Tree,
    t: nat,
    done: int,
)
    requires
        extends(c, d),
        parts_ok(c, parts, n, t, done),
    ensures
        parts_ok(d, parts, n, t, done),
{
    assert forall|i: int, j: int| 0 <= i < 3 && 0 <= j < 3 && 3 * i + j < done implies part_ok(
        d,
        #[trigger] parts[i][j],
        n,
        t,
        i,
        j,
    ) by {
        assert(part_ok(c, parts[i][j], n, t, i, j));
        lemma_keep(c, d, parts[i][j]);
    }
}

proof fn lemma_comp_keep(c: Seq<NodeView>, d: Seq<NodeView>, r: RawBlock, n: Tree, t: nat, a: int, b: int)
    requires
        extends(c, d),
        comp_ok(c, r, n, t, a, b),
    ensures
        comp_ok(d, r, n, t, a, b),
{
    lemma_keep(c, d, r);
}

/// The sizes that go with a node of nodes.
proof fn lemma_sizes(n: Tree, p: Tree)
    requires
        n.lg_size() >= 3,
    ensures
        n.side() == 8 * eighth(n),
        quarter(n) == 2 * eighth(n),
        eighth(n) >= 1,
        p.lg_size() + 2 == n.lg_size() ==> p.side() == quarter(n),
        p.lg_size() + 1 == n.lg_size() ==> p.side() == 2 * quarter(n),
{
    lemma_side_pow2(n);
    lemma_side_pow2(p);
    lemma_side(n);
    vstd::arithmetic::power2::lemma_pow2_pos((n.lg_size() - 3) as nat);
    if p.lg_size() + 1 == n.lg_size() {
        lemma_side_double(p, n);
    }
}

/// A block derived from the sub-block in row `i` and column `j`, as a part.
proof fn lemma_part(n: Tree, sub: Tree, m: Tree, t: nat, i: int, j: int)
    requires
        n.lg_size() >= 3,
        0 <= i < 3,
        0 <= j < 3,
        is_subblock(n, sub, i, j),
        center_after(sub, m, t) || (t == 0 && is_subblock(sub, m, 1, 1)),
    ensures
        m.lg_size() + 2 == n.lg_size(),
        window_after(n, m, t, times(i, quarter(n)) + eighth(n), times(j, quarter(n)) + eighth(n)),
{
    lemma_sizes(n, sub);
    lemma_sizes(n, m);
    lemma_side(sub);
    lemma_window_compose(
        n,
        sub,
        m,
        0,
        times(i, quarter(n)),
        times(j, quarter(n)),
        t,
        eighth(n),
        eighth(n),
    );
}

/// A block derived from the window in row `a` and column `b`, as a
/// component of the result.
proof fn lemma_comp(n: Tree, w: Tree, r: Tree, t1: nat, t2: nat, a: int, b: int)
    requires
        n.lg_size() >= 3,
        0 <= a < 2,
        0 <= b < 2,
        w.lg_size() + 1 == n.lg_size(),
        window_after(n, w, t1, times(a, quarter(n)) + eighth(n), times(b, quarter(n)) + eighth(n)),
        center_after(w, r, t2),
    ensures
        r.lg_size() + 2 == n.lg_size(),
        window_after(
            n,
            r,
            t1 + t2,
            times(a, quarter(n)) + quarter(n),
            times(b, quarter(n)) + quarter(n),
        ),
{
    lemma_sizes(n, w);
    lemma_sizes(n, r);
    lemma_window_compose(
        n,
        w,
        r,
        t1,
        times(a, quarter(n)) + eighth(n),
        times(b, quarter(n)) + eighth(n),
        t2,
        eighth(n),
        eighth(n),
    );
}

/// The node of the four parts in rows `a`, `a + 1` and columns `b`, `b + 1`.
fn window_node(
    hl: &mut Hashlife,
    parts: &[[RawBlock; 3]; 3],
    a: usize,
    b: usize,
    Ghost(n): Ghost<Tree>,
    Ghost(t): Ghost<nat>,
) -> (r: Result<RawNode, HashCollision>)
    requires
        old(hl).wf(),
        n.lg_size() >= 3,
        parts_ok(old(hl)@, *parts, n, t, 9),
        a < 2,
        b < 2,
    ensures
        final(hl).wf(),
        extends(old(hl)@, final(hl)@),
        r is Err ==> has_collision(final(hl)@),
        r matches Ok(w) ==> {
            &&& final(hl).sound_node(w)
            &&& final(hl).tree(RawBlock::Node(w)).lg_size() + 1 == n.lg_size()
            &&& window_after(
                n,
                final(hl).tree(RawBlock::Node(w)),
                t,
                times(a as int, quarter(n)) + eighth(n),
                times(b as int, quarter(n)) + eighth(n),
            )
        },
{
    let nw = parts[a][b];
    let ne = parts[a][b + 1];
    let sw = parts[a + 1][b];
    let se = parts[a + 1][b + 1];
    proof {
        let c = hl@;
        assert(part_ok(c, parts[a as int][b as int], n, t, a as int, b as int));
        assert(part_ok(c, parts[a as int][b + 1], n, t, a as int, b + 1));
        assert(part_ok(c, parts[a + 1][b as int], n, t, a + 1, b as int));
        assert(part_ok(c, parts[a + 1][b + 1], n, t, a + 1, b + 1));
        lemma_sizes(n, tree_of(c, nw));
        lemma_window_assemble(
            n,
            tree_of(c, nw),
            tree_of(c, ne),
            tree_of(c, sw),
            tree_of(c, se),
            t,
            times(a as int, quarter(n)) + eighth(n),
            times(b as int, quarter(n)) + eighth(n),
        );
    }
    hl.raw_node([[nw, ne], [sw, se]])
}

/// The node of the four components of a result.
fn finish_node(hl: &mut Hashlife, comps: [[RawBlock; 2]; 2], Ghost(n): Ghost<Tree>, Ghost(t): Ghost<nat>) -> (r:
    Result<RawBlock, HashCollision>)
    requires
        old(hl).wf(),
        n.lg_size() >= 3,
        comp_ok(old(hl)@, comps[0][0], n, t, 0, 0),
        comp_ok(old(hl)@, comps[0][1], n, t, 0, 1),
        comp_ok(old(hl)@, comps[1][0], n, t, 1, 0),
        comp_ok(old(hl)@, comps[1][1], n, t, 1, 1),
    ensures
        final(hl).wf(),
        extends(old(hl)@, final(hl)@),
        r is Err ==> has_collision(final(hl)@),
        r matches Ok(b) ==> final(hl).sound(b) && center_after(n, final(hl).tree(b), t),
{
    proof {
        let c = hl@;
        lemma_sizes(n, tree_of(c, comps[0][0]));
        lemma_window_assemble(
            n,
            tree_of(c, comps[0][0]),
            tree_of(c, comps[0][1]),
            tree_of(c, comps[1][0]),
            tree_of(c, comps[1][1]),
            t,
            quarter(n),
            quarter(n),
        );
    }
    hl.raw_node_block(comps)
}

/// The central block of `node`, half its side, after a quarter of its side
/// in generations. The result is kept with the node: a second call returns
/// it without computing anything.
pub fn evolve(hl: &mut Hashlife, node: RawNode) -> (r: Result<RawBlock, HashCollision>)
    requires
        old(hl).wf(),
        old(hl).sound_node(node),
    ensures
        final(hl).wf(),
        extends(old(hl)@, final(hl)@),
        r is Err ==> has_collision(final(hl)@),
        r matches Ok(b) ==> {
            &&& final(hl).sound(b)
            &&& center_future(old(hl).tree(RawBlock::Node(node)), final(hl).tree(b))
            &&& final(hl)@[node.index as int].future == Some(b)
        },
        old(hl)@[node.index as int].future matches Some(b) ==> r == Ok::<RawBlock, HashCollision>(b)
            && final(hl)@ == old(hl)@,
    decreases old(hl).tree(RawBlock::Node(node)).lg_size(), 2nat,
{
    let ghost c0 = hl@;
    let ghost n = hl.tree(RawBlock::Node(node));
    proof {
        lemma_extends_trans(c0, c0, c0);
        lemma_side(n);
        lemma_tree_of_node(c0, node);
        lemma_side(hl.tree(c0[node.index as int].corners[0][0]));
        lemma_block_kind(c0, c0[node.index as int].corners[0][0]);
    }
    match hl.cached_future(node) {
        Some(b) => {
            return Ok(b);
        },
        None => {},
    }
    let res = if hl.block_cache().heap_node(node).node_of_leafs() {
        let k = corners_of(hl, node);
        proof {
            lemma_block_kind(c0, k[0][1]);
            lemma_block_kind(c0, k[1][0]);
            lemma_block_kind(c0, k[1][1]);
            lemma_leaf_node_cells(k[0][0]->Leaf_0, k[0][1]->Leaf_0, k[1][0]->Leaf_0, k[1][1]->Leaf_0);
        }
        let leafs = [
            [k[0][0].unwrap_leaf(), k[0][1].unwrap_leaf()],
            [k[1][0].unwrap_leaf(), k[1][1].unwrap_leaf()],
        ];
        RawBlock::Leaf(evolve_leaf(hl.small_evolve_cache(), leafs))
    } else {
        let parts = nine_parts(hl, node, true)?;
        let ghost c4 = hl@;
        let finished = evolve_finish(hl, parts, Ghost(n));
        proof {
            lemma_extends_trans(c0, c4, hl@);
            lemma_keep(c0, hl@, RawBlock::Node(node));
        }
        finished?
    };
    let ghost c5 = hl@;
    proof {
        lemma_keep(c0, c5, RawBlock::Node(node));
    }
    match hl.cached_future(node) {
        None => {
            hl.store_future(node, res);
            proof {
                lemma_extends_trans(c0, c5, hl@);
                lemma_keep(c5, hl@, res);
            }
        },
        Some(known) => {
            proof {
                lemma_center_unique(n, tree_of(c5, known), tree_of(c5, res), (n.side() / 4) as nat);
                lemma_canonical(c5, known, res);
            }
        },
    }
    Ok(res)
}

/// The centre, half its side, of the square that nine blocks make up row by
/// row, after a quarter of the side of a block in generations: each of the
/// four nodes of 2x2 neighbouring blocks takes a big step, and the results
/// make up the node that is returned.
fn evolve_finish(hl: &mut Hashlife, parts: [[RawBlock; 3]; 3], Ghost(n): Ghost<Tree>) -> (r: Result<
    RawBlock,
    HashCollision,
>)
    requires
        old(hl).wf(),
        n.lg_size() >= 3,
        parts_ok(old(hl)@, parts, n, eighth(n) as nat, 9),
    ensures
        final(hl).wf(),
        extends(old(hl)@, final(hl)@),
        r is Err ==> has_collision(final(hl)@),
        r matches Ok(b) ==> final(hl).sound(b) && center_future(n, final(hl).tree(b)),
    decreases n.lg_size(), 0nat,
{
    let ghost c0 = hl@;
    let ghost t = eighth(n) as nat;
    let ghost total = quarter(n) as nat;
    proof {
        lemma_sizes(n, n);
    }
    let mut comps = [[RawBlock::Leaf(0); 2]; 2];
    let mut a: usize = 0;
    while a < 2
        invariant
            a <= 2,
            hl.wf(),
            c0 == old(hl)@,
            extends(c0, hl@),
            n.lg_size() >= 3,
            t == eighth(n),
            total == quarter(n),
            quarter(n) == 2 * eighth(n),
            parts_ok(hl@, parts, n, t, 9),
            forall|a2: int, b2: int|
                0 <= a2 < a && 0 <= b2 < 2 ==> comp_ok(hl@, #[trigger] comps[a2][b2], n, total, a2, b2),
        decreases 2 - a,
    {
        let mut b: usize = 0;
        while b < 2
            invariant
                a < 2,
                b <= 2,
                hl.wf(),
                c0 == old(hl)@,
                extends(c0, hl@),
                n.lg_size() >= 3,
                t == eighth(n),
                total == quarter(n),
                quarter(n) == 2 * eighth(n),
                parts_ok(hl@, parts, n, t, 9),
                forall|a2: int, b2: int|
                    0 <= a2 < 2 && 0 <= b2 < 2 && 2 * a2 + b2 < 2 * a + b ==> comp_ok(
                        hl@,
                        #[trigger] comps[a2][b2],
                        n,
                        total,
                        a2,
                        b2,
                    ),
            decreases 2 - b,
        {
            let ghost c1 = hl@;
            let window = window_node(hl, &parts, a, b, Ghost(n), Ghost(t));
            let ghost c2 = hl@;
            proof {
                lemma_extends_trans(c0, c1, c2);
            }
            let window = window?;
            let comp = evolve(hl, window);
            let ghost c3 = hl@;
            proof {
                lemma_extends_trans(c0, c2, c3);
                lemma_extends_trans(c1, c2, c3);
            }
            let comp = comp?;
            proof {
                let w = tree_of(c2, RawBlock::Node(window));
                lemma_sizes(n, w);
                lemma_comp(n, w, tree_of(c3, comp), t, t, a as int, b as int);
                lemma_parts_keep(c1, c3, parts, n, t, 9);
            }
            let ghost before = comps;
            comps[a][b] = comp;
            proof {
                assert forall|a2: int, b2: int|
                    0 <= a2 < 2 && 0 <= b2 < 2 && 2 * a2 + b2 < 2 * a + b + 1 implies comp_ok(
                    c3,
                    #[trigger] comps[a2][b2],
                    n,
                    total,
                    a2,
                    b2,
                ) by {
                    if a2 == a && b2 == b {
                    } else {
                        assert(comps[a2][b2] == before[a2][b2]);
                        assert(comp_ok(c1, before[a2][b2], n, total, a2, b2));
                        lemma_comp_keep(c1, c3, before[a2][b2], n, total, a2, b2);
                    }
                }
            }
            b += 1;
        }
        a += 1;
    }
    let ghost c4 = hl@;
    proof {
        assert(comp_ok(c4, comps[0][0], n, total, 0, 0));
        assert(comp_ok(c4, comps[0][1], n, total, 0, 1));
        assert(comp_ok(c4, comps[1][0], n, total, 1, 0));
        assert(comp_ok(c4, comps[1][1], n, total, 1, 1));
    }
    let res = finish_node(hl, comps, Ghost(n), Ghost(total));
    proof {
        lemma_extends_trans(c0, c4, hl@);
    }
    res
}

/// The nine parts of `node`: of each sub-block, the big step if `stepped`,
/// and else the centre as it is.
fn nine_parts(hl: &mut Hashlife, node: RawNode, stepped: bool) -> (r: Result<
    [[RawBlock; 3]; 3],
    HashCollision,
>)
    requires
        old(hl).wf(),
        old(hl).sound_node(node),
        old(hl).tree(RawBlock::Node(node)).lg_size() >= 3,
    ensures
        final(hl).wf(),
        extends(old(hl)@, final(hl)@),
        r is Err ==> has_collision(final(hl)@),
        r matches Ok(parts) ==> parts_ok(
            final(hl)@,
            parts,
            old(hl).tree(RawBlock::Node(node)),
            (if stepped {
                eighth(old(hl).tree(RawBlock::Node(node))) as nat
            } else {
                0nat
            }),
            9,
        ),
    decreases old(hl).tree(RawBlock::Node(node)).lg_size(), 1nat,
{
    let ghost c0 = hl@;
    let ghost n = hl.tree(RawBlock::Node(node));
    let ghost t = if stepped {
        eighth(n) as nat
    } else {
        0nat
    };
    proof {
        lemma_extends_trans(c0, c0, c0);
        lemma_sizes(n, n);
    }
    let mut parts = [[RawBlock::Leaf(0); 3]; 3];
    let mut i: u8 = 0;
    while i < 3
        invariant
            i <= 3,
            hl.wf(),
            extends(c0, hl@),
            hl.sound_node(node),
            c0 == old(hl)@,
            n == tree_of(c0, RawBlock::Node(node)),
            n.lg_size() >= 3,
            t == (if stepped {
                eighth(n) as nat
            } else {
                0nat
            }),
            parts_ok(hl@, parts, n, t, 3 * i),
        decreases 3 - i,
    {
        let mut j: u8 = 0;
        while j < 3
            invariant
                i < 3,
                j <= 3,
                hl.wf(),
                extends(c0, hl@),
                hl.sound_node(node),
                c0 == old(hl)@,
                n == tree_of(c0, RawBlock::Node(node)),
                n.lg_size() >= 3,
                t == (if stepped {
                    eighth(n) as nat
                } else {
                    0nat
                }),
                parts_ok(hl@, parts, n, t, 3 * i + j),
            decreases 3 - j,
        {
            let ghost c1 = hl@;
            proof {
                lemma_keep(c0, c1, RawBlock::Node(node));
            }
            let sub = subblock(hl, node, i, j);
            let ghost c2 = hl@;
            proof {
                lemma_extends_trans(c0, c1, c2);
            }
            let sub = sub?;
            proof {
                lemma_block_kind(c2, sub);
                lemma_sizes(n, tree_of(c2, sub));
            }
            let pre = sub.unwrap_node();
            let part = if stepped {
                evolve(hl, pre)
            } else {
                subblock(hl, pre, 1, 1)
            };
            let ghost c3 = hl@;
            proof {
                lemma_extends_trans(c0, c2, c3);
                lemma_extends_trans(c1, c2, c3);
                lemma_keep(c0, c3, RawBlock::Node(node));
            }
            let part = part?;
            proof {
                lemma_part(n, tree_of(c2, sub), tree_of(c3, part), t, i as int, j as int);
                lemma_parts_keep(c1, c3, parts, n, t, 3 * i + j);
            }
            let ghost before = parts;
            parts[i as usize][j as usize] = part;
            proof {
                assert forall|i2: int, j2: int|
                    0 <= i2 < 3 && 0 <= j2 < 3 && 3 * i2 + j2 < 3 * i + j + 1 implies part_ok(
                    c3,
                    #[trigger] parts[i2][j2],
                    n,
                    t,
                    i2,
                    j2,
                ) by {
                    if i2 == i && j2 == j {
                    } else {
                        assert(parts[i2][j2] == before[i2][j2]);
                        assert(part_ok(c3, before[i2][j2], n, t, i2, j2));
                    }
                }
            }
            j += 1;
        }
        i += 1;
    }
    Ok(parts)
}

/// The central block of `node`, half its side, after two to the power
/// `lognsteps` generations, for `lognsteps` up to the logarithm of the side
/// of `node` less two.
pub fn step_pow2(hl: &mut Hashlife, node: RawNode, lognsteps: usize) -> (r: Result<
    RawBlock,
    HashCollision,
>)
    requires
        old(hl).wf(),
        old(hl).sound_node(node),
        lognsteps + 2 <= old(hl).tree(RawBlock::Node(node)).lg_size(),
    ensures
        final(hl).wf(),
        extends(old(hl)@, final(hl)@),
        r is Err ==> has_collision(final(hl)@),
        r matches Ok(b) ==> final(hl).sound(b) && center_after(
            old(hl).tree(RawBlock::Node(node)),
            final(hl).tree(b),
            pow2(lognsteps as nat),
        ),
    decreases old(hl).tree(RawBlock::Node(node)).lg_size(),
{
    let ghost c0 = hl@;
    let ghost n = hl.tree(RawBlock::Node(node));
    let ghost t = pow2(lognsteps as nat);
    proof {
        lemma_extends_trans(c0, c0, c0);
        lemma_side_pow2(n);
    }
    let lg_size = RawBlock::Node(node).lg_size(hl.block_cache());
    if lognsteps == lg_size - 2 {
        evolve(hl, node)
    } else {
        proof {
            lemma_sizes(n, n);
            lemma_pow2_strictly_increases(lognsteps as nat, (n.lg_size() - 2) as nat);
            lemma_pow2_unfold((n.lg_size() - 2) as nat);
            if lognsteps + 3 < n.lg_size() {
                lemma_pow2_strictly_increases(lognsteps as nat, (n.lg_size() - 3) as nat);
            }
        }
        let parts = nine_parts(hl, node, false)?;
        let mut comps = [[RawBlock::Leaf(0); 2]; 2];
        let mut a: usize = 0;
        while a < 2
            invariant
                a <= 2,
                hl.wf(),
                c0 == old(hl)@,
                extends(c0, hl@),
                n.lg_size() >= 3,
                lognsteps + 3 <= n.lg_size(),
                n == tree_of(c0, RawBlock::Node(node)),
                t == pow2(lognsteps as nat),
                t <= eighth(n),
                parts_ok(hl@, parts, n, 0, 9),
                forall|a2: int, b2: int|
                    0 <= a2 < a && 0 <= b2 < 2 ==> comp_ok(hl@, #[trigger] comps[a2][b2], n, t, a2, b2),
            decreases 2 - a,
        {
            let mut b: usize = 0;
            while b < 2
                invariant
                    a < 2,
                    b <= 2,
                    hl.wf(),
                    c0 == old(hl)@,
                    extends(c0, hl@),
                    n.lg_size() >= 3,
                    lognsteps + 3 <= n.lg_size(),
                    n == tree_of(c0, RawBlock::Node(node)),
                    t == pow2(lognsteps as nat),
                    t <= eighth(n),
                    parts_ok(hl@, parts, n, 0, 9),
                    forall|a2: int, b2: int|
                        0 <= a2 < 2 && 0 <= b2 < 2 && 2 * a2 + b2 < 2 * a + b ==> comp_ok(
                            hl@,
                            #[trigger] comps[a2][b2],
                            n,
                            t,
                            a2,
                            b2,
                        ),
                decreases 2 - b,
            {
                let ghost c1 = hl@;
                let around = window_node(hl, &parts, a, b, Ghost(n), Ghost(0nat));
                let ghost c2 = hl@;
                proof {
                    lemma_extends_trans(c0, c1, c2);
                }
                let around = around?;
                let comp = step_pow2(hl, around, lognsteps);
                let ghost c3 = hl@;
                proof {
                    lemma_extends_trans(c0, c2, c3);
                    lemma_extends_trans(c1, c2, c3);
                }
                let comp = comp?;
                proof {
                    let w = tree_of(c2, RawBlock::Node(around));
                    lemma_comp(n, w, tree_of(c3, comp), 0, t, a as int, b as int);
                    lemma_parts_keep(c1, c3, parts, n, 0, 9);
                }
                let ghost before = comps;
                comps[a][b] = comp;
                proof {
                    assert forall|a2: int, b2: int|
                        0 <= a2 < 2 && 0 <= b2 < 2 && 2 * a2 + b2 < 2 * a + b + 1 implies comp_ok(
                        c3,
                        #[trigger] comps[a2][b2],
                        n,
                        t,
                        a2,
                        b2,
                    ) by {
                        if a2 == a && b2 == b {
                        } else {
                            assert(comps[a2][b2] == before[a2][b2]);
                            assert(comp_ok(c1, before[a2][b2], n, t, a2, b2));
                            lemma_comp_keep(c1, c3, before[a2][b2], n, t, a2, b2);
                        }
                    }
                }
                b += 1;
            }
            a += 1;
        }
        let ghost c4 = hl@;
        proof {
            assert(comp_ok(c4, comps[0][0], n, t, 0, 0));
            assert(comp_ok(c4, comps[0][1], n, t, 0, 1));
            assert(comp_ok(c4, comps[1][0], n, t, 1, 0));
            assert(comp_ok(c4, comps[1][1], n, t, 1, 1));
        }
        let res = finish_node(hl, comps, Ghost(n), Ghost(t));
        proof {
            lemma_extends_trans(c0, c4, hl@);
        }
        res
    }
}

/// The highest bit of a step count below two to the power `shift + 1`, and
/// the rest of it.
fn split_steps(nsteps: u64, shift: usize) -> (r: (u64, u64))
    requires
        nsteps < pow2((shift + 1) as nat),
    ensures
        r.0 <= 1,
        r.1 < pow2(shift as nat),
        nsteps == (if r.0 == 1 {
            pow2(shift as nat) + r.1
        } else {
            r.1 as int
        }),
{
    proof {
        lemma2_to64();
        lemma2_to64_rest();
        lemma_pow2_unfold((shift + 1) as nat);
        lemma_pow2_pos(shift as nat);
    }
    if shift >= 64 {
        proof {
            if shift > 64 {
                lemma_pow2_strictly_increases(64, shift as nat);
            }
        }
        (0, nsteps)
    } else {
        let s = shift as u64;
        proof {
            lemma_u64_shr_is_div(nsteps, s);
            vstd::bits::lemma_u64_pow2_no_overflow(shift as nat);
            lemma_u64_shl_is_mul(1, s);
            lemma_u64_low_bits_mask_is_mod(nsteps, shift as nat);
            let p = pow2(shift as nat) as int;
            assert(nsteps as int == p * (nsteps as int / p) + nsteps as int % p) by {
                vstd::arithmetic::div_mod::lemma_fundamental_div_mod(nsteps as int, p);
            }
            assert(nsteps as int / p <= 1) by {
                if nsteps as int / p >= 2 {
                    vstd::arithmetic::mul::lemma_mul_inequality(2, nsteps as int / p, p);
                    vstd::arithmetic::mul::lemma_mul_is_commutative(p, nsteps as int / p);
                }
            }
            assert(0 <= nsteps as int / p) by {
                vstd::arithmetic::div_mod::lemma_div_pos_is_pos(nsteps as int, p);
            }
            assert(0 <= nsteps as int % p < p) by {
                vstd::arithmetic::div_mod::lemma_mod_pos_bound(nsteps as int, p);
            }
            assert(p * (nsteps as int / p) == (if nsteps as int / p == 1 {
                p
            } else {
                0
            })) by {
                vstd::arithmetic::mul::lemma_mul_basics(p);
            }
        }
        let ho_bit = nsteps >> s;
        let rem = nsteps & ((1u64 << s) - 1);
        (ho_bit, rem)
    }
}

/// The central block of `node`, half its side, after `nsteps` generations,
/// for a node whose side is two to the power `depth + 2` and for `nsteps`
/// below two to the power `depth`.
pub fn step(hl: &mut Hashlife, node: RawNode, depth: usize, nsteps: u64) -> (r: Result<
    RawBlock,
    HashCollision,
>)
    requires
        old(hl).wf(),
        old(hl).sound_node(node),
        depth + 2 == old(hl).tree(RawBlock::Node(node)).lg_size(),
        nsteps < pow2(depth as nat),
    ensures
        final(hl).wf(),
        extends(old(hl)@, final(hl)@),
        r is Err ==> has_collision(final(hl)@),
        r matches Ok(b) ==> final(hl).sound(b) && center_after(
            old(hl).tree(RawBlock::Node(node)),
            final(hl).tree(b),
            nsteps as nat,
        ),
    decreases depth,
{
    let ghost c0 = hl@;
    let ghost n = hl.tree(RawBlock::Node(node));
    proof {
        lemma_extends_trans(c0, c0, c0);
        lemma_side_pow2(n);
        lemma2_to64();
    }
    if depth == 0 {
        let k = corners_of(hl, node);
        proof {
            lemma_block_kind(c0, k[0][0]);
            lemma_block_kind(c0, k[0][1]);
            lemma_block_kind(c0, k[1][0]);
            lemma_block_kind(c0, k[1][1]);
        }
        let corners = [
            [k[0][0].unwrap_leaf(), k[0][1].unwrap_leaf()],
            [k[1][0].unwrap_leaf(), k[1][1].unwrap_leaf()],
        ];
        let leaf = leaf_step(corners, nsteps);
        proof {
            let a = corners[0][0];
            let b = corners[0][1];
            let c = corners[1][0];
            let d = corners[1][1];
            lemma_leaf_node_cells(a, b, c, d);
            lemma_cells_of_leaf(
                leaf_cell(a, 1, 1),
                leaf_cell(b, 1, 0),
                leaf_cell(c, 0, 1),
                leaf_cell(d, 0, 0),
            );
            reveal_with_fuel(evolve_cell, 1);
            assert(n.cell(1, 1) == leaf_cell(a, 1, 1));
            assert(n.cell(1, 0) == leaf_cell(a, 1, 0));
            assert(n.cell(0, 1) == leaf_cell(a, 0, 1));
            assert(n.cell(0, 0) == leaf_cell(a, 0, 0));
            assert forall|v: int, u: int| 0 <= v < 2 && 0 <= u < 2 implies #[trigger] Tree::Leaf(
                leaf,
            ).cell(v, u) == evolve_cell(n.grid(), 0, v + 1, u + 1) by {
                assert((v == 0 || v == 1) && (u == 0 || u == 1));
            }
        }
        Ok(RawBlock::Leaf(leaf))
    } else {
        proof {
            lemma_sizes(n, n);
            lemma_lg_bound(c0, RawBlock::Node(node));
        }
        let ho_shift = depth + crate::leaf::LG_LEAF_SIZE - 2;
        let (ho_bit, rem) = split_steps(nsteps, ho_shift);
        let ghost t1: nat = if ho_bit == 1 {
            eighth(n) as nat
        } else {
            0nat
        };
        let parts = nine_parts(hl, node, ho_bit == 1)?;
        let mut comps = [[RawBlock::Leaf(0); 2]; 2];
        let mut a: usize = 0;
        while a < 2
            invariant
                a <= 2,
                hl.wf(),
                c0 == old(hl)@,
                extends(c0, hl@),
                n.lg_size() >= 3,
                depth + 2 == n.lg_size(),
                rem < pow2((depth - 1) as nat),
                t1 + rem == nsteps,
                parts_ok(hl@, parts, n, t1, 9),
                forall|a2: int, b2: int|
                    0 <= a2 < a && 0 <= b2 < 2 ==> comp_ok(
                        hl@,
                        #[trigger] comps[a2][b2],
                        n,
                        nsteps as nat,
                        a2,
                        b2,
                    ),
            decreases 2 - a,
        {
            let mut b: usize = 0;
            while b < 2
                invariant
                    a < 2,
                    b <= 2,
                    hl.wf(),
                    c0 == old(hl)@,
                    extends(c0, hl@),
                    n.lg_size() >= 3,
                    depth + 2 == n.lg_size(),
                    rem < pow2((depth - 1) as nat),
                    t1 + rem == nsteps,
                    parts_ok(hl@, parts, n, t1, 9),
                    forall|a2: int, b2: int|
                        0 <= a2 < 2 && 0 <= b2 < 2 && 2 * a2 + b2 < 2 * a + b ==> comp_ok(
                            hl@,
                            #[trigger] comps[a2][b2],
                            n,
                            nsteps as nat,
                            a2,
                            b2,
                        ),
                decreases 2 - b,
            {
                let ghost c1 = hl@;
                let pre_res = window_node(hl, &parts, a, b, Ghost(n), Ghost(t1));
                let ghost c2 = hl@;
                proof {
                    lemma_extends_trans(c0, c1, c2);
                }
                let pre_res = pre_res?;
                let comp = step(hl, pre_res, depth - 1, rem);
                let ghost c3 = hl@;
                proof {
                    lemma_extends_trans(c0, c2, c3);
                    lemma_extends_trans(c1, c2, c3);
                }
                let comp = comp?;
                proof {
                    let w = tree_of(c2, RawBlock::Node(pre_res));
                    lemma_comp(n, w, tree_of(c3, comp), t1, rem as nat, a as int, b as int);
                    lemma_parts_keep(c1, c3, parts, n, t1, 9);
                }
                let ghost before = comps;
                comps[a][b] = comp;
                proof {
                    assert forall|a2: int, b2: int|
                        0 <= a2 < 2 && 0 <= b2 < 2 && 2 * a2 + b2 < 2 * a + b + 1 implies comp_ok(
                        c3,
                        #[trigger] comps[a2][b2],
                        n,
                        nsteps as nat,
                        a2,
                        b2,
                    ) by {
                        if a2 == a && b2 == b {
                        } else {
                            assert(comps[a2][b2] == before[a2][b2]);
                            assert(comp_ok(c1, before[a2][b2], n, nsteps as nat, a2, b2));
                            lemma_comp_keep(c1, c3, before[a2][b2], n, nsteps as nat, a2, b2);
                        }
                    }
                }
                b += 1;
            }
            a += 1;
        }
        let ghost c4 = hl@;
        proof {
            assert(comp_ok(c4, comps[0][0], n, nsteps as nat, 0, 0));
            assert(comp_ok(c4, comps[0][1], n, nsteps as nat, 0, 1));
            assert(comp_ok(c4, comps[1][0], n, nsteps as nat, 1, 0));
            assert(comp_ok(c4, comps[1][1], n, nsteps as nat, 1, 1));
        }
        let res = finish_node(hl, comps, Ghost(n), Ghost(nsteps as nat));
        proof {
            lemma_extends_trans(c0, c4, hl@);
        }
        res
    }
}

} // verus!
