//! Blocks as text in the RLE format.

use vstd::prelude::*;
use crate::{Block, Hashlife};
use crate::block::{Block as RawBlock, rank, lemma_tree_of_node};
use crate::leaf::{Leaf, LEAF_SIZE, leaf_cell, get_cell};
use crate::tree::{Tree, lemma_side, lemma_side_of_lg};
use super::parse::{RLEToken, RLEBuf, State};

verus! {

/// The state of a cell that is alive or not.
pub open spec fn state_of(alive: bool) -> State {
    if alive {
        State::Alive
    } else {
        State::Dead
    }
}

/// The cells of a tree, as `matrix[y][x]`.
pub open spec fn matrix_of(t: Tree) -> Seq<Seq<State>> {
    Seq::new(t.side() as nat, |y: int| Seq::new(t.side() as nat, |x: int| state_of(t.cell(y, x))))
}

/// The rows of a vector of rows.
pub open spec fn deep<A>(m: Seq<Vec<A>>) -> Seq<Seq<A>> {
    m.map_values(|row: Vec<A>| row@)
}

/// The cells of a leaf, as `matrix[y][x]`.
pub fn leaf_to_matrix(leaf: Leaf) -> (m: [[State; 2]; 2])
    ensures
        forall|y: int, x: int| 0 <= y < 2 && 0 <= x < 2 ==> #[trigger] m[y][x] == state_of(leaf_cell(leaf, y, x)),
{
    let mut res = [[State::Dead; 2]; 2];
    let mut y: usize = 0;
    while y < LEAF_SIZE
        invariant
            y <= LEAF_SIZE,
            forall|v: int, u: int|
                0 <= v < y && 0 <= u < 2 ==> #[trigger] res[v][u] == state_of(leaf_cell(leaf, v, u)),
        decreases LEAF_SIZE - y,
    {
        let mut x: usize = 0;
        while x < LEAF_SIZE
            invariant
                y < LEAF_SIZE,
                x <= LEAF_SIZE,
                forall|v: int, u: int|
                    0 <= v < 2 && 0 <= u < 2 && (v < y || (v == y && u < x)) ==> #[trigger] res[v][u] == state_of(
                        leaf_cell(leaf, v, u),
                    ),
            decreases LEAF_SIZE - x,
        {
            let ghost before = res;
            res[y][x] = bit(leaf, y, x);
            proof {
                assert forall|v: int, u: int|
                    0 <= v < 2 && 0 <= u < 2 && (v < y || (v == y && u < x + 1)) implies #[trigger] res[v][u]
                    == state_of(leaf_cell(leaf, v, u)) by {
                    if v == y && u == x {
                    } else {
                        assert(res[v][u] == before[v][u]);
                    }
                }
            }
            x += 1;
        }
        y += 1;
    }
    res
}

/// The state of the cell in row `y` and column `x` of a leaf.
fn bit(leaf: Leaf, y: usize, x: usize) -> (state: State)
    requires
        y < 2,
        x < 2,
    ensures
        state == state_of(leaf_cell(leaf, y as int, x as int)),
{
    if get_cell(leaf, y, x) == 0 {
        State::Dead
    } else {
        State::Alive
    }
}

/// The rows of `top` and then the rows of `bottom`.
pub fn merge_rows<A>(top: Vec<Vec<A>>, bottom: Vec<Vec<A>>) -> (r: Vec<Vec<A>>)
    ensures
        r@ == top@ + bottom@,
{
    let mut top = top;
    let mut bottom = bottom;
    top.append(&mut bottom);
    top
}

/// The matrix whose rows are the rows of `left`, each with the row of
/// `right` at the same place after it.
pub fn merge_columns<A>(left: Vec<Vec<A>>, right: Vec<Vec<A>>) -> (r: Vec<Vec<A>>)
    requires
        left@.len() == right@.len(),
    ensures
        r@.len() == left@.len(),
        forall|y: int| 0 <= y < r@.len() ==> (#[trigger] r@[y])@ == left@[y]@ + right@[y]@,
{
    let ghost l0 = left@;
    let ghost r0 = right@;
    let mut left = left;
    let mut right = right;
    let mut reversed: Vec<Vec<A>> = Vec::new();
    while left.len() > 0
        invariant
            left@.len() == right@.len(),
            left@.len() + reversed@.len() == l0.len(),
            l0.len() == r0.len(),
            forall|y: int| 0 <= y < left@.len() ==> #[trigger] left@[y] == l0[y],
            forall|y: int| 0 <= y < right@.len() ==> #[trigger] right@[y] == r0[y],
            forall|k: int|
                0 <= k < reversed@.len() ==> (#[trigger] reversed@[k])@ == l0[l0.len() - 1 - k]@ + r0[l0.len()
                    - 1 - k]@,
        decreases left@.len(),
    {
        let left_row = left.pop();
        let right_row = right.pop();
        match (left_row, right_row) {
            (Some(left_row), Some(right_row)) => {
                let mut left_row = left_row;
                let mut right_row = right_row;
                left_row.append(&mut right_row);
                reversed.push(left_row);
            },
            _ => {},
        }
    }
    let mut out: Vec<Vec<A>> = Vec::new();
    while reversed.len() > 0
        invariant
            out@.len() + reversed@.len() == l0.len(),
            l0.len() == r0.len(),
            forall|k: int|
                0 <= k < reversed@.len() ==> (#[trigger] reversed@[k])@ == l0[l0.len() - 1 - k]@ + r0[l0.len()
                    - 1 - k]@,
            forall|y: int| 0 <= y < out@.len() ==> (#[trigger] out@[y])@ == l0[y]@ + r0[y]@,
        decreases reversed@.len(),
    {
        match reversed.pop() {
            Some(row) => {
                out.push(row);
            },
            None => {},
        }
    }
    out
}

/// The cells of a block whose nodes have four children of the same size, as
/// `matrix[y][x]`.
pub fn block_to_matrix(block: &RawBlock, hl: &Hashlife) -> (m: Vec<Vec<State>>)
    requires
        hl.wf(),
        hl.contains(*block),
        hl.tree(*block).uniform(),
    ensures
        deep(m@) == matrix_of(hl.tree(*block)),
    decreases rank(*block),
{
    let ghost t = hl.tree(*block);
    match *block {
        RawBlock::Leaf(leaf) => {
            let cells = leaf_to_matrix(leaf);
            let mut m: Vec<Vec<State>> = Vec::new();
            let mut y: usize = 0;
            while y < LEAF_SIZE
                invariant
                    y <= LEAF_SIZE,
                    m@.len() == y,
                    forall|v: int, u: int|
                        0 <= v < 2 && 0 <= u < 2 ==> #[trigger] cells[v][u] == state_of(leaf_cell(leaf, v, u)),
                    forall|v: int| 0 <= v < y ==> (#[trigger] m@[v])@.len() == 2,
                    forall|v: int, u: int| 0 <= v < y && 0 <= u < 2 ==> #[trigger] m@[v]@[u] == cells[v][u],
                decreases LEAF_SIZE - y,
            {
                let mut row: Vec<State> = Vec::new();
                row.push(cells[y][0]);
                row.push(cells[y][1]);
                let ghost before = m@;
                m.push(row);
                proof {
                    assert forall|v: int, u: int| 0 <= v < y + 1 && 0 <= u < 2 implies #[trigger] m@[v]@[u]
                        == cells[v][u] by {
                        if v < y {
                            assert(m@[v] == before[v]);
                        }
                    }
                }
                y += 1;
            }
            proof {
                let d = deep(m@);
                let want = matrix_of(t);
                assert(d.len() == want.len());
                assert forall|v: int| 0 <= v < d.len() implies d[v] =~= want[v] by {
                    assert(d[v] == m@[v]@);
                    assert forall|u: int| 0 <= u < 2 implies d[v][u] == want[v][u] by {
                        assert(m@[v]@[u] == cells[v][u]);
                    }
                }
                assert(d =~= want);
            }
            m
        },
        RawBlock::Node(node) => {
            proof {
                lemma_tree_of_node(hl@, node);
            }
            let corners = hl.block_cache().heap_node(node).corners();
            let nw = block_to_matrix(&corners[0][0], hl);
            let ne = block_to_matrix(&corners[0][1], hl);
            let sw = block_to_matrix(&corners[1][0], hl);
            let se = block_to_matrix(&corners[1][1], hl);
            let ghost tnw = hl.tree(corners[0][0]);
            let ghost tne = hl.tree(corners[0][1]);
            let ghost tsw = hl.tree(corners[1][0]);
            let ghost tse = hl.tree(corners[1][1]);
            let ghost h = tnw.side();
            proof {
                lemma_side(tnw);
                lemma_side_of_lg(tne, tnw);
                lemma_side_of_lg(tsw, tnw);
                lemma_side_of_lg(tse, tnw);
                assert(deep(nw@).len() == h);
                assert(deep(ne@).len() == h);
                assert(deep(sw@).len() == h);
                assert(deep(se@).len() == h);
            }
            let north = merge_columns(nw, ne);
            let south = merge_columns(sw, se);
            let m = merge_rows(north, south);
            proof {
                let d = deep(m@);
                let want = matrix_of(t);
                assert(d.len() == want.len());
                assert forall|v: int| 0 <= v < d.len() implies d[v] =~= want[v] by {
                    assert(d[v] == m@[v]@);
                    if v < h {
                        assert(m@[v] == north@[v]);
                        assert(north@[v]@ == nw@[v]@ + ne@[v]@);
                        assert(deep(nw@)[v] == nw@[v]@);
                        assert(deep(ne@)[v] == ne@[v]@);
                        assert(matrix_of(tnw)[v].len() == h);
                        assert forall|u: int| 0 <= u < 2 * h implies d[v][u] == want[v][u] by {
                            if u < h {
                                assert(matrix_of(tnw)[v][u] == state_of(tnw.cell(v, u)));
                            } else {
                                assert(matrix_of(tne)[v][u - h] == state_of(tne.cell(v, u - h)));
                            }
                        }
                    } else {
                        assert(m@[v] == south@[v - h]);
                        assert(south@[v - h]@ == sw@[v - h]@ + se@[v - h]@);
                        assert(deep(sw@)[v - h] == sw@[v - h]@);
                        assert(deep(se@)[v - h] == se@[v - h]@);
                        assert(matrix_of(tsw)[v - h].len() == h);
                        assert forall|u: int| 0 <= u < 2 * h implies d[v][u] == want[v][u] by {
                            if u < h {
                                assert(matrix_of(tsw)[v - h][u] == state_of(tsw.cell(v - h, u)));
                            } else {
                                assert(matrix_of(tse)[v - h][u - h] == state_of(tse.cell(v - h, u - h)));
                            }
                        }
                    }
                }
                assert(d =~= want);
            }
            m
        },
    }
}

/// The position after the last live cell among the first `n` cells of
/// `line`; zero if there is none.
pub open spec fn live_len(line: Seq<State>, n: int) -> int
    decreases n,
{
    if n <= 0 {
        0
    } else if line[n - 1] == State::Alive {
        n
    } else {
        live_len(line, n - 1)
    }
}

/// The runs of equal cells that the first `n` cells of `line` fall into,
/// each with its length.
pub open spec fn spec_runs(line: Seq<State>, n: int) -> Seq<(usize, RLEToken)>
    decreases n,
{
    if n <= 0 {
        Seq::empty()
    } else {
        let prev = spec_runs(line, n - 1);
        if n >= 2 && line[n - 1] == line[n - 2] {
            prev.drop_last().push(((prev.last().0 + 1) as usize, prev.last().1))
        } else {
            prev.push((1usize, RLEToken::State(line[n - 1])))
        }
    }
}

/// The tokens of a row: its runs up to its last live cell.
pub open spec fn spec_row_tokens(line: Seq<State>) -> Seq<(usize, RLEToken)> {
    spec_runs(line, live_len(line, line.len() as int))
}

/// The tokens of a matrix of cells, with the width and the height of the
/// area that they describe.
pub struct RLEData {
    pub rle: RLEBuf,
    pub xsize: usize,
    pub ysize: usize,
}

/// What the first rows of a matrix have come to: the tokens so far, the
/// number of row ends that the next live row has to be preceded by, and the
/// height and width so far.
pub struct RLEState {
    pub tokens: Seq<(usize, RLEToken)>,
    pub pending: nat,
    pub ymax: nat,
    pub xmax: nat,
}

/// What the first `n` rows of `matrix` come to. A row without a live cell
/// adds a pending row end. A row with a live cell adds the pending row
/// ends, if there are any, as one token, and then its own tokens; the
/// height grows by the pending row ends, and one row end is pending after
/// it.
pub open spec fn spec_rle_state(matrix: Seq<Seq<State>>, n: int) -> RLEState
    decreases n,
{
    if n <= 0 {
        RLEState { tokens: Seq::empty(), pending: 0, ymax: 1, xmax: 0 }
    } else {
        let prev = spec_rle_state(matrix, n - 1);
        let line = matrix[n - 1];
        let xlen = live_len(line, line.len() as int);
        if xlen == 0 {
            RLEState { tokens: prev.tokens, pending: prev.pending + 1, ymax: prev.ymax, xmax: prev.xmax }
        } else {
            RLEState {
                tokens: (if prev.pending > 0 {
                    prev.tokens.push((prev.pending as usize, RLEToken::EndLine))
                } else {
                    prev.tokens
                }) + spec_row_tokens(line),
                pending: 1,
                ymax: prev.ymax + prev.pending,
                xmax: if xlen > prev.xmax {
                    xlen as nat
                } else {
                    prev.xmax
                },
            }
        }
    }
}

/// The tokens of a matrix: those of its rows, and the end of the pattern.
pub open spec fn spec_matrix_to_rle(matrix: Seq<Seq<State>>) -> (Seq<(usize, RLEToken)>, nat, nat) {
    let end = spec_rle_state(matrix, matrix.len() as int);
    (end.tokens.push((1usize, RLEToken::EndBlock)), end.xmax, end.ymax)
}

/// The height and the pending row ends count rows, the width counts cells
/// of a row, and a row with a live cell has tokens.
pub proof fn lemma_rle_state(matrix: Seq<Seq<State>>, n: int)
    requires
        0 <= n <= matrix.len(),
    ensures
        spec_rle_state(matrix, n).ymax + spec_rle_state(matrix, n).pending <= n + 1,
        spec_rle_state(matrix, n).ymax >= 1,
        n >= 1 ==> spec_rle_state(matrix, n).pending >= 1,
    decreases n,
{
    if n > 0 {
        lemma_rle_state(matrix, n - 1);
    }
}

/// The position after the last live cell is no more than the length.
pub proof fn lemma_live_len(line: Seq<State>, n: int)
    requires
        0 <= n,
    ensures
        0 <= live_len(line, n) <= n,
    decreases n,
{
    if n > 0 {
        lemma_live_len(line, n - 1);
    }
}

/// The tokens of a row, and the position after its last live cell.
pub fn row_tokens(line: &Vec<State>) -> (r: (RLEBuf, usize))
    ensures
        r.0@ == spec_row_tokens(line@),
        r.1 == live_len(line@, line@.len() as int),
{
    let mut res: RLEBuf = Vec::new();
    let mut run_val = State::Dead;
    let mut run_len: usize = 0;
    let mut k: usize = 0;
    while k < line.len()
        invariant
            k <= line@.len(),
            run_len <= k,
            run_len == 0 ==> k == 0 && run_val == State::Dead,
            run_len > 0 ==> line@[k - 1] == run_val,
            res@ == spec_runs(line@, k - run_len),
            run_len > 0 ==> spec_runs(line@, k as int) == res@.push((run_len, RLEToken::State(run_val))),
            run_val == State::Dead ==> live_len(line@, k as int) == k - run_len,
            run_val == State::Alive ==> live_len(line@, k as int) == k,
        decreases line@.len() - k,
    {
        let state = line[k];
        if state == run_val {
            proof {
                if run_len > 0 {
                    let prev = spec_runs(line@, k as int);
                    assert(prev.drop_last() =~= res@);
                }
            }
            run_len += 1;
        } else {
            if run_len > 0 {
                res.push((run_len, RLEToken::State(run_val)));
            }
            run_val = state;
            run_len = 1;
        }
        k += 1;
    }
    if run_val != State::Dead {
        res.push((run_len, RLEToken::State(run_val)));
        (res, k)
    } else {
        (res, k - run_len)
    }
}

/// The tokens of a matrix of cells, as `matrix[y][x]`, with the width and
/// the height of the area that they describe.
pub fn matrix_to_rle(matrix: Vec<Vec<State>>) -> (data: RLEData)
    ensures
        (data.rle@, data.xsize as nat, data.ysize as nat) == spec_matrix_to_rle(deep(matrix@)),
{
    let ghost m = deep(matrix@);
    let mut res: RLEBuf = Vec::new();
    let mut blank_lines: usize = 0;
    let mut xmax: usize = 0;
    let mut ymax: usize = 1;
    let mut y: usize = 0;
    while y < matrix.len()
        invariant
            y <= matrix@.len(),
            m == deep(matrix@),
            res@ == spec_rle_state(m, y as int).tokens,
            blank_lines == spec_rle_state(m, y as int).pending,
            xmax == spec_rle_state(m, y as int).xmax,
            ymax == spec_rle_state(m, y as int).ymax,
        decreases matrix@.len() - y,
    {
        proof {
            assert(m[y as int] == matrix@[y as int]@);
            lemma_rle_state(m, y as int);
            lemma_live_len(m[y as int], m[y as int].len() as int);
        }
        let (tokens, xlen) = row_tokens(&matrix[y]);
        if xlen == 0 {
            blank_lines += 1;
        } else {
            if blank_lines > 0 {
                res.push((blank_lines, RLEToken::EndLine));
                ymax += blank_lines;
            }
            let ghost before = res@;
            let mut k: usize = 0;
            while k < tokens.len()
                invariant
                    k <= tokens@.len(),
                    res@ == before + tokens@.take(k as int),
                decreases tokens@.len() - k,
            {
                res.push(tokens[k]);
                proof {
                    assert(tokens@.take(k + 1) =~= tokens@.take(k as int).push(tokens@[k as int]));
                    assert(before + tokens@.take(k + 1) =~= (before + tokens@.take(k as int)).push(
                        tokens@[k as int],
                    ));
                }
                k += 1;
            }
            proof {
                assert(tokens@.take(tokens@.len() as int) =~= tokens@);
            }
            blank_lines = 1;
            if xlen > xmax {
                xmax = xlen;
            }
        }
        y += 1;
    }
    res.push((1, RLEToken::EndBlock));
    RLEData { rle: res, xsize: xmax, ysize: ymax }
}

/// The decimal digits of `n`, as bytes.
pub open spec fn spec_decimal_bytes(n: nat) -> Seq<u8>
    decreases n,
{
    if n < 10 {
        seq![(48 + n) as u8]
    } else {
        spec_decimal_bytes(n / 10).push((48 + n % 10) as u8)
    }
}

/// The byte that stands for a token.
pub open spec fn spec_token_char(token: RLEToken) -> u8 {
    match token {
        RLEToken::State(State::Alive) => 111,
        RLEToken::State(State::Dead) => 98,
        RLEToken::EndLine => 36,
        RLEToken::EndBlock => 33,
    }
}

/// The bytes of a token that is repeated `len` times: the number, unless it
/// is one, and the byte of the token.
pub open spec fn spec_token_bytes(len: usize, token: RLEToken) -> Seq<u8> {
    (if len == 1 {
        Seq::empty()
    } else {
        spec_decimal_bytes(len as nat)
    }).push(spec_token_char(token))
}

/// The bytes of the first `n` tokens, broken into lines of at most 79
/// bytes, and the length of the last line.
pub open spec fn spec_body(tokens: Seq<(usize, RLEToken)>, n: int) -> (Seq<u8>, nat)
    decreases n,
{
    if n <= 0 {
        (Seq::empty(), 0)
    } else {
        let (bytes, line_len) = spec_body(tokens, n - 1);
        let token = spec_token_bytes(tokens[n - 1].0, tokens[n - 1].1);
        if line_len + token.len() > 79 {
            (bytes.push(10u8) + token, token.len())
        } else {
            (bytes + token, line_len + token.len())
        }
    }
}

/// The header line: `x = `, the width, `, y = `, the height, and the rule.
pub open spec fn spec_header(x: nat, y: nat) -> Seq<u8> {
    seq![120u8, 32, 61, 32] + spec_decimal_bytes(x) + seq![44u8, 32, 121, 32, 61, 32] + spec_decimal_bytes(y)
        + seq![44u8, 32, 114, 117, 108, 101, 32, 61, 32, 66, 51, 47, 83, 50, 51, 10]
}

/// The bytes of an RLE file: the header, the tokens, and the end of the
/// last line.
pub open spec fn spec_rle_bytes(tokens: Seq<(usize, RLEToken)>, x: nat, y: nat) -> Seq<u8> {
    let (body, line_len) = spec_body(tokens, tokens.len() as int);
    spec_header(x, y) + body + (if line_len > 0 {
        seq![10u8]
    } else {
        Seq::empty()
    })
}

/// The RLE file of a tree, as bytes.
pub open spec fn spec_format_rle(t: Tree) -> Seq<u8> {
    let (tokens, x, y) = spec_matrix_to_rle(matrix_of(t));
    spec_rle_bytes(tokens, x, y)
}

/// Whether every byte is an ASCII character.
pub open spec fn is_ascii(bytes: Seq<u8>) -> bool {
    forall|i: int| 0 <= i < bytes.len() ==> #[trigger] bytes[i] < 128
}

/// The characters that ASCII bytes stand for.
pub open spec fn ascii_chars(bytes: Seq<u8>) -> Seq<char> {
    bytes.map_values(|b: u8| b as char)
}

/// `String::from_utf8` on ASCII bytes, which are valid UTF-8: the string
/// with one character for each byte.
#[verifier::external_body]
fn ascii_string(bytes: Vec<u8>) -> (s: String)
    requires
        is_ascii(bytes@),
    ensures
        s@ == ascii_chars(bytes@),
{
    match String::from_utf8(bytes) {
        Ok(s) => s,
        Err(_) => String::new(),
    }
}

/// Appends the decimal digits of `n`.
fn push_decimal(buf: &mut Vec<u8>, n: usize)
    requires
        is_ascii(old(buf)@),
    ensures
        final(buf)@ == old(buf)@ + spec_decimal_bytes(n as nat),
        is_ascii(final(buf)@),
    decreases n,
{
    if n >= 10 {
        push_decimal(buf, n / 10);
    }
    let digit = 48 + (n % 10) as u8;
    proof {
        if n >= 10 {
            assert(old(buf)@ + spec_decimal_bytes(n as nat) =~= (old(buf)@ + spec_decimal_bytes(
                (n / 10) as nat,
            )).push(digit));
        } else {
            assert(old(buf)@ + spec_decimal_bytes(n as nat) =~= old(buf)@.push(digit));
        }
    }
    buf.push(digit);
}

/// Appends ASCII bytes.
fn push_bytes(buf: &mut Vec<u8>, bytes: &[u8])
    requires
        is_ascii(old(buf)@),
        is_ascii(bytes@),
    ensures
        final(buf)@ == old(buf)@ + bytes@,
        is_ascii(final(buf)@),
{
    let mut k: usize = 0;
    while k < bytes.len()
        invariant
            k <= bytes@.len(),
            is_ascii(bytes@),
            is_ascii(buf@),
            buf@ == old(buf)@ + bytes@.take(k as int),
        decreases bytes@.len() - k,
    {
        buf.push(bytes[k]);
        proof {
            assert(bytes@.take(k + 1) =~= bytes@.take(k as int).push(bytes@[k as int]));
            assert(old(buf)@ + bytes@.take(k + 1) =~= (old(buf)@ + bytes@.take(k as int)).push(
                bytes@[k as int],
            ));
        }
        k += 1;
    }
    proof {
        assert(bytes@.take(bytes@.len() as int) =~= bytes@);
    }
}

/// The bytes of a token that is repeated `len` times.
fn token_len_to_bytes(len: usize, token: RLEToken) -> (res: Vec<u8>)
    ensures
        res@ == spec_token_bytes(len, token),
        is_ascii(res@),
        res@.len() >= 1,
{
    let mut res: Vec<u8> = Vec::new();
    if len != 1 {
        push_decimal(&mut res, len);
    }
    res.push(
        match token {
            RLEToken::State(State::Alive) => 111,
            RLEToken::State(State::Dead) => 98,
            RLEToken::EndLine => 36,
            RLEToken::EndBlock => 33,
        },
    );
    res
}

/// The bytes of an RLE file of the given tokens, width and height.
pub fn rle_to_bytes(rle_data: &RLEData) -> (res: Vec<u8>)
    ensures
        res@ == spec_rle_bytes(rle_data.rle@, rle_data.xsize as nat, rle_data.ysize as nat),
        is_ascii(res@),
{
    let mut res: Vec<u8> = Vec::new();
    let x_is = [120u8, 32, 61, 32];
    let y_is = [44u8, 32, 121, 32, 61, 32];
    let rule_is = [44u8, 32, 114, 117, 108, 101, 32, 61, 32, 66, 51, 47, 83, 50, 51, 10];
    push_bytes(&mut res, x_is.as_slice());
    push_decimal(&mut res, rle_data.xsize);
    push_bytes(&mut res, y_is.as_slice());
    push_decimal(&mut res, rle_data.ysize);
    push_bytes(&mut res, rule_is.as_slice());
    proof {
        assert(x_is@ =~= seq![120u8, 32, 61, 32]);
        assert(y_is@ =~= seq![44u8, 32, 121, 32, 61, 32]);
        assert(rule_is@ =~= seq![44u8, 32, 114, 117, 108, 101, 32, 61, 32, 66, 51, 47, 83, 50, 51, 10]);
        assert(res@ =~= spec_header(rle_data.xsize as nat, rle_data.ysize as nat));
    }
    let ghost header = res@;
    let mut line_len: usize = 0;
    let mut n: usize = 0;
    while n < rle_data.rle.len()
        invariant
            n <= rle_data.rle@.len(),
            is_ascii(res@),
            res@ == header + spec_body(rle_data.rle@, n as int).0,
            line_len == spec_body(rle_data.rle@, n as int).1,
        decreases rle_data.rle@.len() - n,
    {
        let (len, token) = rle_data.rle[n];
        let token_bytes = token_len_to_bytes(len, token);
        let ghost before = res@;
        let ghost body = spec_body(rle_data.rle@, n as int).0;
        let fits = match line_len.checked_add(token_bytes.len()) {
            Some(total) => total <= 79,
            None => false,
        };
        if !fits {
            res.push(10);
            line_len = 0;
        }
        line_len += token_bytes.len();
        push_bytes(&mut res, token_bytes.as_slice());
        proof {
            if !fits {
                assert(res@ =~= header + (body.push(10u8) + token_bytes@));
            } else {
                assert(res@ =~= header + (body + token_bytes@));
            }
        }
        n += 1;
    }
    if line_len > 0 {
        res.push(10);
    }
    proof {
        let (body, last) = spec_body(rle_data.rle@, rle_data.rle@.len() as int);
        if last > 0 {
            assert(res@ =~= header + body + seq![10u8]);
        } else {
            assert(res@ =~= header + body + Seq::<u8>::empty());
        }
    }
    res
}

/// The RLE file of the given tokens, width and height.
pub fn rle_to_string(rle_data: RLEData) -> (res: String)
    ensures
        res@ == ascii_chars(spec_rle_bytes(rle_data.rle@, rle_data.xsize as nat, rle_data.ysize as nat)),
{
    ascii_string(rle_to_bytes(&rle_data))
}

/// The raw block as text in the RLE format. The four children of each of
/// its nodes have the same size.
pub fn raw_format_rle(block: &RawBlock, hl: &Hashlife) -> (res: String)
    requires
        hl.wf(),
        hl.contains(*block),
        hl.tree(*block).uniform(),
    ensures
        res@ == ascii_chars(spec_format_rle(hl.tree(*block))),
{
    rle_to_string(matrix_to_rle(block_to_matrix(block, hl)))
}

/// The block as text in the RLE format.
pub fn format_rle(block: &Block, hl: &Hashlife) -> (res: String)
    requires
        hl.wf(),
        block.valid(hl),
    ensures
        res@ == ascii_chars(spec_format_rle(block.tree(hl))),
{
    raw_format_rle(&block.to_raw(), hl)
}

} // verus!
