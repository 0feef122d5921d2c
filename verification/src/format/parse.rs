//! The grammar of the two text formats, RLE and Macrocell, on bytes.
//!
//! Every parser takes the input and a position in it and gives what it has
//! read with the position after it, or nothing. Beside each parser stands
//! the function of the same grammar on sequences, which its contract names.
//! A file is a sequence of lines; what a line is, is tried in a fixed order:
//! a Macrocell header, an RLE header, RLE tokens, a Macrocell line, and at
//! last a comment, which may be empty.

use vstd::prelude::*;

verus! {

/// The state of a cell.
#[derive(Clone, Copy, Debug, PartialEq, Eq, Structural)]
pub enum State {
    Dead,
    Alive,
}

/// A token of the RLE format: a cell state, the end of a row, or the end of
/// the pattern.
#[derive(Clone, Copy, Debug, PartialEq, Eq, Structural)]
pub enum RLEToken {
    State(State),
    EndLine,
    EndBlock,
}

/// Tokens with the number of times that each is repeated.
pub type RLEBuf = Vec<(usize, RLEToken)>;

/// The header line of an RLE file: the width and the height it announces.
#[derive(Clone, Copy, Debug, PartialEq, Eq, Structural)]
pub struct RLEMeta {
    pub x: u64,
    pub y: u64,
}

/// A comment line, or an empty line.
#[derive(Clone, Copy, Debug, PartialEq, Eq, Structural)]
pub struct Comment;

/// The header line of a Macrocell file.
#[derive(Clone, Copy, Debug, PartialEq, Eq, Structural)]
pub struct MCHeader;

/// A leaf line of a Macrocell file: eight rows of cells.
#[derive(Clone, Debug, PartialEq, Eq)]
pub struct MCLeaf(pub Vec<Vec<State>>);

/// A node line of a Macrocell file: the depth, and the lines of the four
/// children, counted from one, with zero for a blank child.
#[derive(Clone, Copy, Debug, PartialEq, Eq, Structural)]
pub struct MCNode(pub usize, pub usize, pub usize, pub usize, pub usize);

/// A line of the body of a Macrocell file.
#[derive(Clone, Debug, PartialEq, Eq)]
pub enum MCLine {
    Leaf(MCLeaf),
    Node(MCNode),
}

/// A line of a file.
#[derive(Clone, Debug, PartialEq, Eq)]
pub enum LineParse {
    Comment(Comment),
    RLEMeta(RLEMeta),
    RLELine(RLEBuf),
    MCHeader(MCHeader),
    MCLine(MCLine),
}

/// What a file holds: the tokens of an RLE file, the lines of a Macrocell
/// file, or nothing that makes sense.
#[derive(Debug, PartialEq)]
pub enum ParseOut {
    RLE(RLEBuf),
    MC(Vec<MCLine>),
    Fail,
}

/// What a Macrocell line holds.
pub enum MCLineView {
    Leaf(Seq<Seq<State>>),
    Node(MCNode),
}

/// What a line holds.
pub enum LineView {
    Comment,
    RLEMeta(RLEMeta),
    RLELine(Seq<(usize, RLEToken)>),
    MCHeader,
    MCLine(MCLineView),
}

/// What a file holds.
pub enum ParseOutView {
    RLE(Seq<(usize, RLEToken)>),
    MC(Seq<MCLineView>),
    Fail,
}

impl View for MCLeaf {
    type V = Seq<Seq<State>>;

    open spec fn view(&self) -> Seq<Seq<State>> {
        self.0@.map_values(|row: Vec<State>| row@)
    }
}

impl View for MCLine {
    type V = MCLineView;

    open spec fn view(&self) -> MCLineView {
        match self {
            MCLine::Leaf(leaf) => MCLineView::Leaf(leaf@),
            MCLine::Node(node) => MCLineView::Node(*node),
        }
    }
}

impl View for LineParse {
    type V = LineView;

    open spec fn view(&self) -> LineView {
        match self {
            LineParse::Comment(_) => LineView::Comment,
            LineParse::RLEMeta(meta) => LineView::RLEMeta(*meta),
            LineParse::RLELine(tokens) => LineView::RLELine(tokens@),
            LineParse::MCHeader(_) => LineView::MCHeader,
            LineParse::MCLine(line) => LineView::MCLine(line@),
        }
    }
}

impl View for ParseOut {
    type V = ParseOutView;

    open spec fn view(&self) -> ParseOutView {
        match self {
            ParseOut::RLE(tokens) => ParseOutView::RLE(tokens@),
            ParseOut::MC(lines) => ParseOutView::MC(lines@.map_values(|l: MCLine| l@)),
            ParseOut::Fail => ParseOutView::Fail,
        }
    }
}

/// A blank or a tab.
pub open spec fn is_space(c: u8) -> bool {
    c == 32 || c == 9
}

/// A decimal digit.
pub open spec fn is_digit(c: u8) -> bool {
    48 <= c <= 57
}

/// The end of a line: a carriage return or a line feed.
pub open spec fn is_line_end(c: u8) -> bool {
    c == 13 || c == 10
}

/// The position after the blanks and tabs that start at `i`.
pub open spec fn skip_space(s: Seq<u8>, i: int) -> int
    decreases s.len() - i,
{
    if 0 <= i < s.len() && is_space(s[i]) {
        skip_space(s, i + 1)
    } else {
        i
    }
}

/// The position after the digits that start at `i`.
pub open spec fn skip_digits(s: Seq<u8>, i: int) -> int
    decreases s.len() - i,
{
    if 0 <= i < s.len() && is_digit(s[i]) {
        skip_digits(s, i + 1)
    } else {
        i
    }
}

/// The position of the end of the line that `i` is in: of the next carriage
/// return or line feed, or of the end of the input.
pub open spec fn skip_line(s: Seq<u8>, i: int) -> int
    decreases s.len() - i,
{
    if 0 <= i < s.len() && !is_line_end(s[i]) {
        skip_line(s, i + 1)
    } else {
        i
    }
}

/// The number that the digits from `i` up to `j` stand for.
pub open spec fn decimal(s: Seq<u8>, i: int, j: int) -> nat
    decreases j - i,
{
    if j <= i {
        0
    } else {
        decimal(s, i, j - 1) * 10 + (s[j - 1] - 48) as nat
    }
}

/// Whether the byte at `i` is `c`.
pub open spec fn at(s: Seq<u8>, i: int, c: u8) -> bool {
    0 <= i < s.len() && s[i] == c
}

/// A number: one or more digits whose value fits in 64 bits.
pub open spec fn spec_uint(s: Seq<u8>, i: int) -> Option<(u64, int)> {
    let j = skip_digits(s, i);
    if j > i && decimal(s, i, j) <= u64::MAX {
        Some((decimal(s, i, j) as u64, j))
    } else {
        None
    }
}

/// A number if there is one, and else one.
pub open spec fn spec_opt_num(s: Seq<u8>, i: int) -> (usize, int) {
    match spec_uint(s, i) {
        Some((n, j)) => (n as usize, j),
        None => (1, i),
    }
}

/// The RLE token that a byte stands for.
pub open spec fn spec_token(c: u8) -> Option<RLEToken> {
    if c == 98 {
        Some(RLEToken::State(State::Dead))
    } else if c == 111 {
        Some(RLEToken::State(State::Alive))
    } else if c == 36 {
        Some(RLEToken::EndLine)
    } else if c == 33 {
        Some(RLEToken::EndBlock)
    } else {
        None
    }
}

/// An RLE token with the number of times it is repeated.
pub open spec fn spec_rle_item(s: Seq<u8>, i: int) -> Option<((usize, RLEToken), int)> {
    let (n, j) = spec_opt_num(s, i);
    if 0 <= j < s.len() && spec_token(s[j]) is Some {
        Some(((n, spec_token(s[j])->Some_0), j + 1))
    } else {
        None
    }
}

/// As many RLE tokens as there are from `i` on.
pub open spec fn spec_rle_items(s: Seq<u8>, i: int) -> (Seq<(usize, RLEToken)>, int)
    decreases s.len() - i,
{
    match spec_rle_item(s, i) {
        Some((item, j)) => if i < j <= s.len() {
            let (rest, k) = spec_rle_items(s, j);
            (seq![item] + rest, k)
        } else {
            (Seq::empty(), i)
        },
        None => (Seq::empty(), i),
    }
}

/// One or more RLE tokens.
pub open spec fn spec_rle_line(s: Seq<u8>, i: int) -> Option<(Seq<(usize, RLEToken)>, int)> {
    let (items, j) = spec_rle_items(s, i);
    if items.len() > 0 {
        Some((items, j))
    } else {
        None
    }
}

/// The byte `c` after blanks, if it is there: the position after it.
pub open spec fn spec_sym(s: Seq<u8>, i: int, c: u8) -> Option<int> {
    let j = skip_space(s, i);
    if at(s, j, c) {
        Some(j + 1)
    } else {
        None
    }
}

/// A number after blanks.
pub open spec fn spec_num(s: Seq<u8>, i: int) -> Option<(u64, int)> {
    spec_uint(s, skip_space(s, i))
}

/// The word `rule` after blanks.
pub open spec fn spec_rule_word(s: Seq<u8>, i: int) -> Option<int> {
    let j = skip_space(s, i);
    if at(s, j, 114) && at(s, j + 1, 117) && at(s, j + 2, 108) && at(s, j + 3, 101) {
        Some(j + 4)
    } else {
        None
    }
}

/// The header of an RLE file: `x = ..., y = ..., rule = ...` up to the end
/// of the line, with blanks wherever one likes.
pub open spec fn spec_rle_meta(s: Seq<u8>, i: int) -> Option<(RLEMeta, int)> {
    match spec_sym(s, i, 120) {
        Some(a) => match spec_sym(s, a, 61) {
            Some(b) => match spec_num(s, b) {
                Some((x, c)) => match spec_sym(s, c, 44) {
                    Some(d) => match spec_sym(s, d, 121) {
                        Some(e) => match spec_sym(s, e, 61) {
                            Some(f) => match spec_num(s, f) {
                                Some((y, g)) => match spec_sym(s, g, 44) {
                                    Some(h) => match spec_rule_word(s, h) {
                                        Some(k) => match spec_sym(s, k, 61) {
                                            Some(l) => Some(
                                                (RLEMeta { x: x, y: y }, skip_line(s, skip_space(s, l))),
                                            ),
                                            None => None,
                                        },
                                        None => None,
                                    },
                                    None => None,
                                },
                                None => None,
                            },
                            None => None,
                        },
                        None => None,
                    },
                    None => None,
                },
                None => None,
            },
            None => None,
        },
        None => None,
    }
}

/// A comment: blanks, and then nothing or `#` and the rest of the line.
pub open spec fn spec_comment(s: Seq<u8>, i: int) -> int {
    let j = skip_space(s, i);
    if at(s, j, 35) {
        skip_line(s, j + 1)
    } else {
        j
    }
}

/// The header of a Macrocell file: `[M2]` and the rest of the line.
pub open spec fn spec_mc_header(s: Seq<u8>, i: int) -> Option<int> {
    if at(s, i, 91) && at(s, i + 1, 77) && at(s, i + 2, 50) && at(s, i + 3, 93) {
        Some(skip_line(s, i + 4))
    } else {
        None
    }
}

/// The position after the blanks and tabs that start at `start`.
pub fn space(input: &[u8], start: usize) -> (end: usize)
    requires
        start <= input.len(),
    ensures
        end == skip_space(input@, start as int),
        start <= end <= input.len(),
{
    let mut j = start;
    while j < input.len() && (input[j] == 32 || input[j] == 9)
        invariant
            start <= j <= input.len(),
            skip_space(input@, start as int) == skip_space(input@, j as int),
        decreases input.len() - j,
    {
        j += 1;
    }
    j
}

/// The position of the end of the line that `start` is in.
pub fn not_line_ending(input: &[u8], start: usize) -> (end: usize)
    requires
        start <= input.len(),
    ensures
        end == skip_line(input@, start as int),
        start <= end <= input.len(),
{
    let mut j = start;
    while j < input.len() && !(input[j] == 13 || input[j] == 10)
        invariant
            start <= j <= input.len(),
            skip_line(input@, start as int) == skip_line(input@, j as int),
        decreases input.len() - j,
    {
        j += 1;
    }
    j
}

/// A number: one or more digits whose value fits in 64 bits.
pub fn uint(input: &[u8], start: usize) -> (r: Option<(u64, usize)>)
    requires
        start <= input.len(),
    ensures
        match r {
            Some((n, end)) => spec_uint(input@, start as int) == Some((n, end as int)) && start < end
                <= input.len(),
            None => spec_uint(input@, start as int) is None,
        },
{
    let mut j = start;
    let mut acc: u64 = 0;
    let mut overflow = false;
    while j < input.len() && input[j] >= 48 && input[j] <= 57
        invariant
            start <= j <= input.len(),
            skip_digits(input@, start as int) == skip_digits(input@, j as int),
            forall|m: int| start <= m < j ==> is_digit(#[trigger] input@[m]),
            !overflow ==> acc == decimal(input@, start as int, j as int),
            overflow ==> decimal(input@, start as int, j as int) > u64::MAX,
        decreases input.len() - j,
    {
        let d = (input[j] - 48) as u64;
        if !overflow {
            match acc.checked_mul(10) {
                Some(m) => match m.checked_add(d) {
                    Some(v) => {
                        acc = v;
                    },
                    None => {
                        overflow = true;
                    },
                },
                None => {
                    overflow = true;
                },
            }
        }
        j += 1;
    }
    if j == start || overflow {
        None
    } else {
        Some((acc, j))
    }
}

/// A number if there is one, and else one.
pub fn opt_num(input: &[u8], start: usize) -> (r: (usize, usize))
    requires
        start <= input.len(),
    ensures
        spec_opt_num(input@, start as int) == (r.0, r.1 as int),
        start <= r.1 <= input.len(),
{
    match uint(input, start) {
        Some((n, end)) => (#[verifier::truncate] (n as usize), end),
        None => (1, start),
    }
}

/// The state of a cell: `b` for a dead cell, `o` for a live one.
pub fn rle_cell_state(input: &[u8], start: usize) -> (r: Option<(State, usize)>)
    requires
        start <= input.len(),
    ensures
        match r {
            Some((state, end)) => end == start + 1 && start < input.len() && spec_token(
                input@[start as int],
            ) == Some(RLEToken::State(state)),
            None => !(start < input.len() && spec_token(input@[start as int]) matches Some(
                RLEToken::State(_),
            )),
        },
{
    if start < input.len() && input[start] == 98 {
        Some((State::Dead, start + 1))
    } else if start < input.len() && input[start] == 111 {
        Some((State::Alive, start + 1))
    } else {
        None
    }
}

/// An RLE token: a cell state, `$` for the end of a row, `!` for the end of
/// the pattern.
pub fn rle_token(input: &[u8], start: usize) -> (r: Option<(RLEToken, usize)>)
    requires
        start <= input.len(),
    ensures
        match r {
            Some((token, end)) => end == start + 1 && start < input.len() && spec_token(
                input@[start as int],
            ) == Some(token),
            None => !(start < input.len() && spec_token(input@[start as int]) is Some),
        },
{
    match rle_cell_state(input, start) {
        Some((state, end)) => Some((RLEToken::State(state), end)),
        None => {
            if start < input.len() && input[start] == 36 {
                Some((RLEToken::EndLine, start + 1))
            } else if start < input.len() && input[start] == 33 {
                Some((RLEToken::EndBlock, start + 1))
            } else {
                None
            }
        },
    }
}

/// One or more RLE tokens, each with the number of times it is repeated.
pub fn rle_line(input: &[u8], start: usize) -> (r: Option<(RLEBuf, usize)>)
    requires
        start <= input.len(),
    ensures
        match r {
            Some((tokens, end)) => spec_rle_line(input@, start as int) == Some((tokens@, end as int))
                && start < end <= input.len(),
            None => spec_rle_line(input@, start as int) is None,
        },
{
    let mut tokens: RLEBuf = Vec::new();
    let mut j = start;
    loop
        invariant
            start <= j <= input.len(),
            tokens@.len() > 0 ==> start < j,
            spec_rle_items(input@, start as int) == (
                tokens@ + spec_rle_items(input@, j as int).0,
                spec_rle_items(input@, j as int).1,
            ),
        ensures
            start <= j <= input.len(),
            tokens@.len() > 0 ==> start < j,
            spec_rle_items(input@, start as int) == (tokens@, j as int),
        decreases input.len() - j,
    {
        let (n, after_num) = opt_num(input, j);
        match rle_token(input, after_num) {
            Some((token, end)) => {
                proof {
                    let rest = spec_rle_items(input@, end as int).0;
                    assert(tokens@.push((n, token)) + rest =~= tokens@ + (seq![(n, token)] + rest));
                }
                tokens.push((n, token));
                j = end;
            },
            None => {
                proof {
                    assert(tokens@ + Seq::<(usize, RLEToken)>::empty() =~= tokens@);
                }
                break ;
            },
        }
    }
    if tokens.len() > 0 {
        Some((tokens, j))
    } else {
        None
    }
}

/// The byte `c` after blanks: the position after it.
fn sym(input: &[u8], start: usize, c: u8) -> (r: Option<usize>)
    requires
        start <= input.len(),
    ensures
        match r {
            Some(end) => spec_sym(input@, start as int, c) == Some(end as int) && start < end
                <= input.len(),
            None => spec_sym(input@, start as int, c) is None,
        },
{
    let j = space(input, start);
    if j < input.len() && input[j] == c {
        Some(j + 1)
    } else {
        None
    }
}

/// A number after blanks.
fn num(input: &[u8], start: usize) -> (r: Option<(u64, usize)>)
    requires
        start <= input.len(),
    ensures
        match r {
            Some((n, end)) => spec_num(input@, start as int) == Some((n, end as int)) && start < end
                <= input.len(),
            None => spec_num(input@, start as int) is None,
        },
{
    let j = space(input, start);
    uint(input, j)
}

/// The word `rule` after blanks.
fn rule_word(input: &[u8], start: usize) -> (r: Option<usize>)
    requires
        start <= input.len(),
    ensures
        match r {
            Some(end) => spec_rule_word(input@, start as int) == Some(end as int) && start < end
                <= input.len(),
            None => spec_rule_word(input@, start as int) is None,
        },
{
    let j = space(input, start);
    if j < input.len() && input.len() - j >= 4 && input[j] == 114 && input[j + 1] == 117 && input[j
        + 2] == 108 && input[j + 3] == 101 {
        Some(j + 4)
    } else {
        None
    }
}

/// The header of an RLE file.
pub fn rle_meta(input: &[u8], start: usize) -> (r: Option<(RLEMeta, usize)>)
    requires
        start <= input.len(),
    ensures
        match r {
            Some((meta, end)) => spec_rle_meta(input@, start as int) == Some((meta, end as int))
                && start < end <= input.len(),
            None => spec_rle_meta(input@, start as int) is None,
        },
{
    let a = sym(input, start, 120)?;
    let b = sym(input, a, 61)?;
    let (x, c) = num(input, b)?;
    let d = sym(input, c, 44)?;
    let e = sym(input, d, 121)?;
    let f = sym(input, e, 61)?;
    let (y, g) = num(input, f)?;
    let h = sym(input, g, 44)?;
    let k = rule_word(input, h)?;
    let l = sym(input, k, 61)?;
    let m = space(input, l);
    let end = not_line_ending(input, m);
    Some((RLEMeta { x: x, y: y }, end))
}

/// A comment, which may be empty: the position after it.
pub fn comment(input: &[u8], start: usize) -> (end: usize)
    requires
        start <= input.len(),
    ensures
        end == spec_comment(input@, start as int),
        start <= end <= input.len(),
{
    let j = space(input, start);
    if j < input.len() && input[j] == 35 {
        not_line_ending(input, j + 1)
    } else {
        j
    }
}

/// The header of a Macrocell file: the position after it.
pub fn mc_header(input: &[u8], start: usize) -> (r: Option<usize>)
    requires
        start <= input.len(),
    ensures
        match r {
            Some(end) => spec_mc_header(input@, start as int) == Some(end as int) && start < end
                <= input.len(),
            None => spec_mc_header(input@, start as int) is None,
        },
{
    if input.len() - start >= 4 && input[start] == 91 && input[start + 1] == 77 && input[start + 2]
        == 50 && input[start + 3] == 93 {
        Some(not_line_ending(input, start + 4))
    } else {
        None
    }
}

/// The cell that a byte of a Macrocell leaf stands for: `.` for a dead
/// cell, `*` for a live one.
pub open spec fn spec_mc_cell(c: u8) -> Option<State> {
    if c == 46 {
        Some(State::Dead)
    } else if c == 42 {
        Some(State::Alive)
    } else {
        None
    }
}

/// As many cells of a Macrocell leaf as there are from `i` on.
pub open spec fn spec_mc_cells(s: Seq<u8>, i: int) -> (Seq<State>, int)
    decreases s.len() - i,
{
    if 0 <= i < s.len() && spec_mc_cell(s[i]) is Some {
        let (rest, k) = spec_mc_cells(s, i + 1);
        (seq![spec_mc_cell(s[i])->Some_0] + rest, k)
    } else {
        (Seq::empty(), i)
    }
}

/// A row of a Macrocell leaf: cells, and `$`.
pub open spec fn spec_mc_row(s: Seq<u8>, i: int) -> Option<(Seq<State>, int)> {
    let (cells, j) = spec_mc_cells(s, i);
    if at(s, j, 36) {
        Some((cells, j + 1))
    } else {
        None
    }
}

/// `n` rows of a Macrocell leaf.
pub open spec fn spec_mc_rows(s: Seq<u8>, i: int, n: nat) -> Option<(Seq<Seq<State>>, int)>
    decreases n,
{
    if n == 0 {
        Some((Seq::empty(), i))
    } else {
        match spec_mc_row(s, i) {
            Some((row, j)) => match spec_mc_rows(s, j, (n - 1) as nat) {
                Some((rest, k)) => Some((seq![row] + rest, k)),
                None => None,
            },
            None => None,
        }
    }
}

/// A leaf line of a Macrocell file: eight rows.
pub open spec fn spec_mc_leaf(s: Seq<u8>, i: int) -> Option<(Seq<Seq<State>>, int)> {
    spec_mc_rows(s, i, 8)
}

/// A node line of a Macrocell file: five numbers with blanks between them,
/// and blanks after them if one likes.
pub open spec fn spec_mc_node(s: Seq<u8>, i: int) -> Option<(MCNode, int)> {
    match spec_uint(s, i) {
        Some((d, a)) => match spec_num(s, a) {
            Some((b0, b)) => match spec_num(s, b) {
                Some((b1, c)) => match spec_num(s, c) {
                    Some((b2, e)) => match spec_num(s, e) {
                        Some((b3, f)) => Some(
                            (
                                MCNode(d as usize, b0 as usize, b1 as usize, b2 as usize, b3 as usize),
                                skip_space(s, f),
                            ),
                        ),
                        None => None,
                    },
                    None => None,
                },
                None => None,
            },
            None => None,
        },
        None => None,
    }
}

/// A line of the body of a Macrocell file: a leaf, or else a node.
pub open spec fn spec_mc_line(s: Seq<u8>, i: int) -> Option<(MCLineView, int)> {
    match spec_mc_leaf(s, i) {
        Some((rows, j)) => Some((MCLineView::Leaf(rows), j)),
        None => match spec_mc_node(s, i) {
            Some((node, j)) => Some((MCLineView::Node(node), j)),
            None => None,
        },
    }
}

/// The end of a line: a line feed, or a carriage return and a line feed.
pub open spec fn spec_line_ending(s: Seq<u8>, i: int) -> Option<int> {
    if at(s, i, 10) {
        Some(i + 1)
    } else if at(s, i, 13) && at(s, i + 1, 10) {
        Some(i + 2)
    } else {
        None
    }
}

/// What a line is, before its end: the first that fits of a Macrocell
/// header, an RLE header, RLE tokens, a Macrocell line, and a comment.
pub open spec fn spec_line_body(s: Seq<u8>, i: int) -> (LineView, int) {
    if let Some(j) = spec_mc_header(s, i) {
        (LineView::MCHeader, j)
    } else if let Some((meta, j)) = spec_rle_meta(s, i) {
        (LineView::RLEMeta(meta), j)
    } else if let Some((tokens, j)) = spec_rle_line(s, i) {
        (LineView::RLELine(tokens), j)
    } else if let Some((line, j)) = spec_mc_line(s, i) {
        (LineView::MCLine(line), j)
    } else {
        (LineView::Comment, spec_comment(s, i))
    }
}

/// A line with its end.
pub open spec fn spec_parse_line(s: Seq<u8>, i: int) -> Option<(LineView, int)> {
    let (line, j) = spec_line_body(s, i);
    match spec_line_ending(s, j) {
        Some(k) => Some((line, k)),
        None => None,
    }
}

/// As many lines as there are from `i` on.
pub open spec fn spec_lines(s: Seq<u8>, i: int) -> (Seq<LineView>, int)
    decreases s.len() - i,
{
    match spec_parse_line(s, i) {
        Some((line, j)) => if 0 <= i < j <= s.len() {
            let (rest, k) = spec_lines(s, j);
            (seq![line] + rest, k)
        } else {
            (Seq::empty(), i)
        },
        None => (Seq::empty(), i),
    }
}

/// What the lines read so far amount to.
pub enum Progress {
    Start,
    RLE(Seq<(usize, RLEToken)>),
    MC(Seq<MCLineView>),
    Failed,
}

/// What one more line makes of the lines read so far. Comments change
/// nothing. A file starts with an RLE header, RLE tokens or a Macrocell
/// header; an RLE file then holds RLE tokens, a Macrocell file Macrocell
/// lines, and anything else is a failure.
pub open spec fn spec_progress(p: Progress, line: LineView) -> Progress {
    match (p, line) {
        (Progress::Failed, _) => Progress::Failed,
        (p, LineView::Comment) => p,
        (Progress::Start, LineView::RLEMeta(_)) => Progress::RLE(Seq::empty()),
        (Progress::Start, LineView::RLELine(tokens)) => Progress::RLE(tokens),
        (Progress::Start, LineView::MCHeader) => Progress::MC(Seq::empty()),
        (Progress::RLE(cur), LineView::RLELine(tokens)) => Progress::RLE(cur + tokens),
        (Progress::MC(lines), LineView::MCLine(line)) => Progress::MC(lines.push(line)),
        _ => Progress::Failed,
    }
}

/// What the first `n` of `lines` amount to.
pub open spec fn spec_progress_of(lines: Seq<LineView>, n: nat) -> Progress
    decreases n,
{
    if n == 0 {
        Progress::Start
    } else {
        spec_progress(spec_progress_of(lines, (n - 1) as nat), lines[n - 1])
    }
}

/// What a file of `lines` holds.
pub open spec fn spec_process_lines(lines: Seq<LineView>) -> ParseOutView {
    match spec_progress_of(lines, lines.len()) {
        Progress::RLE(tokens) => ParseOutView::RLE(tokens),
        Progress::MC(lines) => ParseOutView::MC(lines),
        _ => ParseOutView::Fail,
    }
}

/// What the input holds: what its lines amount to, and where they end.
pub open spec fn spec_parse_file(s: Seq<u8>) -> (ParseOutView, int) {
    (spec_process_lines(spec_lines(s, 0).0), spec_lines(s, 0).1)
}

/// A row of a Macrocell leaf.
pub fn mc_row(input: &[u8], start: usize) -> (r: Option<(Vec<State>, usize)>)
    requires
        start <= input.len(),
    ensures
        match r {
            Some((row, end)) => spec_mc_row(input@, start as int) == Some((row@, end as int))
                && start < end <= input.len(),
            None => spec_mc_row(input@, start as int) is None,
        },
{
    let mut row: Vec<State> = Vec::new();
    let mut j = start;
    while j < input.len() && (input[j] == 46 || input[j] == 42)
        invariant
            start <= j <= input.len(),
            spec_mc_cells(input@, start as int) == (
                row@ + spec_mc_cells(input@, j as int).0,
                spec_mc_cells(input@, j as int).1,
            ),
        decreases input.len() - j,
    {
        let state = if input[j] == 46 {
            State::Dead
        } else {
            State::Alive
        };
        proof {
            let rest = spec_mc_cells(input@, j + 1).0;
            assert(row@.push(state) + rest =~= row@ + (seq![state] + rest));
        }
        row.push(state);
        j += 1;
    }
    proof {
        assert(row@ + Seq::<State>::empty() =~= row@);
    }
    if j < input.len() && input[j] == 36 {
        Some((row, j + 1))
    } else {
        None
    }
}

/// A leaf line of a Macrocell file: eight rows.
pub fn mc_leaf(input: &[u8], start: usize) -> (r: Option<(MCLeaf, usize)>)
    requires
        start <= input.len(),
    ensures
        match r {
            Some((leaf, end)) => spec_mc_leaf(input@, start as int) == Some((leaf@, end as int))
                && start < end <= input.len() && leaf@.len() == 8,
            None => spec_mc_leaf(input@, start as int) is None,
        },
{
    let mut rows: Vec<Vec<State>> = Vec::new();
    let mut j = start;
    let mut n: usize = 0;
    while n < 8
        invariant
            n <= 8,
            rows@.len() == n,
            start <= j <= input.len(),
            n > 0 ==> start < j,
            match spec_mc_rows(input@, j as int, (8 - n) as nat) {
                Some((rest, k)) => spec_mc_rows(input@, start as int, 8) == Some(
                    (rows@.map_values(|row: Vec<State>| row@) + rest, k),
                ),
                None => spec_mc_rows(input@, start as int, 8) is None,
            },
        decreases 8 - n,
    {
        match mc_row(input, j) {
            Some((row, end)) => {
                proof {
                    let before = rows@.map_values(|row: Vec<State>| row@);
                    let after = rows@.push(row).map_values(|row: Vec<State>| row@);
                    assert(after =~= before.push(row@));
                    if let Some((rest, k)) = spec_mc_rows(input@, end as int, (8 - n - 1) as nat) {
                        assert(before.push(row@) + rest =~= before + (seq![row@] + rest));
                    }
                }
                rows.push(row);
                j = end;
                n += 1;
            },
            None => {
                return None;
            },
        }
    }
    proof {
        let all = rows@.map_values(|row: Vec<State>| row@);
        assert(all + Seq::<Seq<State>>::empty() =~= all);
    }
    Some((MCLeaf(rows), j))
}

/// A node line of a Macrocell file.
pub fn mc_node(input: &[u8], start: usize) -> (r: Option<(MCNode, usize)>)
    requires
        start <= input.len(),
    ensures
        match r {
            Some((node, end)) => spec_mc_node(input@, start as int) == Some((node, end as int))
                && start < end <= input.len(),
            None => spec_mc_node(input@, start as int) is None,
        },
{
    let (d, a) = uint(input, start)?;
    let (b0, b) = num(input, a)?;
    let (b1, c) = num(input, b)?;
    let (b2, e) = num(input, c)?;
    let (b3, f) = num(input, e)?;
    let end = space(input, f);
    Some(
        (
            MCNode(
                #[verifier::truncate] (d as usize),
                #[verifier::truncate] (b0 as usize),
                #[verifier::truncate] (b1 as usize),
                #[verifier::truncate] (b2 as usize),
                #[verifier::truncate] (b3 as usize),
            ),
            end,
        ),
    )
}

/// A line of the body of a Macrocell file.
pub fn mc_line(input: &[u8], start: usize) -> (r: Option<(MCLine, usize)>)
    requires
        start <= input.len(),
    ensures
        match r {
            Some((line, end)) => spec_mc_line(input@, start as int) == Some((line@, end as int))
                && start < end <= input.len(),
            None => spec_mc_line(input@, start as int) is None,
        },
{
    match mc_leaf(input, start) {
        Some((leaf, end)) => Some((MCLine::Leaf(leaf), end)),
        None => match mc_node(input, start) {
            Some((node, end)) => Some((MCLine::Node(node), end)),
            None => None,
        },
    }
}

/// The end of a line: the position after it.
pub fn line_ending(input: &[u8], start: usize) -> (r: Option<usize>)
    requires
        start <= input.len(),
    ensures
        match r {
            Some(end) => spec_line_ending(input@, start as int) == Some(end as int) && start < end
                <= input.len(),
            None => spec_line_ending(input@, start as int) is None,
        },
{
    if start < input.len() && input[start] == 10 {
        Some(start + 1)
    } else if start < input.len() && input.len() - start >= 2 && input[start] == 13 && input[start
        + 1] == 10 {
        Some(start + 2)
    } else {
        None
    }
}

/// A line with its end.
pub fn parse_line(input: &[u8], start: usize) -> (r: Option<(LineParse, usize)>)
    requires
        start <= input.len(),
    ensures
        match r {
            Some((line, end)) => spec_parse_line(input@, start as int) == Some((line@, end as int))
                && start < end <= input.len(),
            None => spec_parse_line(input@, start as int) is None,
        },
{
    let (out, after) = if let Some(end) = mc_header(input, start) {
        (LineParse::MCHeader(MCHeader), end)
    } else if let Some((meta, end)) = rle_meta(input, start) {
        (LineParse::RLEMeta(meta), end)
    } else if let Some((tokens, end)) = rle_line(input, start) {
        (LineParse::RLELine(tokens), end)
    } else if let Some((line, end)) = mc_line(input, start) {
        (LineParse::MCLine(line), end)
    } else {
        (LineParse::Comment(Comment), comment(input, start))
    };
    match line_ending(input, after) {
        Some(end) => Some((out, end)),
        None => None,
    }
}

/// The progress that the flags and buffers of `process_lines` stand for.
pub open spec fn progress_state(
    failed: bool,
    started: bool,
    is_mc: bool,
    tokens: Seq<(usize, RLEToken)>,
    mc_lines: Seq<MCLineView>,
) -> Progress {
    if failed {
        Progress::Failed
    } else if !started {
        Progress::Start
    } else if is_mc {
        Progress::MC(mc_lines)
    } else {
        Progress::RLE(tokens)
    }
}

/// What a file of `lines` holds.
pub fn process_lines(lines: Vec<LineParse>) -> (out: ParseOut)
    ensures
        out@ == spec_process_lines(lines@.map_values(|l: LineParse| l@)),
{
    let ghost views = lines@.map_values(|l: LineParse| l@);
    let total = lines.len();
    let mut queue = lines;
    let mut rest: Vec<LineParse> = Vec::new();
    while queue.len() > 0
        invariant
            queue@.len() + rest@.len() == total,
            total == views.len(),
            forall|k: int| 0 <= k < queue@.len() ==> (#[trigger] queue@[k])@ == views[k],
            forall|k: int| 0 <= k < rest@.len() ==> (#[trigger] rest@[k])@ == views[total - 1 - k],
        decreases queue@.len(),
    {
        match queue.pop() {
            Some(line) => {
                rest.push(line);
            },
            None => {},
        }
    }
    let mut failed = false;
    let mut started = false;
    let mut is_mc = false;
    let mut tokens: RLEBuf = Vec::new();
    let mut mc_lines: Vec<MCLine> = Vec::new();
    let mut n: usize = 0;
    while rest.len() > 0
        invariant
            n + rest@.len() == total,
            total == views.len(),
            forall|k: int| 0 <= k < rest@.len() ==> (#[trigger] rest@[k])@ == views[total - 1 - k],
            !started ==> tokens@.len() == 0 && !is_mc,
            !is_mc ==> mc_lines@.len() == 0,
            spec_progress_of(views, n as nat) == progress_state(
                failed,
                started,
                is_mc,
                tokens@,
                mc_lines@.map_values(|l: MCLine| l@),
            ),
        decreases rest@.len(),
    {
        let popped = rest.pop();
        proof {
            assert(spec_progress_of(views, (n + 1) as nat) == spec_progress(
                spec_progress_of(views, n as nat),
                views[n as int],
            ));
        }
        match popped {
            None => {},
            Some(line) => {
                proof {
                    assert(line@ == views[n as int]);
                }
                if !failed {
                    match line {
                        LineParse::Comment(_) => {},
                        LineParse::RLEMeta(_) => {
                            if started {
                                failed = true;
                            }
                            started = true;
                            proof {
                                assert(tokens@.len() == 0 ==> tokens@ =~= Seq::<(usize, RLEToken)>::empty());
                            }
                        },
                        LineParse::RLELine(more) => {
                            if started && is_mc {
                                failed = true;
                            } else {
                                started = true;
                                let mut k: usize = 0;
                                let ghost before = tokens@;
                                while k < more.len()
                                    invariant
                                        k <= more.len(),
                                        tokens@ == before + more@.take(k as int),
                                    decreases more.len() - k,
                                {
                                    tokens.push(more[k]);
                                    proof {
                                        assert(more@.take(k + 1) =~= more@.take(k as int).push(
                                            more@[k as int],
                                        ));
                                        assert(before + more@.take(k + 1) =~= (before + more@.take(
                                            k as int,
                                        )).push(more@[k as int]));
                                    }
                                    k += 1;
                                }
                                proof {
                                    assert(more@.take(more.len() as int) =~= more@);
                                    assert(Seq::<(usize, RLEToken)>::empty() + more@ =~= more@);
                                    assert(before.len() == 0 ==> before =~= Seq::<
                                        (usize, RLEToken),
                                    >::empty());
                                }
                            }
                        },
                        LineParse::MCHeader(_) => {
                            if started {
                                failed = true;
                            }
                            started = true;
                            is_mc = true;
                            proof {
                                assert(mc_lines@.len() == 0 ==> mc_lines@.map_values(|l: MCLine| l@)
                                    =~= Seq::<MCLineView>::empty());
                            }
                        },
                        LineParse::MCLine(line) => {
                            if !(started && is_mc) {
                                failed = true;
                            } else {
                                proof {
                                    assert(mc_lines@.push(line).map_values(|l: MCLine| l@)
                                        =~= mc_lines@.map_values(|l: MCLine| l@).push(line@));
                                }
                                mc_lines.push(line);
                            }
                        },
                    }
                }
                n += 1;
            },
        }
    }
    if failed || !started {
        ParseOut::Fail
    } else if is_mc {
        ParseOut::MC(mc_lines)
    } else {
        ParseOut::RLE(tokens)
    }
}

/// What the input holds, and the position at which its lines end: the end
/// of the input if all of it is lines.
pub fn parse_file(input: &[u8]) -> (r: (ParseOut, usize))
    ensures
        (r.0@, r.1 as int) == spec_parse_file(input@),
        r.1 <= input.len(),
{
    let mut lines: Vec<LineParse> = Vec::new();
    let mut j: usize = 0;
    loop
        invariant
            j <= input.len(),
            spec_lines(input@, 0) == (
                lines@.map_values(|l: LineParse| l@) + spec_lines(input@, j as int).0,
                spec_lines(input@, j as int).1,
            ),
        ensures
            j <= input.len(),
            spec_lines(input@, 0) == (lines@.map_values(|l: LineParse| l@), j as int),
        decreases input.len() - j,
    {
        match parse_line(input, j) {
            Some((line, end)) => {
                proof {
                    let before = lines@.map_values(|l: LineParse| l@);
                    let rest = spec_lines(input@, end as int).0;
                    assert(lines@.push(line).map_values(|l: LineParse| l@) =~= before.push(line@));
                    assert(before.push(line@) + rest =~= before + (seq![line@] + rest));
                }
                lines.push(line);
                j = end;
            },
            None => {
                proof {
                    let before = lines@.map_values(|l: LineParse| l@);
                    assert(before + Seq::<LineView>::empty() =~= before);
                }
                break ;
            },
        }
    }
    (process_lines(lines), j)
}

} // verus!
