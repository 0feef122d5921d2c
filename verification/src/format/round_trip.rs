//! Reading what was written gives the block back.
//!
//! The proof follows the text on its way: the written bytes are lines that
//! the grammar reads as the written tokens; the tokens expand to the rows
//! of the block, each cut after its last live cell; and the smallest tree
//! that holds those rows has the cells of the block.

use vstd::prelude::*;
use vstd::arithmetic::power2::{pow2, lemma_pow2_strictly_increases, lemma_pow2_unfold, lemma2_to64};
use crate::tree::{Tree, lemma_side, lemma_side_pow2, lemma_tree_ext};
use super::spec_source_tree;
use super::build_rle::{
    spec_expand,
    spec_rows_from,
    spec_tokens_to_matrix,
    cell_alive,
    longest_row,
    needed_side,
    fit_lg,
    tree_of_matrix,
    lemma_fit_lg,
    lemma_longest_row,
    lemma_tree_of_matrix,
};
use super::parse::{
    RLEToken,
    State,
    LineView,
    at,
    decimal,
    is_digit,
    is_space,
    is_line_end,
    skip_digits,
    skip_line,
    skip_space,
    spec_line_body,
    spec_line_ending,
    spec_lines,
    spec_comment,
    spec_mc_cells,
    spec_mc_leaf,
    spec_mc_line,
    spec_mc_node,
    spec_mc_row,
    spec_mc_rows,
    spec_num,
    spec_rule_word,
    spec_parse_file,
    spec_process_lines,
    spec_progress,
    spec_progress_of,
    Progress,
    ParseOutView,
    RLEMeta,
    spec_mc_header,
    spec_opt_num,
    spec_parse_line,
    spec_rle_item,
    spec_rle_items,
    spec_rle_line,
    spec_rle_meta,
    spec_sym,
    spec_token,
    spec_uint,
};
use super::write::{
    live_len,
    matrix_of,
    spec_runs,
    spec_row_tokens,
    spec_rle_state,
    spec_matrix_to_rle,
    spec_decimal_bytes,
    spec_token_bytes,
    spec_token_char,
    spec_body,
    spec_header,
    spec_rle_bytes,
    spec_format_rle,
    lemma_live_len,
    lemma_rle_state,
};

verus! {

/// The tokens of a sequence of cells.
pub open spec fn states(cells: Seq<State>) -> Seq<RLEToken> {
    cells.map_values(|c: State| RLEToken::State(c))
}

/// `n` row ends.
pub open spec fn row_ends(n: nat) -> Seq<RLEToken> {
    Seq::new(n, |i: int| RLEToken::EndLine)
}

/// `n` empty rows.
pub open spec fn empty_rows(n: nat) -> Seq<Seq<State>> {
    Seq::new(n, |i: int| Seq::<State>::empty())
}

/// A row up to its last live cell.
pub open spec fn trimmed(line: Seq<State>) -> Seq<State> {
    line.take(live_len(line, line.len() as int))
}

/// The rows and the unfinished row after the tokens `seq`, none of which is
/// the end of the pattern, have been added to `rows` and `cur`.
pub open spec fn feed(seq: Seq<RLEToken>, rows: Seq<Seq<State>>, cur: Seq<State>) -> (Seq<Seq<State>>, Seq<State>)
    decreases seq.len(),
{
    if seq.len() == 0 {
        (rows, cur)
    } else {
        let (r, c) = feed(seq.drop_last(), rows, cur);
        match seq.last() {
            RLEToken::State(state) => (r, c.push(state)),
            RLEToken::EndLine => (r.push(c), Seq::empty()),
            RLEToken::EndBlock => (r, c),
        }
    }
}

/// Whether no token is the end of the pattern.
pub open spec fn no_end(seq: Seq<RLEToken>) -> bool {
    forall|i: int| 0 <= i < seq.len() ==> #[trigger] seq[i] != RLEToken::EndBlock
}

/// Expanding one more item adds its token as often as its count says.
pub proof fn lemma_expand_push<A>(rle: Seq<(usize, A)>, count: usize, item: A)
    ensures
        spec_expand(rle.push((count, item))) == spec_expand(rle) + Seq::new(count as nat, |i: int| item),
{
    assert(rle.push((count, item)).drop_last() =~= rle);
}

/// Expanding is additive.
pub proof fn lemma_expand_concat<A>(a: Seq<(usize, A)>, b: Seq<(usize, A)>)
    ensures
        spec_expand(a + b) == spec_expand(a) + spec_expand(b),
    decreases b.len(),
{
    if b.len() == 0 {
        assert(a + b =~= a);
        assert(spec_expand(a) + spec_expand(b) =~= spec_expand(a));
    } else {
        lemma_expand_concat(a, b.drop_last());
        assert((a + b).drop_last() =~= a + b.drop_last());
        assert(spec_expand(a + b) =~= spec_expand(a) + spec_expand(b));
    }
}

/// Feeding is additive.
pub proof fn lemma_feed_concat(a: Seq<RLEToken>, b: Seq<RLEToken>, rows: Seq<Seq<State>>, cur: Seq<State>)
    ensures
        feed(a + b, rows, cur) == feed(b, feed(a, rows, cur).0, feed(a, rows, cur).1),
    decreases b.len(),
{
    if b.len() == 0 {
        assert(a + b =~= a);
    } else {
        lemma_feed_concat(a, b.drop_last(), rows, cur);
        assert((a + b).drop_last() =~= a + b.drop_last());
    }
}

/// Feeding cells adds them to the unfinished row.
pub proof fn lemma_feed_states(cells: Seq<State>, rows: Seq<Seq<State>>, cur: Seq<State>)
    ensures
        feed(states(cells), rows, cur) == (rows, cur + cells),
        no_end(states(cells)),
    decreases cells.len(),
{
    if cells.len() == 0 {
        assert(cur + cells =~= cur);
    } else {
        lemma_feed_states(cells.drop_last(), rows, cur);
        assert(states(cells).drop_last() =~= states(cells.drop_last()));
        assert(cur + cells =~= (cur + cells.drop_last()).push(cells.last()));
    }
}

/// Feeding row ends finishes the unfinished row and adds empty rows.
pub proof fn lemma_feed_row_ends(n: nat, rows: Seq<Seq<State>>, cur: Seq<State>)
    requires
        n >= 1,
    ensures
        feed(row_ends(n), rows, cur) == (rows.push(cur) + empty_rows((n - 1) as nat), Seq::<State>::empty()),
        no_end(row_ends(n)),
    decreases n,
{
    let s = row_ends(n);
    assert(s.last() == RLEToken::EndLine);
    if n == 1 {
        assert(s.drop_last() =~= Seq::<RLEToken>::empty());
        assert(feed(s.drop_last(), rows, cur) == (rows, cur));
        assert(rows.push(cur) + empty_rows(0) =~= rows.push(cur));
    } else {
        lemma_feed_row_ends((n - 1) as nat, rows, cur);
        assert(s.drop_last() =~= row_ends((n - 1) as nat));
        assert((rows.push(cur) + empty_rows((n - 2) as nat)).push(Seq::<State>::empty()) =~= rows.push(cur)
            + empty_rows((n - 1) as nat));
    }
}

/// Tokens that are not the end of the pattern are read as `feed` says.
pub proof fn lemma_rows_from_feed(tokens: Seq<RLEToken>, i: int, seq: Seq<RLEToken>, rows: Seq<Seq<State>>, cur: Seq<
    State,
>)
    requires
        0 <= i,
        i + seq.len() <= tokens.len(),
        tokens.subrange(i, i + seq.len()) == seq,
        no_end(seq),
    ensures
        spec_rows_from(tokens, i, rows, cur) == spec_rows_from(
            tokens,
            i + seq.len(),
            feed(seq, rows, cur).0,
            feed(seq, rows, cur).1,
        ),
    decreases seq.len(),
{
    if seq.len() > 0 {
        let front = seq.drop_last();
        let k = i + front.len();
        assert(tokens.subrange(i, i + front.len()) =~= front);
        assert(no_end(front)) by {
            assert forall|j: int| 0 <= j < front.len() implies #[trigger] front[j] != RLEToken::EndBlock by {
                assert(seq[j] != RLEToken::EndBlock);
            }
        }
        lemma_rows_from_feed(tokens, i, front, rows, cur);
        assert(tokens[k] == seq.last()) by {
            assert(tokens.subrange(i, i + seq.len())[seq.len() - 1] == tokens[k]);
        }
        assert(seq.last() != RLEToken::EndBlock) by {
            assert(seq[seq.len() - 1] != RLEToken::EndBlock);
        }
    }
}

/// The runs of a row expand to its cells.
pub proof fn lemma_runs_expand(line: Seq<State>, n: int)
    requires
        0 <= n <= line.len(),
        n <= usize::MAX,
    ensures
        spec_expand(spec_runs(line, n)) == states(line.take(n)),
        n > 0 ==> spec_runs(line, n).len() > 0 && spec_runs(line, n).last().1 == RLEToken::State(line[n - 1])
            && 1 <= spec_runs(line, n).last().0 <= n,
    decreases n,
{
    if n <= 0 {
        assert(states(line.take(0)) =~= Seq::<RLEToken>::empty());
    } else {
        lemma_runs_expand(line, n - 1);
        let prev = spec_runs(line, n - 1);
        let v = RLEToken::State(line[n - 1]);
        assert(states(line.take(n)) =~= states(line.take(n - 1)).push(v));
        if n >= 2 && line[n - 1] == line[n - 2] {
            let c = prev.last().0;
            let front = prev.drop_last();
            assert(prev =~= front.push((c, v)));
            lemma_expand_push(front, c, v);
            lemma_expand_push(front, (c + 1) as usize, v);
            assert(Seq::new((c + 1) as nat, |i: int| v) =~= Seq::new(c as nat, |i: int| v).push(v));
            assert(spec_expand(front) + Seq::new((c + 1) as nat, |i: int| v) =~= (spec_expand(front) + Seq::new(
                c as nat,
                |i: int| v,
            )).push(v));
        } else {
            lemma_expand_push(prev, 1usize, v);
            assert(Seq::new(1nat, |i: int| v) =~= seq![v]);
            assert(spec_expand(prev) + seq![v] =~= spec_expand(prev).push(v));
        }
    }
}

/// The cells of a row after its last live cell are dead.
pub proof fn lemma_dead_after_live_len(line: Seq<State>, n: int, x: int)
    requires
        0 <= n <= line.len(),
        live_len(line, n) <= x < n,
    ensures
        line[x] == State::Dead,
    decreases n,
{
    if line[n - 1] != State::Alive {
        if x < n - 1 {
            lemma_dead_after_live_len(line, n - 1, x);
        }
    }
}

/// The largest position after the last live cell among the first `n` rows.
pub open spec fn longest_live(m: Seq<Seq<State>>, n: int) -> int
    decreases n,
{
    if n <= 0 {
        0
    } else {
        let rest = longest_live(m, n - 1);
        let here = live_len(m[n - 1], m[n - 1].len() as int);
        if here > rest {
            here
        } else {
            rest
        }
    }
}

/// What the tokens of the first `n` rows of a matrix come to when they are
/// expanded and read: the rows before the last row with a live cell, each
/// cut after its last live cell, and that row, cut likewise, as the
/// unfinished row.
pub open spec fn fed_ok(m: Seq<Seq<State>>, n: int) -> bool {
    let st = spec_rle_state(m, n);
    let fed = feed(spec_expand(st.tokens), Seq::empty(), Seq::empty());
    &&& no_end(spec_expand(st.tokens))
    &&& fed.0.len() + st.pending == n
    &&& st.ymax == fed.0.len() + 1
    &&& st.xmax == longest_live(m, n)
    &&& forall|i: int| 0 <= i < fed.0.len() ==> #[trigger] fed.0[i] == trimmed(m[i])
    &&& n > 0 ==> fed.1 == trimmed(m[fed.0.len() as int])
    &&& n == 0 ==> fed.1 == Seq::<State>::empty()
    &&& forall|i: int| fed.0.len() < i < n ==> live_len(#[trigger] m[i], m[i].len() as int) == 0
}

/// The tokens of the rows of a matrix, expanded and read, are its rows.
pub proof fn lemma_fed(m: Seq<Seq<State>>, n: int)
    requires
        0 <= n <= m.len(),
        m.len() <= usize::MAX,
        forall|i: int| 0 <= i < m.len() ==> (#[trigger] m[i]).len() <= usize::MAX,
    ensures
        fed_ok(m, n),
    decreases n,
{
    let none_rows = Seq::<Seq<State>>::empty();
    let none = Seq::<State>::empty();
    if n <= 0 {
        assert(spec_expand(Seq::<(usize, RLEToken)>::empty()) =~= Seq::<RLEToken>::empty());
    } else {
        lemma_fed(m, n - 1);
        let prev = spec_rle_state(m, n - 1);
        let st = spec_rle_state(m, n);
        let line = m[n - 1];
        let xlen = live_len(line, line.len() as int);
        lemma_live_len(line, line.len() as int);
        let before = spec_expand(prev.tokens);
        let fed0 = feed(before, none_rows, none);
        if xlen == 0 {
            assert(trimmed(line) =~= none);
            if n - 1 == 0 {
                assert(fed0.0.len() == 0);
            }
        } else {
            let ends: Seq<(usize, RLEToken)> = if prev.pending > 0 {
                seq![(prev.pending as usize, RLEToken::EndLine)]
            } else {
                Seq::empty()
            };
            let row = spec_row_tokens(line);
            assert(st.tokens =~= prev.tokens + ends + row) by {
                if prev.pending > 0 {
                    assert(prev.tokens.push((prev.pending as usize, RLEToken::EndLine)) =~= prev.tokens + ends);
                } else {
                    assert(prev.tokens + ends =~= prev.tokens);
                }
            }
            lemma_expand_concat(prev.tokens + ends, row);
            lemma_expand_concat(prev.tokens, ends);
            lemma_runs_expand(line, xlen);
            let e_ends = spec_expand(ends);
            let e_row = states(trimmed(line));
            assert(spec_expand(st.tokens) == before + e_ends + e_row);
            lemma_feed_concat(before + e_ends, e_row, none_rows, none);
            lemma_feed_concat(before, e_ends, none_rows, none);
            let fed1 = feed(e_ends, fed0.0, fed0.1);
            lemma_feed_states(trimmed(line), fed1.0, fed1.1);
            if prev.pending > 0 {
                assert(ends =~= Seq::<(usize, RLEToken)>::empty().push((prev.pending as usize, RLEToken::EndLine)));
                lemma_expand_push(
                    Seq::<(usize, RLEToken)>::empty(),
                    prev.pending as usize,
                    RLEToken::EndLine,
                );
                assert(spec_expand(Seq::<(usize, RLEToken)>::empty()) =~= Seq::<RLEToken>::empty());
                assert(e_ends =~= row_ends(prev.pending));
                lemma_feed_row_ends(prev.pending, fed0.0, fed0.1);
                assert(fed1.0 =~= fed0.0.push(fed0.1) + empty_rows((prev.pending - 1) as nat));
                assert(fed1.1 =~= none);
                assert forall|i: int| 0 <= i < fed1.0.len() implies #[trigger] fed1.0[i] == trimmed(m[i]) by {
                    if i < fed0.0.len() {
                    } else if i == fed0.0.len() {
                    } else {
                        assert(live_len(m[i], m[i].len() as int) == 0);
                        assert(trimmed(m[i]) =~= none);
                    }
                }
            } else {
                assert(spec_expand(ends) =~= Seq::<RLEToken>::empty());
                assert(fed1 == fed0);
                assert(n - 1 == 0);
            }
            assert(none + trimmed(line) =~= trimmed(line));
            let e_all = spec_expand(st.tokens);
            assert(no_end(e_all)) by {
                assert forall|j: int| 0 <= j < e_all.len() implies #[trigger] e_all[j] != RLEToken::EndBlock by {
                    if j < before.len() {
                        assert(before[j] != RLEToken::EndBlock);
                    } else if j < before.len() + e_ends.len() {
                        assert(e_ends[j - before.len()] == RLEToken::EndLine);
                    } else {
                        assert(e_row[j - before.len() - e_ends.len()] != RLEToken::EndBlock);
                    }
                }
            }
        }
    }
}

/// The matrix that the written tokens of `m` are read as: the rows of `m`
/// down to the last row with a live cell, each cut after its last live
/// cell.
pub open spec fn read_back(m: Seq<Seq<State>>) -> Seq<Seq<State>> {
    let st = spec_rle_state(m, m.len() as int);
    Seq::new((st.ymax) as nat, |i: int| if i < m.len() {
        trimmed(m[i])
    } else {
        Seq::<State>::empty()
    })
}

/// The written tokens of a matrix, expanded and read, are the matrix cut
/// down to its live cells.
pub proof fn lemma_tokens_read_back(m: Seq<Seq<State>>)
    requires
        m.len() <= usize::MAX,
        forall|i: int| 0 <= i < m.len() ==> (#[trigger] m[i]).len() <= usize::MAX,
    ensures
        spec_tokens_to_matrix(spec_expand(spec_matrix_to_rle(m).0)) == Some(read_back(m)),
        forall|y: int, x: int| cell_alive(read_back(m), y, x) == cell_alive(m, y, x),
        read_back(m).len() == spec_matrix_to_rle(m).2,
        read_back(m).len() <= m.len() + 1,
        longest_row(read_back(m), read_back(m).len() as int) == spec_matrix_to_rle(m).1,
        spec_matrix_to_rle(m).1 == longest_live(m, m.len() as int),
{
    let n = m.len() as int;
    let st = spec_rle_state(m, n);
    let none_rows = Seq::<Seq<State>>::empty();
    let none = Seq::<State>::empty();
    lemma_fed(m, n);
    let body = spec_expand(st.tokens);
    let fed = feed(body, none_rows, none);
    let all = spec_expand(st.tokens.push((1usize, RLEToken::EndBlock)));
    lemma_expand_push(st.tokens, 1usize, RLEToken::EndBlock);
    assert(Seq::new(1nat, |i: int| RLEToken::EndBlock) =~= seq![RLEToken::EndBlock]);
    assert(all =~= body.push(RLEToken::EndBlock));
    assert(all.subrange(0, body.len() as int) =~= body);
    lemma_rows_from_feed(all, 0, body, none_rows, none);
    assert(all[body.len() as int] == RLEToken::EndBlock);
    let back = read_back(m);
    assert(fed.0.push(fed.1) =~= back) by {
        assert forall|i: int| 0 <= i < back.len() implies fed.0.push(fed.1)[i] == back[i] by {
            if i < fed.0.len() {
            } else {
                if n == 0 {
                    assert(fed.1 =~= none);
                }
            }
        }
    }
    assert forall|y: int, x: int| cell_alive(back, y, x) == cell_alive(m, y, x) by {
        if 0 <= y < n {
            lemma_live_len(m[y], m[y].len() as int);
            let ll = live_len(m[y], m[y].len() as int);
            if y < back.len() {
                if 0 <= x < m[y].len() && x >= ll {
                    lemma_dead_after_live_len(m[y], m[y].len() as int, x);
                }
            } else {
                assert(ll == 0);
                if 0 <= x < m[y].len() {
                    lemma_dead_after_live_len(m[y], m[y].len() as int, x);
                }
            }
        }
    }
    lemma_longest_back(m, back, back.len() as int);
    lemma_longest_live_tail(m, back.len() as int, n);
}

/// The longest row of the matrix read back is the largest position after
/// a last live cell among its rows.
proof fn lemma_longest_back(m: Seq<Seq<State>>, back: Seq<Seq<State>>, k: int)
    requires
        0 <= k <= back.len(),
        forall|i: int|
            0 <= i < back.len() ==> #[trigger] back[i] == (if i < m.len() {
                trimmed(m[i])
            } else {
                Seq::<State>::empty()
            }),
    ensures
        longest_row(back, k) == longest_live(m, if k < m.len() {
            k
        } else {
            m.len() as int
        }),
    decreases k,
{
    if k > 0 {
        lemma_longest_back(m, back, k - 1);
        if k - 1 < m.len() {
            lemma_live_len(m[k - 1], m[k - 1].len() as int);
        }
    }
}

/// Rows without a live cell do not add to the largest position after a last
/// live cell.
proof fn lemma_longest_live_tail(m: Seq<Seq<State>>, k: int, n: int)
    requires
        0 <= k,
        n <= m.len(),
        forall|i: int| k <= i < n ==> live_len(#[trigger] m[i], m[i].len() as int) == 0,
    ensures
        k <= n ==> longest_live(m, n) == longest_live(m, k),
        longest_live(m, n) >= 0,
    decreases n,
{
    if n > 0 {
        if k < n {
            lemma_longest_live_tail(m, k, n - 1);
        } else {
            lemma_longest_live_tail(m, n, n - 1);
        }
        lemma_live_len(m[n - 1], m[n - 1].len() as int);
    }
}

/// The tree that the written tokens of `t` are read as: the smallest tree
/// that holds the rows of `t` down to its last live row and the columns up
/// to its last live column.
pub open spec fn tree_read_back(t: Tree) -> Tree {
    let back = read_back(matrix_of(t));
    tree_of_matrix(back, fit_lg(needed_side(back)), 0, 0)
}

/// Whether a tree is a leaf or has a live cell in its southern or in its
/// eastern half: no smaller tree with the same north-west corner holds its
/// live cells.
pub open spec fn fills(t: Tree) -> bool {
    t.lg_size() == 1 || exists|y: int, x: int| #[trigger]
        t.grid()(y, x) && (2 * y >= t.side() || 2 * x >= t.side())
}

/// The tree read back has the cells of the tree written, and is that tree
/// if the tree written fills its square.
pub proof fn lemma_tree_read_back(t: Tree)
    requires
        t.well_formed(),
        t.side() <= usize::MAX,
    ensures
        spec_tokens_to_matrix(spec_expand(spec_matrix_to_rle(matrix_of(t)).0)) == Some(
            read_back(matrix_of(t)),
        ),
        tree_read_back(t).well_formed(),
        tree_read_back(t).lg_size() <= t.lg_size(),
        forall|y: int, x: int| #[trigger] tree_read_back(t).grid()(y, x) == t.grid()(y, x),
        fills(t) ==> tree_read_back(t) == t,
{
    let m = matrix_of(t);
    let back = read_back(m);
    let need = needed_side(back);
    let lg = fit_lg(need);
    let r = tree_read_back(t);
    let s = t.side();
    lemma_side(t);
    lemma_side_pow2(t);
    lemma2_to64();
    lemma_tokens_read_back(m);
    lemma_rle_state(m, m.len() as int);
    lemma_fit_lg(need);
    lemma_tree_of_matrix(back, lg, 0, 0);
    assert forall|y: int, x: int| cell_alive(m, y, x) == #[trigger] t.grid()(y, x) by {}
    assert(longest_live(m, m.len() as int) <= s) by {
        lemma_longest_live_bound(m, m.len() as int, s);
    }
    assert(need <= s);
    assert(lg <= t.lg_size()) by {
        if lg > t.lg_size() {
            if lg - 1 > t.lg_size() {
                lemma_pow2_strictly_increases(t.lg_size(), (lg - 1) as nat);
            }
        }
    }
    assert forall|y: int, x: int| #[trigger] r.grid()(y, x) == t.grid()(y, x) by {
        assert(cell_alive(back, y, x) == cell_alive(m, y, x));
        if cell_alive(back, y, x) {
            lemma_longest_row(back, back.len() as int, y);
        }
        if 0 <= y < r.side() && 0 <= x < r.side() {
            assert(r.cell(y, x) == cell_alive(back, 0 + y, 0 + x));
        }
    }
    if fills(t) {
        if t.lg_size() > 1 {
            let (y, x) = choose|y: int, x: int| #[trigger]
                t.grid()(y, x) && (2 * y >= t.side() || 2 * x >= t.side());
            assert(cell_alive(back, y, x) == cell_alive(m, y, x));
            lemma_longest_row(back, back.len() as int, y);
            lemma_pow2_unfold(t.lg_size());
            if lg < t.lg_size() {
                if lg < t.lg_size() - 1 {
                    lemma_pow2_strictly_increases(lg, (t.lg_size() - 1) as nat);
                }
            }
        }
        assert forall|y: int, x: int| 0 <= y < r.side() && 0 <= x < r.side() implies r.cell(y, x)
            == #[trigger] t.cell(y, x) by {
            assert(r.grid()(y, x) == t.grid()(y, x));
        }
        lemma_tree_ext(r, t);
    }
}

/// No position after a last live cell is beyond the length of the rows.
proof fn lemma_longest_live_bound(m: Seq<Seq<State>>, n: int, s: int)
    requires
        0 <= n <= m.len(),
        0 <= s,
        forall|i: int| 0 <= i < m.len() ==> (#[trigger] m[i]).len() <= s,
    ensures
        longest_live(m, n) <= s,
    decreases n,
{
    if n > 0 {
        lemma_longest_live_bound(m, n - 1, s);
        lemma_live_len(m[n - 1], m[n - 1].len() as int);
    }
}

/// The bytes of a line of tokens.
pub open spec fn line_bytes(line: Seq<(usize, RLEToken)>) -> Seq<u8>
    decreases line.len(),
{
    if line.len() == 0 {
        Seq::empty()
    } else {
        spec_token_bytes(line[0].0, line[0].1) + line_bytes(line.skip(1))
    }
}

/// Whether a byte is a digit or stands for a token.
pub open spec fn is_token_byte(c: u8) -> bool {
    is_digit(c) || c == 98 || c == 111 || c == 36 || c == 33
}

/// The decimal digits of a number are digits, at least one and at most
/// twenty for a number of 64 bits.
pub proof fn lemma_decimal_bytes(n: nat)
    ensures
        spec_decimal_bytes(n).len() >= 1,
        forall|i: int| 0 <= i < spec_decimal_bytes(n).len() ==> is_digit(#[trigger] spec_decimal_bytes(n)[i]),
    decreases n,
{
    if n >= 10 {
        lemma_decimal_bytes(n / 10);
    }
}

/// The digits of a number, where they stand in a text, are read as the
/// number.
pub proof fn lemma_decimal_read(s: Seq<u8>, i: int, n: nat)
    requires
        0 <= i,
        i + spec_decimal_bytes(n).len() <= s.len(),
        s.subrange(i, i + spec_decimal_bytes(n).len()) == spec_decimal_bytes(n),
    ensures
        decimal(s, i, i + spec_decimal_bytes(n).len()) == n,
        forall|j: int| i <= j < i + spec_decimal_bytes(n).len() ==> is_digit(#[trigger] s[j]),
    decreases n,
{
    let d = spec_decimal_bytes(n);
    let k = d.len() as int;
    lemma_decimal_bytes(n);
    assert forall|j: int| i <= j < i + k implies is_digit(#[trigger] s[j]) by {
        assert(s.subrange(i, i + k)[j - i] == s[j]);
        assert(is_digit(d[j - i]));
    }
    assert(s[i + k - 1] == d[k - 1]) by {
        assert(s.subrange(i, i + k)[k - 1] == s[i + k - 1]);
    }
    if n >= 10 {
        let front = spec_decimal_bytes(n / 10);
        assert(d.drop_last() =~= front);
        assert(s.subrange(i, i + k - 1) =~= front) by {
            assert forall|j: int| 0 <= j < k - 1 implies s.subrange(i, i + k - 1)[j] == front[j] by {
                assert(s.subrange(i, i + k)[j] == d[j]);
            }
        }
        lemma_decimal_read(s, i, n / 10);
    } else {
        assert(decimal(s, i, i) == 0);
    }
}

/// Digits are skipped up to the first byte that is none.
pub proof fn lemma_skip_digits_run(s: Seq<u8>, i: int, k: int)
    requires
        0 <= i,
        0 <= k,
        i + k <= s.len(),
        forall|j: int| i <= j < i + k ==> is_digit(#[trigger] s[j]),
        i + k == s.len() || !is_digit(s[i + k]),
    ensures
        skip_digits(s, i) == i + k,
    decreases k,
{
    if k > 0 {
        lemma_skip_digits_run(s, i + 1, k - 1);
    }
}

/// The bytes of a token are digits and then the byte of the token.
pub proof fn lemma_token_bytes(count: usize, token: RLEToken)
    ensures
        spec_token_bytes(count, token).len() >= 1,
        forall|i: int|
            0 <= i < spec_token_bytes(count, token).len() ==> is_token_byte(
                #[trigger] spec_token_bytes(count, token)[i],
            ),
        spec_token(spec_token_char(token)) == Some(token),
        !is_digit(spec_token_char(token)),
{
    lemma_decimal_bytes(count as nat);
}

/// The bytes of a token, where they stand in a text, are read as the token
/// and its count.
pub proof fn lemma_token_read(s: Seq<u8>, i: int, count: usize, token: RLEToken)
    requires
        0 <= i,
        i + spec_token_bytes(count, token).len() <= s.len(),
        s.subrange(i, i + spec_token_bytes(count, token).len()) == spec_token_bytes(count, token),
    ensures
        spec_rle_item(s, i) == Some(((count, token), i + spec_token_bytes(count, token).len())),
{
    let tb = spec_token_bytes(count, token);
    let k = tb.len() as int;
    lemma_token_bytes(count, token);
    assert(s[i + k - 1] == spec_token_char(token)) by {
        assert(s.subrange(i, i + k)[k - 1] == s[i + k - 1]);
    }
    if count == 1 {
        lemma_skip_digits_run(s, i, 0);
    } else {
        let d = spec_decimal_bytes(count as nat);
        assert(s.subrange(i, i + d.len()) =~= d) by {
            assert forall|j: int| 0 <= j < d.len() implies s.subrange(i, i + d.len())[j] == d[j] by {
                assert(s.subrange(i, i + k)[j] == tb[j]);
            }
        }
        lemma_decimal_read(s, i, count as nat);
        lemma_skip_digits_run(s, i, d.len() as int);
    }
}

/// The bytes of a line with one more token.
pub proof fn lemma_line_bytes_push(line: Seq<(usize, RLEToken)>, count: usize, token: RLEToken)
    ensures
        line_bytes(line.push((count, token))) == line_bytes(line) + spec_token_bytes(count, token),
    decreases line.len(),
{
    let more = line.push((count, token));
    if line.len() == 0 {
        assert(more.skip(1) =~= Seq::<(usize, RLEToken)>::empty());
        assert(more[0] == (count, token));
        assert(line_bytes(more.skip(1)) =~= Seq::<u8>::empty());
        assert(line_bytes(more) =~= spec_token_bytes(count, token));
        assert(line_bytes(line) + spec_token_bytes(count, token) =~= spec_token_bytes(count, token));
    } else {
        lemma_line_bytes_push(line.skip(1), count, token);
        assert(more.skip(1) =~= line.skip(1).push((count, token)));
        assert(line_bytes(more) =~= line_bytes(line) + spec_token_bytes(count, token));
    }
}

/// The bytes of a line are digits and bytes of tokens, and a line with a
/// token has a byte.
pub proof fn lemma_line_bytes(line: Seq<(usize, RLEToken)>)
    ensures
        forall|i: int| 0 <= i < line_bytes(line).len() ==> is_token_byte(#[trigger] line_bytes(line)[i]),
        line.len() > 0 ==> line_bytes(line).len() > 0,
    decreases line.len(),
{
    if line.len() > 0 {
        let tb = spec_token_bytes(line[0].0, line[0].1);
        let rest = line_bytes(line.skip(1));
        lemma_line_bytes(line.skip(1));
        lemma_token_bytes(line[0].0, line[0].1);
        assert forall|i: int| 0 <= i < line_bytes(line).len() implies is_token_byte(
            #[trigger] line_bytes(line)[i],
        ) by {
            if i < tb.len() {
                assert(is_token_byte(tb[i]));
            } else {
                assert(is_token_byte(rest[i - tb.len()]));
            }
        }
    }
}

/// The bytes of a line of tokens, where they stand in a text before a byte
/// that is no part of a token, are read as the tokens of the line.
pub proof fn lemma_line_read(s: Seq<u8>, i: int, line: Seq<(usize, RLEToken)>)
    requires
        0 <= i,
        i + line_bytes(line).len() < s.len(),
        s.subrange(i, i + line_bytes(line).len()) == line_bytes(line),
        !is_token_byte(s[i + line_bytes(line).len()]),
    ensures
        spec_rle_items(s, i) == (line, i + line_bytes(line).len()),
    decreases line.len(),
{
    let lb = line_bytes(line);
    if line.len() == 0 {
        lemma_skip_digits_run(s, i, 0);
    } else {
        let tb = spec_token_bytes(line[0].0, line[0].1);
        let rest = line.skip(1);
        lemma_token_bytes(line[0].0, line[0].1);
        assert(s.subrange(i, i + tb.len()) =~= tb) by {
            assert forall|j: int| 0 <= j < tb.len() implies s.subrange(i, i + tb.len())[j] == tb[j] by {
                assert(s.subrange(i, i + lb.len())[j] == lb[j]);
            }
        }
        lemma_token_read(s, i, line[0].0, line[0].1);
        assert(s.subrange(i + tb.len(), i + tb.len() + line_bytes(rest).len()) =~= line_bytes(rest)) by {
            assert forall|j: int| 0 <= j < line_bytes(rest).len() implies s.subrange(
                i + tb.len(),
                i + tb.len() + line_bytes(rest).len(),
            )[j] == line_bytes(rest)[j] by {
                assert(s.subrange(i, i + lb.len())[tb.len() + j] == lb[tb.len() + j]);
            }
        }
        lemma_line_read(s, i + tb.len(), rest);
        assert(seq![line[0]] + rest =~= line);
    }
}

/// A line of tokens and a line feed, where they stand in a text, are read
/// as a line of RLE tokens.
pub proof fn lemma_token_line_read(s: Seq<u8>, i: int, line: Seq<(usize, RLEToken)>)
    requires
        0 <= i,
        line.len() > 0,
        i + line_bytes(line).len() < s.len(),
        s.subrange(i, i + line_bytes(line).len()) == line_bytes(line),
        s[i + line_bytes(line).len()] == 10,
    ensures
        spec_parse_line(s, i) == Some((LineView::RLELine(line), i + line_bytes(line).len() + 1)),
{
    let lb = line_bytes(line);
    lemma_line_bytes(line);
    lemma_line_read(s, i, line);
    assert(is_token_byte(s[i])) by {
        assert(s.subrange(i, i + lb.len())[0] == s[i]);
        assert(is_token_byte(lb[0]));
    }
    assert(spec_mc_header(s, i) is None);
    assert(skip_space(s, i) == i);
    assert(spec_sym(s, i, 120) is None);
    assert(spec_rle_meta(s, i) is None);
}

/// The bytes of lines of tokens, each with a line feed after it.
pub open spec fn lines_bytes(lines: Seq<Seq<(usize, RLEToken)>>) -> Seq<u8>
    decreases lines.len(),
{
    if lines.len() == 0 {
        Seq::empty()
    } else {
        line_bytes(lines[0]) + seq![10u8] + lines_bytes(lines.skip(1))
    }
}

/// Lines of tokens as lines of a file.
pub open spec fn line_views(lines: Seq<Seq<(usize, RLEToken)>>) -> Seq<LineView> {
    lines.map_values(|l: Seq<(usize, RLEToken)>| LineView::RLELine(l))
}

/// The tokens of lines of tokens, one line after the other.
pub open spec fn flatten(lines: Seq<Seq<(usize, RLEToken)>>) -> Seq<(usize, RLEToken)>
    decreases lines.len(),
{
    if lines.len() == 0 {
        Seq::empty()
    } else {
        flatten(lines.drop_last()) + lines.last()
    }
}

/// Whether every line has a token.
pub open spec fn no_empty_line(lines: Seq<Seq<(usize, RLEToken)>>) -> bool {
    forall|i: int| 0 <= i < lines.len() ==> (#[trigger] lines[i]).len() > 0
}

/// The bytes of lines with one more line.
pub proof fn lemma_lines_bytes_push(lines: Seq<Seq<(usize, RLEToken)>>, line: Seq<(usize, RLEToken)>)
    ensures
        lines_bytes(lines.push(line)) == lines_bytes(lines) + line_bytes(line) + seq![10u8],
    decreases lines.len(),
{
    let more = lines.push(line);
    if lines.len() == 0 {
        assert(more.skip(1) =~= Seq::<Seq<(usize, RLEToken)>>::empty());
        assert(more[0] == line);
        assert(lines_bytes(more.skip(1)) =~= Seq::<u8>::empty());
        assert(lines_bytes(more) =~= line_bytes(line) + seq![10u8]);
        assert(lines_bytes(lines) + line_bytes(line) + seq![10u8] =~= line_bytes(line) + seq![10u8]);
    } else {
        lemma_lines_bytes_push(lines.skip(1), line);
        assert(more.skip(1) =~= lines.skip(1).push(line));
        assert(lines_bytes(more) =~= lines_bytes(lines) + line_bytes(line) + seq![10u8]);
    }
}

/// Lines of tokens, where they stand in a text, are read as lines of RLE
/// tokens.
pub proof fn lemma_lines_read(s: Seq<u8>, i: int, lines: Seq<Seq<(usize, RLEToken)>>)
    requires
        0 <= i,
        i + lines_bytes(lines).len() <= s.len(),
        s.subrange(i, i + lines_bytes(lines).len()) == lines_bytes(lines),
        no_empty_line(lines),
    ensures
        spec_lines(s, i) == (
            line_views(lines) + spec_lines(s, i + lines_bytes(lines).len()).0,
            spec_lines(s, i + lines_bytes(lines).len()).1,
        ),
    decreases lines.len(),
{
    let all = lines_bytes(lines);
    if lines.len() == 0 {
        assert(line_views(lines) + spec_lines(s, i).0 =~= spec_lines(s, i).0);
    } else {
        let first = lines[0];
        let rest = lines.skip(1);
        let lb = line_bytes(first);
        let j = i + lb.len() + 1;
        assert(first.len() > 0);
        assert(s.subrange(i, i + lb.len()) =~= lb) by {
            assert forall|k: int| 0 <= k < lb.len() implies s.subrange(i, i + lb.len())[k] == lb[k] by {
                assert(s.subrange(i, i + all.len())[k] == all[k]);
            }
        }
        assert(s[i + lb.len()] == 10) by {
            assert(s.subrange(i, i + all.len())[lb.len() as int] == all[lb.len() as int]);
        }
        lemma_token_line_read(s, i, first);
        assert(s.subrange(j, j + lines_bytes(rest).len()) =~= lines_bytes(rest)) by {
            assert forall|k: int| 0 <= k < lines_bytes(rest).len() implies s.subrange(
                j,
                j + lines_bytes(rest).len(),
            )[k] == lines_bytes(rest)[k] by {
                assert(s.subrange(i, i + all.len())[lb.len() + 1 + k] == all[lb.len() + 1 + k]);
            }
        }
        assert(no_empty_line(rest)) by {
            assert forall|k: int| 0 <= k < rest.len() implies (#[trigger] rest[k]).len() > 0 by {
                assert(lines[k + 1].len() > 0);
            }
        }
        lemma_lines_read(s, j, rest);
        assert(line_views(lines) =~= seq![LineView::RLELine(first)] + line_views(rest));
        assert(seq![LineView::RLELine(first)] + (line_views(rest) + spec_lines(s, j + lines_bytes(rest).len()).0)
            =~= line_views(lines) + spec_lines(s, j + lines_bytes(rest).len()).0);
    }
}

/// Ten to the power `k`.
pub open spec fn pow10(k: nat) -> nat
    decreases k,
{
    if k == 0 {
        1
    } else {
        10 * pow10((k - 1) as nat)
    }
}

/// A number below ten to the power `k` has at most `k` digits.
pub proof fn lemma_decimal_len(n: nat, k: nat)
    requires
        k >= 1,
        n < pow10(k),
    ensures
        spec_decimal_bytes(n).len() <= k,
    decreases k,
{
    if n >= 10 {
        reveal_with_fuel(pow10, 2);
        lemma_decimal_len(n / 10, (k - 1) as nat);
    }
}

/// The bytes of a token are at most twenty-one.
pub proof fn lemma_token_bytes_len(count: usize, token: RLEToken)
    ensures
        1 <= spec_token_bytes(count, token).len() <= 21,
{
    assert(pow10(20) == 100000000000000000000) by {
        reveal_with_fuel(pow10, 21);
    }
    lemma_decimal_len(count as nat, 20);
}

/// The lines that the first `n` tokens are written in: the lines that are
/// full, and the line that is being filled.
pub open spec fn body_lines(tokens: Seq<(usize, RLEToken)>, n: int) -> (
    Seq<Seq<(usize, RLEToken)>>,
    Seq<(usize, RLEToken)>,
)
    decreases n,
{
    if n <= 0 {
        (Seq::empty(), Seq::empty())
    } else {
        let (done, cur) = body_lines(tokens, n - 1);
        let token = spec_token_bytes(tokens[n - 1].0, tokens[n - 1].1);
        if spec_body(tokens, n - 1).1 + token.len() > 79 {
            (done.push(cur), seq![tokens[n - 1]])
        } else {
            (done, cur.push(tokens[n - 1]))
        }
    }
}

/// The written bytes of tokens are the bytes of the lines they are written
/// in.
pub proof fn lemma_body_lines(tokens: Seq<(usize, RLEToken)>, n: int)
    requires
        0 <= n <= tokens.len(),
    ensures
        spec_body(tokens, n).0 == lines_bytes(body_lines(tokens, n).0) + line_bytes(body_lines(tokens, n).1),
        spec_body(tokens, n).1 == line_bytes(body_lines(tokens, n).1).len(),
        no_empty_line(body_lines(tokens, n).0),
        n > 0 ==> body_lines(tokens, n).1.len() > 0,
        flatten(body_lines(tokens, n).0) + body_lines(tokens, n).1 == tokens.take(n),
    decreases n,
{
    if n <= 0 {
        assert(lines_bytes(Seq::empty()) + line_bytes(Seq::empty()) =~= Seq::<u8>::empty());
        assert(flatten(Seq::empty()) + Seq::<(usize, RLEToken)>::empty() =~= tokens.take(0));
    } else {
        lemma_body_lines(tokens, n - 1);
        let (done, cur) = body_lines(tokens, n - 1);
        let (body, line_len) = spec_body(tokens, n - 1);
        let tok = tokens[n - 1];
        let tb = spec_token_bytes(tok.0, tok.1);
        lemma_token_bytes_len(tok.0, tok.1);
        assert(tokens.take(n) =~= tokens.take(n - 1).push(tok));
        if line_len + tb.len() > 79 {
            assert(cur.len() > 0) by {
                if cur.len() == 0 {
                    assert(line_bytes(cur) =~= Seq::<u8>::empty());
                }
            }
            lemma_lines_bytes_push(done, cur);
            lemma_line_bytes_push(Seq::empty(), tok.0, tok.1);
            assert(Seq::<(usize, RLEToken)>::empty().push(tok) =~= seq![tok]);
            assert(line_bytes(Seq::<(usize, RLEToken)>::empty()) =~= Seq::<u8>::empty());
            assert(line_bytes(seq![tok]) =~= tb);
            assert(body.push(10u8) + tb =~= lines_bytes(done) + line_bytes(cur) + seq![10u8] + tb);
            assert(done.push(cur).drop_last() =~= done);
            assert(flatten(done.push(cur)) + seq![tok] =~= (flatten(done) + cur).push(tok));
        } else {
            lemma_line_bytes_push(cur, tok.0, tok.1);
            assert(body + tb =~= lines_bytes(done) + (line_bytes(cur) + tb));
            assert(flatten(done) + cur.push(tok) =~= (flatten(done) + cur).push(tok));
        }
    }
}

/// What a header and then lines of tokens amount to: the tokens of the
/// lines.
pub proof fn lemma_progress_of_lines(all: Seq<LineView>, meta: RLEMeta, lines: Seq<Seq<(usize, RLEToken)>>, k: int)
    requires
        0 <= k <= lines.len(),
        all.len() >= lines.len() + 1,
        all[0] == LineView::RLEMeta(meta),
        forall|i: int| 0 <= i < lines.len() ==> #[trigger] all[i + 1] == LineView::RLELine(lines[i]),
    ensures
        spec_progress_of(all, (1 + k) as nat) == Progress::RLE(flatten(lines.take(k))),
    decreases k,
{
    if k == 0 {
        assert(spec_progress_of(all, 0) == Progress::Start);
        assert(flatten(lines.take(0)) =~= Seq::<(usize, RLEToken)>::empty());
    } else {
        lemma_progress_of_lines(all, meta, lines, k - 1);
        assert(all[(k - 1) + 1] == LineView::RLELine(lines[k - 1]));
        assert(lines.take(k).drop_last() =~= lines.take(k - 1));
        assert(lines.take(k).last() == lines[k - 1]);
    }
}

/// The rest of a line is skipped up to its end.
pub proof fn lemma_skip_line_run(s: Seq<u8>, i: int, k: int)
    requires
        0 <= i,
        0 <= k,
        i + k <= s.len(),
        forall|j: int| i <= j < i + k ==> !is_line_end(#[trigger] s[j]),
        i + k == s.len() || is_line_end(s[i + k]),
    ensures
        skip_line(s, i) == i + k,
    decreases k,
{
    if k > 0 {
        lemma_skip_line_run(s, i + 1, k - 1);
    }
}

/// One blank before a byte that is none is skipped.
pub proof fn lemma_skip_one_space(s: Seq<u8>, i: int)
    requires
        0 <= i,
        i + 1 < s.len(),
        s[i] == 32,
        !is_space(s[i + 1]),
    ensures
        skip_space(s, i) == i + 1,
{
    assert(skip_space(s, i + 1) == i + 1);
}

/// The written header, at the start of a text, is read as the header of an
/// RLE file with the width and the height written.
pub proof fn lemma_header_read(s: Seq<u8>, x: nat, y: nat)
    requires
        x <= u64::MAX,
        y <= u64::MAX,
        spec_header(x, y).len() <= s.len(),
        s.subrange(0, spec_header(x, y).len() as int) == spec_header(x, y),
    ensures
        spec_parse_line(s, 0) == Some(
            (LineView::RLEMeta(RLEMeta { x: x as u64, y: y as u64 }), spec_header(x, y).len() as int),
        ),
{
    let hdr = spec_header(x, y);
    let h = hdr.len() as int;
    let dx = spec_decimal_bytes(x);
    let dy = spec_decimal_bytes(y);
    let kx = dx.len() as int;
    let ky = dy.len() as int;
    let a = 4 + kx;
    let b = a + 6 + ky;
    let first = seq![120u8, 32, 61, 32];
    let second = seq![44u8, 32, 121, 32, 61, 32];
    let third = seq![44u8, 32, 114, 117, 108, 101, 32, 61, 32, 66, 51, 47, 83, 50, 51, 10];
    lemma_decimal_bytes(x);
    lemma_decimal_bytes(y);
    assert(h == b + 16);
    assert forall|j: int| 0 <= j < h implies s[j] == #[trigger] hdr[j] by {
        assert(s.subrange(0, h)[j] == s[j]);
    }
    assert forall|j: int| 0 <= j < 4 implies #[trigger] hdr[j] == first[j] by {}
    assert forall|j: int| 0 <= j < kx implies #[trigger] hdr[4 + j] == dx[j] by {}
    assert forall|j: int| 0 <= j < 6 implies #[trigger] hdr[a + j] == second[j] by {}
    assert forall|j: int| 0 <= j < ky implies #[trigger] hdr[a + 6 + j] == dy[j] by {}
    assert forall|j: int| 0 <= j < 16 implies #[trigger] hdr[b + j] == third[j] by {}
    assert(s[0] == 120 && s[1] == 32 && s[2] == 61 && s[3] == 32) by {
        assert(hdr[0] == first[0] && hdr[1] == first[1] && hdr[2] == first[2] && hdr[3] == first[3]);
    }
    assert(s[a] == 44 && s[a + 1] == 32 && s[a + 2] == 121 && s[a + 3] == 32 && s[a + 4] == 61 && s[a + 5]
        == 32) by {
        assert(hdr[a + 0] == second[0] && hdr[a + 1] == second[1] && hdr[a + 2] == second[2] && hdr[a + 3]
            == second[3] && hdr[a + 4] == second[4] && hdr[a + 5] == second[5]);
    }
    assert(s[b] == 44 && s[b + 1] == 32 && s[b + 2] == 114 && s[b + 3] == 117 && s[b + 4] == 108 && s[b + 5]
        == 101 && s[b + 6] == 32 && s[b + 7] == 61 && s[b + 8] == 32 && s[b + 9] == 66 && s[b + 10] == 51
        && s[b + 11] == 47 && s[b + 12] == 83 && s[b + 13] == 50 && s[b + 14] == 51 && s[b + 15] == 10) by {
        assert(hdr[b + 0] == third[0] && hdr[b + 1] == third[1] && hdr[b + 2] == third[2] && hdr[b + 3]
            == third[3] && hdr[b + 4] == third[4] && hdr[b + 5] == third[5] && hdr[b + 6] == third[6]
            && hdr[b + 7] == third[7] && hdr[b + 8] == third[8] && hdr[b + 9] == third[9] && hdr[b + 10]
            == third[10] && hdr[b + 11] == third[11] && hdr[b + 12] == third[12] && hdr[b + 13] == third[13]
            && hdr[b + 14] == third[14] && hdr[b + 15] == third[15]);
    }
    assert(s.subrange(4, 4 + kx) =~= dx) by {
        assert forall|j: int| 0 <= j < kx implies s.subrange(4, 4 + kx)[j] == dx[j] by {
            assert(hdr[4 + j] == dx[j]);
        }
    }
    assert(s.subrange(a + 6, a + 6 + ky) =~= dy) by {
        assert forall|j: int| 0 <= j < ky implies s.subrange(a + 6, a + 6 + ky)[j] == dy[j] by {
            assert(hdr[a + 6 + j] == dy[j]);
        }
    }
    lemma_decimal_read(s, 4, x);
    lemma_skip_digits_run(s, 4, kx);
    lemma_decimal_read(s, a + 6, y);
    lemma_skip_digits_run(s, a + 6, ky);
    assert(spec_mc_header(s, 0) is None);
    assert(skip_space(s, 0) == 0);
    assert(spec_sym(s, 0, 120) == Some(1int));
    lemma_skip_one_space(s, 1);
    assert(spec_sym(s, 1, 61) == Some(3int));
    lemma_skip_one_space(s, 3);
    assert(spec_uint(s, 4) == Some((x as u64, a)));
    assert(spec_num(s, 3) == Some((x as u64, a)));
    assert(skip_space(s, a) == a);
    assert(spec_sym(s, a, 44) == Some(a + 1));
    lemma_skip_one_space(s, a + 1);
    assert(spec_sym(s, a + 1, 121) == Some(a + 3));
    lemma_skip_one_space(s, a + 3);
    assert(spec_sym(s, a + 3, 61) == Some(a + 5));
    lemma_skip_one_space(s, a + 5);
    assert(spec_uint(s, a + 6) == Some((y as u64, b)));
    assert(spec_num(s, a + 5) == Some((y as u64, b)));
    assert(skip_space(s, b) == b);
    assert(spec_sym(s, b, 44) == Some(b + 1));
    lemma_skip_one_space(s, b + 1);
    assert(spec_rule_word(s, b + 1) == Some(b + 6));
    lemma_skip_one_space(s, b + 6);
    assert(spec_sym(s, b + 6, 61) == Some(b + 8));
    lemma_skip_one_space(s, b + 8);
    lemma_skip_line_run(s, b + 9, 6);
    assert(skip_line(s, skip_space(s, b + 8)) == b + 15);
    assert(spec_rle_meta(s, 0) == Some((RLEMeta { x: x as u64, y: y as u64 }, b + 15)));
    assert(spec_line_ending(s, b + 15) == Some(b + 16));
}

/// A line feed at the end of a text is read as an empty line, and nothing
/// is read after it.
pub proof fn lemma_tail_read(s: Seq<u8>, e: int)
    requires
        0 <= e,
        e + 1 == s.len(),
        s[e] == 10,
    ensures
        spec_lines(s, e) == (seq![LineView::Comment], s.len() as int),
{
    let n = s.len() as int;
    assert(skip_space(s, e) == e);
    assert(skip_digits(s, e) == e);
    assert(spec_mc_header(s, e) is None);
    assert(spec_rle_meta(s, e) is None);
    assert(spec_rle_item(s, e) is None);
    assert(spec_rle_items(s, e) == (Seq::<(usize, RLEToken)>::empty(), e));
    assert(spec_rle_line(s, e) is None);
    assert(spec_mc_cells(s, e) == (Seq::<State>::empty(), e));
    assert(spec_mc_row(s, e) is None);
    assert(spec_mc_rows(s, e, 8) is None);
    assert(spec_mc_node(s, e) is None);
    assert(spec_mc_line(s, e) is None);
    assert(spec_comment(s, e) == e);
    assert(spec_line_body(s, e) == (LineView::Comment, e));
    assert(spec_parse_line(s, e) == Some((LineView::Comment, n)));
    assert(skip_space(s, n) == n);
    assert(skip_digits(s, n) == n);
    assert(spec_mc_header(s, n) is None);
    assert(spec_rle_meta(s, n) is None);
    assert(spec_rle_item(s, n) is None);
    assert(spec_rle_items(s, n) == (Seq::<(usize, RLEToken)>::empty(), n));
    assert(spec_mc_cells(s, n) == (Seq::<State>::empty(), n));
    assert(spec_mc_row(s, n) is None);
    assert(spec_mc_rows(s, n, 8) is None);
    assert(spec_mc_node(s, n) is None);
    assert(spec_line_body(s, n) == (LineView::Comment, n));
    assert(spec_parse_line(s, n) is None);
    assert(spec_lines(s, n) == (Seq::<LineView>::empty(), n));
    assert(seq![LineView::Comment] + Seq::<LineView>::empty() =~= seq![LineView::Comment]);
}

/// The lines of tokens that tokens are written in.
pub open spec fn written_lines(tokens: Seq<(usize, RLEToken)>) -> Seq<Seq<(usize, RLEToken)>> {
    if tokens.len() > 0 {
        body_lines(tokens, tokens.len() as int).0.push(body_lines(tokens, tokens.len() as int).1)
    } else {
        Seq::empty()
    }
}

/// The written bytes of tokens are the header and the lines of tokens.
pub proof fn lemma_written_layout(tokens: Seq<(usize, RLEToken)>, x: nat, y: nat)
    ensures
        spec_rle_bytes(tokens, x, y) == spec_header(x, y) + lines_bytes(written_lines(tokens)),
        no_empty_line(written_lines(tokens)),
        flatten(written_lines(tokens)) == tokens,
{
    let n = tokens.len() as int;
    let hdr = spec_header(x, y);
    let (done, cur) = body_lines(tokens, n);
    let (body, line_len) = spec_body(tokens, n);
    let lines = written_lines(tokens);
    lemma_body_lines(tokens, n);
    lemma_line_bytes(cur);
    assert(tokens.take(n) =~= tokens);
    if n > 0 {
        lemma_lines_bytes_push(done, cur);
        assert(done.push(cur).drop_last() =~= done);
        assert(spec_rle_bytes(tokens, x, y) =~= hdr + lines_bytes(lines));
        assert forall|i: int| 0 <= i < lines.len() implies (#[trigger] lines[i]).len() > 0 by {
            if i < done.len() {
                assert(done[i].len() > 0);
            }
        }
    } else {
        assert(line_bytes(cur) =~= Seq::<u8>::empty());
        assert(lines_bytes(done) =~= Seq::<u8>::empty());
        assert(spec_rle_bytes(tokens, x, y) =~= hdr + lines_bytes(lines));
        assert(tokens =~= Seq::<(usize, RLEToken)>::empty());
    }
}

/// A header, lines of tokens and a line feed are read as the header, the
/// lines and an empty line.
pub proof fn lemma_file_lines(s: Seq<u8>, x: nat, y: nat, lines: Seq<Seq<(usize, RLEToken)>>)
    requires
        x <= u64::MAX,
        y <= u64::MAX,
        no_empty_line(lines),
        s == spec_header(x, y) + lines_bytes(lines) + seq![10u8],
    ensures
        spec_lines(s, 0) == (
            seq![LineView::RLEMeta(RLEMeta { x: x as u64, y: y as u64 })] + (line_views(lines)
                + seq![LineView::Comment]),
            s.len() as int,
        ),
{
    let hdr = spec_header(x, y);
    let h = hdr.len() as int;
    let l = lines_bytes(lines).len() as int;
    let e = h + l;
    assert(s.subrange(0, h) =~= hdr);
    lemma_header_read(s, x, y);
    assert(s.subrange(h, h + l) =~= lines_bytes(lines));
    lemma_lines_read(s, h, lines);
    assert(s[e] == 10);
    lemma_tail_read(s, e);
    assert(h > 0) by {
        lemma_decimal_bytes(x);
    }
}

/// A header, lines of tokens and an empty line amount to the tokens of the
/// lines.
pub proof fn lemma_file_progress(meta: RLEMeta, lines: Seq<Seq<(usize, RLEToken)>>)
    ensures
        spec_process_lines(seq![LineView::RLEMeta(meta)] + (line_views(lines) + seq![LineView::Comment]))
            == ParseOutView::RLE(flatten(lines)),
{
    let all = seq![LineView::RLEMeta(meta)] + (line_views(lines) + seq![LineView::Comment]);
    assert(all.len() == lines.len() + 2);
    assert forall|i: int| 0 <= i < lines.len() implies #[trigger] all[i + 1] == LineView::RLELine(lines[i]) by {
        assert(line_views(lines)[i] == LineView::RLELine(lines[i]));
    }
    lemma_progress_of_lines(all, meta, lines, lines.len() as int);
    assert(lines.take(lines.len() as int) =~= lines);
    assert(all[(lines.len() + 1) as int] == LineView::Comment);
    assert(spec_progress_of(all, (lines.len() + 2) as nat) == spec_progress(
        spec_progress_of(all, (lines.len() + 1) as nat),
        all[(lines.len() + 1) as int],
    ));
}

/// The written bytes of tokens, with a line feed after them, are read as
/// an RLE file of those tokens, all of it.
pub proof fn lemma_bytes_read(tokens: Seq<(usize, RLEToken)>, x: nat, y: nat)
    requires
        x <= u64::MAX,
        y <= u64::MAX,
    ensures
        spec_parse_file(spec_rle_bytes(tokens, x, y).push(10u8)) == (
            ParseOutView::RLE(tokens),
            (spec_rle_bytes(tokens, x, y).len() + 1) as int,
        ),
{
    let s = spec_rle_bytes(tokens, x, y).push(10u8);
    let lines = written_lines(tokens);
    lemma_written_layout(tokens, x, y);
    assert(s =~= spec_header(x, y) + lines_bytes(lines) + seq![10u8]);
    lemma_file_lines(s, x, y, lines);
    lemma_file_progress(RLEMeta { x: x as u64, y: y as u64 }, lines);
}

/// Reading what was written gives the cells back: the text of a block,
/// read, is the smallest tree with the north-west corner and the live
/// cells of the block; it is the block itself if the block is a leaf or
/// has a live cell in its southern or eastern half.
pub proof fn law_round_trip(t: Tree)
    requires
        t.well_formed(),
        t.side() <= usize::MAX,
    ensures
        spec_source_tree(spec_format_rle(t)) == Some(tree_read_back(t)),
        tree_read_back(t).well_formed(),
        forall|y: int, x: int| #[trigger] tree_read_back(t).grid()(y, x) == t.grid()(y, x),
        fills(t) ==> spec_source_tree(spec_format_rle(t)) == Some(t),
{
    let m = matrix_of(t);
    let (tokens, x, y) = spec_matrix_to_rle(m);
    lemma_side(t);
    lemma_tree_read_back(t);
    lemma_tokens_read_back(m);
    lemma_rle_state(m, m.len() as int);
    lemma_longest_live_bound(m, m.len() as int, t.side());
    lemma_bytes_read(tokens, x, y);
}

} // verus!
