//! Reading and writing patterns as text.
//!
//! A pattern is read from the bytes of an RLE or a Macrocell file; which of
//! the two it is, the file says itself. It is written as RLE.

pub mod build_mc;
pub mod build_rle;
pub mod parse;
pub mod round_trip;
pub mod write;

use vstd::prelude::*;
use vstd::arithmetic::power2::pow2;
use vstd::slice::slice_to_vec;
use vstd::string::StringSliceAdditionalSpecFns;
use crate::{Block, Hashlife, has_collision};
use crate::block::{Block as RawBlock, extends, lemma_extends_trans};
use crate::tree::Tree;
use self::build_mc::{build_mc, spec_build_mc};
use self::build_rle::{
    block_from_rle,
    fit_lg,
    needed_side,
    spec_expand,
    spec_tokens_to_matrix,
    tree_of_matrix,
    lemma_shows_unique,
};
use self::parse::{parse_file, spec_parse_file, ParseOut, ParseOutView};

verus! {

/// The matrix of cells that the bytes of an RLE file describe, if they are
/// an RLE file whose pattern ends.
pub open spec fn spec_source_matrix(bytes: Seq<u8>) -> Option<Seq<Seq<parse::State>>> {
    let input = bytes.push(10u8);
    let (out, end) = spec_parse_file(input);
    if end != input.len() {
        None
    } else {
        match out {
            ParseOutView::RLE(tokens) => spec_tokens_to_matrix(spec_expand(tokens)),
            _ => None,
        }
    }
}

/// The tree that the bytes of a file describe. A line end is put after the
/// bytes, and all of that must be lines. An RLE file gives the smallest
/// tree that holds its rows and columns, with the pattern in its north-west
/// corner; a Macrocell file gives the tree of its last line.
pub open spec fn spec_source_tree(bytes: Seq<u8>) -> Option<Tree> {
    let input = bytes.push(10u8);
    let (out, end) = spec_parse_file(input);
    if end != input.len() {
        None
    } else {
        match out {
            ParseOutView::RLE(tokens) => match spec_tokens_to_matrix(spec_expand(tokens)) {
                Some(m) => Some(tree_of_matrix(m, fit_lg(needed_side(m)), 0, 0)),
                None => None,
            },
            ParseOutView::MC(lines) => spec_build_mc(lines),
            ParseOutView::Fail => None,
        }
    }
}

/// Whether the bytes describe an RLE pattern whose square does not fit the
/// machine.
pub open spec fn spec_source_too_large(bytes: Seq<u8>) -> bool {
    match spec_source_matrix(bytes) {
        Some(m) => pow2(fit_lg(needed_side(m))) > usize::MAX,
        None => false,
    }
}

impl Hashlife {
    /// The raw block that the bytes of an RLE or Macrocell file describe;
    /// an error if they describe none.
    pub fn raw_block_from_bytes(&mut self, bytes: &[u8]) -> (r: Result<RawBlock, ()>)
        requires
            old(self).wf(),
        ensures
            final(self).wf(),
            extends(old(self)@, final(self)@),
            spec_source_tree(bytes@) is None ==> r is Err,
            r is Err ==> spec_source_tree(bytes@) is None || has_collision(final(self)@)
                || spec_source_too_large(bytes@),
            r matches Ok(b) ==> final(self).sound(b) && spec_source_tree(bytes@) == Some(final(self).tree(b)),
    {
        proof {
            lemma_extends_trans(self@, self@, self@);
        }
        let mut with_newline = slice_to_vec(bytes);
        with_newline.push(10);
        let (parse_out, end) = parse_file(with_newline.as_slice());
        if end != with_newline.len() {
            return Err(());
        }
        match parse_out {
            ParseOut::RLE(tokens) => {
                match block_from_rle(self, tokens.as_slice()) {
                    Ok(b) => {
                        proof {
                            let m = spec_tokens_to_matrix(spec_expand(tokens@))->Some_0;
                            lemma_shows_unique(self.tree(b), m);
                        }
                        Ok(b)
                    },
                    Err(_) => Err(()),
                }
            },
            ParseOut::MC(lines) => {
                match build_mc(self, lines.as_slice()) {
                    Ok(b) => Ok(b.to_raw()),
                    Err(_) => Err(()),
                }
            },
            ParseOut::Fail => Err(()),
        }
    }

    /// The block that the bytes of an RLE or Macrocell file describe; an
    /// error if they describe none.
    pub fn block_from_bytes(&mut self, bytes: &[u8]) -> (r: Result<Block, ()>)
        requires
            old(self).wf(),
        ensures
            final(self).wf(),
            extends(old(self)@, final(self)@),
            spec_source_tree(bytes@) is None ==> r is Err,
            r is Err ==> spec_source_tree(bytes@) is None || has_collision(final(self)@)
                || spec_source_too_large(bytes@),
            r matches Ok(b) ==> b.valid(final(self)) && spec_source_tree(bytes@) == Some(b.tree(final(self))),
    {
        let raw = self.raw_block_from_bytes(bytes)?;
        Ok(self.block_from_raw(raw))
    }

    /// The raw block that the text of an RLE or Macrocell file describes.
    pub fn raw_rle(&mut self, pat: &str) -> (r: Result<RawBlock, ()>)
        requires
            old(self).wf(),
        ensures
            final(self).wf(),
            extends(old(self)@, final(self)@),
            spec_source_tree(pat.spec_bytes()) is None ==> r is Err,
            r is Err ==> spec_source_tree(pat.spec_bytes()) is None || has_collision(final(self)@)
                || spec_source_too_large(pat.spec_bytes()),
            r matches Ok(b) ==> final(self).sound(b) && spec_source_tree(pat.spec_bytes()) == Some(
                final(self).tree(b),
            ),
    {
        self.raw_block_from_bytes(pat.as_bytes())
    }

    /// The block that the text of an RLE or Macrocell file describes.
    pub fn rle(&mut self, pat: &str) -> (r: Result<Block, ()>)
        requires
            old(self).wf(),
        ensures
            final(self).wf(),
            extends(old(self)@, final(self)@),
            spec_source_tree(pat.spec_bytes()) is None ==> r is Err,
            r is Err ==> spec_source_tree(pat.spec_bytes()) is None || has_collision(final(self)@)
                || spec_source_too_large(pat.spec_bytes()),
            r matches Ok(b) ==> b.valid(final(self)) && spec_source_tree(pat.spec_bytes()) == Some(
                b.tree(final(self)),
            ),
    {
        self.block_from_bytes(pat.as_bytes())
    }
}

} // verus!
