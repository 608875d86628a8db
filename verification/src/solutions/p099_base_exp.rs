//! Largest exponential: which line of a list of bases and exponents holds
//! the greatest power.
//!
//! The library reads the pairs and, once each power has been given a
//! measure of its size, picks the line of the greatest.

use crate::solutions::p107_network::{parse_word, pieces, split, views, word_weight};
use vstd::prelude::*;
use vstd::string::StringSliceAdditionalSpecFns;

verus! {

/// The base and the exponent that a line spells: two decimal numbers that
/// fit a `u32` each, with a comma between them.
pub open spec fn pair_of(line: Seq<u8>) -> Option<(u32, u32)> {
    let words = pieces(line, 0x2c);
    if words.len() == 2 {
        match (word_weight(words[0]), word_weight(words[1])) {
            (Some(base), Some(exponent)) => if base <= u32::MAX && exponent <= u32::MAX {
                Some((base as u32, exponent as u32))
            } else {
                None
            },
            _ => None,
        }
    } else {
        None
    }
}

/// The pairs that the lines spell, in their order. A line without a comma
/// is passed over; `None` if a line with a comma spells no pair.
pub open spec fn pairs_of(lines: Seq<Seq<u8>>) -> Option<Seq<(u32, u32)>>
    decreases lines.len(),
{
    if lines.len() == 0 {
        Some(Seq::empty())
    } else {
        match pairs_of(lines.drop_last()) {
            Some(pairs) => if pieces(lines.last(), 0x2c).len() < 2 {
                Some(pairs)
            } else {
                match pair_of(lines.last()) {
                    Some(pair) => Some(pairs.push(pair)),
                    None => None,
                }
            },
            None => None,
        }
    }
}

/// Where the first lines spell no list of pairs, all the lines spell none.
pub proof fn lemma_pairs_fail(lines: Seq<Seq<u8>>, k: int)
    requires
        0 <= k <= lines.len(),
        pairs_of(lines.take(k)) is None,
    ensures
        pairs_of(lines) is None,
    decreases lines.len() - k,
{
    if k == lines.len() {
        assert(lines.take(k) =~= lines);
    } else {
        assert(lines.take(k + 1).drop_last() =~= lines.take(k));
        lemma_pairs_fail(lines, k + 1);
    }
}

/// Reads the base and the exponent of a line.
pub fn read_pair(line: &[u8]) -> (pair: Option<(u32, u32)>)
    ensures
        pair == pair_of(line@),
{
    let words = split(line, 0x2c);
    assert(views(words@).len() == words@.len());
    if words.len() != 2 {
        return None;
    }
    assert(views(words@)[0] == words@[0]@);
    assert(views(words@)[1] == words@[1]@);
    match (parse_word(words[0].as_slice()), parse_word(words[1].as_slice())) {
        (Some(base), Some(exponent)) => {
            if base <= 0xffff_ffff && exponent <= 0xffff_ffff {
                Some((base as u32, exponent as u32))
            } else {
                None
            }
        },
        _ => None,
    }
}

/// Reads the pairs of base and exponent of a text, one to a line.
pub fn read_pairs(input: &str) -> (pairs: Option<Vec<(u32, u32)>>)
    ensures
        match pairs {
            Some(ps) => pairs_of(pieces(input.spec_bytes(), 0x0a)) == Some(ps@),
            None => pairs_of(pieces(input.spec_bytes(), 0x0a)) is None,
        },
{
    let bytes = input.as_bytes();
    let lines = split(bytes, 0x0a);
    let ghost texts = pieces(bytes@, 0x0a);
    assert(views(lines@).len() == lines@.len());
    let mut pairs: Vec<(u32, u32)> = Vec::new();
    assert(texts.take(0) =~= Seq::<Seq<u8>>::empty());
    for r in 0..lines.len()
        invariant
            bytes@ == input.spec_bytes(),
            texts == pieces(bytes@, 0x0a),
            views(lines@) == texts,
            lines@.len() == texts.len(),
            pairs_of(texts.take(r as int)) == Some(pairs@),
    {
        assert(views(lines@)[r as int] == lines@[r as int]@);
        proof {
            assert(texts.take(r + 1).drop_last() =~= texts.take(r as int));
            assert(texts.take(r + 1).last() == lines@[r as int]@);
        }
        let words = split(lines[r].as_slice(), 0x2c);
        assert(views(words@).len() == words@.len());
        if words.len() >= 2 {
            match read_pair(lines[r].as_slice()) {
                Some(pair) => {
                    pairs.push(pair);
                },
                None => {
                    proof {
                        lemma_pairs_fail(texts, r + 1);
                    }
                    return None;
                },
            }
        }
    }
    assert(texts.take(texts.len() as int) =~= texts);
    Some(pairs)
}

/// The number of the line with the greatest value, the first line being
/// line 1; of several lines with the greatest value, the last. `None` if
/// there is no line.
pub fn greatest_line(values: &[i64]) -> (line: Option<usize>)
    ensures
        match line {
            Some(n) => {
                &&& 1 <= n <= values@.len()
                &&& forall|k: int| 0 <= k < values@.len() ==> #[trigger] values@[k] <= values@[n - 1]
                &&& forall|k: int| n <= k < values@.len() ==> #[trigger] values@[k] < values@[n - 1]
            },
            None => values@.len() == 0,
        },
{
    if values.len() == 0 {
        return None;
    }
    let mut at: usize = 0;
    for i in 1..values.len()
        invariant
            at < i,
            forall|k: int| 0 <= k < i ==> #[trigger] values@[k] <= values@[at as int],
            forall|k: int| at < k < i ==> #[trigger] values@[k] < values@[at as int],
    {
        if values[i] >= values[at] {
            at = i;
        }
    }
    Some(at + 1)
}

} // verus!
