//! Minimal network: the weight that a network sheds when only the edges
//! stay that link what nothing lighter has linked.
//!
//! The network is given as a text, one row of the matrix of weights to a
//! line, the entries of a row separated by commas; an entry that is no
//! decimal number (a `-`, by custom) means that there is no edge. The edges
//! are sorted by weight and taken in turn; an edge whose ends are linked
//! already by the edges before it is redundant, and its weight is saved.

use crate::disjoint::{
    joined_pairs, partition_of, partition_same_set, partition_size, partition_union,
};
use crate::slices::{is_rearrangement, rearranged};
use vstd::prelude::*;
use vstd::string::StringSliceAdditionalSpecFns;

verus! {

/// The pieces of a text between the separators, in their order. A text
/// without separator is one piece.
pub open spec fn pieces(s: Seq<u8>, sep: u8) -> Seq<Seq<u8>>
    decreases s.len(),
{
    if s.len() == 0 {
        seq![Seq::empty()]
    } else {
        let before = pieces(s.drop_last(), sep);
        if s.last() == sep {
            before.push(Seq::empty())
        } else {
            before.drop_last().push(before.last().push(s.last()))
        }
    }
}

/// A text has one piece at least.
pub proof fn lemma_pieces_len(s: Seq<u8>, sep: u8)
    ensures
        pieces(s, sep).len() >= 1,
    decreases s.len(),
{
    if s.len() > 0 {
        lemma_pieces_len(s.drop_last(), sep);
    }
}

/// The contents of a list of byte vectors.
pub open spec fn views(parts: Seq<Vec<u8>>) -> Seq<Seq<u8>> {
    Seq::new(parts.len(), |k: int| parts[k]@)
}

/// Splits a text at each separator.
pub fn split(bytes: &[u8], sep: u8) -> (parts: Vec<Vec<u8>>)
    ensures
        views(parts@) == pieces(bytes@, sep),
{
    let mut parts: Vec<Vec<u8>> = Vec::new();
    let mut current: Vec<u8> = Vec::new();
    proof {
        assert(views(parts@).push(current@) =~= pieces(bytes@.take(0), sep));
    }
    for i in 0..bytes.len()
        invariant
            views(parts@).push(current@) == pieces(bytes@.take(i as int), sep),
    {
        let ghost before = pieces(bytes@.take(i as int), sep);
        proof {
            assert(bytes@.take(i + 1).drop_last() =~= bytes@.take(i as int));
            assert(before.last() == current@);
            assert(before.drop_last() =~= views(parts@));
        }
        if bytes[i] == sep {
            parts.push(current);
            current = Vec::new();
            proof {
                assert(views(parts@) =~= before);
            }
        } else {
            current.push(bytes[i]);
        }
        proof {
            assert(views(parts@).push(current@) =~= pieces(bytes@.take(i + 1), sep));
        }
    }
    proof {
        assert(bytes@.take(bytes@.len() as int) =~= bytes@);
    }
    let ghost earlier = parts@;
    parts.push(current);
    proof {
        assert(views(parts@) =~= views(earlier).push(current@));
    }
    parts
}

/// The number that a row of decimal digits spells.
pub open spec fn decimal_value(word: Seq<u8>) -> int
    decreases word.len(),
{
    if word.len() == 0 {
        0
    } else {
        10 * decimal_value(word.drop_last()) + (word.last() - 0x30)
    }
}

/// The word is a row of decimal digits, one at least.
pub open spec fn is_decimal(word: Seq<u8>) -> bool {
    word.len() > 0 && forall|k: int| 0 <= k < word.len() ==> 0x30 <= #[trigger] word[k] <= 0x39
}

/// The word without its plus sign, if it begins with one.
pub open spec fn unsigned_part(word: Seq<u8>) -> Seq<u8> {
    if word.len() > 0 && word[0] == 0x2b {
        word.skip(1)
    } else {
        word
    }
}

/// The weight that a word spells: a decimal number that fits a `usize`,
/// with or without a plus sign before it. Any other word spells none.
pub open spec fn word_weight(word: Seq<u8>) -> Option<usize> {
    let digits = unsigned_part(word);
    if is_decimal(digits) && decimal_value(digits) <= usize::MAX {
        Some(decimal_value(digits) as usize)
    } else {
        None
    }
}

/// The number that digits spell is not negative.
pub proof fn lemma_decimal_nonnegative(word: Seq<u8>)
    requires
        forall|i: int| 0 <= i < word.len() ==> 0x30 <= #[trigger] word[i] <= 0x39,
    ensures
        0 <= decimal_value(word),
    decreases word.len(),
{
    if word.len() > 0 {
        lemma_decimal_nonnegative(word.drop_last());
    }
}

/// The number that digits spell is no less than the number that the first
/// of them spell.
pub proof fn lemma_decimal_prefix(word: Seq<u8>, k: int)
    requires
        0 <= k <= word.len(),
        forall|i: int| 0 <= i < word.len() ==> 0x30 <= #[trigger] word[i] <= 0x39,
    ensures
        0 <= decimal_value(word.take(k)) <= decimal_value(word),
    decreases word.len() - k,
{
    lemma_decimal_nonnegative(word.take(k));
    if k == word.len() {
        assert(word.take(k) =~= word);
    } else {
        lemma_decimal_prefix(word, k + 1);
        assert(word.take(k + 1).drop_last() =~= word.take(k));
    }
}

/// Reads the weight that a word spells.
pub fn parse_word(word: &[u8]) -> (weight: Option<usize>)
    ensures
        weight == word_weight(word@),
{
    let start: usize = if word.len() > 0 && word[0] == 0x2b {
        1
    } else {
        0
    };
    let ghost digits = unsigned_part(word@);
    proof {
        assert(digits =~= word@.skip(start as int));
    }
    if start == word.len() {
        return None;
    }
    let mut value: usize = 0;
    let mut i: usize = start;
    while i < word.len()
        invariant
            start <= i <= word@.len(),
            digits == unsigned_part(word@),
            digits == word@.skip(start as int),
            forall|k: int| 0 <= k < i - start ==> 0x30 <= #[trigger] digits[k] <= 0x39,
            value == decimal_value(digits.take(i - start)),
        decreases word@.len() - i,
    {
        let b: u8 = word[i];
        assert(digits[i - start] == b);
        if b < 0x30 || b > 0x39 {
            assert(!is_decimal(digits));
            return None;
        }
        let d: usize = (b - 0x30) as usize;
        proof {
            let longer = digits.take(i + 1 - start);
            assert(longer.drop_last() =~= digits.take(i - start));
            assert(longer.last() == b);
            assert(decimal_value(longer) == 10 * value + d);
            if is_decimal(digits) {
                lemma_decimal_prefix(digits, i + 1 - start);
            }
        }
        if value > (usize::MAX - d) / 10 {
            return None;
        }
        value = 10 * value + d;
        i = i + 1;
    }
    proof {
        assert(digits.take(i - start) =~= digits);
    }
    Some(value)
}

/// The entries of the row that a line spells: the weights of its words
/// between the commas.
pub open spec fn row_of(line: Seq<u8>) -> Seq<Option<usize>> {
    Seq::new(pieces(line, 0x2c).len(), |c: int| word_weight(pieces(line, 0x2c)[c]))
}

/// The matrix that a text spells: one row to a line.
pub open spec fn network_of(bytes: Seq<u8>) -> Seq<Seq<Option<usize>>> {
    Seq::new(pieces(bytes, 0x0a).len(), |r: int| row_of(pieces(bytes, 0x0a)[r]))
}

/// The contents of the rows of a matrix.
pub open spec fn rows_of(matrix: Seq<Vec<Option<usize>>>) -> Seq<Seq<Option<usize>>> {
    Seq::new(matrix.len(), |r: int| matrix[r]@)
}

/// Reads the row that a line spells.
pub fn read_row(line: &[u8]) -> (row: Vec<Option<usize>>)
    ensures
        row@ == row_of(line@),
{
    let words = split(line, 0x2c);
    let mut row: Vec<Option<usize>> = Vec::new();
    for c in 0..words.len()
        invariant
            views(words@) == pieces(line@, 0x2c),
            row@.len() == c,
            forall|k: int| 0 <= k < c ==> row@[k] == word_weight(#[trigger] pieces(line@, 0x2c)[k]),
    {
        assert(views(words@)[c as int] == words@[c as int]@);
        let weight = parse_word(words[c].as_slice());
        row.push(weight);
    }
    proof {
        assert(views(words@).len() == words@.len());
        assert(row@ =~= row_of(line@));
    }
    row
}

/// Reads the matrix that a text spells.
pub fn read_network(input: &str) -> (matrix: Vec<Vec<Option<usize>>>)
    ensures
        rows_of(matrix@) == network_of(input.spec_bytes()),
{
    let bytes = input.as_bytes();
    let lines = split(bytes, 0x0a);
    let mut matrix: Vec<Vec<Option<usize>>> = Vec::new();
    for r in 0..lines.len()
        invariant
            bytes@ == input.spec_bytes(),
            views(lines@) == pieces(bytes@, 0x0a),
            matrix@.len() == r,
            forall|k: int|
                0 <= k < r ==> (#[trigger] matrix@[k])@ == row_of(pieces(bytes@, 0x0a)[k]),
    {
        assert(views(lines@)[r as int] == lines@[r as int]@);
        let row = read_row(lines[r].as_slice());
        matrix.push(row);
    }
    proof {
        assert(views(lines@).len() == lines@.len());
        assert(rows_of(matrix@) =~= network_of(input.spec_bytes()));
    }
    matrix
}

/// An edge of the network: its two ends and its weight.
#[derive(Debug)]
pub struct Edge {
    pub u: usize,
    pub v: usize,
    pub weight: usize,
}

impl Edge {
    /// The edge between `u` and `v` of the given weight.
    pub fn new(u: usize, v: usize, weight: usize) -> (edge: Self)
        ensures
            edge == (Edge { u, v, weight }),
    {
        Self { u, v, weight }
    }
}

/// The edges from the vertex `v` to the vertices below `upto`, as the row
/// of `v` gives them.
pub open spec fn row_edges(row: Seq<Option<usize>>, v: int, upto: int) -> Seq<Edge>
    decreases upto,
{
    if upto <= 0 {
        Seq::empty()
    } else {
        let rest = row_edges(row, v, upto - 1);
        match row[upto - 1] {
            Some(weight) => rest.push(Edge { u: (upto - 1) as usize, v: v as usize, weight }),
            None => rest,
        }
    }
}

/// How far the row of the vertex `v` is read: up to `v`, or to its end if
/// that comes first.
pub open spec fn row_reach(row: Seq<Option<usize>>, v: int) -> int {
    if row.len() < v {
        row.len() as int
    } else {
        v
    }
}

/// The edges that the first `rows` rows of the matrix give: each from the
/// vertex of the row to a vertex of a lower number.
pub open spec fn edges_upto(matrix: Seq<Seq<Option<usize>>>, rows: int) -> Seq<Edge>
    decreases rows,
{
    if rows <= 0 {
        Seq::empty()
    } else {
        edges_upto(matrix, rows - 1) + row_edges(
            matrix[rows - 1],
            rows - 1,
            row_reach(matrix[rows - 1], rows - 1),
        )
    }
}

/// The edges of a network, each once: those below the diagonal of its
/// matrix.
pub fn network_edges(matrix: &Vec<Vec<Option<usize>>>) -> (edges: Vec<Edge>)
    ensures
        edges@ == edges_upto(rows_of(matrix@), matrix@.len() as int),
        forall|k: int|
            0 <= k < edges@.len() ==> (#[trigger] edges@[k]).u < edges@[k].v < matrix@.len(),
{
    let mut edges: Vec<Edge> = Vec::new();
    let ghost rows = rows_of(matrix@);
    for v in 0..matrix.len()
        invariant
            rows == rows_of(matrix@),
            edges@ == edges_upto(rows, v as int),
            forall|k: int|
                0 <= k < edges@.len() ==> (#[trigger] edges@[k]).u < edges@[k].v < matrix@.len(),
    {
        let row = &matrix[v];
        assert(rows[v as int] == row@);
        let stop: usize = if row.len() < v {
            row.len()
        } else {
            v
        };
        let ghost start = edges@;
        proof {
            assert(edges@ =~= start + row_edges(row@, v as int, 0));
        }
        for u in 0..stop
            invariant
                stop == row_reach(row@, v as int),
                v < matrix@.len(),
                edges@ == start + row_edges(row@, v as int, u as int),
                forall|k: int|
                    0 <= k < edges@.len() ==> (#[trigger] edges@[k]).u < edges@[k].v
                        < matrix@.len(),
        {
            let ghost before = row_edges(row@, v as int, u as int);
            match row[u] {
                Some(weight) => {
                    edges.push(Edge::new(u, v, weight));
                    proof {
                        assert(edges@ =~= start + before.push(Edge { u, v, weight }));
                    }
                },
                None => {},
            }
        }
    }
    edges
}

/// The edges are in ascending order of weight.
pub open spec fn by_weight(edges: Seq<Edge>) -> bool {
    forall|k: int, l: int|
        0 <= k <= l < edges.len() ==> (#[trigger] edges[k]).weight <= (#[trigger] edges[l]).weight
}

/// `<[T]>::sort_unstable_by_key` of std with the weight as the key:
/// rearranges the edges into ascending order of weight. Edges of equal
/// weight may end up in any order. Not proved: this is what std documents of
/// the method.
#[verifier::external_body]
fn sort_by_weight(edges: &mut Vec<Edge>)
    ensures
        rearranged(final(edges)@, old(edges)@),
        by_weight(final(edges)@),
{
    edges.sort_unstable_by_key(|e| e.weight)
}

/// The vertices `x` and `y` are linked by the edges: they are one vertex,
/// or a way along the edges leads from one to the other. Said edge by edge:
/// they are linked by the edges before the last, or the last edge bridges
/// what those edges link to `x` and what they link to `y`.
pub open spec fn linked(edges: Seq<Edge>, x: int, y: int) -> bool
    decreases edges.len(),
{
    if edges.len() == 0 {
        x == y
    } else {
        let rest = edges.drop_last();
        let e = edges.last();
        linked(rest, x, y) || (linked(rest, x, e.u as int) && linked(rest, e.v as int, y)) || (
        linked(rest, x, e.v as int) && linked(rest, e.u as int, y))
    }
}

/// To be linked is an equivalence: every vertex is linked to itself, the
/// link holds both ways, and it carries over a vertex between.
pub proof fn lemma_linked(edges: Seq<Edge>)
    ensures
        forall|x: int| #[trigger] linked(edges, x, x),
        forall|x: int, y: int| #[trigger] linked(edges, x, y) ==> linked(edges, y, x),
        forall|x: int, y: int, z: int|
            #[trigger] linked(edges, x, y) && #[trigger] linked(edges, y, z) ==> linked(
                edges,
                x,
                z,
            ),
    decreases edges.len(),
{
    if edges.len() > 0 {
        let rest = edges.drop_last();
        let u = edges.last().u as int;
        let v = edges.last().v as int;
        lemma_linked(rest);
        assert forall|x: int| #[trigger] linked(edges, x, x) by {
            assert(linked(rest, x, x));
        }
        assert forall|x: int, y: int| #[trigger] linked(edges, x, y) implies linked(edges, y, x) by {
            if linked(rest, x, y) {
                assert(linked(rest, y, x));
            } else if linked(rest, x, u) && linked(rest, v, y) {
                assert(linked(rest, y, v) && linked(rest, u, x));
            } else {
                assert(linked(rest, x, v) && linked(rest, u, y));
                assert(linked(rest, v, x));
                assert(linked(rest, y, u));
            }
        }
        assert forall|x: int, y: int, z: int| #[trigger]
            linked(edges, x, y) && #[trigger] linked(edges, y, z) implies linked(edges, x, z) by {
            let (a1, a2, a3) = (
                linked(rest, x, y),
                linked(rest, x, u) && linked(rest, v, y),
                linked(rest, x, v) && linked(rest, u, y),
            );
            let (b1, b2, b3) = (
                linked(rest, y, z),
                linked(rest, y, u) && linked(rest, v, z),
                linked(rest, y, v) && linked(rest, u, z),
            );
            assert(a1 || a2 || a3);
            assert(b1 || b2 || b3);
            if a1 && b1 {
                assert(linked(rest, x, z));
            } else if a1 && b2 {
                assert(linked(rest, x, u));
            } else if a1 && b3 {
                assert(linked(rest, x, v));
            } else if a2 && b1 {
                assert(linked(rest, v, z));
            } else if a2 && b2 {
                assert(linked(rest, x, u) && linked(rest, v, z));
            } else if a2 && b3 {
                assert(linked(rest, x, z));
            } else if a3 && b1 {
                assert(linked(rest, u, z));
            } else if a3 && b2 {
                assert(linked(rest, x, z));
            } else {
                assert(linked(rest, x, v) && linked(rest, u, z));
            }
        }
    }
}

/// The weight that is saved where each edge is left out whose ends are
/// linked by the edges before it.
pub open spec fn surplus(edges: Seq<Edge>) -> int
    decreases edges.len(),
{
    if edges.len() == 0 {
        0
    } else {
        let rest = edges.drop_last();
        let e = edges.last();
        surplus(rest) + if linked(rest, e.u as int, e.v as int) {
            e.weight as int
        } else {
            0
        }
    }
}

/// The weight saved over all edges is no less than that saved over the
/// first of them.
pub proof fn lemma_surplus_grows(edges: Seq<Edge>, k: int)
    requires
        0 <= k <= edges.len(),
    ensures
        0 <= surplus(edges.take(k)) <= surplus(edges),
    decreases edges.len() - k,
{
    lemma_surplus_start(edges.take(k));
    if k == edges.len() {
        assert(edges.take(k) =~= edges);
    } else {
        lemma_surplus_grows(edges, k + 1);
        assert(edges.take(k + 1).drop_last() =~= edges.take(k));
    }
}

/// The weight saved is not negative.
pub proof fn lemma_surplus_start(edges: Seq<Edge>)
    ensures
        0 <= surplus(edges),
    decreases edges.len(),
{
    if edges.len() > 0 {
        lemma_surplus_start(edges.drop_last());
    }
}

/// The edges that stay: each edge whose ends are not linked by the edges
/// before it.
pub open spec fn kept(edges: Seq<Edge>) -> Seq<Edge>
    decreases edges.len(),
{
    if edges.len() == 0 {
        Seq::empty()
    } else {
        let rest = edges.drop_last();
        let e = edges.last();
        if linked(rest, e.u as int, e.v as int) {
            kept(rest)
        } else {
            kept(rest).push(e)
        }
    }
}

/// The weight of all the edges together.
pub open spec fn total_weight(edges: Seq<Edge>) -> int
    decreases edges.len(),
{
    if edges.len() == 0 {
        0
    } else {
        total_weight(edges.drop_last()) + edges.last().weight
    }
}

/// The edges that stay link all that the edges linked.
pub proof fn lemma_kept_links(edges: Seq<Edge>)
    ensures
        forall|x: int, y: int| #[trigger] linked(kept(edges), x, y) <==> linked(edges, x, y),
    decreases edges.len(),
{
    if edges.len() > 0 {
        let rest = edges.drop_last();
        let e = edges.last();
        let u = e.u as int;
        let v = e.v as int;
        lemma_kept_links(rest);
        lemma_linked(rest);
        if linked(rest, u, v) {
            assert forall|x: int, y: int| #[trigger]
                linked(kept(edges), x, y) <==> linked(edges, x, y) by {
                assert(linked(kept(rest), x, y) <==> linked(rest, x, y));
                assert(linked(rest, v, u));
                if linked(rest, x, u) && linked(rest, v, y) {
                    assert(linked(rest, x, v));
                    assert(linked(rest, x, y));
                }
                if linked(rest, x, v) && linked(rest, u, y) {
                    assert(linked(rest, x, u));
                    assert(linked(rest, x, y));
                }
            }
        } else {
            let stay = kept(rest).push(e);
            assert(stay.drop_last() =~= kept(rest));
            assert(stay.last() == e);
            assert forall|x: int, y: int| #[trigger]
                linked(kept(edges), x, y) <==> linked(edges, x, y) by {
                assert(linked(kept(rest), x, y) <==> linked(rest, x, y));
                assert(linked(kept(rest), x, u) <==> linked(rest, x, u));
                assert(linked(kept(rest), x, v) <==> linked(rest, x, v));
                assert(linked(kept(rest), u, y) <==> linked(rest, u, y));
                assert(linked(kept(rest), v, y) <==> linked(rest, v, y));
            }
        }
    }
}

/// The weight that is saved is the weight of the edges that do not stay.
pub proof fn lemma_surplus_is_shed(edges: Seq<Edge>)
    ensures
        total_weight(edges) == total_weight(kept(edges)) + surplus(edges),
    decreases edges.len(),
{
    if edges.len() > 0 {
        let rest = edges.drop_last();
        let e = edges.last();
        lemma_surplus_is_shed(rest);
        if !linked(rest, e.u as int, e.v as int) {
            let stay = kept(rest).push(e);
            assert(stay.drop_last() =~= kept(rest));
            assert(stay.last() == e);
        }
    }
}

/// The number as a `usize`, if it fits one.
pub open spec fn fitting(n: int) -> Option<usize> {
    if 0 <= n <= usize::MAX {
        Some(n as usize)
    } else {
        None
    }
}

/// The weight that the edges save, taken in their order, on a network of
/// the given number of vertices; `None` if it does not fit a `usize`.
pub fn redundant_weight(vertices: usize, edges: &Vec<Edge>) -> (saving: Option<usize>)
    requires
        forall|k: int|
            0 <= k < edges@.len() ==> (#[trigger] edges@[k]).u < vertices && edges@[k].v < vertices,
    ensures
        saving == fitting(surplus(edges@)),
{
    let mut classes = partition_of(vertices);
    let mut saving: usize = 0;
    proof {
        assert(edges@.take(0) =~= Seq::<Edge>::empty());
    }
    for k in 0..edges.len()
        invariant
            partition_size(classes) == vertices,
            forall|i: int|
                0 <= i < edges@.len() ==> (#[trigger] edges@[i]).u < vertices && edges@[i].v
                    < vertices,
            forall|x: int, y: int|
                0 <= x < vertices && 0 <= y < vertices ==> (#[trigger] joined_pairs(
                    classes,
                ).contains((x, y)) <==> linked(edges@.take(k as int), x, y)),
            saving == surplus(edges@.take(k as int)),
    {
        let ghost before = edges@.take(k as int);
        let ghost after = edges@.take(k + 1);
        let ghost old_classes = classes;
        let u: usize = edges[k].u;
        let v: usize = edges[k].v;
        let w: usize = edges[k].weight;
        proof {
            assert(after.drop_last() =~= before);
            assert(after.last() == edges@[k as int]);
            lemma_linked(before);
            lemma_surplus_grows(edges@, k + 1);
        }
        if partition_same_set(&classes, u, v) {
            assert(linked(before, u as int, v as int));
            match saving.checked_add(w) {
                Some(more) => {
                    saving = more;
                },
                None => {
                    return None;
                },
            }
            proof {
                assert forall|x: int, y: int| 0 <= x < vertices && 0 <= y < vertices implies (
                #[trigger] joined_pairs(classes).contains((x, y)) <==> linked(after, x, y)) by {
                    assert(linked(before, v as int, u as int));
                    if linked(before, x, u as int) && linked(before, v as int, y) {
                        assert(linked(before, x, v as int));
                        assert(linked(before, x, y));
                    }
                    if linked(before, x, v as int) && linked(before, u as int, y) {
                        assert(linked(before, x, u as int));
                        assert(linked(before, x, y));
                    }
                }
            }
        } else {
            partition_union(&mut classes, u, v);
            proof {
                assert forall|x: int, y: int| 0 <= x < vertices && 0 <= y < vertices implies (
                #[trigger] joined_pairs(classes).contains((x, y)) <==> linked(after, x, y)) by {
                    assert(joined_pairs(old_classes).contains((x, y)) <==> linked(before, x, y));
                    assert(joined_pairs(old_classes).contains((x, u as int)) <==> linked(
                        before,
                        x,
                        u as int,
                    ));
                    assert(joined_pairs(old_classes).contains((x, v as int)) <==> linked(
                        before,
                        x,
                        v as int,
                    ));
                    assert(joined_pairs(old_classes).contains((u as int, y)) <==> linked(
                        before,
                        u as int,
                        y,
                    ));
                    assert(joined_pairs(old_classes).contains((v as int, y)) <==> linked(
                        before,
                        v as int,
                        y,
                    ));
                }
            }
        }
    }
    proof {
        assert(edges@.take(edges@.len() as int) =~= edges@);
    }
    Some(saving)
}

/// `saving` is what a network with these edges sheds: the weight that the
/// edges save where they are taken in some ascending order of weight, or
/// `None` if that does not fit a `usize`.
pub open spec fn is_saving(edges: Seq<Edge>, saving: Option<usize>) -> bool {
    exists|order: Seq<Edge>| #[trigger]
        rearranged(order, edges) && by_weight(order) && saving == fitting(surplus(order))
}

/// Minimal network: the weight that the network of the text sheds where its
/// edges are taken in ascending order of weight and each edge is left out
/// whose ends are linked already. `None` if that weight does not fit a
/// `usize`.
pub fn p107(input: &str) -> (saving: Option<usize>)
    ensures
        is_saving(
            edges_upto(network_of(input.spec_bytes()), network_of(input.spec_bytes()).len() as int),
            saving,
        ),
{
    let matrix = read_network(input);
    let mut edges = network_edges(&matrix);
    let ghost unsorted = edges@;
    sort_by_weight(&mut edges);
    proof {
        let perm = choose|perm: Seq<int>| #[trigger] is_rearrangement(perm, edges@, unsorted);
        assert forall|k: int| 0 <= k < edges@.len() implies (#[trigger] edges@[k]).u < matrix@.len()
            && edges@[k].v < matrix@.len() by {
            assert(edges@[k] == unsorted[perm[k]]);
        }
    }
    let saving = redundant_weight(matrix.len(), &edges);
    proof {
        assert(rearranged(edges@, unsorted));
    }
    saving
}

} // verus!
