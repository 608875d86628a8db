//! The cheapest way through a square matrix, for three sets of moves.

use crate::queue::{queue_entries, queue_pop, queue_push, queue_with_capacity, Node};
use vstd::prelude::*;
use vstd::string::StringSliceAdditionalSpecFns;

verus! {

/// The width of the matrix of the three puzzles.
pub const SIZE: usize = 80;

/// A move to a neighbouring cell: up, right, down or left.
#[derive(Clone, Copy, Debug)]
pub enum Dir {
    N,
    E,
    S,
    W,
}

/// Where a move from `from` leads in a grid of `size` by `size` cells, if it
/// stays inside the grid.
pub open spec fn moved(dir: Dir, from: Node, size: usize) -> Option<Node> {
    let (x, y) = from;
    match dir {
        Dir::N => if 1 <= y && x < size && y - 1 < size {
            Some((x, (y - 1) as usize))
        } else {
            None
        },
        Dir::E => if x + 1 < size && y < size {
            Some(((x + 1) as usize, y))
        } else {
            None
        },
        Dir::S => if x < size && y + 1 < size {
            Some((x, (y + 1) as usize))
        } else {
            None
        },
        Dir::W => if 1 <= x && x - 1 < size && y < size {
            Some(((x - 1) as usize, y))
        } else {
            None
        },
    }
}

impl Dir {
    /// The cell that this move leads to from `from`, or `None` where it
    /// would leave the grid of `size` by `size` cells.
    pub fn try_move(&self, from: &(usize, usize), size: usize) -> (to: Option<(usize, usize)>)
        ensures
            to == moved(*self, *from, size),
    {
        let (x, y) = *from;
        let (nx, ny) = match self {
            Dir::N => match y.checked_sub(1) {
                Some(ny) => (x, ny),
                None => {
                    return None;
                },
            },
            Dir::E => match x.checked_add(1) {
                Some(nx) => (nx, y),
                None => {
                    return None;
                },
            },
            Dir::S => match y.checked_add(1) {
                Some(ny) => (x, ny),
                None => {
                    return None;
                },
            },
            Dir::W => match x.checked_sub(1) {
                Some(nx) => (nx, y),
                None => {
                    return None;
                },
            },
        };
        if nx < size && ny < size {
            Some((nx, ny))
        } else {
            None
        }
    }
}

/// The node lies inside the grid.
pub open spec fn in_grid(node: Node, size: usize) -> bool {
    node.0 < size && node.1 < size
}

/// Where the row-major vector of a grid keeps the cell of a node.
pub open spec fn cell(node: Node, size: usize) -> int {
    node.0 + node.1 * size
}

/// Distinct nodes of the grid have distinct cells, all below the square of
/// the size.
pub proof fn lemma_cell(a: Node, b: Node, size: usize)
    requires
        in_grid(a, size),
        in_grid(b, size),
    ensures
        0 <= cell(a, size) < size * size,
        0 <= cell(b, size) < size * size,
        0 <= a.1 * size <= cell(a, size),
        cell(a, size) == cell(b, size) ==> a == b,
{
    assert(0 <= a.1 * size && a.0 + a.1 * size < size * size) by (nonlinear_arith)
        requires
            a.0 < size,
            a.1 < size,
    ;
    assert(b.0 + b.1 * size < size * size) by (nonlinear_arith)
        requires
            b.0 < size,
            b.1 < size,
    ;
    if cell(a, size) == cell(b, size) {
        assert(a.1 == b.1) by (nonlinear_arith)
            requires
                a.0 + a.1 * size == b.0 + b.1 * size,
                a.0 < size,
                b.0 < size,
        ;
    }
}

/// A square matrix of numbers, row by row.
pub struct Matrix {
    data: Vec<usize>,
    width: usize,
}

/// Where the scanner of a matrix text stands within a line.
pub enum Token {
    /// At the start of a line.
    Start,
    /// A number must follow: after a comma, or after blanks at the start of
    /// a line.
    Open,
    /// After a plus sign.
    Plus,
    /// Within the digits of a number.
    Number(usize),
    /// After a number and blanks.
    Closed(usize),
    /// The text is no matrix.
    Bad,
}

/// The state of the scanner: the numbers read so far, and the token at
/// hand.
pub struct Scan {
    pub numbers: Seq<usize>,
    pub token: Token,
}

/// A blank that may surround a number: space, tab, vertical tab, form feed
/// or carriage return.
pub open spec fn is_blank(b: u8) -> bool {
    b == 0x20 || b == 0x09 || b == 0x0b || b == 0x0c || b == 0x0d
}

/// The scanner's step over one byte. Numbers are separated by commas and
/// line feeds, may be surrounded by blanks and may have a plus sign; an
/// empty line or an empty place between separators stops the scanner, and
/// so does a number that does not fit a `usize`.
pub open spec fn scan_step(s: Scan, b: u8) -> Scan {
    if 0x30 <= b <= 0x39 {
        let d = (b - 0x30) as int;
        match s.token {
            Token::Start | Token::Open | Token::Plus => Scan {
                numbers: s.numbers,
                token: Token::Number(d as usize),
            },
            Token::Number(v) => if 10 * v + d <= usize::MAX {
                Scan { numbers: s.numbers, token: Token::Number((10 * v + d) as usize) }
            } else {
                Scan { numbers: s.numbers, token: Token::Bad }
            },
            _ => Scan { numbers: s.numbers, token: Token::Bad },
        }
    } else if is_blank(b) {
        match s.token {
            Token::Start | Token::Open => Scan { numbers: s.numbers, token: Token::Open },
            Token::Number(v) | Token::Closed(v) => Scan {
                numbers: s.numbers,
                token: Token::Closed(v),
            },
            _ => Scan { numbers: s.numbers, token: Token::Bad },
        }
    } else if b == 0x2c || b == 0x0a {
        match s.token {
            Token::Number(v) | Token::Closed(v) => Scan {
                numbers: s.numbers.push(v),
                token: if b == 0x2c {
                    Token::Open
                } else {
                    Token::Start
                },
            },
            _ => Scan { numbers: s.numbers, token: Token::Bad },
        }
    } else if b == 0x2b {
        match s.token {
            Token::Start | Token::Open => Scan { numbers: s.numbers, token: Token::Plus },
            _ => Scan { numbers: s.numbers, token: Token::Bad },
        }
    } else {
        Scan { numbers: s.numbers, token: Token::Bad }
    }
}

/// The scanner's state after the given bytes.
pub open spec fn scan(bytes: Seq<u8>) -> Scan
    decreases bytes.len(),
{
    if bytes.len() == 0 {
        Scan { numbers: Seq::empty(), token: Token::Start }
    } else {
        scan_step(scan(bytes.drop_last()), bytes.last())
    }
}

/// The numbers that a text spells, row by row; `None` if the text is no
/// list of numbers.
pub open spec fn scanned_numbers(bytes: Seq<u8>) -> Option<Seq<usize>> {
    let s = scan(bytes);
    match s.token {
        Token::Start => Some(s.numbers),
        Token::Number(v) | Token::Closed(v) => Some(s.numbers.push(v)),
        _ => None,
    }
}

/// The entries of the square matrix of the given width that a text spells;
/// `None` if the text is no list of numbers, or not of `width * width`
/// numbers.
pub open spec fn parse_matrix(bytes: Seq<u8>, width: usize) -> Option<Seq<usize>> {
    match scanned_numbers(bytes) {
        Some(numbers) => if numbers.len() == width * width {
            Some(numbers)
        } else {
            None
        },
        None => None,
    }
}

/// Reads the numbers of a text: decimal numbers, separated by commas and
/// line feeds.
pub fn read_numbers(input: &str) -> (numbers: Option<Vec<usize>>)
    ensures
        match numbers {
            Some(v) => scanned_numbers(input.spec_bytes()) == Some(v@),
            None => scanned_numbers(input.spec_bytes()) is None,
        },
{
    let bytes = input.as_bytes();
    let mut numbers: Vec<usize> = Vec::new();
    let mut token = Token::Start;
    let mut k: usize = 0;
    assert(bytes@.take(0) =~= Seq::<u8>::empty());
    while k < bytes.len()
        invariant
            0 <= k <= bytes@.len(),
            bytes@ == input.spec_bytes(),
            scan(bytes@.take(k as int)) == (Scan { numbers: numbers@, token }),
        decreases bytes@.len() - k,
    {
        let b = bytes[k];
        assert(bytes@.take(k + 1).drop_last() =~= bytes@.take(k as int));
        if 0x30 <= b && b <= 0x39 {
            let d = (b - 0x30) as usize;
            token = match token {
                Token::Start | Token::Open | Token::Plus => Token::Number(d),
                Token::Number(v) => {
                    if v <= (usize::MAX - d) / 10 {
                        Token::Number(10 * v + d)
                    } else {
                        Token::Bad
                    }
                },
                _ => Token::Bad,
            };
        } else if b == 0x20 || b == 0x09 || b == 0x0b || b == 0x0c || b == 0x0d {
            token = match token {
                Token::Start | Token::Open => Token::Open,
                Token::Number(v) | Token::Closed(v) => Token::Closed(v),
                _ => Token::Bad,
            };
        } else if b == 0x2c || b == 0x0a {
            token = match token {
                Token::Number(v) | Token::Closed(v) => {
                    numbers.push(v);
                    if b == 0x2c {
                        Token::Open
                    } else {
                        Token::Start
                    }
                },
                _ => Token::Bad,
            };
        } else if b == 0x2b {
            token = match token {
                Token::Start | Token::Open => Token::Plus,
                _ => Token::Bad,
            };
        } else {
            token = Token::Bad;
        }
        k += 1;
    }
    assert(bytes@.take(k as int) =~= bytes@);
    match token {
        Token::Start => Some(numbers),
        Token::Number(v) | Token::Closed(v) => {
            numbers.push(v);
            Some(numbers)
        },
        _ => None,
    }
}

impl Matrix {
    /// The number of rows, and of columns.
    pub closed spec fn width(&self) -> usize {
        self.width
    }

    /// The entries, row by row.
    pub closed spec fn entries(&self) -> Seq<usize> {
        self.data@
    }

    /// There are `width * width` entries.
    pub open spec fn wf(&self) -> bool {
        self.entries().len() == self.width() * self.width()
    }

    /// The entry at a node of the grid.
    pub open spec fn at(&self, node: Node) -> usize {
        self.entries()[cell(node, self.width())]
    }

    /// A matrix of the given entries, row by row.
    pub fn new(data: Vec<usize>, width: usize) -> (matrix: Self)
        requires
            data@.len() == width * width,
        ensures
            matrix.wf(),
            matrix.width() == width,
            matrix.entries() == data@,
    {
        Self { data, width }
    }

    /// Reads a matrix from a text of `width` lines of `width` numbers each,
    /// separated by commas; `None` if the text does not spell `width *
    /// width` numbers.
    pub fn try_read(input: &str, width: usize) -> (matrix: Option<Self>)
        ensures
            match matrix {
                Some(m) => m.wf() && m.width() == width && parse_matrix(input.spec_bytes(), width)
                    == Some(m.entries()),
                None => parse_matrix(input.spec_bytes(), width) is None,
            },
    {
        match read_numbers(input) {
            Some(data) => {
                let len = data.len();
                match width.checked_mul(width) {
                    Some(count) => if len == count {
                        let ghost numbers = data@;
                        let matrix = Self::new(data, width);
                        assert(parse_matrix(input.spec_bytes(), width) == Some(numbers));
                        Some(matrix)
                    } else {
                        None
                    },
                    None => None,
                }
            },
            None => None,
        }
    }

    /// Reads a matrix from a text of `width` lines of `width` numbers each,
    /// separated by commas.
    pub fn read(input: &str, width: usize) -> (matrix: Self)
        requires
            parse_matrix(input.spec_bytes(), width) is Some,
        ensures
            matrix.wf(),
            matrix.width() == width,
            Some(matrix.entries()) == parse_matrix(input.spec_bytes(), width),
    {
        Self::try_read(input, width).unwrap()
    }

    /// The entry in column `i` of row `j`.
    pub fn get(&self, i: usize, j: usize) -> (entry: usize)
        requires
            self.wf(),
            i < self.width(),
            j < self.width(),
        ensures
            entry == self.at((i, j)),
    {
        let len = self.data.len();
        proof {
            lemma_cell((i, j), (i, j), self.width);
            assert(i + j * self.width < len);
        }
        self.data[i + j * self.width]
    }
}

/// Some move of `dirs` leads from `u` to `v`.
pub open spec fn linked(dirs: Seq<Dir>, u: Node, v: Node, size: usize) -> bool {
    exists|d: int| 0 <= d < dirs.len() && moved(#[trigger] dirs[d], u, size) == Some(v)
}

/// `path` is a way through the grid: it begins at one of the start nodes,
/// and each node is reached from the one before it by one of the moves.
pub open spec fn is_walk(size: usize, dirs: Seq<Dir>, starts: Seq<Node>, path: Seq<Node>) -> bool {
    &&& path.len() >= 1
    &&& starts.contains(path[0])
    &&& forall|k: int| 0 <= k < path.len() - 1 ==> linked(dirs, #[trigger] path[k], path[k + 1], size)
}

/// The sum of the entries along a path.
pub open spec fn walk_cost(m: Matrix, path: Seq<Node>) -> int
    decreases path.len(),
{
    if path.len() == 0 {
        0
    } else {
        walk_cost(m, path.drop_last()) + m.at(path.last())
    }
}

/// The sum of the items of a sequence.
pub open spec fn total(s: Seq<usize>) -> int
    decreases s.len(),
{
    if s.len() == 0 {
        0
    } else {
        total(s.drop_last()) + s.last()
    }
}

/// A sum of natural numbers is not negative.
pub proof fn lemma_total_nonnegative(s: Seq<usize>)
    ensures
        0 <= total(s),
    decreases s.len(),
{
    if s.len() > 0 {
        lemma_total_nonnegative(s.drop_last());
    }
}

/// Changing one item changes the sum by the difference.
pub proof fn lemma_total_update(s: Seq<usize>, i: int, v: usize)
    requires
        0 <= i < s.len(),
    ensures
        total(s.update(i, v)) == total(s) - s[i] + v,
    decreases s.len(),
{
    if i == s.len() - 1 {
        assert(s.update(i, v).drop_last() =~= s.drop_last());
    } else {
        assert(s.update(i, v).drop_last() =~= s.drop_last().update(i, v));
        lemma_total_update(s.drop_last(), i, v);
    }
}

/// The cost recorded for a node is that of some way to it, unless none has
/// been found.
pub open spec fn reached(
    m: Matrix,
    dirs: Seq<Dir>,
    starts: Seq<Node>,
    costs: Seq<usize>,
    v: Node,
) -> bool {
    costs[cell(v, m.width())] == usize::MAX || exists|path: Seq<Node>|
        #[trigger] is_walk(m.width(), dirs, starts, path) && path.last() == v && walk_cost(m, path)
            == costs[cell(v, m.width())]
}

/// The move `d` out of `u` cannot lower the cost recorded at its end.
pub open spec fn settled(m: Matrix, dirs: Seq<Dir>, costs: Seq<usize>, u: Node, d: int) -> bool {
    match moved(dirs[d], u, m.width()) {
        Some(v) => costs[cell(v, m.width())] <= costs[cell(u, m.width())] + m.at(v),
        None => true,
    }
}

/// No move out of `u` can lower a recorded cost.
pub open spec fn relaxed(m: Matrix, dirs: Seq<Dir>, costs: Seq<usize>, u: Node) -> bool {
    forall|d: int| 0 <= d < dirs.len() ==> #[trigger] settled(m, dirs, costs, u, d)
}

/// Where no move can lower a recorded cost, and no start node is recorded
/// above its own entry, the recorded cost of a node is at most the cost of
/// any way to it.
pub proof fn lemma_walk_bound(
    m: Matrix,
    dirs: Seq<Dir>,
    starts: Seq<Node>,
    costs: Seq<usize>,
    path: Seq<Node>,
)
    requires
        m.wf(),
        forall|i: int| 0 <= i < starts.len() ==> in_grid(#[trigger] starts[i], m.width()),
        forall|i: int|
            0 <= i < starts.len() ==> costs[cell(#[trigger] starts[i], m.width())] <= m.at(starts[i]),
        forall|u: Node| in_grid(u, m.width()) ==> #[trigger] relaxed(m, dirs, costs, u),
        is_walk(m.width(), dirs, starts, path),
    ensures
        in_grid(path.last(), m.width()),
        costs[cell(path.last(), m.width())] <= walk_cost(m, path),
    decreases path.len(),
{
    let size = m.width();
    if path.len() == 1 {
        let i = choose|i: int| 0 <= i < starts.len() && starts[i] == path[0];
        assert(in_grid(starts[i], size));
        assert(path.drop_last() =~= Seq::<Node>::empty());
        assert(walk_cost(m, path.drop_last()) == 0);
    } else {
        let before = path.drop_last();
        assert(is_walk(size, dirs, starts, before)) by {
            assert(before[0] == path[0]);
            assert forall|k: int| 0 <= k < before.len() - 1 implies linked(
                dirs,
                #[trigger] before[k],
                before[k + 1],
                size,
            ) by {
                assert(linked(dirs, path[k], path[k + 1], size));
            }
        }
        lemma_walk_bound(m, dirs, starts, costs, before);
        let u = before.last();
        let v = path.last();
        assert(linked(dirs, path[path.len() - 2], path[path.len() - 1], size));
        let d = choose|d: int| 0 <= d < dirs.len() && moved(#[trigger] dirs[d], u, size) == Some(v);
        assert(relaxed(m, dirs, costs, u));
        assert(settled(m, dirs, costs, u, d));
    }
}

/// The queue holds grid nodes only, and finitely many.
pub open spec fn queue_in_grid(entries: Map<Node, usize>, size: usize) -> bool {
    &&& entries.dom().finite()
    &&& forall|n: Node| entries.dom().contains(n) ==> in_grid(n, size)
}

/// The least cost of a way through the matrix that begins at one of the
/// start nodes, takes moves of `dirs` only and stops at one of the end
/// nodes. The cost of a way is the sum of the entries it passes, both ends
/// included. `usize::MAX` stands for every cost from that on, and for the
/// case that no way leads to an end node.
#[verifier::rlimit(40)]
pub fn min_path_sum(matrix: Matrix, dirs: &[Dir], start_nodes: &[(usize, usize)], end_nodes: &[(
    usize,
    usize,
)]) -> (least: usize)
    requires
        matrix.wf(),
        end_nodes@.len() >= 1,
        forall|i: int| 0 <= i < start_nodes@.len() ==> in_grid(#[trigger] start_nodes@[i], matrix.width()),
        forall|i: int| 0 <= i < end_nodes@.len() ==> in_grid(#[trigger] end_nodes@[i], matrix.width()),
    ensures
        forall|path: Seq<Node>|
            #[trigger] is_walk(matrix.width(), dirs@, start_nodes@, path) && end_nodes@.contains(
                path.last(),
            ) ==> least <= walk_cost(matrix, path),
        least == usize::MAX || exists|path: Seq<Node>|
            #[trigger] is_walk(matrix.width(), dirs@, start_nodes@, path) && end_nodes@.contains(
                path.last(),
            ) && walk_cost(matrix, path) == least,
{
    let size = matrix.width;
    let count = matrix.data.len();
    let mut costs: Vec<usize> = Vec::new();
    while costs.len() < count
        invariant
            costs@.len() <= count,
            forall|i: int| 0 <= i < costs@.len() ==> costs@[i] == usize::MAX,
        decreases count - costs@.len(),
    {
        costs.push(usize::MAX);
    }
    let mut queue = queue_with_capacity(start_nodes.len());
    proof {
        assert forall|v: Node| in_grid(v, size) implies costs@[cell(v, size)] == usize::MAX by {
            lemma_cell(v, v, size);
        }
        assert forall|v: Node| in_grid(v, size) implies #[trigger] reached(
            matrix,
            dirs@,
            start_nodes@,
            costs@,
            v,
        ) by {
            lemma_cell(v, v, size);
        }
    }
    for s in 0..start_nodes.len()
        invariant
            matrix.wf(),
            size == matrix.width(),
            count == size * size,
            costs@.len() == count,
            forall|i: int| 0 <= i < start_nodes@.len() ==> in_grid(#[trigger] start_nodes@[i], size),
            queue_in_grid(queue_entries(queue), size),
            forall|v: Node|
                in_grid(v, size) ==> #[trigger] reached(matrix, dirs@, start_nodes@, costs@, v),
            forall|i: int|
                0 <= i < s ==> costs@[cell(#[trigger] start_nodes@[i], size)] <= matrix.at(
                    start_nodes@[i],
                ),
            forall|i: int|
                0 <= i < s ==> queue_entries(queue).dom().contains(#[trigger] start_nodes@[i]),
            forall|v: Node|
                in_grid(v, size) ==> queue_entries(queue).dom().contains(v) || costs@[cell(v, size)]
                    == usize::MAX,
    {
        let node = start_nodes[s];
        let (i, j) = node;
        assert(in_grid(start_nodes@[s as int], size));
        let entry = matrix.get(i, j);
        let ghost before = costs@;
        proof {
            lemma_cell(node, node, size);
        }
        let ghost entries = queue_entries(queue);
        costs.set(i + j * size, entry);
        queue_push(&mut queue, node, entry);
        proof {
            vstd::set::axiom_set_insert_finite(entries.dom(), node);
            vstd::map::axiom_map_insert_domain(entries, node, entry);
            let path = seq![node];
            assert(path.drop_last() =~= Seq::<Node>::empty());
            assert(walk_cost(matrix, path) == entry) by {
                assert(walk_cost(matrix, path.drop_last()) == 0);
            }
            assert(is_walk(size, dirs@, start_nodes@, path)) by {
                assert(start_nodes@[s as int] == path[0]);
            }
            assert forall|v: Node| in_grid(v, size) implies #[trigger] reached(
                matrix,
                dirs@,
                start_nodes@,
                costs@,
                v,
            ) by {
                lemma_cell(v, node, size);
                if v == node {
                    assert(path.last() == v);
                } else {
                    assert(reached(matrix, dirs@, start_nodes@, before, v));
                    assert(costs@[cell(v, size)] == before[cell(v, size)]);
                }
            }
            assert forall|k: int| 0 <= k < s + 1 implies costs@[cell(#[trigger] start_nodes@[k], size)]
                <= matrix.at(start_nodes@[k]) by {
                lemma_cell(start_nodes@[k], node, size);
            }
            assert forall|v: Node| in_grid(v, size) implies queue_entries(queue).dom().contains(v)
                || costs@[cell(v, size)] == usize::MAX by {
                lemma_cell(v, node, size);
            }
        }
    }
    proof {
        assert forall|u: Node| in_grid(u, size) implies queue_entries(queue).dom().contains(u)
            || #[trigger] relaxed(matrix, dirs@, costs@, u) by {
            if !queue_entries(queue).dom().contains(u) {
                assert forall|d: int| 0 <= d < dirs@.len() implies #[trigger] settled(
                    matrix,
                    dirs@,
                    costs@,
                    u,
                    d,
                ) by {
                }
            }
        }
    }
    loop
        invariant
            matrix.wf(),
            size == matrix.width(),
            count == size * size,
            costs@.len() == count,
            forall|i: int| 0 <= i < start_nodes@.len() ==> in_grid(#[trigger] start_nodes@[i], size),
            queue_in_grid(queue_entries(queue), size),
            forall|v: Node|
                in_grid(v, size) ==> #[trigger] reached(matrix, dirs@, start_nodes@, costs@, v),
            forall|i: int|
                0 <= i < start_nodes@.len() ==> costs@[cell(#[trigger] start_nodes@[i], size)]
                    <= matrix.at(start_nodes@[i]),
            forall|u: Node|
                in_grid(u, size) ==> queue_entries(queue).dom().contains(u) || #[trigger] relaxed(
                    matrix,
                    dirs@,
                    costs@,
                    u,
                ),
        ensures
            costs@.len() == count,
            forall|v: Node|
                in_grid(v, size) ==> #[trigger] reached(matrix, dirs@, start_nodes@, costs@, v),
            forall|i: int|
                0 <= i < start_nodes@.len() ==> costs@[cell(#[trigger] start_nodes@[i], size)]
                    <= matrix.at(start_nodes@[i]),
            forall|u: Node| in_grid(u, size) ==> #[trigger] relaxed(matrix, dirs@, costs@, u),
        decreases 2 * total(costs@) + queue_entries(queue).dom().len(),
    {
        let ghost entries_before = queue_entries(queue);
        let current = match queue_pop(&mut queue) {
            Some((current, _)) => current,
            None => {
                break;
            },
        };
        let (x, y) = current;
        proof {
            lemma_cell(current, current, size);
            vstd::map::axiom_map_remove_domain(entries_before, current);
            vstd::set::axiom_set_remove_len(entries_before.dom(), current);
            vstd::set::axiom_set_remove_finite(entries_before.dom(), current);
        }
        let ghost costs_at_pop = costs@;
        for d in 0..dirs.len()
            invariant
                matrix.wf(),
                size == matrix.width(),
                count == size * size,
                costs@.len() == count,
                in_grid(current, size),
                current == (x, y),
                forall|i: int|
                    0 <= i < start_nodes@.len() ==> in_grid(#[trigger] start_nodes@[i], size),
                queue_in_grid(queue_entries(queue), size),
                forall|v: Node|
                    in_grid(v, size) ==> #[trigger] reached(matrix, dirs@, start_nodes@, costs@, v),
                forall|i: int|
                    0 <= i < start_nodes@.len() ==> costs@[cell(#[trigger] start_nodes@[i], size)]
                        <= matrix.at(start_nodes@[i]),
                forall|u: Node|
                    in_grid(u, size) && u != current ==> queue_entries(queue).dom().contains(u)
                        || #[trigger] relaxed(matrix, dirs@, costs@, u),
                forall|k: int| 0 <= k < d ==> #[trigger] settled(matrix, dirs@, costs@, current, k),
                2 * total(costs@) + queue_entries(queue).dom().len() < 2 * total(costs_at_pop)
                    + entries_before.dom().len(),
        {
            let ghost costs_before = costs@;
            let ghost entries = queue_entries(queue);
            match dirs[d].try_move(&current, size) {
                Some(neighbour) => {
                    let (nx, ny) = neighbour;
                    proof {
                        lemma_cell(neighbour, current, size);
                    }
                    let here = costs[x + y * size];
                    let step = matrix.get(nx, ny);
                    match here.checked_add(step) {
                        Some(cost) => {
                            if cost < costs[nx + ny * size] {
                                costs.set(nx + ny * size, cost);
                                queue_push(&mut queue, neighbour, cost);
                                proof {
                                    vstd::map::axiom_map_insert_domain(entries, neighbour, cost);
                                    vstd::set::axiom_set_insert_len(entries.dom(), neighbour);
                                    vstd::set::axiom_set_insert_finite(entries.dom(), neighbour);
                                    lemma_total_update(costs_before, cell(neighbour, size), cost);
                                    lemma_lowered(
                                        matrix,
                                        dirs@,
                                        start_nodes@,
                                        costs_before,
                                        costs@,
                                        current,
                                        neighbour,
                                        d as int,
                                    );
                                    assert forall|u: Node|
                                        in_grid(u, size) && u != current implies queue_entries(
                                        queue,
                                    ).dom().contains(u) || #[trigger] relaxed(
                                        matrix,
                                        dirs@,
                                        costs@,
                                        u,
                                    ) by {
                                        if u != neighbour && relaxed(matrix, dirs@, costs_before, u) {
                                            lemma_still_relaxed(
                                                matrix,
                                                dirs@,
                                                costs_before,
                                                costs@,
                                                neighbour,
                                                u,
                                            );
                                        }
                                    }
                                    assert forall|i: int|
                                        0 <= i < start_nodes@.len() implies costs@[cell(
                                        #[trigger] start_nodes@[i],
                                        size,
                                    )] <= matrix.at(start_nodes@[i]) by {
                                        lemma_cell(start_nodes@[i], neighbour, size);
                                    }
                                    assert forall|k: int| 0 <= k < d + 1 implies #[trigger] settled(
                                        matrix,
                                        dirs@,
                                        costs@,
                                        current,
                                        k,
                                    ) by {
                                        if k < d {
                                            assert(settled(matrix, dirs@, costs_before, current, k));
                                            lemma_still_settled(
                                                matrix,
                                                dirs@,
                                                costs_before,
                                                costs@,
                                                neighbour,
                                                current,
                                                k,
                                            );
                                        }
                                    }
                                }
                            }
                        },
                        None => {},
                    }
                },
                None => {},
            }
        }
        proof {
            assert(relaxed(matrix, dirs@, costs@, current));
            lemma_total_nonnegative(costs@);
            lemma_total_nonnegative(costs_at_pop);
        }
    }
    let mut least = usize::MAX;
    for e in 0..end_nodes.len()
        invariant
            matrix.wf(),
            size == matrix.width(),
            count == size * size,
            costs@.len() == count,
            forall|i: int| 0 <= i < end_nodes@.len() ==> in_grid(#[trigger] end_nodes@[i], size),
            forall|i: int| 0 <= i < e ==> least <= costs@[cell(#[trigger] end_nodes@[i], size)],
            least == usize::MAX || exists|i: int|
                0 <= i < e && least == costs@[cell(#[trigger] end_nodes@[i], size)],
    {
        let (x, y) = end_nodes[e];
        proof {
            assert(in_grid(end_nodes@[e as int], size));
            lemma_cell((x, y), (x, y), size);
        }
        let cost = costs[x + y * size];
        if cost < least {
            least = cost;
        }
    }
    proof {
        assert forall|path: Seq<Node>|
            #[trigger] is_walk(size, dirs@, start_nodes@, path) && end_nodes@.contains(
                path.last(),
            ) implies least <= walk_cost(matrix, path) by {
            lemma_walk_bound(matrix, dirs@, start_nodes@, costs@, path);
            let i = choose|i: int| 0 <= i < end_nodes@.len() && end_nodes@[i] == path.last();
            assert(least <= costs@[cell(end_nodes@[i], size)]);
        }
        if least != usize::MAX {
            let i = choose|i: int|
                0 <= i < end_nodes@.len() && least == costs@[cell(#[trigger] end_nodes@[i], size)];
            let v = end_nodes@[i];
            assert(reached(matrix, dirs@, start_nodes@, costs@, v));
            let path = choose|path: Seq<Node>|
                #[trigger] is_walk(size, dirs@, start_nodes@, path) && path.last() == v
                    && walk_cost(matrix, path) == costs@[cell(v, size)];
            assert(end_nodes@.contains(path.last()));
        }
    }
    least
}

/// After the cost of `v` was lowered to the cost of `u` plus the entry of
/// `v`, along the move `d`, every recorded cost is still that of some way,
/// and the move `d` out of `u` is settled.
proof fn lemma_lowered(
    m: Matrix,
    dirs: Seq<Dir>,
    starts: Seq<Node>,
    before: Seq<usize>,
    after: Seq<usize>,
    u: Node,
    v: Node,
    d: int,
)
    requires
        m.wf(),
        in_grid(u, m.width()),
        in_grid(v, m.width()),
        0 <= d < dirs.len(),
        moved(dirs[d], u, m.width()) == Some(v),
        before.len() == m.width() * m.width(),
        after == before.update(cell(v, m.width()), (before[cell(u, m.width())] + m.at(v)) as usize),
        before[cell(u, m.width())] + m.at(v) < before[cell(v, m.width())],
        forall|t: Node| in_grid(t, m.width()) ==> #[trigger] reached(m, dirs, starts, before, t),
    ensures
        forall|t: Node| in_grid(t, m.width()) ==> #[trigger] reached(m, dirs, starts, after, t),
        settled(m, dirs, after, u, d),
{
    let size = m.width();
    lemma_cell(u, v, size);
    assert(reached(m, dirs, starts, before, u));
    let pu = choose|path: Seq<Node>|
        #[trigger] is_walk(size, dirs, starts, path) && path.last() == u && walk_cost(m, path)
            == before[cell(u, size)];
    let pv = pu.push(v);
    assert(pv.drop_last() =~= pu);
    assert(is_walk(size, dirs, starts, pv)) by {
        assert(pv[0] == pu[0]);
        assert forall|k: int| 0 <= k < pv.len() - 1 implies linked(
            dirs,
            #[trigger] pv[k],
            pv[k + 1],
            size,
        ) by {
            if k < pu.len() - 1 {
                assert(linked(dirs, pu[k], pu[k + 1], size));
            } else {
                assert(moved(dirs[d], u, size) == Some(v));
            }
        }
    }
    assert forall|t: Node| in_grid(t, size) implies #[trigger] reached(m, dirs, starts, after, t) by {
        lemma_cell(t, v, size);
        if t == v {
            assert(pv.last() == v);
        } else {
            assert(reached(m, dirs, starts, before, t));
        }
    }
}

/// Lowering the cost of `v` leaves every other node relaxed that was.
proof fn lemma_still_relaxed(
    m: Matrix,
    dirs: Seq<Dir>,
    before: Seq<usize>,
    after: Seq<usize>,
    v: Node,
    u: Node,
)
    requires
        m.wf(),
        in_grid(u, m.width()),
        in_grid(v, m.width()),
        u != v,
        before.len() == m.width() * m.width(),
        after.len() == before.len(),
        forall|i: int| 0 <= i < before.len() && i != cell(v, m.width()) ==> after[i] == before[i],
        after[cell(v, m.width())] <= before[cell(v, m.width())],
        relaxed(m, dirs, before, u),
    ensures
        relaxed(m, dirs, after, u),
{
    assert forall|d: int| 0 <= d < dirs.len() implies #[trigger] settled(m, dirs, after, u, d) by {
        lemma_still_settled(m, dirs, before, after, v, u, d);
    }
}

/// Lowering the cost of `v` leaves a move out of another node settled that
/// was.
proof fn lemma_still_settled(
    m: Matrix,
    dirs: Seq<Dir>,
    before: Seq<usize>,
    after: Seq<usize>,
    v: Node,
    u: Node,
    d: int,
)
    requires
        m.wf(),
        in_grid(u, m.width()),
        in_grid(v, m.width()),
        u != v,
        0 <= d < dirs.len(),
        before.len() == m.width() * m.width(),
        after.len() == before.len(),
        forall|i: int| 0 <= i < before.len() && i != cell(v, m.width()) ==> after[i] == before[i],
        after[cell(v, m.width())] <= before[cell(v, m.width())],
        settled(m, dirs, before, u, d),
    ensures
        settled(m, dirs, after, u, d),
{
    let size = m.width();
    lemma_cell(u, v, size);
    match moved(dirs[d], u, size) {
        Some(w) => {
            lemma_cell(w, v, size);
            lemma_cell(u, u, size);
        },
        None => {},
    }
}

/// `least` is the least cost of a way through the matrix from a start node
/// to an end node by the given moves, where `usize::MAX` stands for every
/// cost from that on and for the lack of a way.
pub open spec fn is_least_cost(
    m: Matrix,
    dirs: Seq<Dir>,
    starts: Seq<Node>,
    ends: Seq<Node>,
    least: usize,
) -> bool {
    &&& forall|path: Seq<Node>|
        #[trigger] is_walk(m.width(), dirs, starts, path) && ends.contains(path.last()) ==> least
            <= walk_cost(m, path)
    &&& least == usize::MAX || exists|path: Seq<Node>|
        #[trigger] is_walk(m.width(), dirs, starts, path) && ends.contains(path.last())
            && walk_cost(m, path) == least
}

/// The nodes of column `x`, top to bottom.
pub open spec fn column(x: usize, size: usize) -> Seq<Node> {
    Seq::new(size as nat, |j: int| (x, j as usize))
}

/// The nodes of column `x` of a grid, top to bottom.
fn column_nodes(x: usize, size: usize) -> (nodes: Vec<(usize, usize)>)
    ensures
        nodes@ == column(x, size),
{
    let mut nodes: Vec<(usize, usize)> = Vec::new();
    for j in 0..size
        invariant
            nodes@.len() == j,
            forall|k: int| 0 <= k < j ==> nodes@[k] == (x, k as usize),
    {
        nodes.push((x, j));
    }
    assert(nodes@ =~= column(x, size));
    nodes
}

/// Path sum, two ways: the least cost from the top left to the bottom
/// right, moving right and down only.
pub fn p081_solve(matrix: Matrix) -> (least: usize)
    requires
        matrix.wf(),
        matrix.width() >= 1,
    ensures
        is_least_cost(
            matrix,
            seq![Dir::E, Dir::S],
            seq![(0usize, 0usize)],
            seq![((matrix.width() - 1) as usize, (matrix.width() - 1) as usize)],
            least,
        ),
{
    let start_nodes = [(0usize, 0usize)];
    let end_nodes = [(matrix.width - 1, matrix.width - 1)];
    let dirs = [Dir::E, Dir::S];
    assert(dirs@ =~= seq![Dir::E, Dir::S]);
    assert(start_nodes@ =~= seq![(0usize, 0usize)]);
    assert(end_nodes@ =~= seq![((matrix.width() - 1) as usize, (matrix.width() - 1) as usize)]);
    min_path_sum(matrix, dirs.as_slice(), start_nodes.as_slice(), end_nodes.as_slice())
}

/// Path sum, three ways: the least cost from any cell of the left column to
/// any cell of the right column, moving right, down and up.
pub fn p082_solve(matrix: Matrix) -> (least: usize)
    requires
        matrix.wf(),
        matrix.width() >= 1,
    ensures
        is_least_cost(
            matrix,
            seq![Dir::E, Dir::S, Dir::N],
            column(0, matrix.width()),
            column((matrix.width() - 1) as usize, matrix.width()),
            least,
        ),
{
    let dirs = [Dir::E, Dir::S, Dir::N];
    let start_nodes = column_nodes(0, matrix.width);
    let end_nodes = column_nodes(matrix.width - 1, matrix.width);
    assert(dirs@ =~= seq![Dir::E, Dir::S, Dir::N]);
    min_path_sum(matrix, dirs.as_slice(), start_nodes.as_slice(), end_nodes.as_slice())
}

/// Path sum, four ways: the least cost from the top left to the bottom
/// right, moving in all four directions.
pub fn p083_solve(matrix: Matrix) -> (least: usize)
    requires
        matrix.wf(),
        matrix.width() >= 1,
    ensures
        is_least_cost(
            matrix,
            seq![Dir::N, Dir::E, Dir::S, Dir::W],
            seq![(0usize, 0usize)],
            seq![((matrix.width() - 1) as usize, (matrix.width() - 1) as usize)],
            least,
        ),
{
    let dirs = [Dir::N, Dir::E, Dir::S, Dir::W];
    let start_nodes = [(0usize, 0usize)];
    let end_nodes = [(matrix.width - 1, matrix.width - 1)];
    assert(dirs@ =~= seq![Dir::N, Dir::E, Dir::S, Dir::W]);
    assert(start_nodes@ =~= seq![(0usize, 0usize)]);
    assert(end_nodes@ =~= seq![((matrix.width() - 1) as usize, (matrix.width() - 1) as usize)]);
    min_path_sum(matrix, dirs.as_slice(), start_nodes.as_slice(), end_nodes.as_slice())
}

/// `m` is the matrix of 80 by 80 numbers that the text spells.
pub open spec fn spelled_by(m: Matrix, bytes: Seq<u8>) -> bool {
    m.wf() && m.width() == SIZE && Some(m.entries()) == parse_matrix(bytes, SIZE)
}

/// Path sum, two ways, for the matrix of 80 by 80 numbers that `input`
/// spells.
pub fn p81(input: &str) -> (least: usize)
    requires
        parse_matrix(input.spec_bytes(), SIZE) is Some,
    ensures
        exists|m: Matrix|
            #[trigger] spelled_by(m, input.spec_bytes()) && is_least_cost(
                m,
                seq![Dir::E, Dir::S],
                seq![(0usize, 0usize)],
                seq![(79usize, 79usize)],
                least,
            ),
{
    let matrix = Matrix::read(input, SIZE);
    assert(spelled_by(matrix, input.spec_bytes()));
    p081_solve(matrix)
}

/// Path sum, three ways, for the matrix of 80 by 80 numbers that `input`
/// spells.
pub fn p82(input: &str) -> (least: usize)
    requires
        parse_matrix(input.spec_bytes(), SIZE) is Some,
    ensures
        exists|m: Matrix|
            #[trigger] spelled_by(m, input.spec_bytes()) && is_least_cost(
                m,
                seq![Dir::E, Dir::S, Dir::N],
                column(0, SIZE),
                column(79, SIZE),
                least,
            ),
{
    let matrix = Matrix::read(input, SIZE);
    assert(spelled_by(matrix, input.spec_bytes()));
    p082_solve(matrix)
}

/// Path sum, four ways, for the matrix of 80 by 80 numbers that `input`
/// spells.
pub fn p83(input: &str) -> (least: usize)
    requires
        parse_matrix(input.spec_bytes(), SIZE) is Some,
    ensures
        exists|m: Matrix|
            #[trigger] spelled_by(m, input.spec_bytes()) && is_least_cost(
                m,
                seq![Dir::N, Dir::E, Dir::S, Dir::W],
                seq![(0usize, 0usize)],
                seq![(79usize, 79usize)],
                least,
            ),
{
    let dirs = [Dir::N, Dir::E, Dir::S, Dir::W];
    let start_nodes = [(0usize, 0usize)];
    let end_nodes = [(SIZE - 1, SIZE - 1)];
    let matrix = Matrix::read(input, SIZE);
    assert(spelled_by(matrix, input.spec_bytes()));
    assert(dirs@ =~= seq![Dir::N, Dir::E, Dir::S, Dir::W]);
    assert(start_nodes@ =~= seq![(0usize, 0usize)]);
    assert(end_nodes@ =~= seq![(79usize, 79usize)]);
    min_path_sum(matrix, dirs.as_slice(), start_nodes.as_slice(), end_nodes.as_slice())
}

} // verus!
