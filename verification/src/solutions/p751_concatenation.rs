//! Concatenation coincidence: the number `2.2235...` that is rebuilt by the
//! sequence it starts.
//!
//! From a number `b` the sequence goes on with `floor(b) * (b - floor(b) +
//! 1)`; the integer parts of its members, written one behind the other
//! after `2.`, give a number again. The one that gives itself is looked for
//! by starting with `2.2` and repeating. Numbers are held as integers with
//! thirty decimal places; only the product of two of them needs more room
//! than a `u128`, and is left to the `num-bigint` crate.

use crate::solutions::p107_network::{decimal_value, lemma_decimal_prefix};
use num_bigint::BigInt;
use vstd::prelude::*;
use vstd::string::StringExecFns;

verus! {

/// One, as a number with thirty decimal places: ten to the thirtieth.
pub const SCALE: u128 = 1_000_000_000_000_000_000_000_000_000_000;

/// The number of decimal places.
pub const PLACES: usize = 30;

/// The length of the texts that are generated: `2.` and 24 digits.
pub const LENGTH: usize = 26;

/// The number as a `u128`, if it fits one.
pub open spec fn narrow(n: int) -> Option<u128> {
    if 0 <= n <= u128::MAX {
        Some(n as u128)
    } else {
        None
    }
}

/// The product of `x` and `y`, divided by `d` and rounded down, computed
/// with `BigInt` of the `num-bigint` crate: its `from`, `*` and `/`, and
/// `u128::try_from` for the way back; `None` if the quotient does not fit a
/// `u128`. Not proved. The division of `BigInt` panics on a zero divisor,
/// which the precondition excludes.
#[verifier::external_body]
fn product_over(x: u128, y: u128, d: u128) -> (q: Option<u128>)
    requires
        d > 0,
    ensures
        q == narrow((x as int) * (y as int) / (d as int)),
{
    let z = BigInt::from(x) * BigInt::from(y) / BigInt::from(d);
    u128::try_from(z).ok()
}

/// A number with thirty decimal places: `z` is the number times `SCALE`.
#[derive(Debug, Clone)]
pub struct Fixed {
    pub z: u128,
}

/// The word is made of decimal digits.
pub open spec fn is_digits(word: Seq<u8>) -> bool {
    forall|k: int| 0 <= k < word.len() ==> 0x30 <= #[trigger] word[k] <= 0x39
}

/// The digits after the point, with zeros behind them up to thirty places.
pub open spec fn padded(frac: Seq<u8>) -> Seq<u8> {
    frac + Seq::new((PLACES - frac.len()) as nat, |i: int| 0x30u8)
}

/// The number with the integer part `units` and the decimal places `frac`;
/// `None` if `frac` is not made of digits, has more than thirty of them, or
/// the number does not fit.
pub open spec fn parsed(units: u64, frac: Seq<u8>) -> Option<Fixed> {
    if frac.len() <= PLACES && is_digits(frac) {
        match narrow(units * SCALE + decimal_value(padded(frac))) {
            Some(z) => Some(Fixed { z }),
            None => None,
        }
    } else {
        None
    }
}

/// The product of two numbers, rounded down to thirty places; `None` if it
/// does not fit.
pub open spec fn product(x: Fixed, y: Fixed) -> Option<Fixed> {
    match narrow((x.z as int) * (y.z as int) / (SCALE as int)) {
        Some(z) => Some(Fixed { z }),
        None => None,
    }
}

impl Fixed {
    /// The integer part.
    pub fn whole(&self) -> (a: u64)
        ensures
            a == self.z / SCALE,
    {
        (self.z / SCALE) as u64
    }

    /// Reads a number from its integer part and the digits after the point.
    pub fn parse(units: u64, frac: &[u8]) -> (fixed: Option<Self>)
        ensures
            fixed == parsed(units, frac@),
    {
        if frac.len() > PLACES {
            return None;
        }
        let ghost pad = padded(frac@);
        let mut value: u128 = 0;
        let mut i: usize = 0;
        while i < PLACES
            invariant
                i <= PLACES,
                frac@.len() <= PLACES,
                pad == padded(frac@),
                forall|k: int| 0 <= k < i && k < frac@.len() ==> 0x30 <= #[trigger] frac@[k] <= 0x39,
                value == decimal_value(pad.take(i as int)),
            decreases PLACES - i,
        {
            let b: u8 = if i < frac.len() {
                frac[i]
            } else {
                0x30
            };
            assert(pad[i as int] == b);
            if b < 0x30 || b > 0x39 {
                assert(!is_digits(frac@));
                return None;
            }
            let d: u128 = (b - 0x30) as u128;
            proof {
                let longer = pad.take(i + 1);
                assert(longer.drop_last() =~= pad.take(i as int));
                assert(longer.last() == b);
                if is_digits(frac@) {
                    lemma_decimal_prefix(pad, i + 1);
                }
            }
            if value > (u128::MAX - d) / 10 {
                return None;
            }
            value = 10 * value + d;
            i = i + 1;
        }
        proof {
            assert(pad.take(PLACES as int) =~= pad);
            assert(is_digits(frac@));
        }
        match (units as u128).checked_mul(SCALE) {
            Some(whole) => match whole.checked_add(value) {
                Some(z) => Some(Fixed { z }),
                None => None,
            },
            None => None,
        }
    }

    /// The number with its integer part replaced by one.
    pub fn replace_int_with_one(&self) -> (r: Self)
        ensures
            r.z == self.z % SCALE + SCALE,
    {
        Self { z: self.z % SCALE + SCALE }
    }

    /// The number rounded down to an integer.
    pub fn floor(&self) -> (r: Self)
        ensures
            r.z == self.z / SCALE * SCALE,
    {
        let whole: u128 = self.z / SCALE;
        assert(whole * SCALE <= self.z) by (nonlinear_arith)
            requires
                whole == self.z / SCALE,
        ;
        Self { z: whole * SCALE }
    }
}

/// The product of two numbers, rounded down to thirty places; `None` if it
/// does not fit.
pub fn mul(x: Fixed, y: Fixed) -> (r: Option<Fixed>)
    ensures
        r == product(x, y),
{
    match product_over(x.z, y.z, SCALE) {
        Some(z) => Some(Fixed { z }),
        None => None,
    }
}

/// The member of the sequence after `b`: its integer part times what is
/// left of `b` where one takes the place of the integer part.
pub open spec fn next_member(b: Fixed) -> Option<Fixed> {
    product(
        Fixed { z: (b.z / SCALE * SCALE) as u128 },
        Fixed { z: (b.z % SCALE + SCALE) as u128 },
    )
}

/// The member of the sequence after `b`.
pub fn step(b: Fixed) -> (r: Option<Fixed>)
    ensures
        r == next_member(b),
{
    let lhs = b.floor();
    let rhs = b.replace_int_with_one();
    self::mul(lhs, rhs)
}

/// The decimal digits of a number, as text.
pub open spec fn text_of(n: int) -> Seq<u8>
    decreases n,
{
    if n < 10 {
        seq![(0x30 + n) as u8]
    } else {
        text_of(n / 10).push((0x30 + n % 10) as u8)
    }
}

/// A number has one digit at least.
pub proof fn lemma_text_len(n: int)
    ensures
        text_of(n).len() >= 1,
    decreases n,
{
    if n >= 10 {
        lemma_text_len(n / 10);
    }
}

/// Writes the decimal digits of `n` behind `out`.
pub fn push_decimal(n: u64, out: &mut Vec<u8>)
    ensures
        final(out)@ == old(out)@ + text_of(n as int),
    decreases n,
{
    if n >= 10 {
        push_decimal(n / 10, out);
    }
    let digit: u8 = (n % 10) as u8;
    out.push(0x30 + digit);
    proof {
        if n >= 10 {
            assert(final(out)@ =~= old(out)@ + text_of(n as int));
        } else {
            assert(final(out)@ =~= old(out)@ + text_of(n as int));
        }
    }
}

/// The number of characters that a text is short of `LENGTH`.
pub open spec fn missing(text: Seq<u8>) -> nat {
    if text.len() < LENGTH {
        (LENGTH - text.len()) as nat
    } else {
        0
    }
}

/// The text that grows from `text` by the integer parts of the members
/// after `b`, until it has `LENGTH` characters; `None` if a member does not
/// fit.
pub open spec fn extended(text: Seq<u8>, b: Fixed) -> Option<Seq<u8>>
    decreases missing(text),
{
    if text.len() >= LENGTH {
        Some(text)
    } else {
        match next_member(b) {
            Some(next) => {
                proof {
                    let digits = text_of(next.z as int / SCALE as int);
                    lemma_text_len(next.z as int / SCALE as int);
                    assert((text + digits).len() == text.len() + digits.len());
                }
                extended(text + text_of(next.z as int / SCALE as int), next)
            },
            None => None,
        }
    }
}

/// The text that the sequence started by the number of `start` gives: `2.`
/// and the integer parts of the members after the first. `None` if `start`
/// is not `2.` and up to thirty digits, or if a member does not fit.
pub open spec fn generated(start: Seq<u8>) -> Option<Seq<u8>> {
    if start.len() >= 2 && start[0] == 0x32 && start[1] == 0x2e {
        match parsed(2, start.skip(2)) {
            Some(b) => extended(seq![0x32u8, 0x2eu8], b),
            None => None,
        }
    } else {
        None
    }
}

/// Generates the text of the sequence that the number of `start` starts.
pub fn generate(start: &[u8]) -> (text: Option<Vec<u8>>)
    ensures
        match text {
            Some(t) => generated(start@) == Some(t@),
            None => generated(start@) is None,
        },
{
    if start.len() < 2 || start[0] != 0x32 || start[1] != 0x2e {
        return None;
    }
    let frac = slice_from(start, 2);
    let mut b = match Fixed::parse(2, frac) {
        Some(b) => b,
        None => {
            return None;
        },
    };
    let mut result: Vec<u8> = Vec::new();
    result.push(0x32);
    result.push(0x2e);
    assert(result@ =~= seq![0x32u8, 0x2eu8]);
    while result.len() < LENGTH
        invariant
            generated(start@) == extended(result@, b),
        decreases missing(result@),
    {
        b = match step(b) {
            Some(next) => next,
            None => {
                return None;
            },
        };
        let a = b.whole();
        let ghost shorter = result@;
        push_decimal(a, &mut result);
        proof {
            lemma_text_len(a as int);
            assert(result@.len() == shorter.len() + text_of(a as int).len());
        }
    }
    Some(result)
}

/// The part of a slice from `from` on.
fn slice_from(bytes: &[u8], from: usize) -> (rest: &[u8])
    requires
        from <= bytes@.len(),
    ensures
        rest@ == bytes@.skip(from as int),
{
    let rest = vstd::slice::slice_subrange(bytes, from, bytes.len());
    proof {
        assert(rest@ =~= bytes@.skip(from as int));
    }
    rest
}

/// Ten to the power `n`.
pub open spec fn ten_to(n: nat) -> int
    decreases n,
{
    if n == 0 {
        1
    } else {
        10 * ten_to((n - 1) as nat)
    }
}

/// A number of `n` digits is below ten to the power `n`.
pub proof fn lemma_decimal_bound(word: Seq<u8>)
    requires
        is_digits(word),
    ensures
        0 <= decimal_value(word) < ten_to(word.len()),
    decreases word.len(),
{
    if word.len() > 0 {
        lemma_decimal_bound(word.drop_last());
    }
}

/// What a member of the sequence stays below while the text has `len`
/// characters: three at first, and twice as much with every character.
pub open spec fn room(len: int) -> int
    decreases len,
{
    if len <= 2 {
        3 * SCALE
    } else {
        2 * room(len - 1)
    }
}

/// The room grows with the length of the text.
pub proof fn lemma_room_grows(a: int, b: int)
    requires
        a <= b,
    ensures
        0 < room(a) <= room(b),
    decreases b - a,
{
    lemma_room_positive(a);
    if a < b {
        lemma_room_grows(a, b - 1);
    }
}

/// The room is positive.
pub proof fn lemma_room_positive(a: int)
    ensures
        0 < room(a),
    decreases a,
{
    if a > 2 {
        lemma_room_positive(a - 1);
    }
}

/// The member after `b` is less than twice `b`, and is there if twice `b`
/// fits.
pub proof fn lemma_next_member(b: Fixed)
    requires
        2 * b.z <= u128::MAX,
    ensures
        next_member(b) is Some,
        next_member(b)->0.z <= 2 * b.z,
{
    let z = b.z as int;
    let s = SCALE as int;
    let w = z / s;
    let f = z % s;
    assert(w * s <= z) by (nonlinear_arith)
        requires
            w == z / s,
            s > 0,
            z >= 0,
    ;
    assert(0 <= w) by (nonlinear_arith)
        requires
            w == z / s,
            s > 0,
            z >= 0,
    ;
    let v = w * (f + s);
    assert((w * s) * (f + s) == v * s) by (nonlinear_arith)
        requires
            v == w * (f + s),
    ;
    vstd::arithmetic::div_mod::lemma_div_by_multiple(v, s);
    assert(0 <= v <= 2 * (w * s)) by (nonlinear_arith)
        requires
            v == w * (f + s),
            0 <= f < s,
            0 <= w,
    ;
    let floor = Fixed { z: (z / s * s) as u128 };
    let rest = Fixed { z: (z % s + s) as u128 };
    assert(floor.z == w * s);
    assert(rest.z == f + s);
    assert((floor.z as int) * (rest.z as int) / s == v);
}

/// A text of two characters at least grows to its length where the member
/// it stands at leaves room.
pub proof fn lemma_extended_defined(text: Seq<u8>, b: Fixed)
    requires
        2 <= text.len(),
        text.len() < LENGTH ==> b.z < room(text.len() as int),
    ensures
        extended(text, b) is Some,
    decreases missing(text),
{
    if text.len() < LENGTH {
        let len = text.len() as int;
        assert(room(26) == 50_331_648 * SCALE) by {
            reveal_with_fuel(room, 26);
        }
        lemma_room_grows(len + 1, 26);
        lemma_next_member(b);
        let next = next_member(b)->0;
        let digits = text_of(next.z as int / SCALE as int);
        lemma_text_len(next.z as int / SCALE as int);
        let longer = text + digits;
        assert(longer.len() == text.len() + digits.len());
        if longer.len() < LENGTH {
            lemma_room_grows(len + 1, longer.len() as int);
        }
        lemma_extended_defined(longer, next);
    }
}

/// A text gives a text exactly if it is `2.` and up to thirty digits.
pub proof fn lemma_generated_defined(start: Seq<u8>)
    ensures
        generated(start) is Some <==> (start.len() >= 2 && start[0] == 0x32 && start[1] == 0x2e
            && start.len() <= PLACES + 2 && is_digits(start.skip(2))),
{
    if start.len() >= 2 && start[0] == 0x32 && start[1] == 0x2e && start.len() <= PLACES + 2
        && is_digits(start.skip(2)) {
        let frac = start.skip(2);
        let pad = padded(frac);
        assert(is_digits(pad));
        lemma_decimal_bound(pad);
        assert(ten_to(30) == SCALE) by {
            reveal_with_fuel(ten_to, 31);
        }
        let b = parsed(2, frac)->0;
        assert(parsed(2, frac) is Some);
        assert(b.z < room(2));
        let head = seq![0x32u8, 0x2eu8];
        lemma_extended_defined(head, b);
    }
}

/// The text is one that gives itself.
pub open spec fn is_fixed(text: Seq<u8>) -> bool {
    generated(text) == Some(text)
}

/// The text that comes of `start` after `rounds` rounds of generating;
/// `None` if a round fails.
pub open spec fn iterated(start: Seq<u8>, rounds: nat) -> Option<Seq<u8>>
    decreases rounds,
{
    if rounds == 0 {
        Some(start)
    } else {
        match iterated(start, (rounds - 1) as nat) {
            Some(text) => generated(text),
            None => None,
        }
    }
}

/// After `rounds` rounds there is a text that gives itself.
pub open spec fn settles(start: Seq<u8>, rounds: nat) -> bool {
    match iterated(start, rounds) {
        Some(text) => is_fixed(text),
        None => false,
    }
}

/// `text` is the first text on the way from `start`, within `rounds`
/// rounds, that gives itself.
pub open spec fn first_fixed(start: Seq<u8>, rounds: nat, text: Seq<u8>) -> bool {
    exists|k: nat|
        k < rounds && #[trigger] iterated(start, k) == Some(text) && is_fixed(text) && forall|j: nat|
            j < k ==> !#[trigger] settles(start, j)
}

/// Once a round has failed, every later round fails.
pub proof fn lemma_failed(start: Seq<u8>, k: nat, j: nat)
    requires
        iterated(start, k) is None,
        k <= j,
    ensures
        iterated(start, j) is None,
    decreases j,
{
    if k < j {
        lemma_failed(start, k, (j - 1) as nat);
    }
}

/// Whether the two texts are the same.
pub fn same_text(a: &[u8], b: &[u8]) -> (same: bool)
    ensures
        same == (a@ == b@),
{
    if a.len() != b.len() {
        return false;
    }
    for i in 0..a.len()
        invariant
            a@.len() == b@.len(),
            forall|k: int| 0 <= k < i ==> a@[k] == b@[k],
    {
        if a[i] != b[i] {
            return false;
        }
    }
    assert(a@ =~= b@);
    true
}

/// Looks for a text that gives itself: generates from `start`, then from
/// what came of it, and so on, for `rounds` rounds at most. `None` if no
/// such text comes within these rounds, or a round fails.
pub fn fixed_point(start: &[u8], rounds: usize) -> (found: Option<Vec<u8>>)
    ensures
        match found {
            Some(text) => first_fixed(start@, rounds as nat, text@),
            None => forall|k: nat| k < rounds ==> !#[trigger] settles(start@, k),
        },
{
    let mut prev: Vec<u8> = Vec::new();
    for i in 0..start.len()
        invariant
            prev@ == start@.take(i as int),
    {
        prev.push(start[i]);
        assert(prev@ =~= start@.take(i + 1));
    }
    assert(start@.take(start@.len() as int) =~= start@);
    for round in 0..rounds
        invariant
            iterated(start@, round as nat) == Some(prev@),
            forall|j: nat| j < round ==> !#[trigger] settles(start@, j),
    {
        match generate(prev.as_slice()) {
            Some(next) => {
                if same_text(next.as_slice(), prev.as_slice()) {
                    return Some(prev);
                }
                prev = next;
            },
            None => {
                proof {
                    assert(iterated(start@, (round + 1) as nat) is None);
                    assert forall|k: nat| k < rounds implies !#[trigger] settles(start@, k) by {
                        if k > round {
                            lemma_failed(start@, (round + 1) as nat, k);
                        }
                    }
                }
                return None;
            },
        }
    }
    None
}

/// The byte is a decimal digit or a point.
pub open spec fn is_plain(b: u8) -> bool {
    0x30 <= b <= 0x39 || b == 0x2e
}

/// The decimal digits of a number are digits.
pub proof fn lemma_text_digits(n: int)
    requires
        0 <= n,
    ensures
        is_digits(text_of(n)),
    decreases n,
{
    if n >= 10 {
        lemma_text_digits(n / 10);
    }
}

/// A text of digits and points grows by digits only.
pub proof fn lemma_extended_plain(text: Seq<u8>, b: Fixed)
    requires
        forall|i: int| 0 <= i < text.len() ==> is_plain(#[trigger] text[i]),
    ensures
        match extended(text, b) {
            Some(t) => forall|i: int| 0 <= i < t.len() ==> is_plain(#[trigger] t[i]),
            None => true,
        },
    decreases missing(text),
{
    if text.len() < LENGTH {
        match next_member(b) {
            Some(next) => {
                let digits = text_of(next.z as int / SCALE as int);
                lemma_text_len(next.z as int / SCALE as int);
                lemma_text_digits(next.z as int / SCALE as int);
                assert((text + digits).len() == text.len() + digits.len());
                lemma_extended_plain(text + digits, next);
            },
            None => {},
        }
    }
}

/// The text as characters.
pub open spec fn spelled(text: Seq<char>, bytes: Seq<u8>) -> bool {
    text.len() == bytes.len() && forall|i: int|
        0 <= i < bytes.len() ==> #[trigger] text[i] == bytes[i] as char
}

/// The digit or point of a byte, as a text of one character; a question
/// mark for any other byte.
fn plain_text(b: u8) -> (letter: &'static str)
    ensures
        letter@.len() == 1,
        is_plain(b) ==> letter@[0] == b as char,
{
    proof {
        reveal_strlit("0");
        reveal_strlit("1");
        reveal_strlit("2");
        reveal_strlit("3");
        reveal_strlit("4");
        reveal_strlit("5");
        reveal_strlit("6");
        reveal_strlit("7");
        reveal_strlit("8");
        reveal_strlit("9");
        reveal_strlit(".");
        reveal_strlit("?");
    }
    if b == 0x30 {
        "0"
    } else if b == 0x31 {
        "1"
    } else if b == 0x32 {
        "2"
    } else if b == 0x33 {
        "3"
    } else if b == 0x34 {
        "4"
    } else if b == 0x35 {
        "5"
    } else if b == 0x36 {
        "6"
    } else if b == 0x37 {
        "7"
    } else if b == 0x38 {
        "8"
    } else if b == 0x39 {
        "9"
    } else if b == 0x2e {
        "."
    } else {
        "?"
    }
}

/// The number of rounds after which the search gives up.
pub const ROUNDS: usize = 100;

/// The text that the search starts with: `2.2`.
pub open spec fn first_text() -> Seq<u8> {
    seq![0x32u8, 0x2eu8, 0x32u8]
}

/// Concatenation coincidence: the number that its own sequence rebuilds,
/// to 24 places, found as the first text on the way from `2.2` that gives
/// itself. `None` if none comes within `ROUNDS` rounds, or if that text
/// has more than `LENGTH` characters.
pub fn p751() -> (text: Option<String>)
    ensures
        match text {
            Some(t) => exists|bytes: Seq<u8>| #[trigger]
                first_fixed(first_text(), ROUNDS as nat, bytes) && bytes.len() == LENGTH
                    && spelled(t@, bytes),
            None => (forall|k: nat| k < ROUNDS ==> !#[trigger] settles(first_text(), k))
                || exists|bytes: Seq<u8>| #[trigger]
                first_fixed(first_text(), ROUNDS as nat, bytes) && bytes.len() != LENGTH,
        },
{
    let mut start: Vec<u8> = Vec::new();
    start.push(0x32);
    start.push(0x2e);
    start.push(0x32);
    assert(start@ =~= first_text());
    let bytes = match fixed_point(start.as_slice(), ROUNDS) {
        Some(bytes) => bytes,
        None => {
            return None;
        },
    };
    assert(first_fixed(first_text(), ROUNDS as nat, bytes@));
    if bytes.len() != LENGTH {
        return None;
    }
    proof {
        assert(generated(bytes@) == Some(bytes@));
        let b = parsed(2, bytes@.skip(2))->0;
        let head = seq![0x32u8, 0x2eu8];
        assert forall|i: int| 0 <= i < head.len() implies is_plain(#[trigger] head[i]) by {}
        lemma_extended_plain(head, b);
        assert(parsed(2, bytes@.skip(2)) is Some);
        assert(extended(head, b) == Some(bytes@));
        let grown = extended(head, b)->0;
        assert forall|k: int| 0 <= k < bytes@.len() implies is_plain(#[trigger] bytes@[k]) by {
            assert(is_plain(grown[k]));
        }
    }
    let mut output = String::new();
    for i in 0..bytes.len()
        invariant
            output@.len() == i,
            forall|k: int| 0 <= k < bytes@.len() ==> is_plain(#[trigger] bytes@[k]),
            forall|k: int| 0 <= k < i ==> #[trigger] output@[k] == bytes@[k] as char,
    {
        let ghost before = output@;
        assert(is_plain(bytes@[i as int]));
        let letter = plain_text(bytes[i]);
        output.append(letter);
        assert(output@ =~= before + letter@);
    }
    assert(spelled(output@, bytes@));
    Some(output)
}

} // verus!
