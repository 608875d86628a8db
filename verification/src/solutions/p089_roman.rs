//! Roman numerals: reading a numeral, writing the shortest numeral of a
//! number, and the characters that the shortest form saves.

use crate::solutions::p013_large_sum::{line_rows, split_lines, text_lines};
use vstd::prelude::*;
use vstd::string::{StringExecFns, StringSliceAdditionalSpecFns};

verus! {

/// The symbols of Roman numerals with their values, greatest first. A
/// symbol is one letter, or two letters where the first is subtracted.
pub open spec fn symbol_value(i: int) -> int {
    if i == 0 {
        1000
    } else if i == 1 {
        900
    } else if i == 2 {
        500
    } else if i == 3 {
        400
    } else if i == 4 {
        100
    } else if i == 5 {
        90
    } else if i == 6 {
        50
    } else if i == 7 {
        40
    } else if i == 8 {
        10
    } else if i == 9 {
        9
    } else if i == 10 {
        5
    } else if i == 11 {
        4
    } else {
        1
    }
}

/// The letters of the `i`-th symbol, as bytes.
pub open spec fn symbol_bytes(i: int) -> Seq<u8> {
    if i == 0 {
        seq![0x4du8]
    } else if i == 1 {
        seq![0x43u8, 0x4du8]
    } else if i == 2 {
        seq![0x44u8]
    } else if i == 3 {
        seq![0x43u8, 0x44u8]
    } else if i == 4 {
        seq![0x43u8]
    } else if i == 5 {
        seq![0x58u8, 0x43u8]
    } else if i == 6 {
        seq![0x4cu8]
    } else if i == 7 {
        seq![0x58u8, 0x4cu8]
    } else if i == 8 {
        seq![0x58u8]
    } else if i == 9 {
        seq![0x49u8, 0x58u8]
    } else if i == 10 {
        seq![0x56u8]
    } else if i == 11 {
        seq![0x49u8, 0x56u8]
    } else {
        seq![0x49u8]
    }
}

/// `text` begins with the letters of the `i`-th symbol.
pub open spec fn begins_with(text: Seq<u8>, i: int) -> bool {
    symbol_bytes(i).len() <= text.len() && text.subrange(0, symbol_bytes(i).len() as int)
        == symbol_bytes(i)
}

/// The first symbol, in the order of the table, that `text` begins with, from
/// the `i`-th on; 13 if it begins with none.
pub open spec fn first_symbol(text: Seq<u8>, i: int) -> int
    decreases 13 - i,
{
    if i >= 13 || i < 0 {
        13
    } else if begins_with(text, i) {
        i
    } else {
        first_symbol(text, i + 1)
    }
}

/// The value of a numeral: the sum of the values of its symbols, read from
/// the left, each time the first symbol of the table that fits. `None` if
/// the text is not made of symbols.
pub open spec fn roman_value(text: Seq<u8>) -> Option<int>
    decreases text.len(),
{
    if text.len() == 0 {
        Some(0)
    } else {
        let i = first_symbol(text, 0);
        if i >= 13 || symbol_bytes(i).len() > text.len() || symbol_bytes(i).len() == 0 {
            None
        } else {
            match roman_value(text.skip(symbol_bytes(i).len() as int)) {
                Some(rest) => Some(symbol_value(i) + rest),
                None => None,
            }
        }
    }
}

/// The symbols of the shortest numeral of `n`, as positions in the table:
/// each time the greatest symbol that fits.
pub open spec fn roman_symbols(n: int, i: int) -> Seq<int>
    decreases 13 - i, n,
{
    if i >= 13 || i < 0 || n <= 0 {
        Seq::empty()
    } else if n >= symbol_value(i) {
        seq![i] + roman_symbols(n - symbol_value(i), i)
    } else {
        roman_symbols(n, i + 1)
    }
}

/// The letters of a sequence of symbols.
pub open spec fn symbols_text(symbols: Seq<int>) -> Seq<u8>
    decreases symbols.len(),
{
    if symbols.len() == 0 {
        Seq::empty()
    } else {
        symbol_bytes(symbols[0]) + symbols_text(symbols.skip(1))
    }
}

/// The shortest numeral of `n`, as bytes.
pub open spec fn roman_text(n: int) -> Seq<u8> {
    symbols_text(roman_symbols(n, 0))
}

/// The value and the letters of the `i`-th symbol.
pub fn symbol(i: usize) -> (s: (u16, Vec<u8>))
    requires
        i < 13,
    ensures
        s.0 == symbol_value(i as int),
        s.1@ == symbol_bytes(i as int),
{
    let (value, first, second): (u16, u8, u8) = if i == 0 {
        (1000, 0x4d, 0)
    } else if i == 1 {
        (900, 0x43, 0x4d)
    } else if i == 2 {
        (500, 0x44, 0)
    } else if i == 3 {
        (400, 0x43, 0x44)
    } else if i == 4 {
        (100, 0x43, 0)
    } else if i == 5 {
        (90, 0x58, 0x43)
    } else if i == 6 {
        (50, 0x4c, 0)
    } else if i == 7 {
        (40, 0x58, 0x4c)
    } else if i == 8 {
        (10, 0x58, 0)
    } else if i == 9 {
        (9, 0x49, 0x58)
    } else if i == 10 {
        (5, 0x56, 0)
    } else if i == 11 {
        (4, 0x49, 0x56)
    } else {
        (1, 0x49, 0)
    };
    let mut letters: Vec<u8> = Vec::new();
    letters.push(first);
    if second != 0 {
        letters.push(second);
    }
    assert(letters@ =~= symbol_bytes(i as int));
    (value, letters)
}

/// Whether the text from position `at` on begins with the given letters.
fn starts_with_at(text: &[u8], at: usize, letters: &Vec<u8>) -> (yes: bool)
    requires
        at <= text@.len(),
    ensures
        yes == (letters@.len() <= text@.len() - at && text@.skip(at as int).subrange(
            0,
            letters@.len() as int,
        ) == letters@),
{
    if letters.len() > text.len() - at {
        return false;
    }
    let mut k: usize = 0;
    while k < letters.len()
        invariant
            0 <= k <= letters@.len(),
            at + letters@.len() <= text@.len() <= usize::MAX,
            forall|j: int| 0 <= j < k ==> text@[at + j] == letters@[j],
        decreases letters@.len() - k,
    {
        if text[at + k] != letters[k] {
            assert(text@.skip(at as int).subrange(0, letters@.len() as int)[k as int]
                != letters@[k as int]);
            return false;
        }
        k += 1;
    }
    assert(text@.skip(at as int).subrange(0, letters@.len() as int) =~= letters@);
    true
}

/// Reads a Roman numeral. `None` if the text is not made of the symbols of
/// Roman numerals, or if its value does not fit 16 bits.
pub fn parse_roman(input: &str) -> (value: Option<u16>)
    ensures
        match value {
            Some(n) => roman_value(input.spec_bytes()) == Some(n as int),
            None => match roman_value(input.spec_bytes()) {
                Some(n) => n > u16::MAX,
                None => true,
            },
        },
{
    parse_roman_letters(input.as_bytes())
}

/// Reads a Roman numeral that is given as bytes.
#[verifier::rlimit(40)]
pub fn parse_roman_letters(text: &[u8]) -> (value: Option<u16>)
    ensures
        match value {
            Some(n) => roman_value(text@) == Some(n as int),
            None => match roman_value(text@) {
                Some(n) => n > u16::MAX,
                None => true,
            },
        },
{
    let mut at: usize = 0;
    let mut n: u16 = 0;
    assert(text@.skip(0) =~= text@);
    while at < text.len()
        invariant
            0 <= at <= text@.len(),
            match roman_value(text@.skip(at as int)) {
                Some(rest) => roman_value(text@) == Some(n + rest),
                None => roman_value(text@) is None,
            },
        decreases text@.len() - at,
    {
        let ghost here = text@.skip(at as int);
        let mut i: usize = 0;
        let mut found: Option<(u16, usize)> = None;
        while i < 13
            invariant_except_break
                found is None,
                first_symbol(here, 0) == first_symbol(here, i as int),
            invariant
                0 <= i <= 13,
                0 <= at < text@.len(),
                here == text@.skip(at as int),
            ensures
                match found {
                    Some((k, len)) => first_symbol(here, 0) < 13 && k == symbol_value(
                        first_symbol(here, 0),
                    ) && len == symbol_bytes(first_symbol(here, 0)).len() && 1 <= len <= here.len(),
                    None => first_symbol(here, 0) == 13,
                },
            decreases 13 - i,
        {
            let (k, letters) = symbol(i);
            if starts_with_at(text, at, &letters) {
                found = Some((k, letters.len()));
                break;
            }
            i += 1;
        }
        match found {
            Some((k, len)) => {
                proof {
                    assert(text@.skip(at as int).skip(len as int) =~= text@.skip(at + len));
                    lemma_value_nonnegative(text@.skip(at + len));
                }
                n = match n.checked_add(k) {
                    Some(sum) => sum,
                    None => {
                        return None;
                    },
                };
                at += len;
            },
            None => {
                return None;
            },
        }
    }
    assert(text@.skip(at as int) =~= Seq::<u8>::empty());
    Some(n)
}

/// The value of a numeral is not negative.
pub proof fn lemma_value_nonnegative(text: Seq<u8>)
    ensures
        match roman_value(text) {
            Some(n) => n >= 0,
            None => true,
        },
    decreases text.len(),
{
    if text.len() > 0 {
        let i = first_symbol(text, 0);
        if !(i >= 13 || symbol_bytes(i).len() > text.len() || symbol_bytes(i).len() == 0) {
            lemma_value_nonnegative(text.skip(symbol_bytes(i).len() as int));
        }
    }
}

/// `b` is one of the seven letters of Roman numerals.
pub open spec fn roman_letter(b: u8) -> bool {
    b == 0x4d || b == 0x44 || b == 0x43 || b == 0x4c || b == 0x58 || b == 0x56 || b == 0x49
}

/// The letters of symbols are letters of Roman numerals.
pub proof fn lemma_symbols_text_letters(symbols: Seq<int>)
    ensures
        forall|i: int|
            0 <= i < symbols_text(symbols).len() ==> roman_letter(#[trigger] symbols_text(symbols)[i]),
    decreases symbols.len(),
{
    if symbols.len() > 0 {
        lemma_symbols_text_letters(symbols.skip(1));
        let head = symbol_bytes(symbols[0]);
        let tail = symbols_text(symbols.skip(1));
        assert forall|i: int| 0 <= i < symbols_text(symbols).len() implies roman_letter(
            #[trigger] symbols_text(symbols)[i],
        ) by {
            if i < head.len() {
                assert(symbols_text(symbols)[i] == head[i]);
            } else {
                assert(symbols_text(symbols)[i] == tail[i - head.len()]);
            }
        }
    }
}

/// Writes the shortest Roman numeral of `n`, as its letters.
pub fn emit_roman_letters(n: u16) -> (letters: Vec<u8>)
    ensures
        letters@ == roman_text(n as int),
        forall|i: int| 0 <= i < letters@.len() ==> roman_letter(#[trigger] letters@[i]),
{
    proof {
        lemma_symbols_text_letters(roman_symbols(n as int, 0));
    }
    let ghost whole = n as int;
    let mut n = n;
    let mut output: Vec<u8> = Vec::new();
    let mut i: usize = 0;
    assert(output@ + roman_text(whole) =~= roman_text(whole));
    while i < 13
        invariant
            0 <= i <= 13,
            output@ + symbols_text(roman_symbols(n as int, i as int)) == roman_text(whole),
        decreases 13 - i,
    {
        let (k, letters) = symbol(i);
        while n >= k
            invariant
                0 <= i < 13,
                k == symbol_value(i as int),
                letters@ == symbol_bytes(i as int),
                output@ + symbols_text(roman_symbols(n as int, i as int)) == roman_text(whole),
            decreases n,
        {
            let ghost before = output@;
            let ghost rest = roman_symbols(n - k, i as int);
            proof {
                let now = roman_symbols(n as int, i as int);
                assert(now == seq![i as int] + rest);
                assert(now.skip(1) =~= rest);
                assert(symbols_text(now) == symbol_bytes(i as int) + symbols_text(rest));
            }
            n -= k;
            let mut j: usize = 0;
            while j < letters.len()
                invariant
                    0 <= j <= letters@.len(),
                    output@ == before + letters@.subrange(0, j as int),
                decreases letters@.len() - j,
            {
                output.push(letters[j]);
                assert(output@ =~= before + letters@.subrange(0, j + 1));
                j += 1;
            }
            assert(letters@.subrange(0, letters@.len() as int) =~= letters@);
            assert((before + letters@) + symbols_text(rest) =~= before + (letters@ + symbols_text(
                rest,
            )));
        }
        i += 1;
    }
    assert(output@ + Seq::<u8>::empty() =~= output@);
    output
}

/// Writes the shortest Roman numeral of `n`.
pub fn emit_roman(n: u16) -> (text: String)
    ensures
        text@.len() == roman_text(n as int).len(),
        forall|i: int| 0 <= i < text@.len() ==> #[trigger] text@[i] == roman_text(n as int)[i] as char,
{
    let letters = emit_roman_letters(n);
    let mut output = String::new();
    for i in 0..letters.len()
        invariant
            output@.len() == i,
            forall|k: int| 0 <= k < letters@.len() ==> roman_letter(#[trigger] letters@[k]),
            forall|k: int| 0 <= k < i ==> #[trigger] output@[k] == letters@[k] as char,
    {
        let ghost before = output@;
        assert(roman_letter(letters@[i as int]));
        let letter = letter_text(letters[i]);
        output.append(letter);
        assert(output@ =~= before + letter@);
    }
    output
}

/// The letter of a byte, as a text of one character; a question mark for a
/// byte that is no letter of a numeral.
fn letter_text(b: u8) -> (letter: &'static str)
    ensures
        letter@.len() == 1,
        roman_letter(b) ==> letter@[0] == b as char,
{
    proof {
        reveal_strlit("M");
        reveal_strlit("D");
        reveal_strlit("C");
        reveal_strlit("L");
        reveal_strlit("X");
        reveal_strlit("V");
        reveal_strlit("I");
        reveal_strlit("?");
    }
    if b == 0x4d {
        "M"
    } else if b == 0x44 {
        "D"
    } else if b == 0x43 {
        "C"
    } else if b == 0x4c {
        "L"
    } else if b == 0x58 {
        "X"
    } else if b == 0x56 {
        "V"
    } else if b == 0x49 {
        "I"
    } else {
        "?"
    }
}

/// What the shortest numeral saves against the numeral `text`, in
/// characters; `None` if the text is no numeral, if its value does not fit 16
/// bits, or if the text is shorter than the shortest numeral of its value.
pub open spec fn saved_letters(text: Seq<u8>) -> Option<int> {
    match roman_value(text) {
        Some(n) => if n <= u16::MAX && roman_text(n).len() <= text.len() {
            Some(text.len() - roman_text(n).len())
        } else {
            None
        },
        None => None,
    }
}

/// How many characters the shortest numeral saves against the numeral
/// given. `None` if the text is no numeral, if its value does not fit 16
/// bits, or if the text is shorter than the shortest numeral of its value.
pub fn saving(input: &str) -> (saved: Option<usize>)
    ensures
        match saved {
            Some(s) => saved_letters(input.spec_bytes()) == Some(s as int),
            None => saved_letters(input.spec_bytes()) is None,
        },
{
    saving_letters(input.as_bytes())
}

/// The same, for a numeral that is given as bytes.
pub fn saving_letters(text: &[u8]) -> (saved: Option<usize>)
    ensures
        match saved {
            Some(s) => saved_letters(text@) == Some(s as int),
            None => saved_letters(text@) is None,
        },
{
    let n = match parse_roman_letters(text) {
        Some(n) => n,
        None => {
            return None;
        },
    };
    let best = emit_roman_letters(n);
    if text.len() < best.len() {
        return None;
    }
    Some(text.len() - best.len())
}

/// The sum of what the shortest numerals save against the first `count`
/// of the lines; `None` if one of those lines has no saving.
pub open spec fn lines_saving(lines: Seq<Seq<u8>>, count: int) -> Option<int>
    decreases count,
{
    if count <= 0 {
        Some(0)
    } else {
        match (lines_saving(lines, count - 1), saved_letters(lines[count - 1])) {
            (Some(sum), Some(s)) => Some(sum + s),
            _ => None,
        }
    }
}

/// Roman numerals: the number of characters saved by writing each of the
/// numerals of `input`, one to a line, in its shortest form. `None` if a
/// line is no numeral that can be shortened, or if the sum does not fit a
/// `usize`.
pub fn p089(input: &str) -> (saved: Option<usize>)
    ensures
        match saved {
            Some(s) => lines_saving(
                text_lines(input.spec_bytes()),
                text_lines(input.spec_bytes()).len() as int,
            ) == Some(s as int),
            None => match lines_saving(
                text_lines(input.spec_bytes()),
                text_lines(input.spec_bytes()).len() as int,
            ) {
                Some(s) => s > usize::MAX,
                None => true,
            },
        },
{
    let lines = split_lines(input.as_bytes());
    let ghost rows = text_lines(input.spec_bytes());
    let mut sum: usize = 0;
    let mut failed = false;
    for i in 0..lines.len()
        invariant
            rows == line_rows(lines@),
            rows == text_lines(input.spec_bytes()),
            failed ==> match lines_saving(rows, rows.len() as int) {
                Some(s) => s > usize::MAX,
                None => true,
            },
            !failed ==> lines_saving(rows, i as int) == Some(sum as int),
    {
        assert(rows[i as int] == lines@[i as int]@);
        if !failed {
            match saving_letters(lines[i].as_slice()) {
                Some(s) => match sum.checked_add(s) {
                    Some(total) => {
                        sum = total;
                    },
                    None => {
                        proof {
                            lemma_lines_saving_grows(rows, i + 1, rows.len() as int);
                        }
                        failed = true;
                    },
                },
                None => {
                    proof {
                        lemma_lines_saving_grows(rows, i + 1, rows.len() as int);
                    }
                    failed = true;
                },
            }
        }
    }
    if failed {
        None
    } else {
        Some(sum)
    }
}

/// The sum over more lines is no less, and fails where the sum over fewer
/// lines fails.
pub proof fn lemma_lines_saving_grows(lines: Seq<Seq<u8>>, fewer: int, more: int)
    requires
        0 <= fewer <= more,
    ensures
        match (lines_saving(lines, fewer), lines_saving(lines, more)) {
            (Some(a), Some(b)) => 0 <= a <= b,
            (None, Some(_)) => false,
            _ => true,
        },
    decreases more,
{
    if fewer < more {
        lemma_lines_saving_grows(lines, fewer, more - 1);
    } else {
        lemma_lines_saving_nonnegative(lines, fewer);
    }
    lemma_lines_saving_nonnegative(lines, more);
}

/// A sum of savings is not negative.
pub proof fn lemma_lines_saving_nonnegative(lines: Seq<Seq<u8>>, count: int)
    ensures
        match lines_saving(lines, count) {
            Some(a) => 0 <= a,
            None => true,
        },
    decreases count,
{
    if count > 0 {
        lemma_lines_saving_nonnegative(lines, count - 1);
    }
}

/// The positions in the table are valid and in ascending order: each symbol
/// is worth no more than the one before it.
pub open spec fn ascending_symbols(symbols: Seq<int>) -> bool {
    &&& forall|i: int| 0 <= i < symbols.len() ==> 0 <= #[trigger] symbols[i] < 13
    &&& forall|i: int| 0 <= i < symbols.len() - 1 ==> #[trigger] symbols[i] <= symbols[i + 1]
}

/// The sum of the values of a sequence of symbols.
pub open spec fn symbols_value(symbols: Seq<int>) -> int
    decreases symbols.len(),
{
    if symbols.len() == 0 {
        0
    } else {
        symbol_value(symbols[0]) + symbols_value(symbols.skip(1))
    }
}

/// The first letter of the `i`-th symbol.
pub open spec fn first_letter(i: int) -> u8 {
    symbol_bytes(i)[0]
}

/// A text that begins with the letters of the symbol `s`, and goes on, if
/// at all, with the first letter of a symbol that is worth no more, begins
/// with no symbol that comes before `s` in the table.
#[verifier::rlimit(40)]
proof fn lemma_first_symbol(text: Seq<u8>, s: int, next: int)
    requires
        0 <= s < 13,
        s <= next <= 13,
        begins_with(text, s),
        next < 13 ==> text.len() > symbol_bytes(s).len() && text[symbol_bytes(s).len() as int]
            == first_letter(next),
        next == 13 ==> text.len() == symbol_bytes(s).len(),
    ensures
        first_symbol(text, 0) == s,
{
    reveal_with_fuel(first_symbol, 14);
    let own = symbol_bytes(s);
    assert(text[0] == own[0]) by {
        assert(text.subrange(0, own.len() as int)[0] == own[0]);
    }
    if own.len() == 2 {
        assert(text[1] == own[1]) by {
            assert(text.subrange(0, own.len() as int)[1] == own[1]);
        }
    }
    assert forall|k: int| 0 <= k < s implies !begins_with(text, k) by {
        let other = symbol_bytes(k);
        if begins_with(text, k) {
            assert(text.subrange(0, other.len() as int)[0] == other[0]);
            if other.len() == 2 {
                assert(text.subrange(0, other.len() as int)[1] == other[1]);
            }
            assert(false);
        }
    }
    lemma_first_symbol_skips(text, 0, s);
}

/// Where the text begins with none of the symbols from `from` up to `s`,
/// the search for its first symbol goes on at `s`.
proof fn lemma_first_symbol_skips(text: Seq<u8>, from: int, s: int)
    requires
        0 <= from <= s < 13,
        forall|k: int| from <= k < s ==> !begins_with(text, k),
        begins_with(text, s),
    ensures
        first_symbol(text, from) == s,
    decreases s - from,
{
    if from < s {
        lemma_first_symbol_skips(text, from + 1, s);
    }
}

/// Reading what was written: a text made of symbols in ascending order of
/// their positions in the table has the sum of their values as its value.
pub proof fn lemma_value_of_symbols(symbols: Seq<int>)
    requires
        ascending_symbols(symbols),
    ensures
        roman_value(symbols_text(symbols)) == Some(symbols_value(symbols)),
    decreases symbols.len(),
{
    if symbols.len() > 0 {
        let s = symbols[0];
        let rest = symbols.skip(1);
        let text = symbols_text(symbols);
        let own = symbol_bytes(s);
        assert(ascending_symbols(rest)) by {
            assert forall|i: int| 0 <= i < rest.len() implies 0 <= #[trigger] rest[i] < 13 by {
                assert(rest[i] == symbols[i + 1]);
            }
            assert forall|i: int| 0 <= i < rest.len() - 1 implies #[trigger] rest[i] <= rest[i
                + 1] by {
                assert(rest[i] == symbols[i + 1]);
                assert(rest[i + 1] == symbols[i + 2]);
            }
        }
        lemma_value_of_symbols(rest);
        assert(text.subrange(0, own.len() as int) =~= own);
        assert(text.skip(own.len() as int) =~= symbols_text(rest));
        if rest.len() == 0 {
            assert(symbols_text(rest) =~= Seq::<u8>::empty());
            lemma_first_symbol(text, s, 13);
        } else {
            let next = rest[0];
            assert(symbols[1] == next);
            assert(symbols[0] <= symbols[1]);
            assert(symbols_text(rest) == symbol_bytes(next) + symbols_text(rest.skip(1)));
            assert(text[own.len() as int] == first_letter(next));
            lemma_first_symbol(text, s, next);
        }
    }
}

/// The symbols of the shortest numeral are in ascending order of their
/// positions in the table, and their values add up to the number.
pub proof fn lemma_roman_symbols(n: int, i: int)
    requires
        0 <= n,
        0 <= i <= 13,
        i < 13 || n == 0,
    ensures
        ascending_symbols(roman_symbols(n, i)),
        forall|k: int| 0 <= k < roman_symbols(n, i).len() ==> i <= #[trigger] roman_symbols(n, i)[k],
        symbols_value(roman_symbols(n, i)) == n,
    decreases 13 - i, n,
{
    if i >= 13 {
    } else if n <= 0 {
    } else if n >= symbol_value(i) {
        lemma_roman_symbols(n - symbol_value(i), i);
        let rest = roman_symbols(n - symbol_value(i), i);
        let all = roman_symbols(n, i);
        assert(all == seq![i] + rest);
        assert(all.skip(1) =~= rest);
        assert forall|k: int| 0 <= k < all.len() - 1 implies #[trigger] all[k] <= all[k + 1] by {
            if k > 0 {
                assert(all[k] == rest[k - 1] && all[k + 1] == rest[k]);
            } else {
                assert(all[1] == rest[0]);
            }
        }
        assert forall|k: int| 0 <= k < all.len() implies 0 <= #[trigger] all[k] < 13 && i
            <= all[k] by {
            if k > 0 {
                assert(all[k] == rest[k - 1]);
            }
        }
    } else {
        lemma_roman_symbols(n, i + 1);
    }
}

/// Reading the shortest numeral of a number gives the number back.
pub proof fn lemma_roman_round_trip(n: int)
    requires
        0 <= n,
    ensures
        roman_value(roman_text(n)) == Some(n),
{
    lemma_roman_symbols(n, 0);
    lemma_value_of_symbols(roman_symbols(n, 0));
}

} // verus!
