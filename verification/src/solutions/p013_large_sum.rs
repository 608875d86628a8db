//! The first ten digits of the sum of a column of long numbers.

use crate::decimal::{all_digits, from_digits};
use vstd::arithmetic::power::{lemma_pow0, lemma_pow_positive, pow};
use vstd::prelude::*;
use vstd::string::StringSliceAdditionalSpecFns;

verus! {

/// Digits kept in 16 bits, read as integers.
pub open spec fn digit_ints(s: Seq<u16>) -> Seq<int> {
    s.map_values(|d: u16| d as int)
}

/// The numbers of a table, each as the sequence of its digits.
pub open spec fn rows(numbers: Seq<Vec<u16>>) -> Seq<Seq<u16>> {
    numbers.map_values(|v: Vec<u16>| v@)
}

/// The number that the digits of `num` stand for, least significant first.
pub open spec fn number_value(num: Seq<u16>) -> int {
    from_digits(digit_ints(num))
}

/// The sum of the numbers.
pub open spec fn numbers_total(numbers: Seq<Seq<u16>>) -> int
    decreases numbers.len(),
{
    if numbers.len() == 0 {
        0
    } else {
        numbers_total(numbers.drop_last()) + number_value(numbers.last())
    }
}

/// The sum of what the lowest `pos` digits of each number stand for.
pub open spec fn low_total(numbers: Seq<Seq<u16>>, pos: int) -> int
    decreases numbers.len(),
{
    if numbers.len() == 0 {
        0
    } else {
        low_total(numbers.drop_last(), pos) + number_value(numbers.last().take(pos))
    }
}

/// The sum of the digits at place `pos` of the first `count` numbers.
pub open spec fn column_total(numbers: Seq<Seq<u16>>, pos: int, count: int) -> int
    decreases count,
{
    if count <= 0 {
        0
    } else {
        column_total(numbers, pos, count - 1) + numbers[count - 1][pos]
    }
}

/// The numbers are of one length, and made of decimal digits.
pub open spec fn aligned(numbers: Seq<Seq<u16>>, len: int) -> bool {
    forall|i: int|
        0 <= i < numbers.len() ==> (#[trigger] numbers[i]).len() == len && all_digits(
            digit_ints(numbers[i]),
        )
}

/// The first ten digits of a number of more than ten digits; the number
/// itself if it has no more.
pub open spec fn leading_ten(n: int) -> int
    decreases n,
{
    if n < 10_000_000_000 {
        n
    } else {
        leading_ten(n / 10)
    }
}

/// One more digit on top adds the digit times its power of ten.
pub proof fn lemma_from_digits_push(s: Seq<int>, d: int)
    ensures
        from_digits(s.push(d)) == from_digits(s) + d * pow(10, s.len()),
    decreases s.len(),
{
    if s.len() == 0 {
        lemma_pow0(10);
        assert(s.push(d).skip(1) =~= Seq::<int>::empty());
        assert(from_digits(s.push(d).skip(1)) == 0);
    } else {
        assert(s.push(d).skip(1) =~= s.skip(1).push(d));
        lemma_from_digits_push(s.skip(1), d);
        let p = pow(10, (s.len() - 1) as nat);
        assert(pow(10, s.len()) == 10 * p) by {
            vstd::arithmetic::power::lemma_pow_adds(10, 1, (s.len() - 1) as nat);
            vstd::arithmetic::power::lemma_pow1(10);
        }
        assert(10 * (from_digits(s.skip(1)) + d * p) == 10 * from_digits(s.skip(1)) + d * (10 * p))
            by (nonlinear_arith);
    }
}

/// Decimal digits stand for a number below the power of ten of their count.
pub proof fn lemma_from_digits_bound(s: Seq<int>)
    requires
        all_digits(s),
    ensures
        0 <= from_digits(s) < pow(10, s.len()),
    decreases s.len(),
{
    if s.len() == 0 {
        lemma_pow0(10);
    } else {
        assert(all_digits(s.skip(1))) by {
            assert forall|i: int| 0 <= i < s.skip(1).len() implies 0 <= #[trigger] s.skip(1)[i]
                < 10 by {
                assert(s.skip(1)[i] == s[i + 1]);
            }
        }
        lemma_from_digits_bound(s.skip(1));
        vstd::arithmetic::power::lemma_pow_adds(10, 1, (s.len() - 1) as nat);
        vstd::arithmetic::power::lemma_pow1(10);
    }
}

/// Taking one more digit of each number adds the column of those digits,
/// times their power of ten.
pub proof fn lemma_low_total_step(numbers: Seq<Seq<u16>>, len: int, pos: int)
    requires
        aligned(numbers, len),
        0 <= pos < len,
    ensures
        low_total(numbers, pos + 1) == low_total(numbers, pos) + column_total(
            numbers,
            pos,
            numbers.len() as int,
        ) * pow(10, pos as nat),
    decreases numbers.len(),
{
    if numbers.len() > 0 {
        let rest = numbers.drop_last();
        let last = numbers.last();
        assert(aligned(rest, len)) by {
            assert forall|i: int| 0 <= i < rest.len() implies (#[trigger] rest[i]).len() == len
                && all_digits(digit_ints(rest[i])) by {
                assert(rest[i] == numbers[i]);
            }
        }
        lemma_low_total_step(rest, len, pos);
        assert(numbers[numbers.len() - 1].len() == len);
        assert(digit_ints(last.take(pos + 1)) =~= digit_ints(last.take(pos)).push(last[pos] as int));
        lemma_from_digits_push(digit_ints(last.take(pos)), last[pos] as int);
        lemma_column_rest(numbers, pos, rest.len() as int);
        let p = pow(10, pos as nat);
        let c = column_total(rest, pos, rest.len() as int);
        assert((c + last[pos]) * p == c * p + last[pos] * p) by (nonlinear_arith);
    }
}

/// The column of the first numbers does not depend on the numbers after
/// them.
pub proof fn lemma_column_rest(numbers: Seq<Seq<u16>>, pos: int, count: int)
    requires
        0 <= count < numbers.len(),
    ensures
        column_total(numbers.drop_last(), pos, count) == column_total(numbers, pos, count),
    decreases count,
{
    if count > 0 {
        lemma_column_rest(numbers, pos, count - 1);
        assert(numbers.drop_last()[count - 1] == numbers[count - 1]);
    }
}

/// With all the digits taken, the sum is the sum of the numbers; with none,
/// it is zero.
pub proof fn lemma_low_total_ends(numbers: Seq<Seq<u16>>, len: int)
    requires
        aligned(numbers, len),
    ensures
        low_total(numbers, len) == numbers_total(numbers),
        low_total(numbers, 0) == 0,
    decreases numbers.len(),
{
    if numbers.len() > 0 {
        let rest = numbers.drop_last();
        assert(aligned(rest, len)) by {
            assert forall|i: int| 0 <= i < rest.len() implies (#[trigger] rest[i]).len() == len
                && all_digits(digit_ints(rest[i])) by {
                assert(rest[i] == numbers[i]);
            }
        }
        lemma_low_total_ends(rest, len);
        assert(numbers[numbers.len() - 1].len() == len);
        assert(numbers.last().take(len) =~= numbers.last());
        assert(digit_ints(numbers.last().take(0)) =~= Seq::<int>::empty());
    }
}

/// A number between ten to the ninth and ten to the tenth, followed by
/// further digits, is the first ten digits of the whole.
pub proof fn lemma_leading_ten(a: int, r: nat, b: int)
    requires
        1_000_000_000 <= a < 10_000_000_000,
        0 <= b < pow(10, r),
    ensures
        leading_ten(a * pow(10, r) + b) == a,
    decreases r,
{
    if r == 0 {
        lemma_pow0(10);
    } else {
        let p = pow(10, (r - 1) as nat);
        vstd::arithmetic::power::lemma_pow_adds(10, 1, (r - 1) as nat);
        vstd::arithmetic::power::lemma_pow1(10);
        lemma_pow_positive(10, (r - 1) as nat);
        let n = a * pow(10, r) + b;
        assert(n == 10 * (a * p + b / 10) + b % 10) by (nonlinear_arith)
            requires
                n == a * (10 * p) + b,
                b == 10 * (b / 10) + b % 10,
        ;
        assert(n / 10 == a * p + b / 10);
        assert(n >= 10_000_000_000) by (nonlinear_arith)
            requires
                n == a * (10 * p) + b,
                a >= 1_000_000_000,
                p >= 1,
                b >= 0,
        ;
        lemma_leading_ten(a, (r - 1) as nat, b / 10);
    }
}

/// The sum of the digits at place `pos`.
fn column_sum(numbers: &Vec<Vec<u16>>, pos: usize) -> (sum: u16)
    requires
        numbers@.len() <= 6000,
        exists|len: int| pos < len && #[trigger] aligned(rows(numbers@), len),
    ensures
        sum == column_total(rows(numbers@), pos as int, numbers@.len() as int),
        sum <= 9 * numbers@.len(),
{
    let mut sum: u16 = 0;
    for i in 0..numbers.len()
        invariant
            numbers@.len() <= 6000,
            exists|len: int| pos < len && #[trigger] aligned(rows(numbers@), len),
            sum == column_total(rows(numbers@), pos as int, i as int),
            sum <= 9 * i,
    {
        let ghost len = choose|len: int| pos < len && #[trigger] aligned(rows(numbers@), len);
        assert(rows(numbers@)[i as int] == numbers@[i as int]@);
        assert(numbers@[i as int]@.len() == len);
        assert(digit_ints(numbers@[i as int]@)[pos as int] == numbers@[i as int]@[pos as int]);
        sum += numbers[i][pos];
    }
    sum
}

/// The first ten digits of the sum of the numbers, which are given by
/// their digits, least significant first, and are all of one length; `None`
/// if the sum has fewer than ten digits.
#[verifier::rlimit(40)]
pub fn large_sum(numbers: &Vec<Vec<u16>>) -> (first: Option<u64>)
    requires
        1 <= numbers@.len() <= 6000,
        aligned(rows(numbers@), numbers@[0]@.len() as int),
    ensures
        match first {
            Some(v) => numbers_total(rows(numbers@)) >= 1_000_000_000 && v == leading_ten(
                numbers_total(rows(numbers@)),
            ),
            None => numbers_total(rows(numbers@)) < 1_000_000_000,
        },
{
    let len = numbers[0].len();
    let ghost total = numbers_total(rows(numbers@));
    assert(rows(numbers@)[0] == numbers@[0]@);
    // All numbers are the same length.
    let mut sum: Vec<u16> = Vec::new();
    let mut carry: u16 = 0;
    proof {
        lemma_low_total_ends(rows(numbers@), len as int);
        lemma_pow0(10);
        assert(digit_ints(sum@) =~= Seq::<int>::empty());
    }
    for pos in 0..len
        invariant
            1 <= numbers@.len() <= 6000,
            len == numbers@[0]@.len(),
            aligned(rows(numbers@), len as int),
            sum@.len() == pos,
            all_digits(digit_ints(sum@)),
            carry <= numbers@.len(),
            carry * pow(10, pos as nat) + number_value(sum@) == low_total(rows(numbers@), pos as int),
    {
        let column: u16 = column_sum(numbers, pos);
        let total_here: u16 = carry + column;
        let digit = total_here % 10;
        proof {
            lemma_low_total_step(rows(numbers@), len as int, pos as int);
            lemma_from_digits_push(digit_ints(sum@), digit as int);
            assert(digit_ints(sum@.push(digit)) =~= digit_ints(sum@).push(digit as int));
            let p = pow(10, pos as nat);
            vstd::arithmetic::power::lemma_pow_adds(10, 1, pos as nat);
            vstd::arithmetic::power::lemma_pow1(10);
            let next_carry = (total_here / 10) as int;
            assert(next_carry * (10 * p) + digit * p == (carry + column) * p) by (nonlinear_arith)
                requires
                    carry + column == 10 * next_carry + digit,
            ;
            assert((carry + column) * p == carry * p + column * p) by (nonlinear_arith);
        }
        sum.push(digit);
        carry = total_here / 10;
    }
    // At this point, we have an unknown number of digits in `carry`.
    // Top it up to 10 digits by pulling from the end of `sum`.
    let mut result: u64 = carry as u64;
    proof {
        lemma_low_total_ends(rows(numbers@), len as int);
    }
    while result < 1_000_000_000
        invariant
            all_digits(digit_ints(sum@)),
            total == numbers_total(rows(numbers@)),
            result < 10_000_000_000,
            result * pow(10, sum@.len()) + number_value(sum@) == total,
        decreases sum@.len(),
    {
        let ghost before = sum@;
        let d = match sum.pop() {
            Some(d) => d,
            None => {
                proof {
                    lemma_pow0(10);
                    assert(digit_ints(sum@) =~= Seq::<int>::empty());
                }
                return None;
            },
        };
        proof {
            assert(before =~= sum@.push(d));
            assert(digit_ints(before) =~= digit_ints(sum@).push(d as int));
            lemma_from_digits_push(digit_ints(sum@), d as int);
            assert(digit_ints(before)[before.len() - 1] == d);
            assert(all_digits(digit_ints(sum@))) by {
                assert forall|i: int| 0 <= i < sum@.len() implies 0 <= #[trigger] digit_ints(
                    sum@,
                )[i] < 10 by {
                    assert(digit_ints(before)[i] == digit_ints(sum@)[i]);
                }
            }
            let p = pow(10, sum@.len());
            vstd::arithmetic::power::lemma_pow_adds(10, 1, sum@.len());
            vstd::arithmetic::power::lemma_pow1(10);
            assert(result * (10 * p) + d * p == (result * 10 + d) * p) by (nonlinear_arith);
        }
        result = result * 10 + d as u64;
    }
    proof {
        lemma_from_digits_bound(digit_ints(sum@));
        lemma_leading_ten(result as int, sum@.len(), number_value(sum@));
        lemma_pow_positive(10, sum@.len());
        assert(result * pow(10, sum@.len()) >= 1_000_000_000) by (nonlinear_arith)
            requires
                result >= 1_000_000_000,
                pow(10, sum@.len()) >= 1,
        ;
    }
    Some(result)
}

/// The state of the splitting of a text into lines: the lines that have
/// ended, and the line at hand.
pub struct LineScan {
    pub lines: Seq<Seq<u8>>,
    pub cur: Seq<u8>,
}

/// A line without the carriage return that may end it.
pub open spec fn strip_cr(line: Seq<u8>) -> Seq<u8> {
    if line.len() > 0 && line.last() == 0x0d {
        line.drop_last()
    } else {
        line
    }
}

/// The splitting after one more byte: a line feed ends the line at hand.
pub open spec fn line_step(s: LineScan, b: u8) -> LineScan {
    if b == 0x0a {
        LineScan { lines: s.lines.push(strip_cr(s.cur)), cur: Seq::empty() }
    } else {
        LineScan { lines: s.lines, cur: s.cur.push(b) }
    }
}

/// The splitting of the given bytes.
pub open spec fn line_scan(bytes: Seq<u8>) -> LineScan
    decreases bytes.len(),
{
    if bytes.len() == 0 {
        LineScan { lines: Seq::empty(), cur: Seq::empty() }
    } else {
        line_step(line_scan(bytes.drop_last()), bytes.last())
    }
}

/// The lines of a text. A line ends with a line feed, or with a carriage
/// return and a line feed; the last line need not end at all.
pub open spec fn text_lines(bytes: Seq<u8>) -> Seq<Seq<u8>> {
    let s = line_scan(bytes);
    if s.cur.len() > 0 {
        s.lines.push(s.cur)
    } else {
        s.lines
    }
}

/// The lines of a table of bytes, each as a sequence.
pub open spec fn line_rows(lines: Seq<Vec<u8>>) -> Seq<Seq<u8>> {
    lines.map_values(|line: Vec<u8>| line@)
}

/// Splits a text into its lines.
pub fn split_lines(bytes: &[u8]) -> (lines: Vec<Vec<u8>>)
    ensures
        line_rows(lines@) == text_lines(bytes@),
{
    let mut lines: Vec<Vec<u8>> = Vec::new();
    let mut cur: Vec<u8> = Vec::new();
    let mut k: usize = 0;
    assert(bytes@.take(0) =~= Seq::<u8>::empty());
    assert(line_rows(lines@) =~= Seq::<Seq<u8>>::empty());
    while k < bytes.len()
        invariant
            0 <= k <= bytes@.len(),
            line_scan(bytes@.take(k as int)) == (LineScan { lines: line_rows(lines@), cur: cur@ }),
        decreases bytes@.len() - k,
    {
        let b = bytes[k];
        assert(bytes@.take(k + 1).drop_last() =~= bytes@.take(k as int));
        if b == 0x0a {
            let ghost raw = cur@;
            let ghost before = line_rows(lines@);
            if cur.len() > 0 && cur[cur.len() - 1] == 0x0d {
                cur.pop();
            }
            assert(cur@ == strip_cr(raw));
            lines.push(cur);
            assert(line_rows(lines@) =~= before.push(strip_cr(raw)));
            cur = Vec::new();
        } else {
            cur.push(b);
        }
        k += 1;
    }
    assert(bytes@.take(k as int) =~= bytes@);
    if cur.len() > 0 {
        let ghost before = line_rows(lines@);
        let ghost last = cur@;
        lines.push(cur);
        assert(line_rows(lines@) =~= before.push(last));
    }
    lines
}

/// Every byte of the line is an ASCII decimal digit.
pub open spec fn digit_line(line: Seq<u8>) -> bool {
    forall|i: int| 0 <= i < line.len() ==> 0x30 <= #[trigger] line[i] <= 0x39
}

/// The digits that a line spells, least significant first.
pub open spec fn line_number(line: Seq<u8>) -> Seq<u16> {
    Seq::new(line.len(), |i: int| (line[line.len() - 1 - i] - 0x30) as u16)
}

/// The numbers that the lines of a text spell, one to a line; `None` if some
/// line holds anything but decimal digits.
pub open spec fn text_numbers(bytes: Seq<u8>) -> Option<Seq<Seq<u16>>> {
    let lines = text_lines(bytes);
    if forall|i: int| 0 <= i < lines.len() ==> digit_line(#[trigger] lines[i]) {
        Some(Seq::new(lines.len(), |i: int| line_number(lines[i])))
    } else {
        None
    }
}

/// The digits of a line, least significant first; `None` if the line holds
/// anything but decimal digits.
fn read_line(line: &Vec<u8>) -> (number: Option<Vec<u16>>)
    ensures
        match number {
            Some(n) => digit_line(line@) && n@ == line_number(line@),
            None => !digit_line(line@),
        },
{
    let mut number: Vec<u16> = Vec::new();
    let mut k: usize = line.len();
    while k > 0
        invariant
            0 <= k <= line@.len(),
            number@.len() == line@.len() - k,
            forall|i: int| k <= i < line@.len() ==> 0x30 <= #[trigger] line@[i] <= 0x39,
            forall|i: int|
                0 <= i < number@.len() ==> #[trigger] number@[i] == (line@[line@.len() - 1 - i]
                    - 0x30) as u16,
        decreases k,
    {
        k -= 1;
        let b = line[k];
        if b < 0x30 || b > 0x39 {
            return None;
        }
        number.push((b - 0x30) as u16);
    }
    assert(number@ =~= line_number(line@));
    Some(number)
}

/// The numbers that the lines of a text spell, one to a line, each by its
/// digits with the least significant first; `None` if some line holds
/// anything but decimal digits.
#[verifier::rlimit(40)]
pub fn read_digit_lines(input: &str) -> (numbers: Option<Vec<Vec<u16>>>)
    ensures
        match numbers {
            Some(v) => text_numbers(input.spec_bytes()) == Some(rows(v@)),
            None => text_numbers(input.spec_bytes()) is None,
        },
{
    let bytes = input.as_bytes();
    let mut numbers: Vec<Vec<u16>> = Vec::new();
    let mut cur: Vec<u8> = Vec::new();
    let mut bad = false;
    let ghost mut lines: Seq<Seq<u8>> = Seq::empty();
    let mut k: usize = 0;
    assert(bytes@.take(0) =~= Seq::<u8>::empty());
    while k < bytes.len()
        invariant
            0 <= k <= bytes@.len(),
            bytes@ == input.spec_bytes(),
            line_scan(bytes@.take(k as int)) == (LineScan { lines, cur: cur@ }),
            bad <==> exists|i: int| 0 <= i < lines.len() && !digit_line(#[trigger] lines[i]),
            !bad ==> numbers@.len() == lines.len(),
            !bad ==> forall|i: int|
                0 <= i < lines.len() ==> (#[trigger] numbers@[i])@ == line_number(lines[i]),
        decreases bytes@.len() - k,
    {
        let b = bytes[k];
        assert(bytes@.take(k + 1).drop_last() =~= bytes@.take(k as int));
        if b == 0x0a {
            let ghost raw = cur@;
            if cur.len() > 0 && cur[cur.len() - 1] == 0x0d {
                cur.pop();
            }
            assert(cur@ == strip_cr(raw));
            let ghost before = lines;
            proof {
                lines = lines.push(cur@);
            }
            match read_line(&cur) {
                Some(number) => {
                    if !bad {
                        numbers.push(number);
                    }
                    proof {
                        if bad {
                            let i = choose|i: int|
                                0 <= i < before.len() && !digit_line(#[trigger] before[i]);
                            assert(lines[i] == before[i]);
                        } else {
                            assert forall|i: int| 0 <= i < lines.len() implies digit_line(
                                #[trigger] lines[i],
                            ) by {
                                if i < before.len() {
                                    assert(lines[i] == before[i]);
                                }
                            }
                        }
                    }
                },
                None => {
                    bad = true;
                    assert(!digit_line(lines[lines.len() - 1]));
                },
            }
            cur = Vec::new();
        } else {
            cur.push(b);
        }
        k += 1;
    }
    assert(bytes@.take(k as int) =~= bytes@);
    if cur.len() > 0 {
        let ghost before = lines;
        proof {
            lines = lines.push(cur@);
        }
        match read_line(&cur) {
            Some(number) => {
                if !bad {
                    numbers.push(number);
                }
                proof {
                    if bad {
                        let i = choose|i: int|
                            0 <= i < before.len() && !digit_line(#[trigger] before[i]);
                        assert(lines[i] == before[i]);
                    } else {
                        assert forall|i: int| 0 <= i < lines.len() implies digit_line(
                            #[trigger] lines[i],
                        ) by {
                            if i < before.len() {
                                assert(lines[i] == before[i]);
                            }
                        }
                    }
                }
            },
            None => {
                bad = true;
                assert(!digit_line(lines[lines.len() - 1]));
            },
        }
    }
    assert(lines == text_lines(input.spec_bytes()));
    if bad {
        None
    } else {
        assert(rows(numbers@) =~= Seq::new(lines.len(), |i: int| line_number(lines[i])));
        Some(numbers)
    }
}

/// A number given by decimal digits is made of decimal digits.
pub proof fn lemma_line_number_digits(line: Seq<u8>)
    requires
        digit_line(line),
    ensures
        all_digits(digit_ints(line_number(line))),
{
    assert forall|i: int| 0 <= i < line.len() implies 0 <= #[trigger] digit_ints(
        line_number(line),
    )[i] < 10 by {
        assert(0x30 <= line[line.len() - 1 - i] <= 0x39);
    }
}

/// The numbers are fit to be added up: there is one at least and 6000 at
/// most, and they are of one length.
pub open spec fn summable(numbers: Seq<Seq<u16>>) -> bool {
    &&& 1 <= numbers.len() <= 6000
    &&& forall|i: int| 0 <= i < numbers.len() ==> (#[trigger] numbers[i]).len() == numbers[0].len()
}

/// Large sum: the first ten digits of the sum of the numbers that `input`
/// spells, one to a line. `None` if the text does not spell between one and
/// 6000 numbers of one length, or if their sum has fewer than ten digits.
pub fn p13(input: &str) -> (first: Option<u64>)
    ensures
        match first {
            Some(v) => {
                &&& text_numbers(input.spec_bytes()) matches Some(ns)
                &&& summable(ns)
                &&& numbers_total(ns) >= 1_000_000_000
                &&& v == leading_ten(numbers_total(ns))
            },
            None => text_numbers(input.spec_bytes()) matches Some(ns) ==> !summable(ns)
                || numbers_total(ns) < 1_000_000_000,
        },
{
    let numbers = match read_digit_lines(input) {
        Some(numbers) => numbers,
        None => {
            return None;
        },
    };
    let ghost ns = rows(numbers@);
    if numbers.len() < 1 || numbers.len() > 6000 {
        return None;
    }
    let len = numbers[0].len();
    assert(ns[0] == numbers@[0]@);
    for i in 0..numbers.len()
        invariant
            ns == rows(numbers@),
            text_numbers(input.spec_bytes()) == Some(ns),
            1 <= ns.len() <= 6000,
            len == ns[0].len(),
            forall|k: int| 0 <= k < i ==> (#[trigger] ns[k]).len() == len,
    {
        assert(ns[i as int] == numbers@[i as int]@);
        if numbers[i].len() != len {
            assert(ns[i as int].len() != ns[0].len());
            assert(!summable(ns));
            return None;
        }
    }
    proof {
        let lines = text_lines(input.spec_bytes());
        assert forall|i: int| 0 <= i < ns.len() implies (#[trigger] ns[i]).len() == ns[0].len()
            && all_digits(digit_ints(ns[i])) by {
            assert(digit_line(lines[i]));
            lemma_line_number_digits(lines[i]);
        }
    }
    large_sum(&numbers)
}

} // verus!
