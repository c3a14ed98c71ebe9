//! Text building blocks: decimal numbers, padding, trimming and splitting.
//!
//! Text is modelled as a sequence of characters. The functions here are the
//! ones that the rest of the crate composes its messages and parsers from.

use vstd::prelude::*;
use vstd::string::*;

verus! {

// ------------------------------------------------------------------ results

/// A text or an error message, as sequences of characters.
pub open spec fn outcome_text(outcome: Result<String, String>) -> Result<Seq<char>, Seq<char>> {
    match outcome {
        Ok(text) => Ok(text@),
        Err(message) => Err(message@),
    }
}

/// Success or an error message, as a sequence of characters.
pub open spec fn outcome_message(outcome: Result<(), String>) -> Result<(), Seq<char>> {
    match outcome {
        Ok(_) => Ok(()),
        Err(message) => Err(message@),
    }
}

/// An optional text, as a sequence of characters.
pub open spec fn optional_text(text: Option<&str>) -> Option<Seq<char>> {
    match text {
        Some(found) => Some(found@),
        None => None,
    }
}

// ------------------------------------------------------------------ numbers

/// The character of a decimal digit.
pub open spec fn digit_char(digit: nat) -> char {
    (48 + digit) as char
}

/// The decimal digits of `n`, most significant first, without leading zeros.
pub open spec fn decimal(n: nat) -> Seq<char>
    decreases n,
{
    if n < 10 {
        seq![digit_char(n)]
    } else {
        decimal(n / 10).push(digit_char(n % 10))
    }
}

/// `count` copies of `fill`.
pub open spec fn filled(fill: char, count: int) -> Seq<char> {
    Seq::new(if count > 0 { count as nat } else { 0 }, |i: int| fill)
}

/// `text` moved to the right end of a field of `width` characters.
pub open spec fn right_aligned(text: Seq<char>, fill: char, width: nat) -> Seq<char> {
    filled(fill, width - text.len()) + text
}

/// `text` at the left end of a field of `width` characters.
pub open spec fn left_aligned(text: Seq<char>, width: nat) -> Seq<char> {
    text + filled(' ', width - text.len())
}

/// The decimal digits of `n`, filled up with leading zeros to `width` digits.
pub open spec fn zero_padded(n: nat, width: nat) -> Seq<char> {
    right_aligned(decimal(n), '0', width)
}

/// The one-character text of a decimal digit.
fn digit_text(digit: u64) -> (text: &'static str)
    requires
        digit < 10,
    ensures
        text@ == seq![digit_char(digit as nat)],
{
    proof {
        reveal_strlit("0");
        reveal_strlit("1");
        reveal_strlit("2");
        reveal_strlit("3");
        reveal_strlit("4");
        reveal_strlit("5");
        reveal_strlit("6");
        reveal_strlit("7");
        reveal_strlit("8");
        reveal_strlit("9");
    }
    let text: &'static str = match digit {
        0 => "0",
        1 => "1",
        2 => "2",
        3 => "3",
        4 => "4",
        5 => "5",
        6 => "6",
        7 => "7",
        8 => "8",
        _ => "9",
    };
    assert(text@ =~= seq![digit_char(digit as nat)]);
    text
}

/// Writes `n` in decimal.
pub fn decimal_text(n: u64) -> (text: String)
    ensures
        text@ == decimal(n as nat),
    decreases n,
{
    if n < 10 {
        digit_text(n).to_owned()
    } else {
        let mut text: String = decimal_text(n / 10);
        text.append(digit_text(n % 10));
        text
    }
}

/// Writes `n` in decimal with leading zeros up to `width` digits.
pub fn zero_padded_text(n: u64, width: usize) -> (text: String)
    ensures
        text@ == zero_padded(n as nat, width as nat),
{
    let digits: String = decimal_text(n);
    let length: usize = digits.as_str().unicode_len();
    let mut text: String = String::new();
    let mut count: usize = length;
    assert(text@ =~= filled('0', count - length));
    while count < width
        invariant
            length <= count,
            length < width ==> count <= width,
            length >= width ==> count == length,
            text@ == filled('0', count - length),
        decreases width - count,
    {
        proof {
            reveal_strlit("0");
        }
        text.append("0");
        count = count + 1;
        assert(text@ =~= filled('0', count - length));
    }
    assert(filled('0', count - length) =~= filled('0', width - length));
    text.append(digits.as_str());
    text
}

/// Appends spaces to `text` until `length` characters have become `width`.
fn push_spaces(text: &mut String, length: usize, width: usize)
    ensures
        final(text)@ == old(text)@ + filled(' ', width - length),
{
    let mut count: usize = length;
    let ghost start = text@;
    assert(text@ =~= start + filled(' ', count - length));
    while count < width
        invariant
            length <= count,
            length < width ==> count <= width,
            length >= width ==> count == length,
            text@ == start + filled(' ', count - length),
        decreases width - count,
    {
        proof {
            reveal_strlit(" ");
        }
        text.append(" ");
        count = count + 1;
        assert(text@ =~= start + filled(' ', count - length));
    }
    assert(filled(' ', count - length) =~= filled(' ', width - length));
}

/// Moves `text` to the right end of a field of `width` characters.
pub fn right_aligned_text(text: &str, width: usize) -> (aligned: String)
    ensures
        aligned@ == right_aligned(text@, ' ', width as nat),
{
    let mut aligned: String = String::new();
    push_spaces(&mut aligned, text.unicode_len(), width);
    aligned.append(text);
    assert(aligned@ =~= right_aligned(text@, ' ', width as nat));
    aligned
}

/// Puts `text` at the left end of a field of `width` characters.
pub fn left_aligned_text(text: &str, width: usize) -> (aligned: String)
    ensures
        aligned@ == left_aligned(text@, width as nat),
{
    let mut aligned: String = text.to_owned();
    push_spaces(&mut aligned, text.unicode_len(), width);
    aligned
}

// --------------------------------------------------------------- characters

/// The characters of `text`.
pub fn chars_of(text: &str) -> (chars: Vec<char>)
    ensures
        chars@ == text@,
{
    let mut chars: Vec<char> = Vec::new();
    for c in it: text.chars()
        invariant
            chars@ == it.seq().take(it.index() as int),
            it.seq() == text@,
    {
        chars.push(c);
    }
    chars
}

/// Whether `c` has the Unicode property White_Space.
pub open spec fn is_white_space(c: char) -> bool {
    ||| '\u{9}' <= c <= '\u{d}'
    ||| c == ' '
    ||| c == '\u{85}'
    ||| c == '\u{a0}'
    ||| c == '\u{1680}'
    ||| '\u{2000}' <= c <= '\u{200a}'
    ||| c == '\u{2028}'
    ||| c == '\u{2029}'
    ||| c == '\u{202f}'
    ||| c == '\u{205f}'
    ||| c == '\u{3000}'
}

/// Whether `c` is white space.
pub fn white_space(c: char) -> (found: bool)
    ensures
        found == is_white_space(c),
{
    ('\u{9}' <= c && c <= '\u{d}') || c == ' ' || c == '\u{85}' || c == '\u{a0}' || c == '\u{1680}'
        || ('\u{2000}' <= c && c <= '\u{200a}') || c == '\u{2028}' || c == '\u{2029}' || c == '\u{202f}'
        || c == '\u{205f}' || c == '\u{3000}'
}

/// `text` without its leading white space.
pub open spec fn trimmed_start(text: Seq<char>) -> Seq<char>
    decreases text.len(),
{
    if text.len() > 0 && is_white_space(text.first()) {
        trimmed_start(text.drop_first())
    } else {
        text
    }
}

/// `text` without its trailing white space.
pub open spec fn trimmed_end(text: Seq<char>) -> Seq<char>
    decreases text.len(),
{
    if text.len() > 0 && is_white_space(text.last()) {
        trimmed_end(text.drop_last())
    } else {
        text
    }
}

/// `text` without white space at either end.
pub open spec fn trimmed(text: Seq<char>) -> Seq<char> {
    trimmed_end(trimmed_start(text))
}

/// `text` without the run of `lead` characters that it starts with.
pub open spec fn without_leading(text: Seq<char>, lead: char) -> Seq<char>
    decreases text.len(),
{
    if text.len() > 0 && text.first() == lead {
        without_leading(text.drop_first(), lead)
    } else {
        text
    }
}

/// The part of `chars` from `start` up to `end`.
fn part_of(chars: &Vec<char>, start: usize, end: usize) -> (part: Vec<char>)
    requires
        start <= end <= chars@.len(),
    ensures
        part@ == chars@.subrange(start as int, end as int),
{
    let mut part: Vec<char> = Vec::new();
    for i in start..end
        invariant
            start <= i <= end <= chars@.len(),
            part@ == chars@.subrange(start as int, i as int),
    {
        part.push(chars[i]);
        assert(part@ =~= chars@.subrange(start as int, i + 1));
    }
    part
}

/// Removes white space at either end.
pub fn trim(chars: &Vec<char>) -> (rest: Vec<char>)
    ensures
        rest@ == trimmed(chars@),
{
    let mut start: usize = 0;
    assert(chars@.skip(0) =~= chars@);
    while start < chars.len() && white_space(chars[start])
        invariant
            start <= chars@.len(),
            trimmed_start(chars@) == trimmed_start(chars@.skip(start as int)),
        decreases chars@.len() - start,
    {
        assert(chars@.skip(start as int).drop_first() =~= chars@.skip(start + 1));
        start = start + 1;
    }
    let ghost front = chars@.skip(start as int);
    assert(trimmed_start(chars@) == front);
    let mut end: usize = chars.len();
    assert(chars@.subrange(start as int, end as int) =~= front);
    while end > start && white_space(chars[end - 1])
        invariant
            start <= end <= chars@.len(),
            trimmed_end(front) == trimmed_end(chars@.subrange(start as int, end as int)),
        decreases end,
    {
        assert(chars@.subrange(start as int, end as int).drop_last() =~= chars@.subrange(
            start as int,
            end - 1,
        ));
        end = end - 1;
    }
    part_of(chars, start, end)
}

/// Removes the run of `lead` characters that `chars` starts with.
pub fn trim_leading(chars: &Vec<char>, lead: char) -> (rest: Vec<char>)
    ensures
        rest@ == without_leading(chars@, lead),
{
    let mut start: usize = 0;
    assert(chars@.skip(0) =~= chars@);
    while start < chars.len() && chars[start] == lead
        invariant
            start <= chars@.len(),
            without_leading(chars@, lead) == without_leading(chars@.skip(start as int), lead),
        decreases chars@.len() - start,
    {
        assert(chars@.skip(start as int).drop_first() =~= chars@.skip(start + 1));
        start = start + 1;
    }
    assert(chars@.skip(start as int) =~= chars@.subrange(start as int, chars@.len() as int));
    part_of(chars, start, chars.len())
}

// -------------------------------------------------------------------- order

/// Whether `left` comes before `right` in the order of texts, the first
/// difference deciding.
pub open spec fn text_before(left: Seq<char>, right: Seq<char>) -> bool
    decreases left.len(),
{
    if right.len() == 0 {
        false
    } else if left.len() == 0 {
        true
    } else if left[0] != right[0] {
        left[0] < right[0]
    } else {
        text_before(left.drop_first(), right.drop_first())
    }
}

/// No text comes before itself.
pub proof fn lemma_text_not_before_itself(text: Seq<char>)
    ensures
        !text_before(text, text),
    decreases text.len(),
{
    if text.len() > 0 {
        lemma_text_not_before_itself(text.drop_first());
    }
}

/// Of two texts at most one comes before the other.
pub proof fn lemma_text_asymmetric(left: Seq<char>, right: Seq<char>)
    ensures
        !(text_before(left, right) && text_before(right, left)),
    decreases left.len(),
{
    if left.len() > 0 && right.len() > 0 && left[0] == right[0] {
        lemma_text_asymmetric(left.drop_first(), right.drop_first());
    }
}

/// An earlier difference decides, whatever follows; after the same start the
/// rest decides.
pub proof fn lemma_text_order_extends(
    left: Seq<char>,
    right: Seq<char>,
    left_rest: Seq<char>,
    right_rest: Seq<char>,
)
    requires
        left.len() == right.len(),
    ensures
        text_before(left, right) ==> text_before(left + left_rest, right + right_rest),
        left == right && text_before(left_rest, right_rest) ==> text_before(
            left + left_rest,
            right + right_rest,
        ),
    decreases left.len(),
{
    if left.len() == 0 {
        assert(left + left_rest =~= left_rest);
        assert(right + right_rest =~= right_rest);
    } else {
        lemma_text_order_extends(left.drop_first(), right.drop_first(), left_rest, right_rest);
        assert((left + left_rest).drop_first() =~= left.drop_first() + left_rest);
        assert((right + right_rest).drop_first() =~= right.drop_first() + right_rest);
    }
}

/// Numbers below 100 in two digits.
pub proof fn lemma_two_digits(n: nat)
    requires
        n < 100,
    ensures
        zero_padded(n, 2) == seq![digit_char(n / 10), digit_char(n % 10)],
{
    reveal_with_fuel(decimal, 2);
    assert(zero_padded(n, 2) =~= seq![digit_char(n / 10), digit_char(n % 10)]);
}

/// Numbers below 10000 in four digits.
pub proof fn lemma_four_digits(n: nat)
    requires
        n < 10_000,
    ensures
        zero_padded(n, 4) == seq![
            digit_char(n / 1000),
            digit_char(n / 100 % 10),
            digit_char(n / 10 % 10),
            digit_char(n % 10),
        ],
{
    reveal_with_fuel(decimal, 4);
    assert(n / 10 / 10 == n / 100);
    assert(n / 10 / 10 / 10 == n / 1000);
    assert(zero_padded(n, 4) =~= seq![
        digit_char(n / 1000),
        digit_char(n / 100 % 10),
        digit_char(n / 10 % 10),
        digit_char(n % 10),
    ]);
}

/// Four digits are two and two.
proof fn lemma_two_and_two_digits(n: nat)
    requires
        n < 10_000,
    ensures
        zero_padded(n, 4) == zero_padded(n / 100, 2) + zero_padded(n % 100, 2),
        zero_padded(n / 100, 2).len() == 2,
{
    lemma_four_digits(n);
    lemma_two_digits(n / 100);
    lemma_two_digits(n % 100);
    assert(n / 100 / 10 == n / 1000);
    assert(n % 100 / 10 == n / 10 % 10);
    assert(n % 100 % 10 == n % 10);
    assert(zero_padded(n, 4) =~= zero_padded(n / 100, 2) + zero_padded(n % 100, 2));
}

/// Two-digit numbers order as their texts do.
pub proof fn lemma_two_digits_ordered(m: nat, n: nat)
    requires
        m < n < 100,
    ensures
        text_before(zero_padded(m, 2), zero_padded(n, 2)),
{
    lemma_two_digits(m);
    lemma_two_digits(n);
    reveal_with_fuel(text_before, 3);
}

/// Four-digit numbers order as their texts do.
pub proof fn lemma_four_digits_ordered(m: nat, n: nat)
    requires
        m < n < 10_000,
    ensures
        text_before(zero_padded(m, 4), zero_padded(n, 4)),
{
    lemma_two_and_two_digits(m);
    lemma_two_and_two_digits(n);
    let (left, left_rest) = (zero_padded(m / 100, 2), zero_padded(m % 100, 2));
    let (right, right_rest) = (zero_padded(n / 100, 2), zero_padded(n % 100, 2));
    lemma_text_order_extends(left, right, left_rest, right_rest);
    if m / 100 < n / 100 {
        lemma_two_digits_ordered(m / 100, n / 100);
    } else {
        lemma_two_digits_ordered(m % 100, n % 100);
    }
}

// ------------------------------------------------------------------ parsing

/// Whether `c` is one of the ASCII digits.
pub open spec fn is_digit(c: char) -> bool {
    '0' <= c <= '9'
}

/// Whether every character of `text` is an ASCII digit.
pub open spec fn all_digits(text: Seq<char>) -> bool {
    forall|i: int| 0 <= i < text.len() ==> is_digit(#[trigger] text[i])
}

/// The number that a run of digits writes.
pub open spec fn digits_value(digits: Seq<char>) -> nat
    decreases digits.len(),
{
    if digits.len() == 0 {
        0
    } else {
        (digits_value(digits.drop_last()) * 10 + (digits.last() as int - 48)) as nat
    }
}

/// `text` without one leading plus sign.
pub open spec fn unsigned(text: Seq<char>) -> Seq<char> {
    if text.len() > 0 && text.first() == '+' {
        text.drop_first()
    } else {
        text
    }
}

/// The number that `text` writes in decimal: one or more digits, with an
/// optional plus sign in front, for a value of at most `max`.
pub open spec fn number(text: Seq<char>, max: nat) -> Option<nat> {
    let digits = unsigned(text);
    if digits.len() > 0 && all_digits(digits) && digits_value(digits) <= max {
        Some(digits_value(digits))
    } else {
        None
    }
}

/// Longer runs of digits write numbers that are no smaller.
proof fn lemma_value_of_prefix(digits: Seq<char>, count: int)
    requires
        all_digits(digits),
        0 <= count <= digits.len(),
    ensures
        digits_value(digits.take(count)) <= digits_value(digits),
    decreases digits.len(),
{
    if count == digits.len() {
        assert(digits.take(count) =~= digits);
    } else {
        assert(digits.drop_last().take(count) =~= digits.take(count));
        assert(is_digit(digits[digits.len() - 1]));
        lemma_value_of_prefix(digits.drop_last(), count);
    }
}

/// Reads a decimal number of at most `max`.
pub fn parse_number(chars: &Vec<char>, max: u64) -> (value: Option<u64>)
    ensures
        match value {
            Some(n) => number(chars@, max as nat) == Some(n as nat),
            None => number(chars@, max as nat) is None,
        },
{
    let length: usize = chars.len();
    let start: usize = if length > 0 && chars[0] == '+' {
        1
    } else {
        0
    };
    let ghost digits = unsigned(chars@);
    assert(digits =~= chars@.skip(start as int));
    if start == length {
        return None;
    }
    let mut value: u64 = 0;
    let mut i: usize = start;
    while i < length
        invariant
            start <= i <= length,
            length == chars@.len(),
            digits == unsigned(chars@),
            digits == chars@.skip(start as int),
            start < length,
            forall|k: int| 0 <= k < i - start ==> is_digit(#[trigger] digits[k]),
            value == digits_value(digits.take(i - start)),
            value <= max,
        decreases length - i,
    {
        let c: char = chars[i];
        assert(digits[i - start] == c);
        if !('0' <= c && c <= '9') {
            assert(!is_digit(digits[i - start]));
            return None;
        }
        let digit: u64 = (c as u32 - 48) as u64;
        let next: u128 = value as u128 * 10 + digit as u128;
        assert(digits.take(i + 1 - start).drop_last() =~= digits.take(i - start));
        assert(next == digits_value(digits.take(i + 1 - start)));
        if next > max as u128 {
            proof {
                if all_digits(digits) {
                    lemma_value_of_prefix(digits, i + 1 - start);
                }
            }
            return None;
        }
        value = next as u64;
        i = i + 1;
    }
    assert(digits.take(length - start) =~= digits);
    Some(value)
}

/// The pieces of `items` between the separators `sep`, in order.
pub open spec fn split_on<T>(items: Seq<T>, sep: T) -> Seq<Seq<T>>
    decreases items.len(),
{
    if items.len() == 0 {
        seq![Seq::empty()]
    } else {
        let before = split_on(items.drop_last(), sep);
        if items.last() == sep {
            before.push(Seq::empty())
        } else {
            before.drop_last().push(before.last().push(items.last()))
        }
    }
}

/// There is always at least one piece.
pub proof fn lemma_split_not_empty<T>(items: Seq<T>, sep: T)
    ensures
        split_on(items, sep).len() >= 1,
    decreases items.len(),
{
    if items.len() > 0 {
        lemma_split_not_empty(items.drop_last(), sep);
    }
}

/// What holds no separator goes to the end of the last piece.
pub proof fn lemma_split_extend<T>(items: Seq<T>, rest: Seq<T>, sep: T)
    requires
        !rest.contains(sep),
    ensures
        split_on(items + rest, sep) == split_on(items, sep).drop_last().push(
            split_on(items, sep).last() + rest,
        ),
    decreases rest.len(),
{
    lemma_split_not_empty(items, sep);
    if rest.len() == 0 {
        assert(items + rest =~= items);
        assert(split_on(items, sep).last() + rest =~= split_on(items, sep).last());
        assert(split_on(items, sep).drop_last().push(split_on(items, sep).last()) =~= split_on(
            items,
            sep,
        ));
    } else {
        let shorter = rest.drop_last();
        assert forall|x: T| shorter.contains(x) implies rest.contains(x) by {
            let i = choose|i: int| 0 <= i < shorter.len() && shorter[i] == x;
            assert(rest[i] == x);
        }
        lemma_split_extend(items, shorter, sep);
        assert((items + rest).drop_last() =~= items + shorter);
        assert(rest[rest.len() - 1] == rest.last());
        assert((split_on(items, sep).last() + shorter).push(rest.last()) =~= split_on(
            items,
            sep,
        ).last() + rest);
        assert(split_on(items + rest, sep) =~= split_on(items, sep).drop_last().push(
            split_on(items, sep).last() + rest,
        ));
    }
}

/// Splits `chars` at each separator `sep`.
pub fn split(chars: &Vec<char>, sep: char) -> (pieces: Vec<Vec<char>>)
    ensures
        pieces@.len() == split_on(chars@, sep).len(),
        pieces@.len() >= 1,
        forall|i: int|
            0 <= i < pieces@.len() ==> (#[trigger] pieces@[i])@ == split_on(chars@, sep)[i],
{
    let mut pieces: Vec<Vec<char>> = Vec::new();
    let mut current: Vec<char> = Vec::new();
    let ghost mut whole = split_on(chars@.take(0), sep);
    for i in 0..chars.len()
        invariant
            whole == split_on(chars@.take(i as int), sep),
            whole.len() == pieces@.len() + 1,
            whole.last() == current@,
            forall|k: int| 0 <= k < pieces@.len() ==> (#[trigger] pieces@[k])@ == whole[k],
    {
        let c: char = chars[i];
        proof {
            assert(chars@.take(i + 1).drop_last() =~= chars@.take(i as int));
            whole = split_on(chars@.take(i + 1), sep);
        }
        if c == sep {
            pieces.push(current);
            current = Vec::new();
        } else {
            current.push(c);
        }
    }
    assert(chars@.take(chars@.len() as int) =~= chars@);
    pieces.push(current);
    pieces
}

// --------------------------------------------------------------------- laws

/// Decimal numbers are written digit by digit: a digit stands for itself, and
/// the last digit of a longer number follows the digits of the rest.
pub proof fn law_decimal_digits(n: nat, digit: nat)
    requires
        digit < 10,
    ensures
        decimal(digit) == seq![(48 + digit) as char],
        n > 0 ==> decimal(10 * n + digit) == decimal(n).push((48 + digit) as char),
{
    assert((10 * n + digit) / 10 == n);
    assert((10 * n + digit) % 10 == digit);
}

/// A number is written in digits, and they have its value.
pub proof fn lemma_decimal_value(n: nat)
    ensures
        decimal(n).len() >= 1,
        all_digits(decimal(n)),
        digits_value(decimal(n)) == n,
        n > 0 ==> decimal(n)[0] != '0',
    decreases n,
{
    if n >= 10 {
        lemma_decimal_value(n / 10);
        let before = decimal(n / 10);
        assert(decimal(n).drop_last() =~= before);
        assert(decimal(n)[0] == before[0]);
    } else {
        let only = decimal(n);
        assert(only.drop_last() =~= Seq::empty());
        assert(digits_value(only.drop_last()) == 0);
    }
}

/// A number that is written is read back, with or without a plus sign, as long
/// as it is not above the limit; and it is written without leading zeros.
pub proof fn law_numbers_read_back(n: nat, max: nat)
    ensures
        n <= max ==> number(decimal(n), max) == Some(n),
        n <= max ==> number(seq!['+'] + decimal(n), max) == Some(n),
        n > max ==> number(decimal(n), max) is None,
        n > 0 ==> decimal(n)[0] != '0',
{
    lemma_decimal_value(n);
    let digits = decimal(n);
    assert(is_digit(digits[0]));
    assert((seq!['+'] + digits).drop_first() =~= digits);
}

/// Different numbers are written differently.
pub proof fn law_decimal_determines_the_number(left: nat, right: nat)
    requires
        decimal(left) == decimal(right),
    ensures
        left == right,
{
    lemma_decimal_value(left);
    lemma_decimal_value(right);
}

/// A digit behind a number that is read makes ten times the number and the
/// digit, and anything else behind it is refused.
pub proof fn law_numbers_are_read_digit_by_digit(text: Seq<char>, next: char, max: nat)
    requires
        number(text, max) is Some,
    ensures
        '0' <= next <= '9' ==> number(text.push(next), max) == (if 10 * number(text, max)->0 + (
        next as int - 48) <= max {
            Some((10 * number(text, max)->0 + (next as int - 48)) as nat)
        } else {
            None
        }),
        !('0' <= next <= '9') ==> number(text.push(next), max) is None,
{
    let digits = unsigned(text);
    let longer = unsigned(text.push(next));
    assert(longer =~= digits.push(next));
    assert(longer.drop_last() =~= digits);
    if '0' <= next <= '9' {
        assert forall|i: int| 0 <= i < longer.len() implies is_digit(#[trigger] longer[i]) by {
            if i < digits.len() {
                assert(is_digit(digits[i]));
            }
        }
    } else {
        assert(!is_digit(longer[longer.len() - 1]));
    }
}

/// Text is read as a number just when it is one or more digits, with an optional
/// plus sign in front, and what it writes is not above the limit.
pub proof fn law_numbers_are_digits(text: Seq<char>, max: nat)
    ensures
        number(text, max) is Some ==> number(text, max)->0 <= max,
        number(text, max) is Some ==> text.len() > 0 && '0' <= text.last() <= '9',
        number(text, max) is Some ==> forall|i: int|
            0 < i < text.len() ==> '0' <= #[trigger] text[i] <= '9',
        number(text, max) is Some ==> ('0' <= text[0] <= '9' || text[0] == '+'),
        text.len() == 1 ==> number(text, max) == (if '0' <= text[0] <= '9' && text[0] as int - 48
            <= max {
            Some((text[0] as int - 48) as nat)
        } else {
            None
        }),
        text.len() == 2 && text[0] == '+' ==> number(text, max) == number(text.drop_first(), max),
{
    let digits = unsigned(text);
    if number(text, max) is Some {
        assert forall|i: int| 0 < i < text.len() implies '0' <= #[trigger] text[i] <= '9' by {
            if text[0] == '+' {
                assert(is_digit(digits[i - 1]));
            } else {
                assert(is_digit(digits[i]));
            }
        }
        assert(is_digit(digits[0]));
        assert(is_digit(digits[digits.len() - 1]));
    }
    if text.len() == 1 {
        reveal_with_fuel(digits_value, 2);
        if text[0] != '+' {
            assert(digits =~= text);
            assert(digits.drop_last() =~= Seq::empty());
            if '0' <= text[0] <= '9' {
                assert forall|i: int| 0 <= i < digits.len() implies is_digit(#[trigger] digits[i]) by {
                }
            } else {
                assert(!is_digit(digits[0]));
            }
        }
    }
    if text.len() == 2 && text[0] == '+' {
        let rest = text.drop_first();
        assert(digits == rest);
        if rest[0] == '+' {
            assert(!is_digit(digits[0]));
        }
    }
}

/// Aligned text is at least as wide as its field; the text stands at its end of
/// the field, unchanged, and the rest is filled.
pub proof fn law_alignment(text: Seq<char>, fill: char, width: nat)
    ensures
        right_aligned(text, fill, width).len() == (if text.len() < width {
            width
        } else {
            text.len()
        }),
        right_aligned(text, fill, width).skip(
            right_aligned(text, fill, width).len() - text.len(),
        ) == text,
        forall|i: int|
            0 <= i < right_aligned(text, fill, width).len() - text.len() ==> #[trigger] right_aligned(
                text,
                fill,
                width,
            )[i] == fill,
        left_aligned(text, width).len() == (if text.len() < width {
            width
        } else {
            text.len()
        }),
        left_aligned(text, width).take(text.len() as int) == text,
        forall|i: int|
            text.len() <= i < left_aligned(text, width).len() ==> #[trigger] left_aligned(
                text,
                width,
            )[i] == ' ',
{
    let right = right_aligned(text, fill, width);
    assert(right.skip(right.len() - text.len()) =~= text);
    assert(left_aligned(text, width).take(text.len() as int) =~= text);
}

proof fn lemma_trimmed_start(text: Seq<char>) -> (start: int)
    ensures
        0 <= start <= text.len(),
        trimmed_start(text) == text.skip(start),
        forall|i: int| 0 <= i < start ==> is_white_space(#[trigger] text[i]),
        start < text.len() ==> !is_white_space(text[start]),
    decreases text.len(),
{
    if text.len() > 0 && is_white_space(text.first()) {
        let rest = text.drop_first();
        let inner = lemma_trimmed_start(rest);
        assert(rest.skip(inner) =~= text.skip(inner + 1));
        assert forall|i: int| 0 <= i < inner + 1 implies is_white_space(#[trigger] text[i]) by {
            if i > 0 {
                assert(is_white_space(rest[i - 1]));
            }
        }
        inner + 1
    } else {
        assert(text.skip(0) =~= text);
        0
    }
}

proof fn lemma_trimmed_end(text: Seq<char>) -> (end: int)
    ensures
        0 <= end <= text.len(),
        trimmed_end(text) == text.take(end),
        forall|i: int| end <= i < text.len() ==> is_white_space(#[trigger] text[i]),
        end > 0 ==> !is_white_space(text[end - 1]),
    decreases text.len(),
{
    if text.len() > 0 && is_white_space(text.last()) {
        let rest = text.drop_last();
        let inner = lemma_trimmed_end(rest);
        assert(rest.take(inner) =~= text.take(inner));
        assert forall|i: int| inner <= i < text.len() implies is_white_space(#[trigger] text[i]) by {
            if i < rest.len() {
                assert(is_white_space(rest[i]));
            }
        }
        inner
    } else {
        assert(text.take(text.len() as int) =~= text);
        text.len() as int
    }
}

/// Trimming cuts white space off both ends and nothing else: what is left is a
/// part of the text that neither starts nor ends in white space, and there is
/// only white space around it.
pub proof fn law_trimming(text: Seq<char>)
    ensures
        exists|start: int, end: int|
            0 <= start <= end <= text.len() && trimmed(text) == #[trigger] text.subrange(start, end)
                && (forall|i: int|
                (0 <= i < start || end <= i < text.len()) ==> is_white_space(#[trigger] text[i])),
        trimmed(text).len() > 0 ==> !is_white_space(trimmed(text).first()) && !is_white_space(
            trimmed(text).last(),
        ),
{
    let start = lemma_trimmed_start(text);
    let rest = text.skip(start);
    let length = lemma_trimmed_end(rest);
    let end = start + length;
    assert(rest.take(length) =~= text.subrange(start, end));
    assert forall|i: int| (0 <= i < start || end <= i < text.len()) implies is_white_space(
        #[trigger] text[i],
    ) by {
        if i >= end {
            assert(is_white_space(rest[i - start]));
        }
    }
    assert(trimmed(text) == text.subrange(start, end));
}

/// Cutting a leading run off takes every leading character of that kind and
/// nothing else.
pub proof fn law_cutting_a_leading_run(text: Seq<char>, lead: char)
    ensures
        exists|start: int|
            0 <= start <= text.len() && without_leading(text, lead) == #[trigger] text.skip(start)
                && (forall|i: int| 0 <= i < start ==> #[trigger] text[i] == lead),
        without_leading(text, lead).len() > 0 ==> without_leading(text, lead).first() != lead,
    decreases text.len(),
{
    if text.len() > 0 && text.first() == lead {
        let rest = text.drop_first();
        law_cutting_a_leading_run(rest, lead);
        let start = choose|start: int|
            0 <= start <= rest.len() && without_leading(rest, lead) == #[trigger] rest.skip(start)
                && (forall|i: int| 0 <= i < start ==> #[trigger] rest[i] == lead);
        assert(rest.skip(start) =~= text.skip(start + 1));
        assert forall|i: int| 0 <= i < start + 1 implies #[trigger] text[i] == lead by {
            if i > 0 {
                assert(rest[i - 1] == lead);
            }
        }
    } else {
        assert(text.skip(0) =~= text);
    }
}

/// Pieces put together again, with `sep` between them.
pub open spec fn glued<T>(pieces: Seq<Seq<T>>, sep: T) -> Seq<T>
    decreases pieces.len(),
{
    if pieces.len() == 0 {
        Seq::empty()
    } else if pieces.len() == 1 {
        pieces[0]
    } else {
        glued(pieces.drop_last(), sep).push(sep) + pieces.last()
    }
}

/// Splitting loses nothing and leaves no separator: no piece holds one, and the
/// pieces with a separator between each two are what was split.
pub proof fn law_splitting<T>(items: Seq<T>, sep: T)
    ensures
        split_on(items, sep).len() >= 1,
        glued(split_on(items, sep), sep) == items,
        forall|i: int|
            0 <= i < split_on(items, sep).len() ==> !(#[trigger] split_on(items, sep)[i]).contains(
                sep,
            ),
    decreases items.len(),
{
    lemma_split_not_empty(items, sep);
    let pieces = split_on(items, sep);
    if items.len() == 0 {
        assert(pieces =~= seq![Seq::<T>::empty()]);
        assert(glued(pieces, sep) =~= items);
    } else {
        let before = split_on(items.drop_last(), sep);
        law_splitting(items.drop_last(), sep);
        if items.last() == sep {
            assert(pieces.drop_last() =~= before);
            assert(glued(pieces, sep) =~= items.drop_last().push(sep));
        } else {
            assert(pieces.drop_last() =~= before.drop_last());
            assert(pieces.last() =~= before.last().push(items.last()));
            if before.len() == 1 {
                assert(glued(pieces, sep) =~= items.drop_last().push(items.last()));
            } else {
                assert(glued(pieces, sep) =~= glued(before, sep).push(items.last()));
            }
        }
        assert(items.drop_last().push(items.last()) =~= items);
        assert forall|i: int| 0 <= i < pieces.len() implies !(#[trigger] pieces[i]).contains(
            sep,
        ) by {
            if i < before.len() - 1 {
                assert(pieces[i] == before[i]);
            } else if items.last() != sep {
                let last = before[before.len() - 1];
                assert(pieces[i] == last.push(items.last()));
                if pieces[i].contains(sep) {
                    let k = choose|k: int| 0 <= k < pieces[i].len() && pieces[i][k] == sep;
                    assert(last[k] == sep);
                    assert(last.contains(sep));
                }
            } else if i < before.len() {
                assert(pieces[i] == before[i]);
            }
        }
    }
}

/// The first difference of two texts decides which comes first; a text comes
/// after every start of it.
pub proof fn law_text_order(left: Seq<char>, right: Seq<char>, same: int)
    requires
        0 <= same <= left.len(),
        same <= right.len(),
        left.take(same) == right.take(same),
        same < left.len() && same < right.len() ==> left[same] != right[same],
    ensures
        same < left.len() && same < right.len() ==> text_before(left, right) == (left[same]
            < right[same]),
        same == left.len() ==> text_before(left, right) == (same < right.len()),
        same == right.len() ==> !text_before(left, right),
    decreases same,
{
    if same > 0 {
        assert(left[0] == left.take(same)[0]);
        assert(right[0] == right.take(same)[0]);
        let (l, r) = (left.drop_first(), right.drop_first());
        assert(l.take(same - 1) =~= left.take(same).drop_first());
        assert(r.take(same - 1) =~= right.take(same).drop_first());
        law_text_order(l, r, same - 1);
    }
}

/// White space is a tab, a line feed or one of the three separators next to
/// it, a space, a next line, a no-break space, or one of the spaces and
/// separators beyond Latin letters; nothing else is.
pub proof fn law_white_space(c: char)
    ensures
        is_white_space(c) <==> {
            ||| c as int == 9 || c as int == 10 || c as int == 11 || c as int == 12 || c as int
                == 13
            ||| c as int == 32 || c as int == 133 || c as int == 160
            ||| c as int == 5760
            ||| 8192 <= c as int && c as int <= 8202
            ||| c as int == 8232 || c as int == 8233 || c as int == 8239 || c as int == 8287
            ||| c as int == 12288
        },
{
}

/// Optional texts and outcomes are seen as they are.
pub proof fn law_texts_are_seen_as_they_are(found: &str, text: String, message: String)
    ensures
        optional_text(Some(found)) == Some(found@),
        optional_text(None) is None,
        outcome_text(Ok(text)) == Ok::<Seq<char>, Seq<char>>(text@),
        outcome_text(Err(message)) == Err::<Seq<char>, Seq<char>>(message@),
        outcome_message(Ok(())) == Ok::<(), Seq<char>>(()),
        outcome_message(Err(message)) == Err::<(), Seq<char>>(message@),
{
}

} // verus!
