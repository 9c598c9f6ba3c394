//! Splitting and joining of text, and the decimal notation of numbers.

use vstd::prelude::*;
use vstd::string::*;

verus! {

// ---------------------------------------------------------------------------
// Splitting and joining
// ---------------------------------------------------------------------------

/// The pieces of `text` between the occurrences of `separator`. There is one
/// piece more than there are separators, so even empty text has one piece.
pub open spec fn split_on(text: Seq<char>, separator: char) -> Seq<Seq<char>>
    decreases text.len(),
{
    if text.len() == 0 {
        seq![Seq::empty()]
    } else {
        let front = split_on(text.drop_last(), separator);
        if text.last() == separator {
            front.push(Seq::empty())
        } else {
            front.drop_last().push(front.last().push(text.last()))
        }
    }
}

/// `parts` in order, with `separator` between each two neighbours.
pub open spec fn joined<T>(parts: Seq<Seq<T>>, separator: Seq<T>) -> Seq<T>
    decreases parts.len(),
{
    if parts.len() == 0 {
        Seq::empty()
    } else if parts.len() == 1 {
        parts[0]
    } else {
        joined(parts.drop_last(), separator) + separator + parts.last()
    }
}

/// Splitting always gives at least one piece.
pub proof fn lemma_split_on_nonempty(text: Seq<char>, separator: char)
    ensures
        split_on(text, separator).len() >= 1,
    decreases text.len(),
{
    if text.len() > 0 {
        lemma_split_on_nonempty(text.drop_last(), separator);
    }
}

/// The characters of `text`, as a vector that can be indexed.
pub fn chars_of(text: &str) -> (chars: Vec<char>)
    ensures
        chars@ == text@,
{
    let mut chars: Vec<char> = Vec::new();
    for c in iter: text.chars()
        invariant
            iter.seq() == text@,
            chars@ == text@.take(iter.index() as int),
    {
        chars.push(c);
    }
    chars
}

/// The pieces of `text` between the occurrences of `separator`.
pub fn split(text: &str, separator: char) -> (parts: Vec<String>)
    ensures
        parts.deep_view() == split_on(text@, separator),
{
    let chars = chars_of(text);
    let mut parts: Vec<String> = Vec::new();
    let mut start: usize = 0;
    let mut i: usize = 0;
    assert(text@.take(0) =~= Seq::empty());
    while i < chars.len()
        invariant
            chars@ == text@,
            start <= i <= chars.len(),
            split_on(text@.take(i as int), separator) == parts.deep_view().push(
                text@.subrange(start as int, i as int),
            ),
        decreases chars.len() - i,
    {
        let ghost before = text@.take(i as int);
        assert(text@.take(i + 1).drop_last() =~= before);
        assert(text@.take(i + 1).last() == chars[i as int]);
        if chars[i] == separator {
            let ghost old_parts = parts.deep_view();
            parts.push(text.substring_char(start, i).to_owned());
            assert(parts.deep_view() =~= old_parts.push(text@.subrange(start as int, i as int)));
            start = i + 1;
            assert(text@.subrange(start as int, i + 1) =~= Seq::empty());
        } else {
            let ghost whole = split_on(before, separator);
            assert(whole.drop_last() =~= parts.deep_view());
            assert(text@.subrange(start as int, i + 1) =~= whole.last().push(chars[i as int]));
        }
        i = i + 1;
    }
    assert(text@.take(text@.len() as int) =~= text@);
    let ghost old_parts = parts.deep_view();
    parts.push(text.substring_char(start, i).to_owned());
    assert(parts.deep_view() =~= old_parts.push(text@.subrange(start as int, i as int)));
    parts
}

/// The texts of `parts` in order, with `separator` between each two neighbours.
pub fn join(parts: &Vec<String>, separator: &str) -> (text: String)
    ensures
        text@ == joined(parts.deep_view(), separator@),
{
    let mut text = String::new();
    let ghost views = parts.deep_view();
    let mut i: usize = 0;
    while i < parts.len()
        invariant
            i <= parts.len(),
            views == parts.deep_view(),
            text@ == joined(views.take(i as int), separator@),
        decreases parts.len() - i,
    {
        assert(views.take(i + 1).drop_last() =~= views.take(i as int));
        assert(views.take(i + 1).last() == parts[i as int]@);
        if i > 0 {
            text.append(separator);
        }
        text.append(parts[i].as_str());
        assert(text@ =~= joined(views.take(i + 1), separator@));
        i = i + 1;
    }
    assert(views.take(views.len() as int) =~= views);
    text
}

/// The pieces on both sides of a separator are the pieces of the whole.
pub proof fn lemma_split_on_concat(front: Seq<char>, back: Seq<char>, separator: char)
    ensures
        split_on(front + seq![separator] + back, separator) == split_on(front, separator)
            + split_on(back, separator),
    decreases back.len(),
{
    let whole = front + seq![separator] + back;
    let pieces = split_on(front, separator);
    if back.len() == 0 {
        assert(whole.drop_last() =~= front);
        assert(pieces.push(Seq::empty()) =~= pieces + seq![Seq::empty()]);
    } else {
        let shorter = back.drop_last();
        let rest = split_on(shorter, separator);
        lemma_split_on_concat(front, shorter, separator);
        lemma_split_on_nonempty(shorter, separator);
        assert(whole.drop_last() =~= front + seq![separator] + shorter);
        assert(whole.last() == back.last());
        assert((pieces + rest).last() == rest.last());
        assert((pieces + rest).drop_last() =~= pieces + rest.drop_last());
        assert(split_on(whole, separator) =~= pieces + split_on(back, separator));
    }
}

/// Text without separators is its own only piece.
pub proof fn lemma_split_on_single(text: Seq<char>, separator: char)
    requires
        !text.contains(separator),
    ensures
        split_on(text, separator) == seq![text],
    decreases text.len(),
{
    if text.len() == 0 {
        assert(text =~= Seq::empty());
    } else {
        let shorter = text.drop_last();
        assert forall|i: int| 0 <= i < shorter.len() implies shorter[i] != separator by {
            assert(text.contains(text[i]));
        }
        lemma_split_on_single(shorter, separator);
        assert(text.contains(text.last()));
        assert(shorter.push(text.last()) =~= text);
        assert(seq![shorter].drop_last() =~= Seq::<Seq<char>>::empty());
        assert(Seq::<Seq<char>>::empty().push(text) =~= seq![text]);
    }
}

/// Joining the pieces of a text again gives the text back, and no piece holds
/// the separator.
pub proof fn law_split_then_join(text: Seq<char>, separator: char)
    ensures
        joined(split_on(text, separator), seq![separator]) == text,
        forall|i: int|
            0 <= i < split_on(text, separator).len() ==> !(#[trigger] split_on(
                text,
                separator,
            )[i]).contains(separator),
    decreases text.len(),
{
    if text.len() > 0 {
        let shorter = text.drop_last();
        let front = split_on(shorter, separator);
        law_split_then_join(shorter, separator);
        lemma_split_on_nonempty(shorter, separator);
        let whole = split_on(text, separator);
        if text.last() == separator {
            assert(whole.drop_last() =~= front);
            assert(joined(whole, seq![separator]) =~= shorter + seq![separator] + Seq::empty());
            assert(shorter + seq![separator] + Seq::<char>::empty() =~= text);
        } else {
            let grown = front.last().push(text.last());
            assert(whole.drop_last() =~= front.drop_last());
            assert(whole.last() == grown);
            if front.len() > 1 {
                let head = joined(front.drop_last(), seq![separator]);
                assert(head + seq![separator] + grown =~= (head + seq![separator]
                    + front.last()).push(text.last()));
            }
            assert(shorter.push(text.last()) =~= text);
            assert(!grown.contains(separator)) by {
                assert forall|i: int| 0 <= i < grown.len() implies grown[i] != separator by {
                    if i < front.last().len() {
                        assert(front.last().contains(front.last()[i]));
                    }
                }
            }
        }
        assert forall|i: int| 0 <= i < whole.len() implies !(#[trigger] whole[i]).contains(
            separator,
        ) by {
            if i < front.len() - 1 {
                assert(whole[i] == front[i]);
            } else if text.last() == separator && i == front.len() - 1 {
                assert(whole[i] == front[i]);
            }
        }
    }
}

/// Splitting what was joined from separator-free parts gives the parts back.
pub proof fn law_join_then_split(parts: Seq<Seq<char>>, separator: char)
    requires
        parts.len() >= 1,
        forall|i: int| 0 <= i < parts.len() ==> !(#[trigger] parts[i]).contains(separator),
    ensures
        split_on(joined(parts, seq![separator]), separator) == parts,
    decreases parts.len(),
{
    if parts.len() == 1 {
        lemma_split_on_single(parts[0], separator);
        assert(parts =~= seq![parts[0]]);
    } else {
        let front = parts.drop_last();
        assert forall|i: int| 0 <= i < front.len() implies !(#[trigger] front[i]).contains(
            separator,
        ) by {
            assert(front[i] == parts[i]);
        }
        law_join_then_split(front, separator);
        assert(!parts[parts.len() - 1].contains(separator));
        lemma_split_on_concat(joined(front, seq![separator]), parts.last(), separator);
        lemma_split_on_single(parts.last(), separator);
        assert(front + seq![parts.last()] =~= parts);
    }
}

/// Joining goes part by part: nothing gives nothing, one part gives itself, and
/// what is joined from two stretches of parts is what is joined from each, with one
/// separator between.
pub proof fn law_joined_part_by_part<T>(
    first: Seq<Seq<T>>,
    part: Seq<T>,
    second: Seq<Seq<T>>,
    separator: Seq<T>,
)
    ensures
        joined(Seq::<Seq<T>>::empty(), separator) == Seq::<T>::empty(),
        joined(seq![part], separator) == part,
        first.len() >= 1 && second.len() >= 1 ==> joined(first + second, separator) == joined(
            first,
            separator,
        ) + separator + joined(second, separator),
    decreases second.len(),
{
    if first.len() >= 1 && second.len() >= 1 {
        let whole = first + second;
        assert(whole.drop_last() =~= first + second.drop_last());
        assert(whole.last() == second.last());
        if second.len() == 1 {
            assert(whole.drop_last() =~= first);
        } else {
            law_joined_part_by_part(first, part, second.drop_last(), separator);
            assert(joined(whole, separator) =~= joined(first, separator) + separator + joined(
                second,
                separator,
            ));
        }
    }
}

// ---------------------------------------------------------------------------
// Decimal notation
// ---------------------------------------------------------------------------

/// The character that stands for the digit `d`.
pub open spec fn digit_char(d: nat) -> char
    recommends
        d < 10,
{
    (48 + d) as char
}

/// Whether `c` is one of the ten decimal digits.
pub open spec fn is_digit(c: char) -> bool {
    '0' <= c <= '9'
}

/// The decimal notation of `n`, without leading zeros.
pub open spec fn decimal(n: nat) -> Seq<char>
    decreases n,
{
    if n < 10 {
        seq![digit_char(n)]
    } else {
        decimal(n / 10).push(digit_char(n % 10))
    }
}

/// The decimal notation of `n`, with a minus sign in front where it is negative.
pub open spec fn signed_decimal(n: int) -> Seq<char> {
    if n < 0 {
        seq!['-'] + decimal((-n) as nat)
    } else {
        decimal(n as nat)
    }
}

/// The number that a sequence of digits stands for.
pub open spec fn digits_value(digits: Seq<char>) -> nat
    decreases digits.len(),
{
    if digits.len() == 0 {
        0
    } else {
        digits_value(digits.drop_last()) * 10 + (digits.last() as nat - 48) as nat
    }
}

/// Whether every character of `text` is a decimal digit.
pub open spec fn all_digits(text: Seq<char>) -> bool {
    forall|i: int| 0 <= i < text.len() ==> is_digit(#[trigger] text[i])
}

/// `text` without the plus sign that may stand in front of a number.
pub open spec fn unsigned_part(text: Seq<char>) -> Seq<char> {
    if text.len() > 0 && text[0] == '+' {
        text.skip(1)
    } else {
        text
    }
}

/// The number that `text` denotes: an optional plus sign and at least one digit,
/// nothing else, and a value that fits into 64 bits.
pub open spec fn parsed_number(text: Seq<char>) -> Option<u64> {
    let digits = unsigned_part(text);
    if digits.len() > 0 && all_digits(digits) && digits_value(digits) <= u64::MAX {
        Some(digits_value(digits) as u64)
    } else {
        None
    }
}

/// Reading more digits never makes the number smaller.
proof fn lemma_digits_value_grows(digits: Seq<char>, i: int)
    requires
        0 <= i <= digits.len(),
    ensures
        digits_value(digits.take(i)) <= digits_value(digits),
    decreases digits.len() - i,
{
    if i == digits.len() {
        assert(digits.take(i) =~= digits);
    } else {
        lemma_digits_value_grows(digits, i + 1);
        assert(digits.take(i + 1).drop_last() =~= digits.take(i));
    }
}

/// The decimal notation of a number consists of digits and stands for it.
proof fn lemma_decimal_value(n: nat)
    ensures
        decimal(n).len() >= 1,
        all_digits(decimal(n)),
        digits_value(decimal(n)) == n,
    decreases n,
{
    reveal_with_fuel(digits_value, 2);
    if n < 10 {
        assert(decimal(n).drop_last() =~= Seq::empty());
    } else {
        lemma_decimal_value(n / 10);
        assert(decimal(n).drop_last() =~= decimal(n / 10));
    }
}

/// Reading the decimal notation of a number gives the number back. This holds
/// of the numbers that fit into 64 bits; a negative number cannot be read.
pub proof fn law_decimal_then_parse(n: int)
    requires
        n <= u64::MAX,
    ensures
        parsed_number(signed_decimal(n)) == (if n < 0 {
            None
        } else {
            Some(n as u64)
        }),
{
    if n < 0 {
        assert(signed_decimal(n)[0] == '-');
    } else {
        lemma_decimal_value(n as nat);
        assert(is_digit(decimal(n as nat)[0]));
    }
}

/// The value of digits, read from the left: each digit counts ten times as much as
/// the next.
proof fn lemma_digits_value_from_left(digits: Seq<char>)
    requires
        all_digits(digits),
    ensures
        digits_value(digits) == digits.fold_left(0int, |n: int, c: char| n * 10 + (c as int - 48)),
    decreases digits.len(),
{
    if digits.len() > 0 {
        let front = digits.drop_last();
        assert forall|i: int| 0 <= i < front.len() implies is_digit(#[trigger] front[i]) by {
            assert(is_digit(digits[i]));
        }
        lemma_digits_value_from_left(front);
        assert(is_digit(digits[digits.len() - 1]));
    }
}

/// Digits, with or without a plus sign in front, are read as the number that they
/// make from left to right, unless that is too great.
pub proof fn law_digits_are_read_from_the_left(digits: Seq<char>)
    requires
        digits.len() > 0,
        forall|i: int| 0 <= i < digits.len() ==> '0' <= #[trigger] digits[i] && digits[i] <= '9',
    ensures
        ({
            let value = digits.fold_left(0int, |n: int, c: char| n * 10 + (c as int - 48));
            &&& parsed_number(digits) == (if value <= u64::MAX {
                Some(value as u64)
            } else {
                None
            })
            &&& parsed_number(seq!['+'] + digits) == parsed_number(digits)
        }),
{
    assert(all_digits(digits));
    lemma_digits_value_from_left(digits);
    assert(is_digit(digits[0]));
    assert((seq!['+'] + digits).skip(1) =~= digits);
}

/// Only digits, with or without a plus sign in front, are read as a number.
pub proof fn law_only_digits_are_read(text: Seq<char>)
    requires
        parsed_number(text) is Some,
    ensures
        text.len() > 0,
        '0' <= text.last() <= '9',
        forall|i: int| 0 < i < text.len() ==> '0' <= #[trigger] text[i] && text[i] <= '9',
        text[0] == '+' || '0' <= text[0] <= '9',
{
    let digits = unsigned_part(text);
    let start: int = if text[0] == '+' {
        1
    } else {
        0
    };
    assert(is_digit(digits[digits.len() - 1]));
    assert(text.last() == digits[digits.len() - 1]);
    assert forall|i: int| start <= i < text.len() implies '0' <= #[trigger] text[i] && text[i]
        <= '9' by {
        assert(is_digit(digits[i - start]));
    }
}

/// The decimal notation of a number: a minus sign where it is negative, then digits
/// that make its magnitude from left to right, with no zero in front of others.
pub proof fn law_decimal_notation(n: int)
    ensures
        ({
            let text = signed_decimal(n);
            let digits = if n < 0 {
                text.skip(1)
            } else {
                text
            };
            &&& n < 0 ==> text.len() > 0 && text[0] == '-'
            &&& digits.len() > 0
            &&& forall|i: int|
                0 <= i < digits.len() ==> '0' <= #[trigger] digits[i] && digits[i] <= '9'
            &&& digits.len() > 1 ==> digits[0] != '0'
            &&& digits.fold_left(0int, |v: int, c: char| v * 10 + (c as int - 48)) == (if n < 0 {
                -n
            } else {
                n
            })
        }),
{
    let magnitude = (if n < 0 {
        -n
    } else {
        n
    }) as nat;
    lemma_decimal_value(magnitude);
    lemma_digits_value_from_left(decimal(magnitude));
    lemma_decimal_first_digit(magnitude);
    assert forall|i: int| 0 <= i < decimal(magnitude).len() implies '0' <= #[trigger] decimal(
        magnitude,
    )[i] && decimal(magnitude)[i] <= '9' by {
        assert(is_digit(decimal(magnitude)[i]));
    }
    if n < 0 {
        assert(signed_decimal(n).skip(1) =~= decimal(magnitude));
    }
}

proof fn lemma_decimal_first_digit(n: nat)
    ensures
        decimal(n).len() >= 1,
        n > 0 ==> decimal(n)[0] != '0',
        n < 10 ==> decimal(n).len() == 1,
    decreases n,
{
    if n >= 10 {
        lemma_decimal_first_digit(n / 10);
    }
}

/// The text of a single digit.
fn digit_text(d: u64) -> (text: &'static str)
    requires
        d < 10,
    ensures
        text@ == seq![digit_char(d as nat)],
{
    proof {
        reveal_strlit("0123456789");
    }
    let digits: &'static str = "0123456789";
    let from: usize = d as usize;
    let text = digits.substring_char(from, from + 1);
    assert(text@ =~= seq![digit_char(d as nat)]);
    text
}

/// The decimal notation of `n`.
pub fn decimal_text(n: u64) -> (text: String)
    ensures
        text@ == decimal(n as nat),
    decreases n,
{
    if n < 10 {
        digit_text(n).to_owned()
    } else {
        let mut text = decimal_text(n / 10);
        text.append(digit_text(n % 10));
        assert(text@ =~= decimal(n as nat));
        text
    }
}

/// The decimal notation of `n`, with a minus sign in front where it is negative.
pub fn signed_decimal_text(n: i64) -> (text: String)
    ensures
        text@ == signed_decimal(n as int),
{
    if n < 0 {
        let magnitude: u64 = (-(n + 1)) as u64 + 1;
        let mut text = "-".to_owned();
        text.append(decimal_text(magnitude).as_str());
        proof {
            reveal_strlit("-");
            assert("-"@ =~= seq!['-']);
        }
        text
    } else {
        decimal_text(n as u64)
    }
}

/// Reads `text` as a number: an optional plus sign and at least one digit.
/// Anything else, and a number that does not fit into 64 bits, gives `None`.
pub fn parse_number(text: &str) -> (number: Option<u64>)
    ensures
        number == parsed_number(text@),
{
    let chars = chars_of(text);
    let start: usize = if chars.len() > 0 && chars[0] == '+' {
        1
    } else {
        0
    };
    let ghost digits = unsigned_part(text@);
    assert(digits =~= text@.skip(start as int));
    if start == chars.len() {
        return None;
    }
    let mut value: u64 = 0;
    let mut i: usize = start;
    assert(digits.take(0) =~= Seq::empty());
    while i < chars.len()
        invariant
            chars@ == text@,
            digits == unsigned_part(text@),
            digits == text@.skip(start as int),
            start <= i <= chars.len(),
            start < chars.len(),
            value == digits_value(digits.take(i - start)),
            all_digits(digits.take(i - start)),
        decreases chars.len() - i,
    {
        let c = chars[i];
        assert(digits[i - start] == c);
        if c < '0' || c > '9' {
            assert(!is_digit(digits[i - start]));
            return None;
        }
        let digit: u64 = (c as u64) - 48;
        assert(digits.take(i + 1 - start).drop_last() =~= digits.take(i - start));
        assert(digits_value(digits.take(i + 1 - start)) == value * 10 + digit);
        if value > (u64::MAX - digit) / 10 {
            proof {
                lemma_digits_value_grows(digits, i + 1 - start);
            }
            return None;
        }
        value = value * 10 + digit;
        i = i + 1;
    }
    assert(digits.take(i - start) =~= digits);
    Some(value)
}

} // verus!
