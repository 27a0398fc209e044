//! Text that players type.

use crate::chars::{is_white, white};
use crate::world::names::text_from_chars;
use vstd::prelude::*;

verus! {

/// A text in lower case, as `str::to_lowercase` gives it.
pub uninterp spec fn lowercase(text: Seq<char>) -> Seq<char>;

/// A text without white space at its ends.
pub open spec fn without_margins(text: Seq<char>) -> Seq<char>
    decreases text.len(),
{
    if text.len() > 0 && is_white(text[0]) {
        without_margins(text.skip(1))
    } else if text.len() > 0 && is_white(text.last()) {
        without_margins(text.drop_last())
    } else {
        text
    }
}

/// `str::to_lowercase`: the text in lower case. What that is for each character is
/// left to the name.
#[verifier::external_body]
pub(crate) fn to_lower(text: &str) -> (r: String)
    ensures
        r@ == lowercase(text@),
{
    text.to_lowercase()
}

/// Whether a text begins with another one at a place.
pub open spec fn occurs_at(text: Seq<char>, part: Seq<char>, i: int) -> bool {
    0 <= i && i + part.len() <= text.len() && text.subrange(i, i + part.len()) == part
}

/// Whether a text is a part of another one.
pub open spec fn is_part(text: Seq<char>, part: Seq<char>) -> bool {
    exists|i: int| #[trigger] occurs_at(text, part, i)
}

/// The characters of a text.
pub fn characters(text: &str) -> (r: Vec<char>)
    ensures
        r@ == text@,
{
    let mut out: Vec<char> = Vec::new();
    assert(text@.take(0) =~= Seq::<char>::empty());
    for c in it: text.chars()
        invariant
            it.seq() == text@,
            out@ == text@.take(it.index() as int),
    {
        out.push(c);
        assert(out@ =~= text@.take(it.index() + 1));
    }
    assert(text@.take(text@.len() as int) =~= text@);
    out
}

/// The text without white space at its ends.
pub fn trim_text(text: &str) -> (r: String)
    ensures
        r@ == without_margins(text@),
{
    let chars = characters(text);
    let mut from: usize = 0;
    assert(text@.subrange(0, text@.len() as int) =~= text@);
    while from < chars.len() && white(chars[from])
        invariant
            from <= chars@.len(),
            chars@ == text@,
            without_margins(text@) == without_margins(
                text@.subrange(from as int, text@.len() as int),
            ),
        decreases chars@.len() - from,
    {
        assert(text@.subrange(from as int, text@.len() as int).skip(1) =~= text@.subrange(
            from + 1,
            text@.len() as int,
        ));
        from += 1;
    }
    let mut to: usize = chars.len();
    while to > from && white(chars[to - 1])
        invariant
            from <= to <= chars@.len(),
            chars@ == text@,
            from < to ==> !is_white(chars@[from as int]),
            without_margins(text@) == without_margins(text@.subrange(from as int, to as int)),
        decreases to - from,
    {
        let ghost part = text@.subrange(from as int, to as int);
        assert(part[0] == chars@[from as int]);
        assert(part.drop_last() =~= text@.subrange(from as int, to - 1));
        to -= 1;
    }
    let mut out: Vec<char> = Vec::new();
    let mut i: usize = from;
    while i < to
        invariant
            from <= i <= to <= chars@.len(),
            chars@ == text@,
            out@ == text@.subrange(from as int, i as int),
        decreases to - i,
    {
        out.push(chars[i]);
        i += 1;
        assert(out@ =~= text@.subrange(from as int, i as int));
    }
    text_from_chars(out)
}

fn occurs(text: &Vec<char>, part: &Vec<char>, i: usize) -> (r: bool)
    requires
        i + part@.len() <= text@.len(),
    ensures
        r == occurs_at(text@, part@, i as int),
{
    let size: usize = text.len();
    let mut k: usize = 0;
    while k < part.len()
        invariant
            size == text@.len(),
            k <= part@.len(),
            i + part@.len() <= text@.len(),
            forall|j: int| 0 <= j < k ==> text@[i + j] == #[trigger] part@[j],
        decreases part@.len() - k,
    {
        if text[i + k] != part[k] {
            assert(text@.subrange(i as int, i + part@.len())[k as int] != part@[k as int]);
            return false;
        }
        k += 1;
    }
    assert(text@.subrange(i as int, i + part@.len()) =~= part@);
    true
}

/// Whether a text is a part of another one.
pub fn has_part(text: &str, part: &str) -> (r: bool)
    ensures
        r == is_part(text@, part@),
{
    let text_chars = characters(text);
    let part_chars = characters(part);
    if part_chars.len() > text_chars.len() {
        assert forall|i: int| !#[trigger] occurs_at(text@, part@, i) by {}
        return false;
    }
    let last: usize = text_chars.len() - part_chars.len();
    let mut i: usize = 0;
    loop
        invariant
            i <= last,
            last + part_chars@.len() == text_chars@.len(),
            text_chars@ == text@,
            part_chars@ == part@,
            forall|j: int| 0 <= j < i ==> !#[trigger] occurs_at(text@, part@, j),
        decreases last - i,
    {
        if occurs(&text_chars, &part_chars, i) {
            return true;
        }
        if i == last {
            assert forall|j: int| !#[trigger] occurs_at(text@, part@, j) by {
                if occurs_at(text@, part@, j) {
                    assert(0 <= j <= last);
                }
            }
            return false;
        }
        i += 1;
    }
}

/// Whether a character is a decimal digit.
pub open spec fn is_digit(c: char) -> bool {
    '0' <= c <= '9'
}

/// The value of digits.
pub open spec fn digits_value(digits: Seq<char>) -> nat
    decreases digits.len(),
{
    if digits.len() == 0 {
        0
    } else {
        10 * digits_value(digits.drop_last()) + (digits.last() as nat - '0' as nat) as nat
    }
}

/// What follows the plus sign of a text, if it begins with one.
pub open spec fn unsigned(text: Seq<char>) -> Seq<char> {
    if text.len() > 0 && text[0] == '+' {
        text.skip(1)
    } else {
        text
    }
}

/// Whether a text is made of digits.
pub open spec fn all_digits(text: Seq<char>) -> bool {
    forall|i: int| 0 <= i < text.len() ==> is_digit(#[trigger] text[i])
}

/// The number that a text is, if it is one: digits, with a plus sign before them or
/// without, and not too large.
pub open spec fn number_of(text: Seq<char>) -> Option<u64> {
    let digits = unsigned(text);
    if digits.len() > 0 && all_digits(digits) && digits_value(digits) <= u64::MAX {
        Some(digits_value(digits) as u64)
    } else {
        None
    }
}

proof fn lemma_value_grows(digits: Seq<char>, n: int)
    requires
        0 <= n <= digits.len(),
    ensures
        digits_value(digits.take(n)) <= digits_value(digits),
    decreases digits.len() - n,
{
    if n < digits.len() {
        lemma_value_grows(digits, n + 1);
        assert(digits.take(n + 1).drop_last() =~= digits.take(n));
    } else {
        assert(digits.take(n) =~= digits);
    }
}

/// The number that a text is, if it is one.
pub fn parse_number(text: &str) -> (r: Option<u64>)
    ensures
        r == number_of(text@),
{
    parse_digits(&characters(text))
}

/// The number that characters are, if they are one.
pub fn parse_digits(chars: &Vec<char>) -> (r: Option<u64>)
    ensures
        r == number_of(chars@),
{
    let start: usize = if chars.len() > 0 && chars[0] == '+' { 1 } else { 0 };
    let ghost digits = unsigned(chars@);
    assert(digits =~= chars@.skip(start as int));
    if start == chars.len() {
        return None;
    }
    let mut value: u64 = 0;
    let mut i: usize = start;
    assert(digits.take(0) =~= Seq::<char>::empty());
    while i < chars.len()
        invariant
            start <= i <= chars@.len(),
            start < chars@.len(),
            start <= 1,
            digits == chars@.skip(start as int),
            digits == unsigned(chars@),
            value == digits_value(digits.take(i - start)),
            forall|k: int| 0 <= k < i - start ==> is_digit(#[trigger] digits[k]),
        decreases chars@.len() - i,
    {
        let c = chars[i];
        let ghost k = i - start;
        assert(digits[k] == c);
        if c < '0' || c > '9' {
            assert(!is_digit(digits[k]));
            return None;
        }
        let digit: u64 = (c as u32 - '0' as u32) as u64;
        proof {
            assert(digits.take(k + 1).drop_last() =~= digits.take(k));
            lemma_value_grows(digits, k + 1);
        }
        if value > (u64::MAX - digit) / 10 {
            assert(10 * value + digit > u64::MAX);
            return None;
        }
        value = value * 10 + digit;
        i += 1;
    }
    assert(digits.take(i - start) =~= digits);
    Some(value)
}

/// Whether all that lies outside a part of a text is white space.
pub open spec fn is_white_outside(text: Seq<char>, a: int, b: int) -> bool {
    &&& 0 <= a <= b <= text.len()
    &&& forall|i: int| 0 <= i < a || b <= i < text.len() ==> is_white(#[trigger] text[i])
}

/// What is left of a text without its margins neither begins nor ends with white space, and
/// nothing but white space was taken from its ends: it is the part of the text between the
/// two places that are given.
pub proof fn margins_are_white(text: Seq<char>) -> (ends: (int, int))
    ensures
        is_white_outside(text, ends.0, ends.1),
        without_margins(text) == text.subrange(ends.0, ends.1),
        ends.0 < ends.1 ==> !is_white(text[ends.0]) && !is_white(text[ends.1 - 1]),
    decreases text.len(),
{
    if text.len() > 0 && is_white(text[0]) {
        let rest = text.skip(1);
        let (a, b) = margins_are_white(rest);
        assert(text.subrange(a + 1, b + 1) =~= rest.subrange(a, b));
        assert forall|i: int| 0 <= i < a + 1 || b + 1 <= i < text.len() implies is_white(
            #[trigger] text[i],
        ) by {
            if i > 0 {
                assert(is_white(rest[i - 1]));
            }
        }
        (a + 1, b + 1)
    } else if text.len() > 0 && is_white(text.last()) {
        let rest = text.drop_last();
        let (a, b) = margins_are_white(rest);
        assert(text.subrange(a, b) =~= rest.subrange(a, b));
        assert forall|i: int| 0 <= i < a || b <= i < text.len() implies is_white(
            #[trigger] text[i],
        ) by {
            if i < rest.len() {
                assert(is_white(rest[i]));
            }
        }
        (a, b)
    } else {
        assert(text.subrange(0, text.len() as int) =~= text);
        (0, text.len() as int)
    }
}

/// Digits are read in tens: one more digit makes the number ten times as large and adds
/// itself.
pub proof fn digits_are_read_in_tens(digits: Seq<char>, last: char)
    requires
        all_digits(digits),
        digits.len() > 0,
        '0' <= last <= '9',
    ensures
        number_of(digits) is Some ==> {
            let more = 10 * number_of(digits)->0 + (last as int - '0' as int);
            number_of(digits.push(last)) == if more <= u64::MAX {
                Some(more as u64)
            } else {
                None
            }
        },
        number_of(seq![last]) == Some((last as int - '0' as int) as u64),
        number_of(seq!['+'] + digits) == number_of(digits),
{
    let all = digits.push(last);
    assert(all.drop_last() =~= digits);
    assert(all[0] == digits[0] && is_digit(digits[0]));
    assert(unsigned(all) == all);
    assert(unsigned(digits) == digits);
    assert(all_digits(all));
    let one = seq![last];
    assert(one.drop_last() =~= Seq::<char>::empty());
    assert(digits_value(Seq::<char>::empty()) == 0);
    assert((seq!['+'] + digits).skip(1) =~= digits);
}

/// A text with anything but digits in it, apart from a sign in front, is no number, and
/// neither is one without digits.
pub proof fn only_digits_are_numbers(text: Seq<char>, i: int)
    ensures
        0 < i < text.len() && !('0' <= text[i] <= '9') ==> number_of(text) is None,
        text.len() > 0 && !('0' <= text[0] <= '9') && text[0] != '+' ==> number_of(text) is None,
        text.len() == 0 ==> number_of(text) is None,
        text.len() == 1 && text[0] == '+' ==> number_of(text) is None,
{
    if 0 < i < text.len() && !('0' <= text[i] <= '9') {
        if text[0] == '+' {
            assert(text.skip(1)[i - 1] == text[i]);
        }
    }
}

} // verus!
