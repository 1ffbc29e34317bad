//! Reading and writing short texts.

use vstd::prelude::*;
use vstd::string::*;

verus! {

/// A character of Unicode's `White_Space` property.
pub open spec fn is_space(c: char) -> bool {
    ||| '\u{9}' <= c <= '\u{d}'
    ||| c == '\u{20}'
    ||| c == '\u{85}'
    ||| c == '\u{a0}'
    ||| c == '\u{1680}'
    ||| '\u{2000}' <= c <= '\u{200a}'
    ||| c == '\u{2028}'
    ||| c == '\u{2029}'
    ||| c == '\u{202f}'
    ||| c == '\u{205f}'
    ||| c == '\u{3000}'
}

/// A text without the white space that it starts with.
pub open spec fn trimmed_start(s: Seq<char>) -> Seq<char>
    decreases s.len(),
{
    if s.len() > 0 && is_space(s.first()) {
        trimmed_start(s.drop_first())
    } else {
        s
    }
}

/// A text without the white space that it ends with.
pub open spec fn trimmed_end(s: Seq<char>) -> Seq<char>
    decreases s.len(),
{
    if s.len() > 0 && is_space(s.last()) {
        trimmed_end(s.drop_last())
    } else {
        s
    }
}

/// A text without the white space around it.
pub open spec fn trimmed(s: Seq<char>) -> Seq<char> {
    trimmed_end(trimmed_start(s))
}

/// Where a character first stands in a text, or the text's length.
pub open spec fn position_of(s: Seq<char>, c: char) -> nat
    decreases s.len(),
{
    if s.len() == 0 || s.first() == c {
        0
    } else {
        1 + position_of(s.drop_first(), c)
    }
}

/// The pieces of a text between the places where a character stands.
pub open spec fn pieces(s: Seq<char>, c: char) -> Seq<Seq<char>>
    decreases s.len(),
{
    let i = position_of(s, c);
    if i < s.len() {
        seq![s.take(i as int)] + pieces(s.skip(i as int + 1), c)
    } else {
        seq![s]
    }
}

/// A decimal digit.
pub open spec fn is_digit(c: char) -> bool {
    '0' <= c <= '9'
}

/// The number that a row of digits writes.
pub open spec fn decimal_value(digits: Seq<char>) -> nat
    decreases digits.len(),
{
    if digits.len() == 0 {
        0
    } else {
        (10 * decimal_value(digits.drop_last()) + (digits.last() as int - '0' as int)) as nat
    }
}

/// The digits of a number, without the plus sign that may stand before them.
pub open spec fn unsigned_digits(s: Seq<char>) -> Seq<char> {
    if s.len() > 0 && s.first() == '+' {
        s.drop_first()
    } else {
        s
    }
}

/// The 16-bit number that a text writes in decimal.
pub open spec fn number_of(s: Seq<char>) -> Option<u16> {
    let digits = unsigned_digits(s);
    if digits.len() > 0 && (forall|i: int| 0 <= i < digits.len() ==> is_digit(#[trigger] digits[i]))
        && decimal_value(digits) <= u16::MAX {
        Some(decimal_value(digits) as u16)
    } else {
        None
    }
}

/// The decimal digit of a number below ten.
pub open spec fn digit_of(n: nat) -> char {
    ('0' as nat + n) as char
}

/// A number in decimal, without leading zeros.
pub open spec fn decimal_of(n: nat) -> Seq<char>
    decreases n,
{
    if n < 10 {
        seq![digit_of(n)]
    } else {
        decimal_of(n / 10).push(digit_of(n % 10))
    }
}

/// The characters of a text.
fn chars_of(s: &str) -> (r: Vec<char>)
    ensures
        r@ == s@,
{
    let mut r: Vec<char> = Vec::new();
    for c in it: s.chars()
        invariant
            it.seq() == s@,
            r@ == it.seq().take(it.index() as int),
    {
        r.push(c);
    }
    r
}

/// Whether a character is white space.
fn space(c: char) -> (r: bool)
    ensures
        r == is_space(c),
{
    ('\u{9}' <= c && c <= '\u{d}') || c == '\u{20}' || c == '\u{85}' || c == '\u{a0}' || c == '\u{1680}'
        || ('\u{2000}' <= c && c <= '\u{200a}') || c == '\u{2028}' || c == '\u{2029}' || c == '\u{202f}'
        || c == '\u{205f}' || c == '\u{3000}'
}

/// The text without the white space around it.
pub fn trim(s: &str) -> (r: &str)
    ensures
        r@ == trimmed(s@),
{
    let chars = chars_of(s);
    let mut start: usize = 0;
    assert(s@.skip(0) =~= s@);
    while start < chars.len() && space(chars[start])
        invariant
            chars@ == s@,
            start <= chars.len(),
            trimmed_start(s@) == trimmed_start(s@.skip(start as int)),
        decreases chars.len() - start,
    {
        assert(s@.skip(start as int).drop_first() =~= s@.skip(start + 1));
        start = start + 1;
    }
    let mut end: usize = chars.len();
    assert(s@.skip(start as int) =~= s@.subrange(start as int, end as int));
    while end > start && space(chars[end - 1])
        invariant
            chars@ == s@,
            start <= end <= chars.len(),
            trimmed(s@) == trimmed_end(s@.subrange(start as int, end as int)),
        decreases end,
    {
        assert(s@.subrange(start as int, end as int).drop_last() =~= s@.subrange(
            start as int,
            end - 1,
        ));
        end = end - 1;
    }
    s.substring_char(start, end)
}

/// Where a character first stands in a text, or the text's length.
pub fn position(s: &str, c: char) -> (r: usize)
    ensures
        r == position_of(s@, c),
        r <= s@.len(),
{
    let chars = chars_of(s);
    let mut i: usize = 0;
    assert(s@.skip(0) =~= s@);
    while i < chars.len() && chars[i] != c
        invariant
            chars@ == s@,
            i <= chars.len(),
            position_of(s@, c) == i + position_of(s@.skip(i as int), c),
        decreases chars.len() - i,
    {
        assert(s@.skip(i as int).drop_first() =~= s@.skip(i + 1));
        i = i + 1;
    }
    i
}

/// The 16-bit number that a text writes in decimal: digits, after at most one plus sign.
pub fn parse_number(s: &str) -> (r: Option<u16>)
    ensures
        r == number_of(s@),
{
    let chars = chars_of(s);
    let start: usize = if chars.len() > 0 && chars[0] == '+' {
        1
    } else {
        0
    };
    let ghost digits = unsigned_digits(s@);
    assert(digits =~= s@.skip(start as int));
    if start == chars.len() {
        return None;
    }
    let mut value: u32 = 0;
    let mut i: usize = start;
    while i < chars.len()
        invariant
            chars@ == s@,
            start <= i <= chars.len(),
            digits == s@.skip(start as int),
            digits == unsigned_digits(s@),
            forall|j: int| 0 <= j < i - start ==> is_digit(#[trigger] digits[j]),
            value == (if decimal_value(digits.take(i - start)) <= u16::MAX {
                decimal_value(digits.take(i - start))
            } else {
                0x1_0000
            }),
        decreases chars.len() - i,
    {
        let c = chars[i];
        if c < '0' || '9' < c {
            assert(!is_digit(digits[i - start]));
            return None;
        }
        proof {
            let next = digits.take(i - start + 1);
            assert(next.drop_last() =~= digits.take(i - start));
            assert(next.last() == c);
        }
        value = 10 * value + (c as u32 - '0' as u32);
        if value > 0xffff {
            value = 0x1_0000;
        }
        i = i + 1;
    }
    assert(digits.take(i - start) =~= digits);
    if value > 0xffff {
        None
    } else {
        Some(value as u16)
    }
}

/// A number below ten as a text.
fn digit(n: u64) -> (r: &'static str)
    requires
        n < 10,
    ensures
        r@ == seq![digit_of(n as nat)],
{
    proof {
        reveal_strlit("0");
        reveal_strlit("1");
        reveal_strlit("2");
        reveal_strlit("3");
        reveal_strlit("4");
        reveal_strlit("5");
        reveal_strlit("6");
        reveal_strlit("7");
        reveal_strlit("8");
        reveal_strlit("9");
    }
    let r = match n {
        0 => "0",
        1 => "1",
        2 => "2",
        3 => "3",
        4 => "4",
        5 => "5",
        6 => "6",
        7 => "7",
        8 => "8",
        _ => "9",
    };
    assert(r@ =~= seq![digit_of(n as nat)]);
    r
}

/// A number in decimal.
pub fn decimal(n: u64) -> (r: String)
    ensures
        r@ == decimal_of(n as nat),
    decreases n,
{
    if n < 10 {
        return digit(n).to_owned();
    }
    let mut r = decimal(n / 10);
    r.append(digit(n % 10));
    assert(r@ =~= decimal_of(n as nat));
    r
}

/// White space, code point by code point.
pub proof fn law_white_space_by_code_point(c: char)
    ensures
        is_space(c) <==> {
            let code = c as int;
            ||| 9 <= code <= 13
            ||| code == 0x20
            ||| code == 0x85
            ||| code == 0xa0
            ||| code == 0x1680
            ||| 0x2000 <= code <= 0x200a
            ||| code == 0x2028
            ||| code == 0x2029
            ||| code == 0x202f
            ||| code == 0x205f
            ||| code == 0x3000
        },
{
}

proof fn lemma_trim_front(before: Seq<char>, rest: Seq<char>)
    requires
        forall|i: int| 0 <= i < before.len() ==> is_space(#[trigger] before[i]),
    ensures
        trimmed_start(before + rest) == trimmed_start(rest),
    decreases before.len(),
{
    if before.len() == 0 {
        assert(before + rest =~= rest);
    } else {
        let all = before + rest;
        assert(all.first() == before[0]);
        assert(all.drop_first() =~= before.drop_first() + rest);
        assert forall|i: int| 0 <= i < before.drop_first().len() implies is_space(
            #[trigger] before.drop_first()[i],
        ) by {
            assert(before.drop_first()[i] == before[i + 1]);
        }
        lemma_trim_front(before.drop_first(), rest);
    }
}

proof fn lemma_trim_back(rest: Seq<char>, after: Seq<char>)
    requires
        forall|i: int| 0 <= i < after.len() ==> is_space(#[trigger] after[i]),
    ensures
        trimmed_end(rest + after) == trimmed_end(rest),
    decreases after.len(),
{
    if after.len() == 0 {
        assert(rest + after =~= rest);
    } else {
        let all = rest + after;
        assert(all.last() == after[after.len() - 1]);
        assert(all.drop_last() =~= rest + after.drop_last());
        assert forall|i: int| 0 <= i < after.drop_last().len() implies is_space(
            #[trigger] after.drop_last()[i],
        ) by {
            assert(after.drop_last()[i] == after[i]);
        }
        lemma_trim_back(rest, after.drop_last());
    }
}

/// Trimming takes away the white space around a text, all of it and nothing else: what is left is
/// the middle, which neither starts nor ends with white space.
pub proof fn law_trimming_leaves_the_middle(before: Seq<char>, middle: Seq<char>, after: Seq<char>)
    requires
        forall|i: int| 0 <= i < before.len() ==> is_space(#[trigger] before[i]),
        forall|i: int| 0 <= i < after.len() ==> is_space(#[trigger] after[i]),
        middle.len() > 0 ==> !is_space(middle.first()) && !is_space(middle.last()),
    ensures
        trimmed(before + middle + after) == middle,
{
    assert(before + middle + after =~= before + (middle + after));
    lemma_trim_front(before, middle + after);
    if middle.len() > 0 {
        assert((middle + after).first() == middle.first());
        lemma_trim_back(middle, after);
    } else {
        assert(middle + after =~= after + middle);
        lemma_trim_front(after, middle);
    }
}

/// A character is found where it first stands, and at the end where it stands nowhere.
pub proof fn law_first_place_is_found(s: Seq<char>, c: char)
    ensures
        position_of(s, c) <= s.len(),
        forall|i: int| 0 <= i < position_of(s, c) ==> #[trigger] s[i] != c,
        position_of(s, c) < s.len() ==> s[position_of(s, c) as int] == c,
    decreases s.len(),
{
    if s.len() > 0 && s.first() != c {
        law_first_place_is_found(s.drop_first(), c);
        assert forall|i: int| 0 <= i < position_of(s, c) implies #[trigger] s[i] != c by {
            if i > 0 {
                assert(s[i] == s.drop_first()[i - 1]);
            }
        }
    }
}

/// Texts put together with a character between each two.
pub open spec fn joined(parts: Seq<Seq<char>>, c: char) -> Seq<char>
    decreases parts.len(),
{
    if parts.len() == 0 {
        Seq::empty()
    } else if parts.len() == 1 {
        parts[0]
    } else {
        parts[0].push(c) + joined(parts.drop_first(), c)
    }
}

/// The character stands where the first part ends.
pub proof fn lemma_position_behind(first: Seq<char>, c: char, rest: Seq<char>)
    requires
        forall|i: int| 0 <= i < first.len() ==> #[trigger] first[i] != c,
    ensures
        position_of(first.push(c) + rest, c) == first.len(),
{
    let all = first.push(c) + rest;
    law_first_place_is_found(all, c);
    let place = position_of(all, c);
    assert(all[first.len() as int] == c);
    if place < first.len() {
        assert(all[place as int] == first[place as int]);
    }
}

/// Cutting a text at a character undoes putting together parts that do not hold it: at least one
/// part is there, and each comes back as it was.
pub proof fn law_pieces_are_the_parts(parts: Seq<Seq<char>>, c: char)
    requires
        parts.len() > 0,
        forall|k: int, i: int|
            0 <= k < parts.len() && 0 <= i < parts[k].len() ==> #[trigger] parts[k][i] != c,
    ensures
        pieces(joined(parts, c), c) == parts,
    decreases parts.len(),
{
    let first = parts[0];
    assert forall|i: int| 0 <= i < first.len() implies #[trigger] first[i] != c by {
        assert(parts[0][i] != c);
    }
    if parts.len() == 1 {
        law_first_place_is_found(first, c);
        assert(pieces(first, c) =~= parts);
    } else {
        let rest = parts.drop_first();
        assert forall|k: int, i: int| 0 <= k < rest.len() && 0 <= i < rest[k].len() implies #[trigger] rest[k][i]
            != c by {
            assert(parts[k + 1][i] != c);
        }
        law_pieces_are_the_parts(rest, c);
        let all = joined(parts, c);
        lemma_position_behind(first, c, joined(rest, c));
        assert(all.take(first.len() as int) =~= first);
        assert(all.skip(first.len() as int + 1) =~= joined(rest, c));
        assert(pieces(all, c) =~= parts);
    }
}

/// Putting the pieces of a text together gives the text back, and no piece holds the character.
pub proof fn law_pieces_make_the_text(s: Seq<char>, c: char)
    ensures
        pieces(s, c).len() > 0,
        joined(pieces(s, c), c) == s,
        forall|k: int, i: int|
            0 <= k < pieces(s, c).len() && 0 <= i < pieces(s, c)[k].len() ==> #[trigger] pieces(
                s,
                c,
            )[k][i] != c,
    decreases s.len(),
{
    law_first_place_is_found(s, c);
    let place = position_of(s, c) as int;
    let parts = pieces(s, c);
    if place < s.len() {
        let tail = s.skip(place + 1);
        law_pieces_make_the_text(tail, c);
        let more = pieces(tail, c);
        assert(parts =~= seq![s.take(place)] + more);
        assert(parts.drop_first() =~= more);
        assert(s =~= s.take(place).push(c) + tail);
        assert forall|k: int, i: int| 0 <= k < parts.len() && 0 <= i < parts[k].len() implies #[trigger] parts[k][i]
            != c by {
            if k > 0 {
                assert(parts[k] == more[k - 1]);
                assert(more[k - 1][i] != c);
            }
        }
    }
}

/// A single digit writes its number.
pub proof fn law_digit_is_its_number(c: char)
    requires
        48 <= c as int <= 57,
    ensures
        number_of(seq![c]) == Some((c as int - 48) as u16),
{
    let s = seq![c];
    assert(s.drop_last() =~= Seq::<char>::empty());
    assert(decimal_value(s.drop_last()) == 0);
}

/// One more digit behind a number makes it ten times as large and adds the digit, as long as that is
/// a 16-bit number; what is no number stays none.
pub proof fn law_next_digit_counts(s: Seq<char>, c: char)
    requires
        s.len() > 0,
        48 <= s.last() as int <= 57,
        48 <= c as int <= 57,
    ensures
        number_of(s.push(c)) == (match number_of(s) {
            Some(n) if 10 * n + (c as int - 48) <= 65535 => Some((10 * n + (c as int - 48)) as u16),
            _ => None,
        }),
{
    let (digits, more) = (unsigned_digits(s), unsigned_digits(s.push(c)));
    assert(more =~= digits.push(c));
    assert(more.drop_last() =~= digits);
    assert(s.len() == 1 && s.first() == '+' ==> false);
    assert(digits.len() > 0);
    assert forall|i: int| 0 <= i < digits.len() implies more[i] == #[trigger] digits[i] by {}
    if forall|i: int| 0 <= i < digits.len() ==> is_digit(#[trigger] digits[i]) {
        assert forall|i: int| 0 <= i < more.len() implies is_digit(#[trigger] more[i]) by {
            if i < digits.len() {
                assert(more[i] == digits[i]);
            }
        }
    } else {
        let i = choose|i: int| 0 <= i < digits.len() && !is_digit(#[trigger] digits[i]);
        assert(more[i] == digits[i]);
    }
    assert(decimal_value(more) == 10 * decimal_value(digits) + (c as int - 48));
}

/// A plus sign before digits does not count, and a number is made of nothing else: no text with
/// another character, with a sign and no digit, or without any digit is one.
pub proof fn law_numbers_are_made_of_digits(s: Seq<char>)
    ensures
        s.len() == 0 ==> number_of(s) is None,
        s.len() > 0 && s.first() as int != 43 ==> number_of(seq!['+'] + s) == number_of(s),
        number_of(seq!['+']) is None,
        forall|i: int|
            0 <= i < s.len() && !(48 <= #[trigger] s[i] as int <= 57) && !(i == 0 && s[i] as int == 43)
                ==> number_of(s) is None,
{
    assert((seq!['+'] + s).drop_first() =~= s);
    assert(seq!['+'].drop_first().len() == 0);
    assert forall|i: int|
        0 <= i < s.len() && !(48 <= #[trigger] s[i] as int <= 57) && !(i == 0 && s[i] as int
            == 43) implies number_of(s) is None by {
        let digits = unsigned_digits(s);
        if s.first() == '+' {
            assert(digits[i - 1] == s[i]);
            assert(!is_digit(digits[i - 1]));
        } else {
            assert(digits[i] == s[i]);
            assert(!is_digit(digits[i]));
        }
    }
}

/// A number is written with its digits: one below ten is one digit, and any other is the number
/// without its last digit, and that digit behind it.
pub proof fn law_decimal_digits(n: nat, digit: nat)
    requires
        digit < 10,
    ensures
        decimal_of(digit) == seq![(48 + digit) as char],
        n > 0 ==> decimal_of(10 * n + digit) == decimal_of(n).push((48 + digit) as char),
{
    if n > 0 {
        assert((10 * n + digit) / 10 == n && (10 * n + digit) % 10 == digit);
    }
}

/// What is written in decimal is a row of digits, and has the value.
pub proof fn lemma_decimal_is_digits(n: nat)
    ensures
        decimal_of(n).len() > 0,
        forall|i: int|
            0 <= i < decimal_of(n).len() ==> 48 <= #[trigger] decimal_of(n)[i] as int <= 57,
        decimal_value(decimal_of(n)) == n,
    decreases n,
{
    let s = decimal_of(n);
    if n < 10 {
        assert(s.drop_last() =~= Seq::<char>::empty());
        assert(decimal_value(s.drop_last()) == 0);
    } else {
        lemma_decimal_is_digits(n / 10);
        assert(s.drop_last() =~= decimal_of(n / 10));
        assert forall|i: int| 0 <= i < s.len() implies 48 <= #[trigger] s[i] as int <= 57 by {
            if i < s.len() - 1 {
                assert(s[i] == decimal_of(n / 10)[i]);
            }
        }
    }
}

/// Reading a number undoes writing it.
pub proof fn law_written_numbers_are_read_back(n: u16)
    ensures
        number_of(decimal_of(n as nat)) == Some(n),
{
    lemma_decimal_is_digits(n as nat);
    let s = decimal_of(n as nat);
    assert(48 <= s[0] as int <= 57);
    assert(unsigned_digits(s) == s);
    assert forall|i: int| 0 <= i < s.len() implies is_digit(#[trigger] s[i]) by {
        assert(48 <= s[i] as int <= 57);
    }
}

} // verus!
