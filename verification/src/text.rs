//! Decimal numbers, white space, lists separated by commas, and encoded surrogates.

use crate::order::{is_selection, lemma_selection_grows};
use vstd::prelude::*;
use vstd::string::*;
use vstd::utf8::{
    codepoint_width_3, continuation_bits, encode_utf8, leading_bits_width_3, pop_first_scalar,
    valid_utf8,
};

verus! {

/// The character of a decimal digit.
pub open spec fn digit(d: int) -> char {
    ('0' as int + d) as char
}

/// The decimal digits of a number, without leading zeros.
pub open spec fn decimal(n: nat) -> Seq<char>
    decreases n,
{
    if n < 10 {
        seq![digit(n as int)]
    } else {
        decimal(n / 10).push(digit((n % 10) as int))
    }
}

fn digit_text(d: u64) -> (r: &'static str)
    requires
        d < 10,
    ensures
        r@ == seq![digit(d as int)],
{
    proof {
        reveal_strlit("0");
        reveal_strlit("1");
        reveal_strlit("2");
        reveal_strlit("3");
        reveal_strlit("4");
        reveal_strlit("5");
        reveal_strlit("6");
        reveal_strlit("7");
        reveal_strlit("8");
        reveal_strlit("9");
    }
    let text: &'static str = if d == 0 {
        "0"
    } else if d == 1 {
        "1"
    } else if d == 2 {
        "2"
    } else if d == 3 {
        "3"
    } else if d == 4 {
        "4"
    } else if d == 5 {
        "5"
    } else if d == 6 {
        "6"
    } else if d == 7 {
        "7"
    } else if d == 8 {
        "8"
    } else {
        "9"
    };
    assert(text@ =~= seq![digit(d as int)]);
    text
}

/// Appends the decimal digits of a number.
pub fn append_decimal(text: &mut String, n: u64)
    ensures
        final(text)@ == old(text)@ + decimal(n as nat),
    decreases n,
{
    if n >= 10 {
        append_decimal(text, n / 10);
    }
    text.append(digit_text(n % 10));
    assert(text@ =~= old(text)@ + decimal(n as nat));
}

/// The digits of a number are digits, and at least one.
pub proof fn lemma_decimal_digits(n: nat)
    ensures
        decimal(n).len() >= 1,
        forall|i: int|
            0 <= i < decimal(n).len() ==> '0' as int <= #[trigger] decimal(n)[i] as int <= '9' as int,
    decreases n,
{
    if n >= 10 {
        lemma_decimal_digits(n / 10);
    }
}

/// Different numbers have different digits.
pub proof fn law_decimal_tells_numbers_apart(a: nat, b: nat)
    requires
        decimal(a) == decimal(b),
    ensures
        a == b,
    decreases a,
{
    lemma_decimal_digits(a / 10);
    lemma_decimal_digits(b / 10);
    assert(decimal(a).last() == decimal(b).last());
    assert(decimal(a).len() == decimal(b).len());
    assert(decimal(a).last() == digit((a % 10) as int));
    assert(decimal(b).last() == digit((b % 10) as int));
    assert(digit((a % 10) as int) == digit((b % 10) as int));
    if a >= 10 && b >= 10 {
        assert(decimal(a).drop_last() =~= decimal(a / 10));
        assert(decimal(b).drop_last() =~= decimal(b / 10));
        law_decimal_tells_numbers_apart(a / 10, b / 10);
    }
}

/// Two texts split at the first occurrence of a separator are equal only if their
/// parts are.
pub proof fn lemma_split_at_first(
    left: Seq<char>,
    left_rest: Seq<char>,
    right: Seq<char>,
    right_rest: Seq<char>,
    separator: char,
)
    requires
        left.push(separator) + left_rest == right.push(separator) + right_rest,
        !left.contains(separator),
        !right.contains(separator),
    ensures
        left == right,
        left_rest == right_rest,
{
    let whole = left.push(separator) + left_rest;
    let other = right.push(separator) + right_rest;
    if left.len() < right.len() {
        assert(whole[left.len() as int] == separator);
        assert(other[left.len() as int] == right[left.len() as int]);
        assert(right.contains(separator));
    }
    if right.len() < left.len() {
        assert(other[right.len() as int] == separator);
        assert(whole[right.len() as int] == left[right.len() as int]);
        assert(left.contains(separator));
    }
    assert forall|i: int| 0 <= i < left.len() implies left[i] == right[i] by {
        assert(whole[i] == left[i]);
        assert(other[i] == right[i]);
    }
    assert(left =~= right);
    assert(whole.len() == left.len() + 1 + left_rest.len());
    assert(other.len() == right.len() + 1 + right_rest.len());
    assert forall|i: int| 0 <= i < left_rest.len() implies left_rest[i] == right_rest[i] by {
        assert(whole[left.len() + 1 + i] == left_rest[i]);
        assert(other[left.len() + 1 + i] == right_rest[i]);
    }
    assert(left_rest =~= right_rest);
}

/// Whether Unicode calls the character white space.
pub open spec fn is_white_space(c: char) -> bool {
    let code = c as int;
    ||| 0x9 <= code <= 0xd
    ||| code == 0x20
    ||| code == 0x85
    ||| code == 0xa0
    ||| code == 0x1680
    ||| 0x2000 <= code <= 0x200a
    ||| code == 0x2028
    ||| code == 0x2029
    ||| code == 0x202f
    ||| code == 0x205f
    ||| code == 0x3000
}

/// Whether Unicode calls the character white space.
pub fn white_space(c: char) -> (r: bool)
    ensures
        r == is_white_space(c),
{
    let code: u32 = c as u32;
    (0x9 <= code && code <= 0xd) || code == 0x20 || code == 0x85 || code == 0xa0 || code == 0x1680
        || (0x2000 <= code && code <= 0x200a) || code == 0x2028 || code == 0x2029 || code == 0x202f
        || code == 0x205f || code == 0x3000
}

pub open spec fn trimmed_start(text: Seq<char>) -> Seq<char>
    decreases text.len(),
{
    if text.len() > 0 && is_white_space(text.first()) {
        trimmed_start(text.drop_first())
    } else {
        text
    }
}

pub open spec fn trimmed_end(text: Seq<char>) -> Seq<char>
    decreases text.len(),
{
    if text.len() > 0 && is_white_space(text.last()) {
        trimmed_end(text.drop_last())
    } else {
        text
    }
}

/// The text without the white space at its ends.
pub open spec fn trimmed(text: Seq<char>) -> Seq<char> {
    trimmed_end(trimmed_start(text))
}

/// The parts of a text between separators.
pub open spec fn split(text: Seq<char>, separator: char) -> Seq<Seq<char>>
    decreases text.len(),
{
    if text.len() == 0 {
        seq![Seq::empty()]
    } else {
        let parts = split(text.drop_last(), separator);
        if text.last() == separator {
            parts.push(Seq::empty())
        } else {
            parts.drop_last().push(parts.last().push(text.last()))
        }
    }
}

/// The parts that are not blank, trimmed and encoded.
pub open spec fn trimmed_parts(parts: Seq<Seq<char>>) -> Seq<Seq<u8>>
    decreases parts.len(),
{
    if parts.len() == 0 {
        Seq::empty()
    } else {
        let earlier = trimmed_parts(parts.drop_last());
        let part = trimmed(parts.last());
        if part.len() == 0 {
            earlier
        } else {
            earlier.push(encode_utf8(part))
        }
    }
}

/// The contents of a vector of byte strings.
pub open spec fn contents(strings: Seq<Vec<u8>>) -> Seq<Seq<u8>> {
    strings.map_values(|string: Vec<u8>| string@)
}

fn characters(text: &str) -> (r: Vec<char>)
    ensures
        r@ == text@,
{
    let mut r: Vec<char> = Vec::new();
    for c in it: text.chars()
        invariant
            it.seq() == text@,
            r@ == text@.take(it.index() as int),
    {
        assert(text@.take(it.index() as int).push(c) =~= text@.take(it.index() + 1));
        r.push(c);
    }
    assert(text@.take(text@.len() as int) =~= text@);
    r
}

/// Where the characters from `from` up to, not including, `to` begin and end
/// without the white space at their ends.
fn trimmed_range(characters: &Vec<char>, from: usize, to: usize) -> (r: (usize, usize))
    requires
        from <= to <= characters.len(),
    ensures
        from <= r.0 <= r.1 <= to,
        characters@.subrange(r.0 as int, r.1 as int) == trimmed(
            characters@.subrange(from as int, to as int),
        ),
{
    let mut start: usize = from;
    while start < to && white_space(characters[start])
        invariant
            from <= start <= to <= characters.len(),
            trimmed_start(characters@.subrange(from as int, to as int)) == trimmed_start(
                characters@.subrange(start as int, to as int),
            ),
        decreases to - start,
    {
        assert(characters@.subrange(start as int, to as int).drop_first()
            =~= characters@.subrange(start + 1, to as int));
        start = start + 1;
    }
    assert(trimmed_start(characters@.subrange(start as int, to as int)) == characters@.subrange(
        start as int,
        to as int,
    ));
    let mut end: usize = to;
    while start < end && white_space(characters[end - 1])
        invariant
            start <= end <= to <= characters.len(),
            trimmed_end(characters@.subrange(start as int, to as int)) == trimmed_end(
                characters@.subrange(start as int, end as int),
            ),
        decreases end,
    {
        assert(characters@.subrange(start as int, end as int).drop_last()
            =~= characters@.subrange(start as int, end - 1));
        end = end - 1;
    }
    assert(trimmed_end(characters@.subrange(start as int, end as int)) == characters@.subrange(
        start as int,
        end as int,
    ));
    (start, end)
}

/// Appends the characters from `from` up to, not including, `to`, trimmed and
/// encoded, unless they are blank.
fn push_trimmed(
    parts: &mut Vec<Vec<u8>>,
    text: &str,
    characters: &Vec<char>,
    from: usize,
    to: usize,
    Ghost(done): Ghost<Seq<Seq<char>>>,
)
    requires
        characters@ == text@,
        from <= to <= characters.len(),
        contents(old(parts)@) == trimmed_parts(done),
    ensures
        contents(final(parts)@) == trimmed_parts(
            done.push(characters@.subrange(from as int, to as int)),
        ),
{
    let range = trimmed_range(characters, from, to);
    let ghost part = characters@.subrange(from as int, to as int);
    assert(done.push(part).drop_last() =~= done);
    if range.0 < range.1 {
        let encoded = text.substring_char(range.0, range.1).as_bytes_vec();
        parts.push(encoded);
        assert(contents(parts@) =~= contents(old(parts)@).push(encoded@));
    }
}

/// The parts between commas that are not blank, trimmed and encoded.
pub fn comma_separated(text: &str) -> (parts: Vec<Vec<u8>>)
    ensures
        contents(parts@) == trimmed_parts(split(text@, ',')),
{
    let characters = characters(text);
    let mut parts: Vec<Vec<u8>> = Vec::new();
    let mut start: usize = 0;
    let mut i: usize = 0;
    let ghost mut done: Seq<Seq<char>> = Seq::empty();
    proof {
        assert(characters@.take(0) =~= Seq::empty());
        assert(characters@.subrange(0, 0) =~= Seq::empty());
        assert(split(characters@.take(0), ',') =~= done.push(characters@.subrange(0, 0)));
        assert(contents(parts@) =~= Seq::empty());
    }
    while i < characters.len()
        invariant
            characters@ == text@,
            start <= i <= characters.len(),
            split(characters@.take(i as int), ',') == done.push(
                characters@.subrange(start as int, i as int),
            ),
            contents(parts@) == trimmed_parts(done),
        decreases characters.len() - i,
    {
        let ghost part = characters@.subrange(start as int, i as int);
        proof {
            assert(characters@.take(i + 1).drop_last() =~= characters@.take(i as int));
            assert(done.push(part).drop_last() =~= done);
            assert(characters@.subrange(start as int, i + 1) =~= part.push(characters@[i as int]));
            assert(characters@.subrange(i + 1, i + 1) =~= Seq::empty());
        }
        if characters[i] == ',' {
            push_trimmed(&mut parts, text, &characters, start, i, Ghost(done));
            proof {
                done = done.push(part);
            }
            start = i + 1;
        }
        i = i + 1;
    }
    push_trimmed(&mut parts, text, &characters, start, i, Ghost(done));
    assert(characters@.take(i as int) =~= characters@);
    parts
}

/// A surrogate begins the bytes, encoded as a character would be.
pub open spec fn begins_with_surrogate(bytes: Seq<u8>) -> bool {
    &&& bytes.len() >= 3
    &&& bytes[0] == 0xed
    &&& 0xa0 <= bytes[1] <= 0xbf
    &&& 0x80 <= bytes[2] <= 0xbf
}

/// The bytes with the replacement character in place of each encoded surrogate.
pub open spec fn surrogates_replaced(bytes: Seq<u8>) -> Seq<u8>
    decreases bytes.len(),
{
    if bytes.len() == 0 {
        Seq::empty()
    } else if begins_with_surrogate(bytes) {
        seq![0xefu8, 0xbf, 0xbd] + surrogates_replaced(bytes.skip(3))
    } else {
        seq![bytes[0]] + surrogates_replaced(bytes.skip(1))
    }
}

/// The bytes with the replacement character in place of each encoded surrogate.
pub fn replace_surrogates(bytes: &Vec<u8>) -> (r: Vec<u8>)
    ensures
        r@ == surrogates_replaced(bytes@),
{
    let mut r: Vec<u8> = Vec::with_capacity(bytes.len());
    let mut i: usize = 0;
    assert(bytes@.skip(0) =~= bytes@);
    while i < bytes.len()
        invariant
            i <= bytes.len(),
            r@ + surrogates_replaced(bytes@.skip(i as int)) == surrogates_replaced(bytes@),
        decreases bytes.len() - i,
    {
        let ghost before = r@;
        let ghost rest = bytes@.skip(i as int);
        if bytes.len() - i >= 3 && bytes[i] == 0xed && 0xa0 <= bytes[i + 1] && bytes[i + 1] <= 0xbf
            && 0x80 <= bytes[i + 2] && bytes[i + 2] <= 0xbf {
            assert(begins_with_surrogate(rest));
            assert(rest.skip(3) =~= bytes@.skip(i + 3));
            r.push(0xef);
            r.push(0xbf);
            r.push(0xbd);
            assert(r@ + surrogates_replaced(bytes@.skip(i + 3)) =~= before + surrogates_replaced(
                rest,
            ));
            i = i + 3;
        } else {
            assert(!begins_with_surrogate(rest));
            assert(rest.skip(1) =~= bytes@.skip(i + 1));
            r.push(bytes[i]);
            assert(r@ + surrogates_replaced(bytes@.skip(i + 1)) =~= before + surrogates_replaced(
                rest,
            ));
            i = i + 1;
        }
    }
    assert(r@ + surrogates_replaced(bytes@.skip(i as int)) =~= r@);
    r
}

/// Valid UTF-8 has no surrogates in it, so that nothing is replaced.
pub proof fn law_valid_text_has_no_surrogates(bytes: Seq<u8>)
    requires
        valid_utf8(bytes),
    ensures
        surrogates_replaced(bytes) == bytes,
    decreases bytes.len(),
{
    if bytes.len() > 0 {
        let rest = pop_first_scalar(bytes);
        law_valid_text_has_no_surrogates(rest);
        if begins_with_surrogate(bytes) {
            let (a, b, c) = (bytes[0], bytes[1], bytes[2]);
            assert(0xd800 <= (((a & 0x0f) as u32) << 12) | (((b & 0x3f) as u32) << 6) | ((c
                & 0x3f) as u32) && (((a & 0x0f) as u32) << 12) | (((b & 0x3f) as u32) << 6) | ((c
                & 0x3f) as u32) <= 0xdfff) by (bit_vector)
                requires
                    a == 0xed,
                    0xa0 <= b <= 0xbf,
                    0x80 <= c <= 0xbf,
            ;
            assert(codepoint_width_3(a, b, c) == (leading_bits_width_3(a) << 12) | (
            continuation_bits(b) << 6) | continuation_bits(c));
        }
        let n = bytes.len() - rest.len();
        assert(rest =~= bytes.skip(n));
        lemma_surrogates_after(bytes, n);
        assert(bytes.take(n) + rest =~= bytes);
    }
}

/// Where no surrogate begins among the first bytes, they stay.
proof fn lemma_surrogates_after(bytes: Seq<u8>, n: int)
    requires
        1 <= n <= bytes.len(),
        !begins_with_surrogate(bytes),
        forall|i: int| 1 <= i < n ==> #[trigger] bytes[i] != 0xed,
    ensures
        surrogates_replaced(bytes) == bytes.take(n) + surrogates_replaced(bytes.skip(n)),
    decreases n,
{
    let rest = bytes.skip(1);
    if n == 1 {
        assert(bytes.take(1) =~= seq![bytes[0]]);
    } else {
        assert(rest[0] == bytes[1]);
        assert forall|i: int| 1 <= i < n - 1 implies #[trigger] rest[i] != 0xed by {
            assert(rest[i] == bytes[i + 1]);
        }
        lemma_surrogates_after(rest, n - 1);
        assert(rest.skip(n - 1) =~= bytes.skip(n));
        assert(seq![bytes[0]] + rest.take(n - 1) =~= bytes.take(n));
        assert(surrogates_replaced(bytes) =~= bytes.take(n) + surrogates_replaced(bytes.skip(n)));
    }
}

/// The number that decimal digits write.
pub open spec fn number_written(digits: Seq<char>) -> int
    decreases digits.len(),
{
    if digits.len() == 0 {
        0
    } else {
        10 * number_written(digits.drop_last()) + (digits.last() as int - '0' as int)
    }
}

/// The decimal digits of a number are digits that write it, without a zero in front.
pub proof fn law_decimal_writes_the_number(n: nat)
    ensures
        number_written(decimal(n)) == n,
        decimal(n).len() >= 1,
        decimal(n)[0] == '0' ==> n == 0 && decimal(n).len() == 1,
        forall|i: int|
            0 <= i < decimal(n).len() ==> '0' as int <= #[trigger] decimal(n)[i] as int <= '9' as int,
    decreases n,
{
    lemma_decimal_digits(n);
    if n >= 10 {
        law_decimal_writes_the_number(n / 10);
        assert(decimal(n).drop_last() =~= decimal(n / 10));
        assert(decimal(n).last() == digit((n % 10) as int));
        assert(decimal(n)[0] == decimal(n / 10)[0]);
    } else {
        assert(decimal(n) =~= seq![digit(n as int)]);
        assert(decimal(n).drop_last() =~= Seq::empty());
        assert(number_written(Seq::empty()) == 0);
    }
}

/// White space are the tab, the line feed, the vertical tab, the form feed, the carriage
/// return, the next line, the line and paragraph separators, and the spaces of Unicode.
pub proof fn law_characters_that_are_white_space(c: char)
    ensures
        is_white_space(c) <==> c == '\u{9}' || c == '\u{a}' || c == '\u{b}' || c == '\u{c}' || c
            == '\u{d}' || c == '\u{20}' || c == '\u{85}' || c == '\u{a0}' || c == '\u{1680}' || c
            == '\u{2000}' || c == '\u{2001}' || c == '\u{2002}' || c == '\u{2003}' || c
            == '\u{2004}' || c == '\u{2005}' || c == '\u{2006}' || c == '\u{2007}' || c
            == '\u{2008}' || c == '\u{2009}' || c == '\u{200a}' || c == '\u{2028}' || c
            == '\u{2029}' || c == '\u{202f}' || c == '\u{205f}' || c == '\u{3000}',
{
}

/// A text is trimmed by the white space at its ends, all of it and nothing else: what is
/// left begins at `r.0` and ends before `r.1`.
pub proof fn law_trimming_takes_the_white_space_at_the_ends(text: Seq<char>) -> (r: (int, int))
    ensures
        0 <= r.0 <= r.1 <= text.len(),
        trimmed(text) == text.subrange(r.0, r.1),
        forall|i: int| 0 <= i < r.0 ==> is_white_space(#[trigger] text[i]),
        forall|i: int| r.1 <= i < text.len() ==> is_white_space(#[trigger] text[i]),
        r.0 < r.1 ==> !is_white_space(text[r.0]) && !is_white_space(text[r.1 - 1]),
{
    let from = lemma_trimmed_start(text);
    let rest = text.skip(from);
    let to = lemma_trimmed_end(rest);
    assert(rest.take(to) =~= text.subrange(from, from + to));
    if to > 0 {
        assert(rest[0] == text[from]);
        assert(rest[to - 1] == text[from + to - 1]);
    }
    assert forall|i: int| from + to <= i < text.len() implies is_white_space(
        #[trigger] text[i],
    ) by {
        assert(rest[i - from] == text[i]);
    }
    (from, from + to)
}

proof fn lemma_trimmed_start(text: Seq<char>) -> (from: int)
    ensures
        0 <= from <= text.len(),
        trimmed_start(text) == text.skip(from),
        forall|i: int| 0 <= i < from ==> is_white_space(#[trigger] text[i]),
        from < text.len() ==> !is_white_space(text[from]),
    decreases text.len(),
{
    if text.len() > 0 && is_white_space(text.first()) {
        let rest = text.drop_first();
        let from = lemma_trimmed_start(rest);
        assert(rest.skip(from) =~= text.skip(from + 1));
        assert forall|i: int| 0 <= i < from + 1 implies is_white_space(#[trigger] text[i]) by {
            if i > 0 {
                assert(rest[i - 1] == text[i]);
            }
        }
        from + 1
    } else {
        assert(text.skip(0) =~= text);
        0
    }
}

proof fn lemma_trimmed_end(text: Seq<char>) -> (to: int)
    ensures
        0 <= to <= text.len(),
        trimmed_end(text) == text.take(to),
        forall|i: int| to <= i < text.len() ==> is_white_space(#[trigger] text[i]),
        to > 0 ==> !is_white_space(text[to - 1]),
    decreases text.len(),
{
    if text.len() > 0 && is_white_space(text.last()) {
        let rest = text.drop_last();
        let to = lemma_trimmed_end(rest);
        assert(rest.take(to) =~= text.take(to));
        assert forall|i: int| to <= i < text.len() implies is_white_space(#[trigger] text[i]) by {
            if i < rest.len() {
                assert(rest[i] == text[i]);
            }
        }
        to
    } else {
        assert(text.take(text.len() as int) =~= text);
        text.len() as int
    }
}

/// The parts with a separator between any two of them.
pub open spec fn with_separators(parts: Seq<Seq<char>>, separator: char) -> Seq<char>
    decreases parts.len(),
{
    if parts.len() == 0 {
        Seq::empty()
    } else if parts.len() == 1 {
        parts[0]
    } else {
        with_separators(parts.drop_last(), separator).push(separator) + parts.last()
    }
}

/// A text is split at every separator: the parts hold none, and with separators between
/// them they are the text again.
pub proof fn law_parts_make_up_the_text(text: Seq<char>, separator: char)
    ensures
        split(text, separator).len() >= 1,
        with_separators(split(text, separator), separator) == text,
        forall|k: int|
            0 <= k < split(text, separator).len() ==> !(#[trigger] split(text, separator)[k]).contains(
                separator,
            ),
    decreases text.len(),
{
    let parts = split(text, separator);
    if text.len() == 0 {
        assert(parts[0] =~= Seq::empty());
        assert(text =~= Seq::empty());
    } else {
        let earlier = split(text.drop_last(), separator);
        law_parts_make_up_the_text(text.drop_last(), separator);
        assert(text =~= text.drop_last().push(text.last()));
        if text.last() == separator {
            assert(parts.drop_last() =~= earlier);
            assert(with_separators(parts, separator) =~= text);
            assert forall|k: int| 0 <= k < parts.len() implies !(#[trigger] parts[k]).contains(
                separator,
            ) by {
                if k < earlier.len() {
                    assert(parts[k] == earlier[k]);
                }
            }
        } else {
            assert(parts.drop_last() =~= earlier.drop_last());
            let longer = earlier.last().push(text.last());
            assert(parts.last() == longer);
            if earlier.len() == 1 {
                assert(parts[0] == longer);
            }
            assert(with_separators(parts, separator) =~= text);
            assert forall|k: int| 0 <= k < parts.len() implies !(#[trigger] parts[k]).contains(
                separator,
            ) by {
                if k < earlier.len() - 1 {
                    assert(parts[k] == earlier[k]);
                } else {
                    assert(!earlier[earlier.len() - 1].contains(separator));
                    if longer.contains(separator) {
                        let i = choose|i: int| 0 <= i < longer.len() && longer[i] == separator;
                        assert(earlier.last()[i] == separator);
                    }
                }
            }
        }
    }
}

/// The parts that are kept are those with more than white space in them, all of them and
/// in their order, each trimmed and encoded.
pub proof fn law_parts_that_are_not_blank_are_kept(parts: Seq<Seq<char>>) -> (at: Seq<int>)
    ensures
        is_selection(
            parts.len() as int,
            |i: int| exists|j: int| 0 <= j < parts[i].len() && !is_white_space(#[trigger] parts[i][j]),
            at,
        ),
        trimmed_parts(parts).len() == at.len(),
        forall|k: int|
            0 <= k < at.len() ==> #[trigger] trimmed_parts(parts)[k] == encode_utf8(
                trimmed(parts[at[k]]),
            ),
    decreases parts.len(),
{
    let keep = |i: int|
        exists|j: int| 0 <= j < parts[i].len() && !is_white_space(#[trigger] parts[i][j]);
    if parts.len() == 0 {
        Seq::empty()
    } else {
        let fewer = parts.drop_last();
        let before = |i: int|
            exists|j: int| 0 <= j < fewer[i].len() && !is_white_space(#[trigger] fewer[i][j]);
        let n = parts.len() - 1;
        let earlier = law_parts_that_are_not_blank_are_kept(fewer);
        assert(is_selection(n, before, earlier));
        assert forall|i: int| 0 <= i < n implies #[trigger] before(i) == keep(i) by {
            assert(fewer[i] == parts[i]);
        }
        let at = lemma_selection_grows(n, before, keep, earlier);
        let part = parts.last();
        assert(parts[n] == part);
        let r = law_trimming_takes_the_white_space_at_the_ends(part);
        assert(keep(n) == (trimmed(part).len() > 0)) by {
            if r.0 < r.1 {
                assert(!is_white_space(parts[n][r.0]));
            }
        }
        assert forall|k: int| 0 <= k < at.len() implies #[trigger] trimmed_parts(parts)[k]
            == encode_utf8(trimmed(parts[at[k]])) by {
            if k < earlier.len() {
                assert(trimmed_parts(parts)[k] == trimmed_parts(fewer)[k]);
                assert(at[k] == earlier[k]);
                assert(fewer[earlier[k]] == parts[at[k]]);
            }
        }
        at
    }
}

/// The contents of byte strings are those of each, in their order.
pub proof fn law_contents_are_in_order(strings: Seq<Vec<u8>>)
    ensures
        contents(strings).len() == strings.len(),
        forall|i: int| 0 <= i < strings.len() ==> #[trigger] contents(strings)[i] == strings[i]@,
{
}

/// Three bytes from `p` on are an encoded surrogate.
pub open spec fn is_surrogate_at(bytes: Seq<u8>, p: int) -> bool {
    &&& 0 <= p
    &&& p + 2 < bytes.len()
    &&& bytes[p] == 0xed
    &&& 0xa0 <= bytes[p + 1] <= 0xbf
    &&& 0x80 <= bytes[p + 2] <= 0xbf
}

/// The three bytes of every encoded surrogate become those of the replacement character,
/// and all other bytes stay as and where they are.
pub proof fn law_only_surrogates_are_replaced(bytes: Seq<u8>)
    ensures
        surrogates_replaced(bytes).len() == bytes.len(),
        forall|i: int|
            0 <= i < bytes.len() ==> #[trigger] surrogates_replaced(bytes)[i] == if is_surrogate_at(
                bytes,
                i,
            ) {
                0xefu8
            } else if is_surrogate_at(bytes, i - 1) {
                0xbf
            } else if is_surrogate_at(bytes, i - 2) {
                0xbd
            } else {
                bytes[i]
            },
    decreases bytes.len(),
{
    let replaced = surrogates_replaced(bytes);
    if bytes.len() == 0 {
    } else {
        let skipped: int = if begins_with_surrogate(bytes) {
            3
        } else {
            1
        };
        let rest = bytes.skip(skipped);
        law_only_surrogates_are_replaced(rest);
        assert(begins_with_surrogate(bytes) == is_surrogate_at(bytes, 0));
        assert forall|i: int| 0 <= i < bytes.len() implies #[trigger] replaced[i]
            == if is_surrogate_at(bytes, i) {
            0xefu8
        } else if is_surrogate_at(bytes, i - 1) {
            0xbf
        } else if is_surrogate_at(bytes, i - 2) {
            0xbd
        } else {
            bytes[i]
        } by {
            if i >= skipped {
                let j = i - skipped;
                assert(replaced[i] == surrogates_replaced(rest)[j]);
                assert(rest[j] == bytes[i]);
                assert(is_surrogate_at(rest, j) == is_surrogate_at(bytes, i));
                if j >= 1 {
                    assert(is_surrogate_at(rest, j - 1) == is_surrogate_at(bytes, i - 1));
                }
                if j >= 2 {
                    assert(is_surrogate_at(rest, j - 2) == is_surrogate_at(bytes, i - 2));
                }
            }
        }
    }
}

} // verus!
