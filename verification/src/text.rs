//! Text helpers: cutting at a character, case folding, decimal port numbers and
//! substring search.

use vstd::prelude::*;

verus! {

/// The part of `text` before the first `mark`; all of it when there is none.
pub open spec fn before(text: Seq<char>, mark: char) -> Seq<char>
    decreases text.len(),
{
    if text.len() == 0 || text[0] == mark {
        Seq::empty()
    } else {
        seq![text[0]] + before(text.skip(1), mark)
    }
}

/// The position of the last `mark` in `text`.
pub open spec fn last_position(text: Seq<char>, mark: char) -> Option<int>
    decreases text.len(),
{
    if text.len() == 0 {
        None
    } else if text.last() == mark {
        Some(text.len() - 1)
    } else {
        last_position(text.drop_last(), mark)
    }
}

/// Whether `part` occurs in `text` as a run of adjacent characters.
pub open spec fn has_part(text: Seq<char>, part: Seq<char>) -> bool {
    exists|i: int|
        0 <= i <= text.len() - part.len() && #[trigger] text.subrange(i, i + part.len()) == part
}

/// `c` in lower case when it is an ASCII letter, else `c` itself.
pub open spec fn ascii_lower(c: char) -> char {
    if 'A' <= c <= 'Z' {
        ((c as u32) + 0x20) as char
    } else {
        c
    }
}

pub open spec fn is_digit(c: char) -> bool {
    '0' <= c <= '9'
}

/// The number that a run of decimal digits writes.
pub open spec fn digits_value(digits: Seq<char>) -> nat
    decreases digits.len(),
{
    if digits.len() == 0 {
        0
    } else {
        10 * digits_value(digits.drop_last()) + ((digits.last() as u32) - ('0' as u32)) as nat
    }
}

/// `text` without a leading plus sign.
pub open spec fn unsigned(text: Seq<char>) -> Seq<char> {
    if text.len() > 0 && text[0] == '+' {
        text.skip(1)
    } else {
        text
    }
}

/// The port that `text` writes: an optional plus sign, then one or more decimal
/// digits whose value fits in 16 bits.
pub open spec fn port_number(text: Seq<char>) -> Option<u16> {
    let digits = unsigned(text);
    if digits.len() > 0 && (forall|i: int|
        0 <= i < digits.len() ==> is_digit(#[trigger] digits[i])) && digits_value(digits) <= 0xffff {
        Some(digits_value(digits) as u16)
    } else {
        None
    }
}

/// `text` with its ASCII letters in lower case.
pub open spec fn ascii_lowered(text: Seq<char>) -> Seq<char> {
    text.map_values(|c: char| ascii_lower(c))
}

/// Whether two texts differ in the case of ASCII letters at most.
pub open spec fn same_up_to_case(a: Seq<char>, b: Seq<char>) -> bool {
    ascii_lowered(a) == ascii_lowered(b)
}

/// What `str::to_lowercase` makes of a text with characters beyond ASCII, whose ASCII
/// letters are in lower case already.
pub uninterp spec fn unicode_lowercase(text: Seq<char>) -> Seq<char>;

/// `text` in lower case. In a text of ASCII characters this concerns the letters `A` to
/// `Z` alone.
pub open spec fn lowercase(text: Seq<char>) -> Seq<char> {
    if vstd::utf8::is_ascii_chars(text) {
        ascii_lowered(text)
    } else {
        unicode_lowercase(ascii_lowered(text))
    }
}

/// `str::to_lowercase`: in a text of ASCII characters it changes the letters `A` to `Z`,
/// to `a` to `z`, and nothing else. Beyond ASCII the result depends on the text alone, and
/// not on the case of its ASCII letters.
pub assume_specification[ str::to_lowercase ](s: &str) -> (result: String)
    ensures
        vstd::utf8::is_ascii_chars(s@) ==> result@ == ascii_lowered(s@),
        !vstd::utf8::is_ascii_chars(s@) ==> result@ == unicode_lowercase(ascii_lowered(s@)),
;

/// The error of `std::str::from_utf8`.
#[verifier::external_type_specification]
#[verifier::external_body]
pub struct ExUtf8Error(std::str::Utf8Error);

/// `std::str::from_utf8`: succeeds on valid UTF-8 and only there, with the text whose
/// encoding the bytes are.
pub assume_specification[ std::str::from_utf8 ](v: &[u8]) -> (result: Result<
    &str,
    std::str::Utf8Error,
>)
    ensures
        match result {
            Ok(text) => vstd::utf8::valid_utf8(v@) && vstd::utf8::encode_utf8(text@) == v@,
            Err(_) => !vstd::utf8::valid_utf8(v@),
        },
;

/// The text that `bytes` encode in UTF-8, if they are valid.
pub fn utf8_text(bytes: &[u8]) -> (result: Option<&str>)
    ensures
        match result {
            Some(text) => vstd::utf8::valid_utf8(bytes@) && text@ == vstd::utf8::decode_utf8(
                bytes@,
            ),
            None => !vstd::utf8::valid_utf8(bytes@),
        },
{
    match std::str::from_utf8(bytes) {
        Ok(text) => {
            proof {
                vstd::utf8::encode_utf8_decode_utf8(text@);
            }
            Some(text)
        },
        Err(_) => None,
    }
}

/// `before` counted out by an index.
pub proof fn lemma_before_is_take(text: Seq<char>, mark: char, n: int)
    requires
        0 <= n <= text.len(),
        forall|i: int| 0 <= i < n ==> text[i] != mark,
        n < text.len() ==> text[n] == mark,
    ensures
        before(text, mark) == text.take(n),
    decreases n,
{
    if n > 0 {
        let rest = text.skip(1);
        assert forall|i: int| 0 <= i < n - 1 implies rest[i] != mark by {
            assert(rest[i] == text[i + 1]);
        }
        lemma_before_is_take(rest, mark, n - 1);
        assert(seq![text[0]] + rest.take(n - 1) =~= text.take(n));
    } else {
        assert(text.take(0) =~= Seq::<char>::empty());
    }
}

/// The part of `text` before the first `mark`.
pub fn cut_before(text: &str, mark: char) -> (result: &str)
    ensures
        result@ == before(text@, mark),
{
    let total: usize = text.unicode_len();
    let mut chars = text.chars();
    let mut n: usize = 0;
    while n < total
        invariant_except_break
            vstd::std_specs::iter::IteratorSpec::remaining(&chars) == text@.skip(n as int),
        invariant
            n <= total,
            total == text@.len(),
            forall|i: int| 0 <= i < n ==> text@[i] != mark,
        ensures
            n < total ==> text@[n as int] == mark,
        decreases total - n,
    {
        if let Some(c) = chars.next() {
            if c == mark {
                break;
            }
        }
        n = n + 1;
        assert(text@.skip(n - 1).drop_first() =~= text@.skip(n as int));
    }
    proof {
        lemma_before_is_take(text@, mark, n as int);
        assert(text@.subrange(0, n as int) =~= text@.take(n as int));
    }
    text.substring_char(0, n)
}

/// `last_position` told by an index.
pub proof fn lemma_last_position(text: Seq<char>, mark: char, at: int)
    requires
        0 <= at < text.len(),
        text[at] == mark,
        forall|i: int| at < i < text.len() ==> text[i] != mark,
    ensures
        last_position(text, mark) == Some(at),
    decreases text.len(),
{
    if at < text.len() - 1 {
        lemma_last_position(text.drop_last(), mark, at);
    }
}

pub proof fn lemma_no_last_position(text: Seq<char>, mark: char)
    requires
        forall|i: int| 0 <= i < text.len() ==> text[i] != mark,
    ensures
        last_position(text, mark) is None,
    decreases text.len(),
{
    if text.len() > 0 {
        lemma_no_last_position(text.drop_last(), mark);
    }
}

/// The position of the last `mark`, counted in characters.
pub fn find_last(text: &str, mark: char) -> (result: Option<usize>)
    ensures
        match result {
            Some(at) => last_position(text@, mark) == Some(at as int) && at < text@.len(),
            None => last_position(text@, mark) is None,
        },
{
    let total: usize = text.unicode_len();
    let mut chars = text.chars();
    let mut found: Option<usize> = None;
    let mut n: usize = 0;
    while n < total
        invariant
            n <= total,
            total == text@.len(),
            vstd::std_specs::iter::IteratorSpec::remaining(&chars) == text@.skip(n as int),
            match found {
                Some(at) => at < n && text@[at as int] == mark && forall|i: int|
                    at < i < n ==> text@[i] != mark,
                None => forall|i: int| 0 <= i < n ==> text@[i] != mark,
            },
        decreases total - n,
    {
        if let Some(c) = chars.next() {
            if c == mark {
                found = Some(n);
            }
        }
        n = n + 1;
        assert(text@.skip(n - 1).drop_first() =~= text@.skip(n as int));
    }
    proof {
        match found {
            Some(at) => lemma_last_position(text@, mark, at as int),
            None => lemma_no_last_position(text@, mark),
        }
    }
    found
}

/// Reads a port number: an optional plus sign, then decimal digits alone.
pub fn parse_port(text: &str) -> (result: Option<u16>)
    ensures
        result == port_number(text@),
{
    let mut chars = text.chars();
    let mut first: bool = true;
    let mut any: bool = false;
    let mut too_big: bool = false;
    let mut value: u32 = 0;
    let ghost digits = unsigned(text@);
    let ghost start: int = text@.len() - digits.len();
    let ghost mut n: int = 0;
    assert(text@.skip(0) =~= text@);
    loop
        invariant
            0 <= n <= text@.len(),
            vstd::std_specs::iter::IteratorSpec::remaining(&chars) == text@.skip(n),
            digits == unsigned(text@),
            start == text@.len() - digits.len(),
            first == (n == 0),
            any == (n > start),
            forall|i: int| 0 <= i < n - start ==> is_digit(#[trigger] digits[i]),
            too_big ==> n >= start && digits_value(digits.take(n - start)) > 0xffff,
            !too_big && n >= start ==> value == digits_value(digits.take(n - start)),
            value <= 0xffff,
            n < start ==> !too_big && value == 0,
        decreases text@.len() - n,
    {
        match chars.next() {
            None => {
                assert(n == text@.len());
                assert(digits.take(n - start) =~= digits);
                if !any || too_big {
                    return None;
                }
                return Some(value as u16);
            },
            Some(c) => {
                let ghost seen = n - start;
                assert(c == text@[n]);
                assert(text@.skip(n).drop_first() =~= text@.skip(n + 1));
                if first && c == '+' {
                    assert(digits.take(0) =~= Seq::<char>::empty());
                } else {
                    assert(c == digits[seen]);
                    if !('0' <= c && c <= '9') {
                        return None;
                    }
                    any = true;
                    assert(digits.take(seen + 1).drop_last() =~= digits.take(seen));
                    if !too_big {
                        value = value * 10 + (c as u32 - '0' as u32);
                        if value > 0xffff {
                            too_big = true;
                            value = 0;
                        }
                    }
                }
                first = false;
                proof {
                    n = n + 1;
                }
            },
        }
    }
}

/// The characters of `text`.
pub fn chars_of(text: &str) -> (result: Vec<char>)
    ensures
        result@ == text@,
{
    let mut chars = text.chars();
    let mut result: Vec<char> = Vec::new();
    assert(text@.skip(0) =~= text@);
    loop
        invariant
            result@.len() <= text@.len(),
            result@ == text@.take(result@.len() as int),
            vstd::std_specs::iter::IteratorSpec::remaining(&chars) == text@.skip(
                result@.len() as int,
            ),
        decreases text@.len() - result@.len(),
    {
        match chars.next() {
            None => {
                assert(text@.take(result@.len() as int) =~= text@);
                return result;
            },
            Some(c) => {
                let ghost n = result@.len() as int;
                result.push(c);
                assert(result@ =~= text@.take(n + 1));
                assert(text@.skip(n).drop_first() =~= text@.skip(n + 1));
            },
        }
    }
}

/// Whether `part` occurs in `text`.
pub fn contains(text: &str, part: &str) -> (result: bool)
    ensures
        result == has_part(text@, part@),
{
    let text_chars: Vec<char> = chars_of(text);
    let part_chars: Vec<char> = chars_of(part);
    let total: usize = text_chars.len();
    if part_chars.len() > total {
        return false;
    }
    let last: usize = total - part_chars.len();
    let mut start: usize = 0;
    loop
        invariant
            start <= last,
            text_chars@ == text@,
            part_chars@ == part@,
            total == text@.len(),
            last == total - part@.len(),
            forall|i: int|
                0 <= i < start ==> #[trigger] text@.subrange(i, i + part@.len()) != part@,
        decreases last - start,
    {
        let mut same: usize = 0;
        while same < part_chars.len() && text_chars[start + same] == part_chars[same]
            invariant
                start <= last,
                same <= part@.len(),
                text_chars@ == text@,
                part_chars@ == part@,
                total == text@.len(),
                last == total - part@.len(),
                forall|k: int| 0 <= k < same ==> text@[start + k] == part@[k],
            decreases part@.len() - same,
        {
            same = same + 1;
        }
        if same == part_chars.len() {
            assert(text@.subrange(start as int, start + part@.len()) =~= part@);
            return true;
        }
        assert(text@.subrange(start as int, start + part@.len()) != part@) by {
            assert(text@.subrange(start as int, start + part@.len())[same as int] == text@[start
                + same]);
        }
        if start == last {
            return false;
        }
        start = start + 1;
    }
}

/// Cutting a text that goes on: nothing behind the first `mark` matters.
pub proof fn lemma_before_joined(text: Seq<char>, more: Seq<char>, mark: char)
    ensures
        text.contains(mark) ==> before(text + more, mark) == before(text, mark),
        !text.contains(mark) ==> before(text + more, mark) == text + before(more, mark),
        !text.contains(mark) ==> before(text, mark) == text,
    decreases text.len(),
{
    let whole = text + more;
    if text.len() == 0 {
        assert(whole =~= more);
        assert(text + before(more, mark) =~= before(more, mark));
    } else if text[0] == mark {
        assert(whole[0] == mark);
    } else {
        let rest = text.skip(1);
        lemma_before_joined(rest, more, mark);
        assert(whole.skip(1) =~= rest + more);
        if text.contains(mark) {
            let i = choose|i: int| 0 <= i < text.len() && text[i] == mark;
            assert(rest[i - 1] == mark);
        } else {
            assert forall|i: int| 0 <= i < rest.len() implies rest[i] != mark by {
                assert(rest[i] == text[i + 1]);
            }
            assert(seq![text[0]] + rest =~= text);
            assert(seq![text[0]] + (rest + before(more, mark)) =~= text + before(more, mark));
        }
    }
}

/// Whatever stands behind a mark is cut off with it.
pub proof fn law_before_drops_rest(text: Seq<char>, mark: char, rest: Seq<char>)
    ensures
        before(text + seq![mark] + rest, mark) == before(text, mark),
{
    lemma_before_joined(text, seq![mark] + rest, mark);
    assert(text + seq![mark] + rest =~= text + (seq![mark] + rest));
    assert(before(seq![mark] + rest, mark) =~= Seq::empty());
}

/// Texts that differ in the case of ASCII letters alone have the same lower case form.
pub proof fn law_lowercase_ignores_case(a: Seq<char>, b: Seq<char>)
    requires
        same_up_to_case(a, b),
    ensures
        lowercase(a) == lowercase(b),
{
    lemma_ascii_up_to_case(a, b);
    lemma_ascii_up_to_case(b, a);
}

proof fn lemma_ascii_up_to_case(a: Seq<char>, b: Seq<char>)
    requires
        same_up_to_case(a, b),
    ensures
        vstd::utf8::is_ascii_chars(a) ==> vstd::utf8::is_ascii_chars(b),
{
    lemma_same_length(a, b);
    if vstd::utf8::is_ascii_chars(a) {
        assert forall|i: int| 0 <= i < b.len() implies '\0' <= #[trigger] b[i] <= '\u{7f}' by {
            assert(ascii_lower(a[i]) == ascii_lower(b[i]));
        }
    }
}

/// The lower case form of an ASCII text is its own lower case form.
pub proof fn law_lowercase_is_stable(text: Seq<char>)
    requires
        vstd::utf8::is_ascii_chars(text),
    ensures
        lowercase(lowercase(text)) == lowercase(text),
{
    let low = lowercase(text);
    assert forall|i: int| 0 <= i < low.len() implies '\0' <= #[trigger] low[i] <= '\u{7f}' by {
        assert('\0' <= text[i] <= '\u{7f}');
    }
    assert(lowercase(low) =~= low);
}

proof fn lemma_same_length(a: Seq<char>, b: Seq<char>)
    requires
        same_up_to_case(a, b),
    ensures
        a.len() == b.len(),
        forall|i: int| 0 <= i < a.len() ==> ascii_lower(#[trigger] a[i]) == ascii_lower(b[i]),
{
    assert(ascii_lowered(a).len() == ascii_lowered(b).len());
    assert forall|i: int| 0 <= i < a.len() implies ascii_lower(#[trigger] a[i]) == ascii_lower(
        b[i],
    ) by {
        assert(ascii_lowered(a)[i] == ascii_lowered(b)[i]);
    }
}

/// Texts that differ in the case of ASCII letters alone still do so when both are cut at
/// a mark that is no letter.
pub proof fn law_before_ignores_case(a: Seq<char>, b: Seq<char>, mark: char)
    requires
        same_up_to_case(a, b),
        !('A' <= mark <= 'Z'),
        !('a' <= mark <= 'z'),
    ensures
        same_up_to_case(before(a, mark), before(b, mark)),
    decreases a.len(),
{
    lemma_same_length(a, b);
    if a.len() > 0 {
        assert(ascii_lower(a[0]) == ascii_lower(b[0]));
        assert((a[0] == mark) == (b[0] == mark));
        if a[0] != mark {
            let rest_a = a.skip(1);
            let rest_b = b.skip(1);
            assert forall|i: int| 0 <= i < rest_a.len() implies ascii_lower(#[trigger] rest_a[i])
                == ascii_lower(rest_b[i]) by {
                assert(rest_a[i] == a[i + 1]);
            }
            assert(ascii_lowered(rest_a) =~= ascii_lowered(rest_b));
            law_before_ignores_case(rest_a, rest_b, mark);
            lemma_same_length(before(rest_a, mark), before(rest_b, mark));
            assert(ascii_lowered(before(a, mark)) =~= ascii_lowered(before(b, mark)));
        }
    }
}

/// The decimal digits of `value`.
pub open spec fn decimal(value: nat) -> Seq<char>
    decreases value,
{
    let digit = ((value % 10) as u32 + '0' as u32) as char;
    if value < 10 {
        seq![digit]
    } else {
        decimal(value / 10).push(digit)
    }
}

/// What `decimal` writes are digits, of the value it was given.
pub proof fn lemma_decimal(value: nat)
    ensures
        decimal(value).len() > 0,
        forall|i: int| 0 <= i < decimal(value).len() ==> is_digit(#[trigger] decimal(value)[i]),
        digits_value(decimal(value)) == value,
    decreases value,
{
    reveal_with_fuel(digits_value, 2);
    if value >= 10 {
        lemma_decimal(value / 10);
        assert(decimal(value).drop_last() =~= decimal(value / 10));
    }
}

/// A port written in decimal is read back, with or without a plus sign.
pub proof fn law_port_read_back(port: u16)
    ensures
        port_number(decimal(port as nat)) == Some(port),
        port_number(seq!['+'] + decimal(port as nat)) == Some(port),
{
    let digits = decimal(port as nat);
    lemma_decimal(port as nat);
    assert(is_digit(digits[0]));
    assert((seq!['+'] + digits).skip(1) =~= digits);
}

/// What is cut off starts with the mark, and what is kept does not have it.
pub proof fn law_before(text: Seq<char>, mark: char)
    ensures
        before(text, mark).len() <= text.len(),
        before(text, mark) == text.take(before(text, mark).len() as int),
        !before(text, mark).contains(mark),
        before(text, mark).len() < text.len() ==> text[before(text, mark).len() as int] == mark,
    decreases text.len(),
{
    let kept = before(text, mark);
    if text.len() > 0 && text[0] != mark {
        let rest = text.skip(1);
        law_before(rest, mark);
        assert(kept =~= text.take(kept.len() as int)) by {
            assert forall|i: int| 0 <= i < kept.len() implies kept[i] == text[i] by {
                if i > 0 {
                    assert(kept[i] == before(rest, mark)[i - 1]);
                    assert(before(rest, mark)[i - 1] == rest[i - 1]);
                }
            }
        }
        assert forall|i: int| 0 <= i < kept.len() implies kept[i] != mark by {
            if i > 0 {
                assert(kept[i] == before(rest, mark)[i - 1]);
                assert(before(rest, mark).contains(before(rest, mark)[i - 1]));
            }
        }
    } else {
        assert(kept =~= text.take(0));
    }
}

/// The last position has the mark, and nothing behind it has.
pub proof fn law_last_position(text: Seq<char>, mark: char)
    ensures
        match last_position(text, mark) {
            Some(at) => 0 <= at < text.len() && text[at] == mark && !text.skip(at + 1).contains(
                mark,
            ),
            None => !text.contains(mark),
        },
    decreases text.len(),
{
    if text.len() > 0 && text.last() != mark {
        let front = text.drop_last();
        law_last_position(front, mark);
        match last_position(front, mark) {
            Some(at) => {
                let rest = text.skip(at + 1);
                assert forall|i: int| 0 <= i < rest.len() implies rest[i] != mark by {
                    if i < rest.len() - 1 {
                        assert(rest[i] == front.skip(at + 1)[i]);
                        assert(front.skip(at + 1).contains(front.skip(at + 1)[i]));
                    }
                }
            },
            None => {
                assert forall|i: int| 0 <= i < text.len() implies text[i] != mark by {
                    if i < front.len() {
                        assert(front.contains(front[i]));
                    }
                }
            },
        }
    }
}

/// A part of a text is what the text is made of, with something before and behind it.
pub proof fn law_has_part(text: Seq<char>, part: Seq<char>)
    ensures
        has_part(text, part) <==> exists|front: Seq<char>, back: Seq<char>|
            text == #[trigger] (front + part + back),
{
    if has_part(text, part) {
        let i = choose|i: int|
            0 <= i <= text.len() - part.len() && #[trigger] text.subrange(i, i + part.len())
                == part;
        let front = text.take(i);
        let back = text.skip(i + part.len());
        assert forall|k: int| 0 <= k < text.len() implies text[k] == (front + part + back)[k] by {
            if i <= k < i + part.len() {
                assert(text.subrange(i, i + part.len())[k - i] == part[k - i]);
            }
        }
        assert(text =~= front + part + back);
    }
    assert forall|front: Seq<char>, back: Seq<char>| text == #[trigger] (front + part
        + back) implies has_part(text, part) by {
        let i = front.len() as int;
        assert(text.subrange(i, i + part.len()) =~= part);
    }
}

/// The lower case form of an ASCII text has the same length, and at each place the same
/// character, but for `A` to `Z`, which become `a` to `z`.
pub proof fn law_lowercase_of_ascii(text: Seq<char>)
    requires
        vstd::utf8::is_ascii_chars(text),
    ensures
        lowercase(text).len() == text.len(),
        forall|i: int|
            0 <= i < text.len() ==> #[trigger] lowercase(text)[i] == (if 'A' <= text[i] <= 'Z' {
                ((text[i] as u32) + 0x20) as char
            } else {
                text[i]
            }),
        (forall|i: int| 0 <= i < text.len() ==> !('A' <= #[trigger] text[i] <= 'Z'))
            ==> lowercase(text) == text,
{
    if forall|i: int| 0 <= i < text.len() ==> !('A' <= #[trigger] text[i] <= 'Z') {
        assert(lowercase(text) =~= text);
    }
}

/// ASCII texts have the same lower case form only if they differ in letter case alone.
pub proof fn law_lowercase_keeps_texts_apart(a: Seq<char>, b: Seq<char>)
    requires
        vstd::utf8::is_ascii_chars(a),
        vstd::utf8::is_ascii_chars(b),
        lowercase(a) == lowercase(b),
    ensures
        same_up_to_case(a, b),
        a.len() == b.len(),
        forall|i: int|
            0 <= i < a.len() ==> {
                ||| #[trigger] a[i] == b[i]
                ||| 'A' <= a[i] <= 'Z' && b[i] as u32 == a[i] as u32 + 0x20
                ||| 'A' <= b[i] <= 'Z' && a[i] as u32 == b[i] as u32 + 0x20
            },
{
    law_same_up_to_case(a, b);
}

/// Beyond ASCII the whole text decides, with its ASCII letters taken in lower case.
pub proof fn law_lowercase_beyond_ascii(text: Seq<char>)
    requires
        !vstd::utf8::is_ascii_chars(text),
    ensures
        lowercase(text) == unicode_lowercase(
            Seq::new(
                text.len(),
                |i: int|
                    if 'A' <= text[i] <= 'Z' {
                        ((text[i] as u32) + 0x20) as char
                    } else {
                        text[i]
                    },
            ),
        ),
{
    assert(ascii_lowered(text) =~= Seq::new(
        text.len(),
        |i: int|
            if 'A' <= text[i] <= 'Z' {
                ((text[i] as u32) + 0x20) as char
            } else {
                text[i]
            },
    ));
}

/// Texts that differ in case alone have at each place the same character or the same
/// letter in both cases.
pub proof fn law_same_up_to_case(a: Seq<char>, b: Seq<char>)
    ensures
        same_up_to_case(a, b) <==> a.len() == b.len() && forall|i: int|
            0 <= i < a.len() ==> {
                ||| #[trigger] a[i] == b[i]
                ||| 'A' <= a[i] <= 'Z' && b[i] as u32 == a[i] as u32 + 0x20
                ||| 'A' <= b[i] <= 'Z' && a[i] as u32 == b[i] as u32 + 0x20
            },
{
    if same_up_to_case(a, b) {
        lemma_same_length(a, b);
        assert forall|i: int| 0 <= i < a.len() implies {
            ||| #[trigger] a[i] == b[i]
            ||| 'A' <= a[i] <= 'Z' && b[i] as u32 == a[i] as u32 + 0x20
            ||| 'A' <= b[i] <= 'Z' && a[i] as u32 == b[i] as u32 + 0x20
        } by {
            assert(ascii_lower(a[i]) == ascii_lower(b[i]));
        }
    }
    if a.len() == b.len() && forall|i: int|
        0 <= i < a.len() ==> {
            ||| #[trigger] a[i] == b[i]
            ||| 'A' <= a[i] <= 'Z' && b[i] as u32 == a[i] as u32 + 0x20
            ||| 'A' <= b[i] <= 'Z' && a[i] as u32 == b[i] as u32 + 0x20
        } {
        assert forall|i: int| 0 <= i < a.len() implies ascii_lowered(a)[i] == ascii_lowered(
            b,
        )[i] by {
            assert(a[i] == a[i]);
        }
        assert(ascii_lowered(a) =~= ascii_lowered(b));
    }
}

/// The digits of a port: as many as it has decimal places, each with its own.
pub proof fn law_decimal_places(port: u16)
    ensures
        decimal(port as nat).len() == if port < 10 {
            1nat
        } else if port < 100 {
            2
        } else if port < 1000 {
            3
        } else if port < 10000 {
            4
        } else {
            5
        },
        forall|i: int|
            0 <= i < decimal(port as nat).len() ==> #[trigger] decimal(port as nat)[i] as u32
                == '0' as u32 + port as int / place(decimal(port as nat).len() - 1 - i) % 10,
        place(0) == 1,
        place(1) == 10,
        place(2) == 100,
        place(3) == 1000,
        place(4) == 10000,
{
    let v0 = port as nat;
    let v1 = v0 / 10;
    let v2 = v1 / 10;
    let v3 = v2 / 10;
    let v4 = v3 / 10;
    assert(v2 == v0 / 100 && v3 == v0 / 1000 && v4 == v0 / 10000);
    reveal_with_fuel(decimal, 6);
    let all = decimal(v0);
    let n = all.len() as int;
    assert forall|i: int| 0 <= i < all.len() implies #[trigger] all[i] as u32 == '0' as u32
        + port as int / place(all.len() - 1 - i) % 10 by {
        let at = n - 1 - i;
        if at == 0 {
        } else if at == 1 {
            assert(all[i] == decimal(v1)[i]);
        } else if at == 2 {
            assert(all[i] == decimal(v1)[i] && decimal(v1)[i] == decimal(v2)[i]);
        } else if at == 3 {
            assert(all[i] == decimal(v1)[i] && decimal(v1)[i] == decimal(v2)[i]);
            assert(decimal(v2)[i] == decimal(v3)[i]);
        } else {
            assert(all[i] == decimal(v1)[i] && decimal(v1)[i] == decimal(v2)[i]);
            assert(decimal(v2)[i] == decimal(v3)[i] && decimal(v3)[i] == decimal(v4)[i]);
        }
    }
}

/// The weight of the decimal place `at`, counted from the units.
pub open spec fn place(at: int) -> int {
    if at <= 0 {
        1
    } else if at == 1 {
        10
    } else if at == 2 {
        100
    } else if at == 3 {
        1000
    } else {
        10000
    }
}

proof fn lemma_zeros(count: nat)
    ensures
        digits_value(Seq::new(count, |i: int| '0')) == 0,
    decreases count,
{
    if count > 0 {
        let zeros = Seq::new(count, |i: int| '0');
        lemma_zeros((count - 1) as nat);
        assert(zeros.drop_last() =~= Seq::new((count - 1) as nat, |i: int| '0'));
    }
}

proof fn lemma_leading_zeros(count: nat, digits: Seq<char>)
    ensures
        digits_value(Seq::new(count, |i: int| '0') + digits) == digits_value(digits),
    decreases digits.len(),
{
    let zeros = Seq::new(count, |i: int| '0');
    if digits.len() == 0 {
        lemma_zeros(count);
        assert(zeros + digits =~= zeros);
    } else {
        lemma_leading_zeros(count, digits.drop_last());
        assert((zeros + digits).drop_last() =~= zeros + digits.drop_last());
    }
}

/// Digits are some zeros and the decimal form of what they write.
proof fn lemma_digits_form(digits: Seq<char>) -> (count: nat)
    requires
        digits.len() > 0,
        forall|i: int| 0 <= i < digits.len() ==> is_digit(#[trigger] digits[i]),
    ensures
        digits == Seq::new(count, |i: int| '0') + decimal(digits_value(digits)),
    decreases digits.len(),
{
    let front = digits.drop_last();
    let value = digits_value(digits);
    let unit = (digits.last() as u32 - '0' as u32) as nat;
    assert(is_digit(digits[digits.len() - 1]));
    if front.len() == 0 {
        assert(digits_value(front) == 0);
        assert(decimal(value) =~= seq![digits.last()]);
        assert(digits =~= Seq::new(0nat, |i: int| '0') + decimal(value));
        0
    } else {
        assert forall|i: int| 0 <= i < front.len() implies is_digit(#[trigger] front[i]) by {
            assert(front[i] == digits[i]);
        }
        let count = lemma_digits_form(front);
        let high = digits_value(front);
        let zeros = Seq::new(count, |i: int| '0');
        assert(value == 10 * high + unit);
        if high == 0 {
            assert(decimal(0) =~= seq!['0']);
            assert(decimal(value) =~= seq![digits.last()]);
            let more = Seq::new(count + 1, |i: int| '0');
            assert(front =~= more);
            assert(digits =~= more + seq![digits.last()]);
            count + 1
        } else {
            assert(value / 10 == high && value % 10 == unit);
            assert(decimal(value) =~= decimal(high).push(digits.last()));
            assert(digits =~= front.push(digits.last()));
            assert(digits =~= zeros + decimal(value));
            count
        }
    }
}

/// A port is written as its decimal form, perhaps behind zeros and a plus sign; no other
/// text is a port.
pub proof fn law_port_number(text: Seq<char>, port: u16)
    ensures
        port_number(text) == Some(port) <==> exists|zeros: Seq<char>|
            (forall|i: int| 0 <= i < zeros.len() ==> #[trigger] zeros[i] == '0') && {
                ||| text == #[trigger] (zeros + decimal(port as nat))
                ||| text == seq!['+'] + (zeros + decimal(port as nat))
            },
{
    if port_number(text) == Some(port) {
        let digits = unsigned(text);
        let count = lemma_digits_form(digits);
        let zeros = Seq::new(count, |i: int| '0');
        assert(digits == zeros + decimal(port as nat));
        if text.len() > 0 && text[0] == '+' {
            assert(text =~= seq!['+'] + digits);
        }
    }
    assert forall|zeros: Seq<char>|
        (forall|i: int| 0 <= i < zeros.len() ==> #[trigger] zeros[i] == '0') && {
            ||| text == #[trigger] (zeros + decimal(port as nat))
            ||| text == seq!['+'] + (zeros + decimal(port as nat))
        } implies port_number(text) == Some(port) by {
        let digits = zeros + decimal(port as nat);
        lemma_decimal(port as nat);
        lemma_leading_zeros(zeros.len(), decimal(port as nat));
        assert(zeros =~= Seq::new(zeros.len(), |i: int| '0'));
        assert forall|i: int| 0 <= i < digits.len() implies is_digit(#[trigger] digits[i]) by {
            if i < zeros.len() {
                assert(digits[i] == zeros[i]);
            } else {
                assert(digits[i] == decimal(port as nat)[i - zeros.len()]);
            }
        }
        assert(is_digit(digits[0]));
        assert((seq!['+'] + digits).skip(1) =~= digits);
        assert(unsigned(text) == digits);
    }
}

/// A cut keeps what stands in front of the first mark, or everything.
pub proof fn law_cut_keeps_the_front(text: &str, mark: char, kept: &str)
    requires
        call_ensures(cut_before, (text, mark), kept),
    ensures
        !kept@.contains(mark),
        kept@ == text@ || exists|rest: Seq<char>| text@ == #[trigger] (kept@ + seq![mark] + rest),
{
    law_before(text@, mark);
    if kept@.len() < text@.len() {
        assert(text@ =~= kept@ + seq![mark] + text@.skip(kept@.len() as int + 1));
    } else {
        assert(text@.take(text@.len() as int) =~= text@);
    }
}

/// A search from the end finds a mark with none behind it, or there is none.
pub proof fn law_found_is_last(text: &str, mark: char, found: Option<usize>)
    requires
        call_ensures(find_last, (text, mark), found),
    ensures
        match found {
            Some(at) => at < text@.len() && text@[at as int] == mark && !text@.skip(
                at + 1,
            ).contains(mark),
            None => !text@.contains(mark),
        },
{
    law_last_position(text@, mark);
}

/// A text holds a part exactly where it is that part with something, perhaps nothing, on
/// either side.
pub proof fn law_contained_part(text: &str, part: &str, result: bool)
    requires
        call_ensures(contains, (text, part), result),
    ensures
        result <==> exists|front: Seq<char>, back: Seq<char>|
            text@ == #[trigger] (front + part@ + back),
{
    law_has_part(text@, part@);
}

/// A text is read as a port exactly where it is the decimal form of that port, perhaps behind
/// zeros and a plus sign.
pub proof fn law_parsed_port(text: &str, result: Option<u16>, port: u16)
    requires
        call_ensures(parse_port, (text,), result),
    ensures
        result == Some(port) <==> exists|zeros: Seq<char>|
            (forall|i: int| 0 <= i < zeros.len() ==> #[trigger] zeros[i] == '0') && {
                ||| text@ == #[trigger] (zeros + decimal(port as nat))
                ||| text@ == seq!['+'] + (zeros + decimal(port as nat))
            },
{
    law_port_number(text@, port);
}

/// Bytes are read as the text that they encode, and only bytes that encode none are refused.
pub proof fn law_text_of_bytes(bytes: &[u8], result: Option<&str>, text: &str, chars: Vec<char>)
    requires
        call_ensures(utf8_text, (bytes,), result),
        call_ensures(chars_of, (text,), chars),
    ensures
        result matches Some(found) ==> vstd::utf8::encode_utf8(found@) == bytes@,
        vstd::utf8::encode_utf8(text@) == bytes@ ==> (result matches Some(found) && found@
            == chars@),
        chars@ == text@,
{
    if vstd::utf8::valid_utf8(bytes@) {
        vstd::utf8::decode_utf8_encode_utf8(bytes@);
    }
    vstd::utf8::encode_utf8_valid_utf8(text@);
    vstd::utf8::encode_utf8_decode_utf8(text@);
}

} // verus!
