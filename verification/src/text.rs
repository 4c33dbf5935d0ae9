//! Reading the small texts a run is told what to do with.

use vstd::prelude::*;
use vstd::string::*;

verus! {

/// Whether two texts are the same.
pub fn same(a: &str, b: &str) -> (yes: bool)
    ensures
        yes == (a@ == b@),
{
    let (x, y): (&[u8], &[u8]) = (a.as_bytes(), b.as_bytes());
    proof {
        vstd::utf8::encode_utf8_decode_utf8(a@);
        vstd::utf8::encode_utf8_decode_utf8(b@);
    }
    if x.len() != y.len() {
        return false;
    }
    let mut i: usize = 0;
    while i < x.len()
        invariant
            i <= x@.len(),
            x@.len() == y@.len(),
            x@ == a.spec_bytes(),
            y@ == b.spec_bytes(),
            forall|k: int| 0 <= k < i ==> x@[k] == y@[k],
        decreases x@.len() - i,
    {
        if x[i] != y[i] {
            return false;
        }
        i = i + 1;
    }
    assert(x@ =~= y@);
    true
}

/// Whether a character is white space.
pub open spec fn is_white(c: char) -> bool {
    ||| '\u{9}' <= c <= '\u{d}'
    ||| c == ' '
    ||| c == '\u{85}'
    ||| c == '\u{a0}'
    ||| c == '\u{1680}'
    ||| '\u{2000}' <= c <= '\u{200a}'
    ||| c == '\u{2028}'
    ||| c == '\u{2029}'
    ||| c == '\u{202f}'
    ||| c == '\u{205f}'
    ||| c == '\u{3000}'
}

fn white(c: char) -> (yes: bool)
    ensures
        yes == is_white(c),
{
    ('\u{9}' <= c && c <= '\u{d}') || c == ' ' || c == '\u{85}' || c == '\u{a0}' || c == '\u{1680}' || ('\u{2000}' <= c
        && c <= '\u{200a}') || c == '\u{2028}' || c == '\u{2029}' || c == '\u{202f}' || c == '\u{205f}' || c == '\u{3000}'
}

/// A text without the white space in front of it.
pub open spec fn trimmed_front(text: Seq<char>) -> Seq<char>
    decreases text.len(),
{
    if text.len() > 0 && is_white(text.first()) {
        trimmed_front(text.drop_first())
    } else {
        text
    }
}

/// A text without the white space behind it.
pub open spec fn trimmed_back(text: Seq<char>) -> Seq<char>
    decreases text.len(),
{
    if text.len() > 0 && is_white(text.last()) {
        trimmed_back(text.drop_last())
    } else {
        text
    }
}

/// A text without the white space around it.
pub open spec fn trimmed(text: Seq<char>) -> Seq<char> {
    trimmed_back(trimmed_front(text))
}

/// Takes the white space off both ends of a text.
pub fn trim(text: &str) -> (inner: &str)
    ensures
        inner@ == trimmed(text@),
{
    let count: usize = text.unicode_len();
    let mut from: usize = 0;
    assert(text@.skip(0) =~= text@);
    while from < count && white(text.get_char(from))
        invariant
            from <= count,
            count == text@.len(),
            trimmed_front(text@) == trimmed_front(text@.skip(from as int)),
        decreases count - from,
    {
        assert(text@.skip(from as int).drop_first() =~= text@.skip(from + 1));
        from = from + 1;
    }
    let ghost rest = text@.skip(from as int);
    assert(trimmed_front(text@) == rest);
    let mut to: usize = count;
    assert(text@.subrange(from as int, to as int) =~= rest);
    while from < to && white(text.get_char(to - 1))
        invariant
            from <= to <= count,
            count == text@.len(),
            trimmed_back(rest) == trimmed_back(text@.subrange(from as int, to as int)),
        decreases to,
    {
        assert(text@.subrange(from as int, to as int).drop_last() =~= text@.subrange(from as int, to - 1));
        to = to - 1;
    }
    text.substring_char(from, to)
}

/// Why a text is not a whole number.
#[derive(Clone, Copy, Debug, PartialEq, Eq, Structural)]
pub enum NumberError {
    /// There is nothing there.
    Empty,
    /// Something in it is not a digit.
    InvalidDigit,
    /// It does not fit.
    TooLarge,
}

/// The number digits spell behind ones already read, or what is wrong with the
/// first character that fails.
pub open spec fn digits_spell(digits: Seq<char>, value: int) -> Result<u32, NumberError>
    decreases digits.len(),
{
    if digits.len() == 0 {
        Ok(value as u32)
    } else if !('0' <= digits.first() <= '9') {
        Err(NumberError::InvalidDigit)
    } else {
        let next = value * 10 + (digits.first() as int - '0' as int);
        if next > u32::MAX {
            Err(NumberError::TooLarge)
        } else {
            digits_spell(digits.drop_first(), next)
        }
    }
}

/// The whole number a text spells: digits, with an optional plus in front.
pub open spec fn number_spelled(text: Seq<char>) -> Result<u32, NumberError> {
    if text.len() == 0 {
        Err(NumberError::Empty)
    } else if text.first() == '+' {
        if text.len() == 1 {
            Err(NumberError::InvalidDigit)
        } else {
            digits_spell(text.drop_first(), 0)
        }
    } else {
        digits_spell(text, 0)
    }
}

/// Reads a whole number.
pub fn parse_number(text: &str) -> (number: Result<u32, NumberError>)
    ensures
        number == number_spelled(text@),
{
    let count: usize = text.unicode_len();
    if count == 0 {
        return Err(NumberError::Empty);
    }
    let mut at: usize = 0;
    if text.get_char(0) == '+' {
        if count == 1 {
            return Err(NumberError::InvalidDigit);
        }
        at = 1;
        assert(text@.skip(1) =~= text@.drop_first());
    } else {
        assert(text@.skip(0) =~= text@);
    }
    let mut value: u32 = 0;
    while at < count
        invariant
            at <= count,
            count == text@.len(),
            number_spelled(text@) == digits_spell(text@.skip(at as int), value as int),
        decreases count - at,
    {
        let c: char = text.get_char(at);
        if !('0' <= c && c <= '9') {
            return Err(NumberError::InvalidDigit);
        }
        let next: u64 = value as u64 * 10 + (c as u64 - '0' as u64);
        if next > 0xffff_ffff {
            return Err(NumberError::TooLarge);
        }
        value = next as u32;
        assert(text@.skip(at as int).drop_first() =~= text@.skip(at + 1));
        at = at + 1;
    }
    Ok(value)
}

/// Where a text is first split at either of two characters.
pub open spec fn first_of(text: Seq<char>, a: char, b: char, from: int) -> Option<int>
    decreases text.len() - from,
{
    if from >= text.len() {
        None
    } else if text[from] == a || text[from] == b {
        Some(from)
    } else {
        first_of(text, a, b, from + 1)
    }
}

/// The parts of a text before and after the first of two characters.
pub fn split_once<'a>(text: &'a str, a: char, b: char) -> (parts: Option<(&'a str, &'a str)>)
    ensures
        match parts {
            Some((before, after)) => first_of(text@, a, b, 0) == Some(before@.len() as int) && before@
                == text@.take(before@.len() as int) && after@ == text@.skip(before@.len() as int + 1),
            None => first_of(text@, a, b, 0) is None,
        },
{
    let count: usize = text.unicode_len();
    let mut at: usize = 0;
    while at < count
        invariant
            at <= count,
            count == text@.len(),
            first_of(text@, a, b, 0) == first_of(text@, a, b, at as int),
        decreases count - at,
    {
        let c: char = text.get_char(at);
        if c == a || c == b {
            let before = text.substring_char(0, at);
            let after = text.substring_char(at + 1, count);
            assert(before@ =~= text@.take(at as int));
            assert(after@ =~= text@.skip(at + 1));
            return Some((before, after));
        }
        at = at + 1;
    }
    None
}

/// The digits of a number, the first not nought unless it is the only one.
pub open spec fn decimal_of(number: nat) -> Seq<char>
    decreases number,
{
    let digit = seq![(('0' as int) + (number % 10) as int) as char];
    if number < 10 {
        digit
    } else {
        decimal_of(number / 10) + digit
    }
}

/// One digit as a text.
fn digit(value: u32) -> (text: &'static str)
    requires
        value < 10,
    ensures
        text@ =~= seq![(('0' as int) + value) as char],
{
    proof {
        reveal_strlit("0");
        reveal_strlit("1");
        reveal_strlit("2");
        reveal_strlit("3");
        reveal_strlit("4");
        reveal_strlit("5");
        reveal_strlit("6");
        reveal_strlit("7");
        reveal_strlit("8");
        reveal_strlit("9");
    }
    if value == 0 {
        "0"
    } else if value == 1 {
        "1"
    } else if value == 2 {
        "2"
    } else if value == 3 {
        "3"
    } else if value == 4 {
        "4"
    } else if value == 5 {
        "5"
    } else if value == 6 {
        "6"
    } else if value == 7 {
        "7"
    } else if value == 8 {
        "8"
    } else {
        "9"
    }
}

/// Writes a number in decimal.
pub fn decimal(number: u32) -> (text: String)
    ensures
        text@ == decimal_of(number as nat),
    decreases number,
{
    let last = digit(number % 10);
    let mut text: String = if number < 10 {
        String::new()
    } else {
        decimal(number / 10)
    };
    text.append(last);
    assert(number < 10 ==> text@ =~= last@);
    text
}

/// A number written in decimal reads back as itself.
pub proof fn a_number_reads_back(number: nat)
    requires
        number <= u32::MAX,
    ensures
        number_spelled(decimal_of(number)) == Ok::<u32, NumberError>(number as u32),
{
    lemma_digits_read_back(number, seq![]);
    assert(decimal_of(number) + Seq::<char>::empty() =~= decimal_of(number));
    lemma_first_digit(number);
}

proof fn lemma_first_digit(number: nat)
    ensures
        decimal_of(number).len() > 0,
        '0' <= decimal_of(number).first() <= '9',
    decreases number,
{
    if number >= 10 {
        lemma_first_digit(number / 10);
        assert(decimal_of(number).first() == decimal_of(number / 10).first());
    }
}

proof fn lemma_digits_read_back(number: nat, rest: Seq<char>)
    requires
        number <= u32::MAX,
    ensures
        digits_spell(decimal_of(number) + rest, 0) == digits_spell(rest, number as int),
    decreases number,
{
    let digit = (('0' as int) + (number % 10) as int) as char;
    let last = seq![digit] + rest;
    assert(last.drop_first() =~= rest);
    if number < 10 {
        assert(decimal_of(number) + rest =~= last);
    } else {
        lemma_digits_read_back(number / 10, last);
        assert(decimal_of(number) + rest =~= decimal_of(number / 10) + last);
    }
}

/// White space is what Unicode counts as that: the tab to the carriage return,
/// the space, the next line and the no-break space, and the spaces and
/// separators further up.
pub proof fn white_space_is_unicodes(c: char)
    ensures
        is_white(c) <==> {
            let code = c as u32;
            ||| 9 <= code <= 13
            ||| code == 32
            ||| code == 0x85
            ||| code == 0xa0
            ||| code == 0x1680
            ||| 0x2000 <= code <= 0x200a
            ||| code == 0x2028
            ||| code == 0x2029
            ||| code == 0x202f
            ||| code == 0x205f
            ||| code == 0x3000
        },
{
}

proof fn lemma_trimmed_front(text: Seq<char>) -> (from: int)
    ensures
        0 <= from <= text.len(),
        trimmed_front(text) == text.skip(from),
        forall|k: int| 0 <= k < from ==> is_white(#[trigger] text[k]),
        from < text.len() ==> !is_white(text[from]),
    decreases text.len(),
{
    if text.len() > 0 && is_white(text.first()) {
        let rest = text.drop_first();
        let from = lemma_trimmed_front(rest);
        assert(text.skip(from + 1) =~= rest.skip(from));
        assert forall|k: int| 0 <= k < from + 1 implies is_white(#[trigger] text[k]) by {
            if k > 0 {
                assert(rest[k - 1] == text[k]);
            }
        }
        if from < rest.len() {
            assert(text[from + 1] == rest[from]);
        }
        from + 1
    } else {
        assert(text.skip(0) =~= text);
        0
    }
}

proof fn lemma_trimmed_back(text: Seq<char>) -> (to: int)
    ensures
        0 <= to <= text.len(),
        trimmed_back(text) == text.take(to),
        forall|k: int| to <= k < text.len() ==> is_white(#[trigger] text[k]),
        to > 0 ==> !is_white(text[to - 1]),
    decreases text.len(),
{
    if text.len() > 0 && is_white(text.last()) {
        let rest = text.drop_last();
        let to = lemma_trimmed_back(rest);
        assert(text.take(to) =~= rest.take(to));
        assert forall|k: int| to <= k < text.len() implies is_white(#[trigger] text[k]) by {
            if k < rest.len() {
                assert(rest[k] == text[k]);
            }
        }
        to
    } else {
        assert(text.take(text.len() as int) =~= text);
        text.len() as int
    }
}

/// A trimmed text is the middle of the text: all that is taken off either end is
/// white space, and no white space is left at either end.
pub proof fn trimming_takes_off_white_space_alone(text: Seq<char>) -> (ends: (int, int))
    ensures
        0 <= ends.0 <= ends.1 <= text.len(),
        trimmed(text) == text.subrange(ends.0, ends.1),
        forall|k: int| 0 <= k < ends.0 || ends.1 <= k < text.len() ==> is_white(#[trigger] text[k]),
        trimmed(text).len() > 0 ==> !is_white(trimmed(text)[0]) && !is_white(trimmed(text)[trimmed(text).len() - 1]),
{
    let from = lemma_trimmed_front(text);
    let rest = trimmed_front(text);
    let to = lemma_trimmed_back(rest);
    assert(rest.take(to) =~= text.subrange(from, from + to));
    assert forall|k: int| 0 <= k < from || from + to <= k < text.len() implies is_white(#[trigger] text[k]) by {
        if k >= from {
            assert(rest[k - from] == text[k]);
        }
    }
    (from, from + to)
}

/// The number some digits write, ten times what those before the last write and
/// the last.
pub open spec fn written(digits: Seq<char>) -> int
    decreases digits.len(),
{
    if digits.len() == 0 {
        0
    } else {
        written(digits.drop_last()) * 10 + (digits.last() as int - 48)
    }
}

/// Whether a text is digits alone.
pub open spec fn all_digits(text: Seq<char>) -> bool {
    forall|k: int| 0 <= k < text.len() ==> 48 <= (#[trigger] text[k]) as int <= 57
}

proof fn lemma_written_grows(digits: Seq<char>, upto: int)
    requires
        all_digits(digits),
        0 <= upto <= digits.len(),
    ensures
        0 <= written(digits.take(upto)) <= written(digits),
    decreases digits.len(),
{
    if upto == digits.len() {
        assert(digits.take(upto) =~= digits);
        if digits.len() > 0 {
            let fewer = digits.drop_last();
            assert forall|k: int| 0 <= k < fewer.len() implies 48 <= (#[trigger] fewer[k]) as int <= 57 by {
                assert(fewer[k] == digits[k]);
            }
            lemma_written_grows(fewer, fewer.len() as int);
            assert(fewer.take(fewer.len() as int) =~= fewer);
            assert(48 <= digits[digits.len() - 1] as int);
        }
    } else {
        let fewer = digits.drop_last();
        assert forall|k: int| 0 <= k < fewer.len() implies 48 <= (#[trigger] fewer[k]) as int <= 57 by {
            assert(fewer[k] == digits[k]);
        }
        lemma_written_grows(fewer, upto);
        assert(fewer.take(upto) =~= digits.take(upto));
        assert(48 <= digits[digits.len() - 1] as int);
    }
}

/// What reading has come to, part of the way along a text.
proof fn lemma_read_so_far(text: Seq<char>, upto: int)
    requires
        0 <= upto <= text.len(),
        all_digits(text.take(upto)),
        written(text.take(upto)) <= u32::MAX,
    ensures
        digits_spell(text, 0) == digits_spell(text.skip(upto), written(text.take(upto))),
    decreases upto,
{
    let read = text.take(upto);
    if upto == 0 {
        assert(text.skip(0) =~= text);
        assert(read =~= Seq::<char>::empty());
    } else {
        let before = text.take(upto - 1);
        assert(read.drop_last() =~= before);
        assert forall|k: int| 0 <= k < before.len() implies 48 <= (#[trigger] before[k]) as int <= 57 by {
            assert(before[k] == read[k]);
        }
        lemma_written_grows(read, upto - 1);
        assert(read.take(upto - 1) =~= before);
        lemma_read_so_far(text, upto - 1);
        assert(48 <= read[upto - 1] as int <= 57);
        assert(text.skip(upto - 1).first() == text[upto - 1]);
        assert(text.skip(upto - 1).drop_first() =~= text.skip(upto));
    }
}

/// A text of digits is read as the number they write, where that fits, and is
/// refused as too large where it does not.
pub proof fn digits_are_read_in_tens(text: Seq<char>)
    requires
        text.len() > 0,
        all_digits(text),
    ensures
        written(text) <= u32::MAX ==> number_spelled(text) == Ok::<u32, NumberError>(written(text) as u32),
        written(text) > u32::MAX ==> number_spelled(text) == Err::<u32, NumberError>(NumberError::TooLarge),
{
    assert(48 <= text[0] as int <= 57);
    lemma_too_large_from(text, text.len() as int);
}

proof fn lemma_too_large_from(text: Seq<char>, upto: int)
    requires
        all_digits(text),
        0 <= upto <= text.len(),
    ensures
        written(text.take(upto)) > u32::MAX ==> digits_spell(text, 0) == Err::<u32, NumberError>(
            NumberError::TooLarge,
        ),
        upto == text.len() && written(text) <= u32::MAX ==> digits_spell(text, 0) == Ok::<u32, NumberError>(
            written(text) as u32,
        ),
        upto == text.len() ==> text.take(upto) == text,
    decreases upto,
{
    let read = text.take(upto);
    if upto == text.len() {
        assert(read =~= text);
    }
    assert forall|k: int| 0 <= k < read.len() implies 48 <= (#[trigger] read[k]) as int <= 57 by {
        assert(read[k] == text[k]);
    }
    if written(read) <= u32::MAX {
        lemma_read_so_far(text, upto);
        if upto == text.len() {
            assert(text.skip(upto) =~= Seq::<char>::empty());
        }
    } else if upto > 0 {
        let before = text.take(upto - 1);
        assert(read.drop_last() =~= before);
        if written(before) > u32::MAX {
            lemma_too_large_from(text, upto - 1);
        } else {
            assert forall|k: int| 0 <= k < before.len() implies 48 <= (#[trigger] before[k]) as int <= 57 by {
                assert(before[k] == text[k]);
            }
            lemma_read_so_far(text, upto - 1);
            assert(48 <= text[upto - 1] as int <= 57);
            assert(text.skip(upto - 1).first() == text[upto - 1]);
        }
    }
}

/// Anything but a digit is refused where it stands, unless what comes before it
/// is too large already.
pub proof fn anything_but_a_digit_is_refused(text: Seq<char>, at: int)
    requires
        0 <= at < text.len(),
        all_digits(text.take(at)),
        written(text.take(at)) <= u32::MAX,
        !(48 <= text[at] as int <= 57),
        at > 0 || text[0] as int != 43,
    ensures
        number_spelled(text) == Err::<u32, NumberError>(NumberError::InvalidDigit),
{
    lemma_read_so_far(text, at);
    assert(text.skip(at).first() == text[at]);
    if at > 0 {
        assert(48 <= text.take(at)[0] as int <= 57);
        assert(text.take(at)[0] == text[0]);
    }
}

/// A plus in front changes nothing, but is no number alone, nor is nothing, nor
/// are two.
pub proof fn a_plus_in_front_changes_nothing(text: Seq<char>)
    ensures
        text.len() > 0 && text[0] as int != 43 ==> number_spelled(seq!['+'] + text) == number_spelled(text),
        text.len() == 0 ==> number_spelled(seq!['+'] + text) == Err::<u32, NumberError>(NumberError::InvalidDigit),
        text.len() == 0 ==> number_spelled(text) == Err::<u32, NumberError>(NumberError::Empty),
        text.len() > 0 && text[0] as int == 43 ==> number_spelled(seq!['+'] + text) == Err::<u32, NumberError>(
            NumberError::InvalidDigit,
        ),
{
    let signed = seq!['+'] + text;
    assert(signed.drop_first() =~= text);
    assert(signed.first() == '+');
}

/// A text is split at the first place either character stands, and nowhere else.
pub proof fn a_text_is_split_at_the_first(text: Seq<char>, a: char, b: char, from: int)
    requires
        0 <= from,
    ensures
        match first_of(text, a, b, from) {
            Some(at) => {
                &&& from <= at < text.len()
                &&& text[at] == a || text[at] == b
                &&& forall|k: int| from <= k < at ==> #[trigger] text[k] != a && text[k] != b
            },
            None => forall|k: int| from <= k < text.len() ==> #[trigger] text[k] != a && text[k] != b,
        },
    decreases text.len() - from,
{
    if from < text.len() && text[from] != a && text[from] != b {
        a_text_is_split_at_the_first(text, a, b, from + 1);
    }
}

/// A number is written in digits alone, as the number they write, with no nought
/// in front unless it is the number.
pub proof fn a_number_is_written_in_digits(number: nat)
    ensures
        decimal_of(number).len() > 0,
        all_digits(decimal_of(number)),
        written(decimal_of(number)) == number,
        number > 0 ==> decimal_of(number)[0] as int != 48,
    decreases number,
{
    let text = decimal_of(number);
    if number < 10 {
        reveal_with_fuel(written, 2);
        assert(text.drop_last() =~= Seq::<char>::empty());
    } else {
        let before = decimal_of(number / 10);
        a_number_is_written_in_digits(number / 10);
        assert(text.drop_last() =~= before);
        assert(text[0] == before[0]);
        assert forall|k: int| 0 <= k < text.len() implies 48 <= (#[trigger] text[k]) as int <= 57 by {
            if k < before.len() {
                assert(text[k] == before[k]);
            }
        }
    }
}

} // verus!
