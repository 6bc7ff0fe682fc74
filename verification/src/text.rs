//! Characters, white space and unsigned decimal numbers in texts.

use vstd::prelude::*;
use vstd::std_specs::iter::IteratorSpec;
use vstd::string::StringExecFns;

verus! {

/// The characters of a text.
pub fn chars_of(text: &str) -> (chars: Vec<char>)
    ensures
        chars@ == text@,
{
    let mut chars: Vec<char> = Vec::new();
    for c in it: text.chars()
        invariant
            it.seq() == text@,
            chars@ == it.seq().take(it.index()),
    {
        proof {
            it.seq().lemma_take_succ_push(it.index());
        }
        chars.push(c);
    }
    proof {
        text@.lemma_take_len();
    }
    chars
}

/// Whether the character is white space, as Unicode defines it.
pub open spec fn is_space(c: char) -> bool {
    let code = c as u32;
    ||| 0x09 <= code <= 0x0d
    ||| code == 0x20
    ||| code == 0x85
    ||| code == 0xa0
    ||| code == 0x1680
    ||| 0x2000 <= code <= 0x200a
    ||| code == 0x2028
    ||| code == 0x2029
    ||| code == 0x202f
    ||| code == 0x205f
    ||| code == 0x3000
}

/// Whether the character is white space.
pub fn is_whitespace(c: char) -> (space: bool)
    ensures
        space == is_space(c),
{
    let code = c as u32;
    (0x09 <= code && code <= 0x0d) || code == 0x20 || code == 0x85 || code == 0xa0 || code
        == 0x1680 || (0x2000 <= code && code <= 0x200a) || code == 0x2028 || code == 0x2029
        || code == 0x202f || code == 0x205f || code == 0x3000
}

/// The number of white space characters that the text begins with.
pub open spec fn leading_spaces(text: Seq<char>) -> nat
    decreases text.len(),
{
    if text.len() > 0 && is_space(text[0]) {
        1 + leading_spaces(text.skip(1))
    } else {
        0
    }
}

/// The number of white space characters that the text ends with.
pub open spec fn trailing_spaces(text: Seq<char>) -> nat
    decreases text.len(),
{
    if text.len() > 0 && is_space(text.last()) {
        1 + trailing_spaces(text.drop_last())
    } else {
        0
    }
}

/// The number of characters before the first white space of the text.
pub open spec fn leading_word(text: Seq<char>) -> nat
    decreases text.len(),
{
    if text.len() > 0 && !is_space(text[0]) {
        1 + leading_word(text.skip(1))
    } else {
        0
    }
}

/// The text without the white space at its two ends.
pub open spec fn trimmed(text: Seq<char>) -> Seq<char> {
    let rest = text.skip(leading_spaces(text) as int);
    rest.take(rest.len() - trailing_spaces(rest))
}

/// The first word of the text: what stands between the white space at its
/// start and the next white space. It is empty where the text holds no word.
pub open spec fn first_word(text: Seq<char>) -> Seq<char> {
    let rest = text.skip(leading_spaces(text) as int);
    rest.take(leading_word(rest) as int)
}

/// The value of a decimal digit.
pub open spec fn digit_value(c: char) -> Option<nat> {
    if '0' <= c <= '9' {
        Some((c as u32 - '0' as u32) as nat)
    } else {
        None
    }
}

/// Whether the text holds decimal digits only.
pub open spec fn all_digits(text: Seq<char>) -> bool {
    forall|i: int| 0 <= i < text.len() ==> digit_value(#[trigger] text[i]) is Some
}

/// The number that decimal digits spell.
pub open spec fn decimal_value(digits: Seq<char>) -> nat
    decreases digits.len(),
{
    if digits.len() == 0 {
        0
    } else {
        10 * decimal_value(digits.drop_last()) + digit_value(digits.last()).unwrap()
    }
}

/// The digits of a text that may begin with one `+`.
pub open spec fn unsigned_digits(text: Seq<char>) -> Seq<char> {
    if text.len() > 0 && text[0] == '+' {
        text.skip(1)
    } else {
        text
    }
}

/// The number that a text spells, if it is an unsigned decimal number not
/// above `max`: at least one digit, with one `+` before them at most, and
/// nothing else.
pub open spec fn parse_unsigned(text: Seq<char>, max: nat) -> Option<nat> {
    let digits = unsigned_digits(text);
    if digits.len() > 0 && all_digits(digits) && decimal_value(digits) <= max {
        Some(decimal_value(digits))
    } else {
        None
    }
}

/// More digits spell no smaller number.
pub proof fn lemma_decimal_value_grows(digits: Seq<char>, n: int)
    requires
        0 <= n <= digits.len(),
    ensures
        decimal_value(digits.take(n)) <= decimal_value(digits),
    decreases digits.len(),
{
    if n == digits.len() {
        assert(digits.take(n) =~= digits);
    } else {
        lemma_decimal_value_grows(digits.drop_last(), n);
        assert(digits.drop_last().take(n) =~= digits.take(n));
    }
}

/// Reads the characters from `from` up to `to` as an unsigned decimal number
/// that is not above `max`.
pub fn parse_number(chars: &Vec<char>, from: usize, to: usize, max: u64) -> (number: Option<u64>)
    requires
        from <= to <= chars@.len(),
    ensures
        match number {
            Some(n) => parse_unsigned(chars@.subrange(from as int, to as int), max as nat) == Some(
                n as nat,
            ),
            None => parse_unsigned(chars@.subrange(from as int, to as int), max as nat) is None,
        },
{
    let ghost text = chars@.subrange(from as int, to as int);
    let start = if from < to && chars[from] == '+' {
        from + 1
    } else {
        from
    };
    let ghost digits = unsigned_digits(text);
    assert(digits =~= chars@.subrange(start as int, to as int));
    if start == to {
        return None;
    }
    let mut value: u64 = 0;
    let mut i: usize = start;
    assert(digits.take(0) =~= Seq::<char>::empty());
    while i < to
        invariant
            start <= i <= to <= chars@.len(),
            from <= start,
            digits == chars@.subrange(start as int, to as int),
            digits == unsigned_digits(chars@.subrange(from as int, to as int)),
            all_digits(digits.take(i - start)),
            value == decimal_value(digits.take(i - start)),
            value <= max,
        decreases to - i,
    {
        let c = chars[i];
        let ghost before = digits.take(i - start);
        let ghost after = digits.take(i - start + 1);
        proof {
            assert(digits[i - start] == c);
            assert(after.drop_last() =~= before);
            assert(after.last() == c);
            lemma_decimal_value_grows(digits, i - start + 1);
        }
        if !('0' <= c && c <= '9') {
            assert(digit_value(digits[i - start]) is None);
            assert(!all_digits(digits));
            return None;
        }
        let digit = (c as u32 - '0' as u32) as u64;
        assert(decimal_value(after) == 10 * value + digit);
        let next = match value.checked_mul(10) {
            Some(tens) => tens.checked_add(digit),
            None => None,
        };
        match next {
            Some(n) => {
                if n > max {
                    return None;
                }
                value = n;
            },
            None => {
                return None;
            },
        }
        i += 1;
        proof {
            assert forall|j: int| 0 <= j < after.len() implies digit_value(#[trigger] after[j])
                is Some by {
                if j < before.len() {
                    assert(before[j] == after[j]);
                }
            }
        }
    }
    proof {
        assert(digits.take(i - start) =~= digits);
    }
    Some(value)
}

/// Whether `pattern` stands in `text` from the position `at` on.
pub open spec fn occurs_at(text: Seq<char>, pattern: Seq<char>, at: int) -> bool {
    0 <= at && at + pattern.len() <= text.len() && text.subrange(at, at + pattern.len())
        == pattern
}

/// Whether `pattern` stands somewhere in `text`.
pub open spec fn contains_text(text: Seq<char>, pattern: Seq<char>) -> bool {
    exists|at: int| occurs_at(text, pattern, at)
}

/// The position of the first `mark` in `text`, or the length of `text` if
/// it holds none.
pub open spec fn position_of(text: Seq<char>, mark: char) -> int
    decreases text.len(),
{
    if text.len() == 0 || text[0] == mark {
        0
    } else {
        1 + position_of(text.skip(1), mark)
    }
}

/// What stands between the first `mark` of `text` and the next one, or the
/// end of `text`; nothing where `text` holds no `mark`.
pub open spec fn second_field(text: Seq<char>, mark: char) -> Seq<char> {
    if position_of(text, mark) >= text.len() {
        Seq::empty()
    } else {
        let rest = text.skip(position_of(text, mark) + 1);
        rest.take(position_of(rest, mark))
    }
}

/// The position of the first `mark` is that of the first of its kind.
pub proof fn lemma_position_of(text: Seq<char>, mark: char, at: int)
    requires
        0 <= at <= text.len(),
        forall|j: int| 0 <= j < at ==> text[j] != mark,
        at < text.len() ==> text[at] == mark,
    ensures
        position_of(text, mark) == at,
    decreases at,
{
    if at > 0 {
        let rest = text.skip(1);
        assert(text[0] != mark);
        assert forall|j: int| 0 <= j < at - 1 implies rest[j] != mark by {
            assert(text[j + 1] != mark);
        }
        lemma_position_of(rest, mark, at - 1);
    }
}

/// Whether `pattern` stands in the characters from `from` up to `to`, at the
/// position `at` counted from `from`.
fn matches_at(chars: &Vec<char>, from: usize, to: usize, pattern: &Vec<char>, at: usize) -> (hit:
    bool)
    requires
        from <= to <= chars@.len(),
    ensures
        hit == occurs_at(chars@.subrange(from as int, to as int), pattern@, at as int),
{
    let ghost text = chars@.subrange(from as int, to as int);
    if pattern.len() > to - from || at > to - from - pattern.len() {
        return false;
    }
    let mut j: usize = 0;
    while j < pattern.len()
        invariant
            j <= pattern@.len(),
            from <= to <= chars@.len(),
            at + pattern@.len() <= to - from,
            text == chars@.subrange(from as int, to as int),
            forall|k: int| 0 <= k < j ==> text[at + k] == pattern[k],
        decreases pattern@.len() - j,
    {
        if chars[from + at + j] != pattern[j] {
            assert(text.subrange(at as int, at + pattern@.len())[j as int] == text[at + j]);
            return false;
        }
        j += 1;
    }
    assert(text.subrange(at as int, at + pattern@.len()) =~= pattern@);
    true
}

/// Whether the characters from `from` up to `to` begin with `pattern`.
pub fn starts_with(chars: &Vec<char>, from: usize, to: usize, pattern: &Vec<char>) -> (hit: bool)
    requires
        from <= to <= chars@.len(),
    ensures
        hit == occurs_at(chars@.subrange(from as int, to as int), pattern@, 0),
{
    matches_at(chars, from, to, pattern, 0)
}

/// Whether `pattern` stands somewhere in the characters from `from` up to
/// `to`.
pub fn contains(chars: &Vec<char>, from: usize, to: usize, pattern: &Vec<char>) -> (hit: bool)
    requires
        from <= to <= chars@.len(),
    ensures
        hit == contains_text(chars@.subrange(from as int, to as int), pattern@),
{
    let ghost text = chars@.subrange(from as int, to as int);
    if pattern.len() == 0 {
        assert(text.subrange(0, 0) =~= pattern@);
        assert(occurs_at(text, pattern@, 0));
        return true;
    }
    if pattern.len() > to - from {
        return false;
    }
    let last = to - from - pattern.len();
    let mut at: usize = 0;
    while at <= last
        invariant
            from <= to <= chars@.len(),
            0 < pattern@.len() <= to - from,
            last == to - from - pattern@.len(),
            text == chars@.subrange(from as int, to as int),
            forall|k: int| 0 <= k < at ==> !occurs_at(text, pattern@, k),
        decreases last + 1 - at,
    {
        if matches_at(chars, from, to, pattern, at) {
            return true;
        }
        at += 1;
    }
    false
}

/// The position of the first `mark` among the characters from `from` up to
/// `to`, or `to` if there is none.
pub fn find(chars: &Vec<char>, from: usize, to: usize, mark: char) -> (at: usize)
    requires
        from <= to <= chars@.len(),
    ensures
        from <= at <= to,
        at - from == position_of(chars@.subrange(from as int, to as int), mark),
{
    let ghost text = chars@.subrange(from as int, to as int);
    let mut at = from;
    while at < to && chars[at] != mark
        invariant
            from <= at <= to <= chars@.len(),
            text == chars@.subrange(from as int, to as int),
            forall|j: int| 0 <= j < at - from ==> text[j] != mark,
        decreases to - at,
    {
        at += 1;
    }
    proof {
        lemma_position_of(text, mark, at - from);
    }
    at
}

/// The white space at the start of a text ends where the first other
/// character stands.
pub proof fn lemma_leading_spaces(text: Seq<char>, n: int)
    requires
        0 <= n <= text.len(),
        forall|j: int| 0 <= j < n ==> is_space(text[j]),
        n < text.len() ==> !is_space(text[n]),
    ensures
        leading_spaces(text) == n,
    decreases n,
{
    if n > 0 {
        let rest = text.skip(1);
        assert(is_space(text[0]));
        assert forall|j: int| 0 <= j < n - 1 implies is_space(rest[j]) by {
            assert(is_space(text[j + 1]));
        }
        lemma_leading_spaces(rest, n - 1);
    }
}

/// The word at the start of a text ends where the first white space stands.
pub proof fn lemma_leading_word(text: Seq<char>, n: int)
    requires
        0 <= n <= text.len(),
        forall|j: int| 0 <= j < n ==> !is_space(text[j]),
        n < text.len() ==> is_space(text[n]),
    ensures
        leading_word(text) == n,
    decreases n,
{
    if n > 0 {
        let rest = text.skip(1);
        assert(!is_space(text[0]));
        assert forall|j: int| 0 <= j < n - 1 implies !is_space(rest[j]) by {
            assert(!is_space(text[j + 1]));
        }
        lemma_leading_word(rest, n - 1);
    }
}

/// The white space at the end of a text begins behind the last other
/// character.
pub proof fn lemma_trailing_spaces(text: Seq<char>, n: int)
    requires
        0 <= n <= text.len(),
        forall|j: int| text.len() - n <= j < text.len() ==> is_space(text[j]),
        n < text.len() ==> !is_space(text[text.len() - n - 1]),
    ensures
        trailing_spaces(text) == n,
    decreases n,
{
    if n > 0 {
        let rest = text.drop_last();
        assert(is_space(text[text.len() - 1]));
        assert forall|j: int| rest.len() - (n - 1) <= j < rest.len() implies is_space(rest[j]) by {
            assert(is_space(text[j]));
        }
        lemma_trailing_spaces(rest, n - 1);
    }
}

/// The bounds of the first word among the characters from `from` up to `to`.
pub fn word_bounds(chars: &Vec<char>, from: usize, to: usize) -> (bounds: (usize, usize))
    requires
        from <= to <= chars@.len(),
    ensures
        from <= bounds.0 <= bounds.1 <= to,
        chars@.subrange(bounds.0 as int, bounds.1 as int) == first_word(
            chars@.subrange(from as int, to as int),
        ),
{
    let ghost text = chars@.subrange(from as int, to as int);
    let mut a = from;
    while a < to && is_whitespace(chars[a])
        invariant
            from <= a <= to <= chars@.len(),
            text == chars@.subrange(from as int, to as int),
            forall|j: int| 0 <= j < a - from ==> is_space(text[j]),
        decreases to - a,
    {
        a += 1;
    }
    let ghost rest = text.skip(a - from);
    let mut b = a;
    while b < to && !is_whitespace(chars[b])
        invariant
            from <= a <= b <= to <= chars@.len(),
            text == chars@.subrange(from as int, to as int),
            rest == text.skip(a - from),
            forall|j: int| 0 <= j < b - a ==> !is_space(rest[j]),
        decreases to - b,
    {
        b += 1;
    }
    proof {
        lemma_leading_spaces(text, a - from);
        lemma_leading_word(rest, b - a);
        assert(chars@.subrange(a as int, b as int) =~= rest.take(b - a));
    }
    (a, b)
}

/// The bounds of what is left of the characters from `from` up to `to`
/// without the white space at the two ends.
pub fn trim_bounds(chars: &Vec<char>, from: usize, to: usize) -> (bounds: (usize, usize))
    requires
        from <= to <= chars@.len(),
    ensures
        from <= bounds.0 <= bounds.1 <= to,
        chars@.subrange(bounds.0 as int, bounds.1 as int) == trimmed(
            chars@.subrange(from as int, to as int),
        ),
{
    let ghost text = chars@.subrange(from as int, to as int);
    let mut a = from;
    while a < to && is_whitespace(chars[a])
        invariant
            from <= a <= to <= chars@.len(),
            text == chars@.subrange(from as int, to as int),
            forall|j: int| 0 <= j < a - from ==> is_space(text[j]),
        decreases to - a,
    {
        a += 1;
    }
    let ghost rest = text.skip(a - from);
    let mut b = to;
    while b > a && is_whitespace(chars[b - 1])
        invariant
            from <= a <= b <= to <= chars@.len(),
            text == chars@.subrange(from as int, to as int),
            rest == text.skip(a - from),
            forall|j: int| b - a <= j < rest.len() ==> is_space(rest[j]),
        decreases b,
    {
        b -= 1;
    }
    proof {
        lemma_leading_spaces(text, a - from);
        lemma_trailing_spaces(rest, to - b);
        assert(chars@.subrange(a as int, b as int) =~= rest.take(rest.len() - (to - b)));
    }
    (a, b)
}

/// The character of a decimal digit.
pub open spec fn digit_char(digit: nat) -> char {
    ('0' as u32 + digit) as char
}

/// The decimal digits of a number, without leading zeros.
pub open spec fn decimal_digits(number: nat) -> Seq<char>
    decreases number,
{
    if number < 10 {
        seq![digit_char(number)]
    } else {
        decimal_digits(number / 10).push(digit_char(number % 10))
    }
}

/// A decimal digit as a text of its own.
pub fn digit_text(digit: u64) -> (text: &'static str)
    requires
        digit < 10,
    ensures
        text@ == seq![digit_char(digit as nat)],
{
    proof {
        reveal_strlit("0");
        reveal_strlit("1");
        reveal_strlit("2");
        reveal_strlit("3");
        reveal_strlit("4");
        reveal_strlit("5");
        reveal_strlit("6");
        reveal_strlit("7");
        reveal_strlit("8");
        reveal_strlit("9");
    }
    let text = match digit {
        0 => "0",
        1 => "1",
        2 => "2",
        3 => "3",
        4 => "4",
        5 => "5",
        6 => "6",
        7 => "7",
        8 => "8",
        _ => "9",
    };
    assert(text@ =~= seq![digit_char(digit as nat)]);
    text
}

/// Writes a number in decimal digits at the end of `out`.
pub fn push_decimal(out: &mut String, number: u64)
    ensures
        final(out)@ == old(out)@ + decimal_digits(number as nat),
    decreases number,
{
    let ghost before = out@;
    if number >= 10 {
        push_decimal(out, number / 10);
    }
    out.append(digit_text(number % 10));
    assert(out@ =~= before + decimal_digits(number as nat));
}

} // verus!
