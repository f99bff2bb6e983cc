//! Text: joining, trimming, splitting, and decimal numbers.

use vstd::prelude::*;

verus! {

/// `String::push`: the text with one more character at its end.
pub assume_specification[ String::push ](text: &mut String, c: char)
    ensures
        final(text)@ == old(text)@.push(c),
;

/// Two texts, one after the other.
pub fn join2(left: &str, right: &str) -> (joined: String)
    ensures
        joined@ == left@ + right@,
{
    let mut joined = left.to_string();
    joined.append(right);
    joined
}

/// Three texts, one after the other.
pub fn join3(first: &str, second: &str, third: &str) -> (joined: String)
    ensures
        joined@ == first@ + second@ + third@,
{
    let mut joined = join2(first, second);
    joined.append(third);
    joined
}

/// The characters of a text.
pub fn chars_of(text: &str) -> (chars: Vec<char>)
    ensures
        chars@ == text@,
{
    let mut chars: Vec<char> = Vec::new();
    for c in it: text.chars()
        invariant
            it.seq() == text@,
            chars@ == text@.take(it.index()),
    {
        chars.push(c);
        proof {
            assert(text@.take(it.index() + 1) =~= text@.take(it.index()).push(c));
        }
    }
    proof {
        assert(text@.take(text@.len() as int) =~= text@);
    }
    chars
}

/// The text of the characters from `from` to before `to`.
pub fn text_between(chars: &Vec<char>, from: usize, to: usize) -> (text: String)
    requires
        from <= to <= chars@.len(),
    ensures
        text@ == chars@.subrange(from as int, to as int),
{
    let mut text = String::new();
    let mut i: usize = from;
    while i < to
        invariant
            from <= i <= to <= chars@.len(),
            text@ == chars@.subrange(from as int, i as int),
        decreases to - i,
    {
        text.push(chars[i]);
        proof {
            assert(chars@.subrange(from as int, i + 1) =~= chars@.subrange(
                from as int,
                i as int,
            ).push(chars@[i as int]));
        }
        i = i + 1;
    }
    text
}

/// Whether a text begins with another.
pub fn starts_with(text: &str, prefix: &str) -> (r: bool)
    ensures
        r == prefix@.is_prefix_of(text@),
{
    let chars = chars_of(text);
    let head = chars_of(prefix);
    if head.len() > chars.len() {
        return false;
    }
    let mut i: usize = 0;
    while i < head.len()
        invariant
            i <= head@.len() <= chars@.len(),
            head@ == prefix@,
            chars@ == text@,
            forall|j: int| 0 <= j < i ==> head@[j] == chars@[j],
        decreases head@.len() - i,
    {
        if head[i] != chars[i] {
            return false;
        }
        i = i + 1;
    }
    proof {
        assert(head@ =~= chars@.subrange(0, head@.len() as int));
    }
    true
}

/// Whether two texts are the same.
pub fn same(a: &str, b: &str) -> (r: bool)
    ensures
        r == (a@ == b@),
{
    a.to_string() == b.to_string()
}

/// The characters that Unicode counts as white space.
pub open spec fn white(c: char) -> bool {
    let n = c as u32;
    ||| 0x9 <= n <= 0xd
    ||| n == 0x20
    ||| n == 0x85
    ||| n == 0xa0
    ||| n == 0x1680
    ||| 0x2000 <= n <= 0x200a
    ||| n == 0x2028
    ||| n == 0x2029
    ||| n == 0x202f
    ||| n == 0x205f
    ||| n == 0x3000
}

/// Whether a character is white space.
pub fn is_white(c: char) -> (r: bool)
    ensures
        r == white(c),
{
    let n: u32 = c as u32;
    (0x9 <= n && n <= 0xd) || n == 0x20 || n == 0x85 || n == 0xa0 || n == 0x1680 || (0x2000 <= n
        && n <= 0x200a) || n == 0x2028 || n == 0x2029 || n == 0x202f || n == 0x205f || n == 0x3000
}

/// The text from its first character that is not white space.
pub open spec fn trimmed_front(text: Seq<char>) -> Seq<char>
    decreases text.len(),
{
    if text.len() > 0 && white(text[0]) {
        trimmed_front(text.drop_first())
    } else {
        text
    }
}

/// The text up to its last character that is not white space.
pub open spec fn trimmed_back(text: Seq<char>) -> Seq<char>
    decreases text.len(),
{
    if text.len() > 0 && white(text.last()) {
        trimmed_back(text.drop_last())
    } else {
        text
    }
}

/// The text without the white space at its ends.
pub open spec fn trimmed(text: Seq<char>) -> Seq<char> {
    trimmed_back(trimmed_front(text))
}

proof fn lemma_trimmed_front(text: Seq<char>)
    ensures
        trimmed_front(text).len() > 0 ==> !white(trimmed_front(text)[0]),
        trimmed_front(text).len() == 0 <==> (forall|i: int|
            0 <= i < text.len() ==> white(#[trigger] text[i])),
    decreases text.len(),
{
    if text.len() > 0 && white(text[0]) {
        let rest = text.drop_first();
        lemma_trimmed_front(rest);
        assert(forall|i: int| 0 <= i < rest.len() ==> #[trigger] rest[i] == text[i + 1]);
        assert(forall|i: int| 0 < i < text.len() ==> #[trigger] text[i] == rest[i - 1]);
    }
}

proof fn lemma_trimmed_back(text: Seq<char>)
    ensures
        trimmed_back(text).len() > 0 ==> !white(trimmed_back(text).last()) && trimmed_back(text)[0]
            == text[0],
        text.len() > 0 && !white(text[0]) ==> trimmed_back(text).len() > 0,
    decreases text.len(),
{
    if text.len() > 0 && white(text.last()) {
        lemma_trimmed_back(text.drop_last());
    }
}

/// A trimmed text has no white space at its ends, and trimming it again changes
/// nothing. Nothing is left exactly of a text that is all white space.
pub proof fn law_trim(text: Seq<char>)
    ensures
        trimmed(text).len() > 0 ==> !white(trimmed(text)[0]) && !white(trimmed(text).last()),
        trimmed(trimmed(text)) == trimmed(text),
        trimmed(text).len() == 0 <==> (forall|i: int|
            0 <= i < text.len() ==> white(#[trigger] text[i])),
{
    lemma_trimmed_front(text);
    lemma_trimmed_back(trimmed_front(text));
}

/// Cuts the white space off both ends.
pub fn trim(text: &str) -> (core: String)
    ensures
        core@ == trimmed(text@),
{
    let chars = chars_of(text);
    let mut from: usize = 0;
    proof {
        assert(chars@.skip(0) =~= chars@);
    }
    while from < chars.len() && is_white(chars[from])
        invariant
            from <= chars@.len(),
            trimmed_front(chars@) == trimmed_front(chars@.skip(from as int)),
        decreases chars@.len() - from,
    {
        proof {
            assert(chars@.skip(from as int).drop_first() =~= chars@.skip(from + 1));
        }
        from = from + 1;
    }
    let mut to: usize = chars.len();
    proof {
        assert(chars@.subrange(from as int, to as int) =~= chars@.skip(from as int));
    }
    while to > from && is_white(chars[to - 1])
        invariant
            from <= to <= chars@.len(),
            trimmed(chars@) == trimmed_back(chars@.subrange(from as int, to as int)),
        decreases to,
    {
        proof {
            assert(chars@.subrange(from as int, to as int).drop_last() =~= chars@.subrange(
                from as int,
                to - 1,
            ));
        }
        to = to - 1;
    }
    text_between(&chars, from, to)
}

/// The character of a decimal digit.
pub open spec fn digit_char(d: nat) -> char {
    (('0' as u32) + d) as char
}

/// Whether a character is a decimal digit.
pub open spec fn is_digit(c: char) -> bool {
    '0' <= c <= '9'
}

/// The value of a decimal digit.
pub open spec fn digit_value(c: char) -> nat {
    ((c as u32) - ('0' as u32)) as nat
}

/// A number in decimal, without leading zeros.
pub open spec fn decimal(n: nat) -> Seq<char>
    decreases n,
{
    if n < 10 {
        seq![digit_char(n)]
    } else {
        decimal(n / 10).push(digit_char(n % 10))
    }
}

/// The number that a row of digits stands for.
pub open spec fn digits_value(digits: Seq<char>) -> nat
    decreases digits.len(),
{
    if digits.len() == 0 {
        0
    } else {
        digits_value(digits.drop_last()) * 10 + digit_value(digits.last())
    }
}

/// The digits of a number with an optional plus sign before it.
pub open spec fn unsigned_body(text: Seq<char>) -> Seq<char> {
    if text.len() > 0 && text[0] == '+' {
        text.drop_first()
    } else {
        text
    }
}

/// The number that a text is, if it is a row of digits, with an optional plus
/// sign before it, whose value is at most `max`.
pub open spec fn parsed_unsigned(text: Seq<char>, max: nat) -> Option<nat> {
    let body = unsigned_body(text);
    if body.len() > 0 && (forall|i: int| 0 <= i < body.len() ==> is_digit(#[trigger] body[i]))
        && digits_value(body) <= max {
        Some(digits_value(body))
    } else {
        None
    }
}

proof fn lemma_prefix_value(digits: Seq<char>, i: int)
    requires
        0 <= i <= digits.len(),
    ensures
        digits_value(digits.take(i)) <= digits_value(digits),
    decreases digits.len() - i,
{
    if i < digits.len() {
        lemma_prefix_value(digits, i + 1);
        assert(digits.take(i + 1).drop_last() =~= digits.take(i));
    } else {
        assert(digits.take(i) =~= digits);
    }
}

/// Reads an unsigned decimal number of at most `max`.
pub fn parse_unsigned(text: &str, max: u64) -> (r: Option<u64>)
    ensures
        (match r {
            Some(n) => Some(n as nat),
            None => None::<nat>,
        }) == parsed_unsigned(text@, max as nat),
{
    let chars = chars_of(text);
    let start: usize = if chars.len() > 0 && chars[0] == '+' {
        1
    } else {
        0
    };
    let ghost body = unsigned_body(text@);
    proof {
        assert(body =~= chars@.subrange(start as int, chars@.len() as int));
    }
    if start == chars.len() {
        return None;
    }
    let mut value: u64 = 0;
    let mut i: usize = start;
    proof {
        assert(body.take(0) =~= Seq::<char>::empty());
    }
    while i < chars.len()
        invariant
            start <= i <= chars@.len(),
            chars@ == text@,
            body == unsigned_body(text@),
            body == chars@.subrange(start as int, chars@.len() as int),
            value == digits_value(body.take(i - start)),
            value <= max,
            forall|j: int| 0 <= j < i - start ==> is_digit(#[trigger] body[j]),
        decreases chars@.len() - i,
    {
        let c: char = chars[i];
        proof {
            assert(body[i - start] == c);
            assert(body.take(i - start + 1).drop_last() =~= body.take(i - start));
            assert(body.take(i - start + 1).last() == c);
            lemma_prefix_value(body, i - start + 1);
        }
        if !('0' <= c && c <= '9') {
            return None;
        }
        let digit: u64 = ((c as u32) - ('0' as u32)) as u64;
        if digit > max || value > (max - digit) / 10 {
            return None;
        }
        value = value * 10 + digit;
        i = i + 1;
    }
    proof {
        assert(body.take(body.len() as int) =~= body);
    }
    Some(value)
}

/// The decimal digits of a number.
pub fn print_unsigned(n: u64) -> (text: String)
    ensures
        text@ == decimal(n as nat),
    decreases n,
{
    let d: u64 = n % 10;
    let c: char = if d == 0 {
        '0'
    } else if d == 1 {
        '1'
    } else if d == 2 {
        '2'
    } else if d == 3 {
        '3'
    } else if d == 4 {
        '4'
    } else if d == 5 {
        '5'
    } else if d == 6 {
        '6'
    } else if d == 7 {
        '7'
    } else if d == 8 {
        '8'
    } else {
        '9'
    };
    proof {
        assert(c == digit_char(d as nat));
    }
    let mut text = if n < 10 {
        String::new()
    } else {
        print_unsigned(n / 10)
    };
    let ghost before = text@;
    text.push(c);
    proof {
        if n < 10 {
            assert(text@ =~= decimal(n as nat));
        }
    }
    text
}

proof fn lemma_decimal_digits(n: nat)
    ensures
        decimal(n).len() > 0,
        forall|i: int| 0 <= i < decimal(n).len() ==> is_digit(#[trigger] decimal(n)[i]),
        digits_value(decimal(n)) == n,
    decreases n,
{
    let d = n % 10;
    assert(is_digit(digit_char(d)) && digit_value(digit_char(d)) == d);
    if n < 10 {
        let s = decimal(n);
        assert(s.drop_last() =~= Seq::<char>::empty());
        assert(digits_value(s.drop_last()) == 0);
    } else {
        lemma_decimal_digits(n / 10);
        let s = decimal(n);
        assert(s.drop_last() =~= decimal(n / 10));
        assert(s.last() == digit_char(d));
    }
}

/// Reading a printed number gives the number back.
pub proof fn law_parse_printed(n: nat, max: nat)
    requires
        n <= max,
    ensures
        parsed_unsigned(decimal(n), max) == Some(n),
{
    lemma_decimal_digits(n);
    assert(decimal(n)[0] != '+') by {
        assert(is_digit(decimal(n)[0]));
    }
}

/// Different numbers are printed differently.
pub proof fn law_decimal_injective(a: nat, b: nat)
    requires
        decimal(a) == decimal(b),
    ensures
        a == b,
{
    lemma_decimal_digits(a);
    lemma_decimal_digits(b);
}

proof fn lemma_front_is_suffix(text: Seq<char>)
    ensures
        trimmed_front(text).len() <= text.len(),
        trimmed_front(text) == text.skip(text.len() - trimmed_front(text).len()),
        forall|i: int|
            0 <= i < text.len() - trimmed_front(text).len() ==> white(#[trigger] text[i]),
    decreases text.len(),
{
    if text.len() > 0 && white(text[0]) {
        let rest = text.drop_first();
        lemma_front_is_suffix(rest);
        let n = text.len() - trimmed_front(text).len();
        assert(trimmed_front(text) =~= text.skip(n));
        assert forall|i: int| 0 <= i < n implies white(#[trigger] text[i]) by {
            if i > 0 {
                assert(rest[i - 1] == text[i]);
            }
        }
    } else {
        assert(text.skip(0) =~= text);
    }
}

proof fn lemma_back_is_prefix(text: Seq<char>)
    ensures
        trimmed_back(text).len() <= text.len(),
        trimmed_back(text) == text.take(trimmed_back(text).len() as int),
        forall|i: int| trimmed_back(text).len() <= i < text.len() ==> white(#[trigger] text[i]),
    decreases text.len(),
{
    if text.len() > 0 && white(text.last()) {
        let rest = text.drop_last();
        lemma_back_is_prefix(rest);
        assert(trimmed_back(text) =~= text.take(trimmed_back(text).len() as int));
        assert forall|i: int| trimmed_back(text).len() <= i < text.len() implies white(
            #[trigger] text[i],
        ) by {
            if i < rest.len() {
                assert(rest[i] == text[i]);
            }
        }
    } else {
        assert(text.take(text.len() as int) =~= text);
    }
}

/// Trimming cuts off white space at the ends and nothing else: what is left is one
/// stretch of the text, and every character before or after it is white space. A text
/// without white space at its ends is left as it is.
pub proof fn law_trim_cuts_white_space_only(text: Seq<char>)
    ensures
        exists|from: int, to: int|
            #![trigger text.subrange(from, to)]
            0 <= from <= to <= text.len() && trimmed(text) == text.subrange(from, to) && (forall|
                i: int,
            |
                0 <= i < from || to <= i < text.len() ==> white(#[trigger] text[i])),
        text.len() > 0 && !white(text[0]) && !white(text.last()) ==> trimmed(text) == text,
        text.len() == 0 ==> trimmed(text) == text,
{
    let front = trimmed_front(text);
    lemma_front_is_suffix(text);
    lemma_back_is_prefix(front);
    let from = text.len() - front.len();
    let to = from + trimmed(text).len();
    assert(trimmed(text) =~= text.subrange(from, to));
    assert forall|i: int| 0 <= i < from || to <= i < text.len() implies white(
        #[trigger] text[i],
    ) by {
        if to <= i {
            assert(front[i - from] == text[i]);
        }
    }
}

/// The only way to cut white space off both ends of a text: a stretch of it that has
/// none at its own ends and is surrounded by nothing else.
pub proof fn law_trim_is_the_only_core(text: Seq<char>, from: int, to: int)
    requires
        0 <= from < to <= text.len(),
        !white(text[from]),
        !white(text[to - 1]),
        forall|i: int| 0 <= i < from || to <= i < text.len() ==> white(#[trigger] text[i]),
    ensures
        trimmed(text) == text.subrange(from, to),
{
    law_trim(text);
    law_trim_cuts_white_space_only(text);
    let (a, b) = choose|a: int, b: int|
        #![trigger text.subrange(a, b)]
        0 <= a <= b <= text.len() && trimmed(text) == text.subrange(a, b) && (forall|i: int|
            0 <= i < a || b <= i < text.len() ==> white(#[trigger] text[i]));
    assert(a <= from && to <= b);
    assert(trimmed(text)[0] == text[a]);
    assert(trimmed(text).last() == text[b - 1]);
}

/// No character that shows on paper counts as white space in ASCII, and those that
/// move the pen do.
pub proof fn law_white_in_ascii(c: char)
    requires
        (c as u32) < 0x80,
    ensures
        white(c) <==> c == ' ' || c == '\t' || c == '\n' || c == '\r' || c == '\u{b}' || c
            == '\u{c}',
{
}

/// What is read as a number is written in decimal digits, with a plus sign before them
/// at most, and the sign and zeros in front change nothing. What holds any other
/// character is no number.
pub proof fn law_parse_forms(text: Seq<char>, max: nat)
    ensures
        parsed_unsigned(Seq::<char>::empty(), max) is None,
        forall|i: int|
            0 <= i < text.len() && !('0' <= #[trigger] text[i] <= '9') && !(i == 0 && text[i]
                == '+') ==> parsed_unsigned(text, max) is None,
        text.len() > 0 && text[0] != '+' ==> parsed_unsigned(seq!['+'] + text, max)
            == parsed_unsigned(text, max),
        text.len() > 0 && text[0] != '+' ==> parsed_unsigned(seq!['0'] + text, max)
            == parsed_unsigned(text, max),
        parsed_unsigned(text, max) matches Some(n) ==> n <= max,
{
    let body = unsigned_body(text);
    assert forall|i: int|
        0 <= i < text.len() && !('0' <= #[trigger] text[i] <= '9') && !(i == 0 && text[i]
            == '+') implies parsed_unsigned(text, max) is None by {
        if text[0] == '+' {
            assert(body[i - 1] == text[i]);
        } else {
            assert(body[i] == text[i]);
        }
    }
    if text.len() > 0 && text[0] != '+' {
        let plus = seq!['+'] + text;
        assert(plus.drop_first() =~= text);
        let zero = seq!['0'] + text;
        lemma_zero_in_front(text);
        assert forall|i: int| 0 <= i < text.len() implies #[trigger] text[i] == zero[i + 1] by {}
        if forall|i: int| 0 <= i < text.len() ==> is_digit(#[trigger] text[i]) {
            assert forall|i: int| 0 <= i < zero.len() implies is_digit(#[trigger] zero[i]) by {
                if i > 0 {
                    assert(zero[i] == text[i - 1]);
                }
            }
        } else {
            let i = choose|i: int| 0 <= i < text.len() && !is_digit(#[trigger] text[i]);
            assert(!is_digit(zero[i + 1]));
        }
    }
}

proof fn lemma_zero_in_front(text: Seq<char>)
    ensures
        digits_value(seq!['0'] + text) == digits_value(text),
    decreases text.len(),
{
    let zero = seq!['0'] + text;
    if text.len() == 0 {
        assert(zero.drop_last() =~= Seq::<char>::empty());
        assert(digits_value(zero.drop_last()) == 0);
    } else {
        lemma_zero_in_front(text.drop_last());
        assert(zero.drop_last() =~= seq!['0'] + text.drop_last());
        assert(zero.last() == text.last());
    }
}

/// A printed number has digits only, begins with no zero unless it is zero itself, and
/// one digit more makes it ten times as great.
pub proof fn law_printed_form(n: nat, d: nat)
    requires
        d < 10,
    ensures
        decimal(n).len() > 0,
        forall|i: int| 0 <= i < decimal(n).len() ==> '0' <= #[trigger] decimal(n)[i] <= '9',
        n > 0 ==> decimal(n)[0] != '0',
        n == 0 ==> decimal(n) == seq!['0'],
        n > 0 ==> decimal(n * 10 + d) == decimal(n) + decimal(d),
        (decimal(d)[0] as u32) == 48 + d,
    decreases n,
{
    lemma_decimal_digits(n);
    assert forall|i: int| 0 <= i < decimal(n).len() implies '0' <= #[trigger] decimal(n)[i]
        <= '9' by {
        assert(is_digit(decimal(n)[i]));
    }
    if n >= 10 {
        law_printed_form(n / 10, d);
        assert(decimal(n)[0] == decimal(n / 10)[0]) by {
            lemma_decimal_digits(n / 10);
        }
    }
    if n > 0 {
        let m = n * 10 + d;
        assert(m / 10 == n && m % 10 == d);
        assert(decimal(m) =~= decimal(n) + decimal(d));
    }
}

/// Beyond ASCII these characters are white space and no others: the next-line and the
/// no-break space, the spaces of general punctuation, the separators of lines and
/// paragraphs, and the Ogham and ideographic spaces.
pub proof fn law_white_beyond_ascii(c: char)
    requires
        c > '\u{7f}',
    ensures
        white(c) <==> (c == '\u{85}' || c == '\u{a0}' || c == '\u{1680}' || '\u{2000}' <= c
            <= '\u{200a}' || c == '\u{2028}' || c == '\u{2029}' || c == '\u{202f}' || c
            == '\u{205f}' || c == '\u{3000}'),
{
}

} // verus!
