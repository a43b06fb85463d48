//! Text helpers: conversion between strings and characters, decimal numbers,
//! CSV quoting and fixed-width labels.
use vstd::prelude::*;
use vstd::string::StringExecFns;

verus! {

/// `String::push` of std appends the given character to the end of the string.
pub assume_specification[ String::push ](s: &mut String, c: char)
    ensures
        final(s)@ == old(s)@.push(c),
;

/// The lower-case form of a text, as std's `str::to_lowercase` gives it.
pub uninterp spec fn lowercase_text(s: Seq<char>) -> Seq<char>;

/// `str::to_lowercase` of std. The Unicode case tables are not written out
/// here: the result is only said to be a function of the text.
#[verifier::external_body]
pub(crate) fn to_lowercase(s: &str) -> (r: String)
    ensures
        r@ == lowercase_text(s@),
{
    s.to_lowercase()
}

/// Whether std's `char::is_alphanumeric` holds of a character.
pub uninterp spec fn alphanumeric_char(c: char) -> bool;

/// `char::is_alphanumeric` of std. The Unicode tables are not written out
/// here: the answer is only said to be a function of the character.
#[verifier::external_body]
pub(crate) fn is_alphanumeric(c: char) -> (r: bool)
    ensures
        r == alphanumeric_char(c),
{
    c.is_alphanumeric()
}

/// The characters of a text.
pub fn chars_of(s: &str) -> (r: Vec<char>)
    ensures
        r@ == s@,
{
    let mut out: Vec<char> = Vec::new();
    for c in it: s.chars()
        invariant
            it.seq() == s@,
            out@ == s@.take(it.index()),
    {
        out.push(c);
    }
    assert(s@.take(s@.len() as int) == s@);
    out
}

/// The text made of `chars[from..to]`.
pub fn text_between(chars: &Vec<char>, from: usize, to: usize) -> (r: String)
    requires
        from <= to <= chars@.len(),
    ensures
        r@ == chars@.subrange(from as int, to as int),
{
    let mut out: String = String::new();
    let mut i: usize = from;
    while i < to
        invariant
            from <= i <= to <= chars@.len(),
            out@ == chars@.subrange(from as int, i as int),
        decreases to - i,
    {
        out.push(chars[i]);
        i += 1;
    }
    out
}

/// A text as an owned string.
pub fn owned(s: &str) -> (r: String)
    ensures
        r@ == s@,
{
    let mut out: String = String::new();
    out.append(s);
    out
}

/// Whether two texts are the same.
pub fn same_text(a: &str, b: &str) -> (r: bool)
    ensures
        r == (a@ == b@),
{
    owned(a) == owned(b)
}

/// Whether a character has the Unicode property `White_Space`.
pub open spec fn white_space(c: char) -> bool {
    let n = c as u32;
    ||| 9 <= n <= 13
    ||| n == 0x20
    ||| n == 0x85
    ||| n == 0xA0
    ||| n == 0x1680
    ||| 0x2000 <= n <= 0x200A
    ||| n == 0x2028
    ||| n == 0x2029
    ||| n == 0x202F
    ||| n == 0x205F
    ||| n == 0x3000
}

/// Whether a character has the Unicode property `White_Space`.
pub fn is_white_space(c: char) -> (r: bool)
    ensures
        r == white_space(c),
{
    let n: u32 = c as u32;
    (9 <= n && n <= 13) || n == 0x20 || n == 0x85 || n == 0xA0 || n == 0x1680 || (0x2000 <= n && n
        <= 0x200A) || n == 0x2028 || n == 0x2029 || n == 0x202F || n == 0x205F || n == 0x3000
}

/// A text without white space at its end.
pub open spec fn end_trimmed(s: Seq<char>) -> Seq<char>
    decreases s.len(),
{
    if s.len() > 0 && white_space(s.last()) {
        end_trimmed(s.drop_last())
    } else {
        s
    }
}

/// A text without white space at its end.
pub fn trim_end(s: &str) -> (r: String)
    ensures
        r@ == end_trimmed(s@),
{
    let chars = chars_of(s);
    let mut end: usize = chars.len();
    assert(chars@.take(end as int) == chars@);
    while end > 0 && is_white_space(chars[end - 1])
        invariant
            end <= chars@.len(),
            end_trimmed(chars@) == end_trimmed(chars@.take(end as int)),
        decreases end,
    {
        assert(chars@.take(end as int).drop_last() == chars@.take(end - 1));
        end -= 1;
    }
    assert(chars@.subrange(0, end as int) == chars@.take(end as int));
    text_between(&chars, 0, end)
}

/// `n` spaces.
pub open spec fn spaces(n: int) -> Seq<char> {
    Seq::new(
        if n < 0 {
            0
        } else {
            n as nat
        },
        |i: int| ' ',
    )
}

/// Appends `n` spaces.
pub fn push_spaces(out: &mut String, n: usize)
    ensures
        final(out)@ == old(out)@ + spaces(n as int),
{
    let ghost start = out@;
    let mut i: usize = 0;
    assert(start + spaces(0) == start);
    while i < n
        invariant
            i <= n,
            out@ == start + spaces(i as int),
        decreases n - i,
    {
        out.push(' ');
        i += 1;
        assert(out@ == start + spaces(i as int));
    }
}

/// A text with spaces before it up to a width; a longer text is kept.
pub open spec fn flush_right(s: Seq<char>, width: int) -> Seq<char> {
    spaces(width - s.len()) + s
}

/// A text with spaces behind it up to a width; a longer text is kept.
pub open spec fn flush_left(s: Seq<char>, width: int) -> Seq<char> {
    s + spaces(width - s.len())
}

/// Appends a text with spaces before it up to a width.
pub fn push_flush_right(out: &mut String, s: &str, width: usize)
    ensures
        final(out)@ == old(out)@ + flush_right(s@, width as int),
{
    let n: usize = chars_of(s).len();
    push_spaces(
        out,
        if n < width {
            width - n
        } else {
            0
        },
    );
    out.append(s);
    assert(spaces(width - s@.len()) == spaces(
        if n < width {
            width - n
        } else {
            0
        },
    ));
    assert(out@ == old(out)@ + flush_right(s@, width as int));
}

/// Appends a text with spaces behind it up to a width.
pub fn push_flush_left(out: &mut String, s: &str, width: usize)
    ensures
        final(out)@ == old(out)@ + flush_left(s@, width as int),
{
    let n: usize = chars_of(s).len();
    out.append(s);
    push_spaces(
        out,
        if n < width {
            width - n
        } else {
            0
        },
    );
    assert(spaces(width - s@.len()) == spaces(
        if n < width {
            width - n
        } else {
            0
        },
    ));
    assert(out@ == old(out)@ + flush_left(s@, width as int));
}

/// The decimal digit `d`, for `d` below ten.
pub open spec fn digit_char(d: nat) -> char {
    (('0' as nat) + d) as char
}

/// The decimal notation of a number, without leading zeros.
pub open spec fn decimal_text(n: nat) -> Seq<char>
    decreases n,
{
    if n < 10 {
        seq![digit_char(n)]
    } else {
        decimal_text(n / 10).push(digit_char(n % 10))
    }
}

/// Appends the decimal notation of `n`.
pub fn push_decimal(out: &mut String, n: u128)
    ensures
        final(out)@ == old(out)@ + decimal_text(n as nat),
    decreases n,
{
    if n >= 10 {
        push_decimal(out, n / 10);
    }
    let d: u8 = (n % 10) as u8;
    out.push((48u8 + d) as char);
    assert(out@ == old(out)@ + decimal_text(n as nat));
}

/// The decimal notation of `n`.
pub fn decimal(n: u64) -> (r: String)
    ensures
        r@ == decimal_text(n as nat),
{
    let mut out: String = String::new();
    push_decimal(&mut out, n as u128);
    assert(out@ == decimal_text(n as nat));
    out
}

/// Whether a character is one of `0` to `9`.
pub open spec fn is_digit_char(c: char) -> bool {
    '0' <= c && c <= '9'
}

/// Whether every character of a text is a decimal digit.
pub open spec fn all_digits(s: Seq<char>) -> bool {
    forall|i: int| 0 <= i < s.len() ==> is_digit_char(#[trigger] s[i])
}

/// The number that a text of decimal digits denotes.
pub open spec fn digits_value(s: Seq<char>) -> nat
    decreases s.len(),
{
    if s.len() == 0 {
        0
    } else {
        (digits_value(s.drop_last()) * 10 + (s.last() as int - '0' as int)) as nat
    }
}

/// A text with one leading plus sign taken off.
pub open spec fn without_plus(s: Seq<char>) -> Seq<char> {
    if s.len() > 0 && s[0] == '+' {
        s.skip(1)
    } else {
        s
    }
}

/// The number a text denotes: an optional plus sign, then one or more decimal
/// digits, up to `max`.
pub open spec fn parsed_number(s: Seq<char>, max: nat) -> Option<nat> {
    let body = without_plus(s);
    if body.len() > 0 && all_digits(body) && digits_value(body) <= max {
        Some(digits_value(body))
    } else {
        None
    }
}

/// Reads `chars[from..to]` as a number of decimal digits alone.
pub fn parse_digits(chars: &Vec<char>, from: usize, to: usize) -> (r: Option<u64>)
    requires
        from <= to <= chars@.len(),
    ensures
        ({
            let body = chars@.subrange(from as int, to as int);
            match r {
                Some(n) => body.len() > 0 && all_digits(body) && digits_value(body) == n,
                None => !(body.len() > 0 && all_digits(body) && digits_value(body) <= u64::MAX),
            }
        }),
{
    let ghost body = chars@.subrange(from as int, to as int);
    if from == to {
        return None;
    }
    let mut value: u64 = 0;
    let mut overflow: bool = false;
    let mut i: usize = from;
    while i < to
        invariant
            from <= i <= to <= chars@.len(),
            body == chars@.subrange(from as int, to as int),
            all_digits(body.take(i - from)),
            !overflow ==> value == digits_value(body.take(i - from)),
            overflow ==> digits_value(body.take(i - from)) > u64::MAX,
        decreases to - i,
    {
        let c = chars[i];
        assert(c == body[i - from]);
        if c < '0' || c > '9' {
            assert(!is_digit_char(body[i - from]));
            return None;
        }
        let d: u64 = (c as u32 - 48) as u64;
        proof {
            let next = body.take(i - from + 1);
            assert(next.drop_last() == body.take(i - from));
            assert(next.last() == c);
        }
        if !overflow {
            let wide: u128 = value as u128 * 10 + d as u128;
            if wide > u64::MAX as u128 {
                overflow = true;
            } else {
                value = wide as u64;
            }
        }
        i += 1;
    }
    assert(body.take(body.len() as int) == body);
    if overflow {
        None
    } else {
        Some(value)
    }
}

/// Reads a text as an unsigned number: an optional plus sign, then digits.
pub fn parse_u64(s: &str) -> (r: Option<u64>)
    ensures
        match r {
            Some(n) => parsed_number(s@, u64::MAX as nat) == Some(n as nat),
            None => parsed_number(s@, u64::MAX as nat) is None,
        },
{
    let chars = chars_of(s);
    let from: usize = if chars.len() > 0 && chars[0] == '+' {
        1
    } else {
        0
    };
    assert(chars@.subrange(from as int, chars@.len() as int) == without_plus(s@));
    parse_digits(&chars, from, chars.len())
}

/// Whether `pat` stands in `s` at position `i`.
pub open spec fn occurs_at(s: Seq<char>, pat: Seq<char>, i: int) -> bool {
    0 <= i && i + pat.len() <= s.len() && s.subrange(i, i + pat.len()) == pat
}

/// The first position from `i` on at which `pat` stands in `s`.
pub open spec fn first_occurrence(s: Seq<char>, pat: Seq<char>, i: int) -> Option<int>
    decreases s.len() - i,
{
    if i < 0 || i + pat.len() > s.len() {
        None
    } else if occurs_at(s, pat, i) {
        Some(i)
    } else if i >= s.len() {
        None
    } else {
        first_occurrence(s, pat, i + 1)
    }
}

/// Whether `pat` stands in `chars` at position `i`.
pub fn stands_at(chars: &Vec<char>, pat: &Vec<char>, i: usize) -> (r: bool)
    ensures
        r == occurs_at(chars@, pat@, i as int),
{
    if i > chars.len() || pat.len() > chars.len() - i {
        return false;
    }
    let mut k: usize = 0;
    while k < pat.len()
        invariant
            k <= pat@.len(),
            i + pat.len() <= chars.len(),
            forall|j: int| 0 <= j < k ==> chars@[i + j] == #[trigger] pat@[j],
        decreases pat@.len() - k,
    {
        if chars[i + k] != pat[k] {
            assert(chars@.subrange(i as int, i + pat@.len())[k as int] != pat@[k as int]);
            return false;
        }
        k += 1;
    }
    assert(chars@.subrange(i as int, i + pat@.len()) == pat@);
    true
}

/// Finds the first position from `from` on at which `pat` stands in `chars`.
pub fn find_from(chars: &Vec<char>, pat: &Vec<char>, from: usize) -> (r: Option<usize>)
    ensures
        match r {
            Some(i) => first_occurrence(chars@, pat@, from as int) == Some(i as int) && from <= i
                && i + pat@.len() <= chars@.len(),
            None => first_occurrence(chars@, pat@, from as int) is None,
        },
{
    let mut i: usize = from;
    loop
        invariant
            from <= i,
            first_occurrence(chars@, pat@, from as int) == first_occurrence(
                chars@,
                pat@,
                i as int,
            ),
        decreases chars@.len() + 1 - i,
    {
        if i > chars.len() || pat.len() > chars.len() - i {
            return None;
        }
        if stands_at(chars, pat, i) {
            return Some(i);
        }
        if i >= chars.len() {
            return None;
        }
        i += 1;
    }
}

/// `Some` position of a first occurrence is one, and none comes before it.
pub proof fn first_occurrence_is_first(s: Seq<char>, pat: Seq<char>, i: int)
    requires
        0 <= i,
    ensures
        match first_occurrence(s, pat, i) {
            Some(p) => i <= p && occurs_at(s, pat, p) && forall|q: int|
                i <= q < p ==> !#[trigger] occurs_at(s, pat, q),
            None => forall|q: int| i <= q ==> !#[trigger] occurs_at(s, pat, q),
        },
    decreases s.len() - i,
{
    if i + pat.len() <= s.len() && !occurs_at(s, pat, i) && i < s.len() {
        first_occurrence_is_first(s, pat, i + 1);
    }
}

/// The texts of a list of strings.
pub open spec fn texts(parts: Seq<String>) -> Seq<Seq<char>> {
    parts.map_values(|p: String| p@)
}

/// Texts one after the other, with a separator between them.
pub open spec fn joined(parts: Seq<Seq<char>>, sep: Seq<char>) -> Seq<char>
    decreases parts.len(),
{
    if parts.len() == 0 {
        Seq::empty()
    } else if parts.len() == 1 {
        parts[0]
    } else {
        joined(parts.drop_last(), sep) + sep + parts.last()
    }
}

/// Strings one after the other, with a separator between them.
pub fn join(parts: &Vec<String>, sep: &str) -> (r: String)
    ensures
        r@ == joined(texts(parts@), sep@),
{
    let mut out: String = String::new();
    let mut i: usize = 0;
    let ghost all = texts(parts@);
    assert(out@ == joined(all.take(0), sep@));
    while i < parts.len()
        invariant
            i <= parts@.len(),
            all == texts(parts@),
            out@ == joined(all.take(i as int), sep@),
        decreases parts@.len() - i,
    {
        assert(all.take(i + 1).drop_last() == all.take(i as int));
        assert(all.take(i + 1).last() == parts@[i as int]@);
        if i > 0 {
            out.append(sep);
        }
        out.append(parts[i].as_str());
        proof {
            if i == 0 {
                assert(out@ == all.take(1)[0]);
            }
        }
        i += 1;
    }
    assert(all.take(all.len() as int) == all);
    out
}

/// Whether `pat` stands anywhere in `s`.
pub open spec fn holds_text(s: Seq<char>, pat: Seq<char>) -> bool {
    exists|i: int| #[trigger] occurs_at(s, pat, i)
}

/// Whether `pat` stands anywhere in `s`.
pub fn contains_text(s: &str, pat: &str) -> (r: bool)
    ensures
        r == holds_text(s@, pat@),
{
    let chars = chars_of(s);
    let pattern = chars_of(pat);
    proof {
        first_occurrence_is_first(chars@, pattern@, 0);
    }
    match find_from(&chars, &pattern, 0) {
        Some(_) => true,
        None => {
            proof {
                if holds_text(chars@, pattern@) {
                    let i = choose|i: int| #[trigger] occurs_at(chars@, pattern@, i);
                    assert(0 <= i);
                }
            }
            false
        },
    }
}

/// The end of the run of decimal digits that starts at `i`.
pub open spec fn digits_end(s: Seq<char>, i: int) -> int
    decreases s.len() - i,
{
    if 0 <= i < s.len() && is_digit_char(s[i]) {
        digits_end(s, i + 1)
    } else {
        i
    }
}

/// Skips the run of decimal digits that starts at `from`.
pub fn skip_digits(chars: &Vec<char>, from: usize) -> (r: usize)
    requires
        from <= chars@.len(),
    ensures
        r == digits_end(chars@, from as int),
        from <= r <= chars@.len(),
        all_digits(chars@.subrange(from as int, r as int)),
{
    let mut i: usize = from;
    while i < chars.len() && chars[i] >= '0' && chars[i] <= '9'
        invariant
            from <= i <= chars@.len(),
            digits_end(chars@, from as int) == digits_end(chars@, i as int),
            forall|j: int| from <= j < i ==> is_digit_char(#[trigger] chars@[j]),
        decreases chars@.len() - i,
    {
        i += 1;
    }
    i
}

/// Whether a character makes a CSV field need quotes.
pub open spec fn csv_special(c: char) -> bool {
    c == ',' || c == '"' || c == '\n' || c == '\r'
}

/// Whether a CSV field needs quotes.
pub open spec fn csv_needs_quotes(s: Seq<char>) -> bool {
    exists|i: int| 0 <= i < s.len() && csv_special(#[trigger] s[i])
}

/// A text with every double quote written twice.
pub open spec fn quotes_doubled(s: Seq<char>) -> Seq<char>
    decreases s.len(),
{
    if s.len() == 0 {
        Seq::empty()
    } else if s.last() == '"' {
        quotes_doubled(s.drop_last()).push('"').push('"')
    } else {
        quotes_doubled(s.drop_last()).push(s.last())
    }
}

/// The CSV form of a field after RFC 4180.
pub open spec fn csv_field(s: Seq<char>) -> Seq<char> {
    if csv_needs_quotes(s) {
        seq!['"'] + quotes_doubled(s) + seq!['"']
    } else {
        s
    }
}

/// Quotes a CSV field per RFC 4180 when it contains a comma, quote, or newline
/// (grid/block values like `[32,1,1]` contain commas). Inner quotes are doubled.
pub fn csv_escape(field: &str) -> (r: String)
    ensures
        r@ == csv_field(field@),
{
    let chars = chars_of(field);
    let mut special: bool = false;
    let mut i: usize = 0;
    while i < chars.len()
        invariant
            i <= chars@.len(),
            special == exists|j: int| 0 <= j < i && csv_special(#[trigger] chars@[j]),
        decreases chars@.len() - i,
    {
        let c = chars[i];
        if c == ',' || c == '"' || c == '\n' || c == '\r' {
            special = true;
            assert(csv_special(chars@[i as int]));
        }
        i += 1;
    }
    if !special {
        return owned(field);
    }
    let mut out: String = String::new();
    out.push('"');
    let mut k: usize = 0;
    assert(chars@.take(0) == Seq::<char>::empty());
    while k < chars.len()
        invariant
            k <= chars@.len(),
            out@ == seq!['"'] + quotes_doubled(chars@.take(k as int)),
        decreases chars@.len() - k,
    {
        let c = chars[k];
        proof {
            let next = chars@.take(k + 1);
            assert(next.drop_last() == chars@.take(k as int));
            assert(next.last() == c);
        }
        if c == '"' {
            out.push('"');
        }
        out.push(c);
        k += 1;
        assert(out@ == seq!['"'] + quotes_doubled(chars@.take(k as int)));
    }
    assert(chars@.take(chars@.len() as int) == chars@);
    out.push('"');
    assert(out@ == seq!['"'] + quotes_doubled(chars@) + seq!['"']);
    out
}

/// What a reader of CSV makes of a text behind an opening quote: the field up to
/// the closing quote, two quotes standing for one, and the rest behind it.
pub open spec fn read_quoted(s: Seq<char>) -> (Seq<char>, Seq<char>)
    decreases s.len(),
{
    if s.len() == 0 {
        (Seq::empty(), Seq::empty())
    } else if s[0] != '"' {
        let next = read_quoted(s.skip(1));
        (seq![s[0]] + next.0, next.1)
    } else if s.len() > 1 && s[1] == '"' {
        let next = read_quoted(s.skip(2));
        (seq!['"'] + next.0, next.1)
    } else {
        (Seq::empty(), s.skip(1))
    }
}

/// What a reader of CSV makes of a text that starts without a quote: the field up
/// to the first special character, and the rest.
pub open spec fn read_plain(s: Seq<char>) -> (Seq<char>, Seq<char>)
    decreases s.len(),
{
    if s.len() == 0 || csv_special(s[0]) {
        (Seq::empty(), s)
    } else {
        let next = read_plain(s.skip(1));
        (seq![s[0]] + next.0, next.1)
    }
}

/// The first field of a CSV text after RFC 4180, and what follows it.
pub open spec fn read_csv_field(s: Seq<char>) -> (Seq<char>, Seq<char>) {
    if s.len() > 0 && s[0] == '"' {
        read_quoted(s.skip(1))
    } else {
        read_plain(s)
    }
}

/// Doubling quotes goes character by character from the front, too.
proof fn lemma_quotes_doubled_front(s: Seq<char>)
    requires
        s.len() > 0,
    ensures
        quotes_doubled(s) == (if s[0] == '"' {
            seq!['"', '"']
        } else {
            seq![s[0]]
        }) + quotes_doubled(s.skip(1)),
    decreases s.len(),
{
    if s.len() == 1 {
        assert(s.drop_last() == Seq::<char>::empty());
        assert(s.skip(1) == Seq::<char>::empty());
        assert(quotes_doubled(Seq::<char>::empty()) == Seq::<char>::empty());
    } else {
        lemma_quotes_doubled_front(s.drop_last());
        assert(s.drop_last().skip(1) == s.skip(1).drop_last());
        assert(s.skip(1).last() == s.last());
    }
}

proof fn lemma_read_quoted(field: Seq<char>, tail: Seq<char>)
    requires
        tail.len() == 0 || tail[0] != '"',
    ensures
        read_quoted(quotes_doubled(field) + seq!['"'] + tail) == (field, tail),
    decreases field.len(),
{
    let whole = quotes_doubled(field) + seq!['"'] + tail;
    if field.len() == 0 {
        assert(whole.skip(1) == tail);
        if tail.len() > 0 {
            assert(whole[1] == tail[0]);
        }
    } else {
        lemma_quotes_doubled_front(field);
        lemma_read_quoted(field.skip(1), tail);
        let rest = quotes_doubled(field.skip(1)) + seq!['"'] + tail;
        if field[0] == '"' {
            assert(whole[0] == '"' && whole[1] == '"');
            assert(whole.skip(2) == rest);
        } else {
            assert(whole[0] == field[0]);
            assert(whole.skip(1) == rest);
        }
        assert(seq![field[0]] + field.skip(1) == field);
    }
}

proof fn lemma_read_plain(field: Seq<char>, tail: Seq<char>)
    requires
        !csv_needs_quotes(field),
        tail.len() == 0 || csv_special(tail[0]),
    ensures
        read_plain(field + tail) == (field, tail),
    decreases field.len(),
{
    if field.len() == 0 {
        assert(field + tail == tail);
    } else {
        assert(!csv_special(field[0]));
        assert forall|i: int| 0 <= i < field.skip(1).len() implies !csv_special(
            #[trigger] field.skip(1)[i],
        ) by {
            assert(field.skip(1)[i] == field[i + 1]);
        }
        lemma_read_plain(field.skip(1), tail);
        assert((field + tail).skip(1) == field.skip(1) + tail);
        assert((field + tail)[0] == field[0]);
        assert(seq![field[0]] + field.skip(1) == field);
    }
}

/// A reader of CSV gets every field back, and stands at what follows it, whether
/// that is a separator, a line end or nothing.
pub proof fn csv_fields_are_read_back(field: Seq<char>, tail: Seq<char>)
    requires
        tail.len() == 0 || tail[0] == ',' || tail[0] == '\n' || tail[0] == '\r',
    ensures
        read_csv_field(csv_field(field) + tail) == (field, tail),
{
    let whole = csv_field(field) + tail;
    if csv_needs_quotes(field) {
        lemma_read_quoted(field, tail);
        assert(whole[0] == '"');
        assert(whole.skip(1) == quotes_doubled(field) + seq!['"'] + tail);
    } else {
        lemma_read_plain(field, tail);
        if field.len() > 0 {
            assert(!csv_special(field[0]));
            assert(whole[0] == field[0]);
        } else if tail.len() > 0 {
            assert(whole[0] == tail[0]);
        }
    }
}

/// The longest label of at most `max` characters for a text: the text itself
/// when it fits, otherwise its start followed by an ellipsis.
pub open spec fn ellipsized(s: Seq<char>, max: nat) -> Seq<char> {
    if max == 0 {
        Seq::empty()
    } else if s.len() <= max {
        s
    } else if max == 1 {
        seq!['.']
    } else {
        s.take(max - 1).push('\u{2026}')
    }
}

/// Shortens a text to at most `max_chars` characters.
pub fn ellipsize(s: &str, max_chars: usize) -> (r: String)
    ensures
        r@ == ellipsized(s@, max_chars as nat),
{
    if max_chars == 0 {
        return String::new();
    }
    let chars = chars_of(s);
    if chars.len() <= max_chars {
        owned(s)
    } else if max_chars == 1 {
        let mut out: String = String::new();
        out.push('.');
        assert(out@ == seq!['.']);
        out
    } else {
        let mut out = text_between(&chars, 0, max_chars - 1);
        out.push('\u{2026}');
        out
    }
}

/// A text made exactly `width` characters wide: padded with spaces on the
/// right, or shortened.
pub open spec fn padded(s: Seq<char>, width: nat) -> Seq<char> {
    if s.len() < width {
        s + Seq::new((width - s.len()) as nat, |i: int| ' ')
    } else {
        ellipsized(s, width)
    }
}

/// Pads or shortens a text to exactly `width` characters.
pub fn pad_to(s: String, width: usize) -> (r: String)
    ensures
        r@ == padded(s@, width as nat),
{
    let n: usize = chars_of(s.as_str()).len();
    if n < width {
        let mut out: String = s;
        let mut i: usize = n;
        while i < width
            invariant
                n <= i <= width,
                n == s@.len(),
                out@ == s@ + Seq::new((i - n) as nat, |j: int| ' '),
            decreases width - i,
        {
            out.push(' ');
            i += 1;
        }
        out
    } else {
        ellipsize(s.as_str(), width)
    }
}

/// Every label of `pad_to` is exactly as wide as asked.
pub proof fn padded_is_exactly_as_wide(s: Seq<char>, width: nat)
    ensures
        padded(s, width).len() == width,
{
}

/// What is written in decimal is made of digits alone.
proof fn lemma_decimal_digits(n: nat)
    ensures
        decimal_text(n).len() > 0,
        all_digits(decimal_text(n)),
        digits_value(decimal_text(n)) == n,
    decreases n,
{
    let s = decimal_text(n);
    if n < 10 {
        assert(s.drop_last() == Seq::<char>::empty());
        assert(digits_value(s.drop_last()) == 0);
    } else {
        lemma_decimal_digits(n / 10);
        assert(s.drop_last() == decimal_text(n / 10));
    }
}

/// A number written in decimal is read back as that number, within the limit.
pub proof fn decimals_are_read_back(n: nat, max: nat)
    ensures
        parsed_number(decimal_text(n), max) == if n <= max {
            Some(n)
        } else {
            None
        },
{
    lemma_decimal_digits(n);
    assert(is_digit_char(decimal_text(n)[0]));
    assert(without_plus(decimal_text(n)) == decimal_text(n));
}

} // verus!
