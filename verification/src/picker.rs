//! Choosing trace files: reading the selection line, and the texts shown for
//! each file.
use vstd::prelude::*;
use vstd::string::StringExecFns;
use crate::names;
use crate::scalar::Scalar;
use crate::sort::{self, sort_order, SortKey};
use crate::text::{
    self, chars_of, is_white_space, owned, parse_u64, push_decimal, skip_digits, stands_at,
    text_between,
};

verus! {

/// Why a selection line was refused.
#[derive(Debug, Clone)]
pub enum SelectionError {
    /// This part of the line is not a number.
    Invalid(String),
    /// No file has this number.
    OutOfRange(usize),
}

impl SelectionError {
    /// The message shown for the error.
    pub fn message(&self) -> (r: String)
        ensures
            r@ == match *self {
                SelectionError::Invalid(tok) => "Invalid selection: "@ + tok@,
                SelectionError::OutOfRange(n) => "Selection out of range: "@
                    + crate::text::decimal_text(n as nat),
            },
    {
        match self {
            SelectionError::Invalid(tok) => {
                let mut out = owned("Invalid selection: ");
                out.append(tok.as_str());
                out
            },
            SelectionError::OutOfRange(n) => {
                let mut out = owned("Selection out of range: ");
                push_decimal(&mut out, *n as u128);
                out
            },
        }
    }
}

/// A text without white space at its ends.
pub open spec fn trimmed(s: Seq<char>) -> Seq<char>
    decreases s.len(),
{
    if s.len() > 0 && text::white_space(s[0]) {
        trimmed(s.skip(1))
    } else if s.len() > 0 && text::white_space(s.last()) {
        trimmed(s.drop_last())
    } else {
        s
    }
}

/// A text without NUL characters at its ends.
pub open spec fn nul_trimmed(s: Seq<char>) -> Seq<char>
    decreases s.len(),
{
    if s.len() > 0 && s[0] == '\0' {
        nul_trimmed(s.skip(1))
    } else if s.len() > 0 && s.last() == '\0' {
        nul_trimmed(s.drop_last())
    } else {
        s
    }
}

/// What a selection line says, without the blanks and NULs around it.
pub open spec fn selection_body(line: Seq<char>) -> Seq<char> {
    nul_trimmed(trimmed(line))
}

/// Whether a character separates two numbers.
pub open spec fn separator(c: char) -> bool {
    c == ' ' || c == ','
}

/// The end of the part that starts at `i`.
pub open spec fn part_end(s: Seq<char>, i: int) -> int
    decreases s.len() - i,
{
    if 0 <= i < s.len() && !separator(s[i]) {
        part_end(s, i + 1)
    } else {
        i
    }
}

proof fn lemma_part_end(s: Seq<char>, i: int)
    requires
        0 <= i <= s.len(),
    ensures
        i <= part_end(s, i) <= s.len(),
    decreases s.len() - i,
{
    if i < s.len() && !separator(s[i]) {
        lemma_part_end(s, i + 1);
    }
}

/// The non-empty parts between separators, from position `i` on.
pub open spec fn parts_from(s: Seq<char>, i: int) -> Seq<Seq<char>>
    decreases s.len() - i,
    via parts_from_decreases
{
    if i < 0 || i >= s.len() {
        Seq::empty()
    } else if separator(s[i]) {
        parts_from(s, i + 1)
    } else {
        seq![s.subrange(i, part_end(s, i))] + parts_from(s, part_end(s, i))
    }
}

#[via_fn]
proof fn parts_from_decreases(s: Seq<char>, i: int) {
    if 0 <= i < s.len() && !separator(s[i]) {
        lemma_part_end(s, i + 1);
    }
}

/// Whether a selection line asks to quit: it is empty, `q` or `Q`.
pub open spec fn asks_to_quit(body: Seq<char>) -> bool {
    body.len() == 0 || (body.len() == 1 && (body[0] == 'q' || body[0] == 'Q'))
}

/// The number that a part of a selection line denotes.
pub open spec fn part_number(part: Seq<char>) -> Option<nat> {
    crate::text::parsed_number(part, usize::MAX as nat)
}

/// Whether a part of a selection line names one of `count` files.
pub open spec fn names_file(part: Seq<char>, count: usize) -> bool {
    match part_number(part) {
        Some(n) => 1 <= n <= count,
        None => false,
    }
}

/// `chars[from..to]` without white space or NULs at its ends.
fn trim_range(chars: &Vec<char>) -> (r: (usize, usize))
    ensures
        r.0 <= r.1 <= chars@.len(),
        chars@.subrange(r.0 as int, r.1 as int) == selection_body(chars@),
{
    let mut a: usize = 0;
    let mut b: usize = chars.len();
    assert(chars@.subrange(0, chars@.len() as int) == chars@);
    while a < b && is_white_space(chars[a])
        invariant
            a <= b <= chars@.len(),
            trimmed(chars@) == trimmed(chars@.subrange(a as int, b as int)),
        decreases b - a,
    {
        assert(chars@.subrange(a as int, b as int).skip(1) == chars@.subrange(a + 1, b as int));
        a += 1;
    }
    while a < b && is_white_space(chars[b - 1])
        invariant
            a <= b <= chars@.len(),
            a < b ==> !text::white_space(chars@[a as int]),
            trimmed(chars@) == trimmed(chars@.subrange(a as int, b as int)),
        decreases b - a,
    {
        assert(chars@.subrange(a as int, b as int).drop_last() == chars@.subrange(
            a as int,
            b - 1,
        ));
        b -= 1;
    }
    let ghost t = chars@.subrange(a as int, b as int);
    assert(trimmed(chars@) == t);
    while a < b && chars[a] == '\0'
        invariant
            a <= b <= chars@.len(),
            nul_trimmed(t) == nul_trimmed(chars@.subrange(a as int, b as int)),
        decreases b - a,
    {
        assert(chars@.subrange(a as int, b as int).skip(1) == chars@.subrange(a + 1, b as int));
        a += 1;
    }
    while a < b && chars[b - 1] == '\0'
        invariant
            a <= b <= chars@.len(),
            a < b ==> chars@[a as int] != '\0',
            nul_trimmed(t) == nul_trimmed(chars@.subrange(a as int, b as int)),
        decreases b - a,
    {
        assert(chars@.subrange(a as int, b as int).drop_last() == chars@.subrange(
            a as int,
            b - 1,
        ));
        b -= 1;
    }
    (a, b)
}

/// Parses a picker selection line into 1-based indices. Accepts space- and/or
/// comma-separated numbers (e.g. "1 3", "1,3", "2, 4 5"). Returns `None` for an
/// empty line or a quit request ("q"); an error on the first part that is no
/// number or out of range. Duplicates are preserved in the order given.
pub fn parse_selection(input: &str, count: usize) -> (r: Result<
    Option<Vec<usize>>,
    SelectionError,
>)
    ensures
        ({
            let body = selection_body(input@);
            let parts = parts_from(body, 0);
            match r {
                Ok(None) => asks_to_quit(body) || parts.len() == 0,
                Ok(Some(chosen)) => {
                    &&& !asks_to_quit(body)
                    &&& parts.len() > 0
                    &&& chosen@.len() == parts.len()
                    &&& forall|i: int|
                        0 <= i < parts.len() ==> names_file(#[trigger] parts[i], count)
                            && part_number(parts[i]) == Some(chosen@[i] as nat)
                },
                Err(e) => !asks_to_quit(body) && exists|i: int|
                    {
                        &&& 0 <= i < parts.len()
                        &&& forall|j: int| 0 <= j < i ==> names_file(#[trigger] parts[j], count)
                        &&& !names_file(#[trigger] parts[i], count)
                        &&& match e {
                            SelectionError::Invalid(tok) => part_number(parts[i]) is None && tok@
                                == parts[i],
                            SelectionError::OutOfRange(n) => part_number(parts[i]) == Some(
                                n as nat,
                            ),
                        }
                    },
            }
        }),
{
    let all = chars_of(input);
    let (a, b) = trim_range(&all);
    let text = text_between(&all, a, b);
    let body = chars_of(text.as_str());
    let n: usize = body.len();
    if n == 0 || (n == 1 && (body[0] == 'q' || body[0] == 'Q')) {
        return Ok(None);
    }
    let ghost parts = parts_from(body@, 0);
    let mut chosen: Vec<usize> = Vec::new();
    let mut i: usize = 0;
    assert(parts.skip(0) == parts);
    while i < n
        invariant
            i <= n == body@.len(),
            body@ == selection_body(input@),
            !asks_to_quit(body@),
            parts == parts_from(body@, 0),
            chosen@.len() <= parts.len(),
            parts.skip(chosen@.len() as int) == parts_from(body@, i as int),
            forall|j: int|
                0 <= j < chosen@.len() ==> names_file(#[trigger] parts[j], count) && part_number(
                    parts[j],
                ) == Some(chosen@[j] as nat),
        decreases n - i,
    {
        if body[i] == ' ' || body[i] == ',' {
            i += 1;
            continue;
        }
        let mut e: usize = i;
        while e < n && body[e] != ' ' && body[e] != ','
            invariant
                i <= e <= n == body@.len(),
                part_end(body@, i as int) == part_end(body@, e as int),
            decreases n - e,
        {
            e += 1;
        }
        let tok = text_between(&body, i, e);
        let ghost k = chosen@.len() as int;
        proof {
            let rest = parts_from(body@, i as int);
            assert(rest.len() > 0);
            assert(parts[k] == parts.skip(k)[0]);
            assert(parts[k] == tok@);
            lemma_part_end(body@, i as int + 1);
            assert(rest.skip(1) == parts_from(body@, e as int));
            assert(parts.skip(k).skip(1) == parts.skip(k + 1));
        }
        let value: Option<u64> = parse_u64(tok.as_str());
        match value {
            Some(v) if v <= usize::MAX as u64 => {
                let num: usize = v as usize;
                if num < 1 || num > count {
                    assert(!names_file(parts[k], count));
                    return Err(SelectionError::OutOfRange(num));
                }
                chosen.push(num);
            },
            _ => {
                assert(part_number(parts[k]) is None);
                assert(!names_file(parts[k], count));
                return Err(SelectionError::Invalid(tok));
            },
        }
        i = e;
    }
    if chosen.len() == 0 {
        return Ok(None);
    }
    Ok(Some(chosen))
}

/// The end of the path component that starts at `i`.
pub open spec fn component_end(s: Seq<char>, i: int) -> int
    decreases s.len() - i,
{
    if 0 <= i < s.len() && s[i] != '/' {
        component_end(s, i + 1)
    } else {
        i
    }
}

proof fn lemma_component_end(s: Seq<char>, i: int)
    requires
        0 <= i <= s.len(),
    ensures
        i <= component_end(s, i) <= s.len(),
    decreases s.len() - i,
{
    if i < s.len() && s[i] != '/' {
        lemma_component_end(s, i + 1);
    }
}

/// The components of a path from position `i` on; empty ones and `.` do not
/// count.
pub open spec fn components_from(s: Seq<char>, i: int) -> Seq<Seq<char>>
    decreases s.len() - i,
    via components_from_decreases
{
    if i < 0 || i >= s.len() {
        Seq::empty()
    } else if s[i] == '/' {
        components_from(s, i + 1)
    } else {
        let part = s.subrange(i, component_end(s, i));
        let rest = components_from(s, component_end(s, i));
        if part == seq!['.'] {
            rest
        } else {
            seq![part] + rest
        }
    }
}

#[via_fn]
proof fn components_from_decreases(s: Seq<char>, i: int) {
    if 0 <= i < s.len() && s[i] != '/' {
        lemma_component_end(s, i + 1);
    }
}

/// The components of a path.
pub fn path_components(path: &str) -> (r: Vec<String>)
    ensures
        text::texts(r@) == components_from(path@, 0),
{
    let chars = chars_of(path);
    let n: usize = chars.len();
    let mut out: Vec<String> = Vec::new();
    let mut i: usize = 0;
    assert(text::texts(out@) + components_from(chars@, 0) == components_from(chars@, 0));
    while i < n
        invariant
            i <= n == chars@.len(),
            text::texts(out@) + components_from(chars@, i as int) == components_from(chars@, 0),
        decreases n - i,
    {
        if chars[i] == '/' {
            i += 1;
            continue;
        }
        let mut e: usize = i;
        while e < n && chars[e] != '/'
            invariant
                i <= e <= n == chars@.len(),
                component_end(chars@, i as int) == component_end(chars@, e as int),
            decreases n - e,
        {
            e += 1;
        }
        proof {
            lemma_component_end(chars@, i + 1);
        }
        let part = text_between(&chars, i, e);
        let ghost rest = components_from(chars@, e as int);
        if e - i == 1 && chars[i] == '.' {
            assert(part@ == seq!['.']);
        } else {
            proof {
                if part@ == seq!['.'] {
                    assert(part@.len() == 1 && part@[0] == '.');
                    assert(part@[0] == chars@[i as int]);
                }
                assert(text::texts(out@.push(part)) == text::texts(out@).push(part@));
                assert(text::texts(out@) + (seq![part@] + rest) == text::texts(out@).push(part@)
                    + rest);
            }
            out.push(part);
        }
        i = e;
    }
    assert(components_from(chars@, n as int) == Seq::<Seq<char>>::empty());
    assert(text::texts(out@) + Seq::<Seq<char>>::empty() == text::texts(out@));
    out
}

/// The file name of a path: its last component, unless that is `..`.
pub open spec fn file_name(path: Seq<char>) -> Option<Seq<char>> {
    let parts = components_from(path, 0);
    if parts.len() == 0 || parts.last() == ".."@ {
        None
    } else {
        Some(parts.last())
    }
}

/// A text without a suffix, however often it ends in it.
pub open spec fn without_suffix(s: Seq<char>, suffix: Seq<char>) -> Seq<char>
    decreases s.len(),
{
    if suffix.len() > 0 && names::has_suffix(s, suffix) {
        without_suffix(s.take(s.len() - suffix.len()), suffix)
    } else {
        s
    }
}

/// A text without a suffix, however often it ends in it.
fn strip_suffix_all(s: String, suffix: &str) -> (r: String)
    requires
        suffix@.len() > 0,
    ensures
        r@ == without_suffix(s@, suffix@),
{
    let chars = chars_of(s.as_str());
    let suf = chars_of(suffix);
    let k: usize = suf.len();
    let mut end: usize = chars.len();
    assert(chars@.take(end as int) == chars@);
    while end >= k && stands_at_end(&chars, end, &suf)
        invariant
            end <= chars@.len(),
            k == suf@.len(),
            k > 0,
            suf@ == suffix@,
            without_suffix(chars@, suf@) == without_suffix(chars@.take(end as int), suf@),
        decreases end,
    {
        assert(chars@.take(end as int).take(end - k) == chars@.take(end - k));
        end -= k;
    }
    assert(chars@.subrange(0, end as int) == chars@.take(end as int));
    text_between(&chars, 0, end)
}

/// Whether the first `end` characters end in a suffix.
fn stands_at_end(chars: &Vec<char>, end: usize, suffix: &Vec<char>) -> (r: bool)
    requires
        suffix@.len() <= end <= chars@.len(),
    ensures
        r == names::has_suffix(chars@.take(end as int), suffix@),
{
    let at: usize = end - suffix.len();
    let r = stands_at(chars, suffix, at);
    proof {
        assert(chars@.take(end as int).subrange(at as int, end as int) == chars@.subrange(
            at as int,
            end as int,
        ));
    }
    r
}

/// The label of a trace: its file name without the endings of a trace file;
/// `trace` where nothing is left.
pub open spec fn label_of(path: Seq<char>) -> Seq<char> {
    match file_name(path) {
        Some(name) => {
            let stem = without_suffix(
                without_suffix(without_suffix(name, ".gz"@), ".json"@),
                ".pt.trace"@,
            );
            if stem.len() == 0 {
                "trace"@
            } else {
                stem
            }
        },
        None => "trace"@,
    }
}

/// The label of a trace file. The position of the file among several does not
/// matter.
pub fn trace_label(path: &str, _index: usize) -> (r: String)
    ensures
        r@ == label_of(path@),
{
    let mut parts = path_components(path);
    let name = match parts.pop() {
        Some(name) => name,
        None => {
            return owned("trace");
        },
    };
    proof {
        assert(components_from(path@, 0).last() == name@);
        reveal_strlit(".gz");
        reveal_strlit(".json");
        reveal_strlit(".pt.trace");
        assert(".gz"@.len() == 3 && ".json"@.len() == 5 && ".pt.trace"@.len() == 9);
    }
    if text::same_text(name.as_str(), "..") {
        return owned("trace");
    }
    let stem = strip_suffix_all(
        strip_suffix_all(strip_suffix_all(name, ".gz"), ".json"),
        ".pt.trace",
    );
    if stem.as_str().is_empty() {
        owned("trace")
    } else {
        stem
    }
}

/// The last position at or before `i` at which `rank` and a digit stand.
pub open spec fn last_rank(s: Seq<char>, i: int) -> Option<int>
    decreases i + 1,
{
    if i < 0 {
        None
    } else if text::occurs_at(s, "rank"@, i) && i + 4 < s.len() && text::is_digit_char(s[i + 4]) {
        Some(i)
    } else {
        last_rank(s, i - 1)
    }
}

/// The rank that a file name tells, such as `rank0`; the label of the file where
/// it tells none.
pub open spec fn rank_label(path: Seq<char>) -> Seq<char> {
    let label = label_of(path);
    match last_rank(label, label.len() as int) {
        Some(i) => label.subrange(i, text::digits_end(label, i + 4)),
        None => label,
    }
}

/// The directory that names a run: the last one of a path above its file that is
/// not called `traces`.
pub open spec fn run_directory(parts: Seq<Seq<char>>) -> Option<Seq<char>>
    decreases parts.len(),
{
    if parts.len() == 0 {
        None
    } else if parts.last() == "traces"@ || parts.last() == ".."@ {
        run_directory(parts.drop_last())
    } else {
        Some(parts.last())
    }
}

/// How a trace file is listed: by run and rank where it lies in the directory of
/// a run, such as `run_a/rank0`; by its name where it does not.
pub open spec fn listed_name(path: Seq<char>) -> Seq<char> {
    let parts = components_from(path, 0);
    if parts.len() == 0 {
        "?"@
    } else {
        match run_directory(parts.drop_last()) {
            Some(run) => run + "/"@ + rank_label(path),
            None => parts.last(),
        }
    }
}

/// The rank that a file name tells.
fn rank_of(path: &str) -> (r: String)
    ensures
        r@ == rank_label(path@),
{
    let label = trace_label(path, 0);
    let chars = chars_of(label.as_str());
    let rank = chars_of("rank");
    proof {
        reveal_strlit("rank");
        assert(rank@.len() == 4);
    }
    let n: usize = chars.len();
    let mut i: usize = n;
    loop
        invariant
            i <= n == chars@.len(),
            rank@ == "rank"@,
            rank@.len() == 4,
            chars@ == label@,
            label@ == label_of(path@),
            last_rank(label@, n as int) == last_rank(label@, i as int),
        decreases i,
    {
        if stands_at(&chars, &rank, i) && n - i > 4 && is_digit(chars[i + 4]) {
            let end: usize = skip_digits(&chars, i + 4);
            return text_between(&chars, i, end);
        }
        if i == 0 {
            assert(last_rank(label@, -1) is None);
            return label;
        }
        i -= 1;
    }
}

/// Whether a character is a decimal digit.
fn is_digit(c: char) -> (r: bool)
    ensures
        r == text::is_digit_char(c),
{
    '0' <= c && c <= '9'
}

/// How a trace file is listed.
pub fn list_name(path: &str) -> (r: String)
    ensures
        r@ == listed_name(path@),
{
    let mut parts = path_components(path);
    let ghost all = text::texts(parts@);
    let last = match parts.pop() {
        Some(last) => last,
        None => {
            return owned("?");
        },
    };
    assert(text::texts(parts@) == all.drop_last());
    while parts.len() > 0
        invariant
            all == components_from(path@, 0),
            all.len() > 0,
            last@ == all.last(),
            run_directory(text::texts(parts@)) == run_directory(all.drop_last()),
        decreases parts@.len(),
    {
        let ghost before = text::texts(parts@);
        if let Some(part) = parts.pop() {
            assert(before.last() == part@);
            assert(before.drop_last() == text::texts(parts@));
            if !text::same_text(part.as_str(), "traces") && !text::same_text(part.as_str(), "..") {
                let mut out = part;
                out.append("/");
                out.append(rank_of(path).as_str());
                return out;
            }
        }
    }
    last
}

/// A decimal number with zeros before it up to a width.
pub open spec fn zero_padded(n: nat, width: nat) -> Seq<char> {
    let digits = text::decimal_text(n);
    if digits.len() < width {
        Seq::new((width - digits.len()) as nat, |i: int| '0') + digits
    } else {
        digits
    }
}

/// Appends a decimal number with zeros before it up to a width.
fn push_zero_padded(out: &mut String, n: u64, width: usize)
    ensures
        final(out)@ == old(out)@ + zero_padded(n as nat, width as nat),
{
    let digits = text::decimal(n);
    let len: usize = chars_of(digits.as_str()).len();
    let ghost start = out@;
    let mut i: usize = len;
    while i < width
        invariant
            len == digits@.len(),
            len <= i,
            i <= width || i == len,
            out@ == start + Seq::new((i - len) as nat, |j: int| '0'),
        decreases width - i,
    {
        out.push('0');
        i += 1;
        assert(out@ == start + Seq::new((i - len) as nat, |j: int| '0'));
    }
    out.append(digits.as_str());
    assert(out@ == start + zero_padded(n as nat, width as nat));
}

/// Whether a year has a leap day.
pub open spec fn leap_year(y: int) -> bool {
    y % 4 == 0 && (y % 100 != 0 || y % 400 == 0)
}

/// The days of a year.
pub open spec fn year_days(y: int) -> int {
    if leap_year(y) {
        366
    } else {
        365
    }
}

/// The days from the start of 1970 to the start of a year.
pub open spec fn days_before_year(y: int) -> int
    decreases y - 1970,
{
    if y <= 1970 {
        0
    } else {
        days_before_year(y - 1) + year_days(y - 1)
    }
}

/// The days of a month.
pub open spec fn month_days(y: int, month: int) -> int {
    if month == 2 {
        if leap_year(y) {
            29
        } else {
            28
        }
    } else if month == 4 || month == 6 || month == 9 || month == 11 {
        30
    } else {
        31
    }
}

/// The days from the start of a year to the start of a month.
pub open spec fn days_before_month(y: int, month: int) -> int
    decreases month,
{
    if month <= 1 {
        0
    } else {
        days_before_month(y, month - 1) + month_days(y, month - 1)
    }
}

/// Whether the day number `days`, counted from the start of 1970, is this date.
pub open spec fn is_date(days: int, y: int, month: int, day: int) -> bool {
    &&& 1970 <= y
    &&& 1 <= month <= 12
    &&& 1 <= day <= month_days(y, month)
    &&& days == days_before_year(y) + days_before_month(y, month) + day - 1
}

/// A point in time as `YYYY-MM-DD HH:MM:SS`.
pub open spec fn date_text(y: int, month: int, day: int, h: int, m: int, s: int) -> Seq<char> {
    zero_padded(y as nat, 4) + "-"@ + zero_padded(month as nat, 2) + "-"@ + zero_padded(
        day as nat,
        2,
    ) + " "@ + zero_padded(h as nat, 2) + ":"@ + zero_padded(m as nat, 2) + ":"@ + zero_padded(
        s as nat,
        2,
    )
}

proof fn lemma_year_is_its_months(y: int)
    ensures
        days_before_month(y, 12) + 31 == year_days(y),
{
    reveal_with_fuel(days_before_month, 13);
}

/// Whether a year has a leap day.
fn is_leap_year(y: u64) -> (r: bool)
    ensures
        r == leap_year(y as int),
{
    y % 4 == 0 && (y % 100 != 0 || y % 400 == 0)
}

/// The days of a month.
fn days_in_month(y: u64, month: u64) -> (r: u64)
    ensures
        r == month_days(y as int, month as int),
        28 <= r <= 31,
{
    if month == 2 {
        if is_leap_year(y) {
            29
        } else {
            28
        }
    } else if month == 4 || month == 6 || month == 9 || month == 11 {
        30
    } else {
        31
    }
}

/// The date of the day number `days`, counted from the start of 1970.
fn date_of(days: u64) -> (r: (u64, u64, u64))
    requires
        days <= u64::MAX / 86400,
    ensures
        is_date(days as int, r.0 as int, r.1 as int, r.2 as int),
{
    let mut y: u64 = 1970;
    let mut d: u64 = days;
    loop
        invariant_except_break
            1970 <= y,
            days <= u64::MAX / 86400,
            days == days_before_year(y as int) + d,
            y - 1970 + d <= days,
        ensures
            1970 <= y,
            days == days_before_year(y as int) + d,
            d < year_days(y as int),
        decreases d,
    {
        let len: u64 = if is_leap_year(y) {
            366
        } else {
            365
        };
        if d < len {
            break;
        }
        d -= len;
        y += 1;
    }
    let mut month: u64 = 1;
    let mut rest: u64 = d;
    proof {
        lemma_year_is_its_months(y as int);
    }
    while month < 12 && rest >= days_in_month(y, month)
        invariant
            1 <= month <= 12,
            1970 <= y,
            d < year_days(y as int),
            d == days_before_month(y as int, month as int) + rest,
            days_before_month(y as int, 12) + 31 == year_days(y as int),
        decreases 12 - month,
    {
        rest -= days_in_month(y, month);
        month += 1;
    }
    (y, month, rest + 1)
}

/// A modification time, in seconds since the start of 1970, as
/// `YYYY-MM-DD HH:MM:SS`.
pub fn format_mtime(secs: u64) -> (r: String)
    ensures
        exists|y: int, month: int, day: int| #[trigger]
            is_date(secs as int / 86400, y, month, day) && r@ == date_text(
                y,
                month,
                day,
                (secs as int / 3600) % 24,
                (secs as int / 60) % 60,
                secs as int % 60,
            ),
{
    let s: u64 = secs % 60;
    let m: u64 = (secs / 60) % 60;
    let h: u64 = (secs / 3600) % 24;
    let days: u64 = secs / 86400;
    let (y, month, day) = date_of(days);
    let mut out = String::new();
    push_zero_padded(&mut out, y, 4);
    out.append("-");
    push_zero_padded(&mut out, month, 2);
    out.append("-");
    push_zero_padded(&mut out, day, 2);
    out.append(" ");
    push_zero_padded(&mut out, h, 2);
    out.append(":");
    push_zero_padded(&mut out, m, 2);
    out.append(":");
    push_zero_padded(&mut out, s, 2);
    assert(out@ == date_text(
        y as int,
        month as int,
        day as int,
        h as int,
        m as int,
        s as int,
    ));
    assert(is_date(secs as int / 86400, y as int, month as int, day as int));
    out
}

proof fn lemma_years_grow(a: int, b: int)
    requires
        1970 <= a <= b,
    ensures
        days_before_year(a) <= days_before_year(b),
        a < b ==> days_before_year(a) + year_days(a) <= days_before_year(b),
    decreases b - a,
{
    if a < b {
        lemma_years_grow(a, b - 1);
    }
}

proof fn lemma_months_grow(y: int, a: int, b: int)
    requires
        1 <= a <= b <= 12,
    ensures
        days_before_month(y, a) <= days_before_month(y, b),
        a < b ==> days_before_month(y, a) + month_days(y, a) <= days_before_month(y, b),
    decreases b - a,
{
    if a < b {
        lemma_months_grow(y, a, b - 1);
    }
}

/// A day has only one date.
pub proof fn dates_are_unique(
    days: int,
    y1: int,
    m1: int,
    d1: int,
    y2: int,
    m2: int,
    d2: int,
)
    requires
        is_date(days, y1, m1, d1),
        is_date(days, y2, m2, d2),
    ensures
        y1 == y2,
        m1 == m2,
        d1 == d2,
{
    lemma_year_is_its_months(y1);
    lemma_year_is_its_months(y2);
    lemma_months_grow(y1, m1, 12);
    lemma_months_grow(y1, 1, m1);
    lemma_months_grow(y2, m2, 12);
    lemma_months_grow(y2, 1, m2);
    if y1 < y2 {
        lemma_years_grow(y1, y2);
    }
    if y2 < y1 {
        lemma_years_grow(y2, y1);
    }
    if m1 < m2 {
        lemma_months_grow(y1, m1, m2);
    }
    if m2 < m1 {
        lemma_months_grow(y1, m2, m1);
    }
}

/// A size divided by 1024 until it is below that, four times at most, with the
/// number of divisions.
pub open spec fn scaled_size<T: Scalar>(size: T, unit: int) -> (T, int)
    decreases 4 - unit,
{
    if unit < 4 && T::whole_spec(1024).at_most_spec(size) {
        scaled_size(size.over_spec(T::whole_spec(1024)), unit + 1)
    } else {
        (size, unit)
    }
}

/// The unit after that many divisions.
pub open spec fn unit_text(unit: int) -> Seq<char> {
    if unit == 0 {
        "B"@
    } else if unit == 1 {
        "KB"@
    } else if unit == 2 {
        "MB"@
    } else if unit == 3 {
        "GB"@
    } else {
        "TB"@
    }
}

/// A file size for reading: with one decimal place, in the largest unit that
/// keeps it at one or more.
pub fn human_size<T: Scalar>(bytes: u64) -> (r: String)
    ensures
        ({
            let (size, unit) = scaled_size(T::whole_spec(bytes), 0);
            r@ == size.show_places_spec(1) + " "@ + unit_text(unit)
        }),
{
    let mut size = T::whole(bytes);
    let mut unit: u32 = 0;
    while unit < 4 && T::whole(1024).at_most(size)
        invariant
            unit <= 4,
            scaled_size(T::whole_spec(bytes), 0) == scaled_size(size, unit as int),
        decreases 4 - unit,
    {
        size = size.over(T::whole(1024));
        unit += 1;
    }
    let mut out = size.show_places(1);
    out.append(" ");
    out.append(
        if unit == 0 {
            "B"
        } else if unit == 1 {
            "KB"
        } else if unit == 2 {
            "MB"
        } else if unit == 3 {
            "GB"
        } else {
            "TB"
        },
    );
    out
}

/// A trace file that can be opened.
#[derive(Debug, Clone)]
pub struct TraceFile {
    pub path: String,
    /// Modification time in seconds since the start of 1970.
    pub mtime_secs: u64,
    /// Nanoseconds past that second.
    pub mtime_nanos: u32,
    /// Size in bytes.
    pub size: u64,
}

/// Sorts later modification times first.
pub struct Newest(pub u64, pub u32);

impl SortKey for Newest {
    open spec fn before_spec(&self, other: &Self) -> bool {
        other.0 < self.0 || (other.0 == self.0 && other.1 < self.1)
    }

    fn before(&self, other: &Self) -> (r: bool) {
        other.0 < self.0 || (other.0 == self.0 && other.1 < self.1)
    }
}

/// The sort keys of files: their modification times.
pub open spec fn file_keys(files: Seq<TraceFile>) -> Seq<Newest> {
    files.map_values(|f: TraceFile| Newest(f.mtime_secs, f.mtime_nanos))
}

/// Files with the newest first; files of the same time keep their order.
pub open spec fn files_by_age(files: Seq<TraceFile>) -> Seq<TraceFile> {
    sort::picked(files, sort::sorted_order(file_keys(files)))
}

/// Whether a file was modified after another.
pub open spec fn is_newer(a: TraceFile, b: TraceFile) -> bool {
    b.mtime_secs < a.mtime_secs || (b.mtime_secs == a.mtime_secs && b.mtime_nanos < a.mtime_nanos)
}

/// Puts the newest file first; files of the same time keep their order.
pub fn newest_first(files: Vec<TraceFile>) -> (r: Vec<TraceFile>)
    ensures
        r@ == files_by_age(files@),
        r@.to_multiset() == files@.to_multiset(),
        forall|i: int, j: int|
            0 <= i < j < r@.len() ==> !is_newer(#[trigger] r@[j], #[trigger] r@[i]),
{
    let ghost source = files@;
    let mut keys: Vec<Newest> = Vec::new();
    let mut i: usize = 0;
    while i < files.len()
        invariant
            i <= files@.len(),
            keys@ == file_keys(files@).take(i as int),
        decreases files@.len() - i,
    {
        keys.push(Newest(files[i].mtime_secs, files[i].mtime_nanos));
        i += 1;
        assert(keys@ == file_keys(files@).take(i as int));
    }
    assert(keys@ == file_keys(files@));
    let order = sort_order(&keys);
    assert(files@.len() == files.len());
    let r = sort::arrange(files, &order);
    proof {
        sort::picking_keeps_the_items(source, order@);
        assert(sort::orderly(keys@));
        assert forall|i: int, j: int| 0 <= i < j < r@.len() implies !is_newer(
            #[trigger] r@[j],
            #[trigger] r@[i],
        ) by {
            assert(sort::precedes(keys@, order@[i], order@[j]));
        }
    }
    r
}

/// Whether `row` is the line that offers a file as number `number`: its
/// modification time, its size and its name.
pub open spec fn is_picker_row<T: Scalar>(row: Seq<char>, number: nat, file: TraceFile) -> bool {
    let secs = file.mtime_secs as int;
    exists|y: int, month: int, day: int| #[trigger]
        is_date(secs / 86400, y, month, day) && row == "  ["@ + text::decimal_text(number) + "] "@
            + date_text(y, month, day, (secs / 3600) % 24, (secs / 60) % 60, secs % 60) + "  "@ + ({
            let (size, unit) = scaled_size(T::whole_spec(file.size), 0);
            size.show_places_spec(1) + " "@ + unit_text(unit)
        }) + "  "@ + listed_name(file.path@)
}

/// The line that offers a file as number `number`.
pub fn picker_row<T: Scalar>(number: usize, file: &TraceFile) -> (r: String)
    ensures
        is_picker_row::<T>(r@, number as nat, *file),
{
    let secs: u64 = file.mtime_secs;
    let time = format_mtime(secs);
    let mut out = owned("  [");
    push_decimal(&mut out, number as u128);
    out.append("] ");
    out.append(time.as_str());
    out.append("  ");
    out.append(human_size::<T>(file.size).as_str());
    out.append("  ");
    out.append(list_name(file.path.as_str()).as_str());
    proof {
        let (y, month, day) = choose|y: int, month: int, day: int| #[trigger]
            is_date(secs as int / 86400, y, month, day) && time@ == date_text(
                y,
                month,
                day,
                (secs as int / 3600) % 24,
                (secs as int / 60) % 60,
                secs as int % 60,
            );
        let (size, unit) = scaled_size(T::whole_spec(file.size), 0);
        assert(is_date(secs as int / 86400, y, month, day));
        assert(out@ == "  ["@ + text::decimal_text(number as nat) + "] "@ + time@ + "  "@ + (
        size.show_places_spec(1) + " "@ + unit_text(unit)) + "  "@ + listed_name(file.path@));
    }
    out
}

/// The question that asks for a selection among `count` files.
pub fn picker_prompt(count: usize) -> (r: String)
    ensures
        r@ == "Enter number(s) (e.g. 1 or '1 3' to overlay, 1-"@ + text::decimal_text(count as nat)
            + ", or q to quit): "@,
{
    let mut out = owned("Enter number(s) (e.g. 1 or '1 3' to overlay, 1-");
    push_decimal(&mut out, count as u128);
    out.append(", or q to quit): ");
    out
}

/// The paths of the chosen files, in the order chosen.
pub fn chosen_paths(files: &Vec<TraceFile>, chosen: &Vec<usize>) -> (r: Vec<String>)
    requires
        forall|i: int| 0 <= i < chosen@.len() ==> 1 <= #[trigger] chosen@[i] <= files@.len(),
    ensures
        r@ == Seq::new(chosen@.len(), |i: int| files@[chosen@[i] - 1].path),
{
    let ghost goal = Seq::new(chosen@.len(), |i: int| files@[chosen@[i] - 1].path);
    let mut out: Vec<String> = Vec::new();
    let mut i: usize = 0;
    while i < chosen.len()
        invariant
            i <= chosen@.len(),
            forall|i: int| 0 <= i < chosen@.len() ==> 1 <= #[trigger] chosen@[i] <= files@.len(),
            goal == Seq::new(chosen@.len(), |i: int| files@[chosen@[i] - 1].path),
            out@ == goal.take(i as int),
        decreases chosen@.len() - i,
    {
        out.push(files[chosen[i] - 1].path.clone());
        i += 1;
        assert(out@ == goal.take(i as int));
    }
    assert(goal.take(goal.len() as int) == goal);
    out
}

} // verus!
