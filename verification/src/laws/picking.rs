//! How trace files are offered and picked.
use vstd::prelude::*;
use crate::names;
use crate::picker;
use crate::scalar::Scalar;
use crate::text;

verus! {

/// Whether a character keeps two parts of a selection apart.
pub open spec fn separates(c: char) -> bool {
    c == ' ' || c == ','
}

/// Whether a position lies in one of some runs.
pub open spec fn in_a_run(runs: Seq<(int, int)>, i: int) -> bool {
    exists|k: int| 0 <= k < runs.len() && (#[trigger] runs[k]).0 <= i < runs[k].1
}

/// Whether runs are the parts of a text from `from` on between the characters that separate
/// them: none is empty, none holds a separator, none can be made longer to the right, they
/// follow each other, and everything else is a separator.
pub open spec fn are_parts(
    s: Seq<char>,
    runs: Seq<(int, int)>,
    from: int,
    separator: spec_fn(char) -> bool,
) -> bool {
    &&& forall|k: int|
        0 <= k < runs.len() ==> from <= (#[trigger] runs[k]).0 < runs[k].1 <= s.len()
    &&& forall|k: int, i: int|
        0 <= k < runs.len() && (#[trigger] runs[k]).0 <= i < runs[k].1 ==> !separator(
            #[trigger] s[i],
        )
    &&& forall|k: int|
        0 <= k < runs.len() && (#[trigger] runs[k]).1 < s.len() ==> separator(s[runs[k].1])
    &&& forall|k: int, l: int|
        #![trigger runs[k], runs[l]]
        0 <= k < l < runs.len() ==> runs[k].1 < runs[l].0
    &&& forall|i: int|
        from <= i < s.len() && !separator(#[trigger] s[i]) ==> in_a_run(runs, i)
}

proof fn lemma_first_part(
    s: Seq<char>,
    from: int,
    end: int,
    rest: Seq<(int, int)>,
    separator: spec_fn(char) -> bool,
)
    requires
        0 <= from < end <= s.len(),
        forall|i: int| from <= i < end ==> !separator(#[trigger] s[i]),
        end < s.len() ==> separator(s[end]),
        are_parts(s, rest, end, separator),
    ensures
        are_parts(s, seq![(from, end)] + rest, from, separator),
{
    let runs = seq![(from, end)] + rest;
    assert forall|k: int| 0 < k < runs.len() implies #[trigger] runs[k] == rest[k - 1] by {}
    assert forall|k: int, l: int|
        #![trigger runs[k], runs[l]]
        0 <= k < l < runs.len() implies runs[k].1 < runs[l].0 by {
        assert(runs[l] == rest[l - 1]);
        if k == 0 {
            assert(end <= rest[l - 1].0 < rest[l - 1].1);
            if rest[l - 1].0 == end {
                assert(!separator(s[end]));
            }
        }
    }
    assert forall|i: int|
        from <= i < s.len() && !separator(#[trigger] s[i]) implies in_a_run(runs, i) by {
        if i < end {
            assert(runs[0].0 <= i < runs[0].1);
        } else {
            assert(in_a_run(rest, i));
            let k = choose|k: int| 0 <= k < rest.len() && (#[trigger] rest[k]).0 <= i < rest[k].1;
            assert(runs[k + 1] == rest[k]);
        }
    }
}

proof fn lemma_part_end(s: Seq<char>, i: int)
    requires
        0 <= i <= s.len(),
    ensures
        i <= picker::part_end(s, i) <= s.len(),
        forall|k: int| i <= k < picker::part_end(s, i) ==> !separates(#[trigger] s[k]),
        picker::part_end(s, i) < s.len() ==> separates(s[picker::part_end(s, i)]),
    decreases s.len() - i,
{
    if i < s.len() && !picker::separator(s[i]) {
        lemma_part_end(s, i + 1);
    }
}

/// The parts of a selection are what stands between its blanks and commas.
pub proof fn selections_are_parted_by_blanks_and_commas(s: Seq<char>, from: int) -> (runs: Seq<
    (int, int),
>)
    requires
        0 <= from <= s.len(),
    ensures
        are_parts(s, runs, from, |c: char| separates(c)),
        picker::parts_from(s, from).len() == runs.len(),
        forall|k: int|
            0 <= k < runs.len() ==> #[trigger] picker::parts_from(s, from)[k] == s.subrange(
                runs[k].0,
                runs[k].1,
            ),
    decreases s.len() - from,
{
    let sep = |c: char| separates(c);
    if from >= s.len() {
        Seq::empty()
    } else if picker::separator(s[from]) {
        let runs = selections_are_parted_by_blanks_and_commas(s, from + 1);
        assert(sep(s[from]));
        runs
    } else {
        let end = picker::part_end(s, from);
        lemma_part_end(s, from + 1);
        let rest = selections_are_parted_by_blanks_and_commas(s, end);
        let runs = seq![(from, end)] + rest;
        lemma_first_part(s, from, end, rest, sep);
        let all = picker::parts_from(s, from);
        assert forall|k: int| 0 <= k < runs.len() implies #[trigger] all[k] == s.subrange(
            runs[k].0,
            runs[k].1,
        ) by {
            if k > 0 {
                assert(runs[k] == rest[k - 1]);
                assert(all[k] == picker::parts_from(s, end)[k - 1]);
            }
        }
        runs
    }
}

/// Whether every character of a text is white space.
pub open spec fn is_blank(s: Seq<char>) -> bool {
    forall|i: int| 0 <= i < s.len() ==> text::white_space(#[trigger] s[i])
}

/// A trimmed text is what is left without the white space at its ends.
pub proof fn trimming_takes_white_space_off_the_ends(s: Seq<char>) -> (ends: (
    Seq<char>,
    Seq<char>,
))
    ensures
        s == ends.0 + picker::trimmed(s) + ends.1,
        is_blank(ends.0),
        is_blank(ends.1),
        picker::trimmed(s).len() > 0 ==> !text::white_space(picker::trimmed(s)[0])
            && !text::white_space(picker::trimmed(s).last()),
    decreases s.len(),
{
    if s.len() > 0 && text::white_space(s[0]) {
        let (a, b) = trimming_takes_white_space_off_the_ends(s.skip(1));
        let front = seq![s[0]] + a;
        assert(s == seq![s[0]] + s.skip(1));
        assert(s == front + picker::trimmed(s) + b);
        (front, b)
    } else if s.len() > 0 && text::white_space(s.last()) {
        let (a, b) = trimming_takes_white_space_off_the_ends(s.drop_last());
        let back = b.push(s.last());
        assert(s == s.drop_last().push(s.last()));
        assert(s == a + picker::trimmed(s) + back);
        (a, back)
    } else {
        assert(s == Seq::<char>::empty() + s + Seq::<char>::empty());
        (Seq::empty(), Seq::empty())
    }
}

/// A text that neither starts nor ends with a NUL or white space is a selection as it
/// stands, and white space around it makes no difference.
pub proof fn white_space_around_a_selection_is_ignored(
    before: Seq<char>,
    s: Seq<char>,
    after: Seq<char>,
)
    requires
        is_blank(before),
        is_blank(after),
        s.len() > 0,
        !text::white_space(s[0]) && s[0] != '\0',
        !text::white_space(s.last()) && s.last() != '\0',
    ensures
        picker::selection_body(before + s + after) == s,
    decreases before.len() + after.len(),
{
    let line = before + s + after;
    if before.len() > 0 {
        assert(line[0] == before[0]);
        assert(line.skip(1) == before.skip(1) + s + after);
        assert(is_blank(before.skip(1)));
        white_space_around_a_selection_is_ignored(before.skip(1), s, after);
    } else if after.len() > 0 {
        assert(line[0] == s[0]);
        assert(line.last() == after.last());
        assert(line.drop_last() == before + s + after.drop_last());
        assert(is_blank(after.drop_last()));
        white_space_around_a_selection_is_ignored(before, s, after.drop_last());
    } else {
        assert(line == s);
        reveal_with_fuel(picker::trimmed, 2);
        reveal_with_fuel(picker::nul_trimmed, 2);
    }
}

proof fn lemma_component_end(s: Seq<char>, i: int)
    requires
        0 <= i <= s.len(),
    ensures
        i <= picker::component_end(s, i) <= s.len(),
        forall|k: int| i <= k < picker::component_end(s, i) ==> (#[trigger] s[k]) != '/',
        picker::component_end(s, i) < s.len() ==> s[picker::component_end(s, i)] == '/',
    decreases s.len() - i,
{
    if i < s.len() && s[i] != '/' {
        lemma_component_end(s, i + 1);
    }
}

/// The parts of a path between its slashes, in order, without those that are a single dot.
pub open spec fn named_parts(s: Seq<char>, runs: Seq<(int, int)>) -> Seq<Seq<char>>
    decreases runs.len(),
{
    if runs.len() == 0 {
        Seq::empty()
    } else {
        let first = s.subrange(runs[0].0, runs[0].1);
        let rest = named_parts(s, runs.skip(1));
        if first == seq!['.'] {
            rest
        } else {
            seq![first] + rest
        }
    }
}

/// The components of a path are what stands between its slashes, but for single dots.
pub proof fn paths_are_parted_by_slashes(s: Seq<char>, from: int) -> (runs: Seq<(int, int)>)
    requires
        0 <= from <= s.len(),
    ensures
        are_parts(s, runs, from, |c: char| c == '/'),
        picker::components_from(s, from) == named_parts(s, runs),
    decreases s.len() - from,
{
    let sep = |c: char| c == '/';
    if from >= s.len() {
        Seq::empty()
    } else if s[from] == '/' {
        let runs = paths_are_parted_by_slashes(s, from + 1);
        assert(sep(s[from]));
        runs
    } else {
        let end = picker::component_end(s, from);
        lemma_component_end(s, from + 1);
        let rest = paths_are_parted_by_slashes(s, end);
        let runs = seq![(from, end)] + rest;
        lemma_first_part(s, from, end, rest, sep);
        assert(runs.skip(1) == rest);
        runs
    }
}

/// A text repeated a number of times.
pub open spec fn times(s: Seq<char>, n: nat) -> Seq<char>
    decreases n,
{
    if n == 0 {
        Seq::empty()
    } else {
        times(s, (n - 1) as nat) + s
    }
}

/// Taking a suffix off leaves a text that does not end in it, and takes nothing but that
/// suffix off.
pub proof fn suffixes_are_taken_off_whole(s: Seq<char>, suffix: Seq<char>) -> (n: nat)
    requires
        suffix.len() > 0,
    ensures
        s == picker::without_suffix(s, suffix) + times(suffix, n),
        forall|front: Seq<char>|
            picker::without_suffix(s, suffix) != #[trigger] (front + suffix),
    decreases s.len(),
{
    if names::has_suffix(s, suffix) {
        let rest = s.take(s.len() - suffix.len());
        let n = suffixes_are_taken_off_whole(rest, suffix);
        assert(s == rest + suffix);
        let left = picker::without_suffix(rest, suffix);
        assert(left + times(suffix, n) + suffix == left + (times(suffix, n) + suffix));
        assert(times(suffix, (n + 1) as nat) == times(suffix, n) + suffix);
        (n + 1) as nat
    } else {
        assert(s == s + times(suffix, 0));
        assert forall|front: Seq<char>| s != #[trigger] (front + suffix) by {
            if s == front + suffix {
                assert(s.subrange(front.len() as int, s.len() as int) == suffix);
                assert(names::has_suffix(s, suffix));
            }
        }
        0
    }
}

/// A trace file in a directory is labelled with its name without the endings of trace files.
pub proof fn trace_files_are_labelled_by_their_names(dir: Seq<char>, stem: Seq<char>)
    requires
        stem.len() > 0,
        forall|i: int| 0 <= i < stem.len() ==> (#[trigger] stem[i]) != '/',
        !names::has_suffix(stem, ".pt.trace"@),
        !names::has_suffix(stem, ".json"@),
        !names::has_suffix(stem, ".gz"@),
    ensures
        picker::label_of(dir + "/"@ + stem + ".pt.trace.json.gz"@) == stem,
{
    reveal_strlit("/");
    reveal_strlit(".pt.trace.json.gz");
    reveal_strlit(".pt.trace");
    reveal_strlit(".json");
    reveal_strlit(".gz");
    reveal_strlit("..");
    let name = stem + ".pt.trace.json.gz"@;
    let path = dir + "/"@ + stem + ".pt.trace.json.gz"@;
    assert(path == dir + "/"@ + name);
    assert forall|i: int| 0 <= i < name.len() implies (#[trigger] name[i]) != '/' by {
        if i >= stem.len() {
            assert(name[i] == ".pt.trace.json.gz"@[i - stem.len()]);
        } else {
            assert(name[i] == stem[i]);
        }
    }
    lemma_last_component(dir, name, 0);
    assert(picker::components_from(path, 0).last() == name);
    assert(name.last() == 'z');
    assert(name != ".."@) by {
        assert(name.len() > 2);
    }
    assert(picker::file_name(path) == Some(name));
    let json = stem + ".pt.trace.json"@;
    let trace = stem + ".pt.trace"@;
    reveal_strlit(".pt.trace.json");
    assert(name == json + ".gz"@);
    assert(json == trace + ".json"@);
    assert(json.last() == 'n');
    assert(trace.last() == 'e');
    lemma_other_ending(json, ".gz"@);
    lemma_strip_once(json, ".gz"@);
    lemma_other_ending(trace, ".json"@);
    lemma_strip_once(trace, ".json"@);
    lemma_strip_once(stem, ".pt.trace"@);
}

proof fn lemma_other_ending(s: Seq<char>, suffix: Seq<char>)
    requires
        s.len() > 0,
        suffix.len() > 0,
        s.last() != suffix.last(),
    ensures
        !names::has_suffix(s, suffix),
{
    if names::has_suffix(s, suffix) {
        let end = s.subrange(s.len() - suffix.len(), s.len() as int);
        assert(end == suffix);
        assert(end.last() == s.last());
    }
}

proof fn lemma_strip_once(s: Seq<char>, suffix: Seq<char>)
    requires
        suffix.len() > 0,
        !names::has_suffix(s, suffix),
    ensures
        picker::without_suffix(s + suffix, suffix) == s,
{
    let whole = s + suffix;
    assert(whole.subrange(s.len() as int, whole.len() as int) == suffix);
    assert(whole.take(whole.len() - suffix.len()) == s);
    assert(picker::without_suffix(s, suffix) == s);
}

proof fn lemma_last_component(dir: Seq<char>, name: Seq<char>, i: int)
    requires
        name.len() > 2,
        forall|k: int| 0 <= k < name.len() ==> (#[trigger] name[k]) != '/',
        0 <= i <= dir.len() + 1,
    ensures
        picker::components_from(dir + "/"@ + name, i).len() > 0,
        picker::components_from(dir + "/"@ + name, i).last() == name,
    decreases dir.len() + 1 - i,
{
    reveal_strlit("/");
    let path = dir + "/"@ + name;
    let at = dir.len() + 1;
    assert(path[dir.len() as int] == '/');
    if i == at {
        lemma_component_end(path, i);
        let end = picker::component_end(path, i);
        assert(end == path.len()) by {
            if end < path.len() {
                assert(path[end] == name[end - at]);
            }
        }
        assert(path.subrange(i, end) == name);
        assert(picker::components_from(path, end) == Seq::<Seq<char>>::empty());
        assert(path[i] == name[0]);
        assert(name != seq!['.']);
    } else if path[i] == '/' {
        lemma_last_component(dir, name, i + 1);
    } else {
        lemma_component_end(path, i);
        lemma_component_end(path, i + 1);
        let end = picker::component_end(path, i);
        assert(i < end);
        assert(end <= dir.len()) by {
            if end > dir.len() {
                assert(path[dir.len() as int] != '/');
            }
        }
        lemma_last_component(dir, name, end);
        let rest = picker::components_from(path, end);
        let own = seq![path.subrange(i, end)] + rest;
        assert(own.last() == rest.last());
    }
}

/// A size is told with the unit in which it is at least one and below 1024, as far as the
/// units go: multiplied back it is the size.
pub proof fn sizes_are_told_in_the_fitting_unit<T: Scalar>(size: T, unit: int)
    requires
        0 <= unit <= 4,
        forall|x: T|
            (#[trigger] x.over_spec(T::whole_spec(1024))).times_spec(T::whole_spec(1024)) == x,
    ensures
        ({
            let (scaled, u) = picker::scaled_size(size, unit);
            &&& unit <= u <= 4
            &&& grown(scaled, u - unit) == size
            &&& u < 4 ==> !T::whole_spec(1024).at_most_spec(scaled)
            &&& u > unit ==> T::whole_spec(1024).at_most_spec(
                scaled.times_spec(T::whole_spec(1024)),
            )
        }),
    decreases 4 - unit,
{
    if unit < 4 && T::whole_spec(1024).at_most_spec(size) {
        let next = size.over_spec(T::whole_spec(1024));
        sizes_are_told_in_the_fitting_unit(next, unit + 1);
        let (scaled, u) = picker::scaled_size(next, unit + 1);
        lemma_grown(scaled, u - unit - 1);
        assert(next.times_spec(T::whole_spec(1024)) == size);
        if u == unit + 1 {
            assert(grown(scaled, 0) == scaled);
        }
    }
}

/// A size multiplied by 1024 a number of times.
pub open spec fn grown<T: Scalar>(size: T, n: int) -> T
    decreases n,
{
    if n <= 0 {
        size
    } else {
        grown(size, n - 1).times_spec(T::whole_spec(1024))
    }
}

proof fn lemma_grown<T: Scalar>(size: T, n: int)
    requires
        0 <= n,
    ensures
        grown(size, n + 1) == grown(size, n).times_spec(T::whole_spec(1024)),
{
}

/// Each unit is 1024 of the one before it, from bytes to terabytes.
pub proof fn units_go_from_bytes_to_terabytes()
    ensures
        picker::unit_text(0) == "B"@,
        picker::unit_text(1) == "KB"@,
        picker::unit_text(2) == "MB"@,
        picker::unit_text(3) == "GB"@,
        picker::unit_text(4) == "TB"@,
{
}

/// A year has as many days as its twelve months, and four hundred years have ninety-seven
/// leap days.
pub proof fn years_are_made_of_months(y: int)
    requires
        1970 <= y,
    ensures
        picker::days_before_month(y, 13) == picker::year_days(y),
        picker::days_before_year(y + 1) - picker::days_before_year(y) == picker::year_days(y),
        picker::leap_year(y) <==> picker::days_before_month(y, 13) == 366,
        picker::leap_year(y) ==> y % 4 == 0,
        y % 4 == 0 && y % 100 != 0 ==> picker::leap_year(y),
        y % 400 == 0 ==> picker::leap_year(y),
        y % 100 == 0 && y % 400 != 0 ==> !picker::leap_year(y),
        picker::month_days(y, 2) == 28 || picker::month_days(y, 2) == 29,
        forall|m: int|
            1 <= m <= 12 && m != 2 ==> (#[trigger] picker::month_days(y, m) == 31 <==> (m % 2 == 1)
                == (m < 8)),
{
    reveal_with_fuel(picker::days_before_month, 14);
}

proof fn lemma_dictionary(a: Seq<char>, b: Seq<char>, k: int)
    requires
        0 <= k <= a.len(),
        k <= b.len(),
        forall|i: int| 0 <= i < k ==> #[trigger] a[i] == b[i],
        k < a.len() && k < b.len() ==> a[k] != b[k],
    ensures
        names::text_before(a, b) == (k < b.len() && (k == a.len() || (a[k] as int) < (
        b[k] as int))),
    decreases a.len(),
{
    if k == 0 {
    } else {
        assert(a[0] == b[0]);
        assert forall|i: int| 0 <= i < k - 1 implies #[trigger] a.skip(1)[i] == b.skip(1)[i] by {
            assert(a[i + 1] == b[i + 1]);
        }
        lemma_dictionary(a.skip(1), b.skip(1), k - 1);
    }
}

/// Of two texts the one with the smaller character comes first at the first place where they
/// differ; a text comes before what it is the start of.
pub proof fn texts_are_ordered_by_their_first_difference(a: Seq<char>, b: Seq<char>, k: int)
    requires
        0 <= k <= a.len(),
        k <= b.len(),
        forall|i: int| 0 <= i < k ==> #[trigger] a[i] == b[i],
        k < a.len() && k < b.len() ==> a[k] != b[k],
    ensures
        k < a.len() && k < b.len() ==> (names::text_before(a, b) <==> (a[k] as int) < (
        b[k] as int)),
        k == a.len() && k < b.len() ==> names::text_before(a, b),
        k == b.len() ==> !names::text_before(a, b),
{
    lemma_dictionary(a, b, k);
}

/// The trace files among some names are those that end in `.pt.trace.json.gz`, each as often
/// as it is named.
pub proof fn trace_files_are_known_by_their_ending(names: Seq<Seq<char>>)
    ensures
        names::trace_names(names) == names.filter(|n: Seq<char>| is_trace_file(n)),
    decreases names.len(),
{
    reveal(Seq::filter);
    if names.len() > 0 {
        trace_files_are_known_by_their_ending(names.drop_last());
        let n = names.last();
        let suffix = ".pt.trace.json.gz"@;
        if names::has_suffix(n, suffix) {
            let front = n.take(n.len() - suffix.len());
            assert(n == front + suffix);
        }
        if is_trace_file(n) {
            let front = choose|front: Seq<char>| n == #[trigger] (front + suffix);
            assert(n.subrange(n.len() - suffix.len(), n.len() as int) == suffix);
        }
    }
}

/// Whether a file name ends as those of trace files do.
pub open spec fn is_trace_file(name: Seq<char>) -> bool {
    exists|front: Seq<char>| name == #[trigger] (front + ".pt.trace.json.gz"@)
}

/// Whether a label tells a rank from position `i` on.
pub open spec fn tells_rank(s: Seq<char>, i: int) -> bool {
    &&& 0 <= i
    &&& i + 4 < s.len()
    &&& s[i] == 'r' && s[i + 1] == 'a' && s[i + 2] == 'n' && s[i + 3] == 'k'
    &&& '0' <= s[i + 4] <= '9'
}

proof fn lemma_last_rank(s: Seq<char>, i: int)
    requires
        i <= s.len(),
    ensures
        match picker::last_rank(s, i) {
            Some(k) => k <= i && tells_rank(s, k) && forall|q: int|
                k < q <= i ==> !#[trigger] tells_rank(s, q),
            None => forall|q: int| q <= i ==> !#[trigger] tells_rank(s, q),
        },
    decreases i + 1,
{
    reveal_strlit("rank");
    if i >= 0 {
        if i + 4 <= s.len() {
            let part = s.subrange(i, i + 4);
            assert(part == "rank"@ <==> (s[i] == 'r' && s[i + 1] == 'a' && s[i + 2] == 'n' && s[i
                + 3] == 'k')) by {
                if s[i] == 'r' && s[i + 1] == 'a' && s[i + 2] == 'n' && s[i + 3] == 'k' {
                    assert(part =~= "rank"@);
                }
                if part == "rank"@ {
                    assert(part[0] == s[i] && part[1] == s[i + 1] && part[2] == s[i + 2] && part[3]
                        == s[i + 3]);
                }
            }
        }
        assert((text::occurs_at(s, "rank"@, i) && i + 4 < s.len() && text::is_digit_char(s[i + 4]))
            == tells_rank(s, i));
        lemma_last_rank(s, i - 1);
    }
}

proof fn lemma_digits_end(s: Seq<char>, i: int)
    requires
        0 <= i <= s.len(),
    ensures
        i <= text::digits_end(s, i) <= s.len(),
        forall|k: int| i <= k < text::digits_end(s, i) ==> '0' <= #[trigger] s[k] <= '9',
        text::digits_end(s, i) < s.len() ==> !('0' <= s[text::digits_end(s, i)] <= '9'),
    decreases s.len() - i,
{
    if i < s.len() && text::is_digit_char(s[i]) {
        lemma_digits_end(s, i + 1);
    }
}

/// A trace is known by the last rank that its label tells, with all its digits, and by its
/// label where that tells none.
pub proof fn ranks_are_read_from_labels(path: Seq<char>, i: int)
    ensures
        ({
            let label = picker::label_of(path);
            &&& (forall|q: int| !#[trigger] tells_rank(label, q)) ==> picker::rank_label(path)
                == label
            &&& tells_rank(label, i) && (forall|q: int| i < q ==> !#[trigger] tells_rank(label, q))
                ==> exists|e: int|
                i + 5 <= e <= label.len() && picker::rank_label(path) == #[trigger] label.subrange(
                    i,
                    e,
                ) && (forall|k: int| i + 4 <= k < e ==> '0' <= #[trigger] label[k] <= '9') && (e
                    < label.len() ==> !('0' <= label[e] <= '9'))
        }),
{
    let label = picker::label_of(path);
    lemma_last_rank(label, label.len() as int);
    if tells_rank(label, i) && (forall|q: int| i < q ==> !#[trigger] tells_rank(label, q)) {
        assert(picker::last_rank(label, label.len() as int) == Some(i));
        lemma_digits_end(label, i + 4);
        lemma_digits_end(label, i + 5);
        let e = text::digits_end(label, i + 4);
        assert(picker::rank_label(path) == label.subrange(i, e));
    }
    if forall|q: int| !#[trigger] tells_rank(label, q) {
        assert(picker::last_rank(label, label.len() as int) is None);
    }
}

proof fn lemma_run_directory(parts: Seq<Seq<char>>)
    ensures
        match picker::run_directory(parts) {
            Some(d) => exists|k: int| #[trigger] is_run(parts, k) && parts[k] == d,
            None => forall|k: int|
                0 <= k < parts.len() ==> (#[trigger] parts[k]) == "traces"@ || parts[k] == ".."@,
        },
    decreases parts.len(),
{
    if parts.len() > 0 {
        let rest = parts.drop_last();
        lemma_run_directory(rest);
        if parts.last() == "traces"@ || parts.last() == ".."@ {
            match picker::run_directory(rest) {
                Some(d) => {
                    let k = choose|k: int| #[trigger] is_run(rest, k) && rest[k] == d;
                    assert(is_run(parts, k)) by {
                        assert forall|q: int| k < q < parts.len() implies (#[trigger] parts[q])
                            == "traces"@ || parts[q] == ".."@ by {
                            if q < rest.len() {
                                assert(rest[q] == parts[q]);
                            }
                        }
                    }
                },
                None => {
                    assert forall|k: int| 0 <= k < parts.len() implies (#[trigger] parts[k])
                        == "traces"@ || parts[k] == ".."@ by {
                        if k < rest.len() {
                            assert(rest[k] == parts[k]);
                        }
                    }
                },
            }
        } else {
            assert(is_run(parts, parts.len() - 1));
        }
    }
}

/// Whether directory `k` names the run: it is neither called `traces` nor a step up, and
/// everything behind it is.
pub open spec fn is_run(parts: Seq<Seq<char>>, k: int) -> bool {
    &&& 0 <= k < parts.len()
    &&& parts[k] != "traces"@ && parts[k] != ".."@
    &&& forall|q: int|
        k < q < parts.len() ==> (#[trigger] parts[q]) == "traces"@ || parts[q] == ".."@
}

/// A trace file is listed by the directory of its run and its rank, or by its own name where
/// no directory names a run.
pub proof fn trace_files_are_listed_by_run_and_rank(path: Seq<char>)
    ensures
        ({
            let parts = picker::components_from(path, 0);
            let dirs = parts.drop_last();
            let listed = picker::listed_name(path);
            &&& parts.len() == 0 ==> listed == "?"@
            &&& forall|k: int|
                parts.len() > 0 && #[trigger] is_run(dirs, k) ==> listed == dirs[k] + "/"@
                    + picker::rank_label(path)
            &&& parts.len() > 0 && (forall|k: int| !#[trigger] is_run(dirs, k)) ==> listed
                == parts.last()
        }),
{
    let parts = picker::components_from(path, 0);
    if parts.len() > 0 {
        let dirs = parts.drop_last();
        lemma_run_directory(dirs);
        assert forall|k: int| #[trigger] is_run(dirs, k) implies picker::listed_name(path)
            == dirs[k] + "/"@ + picker::rank_label(path) by {
            match picker::run_directory(dirs) {
                Some(d) => {
                    let q = choose|q: int| #[trigger] is_run(dirs, q) && dirs[q] == d;
                    if q < k {
                        assert(dirs[k] == "traces"@ || dirs[k] == ".."@);
                    }
                    if k < q {
                        assert(dirs[q] == "traces"@ || dirs[q] == ".."@);
                    }
                },
                None => {
                    assert(dirs[k] == "traces"@ || dirs[k] == ".."@);
                },
            }
        }
    }
}

} // verus!
