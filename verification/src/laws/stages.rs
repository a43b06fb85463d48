//! Inference stages: what an annotation name says, and which annotation a kernel is under.
use vstd::prelude::*;
use crate::csv;
use crate::scalar::{self, Scalar};
use crate::stage::{self, Stage};
use crate::text;
use crate::trace::{AnnotationEvent, KernelEvent};

verus! {

/// An iteration name: what stands before `context_`, the digits of the two request
/// counts, and what stands in the parentheses behind each.
pub open spec fn iteration_name(
    before: Seq<char>,
    ctx: Seq<char>,
    x: Seq<char>,
    gen: Seq<char>,
    y: Seq<char>,
) -> Seq<char> {
    "execute_"@ + before + "context_"@ + ctx + seq!['('] + x + seq![')'] + "_generation_"@ + gen
        + seq!['('] + y + seq![')']
}

/// The stage of an iteration with the given numbers of context and generation requests.
pub open spec fn stage_of_requests(ctx: nat, gen: nat) -> Option<Stage> {
    match (ctx > 0, gen > 0) {
        (true, false) => Some(Stage::Prefill),
        (false, true) => Some(Stage::Decode),
        (true, true) => Some(Stage::Mixed),
        (false, false) => None,
    }
}

proof fn lemma_digits_end(s: Seq<char>, i: int, j: int)
    requires
        0 <= i <= j <= s.len(),
        forall|k: int| i <= k < j ==> text::is_digit_char(#[trigger] s[k]),
        j < s.len() ==> !text::is_digit_char(s[j]),
    ensures
        text::digits_end(s, i) == j,
    decreases j - i,
{
    if i < j {
        assert(text::is_digit_char(s[i]));
        lemma_digits_end(s, i + 1, j);
    }
}

proof fn lemma_found_at(s: Seq<char>, pat: Seq<char>, i: int, p: int)
    requires
        0 <= i <= p,
        text::occurs_at(s, pat, p),
        pat.len() > 0,
        forall|k: int| i <= k < p ==> #[trigger] s[k] != pat[0],
    ensures
        text::first_occurrence(s, pat, i) == Some(p),
{
    text::first_occurrence_is_first(s, pat, i);
    match text::first_occurrence(s, pat, i) {
        Some(q) => {
            if q < p {
                assert(s.subrange(q, q + pat.len())[0] == s[q]);
            }
            if p < q {
                assert(!text::occurs_at(s, pat, p));
            }
        },
        None => {
            assert(!text::occurs_at(s, pat, p));
        },
    }
}

/// Whether a text is made of digits and denotes a number that fits 64 bits.
pub open spec fn spells(digits: Seq<char>, n: nat) -> bool {
    digits.len() > 0 && text::all_digits(digits) && text::digits_value(digits) == n && n
        <= u64::MAX
}

/// Whether no underscore stands in a text.
pub open spec fn no_underscore(s: Seq<char>) -> bool {
    forall|i: int| 0 <= i < s.len() ==> #[trigger] s[i] != '_'
}

/// The request counts of an iteration name decide its stage: only context requests mean
/// prefill, only generation requests decode, both mixed, and none no stage. What stands
/// in the parentheses, and how many requests there are in all, makes no difference.
pub proof fn iteration_names_tell_their_stage(
    total: Seq<char>,
    ctx: Seq<char>,
    c: nat,
    x: Seq<char>,
    gen: Seq<char>,
    g: nat,
    y: Seq<char>,
)
    requires
        spells(ctx, c),
        spells(gen, g),
        text::all_digits(total),
        no_underscore(x),
    ensures
        stage::stage_of(iteration_name(Seq::empty(), ctx, x, gen, y)) == stage_of_requests(c, g),
        total.len() > 0 ==> stage::stage_of(
            iteration_name(total + seq!['_'], ctx, x, gen, y),
        ) == stage_of_requests(c, g),
{
    lemma_counts_of_name(Seq::empty(), ctx, c, x, gen, g, y);
    if total.len() > 0 {
        lemma_counts_of_name(total, ctx, c, x, gen, g, y);
    }
}

proof fn lemma_counts_of_name(
    total: Seq<char>,
    ctx: Seq<char>,
    c: nat,
    x: Seq<char>,
    gen: Seq<char>,
    g: nat,
    y: Seq<char>,
)
    requires
        spells(ctx, c),
        spells(gen, g),
        text::all_digits(total),
        no_underscore(x),
    ensures
        ({
            let before = if total.len() == 0 {
                Seq::empty()
            } else {
                total + seq!['_']
            };
            stage::request_counts(iteration_name(before, ctx, x, gen, y)) == Some((c, g))
        }),
{
    reveal_strlit("execute_");
    reveal_strlit("context_");
    reveal_strlit("_context_");
    reveal_strlit("_generation_");
    let e = "execute_"@;
    let k = "context_"@;
    let ik = "_context_"@;
    let m = "_generation_"@;
    assert(e.len() == 8 && k.len() == 8 && ik.len() == 9 && m.len() == 12);
    assert(k[0] == 'c' && m[0] == '_' && ik[0] == '_');
    let before = if total.len() == 0 {
        Seq::empty()
    } else {
        total + seq!['_']
    };
    let s = iteration_name(before, ctx, x, gen, y);
    let c0: int = before.len() as int + 16;
    let c1: int = c0 + ctx.len();
    let g0: int = c1 + 1 + x.len() + 1;
    let q0: int = g0 + 12;
    let q1: int = q0 + gen.len();
    assert(s.len() == q1 + 1 + y.len() + 1);
    assert(s.subrange(0, 8) == e);
    assert(s.subrange(c0 - 8, c0) == k);
    assert(s.subrange(c0, c1) == ctx);
    assert(s.subrange(g0, q0) == m);
    assert(s.subrange(q0, q1) == gen);
    assert(s[c1] == '(' && s[g0 - 1] == ')' && s[q1] == '(' && s[s.len() - 1] == ')');
    assert(text::occurs_at(s, e, 0));
    if total.len() == 0 {
        assert(text::occurs_at(s, k, 8));
    } else {
        assert(s[8] == total[0]);
        assert(text::is_digit_char(total[0]));
        assert(!text::occurs_at(s, k, 8)) by {
            assert(s.subrange(8, 16)[0] == s[8]);
        }
        let p: int = total.len() as int + 8;
        assert(s.subrange(p, p + 9) == ik) by {
            assert(s[p] == '_');
            assert forall|i: int| 0 <= i < 9 implies s.subrange(p, p + 9)[i] == ik[i] by {
                if i > 0 {
                    assert(s.subrange(c0 - 8, c0)[i - 1] == k[i - 1]);
                }
            }
        }
        assert forall|i: int| 8 <= i < p implies #[trigger] s[i] != ik[0] by {
            assert(s[i] == total[i - 8]);
            assert(text::is_digit_char(total[i - 8]));
        }
        lemma_found_at(s, ik, 8, p);
        assert(s.subrange(8, p) == total);
    }
    assert(stage::context_start(s) == Some(c0));
    assert forall|i: int| c0 <= i < g0 implies #[trigger] s[i] != m[0] by {
        if i < c1 {
            assert(s[i] == ctx[i - c0]);
            assert(text::is_digit_char(ctx[i - c0]));
        } else if c1 < i < g0 - 1 {
            assert(s[i] == x[i - c1 - 1]);
        }
    }
    lemma_found_at(s, m, c0, g0);
    assert forall|i: int| c0 <= i < c1 implies text::is_digit_char(#[trigger] s[i]) by {
        assert(s[i] == ctx[i - c0]);
    }
    lemma_digits_end(s, c0, c1);
    assert forall|i: int| q0 <= i < q1 implies text::is_digit_char(#[trigger] s[i]) by {
        assert(s[i] == gen[i - q0]);
    }
    lemma_digits_end(s, q0, q1);
}

proof fn lemma_digits_run(s: Seq<char>, i: int)
    requires
        0 <= i <= s.len(),
    ensures
        i <= text::digits_end(s, i) <= s.len(),
        text::all_digits(s.subrange(i, text::digits_end(s, i))),
    decreases s.len() - i,
{
    if i < s.len() && text::is_digit_char(s[i]) {
        lemma_digits_run(s, i + 1);
        let end = text::digits_end(s, i);
        let rest = s.subrange(i + 1, end);
        let run = s.subrange(i, end);
        assert forall|k: int| 0 <= k < run.len() implies text::is_digit_char(
            #[trigger] run[k],
        ) by {
            if k > 0 {
                assert(run[k] == rest[k - 1]);
            }
        }
    }
}

/// Only iteration names have a stage: any name that has one reads
/// `execute_context_<ctx>(...)_generation_<gen>(...)`, with the number of all requests
/// before `context_` or without it, and its request counts are not both zero.
pub proof fn only_iteration_names_have_a_stage(s: Seq<char>) -> (parts: (
    Seq<char>,
    Seq<char>,
    Seq<char>,
    Seq<char>,
    Seq<char>,
    nat,
    nat,
))
    requires
        stage::stage_of(s) is Some,
    ensures
        ({
            let (total, ctx, x, gen, y, c, g) = parts;
            let before = if total.len() == 0 {
                Seq::empty()
            } else {
                total + seq!['_']
            };
            &&& s == iteration_name(before, ctx, x, gen, y)
            &&& text::all_digits(total)
            &&& spells(ctx, c)
            &&& spells(gen, g)
            &&& stage::stage_of(s) == stage_of_requests(c, g)
        }),
{
    reveal_strlit("execute_");
    reveal_strlit("context_");
    reveal_strlit("_context_");
    reveal_strlit("_generation_");
    let e = "execute_"@;
    let k = "context_"@;
    let ik = "_context_"@;
    let m = "_generation_"@;
    assert(e.len() == 8 && k.len() == 8 && ik.len() == 9 && m.len() == 12);
    let c0 = stage::context_start(s)->0;
    let (c, g) = stage::request_counts(s)->0;
    text::first_occurrence_is_first(s, ik, 8);
    let total = if text::occurs_at(s, k, 8) {
        Seq::empty()
    } else {
        s.subrange(8, c0 - 9)
    };
    text::first_occurrence_is_first(s, m, c0);
    let g0 = text::first_occurrence(s, m, c0)->0;
    let q0 = g0 + 12;
    lemma_digits_run(s, c0);
    lemma_digits_run(s, q0);
    let c1 = text::digits_end(s, c0);
    let q1 = text::digits_end(s, q0);
    let ctx = s.subrange(c0, c1);
    let gen = s.subrange(q0, q1);
    let x = s.subrange(c1 + 1, g0 - 1);
    let y = s.subrange(q1 + 1, s.len() - 1);
    let before = if total.len() == 0 {
        Seq::empty()
    } else {
        total + seq!['_']
    };
    assert(s.subrange(0, 8) == e);
    assert(s.subrange(g0, q0) == m);
    if total.len() == 0 {
        assert(c0 == 16);
        assert(s.subrange(8, 16) == k);
    } else {
        assert(s.subrange(c0 - 9, c0) == ik);
        assert(s[c0 - 9] == ik[0]);
        assert forall|i: int| 0 <= i < 8 implies #[trigger] s[c0 - 8 + i] == k[i] by {
            assert(s.subrange(c0 - 9, c0)[i + 1] == ik[i + 1]);
        }
    }
    let r = iteration_name(before, ctx, x, gen, y);
    assert(r.len() == s.len());
    assert forall|i: int| 0 <= i < s.len() implies s[i] == r[i] by {
        if i < 8 {
            assert(s.subrange(0, 8)[i] == e[i]);
        } else if i < c0 - 8 {
        } else if i < c0 {
            if total.len() == 0 {
                assert(s.subrange(8, 16)[i - 8] == k[i - 8]);
            } else {
                assert(s[c0 - 8 + (i - (c0 - 8))] == k[i - (c0 - 8)]);
            }
        } else if g0 <= i < q0 {
            assert(s.subrange(g0, q0)[i - g0] == m[i - g0]);
        }
    }
    assert(s == r);
    (total, ctx, x, gen, y, c, g)
}

/// Whether an annotation covers a kernel: it is one of its trace on its stream, starts at
/// or before it, and ends behind its start.
pub open spec fn covers<T: Scalar>(a: AnnotationEvent<T>, k: KernelEvent<T>) -> bool {
    &&& a.stream == k.stream
    &&& a.trace_id == k.trace_id
    &&& a.ts.at_most_spec(k.ts)
    &&& k.ts.less_spec(a.ts.plus_spec(a.dur))
}

/// For ordered numbers a kernel is under the shortest annotation that covers it; of
/// equally short ones under the one that starts last, and of those under the first. It
/// has the stage that the name of that annotation tells, and none where nothing covers
/// it.
pub proof fn kernels_are_under_the_tightest_annotation<T: Scalar>(
    annotations: Seq<AnnotationEvent<T>>,
    k: KernelEvent<T>,
)
    requires
        scalar::ordered_totally::<T>(),
    ensures
        match csv::annotation_at(annotations, k.stream, k.trace_id, k.ts) {
            Some(a) => covers(a, k) && csv::kernel_stage(annotations, k) == stage::stage_of(a.name@)
                && exists|b: int|
                0 <= b < annotations.len() && #[trigger] annotations[b] == a && forall|q: int|
                    0 <= q < annotations.len() && covers(#[trigger] annotations[q], k) ==> {
                        &&& a.dur.at_most_spec(annotations[q].dur)
                        &&& a.dur == annotations[q].dur ==> annotations[q].ts.at_most_spec(a.ts)
                        &&& a.dur == annotations[q].dur && a.ts == annotations[q].ts ==> b <= q
                    },
            None => csv::kernel_stage(annotations, k) is None && forall|q: int|
                0 <= q < annotations.len() ==> !covers(#[trigger] annotations[q], k),
        },
{
    let n = annotations.len() as int;
    csv::lemma_tightest_in_range(annotations, k.stream, k.trace_id, k.ts, n);
    assert forall|a: AnnotationEvent<T>|
        covers(a, k) == #[trigger] csv::covers_time(a, k.stream, k.trace_id, k.ts) by {}
    match csv::tightest(annotations, k.stream, k.trace_id, k.ts, n) {
        Some(b) => {
            let a = annotations[b];
            assert(csv::covers_time(a, k.stream, k.trace_id, k.ts));
            assert forall|q: int|
                0 <= q < annotations.len() && covers(#[trigger] annotations[q], k) implies {
                &&& a.dur.at_most_spec(annotations[q].dur)
                &&& a.dur == annotations[q].dur ==> annotations[q].ts.at_most_spec(a.ts)
                &&& a.dur == annotations[q].dur && a.ts == annotations[q].ts ==> b <= q
            } by {
                assert(csv::covers_time(annotations[q], k.stream, k.trace_id, k.ts));
                csv::the_tightest_annotation_wins(
                    annotations,
                    k.stream,
                    k.trace_id,
                    k.ts,
                    n,
                    q,
                );
            }
        },
        None => {
            assert forall|q: int| 0 <= q < annotations.len() implies !covers(
                #[trigger] annotations[q],
                k,
            ) by {
                assert(!csv::covers_time(annotations[q], k.stream, k.trace_id, k.ts));
            }
        },
    }
}

/// A stage argument is read exactly where it is the name of a stage, and that name is
/// what the stage is shown as.
pub proof fn stage_arguments_are_stage_names(s: Seq<char>)
    ensures
        stage::named_stage(s) == Some(Stage::Prefill) <==> s == "prefill"@,
        stage::named_stage(s) == Some(Stage::Decode) <==> s == "decode"@,
        stage::named_stage(s) == Some(Stage::Mixed) <==> s == "mixed"@,
        stage::stage_text(Some(Stage::Prefill)) == "prefill"@,
        stage::stage_text(Some(Stage::Decode)) == "decode"@,
        stage::stage_text(Some(Stage::Mixed)) == "mixed"@,
        stage::stage_text(None).len() == 0,
{
    reveal_strlit("prefill");
    reveal_strlit("decode");
    reveal_strlit("mixed");
    reveal_strlit("");
    assert("prefill"@.len() == 7 && "decode"@.len() == 6 && "mixed"@.len() == 5);
}

} // verus!
