//! Inference stages (prefill, decode, mixed) read off annotation names.
use vstd::prelude::*;
use vstd::string::StringExecFns;
use crate::text::{chars_of, find_from, owned, parse_digits, same_text, skip_digits, stands_at};

verus! {

/// The kind of work that one inference iteration does.
#[derive(Debug, Clone, Copy, PartialEq, Eq, Structural)]
pub enum Stage {
    /// Only context (prompt) requests.
    Prefill,
    /// Only generation requests.
    Decode,
    /// Both kinds of requests.
    Mixed,
}

/// The position behind the `context_` marker of an iteration name; the detailed form
/// has a number before the marker.
pub open spec fn context_start(s: Seq<char>) -> Option<int> {
    let p = "execute_"@.len() as int;
    if !crate::text::occurs_at(s, "execute_"@, 0) {
        None
    } else if crate::text::occurs_at(s, "context_"@, p) {
        Some(p + "context_"@.len())
    } else {
        match crate::text::first_occurrence(s, "_context_"@, p) {
            Some(i) => if p < i && crate::text::all_digits(s.subrange(p, i)) {
                Some(i + "_context_"@.len())
            } else {
                None
            },
            None => None,
        }
    }
}

/// Whether `s[from..to]` is a text in parentheses.
pub open spec fn in_parens(s: Seq<char>, from: int, to: int) -> bool {
    from + 2 <= to && s[from] == '(' && s[to - 1] == ')'
}

/// The number that the run of digits at `i` denotes, if there is a run and it
/// fits a `u64`.
pub open spec fn count_at(s: Seq<char>, i: int) -> Option<nat> {
    let digits = s.subrange(i, crate::text::digits_end(s, i));
    if digits.len() > 0 && crate::text::digits_value(digits) <= u64::MAX {
        Some(crate::text::digits_value(digits))
    } else {
        None
    }
}

/// The `(context, generation)` request counts of an iteration name, which reads
/// `execute_context_<ctx>(...)_generation_<gen>(...)` or
/// `execute_<total>_context_<ctx>(...)_generation_<gen>(...)`. What stands in the
/// parentheses, token counts as a rule, is not looked at.
pub open spec fn request_counts(s: Seq<char>) -> Option<(nat, nat)> {
    match context_start(s) {
        Some(c) => match crate::text::first_occurrence(s, "_generation_"@, c) {
            Some(g) => {
                let q = g + "_generation_"@.len();
                if in_parens(s, crate::text::digits_end(s, c), g) && in_parens(
                    s,
                    crate::text::digits_end(s, q),
                    s.len() as int,
                ) {
                    match (count_at(s, c), count_at(s, q)) {
                        (Some(ctx), Some(gen)) => Some((ctx, gen)),
                        _ => None,
                    }
                } else {
                    None
                }
            },
            None => None,
        },
        None => None,
    }
}

/// The stage that an annotation name stands for.
pub open spec fn stage_of(s: Seq<char>) -> Option<Stage> {
    match request_counts(s) {
        Some((ctx, gen)) => if ctx > 0 && gen == 0 {
            Some(Stage::Prefill)
        } else if ctx == 0 && gen > 0 {
            Some(Stage::Decode)
        } else if ctx > 0 && gen > 0 {
            Some(Stage::Mixed)
        } else {
            None
        },
        None => None,
    }
}

/// The name of a stage; nothing for no stage.
pub open spec fn stage_text(stage: Option<Stage>) -> Seq<char> {
    match stage {
        Some(Stage::Prefill) => "prefill"@,
        Some(Stage::Decode) => "decode"@,
        Some(Stage::Mixed) => "mixed"@,
        None => ""@,
    }
}

/// Whether `s[from..to]` is a text in parentheses.
fn parens_hold(s: &Vec<char>, from: usize, to: usize) -> (r: bool)
    requires
        from <= s@.len(),
        to <= s@.len(),
    ensures
        r == in_parens(s@, from as int, to as int),
{
    to >= 2 && from <= to - 2 && s[from] == '(' && s[to - 1] == ')'
}

/// The `(context, generation)` request counts of an iteration name.
pub fn parse_counts(name: &str) -> (r: Option<(u64, u64)>)
    ensures
        match r {
            Some((c, g)) => request_counts(name@) == Some((c as nat, g as nat)),
            None => request_counts(name@) is None,
        },
{
    let s = chars_of(name);
    let execute = chars_of("execute_");
    let context = chars_of("context_");
    let inner = chars_of("_context_");
    let generation = chars_of("_generation_");
    if !stands_at(&s, &execute, 0) {
        return None;
    }
    let len: usize = s.len();
    let p: usize = execute.len();
    let c: usize = if stands_at(&s, &context, p) {
        p + context.len()
    } else {
        match find_from(&s, &inner, p) {
            Some(i) => {
                proof {
                    crate::text::first_occurrence_is_first(s@, inner@, p as int);
                }
                let d: usize = skip_digits(&s, p);
                proof {
                    lemma_digits_end(s@, p as int, i as int);
                }
                if i == p || d < i {
                    return None;
                }
                i + inner.len()
            },
            None => {
                return None;
            },
        }
    };
    assert(context_start(s@) == Some(c as int));
    let g: usize = match find_from(&s, &generation, c) {
        Some(g) => g,
        None => {
            return None;
        },
    };
    proof {
        crate::text::first_occurrence_is_first(s@, generation@, c as int);
    }
    assert(g + generation@.len() <= len);
    let q: usize = g + generation.len();
    let ctx_end: usize = skip_digits(&s, c);
    let gen_end: usize = skip_digits(&s, q);
    if !parens_hold(&s, ctx_end, g) || !parens_hold(&s, gen_end, len) {
        return None;
    }
    match parse_digits(&s, c, ctx_end) {
        Some(ctx) => match parse_digits(&s, q, gen_end) {
            Some(gen) => Some((ctx, gen)),
            None => None,
        },
        None => None,
    }
}

/// The digits from `p` on reach `i` exactly when all of `s[p..i]` are digits.
proof fn lemma_digits_end(s: Seq<char>, p: int, i: int)
    requires
        0 <= p <= i <= s.len(),
    ensures
        crate::text::digits_end(s, p) >= i <==> crate::text::all_digits(s.subrange(p, i)),
    decreases i - p,
{
    let sub = s.subrange(p, i);
    lemma_digits_end_grows(s, p);
    if p < i {
        lemma_digits_end(s, p + 1, i);
        let tail = s.subrange(p + 1, i);
        assert(sub[0] == s[p]);
        if crate::text::is_digit_char(s[p]) {
            if crate::text::all_digits(tail) {
                assert forall|j: int| 0 <= j < sub.len() implies crate::text::is_digit_char(
                    #[trigger] sub[j],
                ) by {
                    if j > 0 {
                        assert(tail[j - 1] == sub[j]);
                    }
                }
            } else {
                let k = choose|k: int|
                    0 <= k < tail.len() && !crate::text::is_digit_char(#[trigger] tail[k]);
                assert(sub[k + 1] == tail[k]);
            }
        }
    }
}

/// The end of a run of digits does not lie before its start.
proof fn lemma_digits_end_grows(s: Seq<char>, p: int)
    ensures
        crate::text::digits_end(s, p) >= p,
    decreases s.len() - p,
{
    if 0 <= p < s.len() {
        lemma_digits_end_grows(s, p + 1);
    }
}

/// The stage that an annotation name stands for.
pub fn stage_of_annotation(name: &str) -> (r: Option<Stage>)
    ensures
        r == stage_of(name@),
{
    match parse_counts(name) {
        Some((ctx, gen)) => if ctx > 0 && gen == 0 {
            Some(Stage::Prefill)
        } else if ctx == 0 && gen > 0 {
            Some(Stage::Decode)
        } else if ctx > 0 && gen > 0 {
            Some(Stage::Mixed)
        } else {
            None
        },
        None => None,
    }
}

/// The name of a stage; the empty text for no stage.
pub fn stage_label(stage: Option<Stage>) -> (r: &'static str)
    ensures
        r@ == stage_text(stage),
{
    match stage {
        Some(Stage::Prefill) => "prefill",
        Some(Stage::Decode) => "decode",
        Some(Stage::Mixed) => "mixed",
        None => "",
    }
}

/// Derives the iteration stage (`prefill`/`decode`/`mixed`) from the name of a
/// `gpu_user_annotation`; names of another form yield `""`.
///
/// Two formats are recognised, and no others, both carrying a *request* count
/// before each parenthesised *token* count:
///   simple:   `execute_context_<ctx>(<n>)_generation_<gen>(<n>)`
///   detailed: `execute_<total>_context_<ctx>(...)_generation_<gen>(...)`
pub fn stage_for_annotation_name(name: &str) -> (r: &'static str)
    ensures
        r@ == stage_text(stage_of(name@)),
{
    stage_label(stage_of_annotation(name))
}

/// What is said of a stage argument that names no stage.
pub open spec fn bad_stage_text(s: Seq<char>) -> Seq<char> {
    "invalid stage: "@ + s + " (expected prefill, decode or mixed)"@
}

/// The stage that an argument names.
pub open spec fn named_stage(s: Seq<char>) -> Option<Stage> {
    if s == "prefill"@ {
        Some(Stage::Prefill)
    } else if s == "decode"@ {
        Some(Stage::Decode)
    } else if s == "mixed"@ {
        Some(Stage::Mixed)
    } else {
        None
    }
}

impl Stage {
    /// Reads a stage argument; anything but the three stage names is refused.
    pub fn parse_arg(s: &str) -> (r: Result<Stage, String>)
        ensures
            match r {
                Ok(stage) => named_stage(s@) == Some(stage),
                Err(e) => named_stage(s@) is None && e@ == bad_stage_text(s@),
            },
    {
        if same_text(s, "prefill") {
            Ok(Stage::Prefill)
        } else if same_text(s, "decode") {
            Ok(Stage::Decode)
        } else if same_text(s, "mixed") {
            Ok(Stage::Mixed)
        } else {
            let mut msg = owned("invalid stage: ");
            msg.append(s);
            msg.append(" (expected prefill, decode or mixed)");
            Err(msg)
        }
    }
}

/// Maps an optional stage filter to a stage, refusing values other than
/// prefill/decode/mixed. Absent means "no filter" (all stages).
pub fn parse_stage_filter(stage: &Option<String>) -> (r: Result<Option<Stage>, String>)
    ensures
        match *stage {
            None => r == Ok::<Option<Stage>, String>(None),
            Some(s) => match r {
                Ok(f) => f is Some && named_stage(s@) == f,
                Err(e) => named_stage(s@) is None && e@ == bad_stage_text(s@),
            },
        },
{
    match stage {
        None => Ok(None),
        Some(s) => match Stage::parse_arg(s.as_str()) {
            Ok(st) => Ok(Some(st)),
            Err(e) => Err(e),
        },
    }
}

/// The name of every stage is read back as that stage.
pub proof fn stage_names_are_read_back(stage: Stage)
    ensures
        named_stage(stage_text(Some(stage))) == Some(stage),
{
    reveal_strlit("prefill");
    reveal_strlit("decode");
    reveal_strlit("mixed");
    assert("prefill"@.len() == 7 && "decode"@.len() == 6 && "mixed"@.len() == 5);
}

} // verus!
