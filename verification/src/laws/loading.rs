//! What is kept of the events of a profiler trace, and in which order.
use vstd::prelude::*;
use crate::scalar::{self, Scalar};
use crate::sort::{self, SortKey};
use crate::text;
use crate::trace::{self, JsonValue, RawEvent};

verus! {

/// Whether no key occurs twice among some arguments.
pub open spec fn keys_differ<T>(args: Seq<(String, JsonValue<T>)>) -> bool {
    forall|i: int, j: int|
        #![trigger args[i], args[j]]
        0 <= i < j < args.len() ==> args[i].0@ != args[j].0@
}

/// Whether a value stands for a count: a whole number for itself, any other number for
/// its count, a text for the number that it spells, and nothing else for any.
pub open spec fn denotes<T: Scalar>(v: JsonValue<T>, count: Option<u64>) -> bool {
    match v {
        JsonValue::Number { whole: Some(n), .. } => count == Some(n),
        JsonValue::Number { whole: None, value: Some(x), .. } => count == Some(x.count_spec()),
        JsonValue::Number { whole: None, value: None, .. } => count is None,
        JsonValue::Text(s) => (forall|n: u64|
            s@ == #[trigger] text::decimal_text(n as nat) ==> count == Some(n)) && (
        count is Some ==> s@.len() > 0 && (s@[0] == '+' || text::all_digits(s@))),
        JsonValue::Other(_) => count is None,
    }
}

/// Whether a value reads as a text: a string as it is, anything else as it is written.
pub open spec fn reads_as<T>(v: JsonValue<T>, shown: Option<Seq<char>>) -> bool {
    match v {
        JsonValue::Text(s) => shown == Some(s@),
        JsonValue::Number { text, .. } => shown == Some(text@),
        JsonValue::Other(s) => shown == Some(s@),
    }
}

proof fn lemma_lookup<T>(args: Seq<(String, JsonValue<T>)>, key: Seq<char>, i: int)
    requires
        keys_differ(args),
    ensures
        0 <= i < args.len() && args[i].0@ == key ==> trace::lookup(args, key) == Some(args[i].1),
        (forall|j: int| 0 <= j < args.len() ==> (#[trigger] args[j]).0@ != key) ==> trace::lookup(
            args,
            key,
        ) is None,
    decreases args.len(),
{
    if args.len() > 0 {
        let rest = args.skip(1);
        assert forall|a: int, b: int|
            #![trigger rest[a], rest[b]]
            0 <= a < b < rest.len() implies rest[a].0@ != rest[b].0@ by {
            assert(args[a + 1].0@ != args[b + 1].0@);
        }
        lemma_lookup(rest, key, i - 1);
        if 0 <= i < args.len() && args[i].0@ == key {
            if i > 0 {
                assert(args[0].0@ != args[i].0@);
                assert(rest[i - 1] == args[i]);
            }
        }
        if forall|j: int| 0 <= j < args.len() ==> (#[trigger] args[j]).0@ != key {
            assert forall|j: int| 0 <= j < rest.len() implies (#[trigger] rest[j]).0@ != key by {
                assert(rest[j] == args[j + 1]);
            }
            assert(args[0].0@ != key);
        }
    }
}

proof fn lemma_denotes<T: Scalar>(v: JsonValue<T>)
    ensures
        denotes(v, trace::count_of(v)),
{
    match v {
        JsonValue::Text(s) => {
            assert forall|n: u64| s@ == #[trigger] text::decimal_text(
                n as nat,
            ) implies trace::count_of(v) == Some(n) by {
                text::decimals_are_read_back(n as nat, u64::MAX as nat);
            }
        },
        _ => {},
    }
}

/// A kernel has each of its named arguments from the argument of that name, whatever
/// stands under the other names.
pub proof fn kernels_have_their_named_arguments<T: Scalar>(
    e: RawEvent<T>,
    args: Vec<(String, JsonValue<T>)>,
    i: int,
)
    requires
        e.args == Some(args),
        keys_differ(args@),
        0 <= i < args@.len(),
    ensures
        ({
            let k = trace::kernel_of(e);
            let key = args@[i].0@;
            let v = args@[i].1;
            &&& key == "grid"@ ==> reads_as(v, k.grid)
            &&& key == "block"@ ==> reads_as(v, k.block)
            &&& key == "shared memory"@ ==> denotes(v, k.shared_memory)
            &&& key == "registers per thread"@ ==> denotes(v, k.registers_per_thread)
            &&& key == "correlation"@ ==> denotes(v, k.correlation)
            &&& key == "device"@ ==> denotes(v, Some(k.device)) || denotes(v, None)
        }),
{
    lemma_lookup(args@, "grid"@, i);
    lemma_lookup(args@, "block"@, i);
    lemma_lookup(args@, "shared memory"@, i);
    lemma_lookup(args@, "registers per thread"@, i);
    lemma_lookup(args@, "correlation"@, i);
    lemma_lookup(args@, "device"@, i);
    lemma_denotes(args@[i].1);
}

/// Whether an event has an argument of a name.
pub open spec fn has_argument<T>(e: RawEvent<T>, key: Seq<char>) -> bool {
    e.args matches Some(args) && exists|i: int|
        0 <= i < args@.len() && (#[trigger] args@[i]).0@ == key
}

/// What a kernel has no argument for, it has nothing of. Without a device argument the
/// process stands for the device, and without a number there it is device zero.
pub proof fn missing_arguments_stay_missing<T: Scalar>(e: RawEvent<T>)
    requires
        e.args matches Some(args) ==> keys_differ(args@),
    ensures
        ({
            let k = trace::kernel_of(e);
            &&& !has_argument(e, "grid"@) ==> k.grid is None
            &&& !has_argument(e, "block"@) ==> k.block is None
            &&& !has_argument(e, "shared memory"@) ==> k.shared_memory is None
            &&& !has_argument(e, "registers per thread"@) ==> k.registers_per_thread is None
            &&& !has_argument(e, "correlation"@) ==> k.correlation is None
            &&& !has_argument(e, "device"@) && e.pid is None ==> k.device == 0
            &&& !has_argument(e, "device"@) ==> (e.pid matches Some(v) ==> denotes(
                v,
                Some(k.device),
            ) || (denotes(v, None) && k.device == 0))
        }),
{
    if let Some(args) = e.args {
        lemma_lookup(args@, "grid"@, 0);
        lemma_lookup(args@, "block"@, 0);
        lemma_lookup(args@, "shared memory"@, 0);
        lemma_lookup(args@, "registers per thread"@, 0);
        lemma_lookup(args@, "correlation"@, 0);
        lemma_lookup(args@, "device"@, 0);
    }
    if let Some(v) = e.pid {
        lemma_denotes(v);
    }
}

/// A device argument that stands for a number is the device of its kernel; where it
/// stands for none, the process stands in for it.
pub proof fn devices_come_from_the_arguments_first<T: Scalar>(
    e: RawEvent<T>,
    args: Vec<(String, JsonValue<T>)>,
    i: int,
    n: u64,
)
    requires
        e.args == Some(args),
        keys_differ(args@),
        0 <= i < args@.len(),
        args@[i].0@ == "device"@,
    ensures
        args@[i].1 matches JsonValue::Number { whole: Some(n), .. } ==> trace::kernel_of(e).device
            == n,
        args@[i].1 matches JsonValue::Text(s) ==> (s@ == text::decimal_text(n as nat)
            ==> trace::kernel_of(e).device == n),
        args@[i].1 is Other ==> (e.pid matches Some(JsonValue::Number { whole: Some(n), .. })
            ==> trace::kernel_of(e).device == n),
        args@[i].1 is Other && e.pid is None ==> trace::kernel_of(e).device == 0,
{
    lemma_lookup(args@, "device"@, i);
    text::decimals_are_read_back(n as nat, u64::MAX as nat);
}

/// Kernels and annotations have the name, the times and the stream of their event. An
/// event without a name reads `(unnamed)`, one without a duration has none, and one
/// whose thread is no number lies on stream zero.
pub proof fn events_keep_their_name_times_and_stream<T: Scalar>(e: RawEvent<T>)
    ensures
        ({
            let k = trace::kernel_of(e);
            let a = trace::annotation_of(e);
            &&& e.name matches Some(s) ==> k.name == s@ && a.name == s@
            &&& e.name is None ==> k.name == "(unnamed)"@ && a.name == "(unnamed)"@
            &&& e.cat matches Some(s) ==> k.cat == s@
            &&& e.ts matches Some(t) ==> k.ts == t && a.ts == t
            &&& e.dur matches Some(d) ==> k.dur == d && a.dur == d
            &&& e.dur is None ==> k.dur == T::whole_spec(0) && a.dur == T::whole_spec(0)
            &&& e.tid matches Some(v) ==> denotes(v, Some(k.stream)) || (denotes(v, None)
                && k.stream == 0)
            &&& e.tid is None ==> k.stream == 0
            &&& e.tid matches Some(JsonValue::Number { whole: Some(n), .. }) ==> k.stream == n
            &&& a.stream == k.stream
            &&& k.trace_id == 0
            &&& a.trace_id == 0
        }),
{
    if let Some(v) = e.tid {
        lemma_denotes(v);
    }
}

/// Whether an optional text reads `t`; a missing one reads as empty.
pub open spec fn says(s: Option<String>, t: Seq<char>) -> bool {
    match s {
        Some(x) => x@ == t,
        None => t.len() == 0,
    }
}

/// Exactly the spans of GPU work with a timestamp are kernels, exactly the user
/// annotation spans with a timestamp are annotations, and nothing is both.
pub proof fn gpu_spans_are_kernels_and_user_spans_annotations<T>(e: RawEvent<T>)
    ensures
        trace::is_kernel(e) <==> e.ts is Some && (says(e.cat, "kernel"@) || says(
            e.cat,
            "gpu_memcpy"@,
        ) || says(e.cat, "gpu_memset"@)) && !says(e.ph, "M"@) && !says(e.ph, "i"@) && !says(
            e.ph,
            "I"@,
        ),
        trace::is_annotation(e) <==> e.ts is Some && says(e.cat, "gpu_user_annotation"@) && !says(
            e.ph,
            "M"@,
        ) && !says(e.ph, "i"@) && !says(e.ph, "I"@),
        !(trace::is_kernel(e) && trace::is_annotation(e)),
{
    reveal_strlit("kernel");
    reveal_strlit("gpu_memcpy");
    reveal_strlit("gpu_memset");
    reveal_strlit("gpu_user_annotation");
    reveal_strlit("M");
    reveal_strlit("i");
    reveal_strlit("I");
    assert("kernel"@.len() == 6 && "gpu_memcpy"@.len() == 10 && "gpu_memset"@.len() == 10
        && "gpu_user_annotation"@.len() == 19 && "M"@.len() == 1 && "i"@.len() == 1 && "I"@.len()
        == 1);
}

/// The positions of the raw events that are kept as kernels.
spec fn kernel_positions<T>(raw: Seq<RawEvent<T>>) -> Seq<int>
    decreases raw.len(),
{
    if raw.len() == 0 {
        Seq::empty()
    } else if trace::is_kernel(raw.last()) {
        kernel_positions(raw.drop_last()).push(raw.len() - 1)
    } else {
        kernel_positions(raw.drop_last())
    }
}

/// The positions of the raw events that are kept as annotations.
spec fn annotation_positions<T>(raw: Seq<RawEvent<T>>) -> Seq<int>
    decreases raw.len(),
{
    if raw.len() == 0 {
        Seq::empty()
    } else if trace::is_annotation(raw.last()) {
        annotation_positions(raw.drop_last()).push(raw.len() - 1)
    } else {
        annotation_positions(raw.drop_last())
    }
}

proof fn lemma_kernel_positions<T: Scalar>(raw: Seq<RawEvent<T>>)
    ensures
        ({
            let at = kernel_positions(raw);
            &&& at.len() == trace::kernels_of(raw).len() <= raw.len()
            &&& forall|i: int|
                0 <= i < at.len() ==> 0 <= #[trigger] at[i] < raw.len() && trace::is_kernel(
                    raw[at[i]],
                ) && trace::kernels_of(raw)[i] == trace::kernel_of(raw[at[i]])
            &&& forall|i: int, j: int| 0 <= i < j < at.len() ==> at[i] < at[j]
            &&& forall|p: int|
                0 <= p < raw.len() && trace::is_kernel(#[trigger] raw[p]) ==> at.contains(p)
        }),
    decreases raw.len(),
{
    if raw.len() > 0 {
        let rest = raw.drop_last();
        lemma_kernel_positions(rest);
        let at = kernel_positions(raw);
        let before = kernel_positions(rest);
        assert forall|i: int| 0 <= i < at.len() implies 0 <= #[trigger] at[i] < raw.len()
            && trace::is_kernel(raw[at[i]]) && trace::kernels_of(raw)[i] == trace::kernel_of(
            raw[at[i]],
        ) by {
            if i < before.len() {
                assert(at[i] == before[i]);
                assert(rest[before[i]] == raw[at[i]]);
            }
        }
        assert forall|p: int|
            0 <= p < raw.len() && trace::is_kernel(#[trigger] raw[p]) implies at.contains(p) by {
            if p < rest.len() {
                assert(rest[p] == raw[p]);
                let i = choose|i: int| 0 <= i < before.len() && before[i] == p;
                assert(at[i] == p);
            } else {
                assert(at[at.len() - 1] == p);
            }
        }
    }
}

proof fn lemma_annotation_positions<T: Scalar>(raw: Seq<RawEvent<T>>)
    ensures
        ({
            let at = annotation_positions(raw);
            &&& at.len() == trace::annotations_of(raw).len() <= raw.len()
            &&& forall|i: int|
                0 <= i < at.len() ==> 0 <= #[trigger] at[i] < raw.len() && trace::is_annotation(
                    raw[at[i]],
                ) && trace::annotations_of(raw)[i] == trace::annotation_of(raw[at[i]])
            &&& forall|i: int, j: int| 0 <= i < j < at.len() ==> at[i] < at[j]
            &&& forall|p: int|
                0 <= p < raw.len() && trace::is_annotation(#[trigger] raw[p]) ==> at.contains(p)
        }),
    decreases raw.len(),
{
    if raw.len() > 0 {
        let rest = raw.drop_last();
        lemma_annotation_positions(rest);
        let at = annotation_positions(raw);
        let before = annotation_positions(rest);
        assert forall|i: int| 0 <= i < at.len() implies 0 <= #[trigger] at[i] < raw.len()
            && trace::is_annotation(raw[at[i]]) && trace::annotations_of(raw)[i]
            == trace::annotation_of(raw[at[i]]) by {
            if i < before.len() {
                assert(at[i] == before[i]);
                assert(rest[before[i]] == raw[at[i]]);
            }
        }
        assert forall|p: int|
            0 <= p < raw.len() && trace::is_annotation(#[trigger] raw[p]) implies at.contains(
            p,
        ) by {
            if p < rest.len() {
                assert(rest[p] == raw[p]);
                let i = choose|i: int| 0 <= i < before.len() && before[i] == p;
                assert(at[i] == p);
            } else {
                assert(at[at.len() - 1] == p);
            }
        }
    }
}

/// Whether `s` lists every position below `n` that `kept` holds of, each once.
pub open spec fn lists_kept(s: Seq<int>, n: int, kept: spec_fn(int) -> bool) -> bool {
    &&& forall|i: int| 0 <= i < s.len() ==> 0 <= #[trigger] s[i] < n && kept(s[i])
    &&& forall|i: int, j: int| 0 <= i < j < s.len() ==> s[i] != s[j]
    &&& forall|p: int| 0 <= p < n && #[trigger] kept(p) ==> s.contains(p)
}

/// Whether times follow each other, equal ones in the order in which they came.
pub open spec fn in_time<T: Scalar>(times: Seq<T>, came: Seq<int>) -> bool {
    forall|i: int, j: int|
        #![trigger times[i], times[j]]
        0 <= i < j < times.len() ==> times[i].at_most_spec(times[j]) && (times[i] == times[j]
            ==> came[i] < came[j])
}

/// For ordered numbers the sort keys can be put in order.
pub(crate) proof fn lemma_orderly<T: Scalar>(keys: Seq<sort::Rising<T>>)
    requires
        scalar::ordered_totally::<T>(),
    ensures
        sort::orderly(keys),
{
    assert forall|i: int, j: int|
        0 <= i < keys.len() && 0 <= j < keys.len() && #[trigger] keys[i].before_spec(
            &keys[j],
        ) implies !keys[j].before_spec(&keys[i]) by {
        assert(keys[i].0.less_spec(keys[j].0));
        assert(keys[i].0.at_most_spec(keys[j].0));
    }
    assert forall|i: int, j: int, k: int|
        #![trigger keys[j].before_spec(&keys[i]), keys[k].before_spec(&keys[j])]
        0 <= i < keys.len() && 0 <= j < keys.len() && 0 <= k < keys.len() && !keys[j].before_spec(
            &keys[i],
        ) && !keys[k].before_spec(&keys[j]) implies !keys[k].before_spec(&keys[i]) by {
        assert(!keys[j].0.less_spec(keys[i].0));
        assert(!keys[k].0.less_spec(keys[j].0));
        assert(keys[i].0.at_most_spec(keys[j].0));
        assert(keys[j].0.at_most_spec(keys[k].0));
        assert(keys[i].0.at_most_spec(keys[k].0));
    }
}

/// Sorting positions that ascend by their times keeps them all, puts them in time, and
/// leaves those of equal times in their order.
proof fn lemma_sorted_positions<T: Scalar>(
    keys: Seq<sort::Rising<T>>,
    at: Seq<int>,
    n: int,
    kept: spec_fn(int) -> bool,
) -> (s: Seq<int>)
    requires
        scalar::ordered_totally::<T>(),
        keys.len() <= usize::MAX,
        at.len() == keys.len(),
        forall|i: int, j: int| 0 <= i < j < at.len() ==> at[i] < at[j],
        forall|i: int| 0 <= i < at.len() ==> 0 <= #[trigger] at[i] < n && kept(at[i]),
        forall|p: int| 0 <= p < n && #[trigger] kept(p) ==> at.contains(p),
    ensures
        s == Seq::new(keys.len(), |i: int| at[sort::sorted_order(keys)[i] as int]),
        lists_kept(s, n, kept),
        in_time(Seq::new(keys.len(), |i: int| keys[sort::sorted_order(keys)[i] as int].0), s),
{
    let order = sort::sorted_order(keys);
    let s = Seq::new(keys.len(), |i: int| at[order[i] as int]);
    let times = Seq::new(keys.len(), |i: int| keys[order[i] as int].0);
    sort::sorting_rearranges(keys);
    lemma_orderly(keys);
    sort::sorting_is_stable(keys);
    assert forall|i: int| 0 <= i < s.len() implies 0 <= #[trigger] s[i] < n && kept(s[i]) by {
        assert(s[i] == at[order[i] as int]);
    }
    assert forall|i: int, j: int| 0 <= i < j < s.len() implies s[i] != s[j] by {
        assert(order[i] != order[j]);
        if order[i] < order[j] {
            assert(at[order[i] as int] < at[order[j] as int]);
        } else {
            assert(at[order[j] as int] < at[order[i] as int]);
        }
    }
    assert forall|p: int| 0 <= p < n && #[trigger] kept(p) implies s.contains(p) by {
        let a = choose|a: int| 0 <= a < at.len() && at[a] == p;
        assert(order.contains(a as usize));
        let i = choose|i: int| 0 <= i < order.len() && order[i] == a as usize;
        assert(s[i] == p);
    }
    assert forall|i: int, j: int|
        #![trigger times[i], times[j]]
        0 <= i < j < times.len() implies times[i].at_most_spec(times[j]) && (times[i] == times[j]
        ==> s[i] < s[j]) by {
        let a = order[i] as int;
        let b = order[j] as int;
        assert(order[i] != order[j]);
        assert(sort::precedes(keys, order[i], order[j]));
        assert(times[i] == keys[a].0 && times[j] == keys[b].0);
        if keys[a].before_spec(&keys[b]) {
            assert(keys[a].0.less_spec(keys[b].0));
            assert(keys[a].0.at_most_spec(keys[b].0));
            assert(times[i] != times[j]) by {
                assert(times[j].at_most_spec(times[j]));
            }
        } else {
            assert(order[i] < order[j]);
            assert(!keys[b].0.less_spec(keys[a].0)) by {
                assert(!keys[b].before_spec(&keys[a]));
            }
        }
    }
    s
}

/// A loaded trace holds the kernel of every raw event that is one, and no other, each
/// once; for ordered numbers they follow each other in time, and those of the same time
/// in the order in which they came.
pub proof fn loading_keeps_every_kernel_and_sorts_them<T: Scalar>(raw: Seq<RawEvent<T>>) -> (came:
    Seq<int>)
    requires
        scalar::ordered_totally::<T>(),
        raw.len() <= usize::MAX,
    ensures
        ({
            let loaded = trace::kernels_by_time(trace::kernels_of(raw));
            &&& lists_kept(came, raw.len() as int, |p: int| trace::is_kernel(raw[p]))
            &&& loaded == Seq::new(came.len(), |i: int| trace::kernel_of(raw[came[i]]))
            &&& in_time(Seq::new(loaded.len(), |i: int| loaded[i].ts), came)
        }),
{
    let kept = |p: int| trace::is_kernel(raw[p]);
    let list = trace::kernels_of(raw);
    let keys = trace::kernel_keys(list);
    let order = sort::sorted_order(keys);
    let at = kernel_positions(raw);
    lemma_kernel_positions(raw);
    assert forall|i: int| 0 <= i < at.len() implies 0 <= #[trigger] at[i] < raw.len() && kept(
        at[i],
    ) by {
        assert(trace::is_kernel(raw[at[i]]));
    }
    assert forall|p: int| 0 <= p < raw.len() && #[trigger] kept(p) implies at.contains(p) by {
        assert(trace::is_kernel(raw[p]));
    }
    let came = lemma_sorted_positions(keys, at, raw.len() as int, kept);
    sort::sorting_rearranges(keys);
    let loaded = trace::kernels_by_time(list);
    assert forall|i: int| 0 <= i < loaded.len() implies #[trigger] loaded[i] == trace::kernel_of(
        raw[came[i]],
    ) by {
        assert(loaded[i] == list[order[i] as int]);
        assert(at[order[i] as int] == came[i]);
    }
    assert(loaded == Seq::new(came.len(), |i: int| trace::kernel_of(raw[came[i]])));
    assert(Seq::new(loaded.len(), |i: int| loaded[i].ts) == Seq::new(
        keys.len(),
        |i: int| keys[order[i] as int].0,
    ));
    came
}

/// The same of annotations.
pub proof fn loading_keeps_every_annotation_and_sorts_them<T: Scalar>(raw: Seq<RawEvent<T>>) -> (
came: Seq<int>)
    requires
        scalar::ordered_totally::<T>(),
        raw.len() <= usize::MAX,
    ensures
        ({
            let loaded = trace::annotations_by_time(trace::annotations_of(raw));
            &&& lists_kept(came, raw.len() as int, |p: int| trace::is_annotation(raw[p]))
            &&& loaded == Seq::new(came.len(), |i: int| trace::annotation_of(raw[came[i]]))
            &&& in_time(Seq::new(loaded.len(), |i: int| loaded[i].ts), came)
        }),
{
    let kept = |p: int| trace::is_annotation(raw[p]);
    let list = trace::annotations_of(raw);
    let keys = trace::annotation_keys(list);
    let order = sort::sorted_order(keys);
    let at = annotation_positions(raw);
    lemma_annotation_positions(raw);
    assert forall|i: int| 0 <= i < at.len() implies 0 <= #[trigger] at[i] < raw.len() && kept(
        at[i],
    ) by {
        assert(trace::is_annotation(raw[at[i]]));
    }
    assert forall|p: int| 0 <= p < raw.len() && #[trigger] kept(p) implies at.contains(p) by {
        assert(trace::is_annotation(raw[p]));
    }
    let came = lemma_sorted_positions(keys, at, raw.len() as int, kept);
    sort::sorting_rearranges(keys);
    let loaded = trace::annotations_by_time(list);
    assert forall|i: int| 0 <= i < loaded.len() implies #[trigger] loaded[i]
        == trace::annotation_of(raw[came[i]]) by {
        assert(loaded[i] == list[order[i] as int]);
        assert(at[order[i] as int] == came[i]);
    }
    assert(loaded == Seq::new(came.len(), |i: int| trace::annotation_of(raw[came[i]])));
    assert(Seq::new(loaded.len(), |i: int| loaded[i].ts) == Seq::new(
        keys.len(),
        |i: int| keys[order[i] as int].0,
    ));
    came
}

} // verus!
