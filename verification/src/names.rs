//! File names of traces: which files are traces, and in which order they are
//! listed.
use vstd::prelude::*;
use crate::sort::{self, arrange, sort_order, SortKey};
use crate::text::{self, chars_of, stands_at};

verus! {

/// Whether a text ends in another.
pub open spec fn has_suffix(s: Seq<char>, suffix: Seq<char>) -> bool {
    s.len() >= suffix.len() && text::occurs_at(s, suffix, s.len() - suffix.len())
}

/// Whether a text ends in another.
pub fn ends_in(s: &str, suffix: &str) -> (r: bool)
    ensures
        r == has_suffix(s@, suffix@),
{
    let chars = chars_of(s);
    let end = chars_of(suffix);
    if end.len() > chars.len() {
        return false;
    }
    stands_at(&chars, &end, chars.len() - end.len())
}

/// Whether a file name is that of a profiler trace.
pub fn is_trace_name(name: &str) -> (r: bool)
    ensures
        r == has_suffix(name@, ".pt.trace.json.gz"@),
{
    ends_in(name, ".pt.trace.json.gz")
}

/// Whether a text comes before another in the dictionary order of their
/// characters' code points.
pub open spec fn text_before(a: Seq<char>, b: Seq<char>) -> bool
    decreases a.len(),
{
    if b.len() == 0 {
        false
    } else if a.len() == 0 {
        true
    } else if a[0] != b[0] {
        (a[0] as int) < (b[0] as int)
    } else {
        text_before(a.skip(1), b.skip(1))
    }
}

/// Whether a character's code point is smaller than another's.
fn char_before(a: char, b: char) -> (r: bool)
    ensures
        r == ((a as int) < (b as int)),
{
    (a as u32) < (b as u32)
}

/// Sorts texts in dictionary order.
pub struct TextKey(pub Vec<char>);

impl SortKey for TextKey {
    open spec fn before_spec(&self, other: &Self) -> bool {
        text_before(self.0@, other.0@)
    }

    fn before(&self, other: &Self) -> (r: bool) {
        let mut i: usize = 0;
        assert(self.0@.skip(0) == self.0@);
        assert(other.0@.skip(0) == other.0@);
        while i < self.0.len() && i < other.0.len() && self.0[i] == other.0[i]
            invariant
                i <= self.0@.len(),
                i <= other.0@.len(),
                text_before(self.0@, other.0@) == text_before(
                    self.0@.skip(i as int),
                    other.0@.skip(i as int),
                ),
            decreases self.0@.len() - i,
        {
            assert(self.0@.skip(i as int).skip(1) == self.0@.skip(i + 1));
            assert(other.0@.skip(i as int).skip(1) == other.0@.skip(i + 1));
            i += 1;
        }
        if i >= other.0.len() {
            false
        } else if i >= self.0.len() {
            true
        } else {
            char_before(self.0[i], other.0[i])
        }
    }
}

proof fn lemma_text_order(a: Seq<char>, b: Seq<char>, c: Seq<char>)
    ensures
        text_before(a, b) ==> !text_before(b, a),
        !text_before(b, a) && !text_before(c, b) ==> !text_before(c, a),
    decreases a.len(),
{
    if a.len() > 0 && b.len() > 0 && c.len() > 0 {
        lemma_text_order(a.skip(1), b.skip(1), c.skip(1));
    } else if a.len() > 0 && b.len() > 0 {
        lemma_text_order(a.skip(1), b.skip(1), c);
    }
}

/// Any texts can be put in dictionary order.
pub proof fn texts_are_orderly(keys: Seq<TextKey>)
    ensures
        sort::orderly(keys),
{
    assert forall|i: int, j: int|
        0 <= i < keys.len() && 0 <= j < keys.len() && #[trigger] keys[i].before_spec(
            &keys[j],
        ) implies !keys[j].before_spec(&keys[i]) by {
        lemma_text_order(keys[i].0@, keys[j].0@, keys[j].0@);
    }
    assert forall|i: int, j: int, k: int|
        #![trigger keys[j].before_spec(&keys[i]), keys[k].before_spec(&keys[j])]
        0 <= i < keys.len() && 0 <= j < keys.len() && 0 <= k < keys.len()
            && !keys[j].before_spec(&keys[i]) && !keys[k].before_spec(
            &keys[j],
        ) implies !keys[k].before_spec(&keys[i]) by {
        lemma_text_order(keys[i].0@, keys[j].0@, keys[k].0@);
    }
}

/// The trace files among some file names, in their order.
pub open spec fn trace_names(names: Seq<Seq<char>>) -> Seq<Seq<char>>
    decreases names.len(),
{
    if names.len() == 0 {
        Seq::empty()
    } else if has_suffix(names.last(), ".pt.trace.json.gz"@) {
        trace_names(names.drop_last()).push(names.last())
    } else {
        trace_names(names.drop_last())
    }
}

/// Whether a list of texts is in dictionary order.
pub open spec fn in_dictionary_order(names: Seq<Seq<char>>) -> bool {
    forall|i: int, j: int| 0 <= i < j < names.len() ==> !text_before(names[j], names[i])
}

/// Keeps the trace files among the names of a directory and sorts them.
pub fn list_trace_names(names: Vec<String>) -> (r: Vec<String>)
    ensures
        text::texts(r@).to_multiset() == trace_names(text::texts(names@)).to_multiset(),
        in_dictionary_order(text::texts(r@)),
{
    let ghost all = text::texts(names@);
    let mut kept: Vec<String> = Vec::new();
    let mut keys: Vec<TextKey> = Vec::new();
    assert(text::texts(kept@) == trace_names(all.take(0)));
    for name in it: names
        invariant
            all == text::texts(it.seq()),
            text::texts(kept@) == trace_names(all.take(it.index())),
            keys@.len() == kept@.len(),
            forall|k: int| 0 <= k < keys@.len() ==> (#[trigger] keys@[k]).0@ == kept@[k]@,
    {
        assert(all.take(it.index() + 1).drop_last() == all.take(it.index()));
        assert(all.take(it.index() + 1).last() == name@);
        if is_trace_name(name.as_str()) {
            let ghost before = kept@;
            keys.push(TextKey(chars_of(name.as_str())));
            kept.push(name);
            assert(text::texts(kept@) == text::texts(before).push(kept@.last()@));
        }
    }
    assert(all.take(all.len() as int) == all);
    let order = sort_order(&keys);
    let ghost source = kept@;
    proof {
        texts_are_orderly(keys@);
    }
    let r = arrange(kept, &order);
    proof {
        let out = text::texts(r@);
        assert(out == sort::picked(text::texts(source), order@));
        sort::picking_keeps_the_items(text::texts(source), order@);
        assert forall|i: int, j: int| 0 <= i < j < out.len() implies !text_before(out[j], out[i]) by {
            assert(sort::precedes(keys@, order@[i], order@[j]));
            let a = order@[i] as int;
            let b = order@[j] as int;
            assert(keys@[a].before_spec(&keys@[b]) ==> !keys@[b].before_spec(&keys@[a]));
        }
    }
    r
}

} // verus!
