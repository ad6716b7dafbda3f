//! Spans as the trace views show them: each with its process label, a key
//! that is unique across processes, and a display id (`name#n`, numbered per
//! name and kind in display order).

use vstd::prelude::*;
use vstd::multiset::Multiset;
use crate::model::{EventInfo, SpanData, SpanInfo, events_data, flat_forest, span_data};
use crate::linking::{by_start, forest_bag, lemma_forest_bag_push, sort_by_start, tree_bag};
use crate::order::sorted_by;
use crate::text::{
    int_text, nat_text, push_char, push_int, push_str, push_uint, seq_contains, seq_starts_with, str_contains,
    str_eq, str_starts_with, suffix_string,
};
use crate::rl_contract::{attr_spec, attr_string};
use crate::trace_api::{process_label, process_label_spec};

verus! {

broadcast use vstd::seq_lib::group_to_multiset_ensures;

/// A span prepared for display.
pub struct DisplaySpan {
    pub unique_key: String,
    pub span_id: i64,
    pub trace_id: i64,
    pub parent_id: Option<i64>,
    pub name: String,
    pub display_id: String,
    pub start_timestamp: i64,
    pub end_timestamp: Option<i64>,
    pub thread_id: i64,
    pub kind: Option<String>,
    pub location: Option<String>,
    pub attributes: Option<String>,
    pub process_label: String,
    pub children: Vec<DisplaySpan>,
    pub events: Vec<EventInfo>,
}

/// The fields of a display span other than its children, as values.
pub struct DisplayData {
    pub source: SpanData,
    pub unique_key: Seq<char>,
    pub display_id: Seq<char>,
    pub process_label: Seq<char>,
}

pub open spec fn display_data(d: DisplaySpan) -> DisplayData {
    DisplayData {
        source: SpanData {
            span_id: d.span_id,
            trace_id: d.trace_id,
            parent_id: d.parent_id,
            name: d.name@,
            start_timestamp: d.start_timestamp,
            end_timestamp: d.end_timestamp,
            thread_id: d.thread_id,
            kind: d.kind.deep_view(),
            location: d.location.deep_view(),
            attributes: d.attributes.deep_view(),
            events: events_data(d.events@),
        },
        unique_key: d.unique_key@,
        display_id: d.display_id@,
        process_label: d.process_label@,
    }
}

/// The data of every display span of a tree, in preorder.
pub open spec fn flat_display_tree(d: DisplaySpan) -> Seq<DisplayData>
    decreases d,
{
    seq![display_data(d)] + flat_display(d.children@)
}

/// The data of every display span of a forest, in display order.
pub open spec fn flat_display(s: Seq<DisplaySpan>) -> Seq<DisplayData>
    decreases s,
{
    if s.len() == 0 {
        Seq::empty()
    } else {
        flat_display(s.subrange(0, s.len() - 1)) + flat_display_tree(s[s.len() - 1])
    }
}

pub proof fn lemma_flat_display_push(s: Seq<DisplaySpan>, d: DisplaySpan)
    ensures
        flat_display(s.push(d)) == flat_display(s) + flat_display_tree(d),
{
    assert(s.push(d).subrange(0, s.len() as int) =~= s);
}

/// The source span data of display data.
pub open spec fn sources(s: Seq<DisplayData>) -> Seq<SpanData> {
    s.map_values(|x: DisplayData| x.source)
}

/// Every level of a display forest is ordered by start time.
pub open spec fn display_sorted(s: Seq<DisplaySpan>) -> bool
    decreases s,
{
    &&& sorted_by(s, |d: DisplaySpan| d.start_timestamp as int)
    &&& forall|i: int| 0 <= i < s.len() ==> display_sorted(#[trigger] s[i].children@)
}

/// The display forest `d` shows the span forest `s` level by level: each
/// display span shows the span at its position, and its children show that
/// span's children in start order.
pub open spec fn shows_forest(d: Seq<DisplaySpan>, s: Seq<SpanInfo>) -> bool
    decreases d,
{
    &&& d.len() == s.len()
    &&& forall|i: int|
        0 <= i < d.len() ==> display_data(#[trigger] d[i]).source == span_data(s[i]) && shows_forest(
            d[i].children@,
            by_start(s[i].children@),
        )
}

/// The key display ids are numbered by: the name, and `:kind` when there is one.
pub open spec fn counter_key(name: Seq<char>, kind: Option<Seq<char>>) -> Seq<char> {
    match kind {
        Some(k) => name + ":"@ + k,
        None => name,
    }
}

pub open spec fn data_key(x: DisplayData) -> Seq<char> {
    counter_key(x.source.name, x.source.kind)
}

pub open spec fn keys(s: Seq<DisplayData>) -> Seq<Seq<char>> {
    s.map_values(|x: DisplayData| data_key(x))
}

/// The unique key of a span: process label, trace id and span id.
pub open spec fn unique_key_spec(label: Seq<char>, trace_id: i64, span_id: i64) -> Seq<char> {
    label + ":"@ + int_text(trace_id as int) + ":"@ + int_text(span_id as int)
}

/// The labels of one display span, where `seen` holds the counter keys of
/// every span shown so far, this one included.
pub open spec fn labelled(x: DisplayData, seen: Seq<Seq<char>>) -> bool {
    &&& x.process_label == process_label_spec(x.source.attributes, x.source.trace_id)
    &&& x.unique_key == unique_key_spec(x.process_label, x.source.trace_id, x.source.span_id)
    &&& x.display_id == x.source.name + "#"@ + nat_text(seen.to_multiset().count(data_key(x)))
}

/// Every span of `flat` is labelled, counting from the keys in `base`.
pub open spec fn labels_ok(base: Seq<Seq<char>>, flat: Seq<DisplayData>) -> bool {
    forall|i: int| 0 <= i < flat.len() ==> labelled(#[trigger] flat[i], base + keys(flat.subrange(0, i + 1)))
}

proof fn lemma_labels_append(base: Seq<Seq<char>>, a: Seq<DisplayData>, b: Seq<DisplayData>)
    requires
        labels_ok(base, a),
        labels_ok(base + keys(a), b),
    ensures
        labels_ok(base, a + b),
{
    let ab = a + b;
    assert forall|i: int| 0 <= i < ab.len() implies labelled(#[trigger] ab[i], base + keys(ab.subrange(0, i + 1))) by {
        if i < a.len() {
            assert(ab.subrange(0, i + 1) =~= a.subrange(0, i + 1));
            assert(ab[i] == a[i]);
        } else {
            let j = i - a.len();
            assert(ab[i] == b[j]);
            assert(ab.subrange(0, i + 1) =~= a + b.subrange(0, j + 1));
            assert(keys(a + b.subrange(0, j + 1)) =~= keys(a) + keys(b.subrange(0, j + 1)));
            assert(base + keys(ab.subrange(0, i + 1)) =~= (base + keys(a)) + keys(b.subrange(0, j + 1)));
        }
    }
}

/// The display-id counters: one entry per key seen, holding how often it was seen.
pub struct CounterEntry {
    pub key: String,
    pub count: usize,
}

pub open spec fn counters_ok(c: Seq<CounterEntry>, seen: Seq<Seq<char>>) -> bool {
    &&& forall|i: int| 0 <= i < c.len() ==> (#[trigger] c[i]).count == seen.to_multiset().count(c[i].key@)
    &&& forall|i: int, j: int| 0 <= i < j < c.len() ==> (#[trigger] c[i]).key@ != (#[trigger] c[j]).key@
    &&& forall|k: Seq<char>| #[trigger] seen.to_multiset().count(k) > 0 ==> exists|i: int| 0 <= i < c.len() && (#[trigger] c[i]).key@ == k
}

/// Counts one more span with counter key `key`; returns its number.
fn bump(counters: &mut Vec<CounterEntry>, key: String, Ghost(seen): Ghost<Seq<Seq<char>>>) -> (n: usize)
    requires
        counters_ok(old(counters)@, seen),
        seen.len() + 1 < usize::MAX,
    ensures
        counters_ok(final(counters)@, seen.push(key@)),
        n == seen.push(key@).to_multiset().count(key@),
{
    broadcast use vstd::multiset::group_multiset_axioms;
    let ghost after = seen.push(key@);
    assert(after.to_multiset() =~= seen.to_multiset().insert(key@));
    let mut i: usize = 0;
    while i < counters.len()
        invariant
            i <= counters@.len(),
            counters@ == old(counters)@,
            counters_ok(counters@, seen),
            seen.len() + 1 < usize::MAX,
            after == seen.push(key@),
            after.to_multiset() == seen.to_multiset().insert(key@),
            forall|k: int| 0 <= k < i ==> (#[trigger] counters@[k]).key@ != key@,
        decreases counters@.len() - i,
    {
        if str_eq(counters[i].key.as_str(), key.as_str()) {
            let c = counters[i].count;
            assert(c == seen.to_multiset().count(key@));
            assert(seen.to_multiset().count(key@) <= seen.to_multiset().len());
            let n = c + 1;
            let ghost old_c = counters@;
            counters.set(i, CounterEntry { key, count: n });
            proof {
                assert forall|k: int| 0 <= k < counters@.len() implies (#[trigger] counters@[k]).count == after.to_multiset().count(counters@[k].key@) by {
                    if k != i {
                        assert(counters@[k] == old_c[k]);
                        if k < i {
                        } else {
                            assert(old_c[i as int].key@ != old_c[k].key@);
                        }
                    }
                }
                assert forall|k: Seq<char>| #[trigger] after.to_multiset().count(k) > 0 implies exists|j: int| 0 <= j < counters@.len() && (#[trigger] counters@[j]).key@ == k by {
                    if k == key@ {
                        assert(counters@[i as int].key@ == k);
                    } else {
                        assert(seen.to_multiset().count(k) > 0);
                        let j = choose|j: int| 0 <= j < old_c.len() && (#[trigger] old_c[j]).key@ == k;
                        assert(counters@[j].key@ == k);
                    }
                }
            }
            return n;
        }
        i += 1;
    }
    proof {
        if seen.to_multiset().count(key@) > 0 {
            let j = choose|j: int| 0 <= j < counters@.len() && (#[trigger] counters@[j]).key@ == key@;
            assert(counters@[j].key@ != key@);
        }
    }
    let ghost old_c = counters@;
    counters.push(CounterEntry { key, count: 1 });
    proof {
        assert forall|k: int| 0 <= k < counters@.len() implies (#[trigger] counters@[k]).count == after.to_multiset().count(counters@[k].key@) by {
            if k < old_c.len() {
                assert(counters@[k] == old_c[k]);
            }
        }
        assert forall|a: int, b: int| 0 <= a < b < counters@.len() implies (#[trigger] counters@[a]).key@ != (#[trigger] counters@[b]).key@ by {
            if b < old_c.len() {
                assert(counters@[a] == old_c[a]);
                assert(counters@[b] == old_c[b]);
            } else {
                assert(counters@[a] == old_c[a]);
            }
        }
        assert forall|k: Seq<char>| #[trigger] after.to_multiset().count(k) > 0 implies exists|j: int| 0 <= j < counters@.len() && (#[trigger] counters@[j]).key@ == k by {
            if k == key@ {
                assert(counters@[old_c.len() as int].key@ == k);
            } else {
                assert(seen.to_multiset().count(k) > 0);
                let j = choose|j: int| 0 <= j < old_c.len() && (#[trigger] old_c[j]).key@ == k;
                assert(counters@[j].key@ == k);
            }
        }
    }
    1
}

/// The source span data of a display forest, as a multiset.
pub open spec fn display_bag(s: Seq<DisplaySpan>) -> Multiset<SpanData> {
    sources(flat_display(s)).to_multiset()
}

pub open spec fn display_tree_bag(d: DisplaySpan) -> Multiset<SpanData> {
    sources(flat_display_tree(d)).to_multiset()
}

proof fn lemma_display_bag_push(s: Seq<DisplaySpan>, d: DisplaySpan)
    ensures
        display_bag(s.push(d)) == display_bag(s).add(display_tree_bag(d)),
{
    lemma_flat_display_push(s, d);
    assert(sources(flat_display(s) + flat_display_tree(d)) =~= sources(flat_display(s)) + sources(flat_display_tree(d)));
    vstd::seq_lib::lemma_multiset_commutative(sources(flat_display(s)), sources(flat_display_tree(d)));
}

proof fn lemma_display_tree_bag(d: DisplaySpan)
    ensures
        display_tree_bag(d) == Multiset::singleton(display_data(d).source).add(display_bag(d.children@)),
{
    broadcast use vstd::multiset::group_multiset_axioms;
    let x = display_data(d).source;
    assert(sources(flat_display_tree(d)) =~= seq![x] + sources(flat_display(d.children@)));
    vstd::seq_lib::lemma_multiset_commutative(seq![x], sources(flat_display(d.children@)));
    assert(seq![x].to_multiset() =~= Multiset::singleton(x));
}

proof fn lemma_tree_bag_parts(t: SpanInfo)
    ensures
        tree_bag(t) == Multiset::singleton(span_data(t)).add(forest_bag(t.children@)),
{
    broadcast use vstd::multiset::group_multiset_axioms;
    vstd::seq_lib::lemma_multiset_commutative(seq![span_data(t)], flat_forest(t.children@));
    assert(seq![span_data(t)].to_multiset() =~= Multiset::singleton(span_data(t)));
}

proof fn lemma_prefix_flat_len(s: Seq<SpanInfo>, k: int)
    requires
        0 <= k < s.len(),
    ensures
        flat_forest(s.subrange(0, k + 1)).len() <= flat_forest(s).len(),
        flat_forest(s.subrange(0, k + 1)) == flat_forest(s.subrange(0, k)) + crate::model::flat_tree(s[k]),
{
    crate::model::lemma_flat_forest_append(s.subrange(0, k + 1), s.subrange(k + 1, s.len() as int));
    assert(s =~= s.subrange(0, k + 1) + s.subrange(k + 1, s.len() as int));
    assert(s.subrange(0, k + 1) =~= s.subrange(0, k).push(s[k]));
    crate::model::lemma_flat_forest_push(s.subrange(0, k), s[k]);
}

/// The counter key of a span: its name, and `:kind` when it has a kind.
fn counter_key_of(name: &String, kind: &Option<String>) -> (r: String)
    ensures
        r@ == counter_key(name@, kind.deep_view()),
{
    let mut k = name.clone();
    if let Some(kd) = kind {
        push_char(&mut k, ':');
        push_str(&mut k, kd.as_str());
        proof {
            reveal_strlit(":");
        }
        assert(k@ =~= counter_key(name@, kind.deep_view()));
    }
    k
}

/// Display spans for a forest, each level ordered by start time; display ids
/// count on from the keys in `base`.
fn build_display_forest(
    spans: Vec<SpanInfo>,
    counters: &mut Vec<CounterEntry>,
    Ghost(base): Ghost<Seq<Seq<char>>>,
) -> (r: Vec<DisplaySpan>)
    requires
        counters_ok(old(counters)@, base),
        base.len() + flat_forest(spans@).len() + 1 < usize::MAX,
    ensures
        counters_ok(final(counters)@, base + keys(flat_display(r@))),
        labels_ok(base, flat_display(r@)),
        display_bag(r@) == forest_bag(spans@),
        flat_display(r@).len() == flat_forest(spans@).len(),
        display_sorted(r@),
        shows_forest(r@, by_start(spans@)),
    decreases flat_forest(spans@).len(),
{
    broadcast use vstd::multiset::group_multiset_axioms;
    let sorted = sort_by_start(spans);
    let ghost s0 = sorted@;
    proof {
        assert(forest_bag(s0).len() == flat_forest(s0).len());
        assert(forest_bag(spans@).len() == flat_forest(spans@).len());
    }
    let _n0 = sorted.len();
    let mut out: Vec<DisplaySpan> = Vec::new();
    let mut rest = sorted;
    let mut done: usize = 0;
    proof {
        assert(s0.subrange(0, 0) =~= Seq::<SpanInfo>::empty());
        assert(base + keys(flat_display(out@)) =~= base);
        assert(display_bag(out@) =~= Multiset::empty());
        assert(forest_bag(s0.subrange(0, 0)) =~= Multiset::empty());
    }
    while rest.len() > 0
        invariant
            done + rest@.len() == s0.len(),
            rest@ == s0.subrange(done as int, s0.len() as int),
            out@.len() == done,
            counters_ok(counters@, base + keys(flat_display(out@))),
            labels_ok(base, flat_display(out@)),
            display_bag(out@) == forest_bag(s0.subrange(0, done as int)),
            flat_display(out@).len() == flat_forest(s0.subrange(0, done as int)).len(),
            forall|i: int| 0 <= i < done ==> (#[trigger] out@[i]).start_timestamp == s0[i].start_timestamp,
            forall|i: int| 0 <= i < done ==> display_sorted(#[trigger] out@[i].children@),
            forall|i: int|
                0 <= i < done ==> display_data(#[trigger] out@[i]).source == span_data(s0[i]) && shows_forest(
                    out@[i].children@,
                    by_start(s0[i].children@),
                ),
            s0 == by_start(spans@),
            base.len() + flat_forest(s0).len() + 1 < usize::MAX,
            sorted_by(s0, |t: SpanInfo| t.start_timestamp as int),
            forest_bag(s0) == forest_bag(spans@),
            s0.len() <= usize::MAX,
        decreases rest@.len(),
    {
        let t = rest.remove(0);
        let ghost t0 = t;
        let ghost o0 = out@;
        proof {
            assert(t0 == s0[done as int]);
            lemma_prefix_flat_len(s0, done as int);
            lemma_forest_bag_push(s0.subrange(0, done as int), t0);
            assert(s0.subrange(0, done + 1) =~= s0.subrange(0, done as int).push(t0));
            lemma_tree_bag_parts(t0);
            assert(forest_bag(t0.children@).len() == flat_forest(t0.children@).len());
            assert(tree_bag(t0).len() == crate::model::flat_tree(t0).len());
        }
        let SpanInfo {
            span_id,
            trace_id,
            parent_id,
            name,
            start_timestamp,
            end_timestamp,
            thread_id,
            kind,
            location,
            attributes,
            children,
            events,
        } = t;
        let label = process_label(&attributes, trace_id);
        let key = counter_key_of(&name, &kind);
        let ghost seen = base + keys(flat_display(o0));
        let ghost kv = key@;
        let n = bump(counters, key, Ghost(seen));
        let mut display_id = name.clone();
        push_char(&mut display_id, '#');
        push_uint(&mut display_id, n as u64);
        let mut unique_key = label.clone();
        push_char(&mut unique_key, ':');
        push_int(&mut unique_key, trace_id);
        push_char(&mut unique_key, ':');
        push_int(&mut unique_key, span_id);
        proof {
            assert(children@ == t0.children@);
            assert(forest_bag(s0).len() == flat_forest(s0).len());
            assert(forest_bag(spans@).len() == flat_forest(spans@).len());
            assert(crate::model::flat_tree(t0).len() == 1 + flat_forest(t0.children@).len());
            assert(flat_forest(children@).len() < flat_forest(spans@).len());
        }
        let kids = build_display_forest(children, counters, Ghost(seen.push(kv)));
        let d = DisplaySpan {
            unique_key,
            span_id,
            trace_id,
            parent_id,
            name,
            display_id,
            start_timestamp,
            end_timestamp,
            thread_id,
            kind,
            location,
            attributes,
            process_label: label,
            children: kids,
            events,
        };
        proof {
            reveal_strlit(":");
            reveal_strlit("#");
            let x = display_data(d);
            assert(x.source == span_data(t0));
            assert(data_key(x) == kv);
            assert(x.display_id =~= x.source.name + "#"@ + nat_text(seen.push(kv).to_multiset().count(kv)));
            assert(x.unique_key =~= unique_key_spec(x.process_label, x.source.trace_id, x.source.span_id));
            assert(labelled(x, seen.push(kv)));
            assert(keys(seq![x]) =~= seq![kv]);
            assert(seq![x].subrange(0, 1) =~= seq![x]);
            assert(seen + keys(seq![x]) =~= seen.push(kv));
            assert forall|i: int| 0 <= i < seq![x].len() implies labelled(#[trigger] seq![x][i], seen + keys(seq![x].subrange(0, i + 1))) by {
                assert(i == 0);
            }
            lemma_labels_append(seen, seq![x], flat_display(d.children@));
            assert(flat_display_tree(d) == seq![x] + flat_display(d.children@));
            lemma_labels_append(base, flat_display(o0), flat_display_tree(d));
            lemma_display_bag_push(o0, d);
            lemma_display_tree_bag(d);
            lemma_flat_display_push(o0, d);
            assert(keys(flat_display(o0) + flat_display_tree(d)) =~= keys(flat_display(o0)) + keys(flat_display_tree(d)));
            assert(keys(flat_display_tree(d)) =~= seq![kv] + keys(flat_display(d.children@)));
            assert(base + keys(flat_display(o0.push(d))) =~= seen.push(kv) + keys(flat_display(d.children@)));
        }
        out.push(d);
        proof {
            assert(out@ == o0.push(d));
            assert forall|i: int| 0 <= i < out@.len() implies (#[trigger] out@[i]).start_timestamp == s0[i].start_timestamp by {
                if i < done {
                    assert(out@[i] == o0[i]);
                }
            }
            assert forall|i: int| 0 <= i < out@.len() implies display_sorted(#[trigger] out@[i].children@) by {
                if i < done {
                    assert(out@[i] == o0[i]);
                }
            }
            assert forall|i: int| 0 <= i < out@.len() implies display_data(#[trigger] out@[i]).source == span_data(s0[i])
                && shows_forest(out@[i].children@, by_start(s0[i].children@)) by {
                if i < done {
                    assert(out@[i] == o0[i]);
                }
            }
        }
        done += 1;
        assert(rest@ =~= s0.subrange(done as int, s0.len() as int));
    }
    assert(s0.subrange(0, s0.len() as int) =~= s0);
    proof {
        assert forall|i: int, j: int| 0 <= i <= j < out@.len() implies (out@[i]).start_timestamp <= (out@[j]).start_timestamp by {
            assert(out@[i].start_timestamp == s0[i].start_timestamp);
            assert(out@[j].start_timestamp == s0[j].start_timestamp);
        }
    }
    out
}

/// Display spans for a span forest: every level ordered by start time, each
/// span labelled with its process, its unique key and its display id
/// (`name#n` for the `n`-th span with its name and kind, in display order).
pub fn build_display_spans(spans: Vec<SpanInfo>) -> (r: Vec<DisplaySpan>)
    requires
        flat_forest(spans@).len() + 1 < usize::MAX,
    ensures
        labels_ok(Seq::empty(), flat_display(r@)),
        display_bag(r@) == forest_bag(spans@),
        display_sorted(r@),
        shows_forest(r@, by_start(spans@)),
{
    let mut counters: Vec<CounterEntry> = Vec::new();
    build_display_forest(spans, &mut counters, Ghost(Seq::empty()))
}

pub proof fn lemma_flat_display_append(a: Seq<DisplaySpan>, b: Seq<DisplaySpan>)
    ensures
        flat_display(a + b) == flat_display(a) + flat_display(b),
    decreases b.len(),
{
    if b.len() == 0 {
        assert(a + b =~= a);
        assert(flat_display(b) =~= Seq::<DisplayData>::empty());
        assert(flat_display(a) + flat_display(b) =~= flat_display(a));
    } else {
        let b0 = b.subrange(0, b.len() - 1);
        lemma_flat_display_append(a, b0);
        assert((a + b).subrange(0, (a + b).len() - 1) =~= a + b0);
        assert((a + b)[(a + b).len() - 1] == b[b.len() - 1]);
        assert(flat_display(a + b) =~= flat_display(a) + flat_display(b));
    }
}

/// The pid a span's attributes name, unless it is missing, empty or `0`.
pub open spec fn pid_from_attrs_spec(attributes: Option<Seq<char>>) -> Option<Seq<char>> {
    match attr_spec(attributes, "pid"@) {
        Some(p) => if p.len() > 0 && p != "0"@ {
            Some(p)
        } else {
            None
        },
        None => None,
    }
}

/// The pid a span's attributes name, unless it is missing, empty or `0`.
pub fn process_pid_from_attrs(attributes: &Option<String>) -> (r: Option<String>)
    ensures
        r.deep_view() == pid_from_attrs_spec(attributes.deep_view()),
{
    match attr_string(attributes, "pid") {
        Some(p) => {
            proof {
                reveal_strlit("");
                assert(p@.len() == 0 ==> p@ =~= ""@);
            }
            if !str_eq(p.as_str(), "") && !str_eq(p.as_str(), "0") {
                Some(p)
            } else {
                None
            }
        },
        None => None,
    }
}

/// Whether a span with these attributes passes the process filter: empty or
/// `all` pass everything, `driver` passes spans of a driver process, and
/// `pid:<pid>` the spans of that pid.
pub open spec fn process_filter_spec(attributes: Option<Seq<char>>, filter: Seq<char>) -> bool {
    if filter.len() == 0 || filter == "all"@ {
        true
    } else if filter == "driver"@ {
        match attr_spec(attributes, "process_role"@) {
            Some(role) => seq_contains(role, "driver"@),
            None => false,
        }
    } else if seq_starts_with(filter, "pid:"@) {
        pid_from_attrs_spec(attributes) == Some(filter.skip(4))
    } else {
        false
    }
}

/// The process filter `pid:<p>` selects exactly the spans whose attributes
/// name the pid `<p>` (a pid that is neither empty nor `0`).
pub proof fn lemma_pid_filter_selects(attributes: Option<Seq<char>>, p: Seq<char>)
    ensures
        process_filter_spec(attributes, "pid:"@ + p) <==> (attr_spec(attributes, "pid"@) == Some(p) && p.len() > 0
            && p != "0"@),
{
    reveal_strlit("pid:");
    reveal_strlit("all");
    reveal_strlit("driver");
    reveal_strlit("0");
    let f = "pid:"@ + p;
    assert(f.len() >= 4);
    assert(f.subrange(0, 4) =~= "pid:"@);
    assert(seq_starts_with(f, "pid:"@));
    assert(f != "all"@) by {
        if f == "all"@ {
            assert(f.len() == 3);
        }
    }
    assert(f != "driver"@) by {
        if f == "driver"@ {
            assert(f[0] == 'd');
        }
    }
    assert(f.skip(4) =~= p);
}

/// Whether a span passes the process filter.
pub fn process_filter_matches(span: &DisplaySpan, process_filter: &str) -> (r: bool)
    ensures
        r == process_filter_spec(span.attributes.deep_view(), process_filter@),
{
    proof {
        reveal_strlit("pid:");
        reveal_strlit("");
    }
    if process_filter.is_empty() || str_eq(process_filter, "all") {
        return true;
    }
    if str_eq(process_filter, "driver") {
        return match attr_string(&span.attributes, "process_role") {
            Some(role) => str_contains(role.as_str(), "driver"),
            None => false,
        };
    }
    if str_starts_with(process_filter, "pid:") {
        let wanted = suffix_string(process_filter, 4);
        return match process_pid_from_attrs(&span.attributes) {
            Some(pid) => str_eq(pid.as_str(), wanted.as_str()),
            None => false,
        };
    }
    false
}

/// Whether a span passes the function filter: an empty filter passes every
/// span, another only spans of that name.
pub open spec fn function_filter_spec(name: Seq<char>, filter: Seq<char>) -> bool {
    filter.len() == 0 || name == filter
}

/// Whether a span passes the function filter.
pub fn function_filter_matches(span: &DisplaySpan, function_filter: &str) -> (r: bool)
    ensures
        r == function_filter_spec(span.name@, function_filter@),
{
    function_filter.is_empty() || str_eq(span.name.as_str(), function_filter)
}

/// Whether a span is kept by both filters.
pub open spec fn kept(x: DisplayData, process_filter: Seq<char>, function_filter: Seq<char>) -> bool {
    process_filter_spec(x.source.attributes, process_filter) && function_filter_spec(x.source.name, function_filter)
}

pub open spec fn kept_by(process_filter: Seq<char>, function_filter: Seq<char>) -> spec_fn(DisplayData) -> bool {
    |x: DisplayData| kept(x, process_filter, function_filter)
}

/// How many top-level spans filtering `s` gives: a kept span counts once,
/// a dropped one counts what filtering its children gives.
pub open spec fn filtered_len(s: Seq<DisplaySpan>, pf: Seq<char>, ff: Seq<char>) -> nat
    decreases s,
{
    if s.len() == 0 {
        0
    } else {
        let t = s[s.len() - 1];
        filtered_len(s.subrange(0, s.len() - 1), pf, ff) + if kept(display_data(t), pf, ff) {
            1
        } else {
            filtered_len(t.children@, pf, ff)
        }
    }
}

/// `r` is the forest `s` filtered: each span that passes both filters shows
/// in `r` with the filtered forest of its children below it; a span that
/// does not pass is replaced by the filtered forest of its children, in its
/// place.
pub open spec fn filters(r: Seq<DisplaySpan>, s: Seq<DisplaySpan>, pf: Seq<char>, ff: Seq<char>) -> bool
    decreases s,
{
    if s.len() == 0 {
        r.len() == 0
    } else {
        let t = s[s.len() - 1];
        let s0 = s.subrange(0, s.len() - 1);
        let k = filtered_len(s0, pf, ff) as int;
        let tail = r.subrange(k, r.len() as int);
        &&& r.len() == filtered_len(s, pf, ff)
        &&& filters(r.subrange(0, k), s0, pf, ff)
        &&& if kept(display_data(t), pf, ff) {
            &&& tail.len() == 1
            &&& display_data(tail[0]) == display_data(t)
            &&& filters(tail[0].children@, t.children@, pf, ff)
        } else {
            filters(tail, t.children@, pf, ff)
        }
    }
}

/// One step of filtering a forest: the output grows by what span `d0`
/// gives (itself with its filtered children, or its filtered children).
proof fn lemma_filters_step(
    s0: Seq<DisplaySpan>,
    done: int,
    d0: DisplaySpan,
    out0: Seq<DisplaySpan>,
    o0: Seq<DisplaySpan>,
    o1: Seq<DisplaySpan>,
    added: Seq<DisplaySpan>,
    pf: Seq<char>,
    ff: Seq<char>,
)
    requires
        0 <= done < s0.len(),
        s0[done] == d0,
        o0.len() >= out0.len(),
        o0.subrange(0, out0.len() as int) == out0,
        filters(o0.subrange(out0.len() as int, o0.len() as int), s0.subrange(0, done), pf, ff),
        o1 == o0 + added,
        kept(display_data(d0), pf, ff) ==> added.len() == 1 && display_data(added[0]) == display_data(d0)
            && filters(added[0].children@, d0.children@, pf, ff),
        !kept(display_data(d0), pf, ff) ==> filters(added, d0.children@, pf, ff),
    ensures
        o1.len() >= out0.len(),
        o1.subrange(0, out0.len() as int) == out0,
        filters(o1.subrange(out0.len() as int, o1.len() as int), s0.subrange(0, done + 1), pf, ff),
{
    let pre = s0.subrange(0, done);
    let tail0 = o0.subrange(out0.len() as int, o0.len() as int);
    let tail1 = o1.subrange(out0.len() as int, o1.len() as int);
    lemma_filters_len(tail0, pre, pf, ff);
    if !kept(display_data(d0), pf, ff) {
        lemma_filters_len(added, d0.children@, pf, ff);
    }
    assert(s0.subrange(0, done + 1).subrange(0, done) =~= pre);
    assert(s0.subrange(0, done + 1)[done] == d0);
    assert(tail1.subrange(0, tail0.len() as int) =~= tail0);
    assert(tail1.subrange(tail0.len() as int, tail1.len() as int) =~= added);
    assert(o1.subrange(0, out0.len() as int) =~= out0);
}

proof fn lemma_filters_len(r: Seq<DisplaySpan>, s: Seq<DisplaySpan>, pf: Seq<char>, ff: Seq<char>)
    requires
        filters(r, s, pf, ff),
    ensures
        r.len() == filtered_len(s, pf, ff),
{
}

/// Appends the spans of `spans` that pass both filters to `out`; a span that
/// passes keeps the passing spans below it as its children, one that does
/// not hands them up to its own place.
#[verifier::spinoff_prover]
#[verifier::rlimit(60)]
fn collect_filtered_display_spans(
    spans: Vec<DisplaySpan>,
    process_filter: &str,
    function_filter: &str,
    out: &mut Vec<DisplaySpan>,
)
    ensures
        flat_display(final(out)@) == flat_display(old(out)@) + flat_display(spans@).filter(
            kept_by(process_filter@, function_filter@),
        ),
        final(out)@.len() >= old(out)@.len(),
        final(out)@.subrange(0, old(out)@.len() as int) == old(out)@,
        filters(final(out)@.subrange(old(out)@.len() as int, final(out)@.len() as int), spans@, process_filter@, function_filter@),
    decreases flat_display(spans@).len(),
{
    let ghost pred = kept_by(process_filter@, function_filter@);
    let ghost s0 = spans@;
    let ghost out0 = out@;
    let mut rest = spans;
    let mut done: usize = 0;
    let _n = rest.len();
    assert(flat_display(s0.subrange(0, 0)) =~= Seq::<DisplayData>::empty());
    assert(flat_display(s0.subrange(0, 0)).filter(pred) =~= Seq::<DisplayData>::empty());
    assert(flat_display(out0) + Seq::<DisplayData>::empty() =~= flat_display(out0));
    while rest.len() > 0
        invariant
            done + rest@.len() == s0.len(),
            s0.len() <= usize::MAX,
            rest@ == s0.subrange(done as int, s0.len() as int),
            flat_display(out@) == flat_display(out0) + flat_display(s0.subrange(0, done as int)).filter(pred),
            pred == kept_by(process_filter@, function_filter@),
            s0 == spans@,
            out@.len() >= out0.len(),
            out@.subrange(0, out0.len() as int) == out0,
            filters(out@.subrange(out0.len() as int, out@.len() as int), s0.subrange(0, done as int), process_filter@, function_filter@),
        decreases rest@.len(),
    {
        let span = rest.remove(0);
        let ghost d0 = span;
        let ghost o0 = out@;
        proof {
            assert(d0 == s0[done as int]);
            assert(s0.subrange(0, done + 1) =~= s0.subrange(0, done as int).push(d0));
            lemma_flat_display_push(s0.subrange(0, done as int), d0);
            Seq::filter_distributes_over_add(flat_display(s0.subrange(0, done as int)), flat_display_tree(d0), pred);
            assert(flat_display_tree(d0) == seq![display_data(d0)] + flat_display(d0.children@));
            Seq::filter_distributes_over_add(seq![display_data(d0)], flat_display(d0.children@), pred);
            lemma_flat_display_append(s0.subrange(0, done as int).push(d0), s0.subrange(done + 1, s0.len() as int));
            assert(s0 =~= s0.subrange(0, done + 1) + s0.subrange(done + 1, s0.len() as int));
            assert(flat_display(d0.children@).len() < flat_display(spans@).len());
        }
        let keep = process_filter_matches(&span, process_filter) && function_filter_matches(&span, function_filter);
        let DisplaySpan {
            unique_key,
            span_id,
            trace_id,
            parent_id,
            name,
            display_id,
            start_timestamp,
            end_timestamp,
            thread_id,
            kind,
            location,
            attributes,
            process_label,
            children,
            events,
        } = span;
        let mut kids: Vec<DisplaySpan> = Vec::new();
        collect_filtered_display_spans(children, process_filter, function_filter, &mut kids);
        if keep {
            let d = DisplaySpan {
                unique_key,
                span_id,
                trace_id,
                parent_id,
                name,
                display_id,
                start_timestamp,
                end_timestamp,
                thread_id,
                kind,
                location,
                attributes,
                process_label,
                children: kids,
                events,
            };
            proof {
                assert(display_data(d) == display_data(d0));
                assert(seq![display_data(d0)].filter(pred) =~= seq![display_data(d0)]) by {
                    reveal_with_fuel(Seq::filter, 2);
                    assert(pred(display_data(d0)));
                    assert(seq![display_data(d0)].drop_last() =~= Seq::<DisplayData>::empty());
                }
                lemma_flat_display_push(o0, d);
                assert(flat_display(kids@) =~= flat_display(d0.children@).filter(pred));
            }
            out.push(d);
            proof {
                assert(flat_display(out@) =~= flat_display(out0) + flat_display(s0.subrange(0, done + 1)).filter(pred));
                assert(kept(display_data(d0), process_filter@, function_filter@));
                assert(out@ =~= o0 + seq![d]);
                assert(kids@.subrange(0, 0) =~= Seq::<DisplaySpan>::empty());
                assert(kids@.subrange(0, kids@.len() as int) =~= kids@);
                lemma_filters_step(s0, done as int, d0, out0, o0, out@, seq![d], process_filter@, function_filter@);
            }
        } else {
            proof {
                assert(seq![display_data(d0)].filter(pred) =~= Seq::<DisplayData>::empty()) by {
                    reveal_with_fuel(Seq::filter, 2);
                    assert(!pred(display_data(d0)));
                    assert(seq![display_data(d0)].drop_last() =~= Seq::<DisplayData>::empty());
                }
            }
            let ghost kv = kids@;
            out.append(&mut kids);
            proof {
                lemma_flat_display_append(o0, kv);
                assert(flat_display(out@) =~= flat_display(out0) + flat_display(s0.subrange(0, done + 1)).filter(pred));
                assert(!kept(display_data(d0), process_filter@, function_filter@));
                assert(kv.subrange(0, 0) =~= Seq::<DisplaySpan>::empty());
                assert(kv.subrange(0, kv.len() as int) =~= kv);
                lemma_filters_step(s0, done as int, d0, out0, o0, out@, kv, process_filter@, function_filter@);
            }
        }
        done += 1;
        assert(rest@ =~= s0.subrange(done as int, s0.len() as int));
    }
    assert(s0.subrange(0, s0.len() as int) =~= s0);
}

/// Some span of `flat` is kept by both filters.
pub open spec fn any_kept(flat: Seq<DisplayData>, process_filter: Seq<char>, function_filter: Seq<char>) -> bool {
    exists|i: int| 0 <= i < flat.len() && kept(#[trigger] flat[i], process_filter, function_filter)
}

/// Whether some span of the forest passes both filters.
fn forest_any_kept(spans: &Vec<DisplaySpan>, process_filter: &str, function_filter: &str) -> (r: bool)
    ensures
        r == any_kept(flat_display(spans@), process_filter@, function_filter@),
    decreases flat_display(spans@).len(),
{
    let mut i: usize = 0;
    while i < spans.len()
        invariant
            i <= spans@.len(),
            !any_kept(flat_display(spans@.subrange(0, i as int)), process_filter@, function_filter@),
        decreases spans@.len() - i,
    {
        let ghost pre = spans@.subrange(0, i as int);
        let t = &spans[i];
        proof {
            assert(spans@.subrange(0, i + 1) =~= pre.push(*t));
            lemma_flat_display_push(pre, *t);
            lemma_flat_display_append(spans@.subrange(0, i + 1), spans@.subrange(i + 1, spans@.len() as int));
            assert(spans@ =~= spans@.subrange(0, i + 1) + spans@.subrange(i + 1, spans@.len() as int));
        }
        let here = process_filter_matches(t, process_filter) && function_filter_matches(t, function_filter);
        let below = forest_any_kept(&t.children, process_filter, function_filter);
        let ghost now = flat_display(spans@.subrange(0, i + 1));
        proof {
            assert(now == flat_display(pre) + (seq![display_data(*t)] + flat_display(t.children@)));
        }
        if here || below {
            proof {
                let whole = flat_display(spans@);
                if here {
                    let k = flat_display(pre).len() as int;
                    assert(whole[k] == display_data(*t));
                } else {
                    let j = choose|j: int| 0 <= j < flat_display(t.children@).len() && kept(#[trigger] flat_display(t.children@)[j], process_filter@, function_filter@);
                    let k = flat_display(pre).len() + 1 + j;
                    assert(whole[k] == flat_display(t.children@)[j]);
                }
            }
            return true;
        }
        proof {
            assert forall|k: int| 0 <= k < now.len() implies !kept(#[trigger] now[k], process_filter@, function_filter@) by {
                let a = flat_display(pre).len() as int;
                if k < a {
                    assert(now[k] == flat_display(pre)[k]);
                } else if k == a {
                    assert(now[k] == display_data(*t));
                } else {
                    assert(now[k] == flat_display(t.children@)[k - a - 1]);
                }
            }
        }
        i += 1;
    }
    assert(spans@.subrange(0, spans@.len() as int) =~= spans@);
    false
}

proof fn lemma_filter_empty_iff(s: Seq<DisplayData>, pf: Seq<char>, ff: Seq<char>)
    ensures
        (s.filter(kept_by(pf, ff)).len() == 0) <==> !any_kept(s, pf, ff),
{
    let pred = kept_by(pf, ff);
    s.filter_lemma(pred);
    if any_kept(s, pf, ff) {
        let i = choose|i: int| 0 <= i < s.len() && kept(#[trigger] s[i], pf, ff);
        assert(pred(s[i]));
        assert(s.filter(pred).contains(s[i]));
    } else {
        if s.filter(pred).len() > 0 {
            let x = s.filter(pred)[0];
            assert(pred(x));
            assert(s.filter(pred).contains(x));
            s.lemma_filter_contains_rev(pred, x);
            let j = choose|j: int| 0 <= j < s.len() && s[j] == x;
            assert(kept(s[j], pf, ff));
        }
    }
}

/// The spans that pass both filters; a passing span keeps the passing spans
/// below it as children. With the `driver` process filter, no function
/// filter and no passing span, every span is shown.
pub fn filter_display_spans(spans: Vec<DisplaySpan>, process_filter: &str, function_filter: &str) -> (r: Vec<
    DisplaySpan,
>)
    ensures
        (!any_kept(flat_display(spans@), process_filter@, function_filter@) && process_filter@ == "driver"@
            && function_filter@.len() == 0) ==> r == spans,
        !(!any_kept(flat_display(spans@), process_filter@, function_filter@) && process_filter@ == "driver"@
            && function_filter@.len() == 0) ==> flat_display(r@) == flat_display(spans@).filter(
            kept_by(process_filter@, function_filter@),
        ),
        !(!any_kept(flat_display(spans@), process_filter@, function_filter@) && process_filter@ == "driver"@
            && function_filter@.len() == 0) ==> filters(r@, spans@, process_filter@, function_filter@),
        seq_starts_with(process_filter@, "pid:"@) ==> forall|i: int|
            0 <= i < flat_display(r@).len() ==> attr_spec(
                (#[trigger] flat_display(r@)[i]).source.attributes,
                "pid"@,
            ) == Some(process_filter@.skip(4)),
{
    proof {
        lemma_filter_empty_iff(flat_display(spans@), process_filter@, function_filter@);
    }
    let any = forest_any_kept(&spans, process_filter, function_filter);
    proof {
        reveal_strlit("driver");
        reveal_strlit("pid:");
        if seq_starts_with(process_filter@, "pid:"@) {
            assert(process_filter@ != "driver"@) by {
                assert(process_filter@.subrange(0, 4) == "pid:"@);
                assert(process_filter@.subrange(0, 4)[0] == 'p');
                assert(process_filter@[0] == 'p');
            }
        }
    }
    if !any && str_eq(process_filter, "driver") && function_filter.is_empty() {
        return spans;
    }
    let mut out: Vec<DisplaySpan> = Vec::new();
    collect_filtered_display_spans(spans, process_filter, function_filter, &mut out);
    assert(flat_display(Seq::<DisplaySpan>::empty()) =~= Seq::<DisplayData>::empty());
    assert(flat_display(out@) =~= flat_display(spans@).filter(kept_by(process_filter@, function_filter@)));
    assert(out@.subrange(0, out@.len() as int) =~= out@);
    proof {
        if seq_starts_with(process_filter@, "pid:"@) {
            let pf = process_filter@;
            let pred = kept_by(pf, function_filter@);
            let fl = flat_display(spans@).filter(pred);
            flat_display(spans@).filter_lemma(pred);
            assert(pf =~= "pid:"@ + pf.skip(4));
            assert forall|i: int| 0 <= i < flat_display(out@).len() implies attr_spec(
                (#[trigger] flat_display(out@)[i]).source.attributes,
                "pid"@,
            ) == Some(pf.skip(4)) by {
                assert(pred(fl[i]));
                lemma_pid_filter_selects(fl[i].source.attributes, pf.skip(4));
            }
        }
    }
    out
}


/// Without a process filter (empty or `all`) and without a function filter,
/// every span is kept, in display order.
pub proof fn lemma_no_filter_keeps_all(flat: Seq<DisplayData>, process_filter: Seq<char>)
    requires
        process_filter.len() == 0 || process_filter == "all"@,
    ensures
        flat.filter(kept_by(process_filter, Seq::empty())) == flat,
    decreases flat.len(),
{
    reveal(Seq::filter);
    if flat.len() > 0 {
        lemma_no_filter_keeps_all(flat.drop_last(), process_filter);
        assert(kept_by(process_filter, Seq::empty())(flat.last()));
        assert(flat.drop_last().push(flat.last()) =~= flat);
    }
}

/// With a function filter and no process filter, exactly the spans of that
/// name are kept, in display order.
pub proof fn lemma_function_filter_keeps_name(flat: Seq<DisplayData>, name: Seq<char>)
    requires
        name.len() > 0,
    ensures
        flat.filter(kept_by(Seq::empty(), name)) == flat.filter(|x: DisplayData| x.source.name == name),
    decreases flat.len(),
{
    reveal(Seq::filter);
    if flat.len() > 0 {
        lemma_function_filter_keeps_name(flat.drop_last(), name);
        assert(kept_by(Seq::empty(), name)(flat.last()) == (flat.last().source.name == name));
    }
}

} // verus!
