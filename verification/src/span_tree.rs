//! Assembles trace events into span trees: the process of each event, the
//! spans its start/end/event records describe, and their nesting.

use vstd::prelude::*;
use vstd::multiset::Multiset;
use crate::model::{EventData, EventInfo, SpanData, SpanInfo, TraceEvent, events_data, span_data,
    flat_tree, flat_forest, edges_ok, lemma_flat_forest_push, lemma_flat_forest_append};
use crate::order::{sort_by_key, sorted_by, stable_sort_by};
use crate::rl_contract::{attr_spec, attr_string};
use crate::text::{copy_opt_string, parse_i64, parse_i64_spec, str_eq};

verus! {

broadcast use vstd::seq_lib::group_to_multiset_ensures;

/// `trace_id`, but at least 1.
pub open spec fn trace_id_fallback(trace_id: i64) -> i64 {
    if trace_id > 1 {
        trace_id
    } else {
        1
    }
}

/// The process of an event: the positive `pid` attribute, else its trace id
/// (at least 1).
pub open spec fn event_pid_spec(e: TraceEvent) -> i64 {
    match attr_spec(e.attributes.deep_view(), "pid"@) {
        Some(t) => match parse_i64_spec(t) {
            Some(p) => if p > 0 {
                p
            } else {
                trace_id_fallback(e.trace_id)
            },
            None => trace_id_fallback(e.trace_id),
        },
        None => trace_id_fallback(e.trace_id),
    }
}

/// The process id an event's attributes name, or its trace id.
pub fn trace_event_process_pid(event: &TraceEvent) -> (pid: i64)
    ensures
        pid == event_pid_spec(*event),
{
    let fallback = if event.trace_id > 1 { event.trace_id } else { 1 };
    match attr_string(&event.attributes, "pid") {
        Some(t) => match parse_i64(t.as_str()) {
            Some(p) => if p > 0 {
                p
            } else {
                fallback
            },
            None => fallback,
        },
        None => fallback,
    }
}

/// The process a span start was attributed to, keyed by span, thread and trace.
#[derive(Debug, Clone, Copy, PartialEq)]
pub struct SpanStartEntry {
    pub span_id: i64,
    pub thread_id: i64,
    pub trace_id: i64,
    pub pid: i64,
}

/// The processes of the span starts seen so far, one entry per
/// (span, thread, trace), in order of first appearance.
pub struct SpanProcessLookup {
    pub entries: Vec<SpanStartEntry>,
}

pub open spec fn matches_exact(x: SpanStartEntry, span_id: i64, thread_id: i64, trace_id: i64) -> bool {
    x.span_id == span_id && x.thread_id == thread_id && x.trace_id == trace_id
}

pub open spec fn matches_thread(x: SpanStartEntry, span_id: i64, thread_id: i64) -> bool {
    x.span_id == span_id && x.thread_id == thread_id
}

pub open spec fn first_exact(s: Seq<SpanStartEntry>, span_id: i64, thread_id: i64, trace_id: i64, i: int) -> bool {
    &&& 0 <= i < s.len()
    &&& matches_exact(s[i], span_id, thread_id, trace_id)
    &&& forall|k: int| 0 <= k < i ==> !matches_exact(#[trigger] s[k], span_id, thread_id, trace_id)
}

pub open spec fn first_thread(s: Seq<SpanStartEntry>, span_id: i64, thread_id: i64, i: int) -> bool {
    &&& 0 <= i < s.len()
    &&& matches_thread(s[i], span_id, thread_id)
    &&& forall|k: int| 0 <= k < i ==> !matches_thread(#[trigger] s[k], span_id, thread_id)
}

pub open spec fn first_span(s: Seq<SpanStartEntry>, span_id: i64, i: int) -> bool {
    &&& 0 <= i < s.len()
    &&& s[i].span_id == span_id
    &&& forall|k: int| 0 <= k < i ==> (#[trigger] s[k]).span_id != span_id
}

/// The lookup after recording `x`: its key's entry replaced, or `x` appended.
pub open spec fn lookup_insert(s: Seq<SpanStartEntry>, x: SpanStartEntry) -> Seq<SpanStartEntry> {
    if exists|i: int| first_exact(s, x.span_id, x.thread_id, x.trace_id, i) {
        s.update(choose|i: int| first_exact(s, x.span_id, x.thread_id, x.trace_id, i), x)
    } else {
        s.push(x)
    }
}

/// The process of a span end or event record: that of its span start (same
/// span, thread and trace), else of the first start on the same span and
/// thread, else of the first start of the same span, else its own.
pub open spec fn pid_from_start_spec(e: TraceEvent, s: Seq<SpanStartEntry>) -> i64 {
    if e.trace_id > 0 && exists|i: int| first_exact(s, e.span_id, e.thread_id, e.trace_id, i) {
        s[choose|i: int| first_exact(s, e.span_id, e.thread_id, e.trace_id, i)].pid
    } else if exists|i: int| first_thread(s, e.span_id, e.thread_id, i) {
        s[choose|i: int| first_thread(s, e.span_id, e.thread_id, i)].pid
    } else if exists|i: int| first_span(s, e.span_id, i) {
        s[choose|i: int| first_span(s, e.span_id, i)].pid
    } else {
        event_pid_spec(e)
    }
}

proof fn lemma_first_exact_unique(s: Seq<SpanStartEntry>, a: i64, b: i64, c: i64, i: int, j: int)
    requires
        first_exact(s, a, b, c, i),
        first_exact(s, a, b, c, j),
    ensures
        i == j,
{
}

fn find_exact(s: &Vec<SpanStartEntry>, span_id: i64, thread_id: i64, trace_id: i64) -> (r: Option<usize>)
    ensures
        r matches Some(i) ==> first_exact(s@, span_id, thread_id, trace_id, i as int),
        r is None ==> forall|k: int| 0 <= k < s@.len() ==> !matches_exact(#[trigger] s@[k], span_id, thread_id, trace_id),
{
    let mut i: usize = 0;
    while i < s.len()
        invariant
            i <= s@.len(),
            forall|k: int| 0 <= k < i ==> !matches_exact(#[trigger] s@[k], span_id, thread_id, trace_id),
        decreases s@.len() - i,
    {
        let x = s[i];
        if x.span_id == span_id && x.thread_id == thread_id && x.trace_id == trace_id {
            return Some(i);
        }
        i += 1;
    }
    None
}

impl SpanProcessLookup {
    /// An empty lookup.
    pub fn new() -> (r: SpanProcessLookup)
        ensures
            r.entries@ == Seq::<SpanStartEntry>::empty(),
    {
        SpanProcessLookup { entries: Vec::new() }
    }

    /// Records the process of a span start.
    pub fn insert(&mut self, x: SpanStartEntry)
        ensures
            final(self).entries@ == lookup_insert(old(self).entries@, x),
    {
        match find_exact(&self.entries, x.span_id, x.thread_id, x.trace_id) {
            Some(i) => {
                proof {
                    let c = choose|k: int| first_exact(self.entries@, x.span_id, x.thread_id, x.trace_id, k);
                    lemma_first_exact_unique(self.entries@, x.span_id, x.thread_id, x.trace_id, i as int, c);
                }
                let ghost before = self.entries@;
                self.entries.remove(i);
                self.entries.insert(i, x);
                assert(self.entries@ =~= before.update(i as int, x));
            },
            None => {
                self.entries.push(x);
            },
        }
    }
}

/// The process of a span end or event record, found through the span starts seen so far.
pub fn trace_event_process_pid_from_start(event: &TraceEvent, lookup: &SpanProcessLookup) -> (pid: i64)
    ensures
        pid == pid_from_start_spec(*event, lookup.entries@),
{
    let s = &lookup.entries;
    if event.trace_id > 0 {
        if let Some(i) = find_exact(s, event.span_id, event.thread_id, event.trace_id) {
            proof {
                let c = choose|k: int| first_exact(s@, event.span_id, event.thread_id, event.trace_id, k);
                lemma_first_exact_unique(s@, event.span_id, event.thread_id, event.trace_id, i as int, c);
            }
            return s[i].pid;
        }
    }
    let mut i: usize = 0;
    while i < s.len()
        invariant
            s@ == lookup.entries@,
            i <= s@.len(),
            forall|k: int| 0 <= k < i ==> !matches_thread(#[trigger] s@[k], event.span_id, event.thread_id),
            forall|k: int| event.trace_id > 0 && 0 <= k < s@.len() ==> !matches_exact(#[trigger] s@[k], event.span_id, event.thread_id, event.trace_id),
        decreases s@.len() - i,
    {
        if s[i].span_id == event.span_id && s[i].thread_id == event.thread_id {
            proof {
                if event.trace_id > 0 {
                    assert(forall|k: int| !first_exact(s@, event.span_id, event.thread_id, event.trace_id, k));
                }
                let c = choose|k: int| first_thread(s@, event.span_id, event.thread_id, k);
                assert(first_thread(s@, event.span_id, event.thread_id, i as int));
                if c < i {
                } else if c > i {
                    assert(!matches_thread(s@[i as int], event.span_id, event.thread_id));
                }
            }
            return s[i].pid;
        }
        i += 1;
    }
    let mut j: usize = 0;
    while j < s.len()
        invariant
            s@ == lookup.entries@,
            j <= s@.len(),
            forall|k: int| 0 <= k < s@.len() ==> !matches_thread(#[trigger] s@[k], event.span_id, event.thread_id),
            forall|k: int| 0 <= k < j ==> (#[trigger] s@[k]).span_id != event.span_id,
            forall|k: int| event.trace_id > 0 && 0 <= k < s@.len() ==> !matches_exact(#[trigger] s@[k], event.span_id, event.thread_id, event.trace_id),
        decreases s@.len() - j,
    {
        if s[j].span_id == event.span_id {
            proof {
                if event.trace_id > 0 {
                    assert(forall|k: int| !first_exact(s@, event.span_id, event.thread_id, event.trace_id, k));
                }
                assert(forall|k: int| !first_thread(s@, event.span_id, event.thread_id, k));
                assert(first_span(s@, event.span_id, j as int));
                let c = choose|k: int| first_span(s@, event.span_id, k);
                if c > j {
                    assert(s@[j as int].span_id == event.span_id);
                }
            }
            return s[j].pid;
        }
        j += 1;
    }
    proof {
        if event.trace_id > 0 {
            assert(forall|k: int| !first_exact(s@, event.span_id, event.thread_id, event.trace_id, k));
        }
        assert(forall|k: int| !first_thread(s@, event.span_id, event.thread_id, k));
        assert(forall|k: int| !first_span(s@, event.span_id, k));
    }
    trace_event_process_pid(event)
}

/// A span as the events so far describe it, with the process it belongs to.
pub struct SpanSlot {
    pub pid: i64,
    pub span: SpanInfo,
}

/// The spans, lookup and root keys the events so far describe.
pub struct BuildState {
    pub slots: Seq<(i64, SpanData)>,
    pub lookup: Seq<SpanStartEntry>,
    pub roots: Seq<(i64, i64)>,
}

/// Position `i` holds the first span of process `pid` with id `span_id`.
pub open spec fn first_slot(slots: Seq<(i64, SpanData)>, pid: i64, span_id: i64, i: int) -> bool {
    &&& 0 <= i < slots.len()
    &&& slots[i].0 == pid && slots[i].1.span_id == span_id
    &&& forall|k: int| 0 <= k < i ==> !((#[trigger] slots[k]).0 == pid && slots[k].1.span_id == span_id)
}

pub open spec fn has_slot(slots: Seq<(i64, SpanData)>, pid: i64, span_id: i64) -> bool {
    exists|i: int| first_slot(slots, pid, span_id, i)
}

pub open spec fn slot_of(slots: Seq<(i64, SpanData)>, pid: i64, span_id: i64) -> int {
    choose|i: int| first_slot(slots, pid, span_id, i)
}

/// The span a `span_start` record opens.
pub open spec fn start_data(e: TraceEvent) -> SpanData {
    SpanData {
        span_id: e.span_id,
        trace_id: e.trace_id,
        parent_id: e.parent_id,
        name: e.name@,
        start_timestamp: e.timestamp,
        end_timestamp: None,
        thread_id: e.thread_id,
        kind: e.kind.deep_view(),
        location: e.location.deep_view(),
        attributes: e.attributes.deep_view(),
        events: Seq::empty(),
    }
}

/// The point event an `event` record adds.
pub open spec fn record_event_data(e: TraceEvent) -> EventData {
    EventData { name: e.name@, timestamp: e.timestamp, attributes: e.event_attributes.deep_view() }
}

/// A span start without a parent (or with parent `-1`) is a root.
pub open spec fn is_root_start(e: TraceEvent) -> bool {
    e.parent_id is None || e.parent_id == Some(-1i64)
}

/// The state after one record: a `span_start` (re)opens the span of its
/// process, a `span_end` closes it and an `event` adds a point event to it;
/// records of unknown spans and of other types change nothing.
pub open spec fn build_step(st: BuildState, e: TraceEvent) -> BuildState {
    if e.record_type@ == "span_start"@ {
        let pid = event_pid_spec(e);
        let entry = SpanStartEntry { span_id: e.span_id, thread_id: e.thread_id, trace_id: e.trace_id, pid };
        let slots = if has_slot(st.slots, pid, e.span_id) {
            st.slots.update(slot_of(st.slots, pid, e.span_id), (pid, start_data(e)))
        } else {
            st.slots.push((pid, start_data(e)))
        };
        BuildState {
            slots,
            lookup: lookup_insert(st.lookup, entry),
            roots: if is_root_start(e) { st.roots.push((pid, e.span_id)) } else { st.roots },
        }
    } else if e.record_type@ == "span_end"@ {
        let pid = pid_from_start_spec(e, st.lookup);
        if has_slot(st.slots, pid, e.span_id) {
            let i = slot_of(st.slots, pid, e.span_id);
            let d = st.slots[i].1;
            BuildState {
                slots: st.slots.update(i, (pid, SpanData { end_timestamp: Some(e.timestamp), ..d })),
                ..st
            }
        } else {
            st
        }
    } else if e.record_type@ == "event"@ {
        let pid = pid_from_start_spec(e, st.lookup);
        if has_slot(st.slots, pid, e.span_id) {
            let i = slot_of(st.slots, pid, e.span_id);
            let d = st.slots[i].1;
            BuildState {
                slots: st.slots.update(i, (pid, SpanData { events: d.events.push(record_event_data(e)), ..d })),
                ..st
            }
        } else {
            st
        }
    } else {
        st
    }
}

/// The state after all records, in order.
pub open spec fn build_fold(events: Seq<TraceEvent>) -> BuildState
    decreases events.len(),
{
    if events.len() == 0 {
        BuildState { slots: Seq::empty(), lookup: Seq::empty(), roots: Seq::empty() }
    } else {
        build_step(build_fold(events.drop_last()), events.last())
    }
}

pub open spec fn slots_view(s: Seq<SpanSlot>) -> Seq<(i64, SpanData)> {
    s.map_values(|x: SpanSlot| (x.pid, span_data(x.span)))
}

proof fn lemma_first_slot_unique(slots: Seq<(i64, SpanData)>, pid: i64, span_id: i64, i: int, j: int)
    requires
        first_slot(slots, pid, span_id, i),
        first_slot(slots, pid, span_id, j),
    ensures
        i == j,
{
}

fn find_slot(slots: &Vec<SpanSlot>, pid: i64, span_id: i64) -> (r: Option<usize>)
    ensures
        r matches Some(i) ==> has_slot(slots_view(slots@), pid, span_id) && slot_of(slots_view(slots@), pid, span_id) == i,
        r is None ==> !has_slot(slots_view(slots@), pid, span_id),
{
    let ghost v = slots_view(slots@);
    let mut i: usize = 0;
    while i < slots.len()
        invariant
            v == slots_view(slots@),
            i <= slots@.len(),
            forall|k: int| 0 <= k < i ==> !((#[trigger] v[k]).0 == pid && v[k].1.span_id == span_id),
        decreases slots@.len() - i,
    {
        if slots[i].pid == pid && slots[i].span.span_id == span_id {
            proof {
                assert(first_slot(v, pid, span_id, i as int));
                let c = choose|k: int| first_slot(v, pid, span_id, k);
                lemma_first_slot_unique(v, pid, span_id, i as int, c);
            }
            return Some(i);
        }
        i += 1;
    }
    None
}

fn new_span(e: &TraceEvent) -> (s: SpanInfo)
    ensures
        span_data(s) == start_data(*e),
        s.children@.len() == 0,
{
    let s = SpanInfo {
        span_id: e.span_id,
        trace_id: e.trace_id,
        parent_id: e.parent_id,
        name: e.name.clone(),
        start_timestamp: e.timestamp,
        end_timestamp: None,
        thread_id: e.thread_id,
        kind: copy_opt_string(&e.kind),
        location: copy_opt_string(&e.location),
        attributes: copy_opt_string(&e.attributes),
        children: Vec::new(),
        events: Vec::new(),
    };
    assert(events_data(s.events@) =~= Seq::<EventData>::empty());
    s
}

/// Applies the records in order; every resulting span has no children yet.
fn collect_spans(events: &Vec<TraceEvent>) -> (r: (Vec<SpanSlot>, Vec<(i64, i64)>))
    ensures
        slots_view(r.0@) == build_fold(events@).slots,
        r.1@ == build_fold(events@).roots,
        forall|i: int| 0 <= i < r.0@.len() ==> (#[trigger] r.0@[i]).span.children@.len() == 0,
{
    let mut slots: Vec<SpanSlot> = Vec::new();
    let mut lookup = SpanProcessLookup::new();
    let mut roots: Vec<(i64, i64)> = Vec::new();
    let mut n: usize = 0;
    assert(slots_view(slots@) =~= Seq::<(i64, SpanData)>::empty());
    while n < events.len()
        invariant
            n <= events@.len(),
            slots_view(slots@) == build_fold(events@.subrange(0, n as int)).slots,
            lookup.entries@ == build_fold(events@.subrange(0, n as int)).lookup,
            roots@ == build_fold(events@.subrange(0, n as int)).roots,
            forall|i: int| 0 <= i < slots@.len() ==> (#[trigger] slots@[i]).span.children@.len() == 0,
        decreases events@.len() - n,
    {
        let e = &events[n];
        let ghost prefix = events@.subrange(0, n as int);
        let ghost next = events@.subrange(0, n + 1);
        assert(next.drop_last() =~= prefix);
        assert(next.last() == *e);
        let ghost st = build_fold(prefix);
        let ghost before = slots@;
        if str_eq(e.record_type.as_str(), "span_start") {
            let pid = trace_event_process_pid(e);
            lookup.insert(SpanStartEntry { span_id: e.span_id, thread_id: e.thread_id, trace_id: e.trace_id, pid });
            let span = new_span(e);
            let root = match e.parent_id {
                None => true,
                Some(p) => p == -1,
            };
            if root {
                roots.push((pid, e.span_id));
            }
            match find_slot(&slots, pid, e.span_id) {
                Some(i) => {
                    slots.remove(i);
                    slots.insert(i, SpanSlot { pid, span });
                    assert(slots@ =~= before.update(i as int, SpanSlot { pid, span }));
                    assert(slots_view(slots@) =~= st.slots.update(i as int, (pid, start_data(*e))));
                },
                None => {
                    slots.push(SpanSlot { pid, span });
                    assert(slots_view(slots@) =~= st.slots.push((pid, start_data(*e))));
                },
            }
        } else if str_eq(e.record_type.as_str(), "span_end") {
            let pid = trace_event_process_pid_from_start(e, &lookup);
            if let Some(i) = find_slot(&slots, pid, e.span_id) {
                let mut slot = slots.remove(i);
                slot.span.end_timestamp = Some(e.timestamp);
                let ghost d = span_data(slot.span);
                slots.insert(i, slot);
                assert(slots@ =~= before.update(i as int, slots@[i as int]));
                assert(slots_view(slots@) =~= st.slots.update(i as int, (pid, SpanData { end_timestamp: Some(e.timestamp), ..st.slots[i as int].1 })));
            }
        } else if str_eq(e.record_type.as_str(), "event") {
            let pid = trace_event_process_pid_from_start(e, &lookup);
            if let Some(i) = find_slot(&slots, pid, e.span_id) {
                let mut slot = slots.remove(i);
                let ghost old_events = slot.span.events@;
                let info = EventInfo { name: e.name.clone(), timestamp: e.timestamp, attributes: copy_opt_string(&e.event_attributes) };
                slot.span.events.push(info);
                assert(events_data(slot.span.events@) =~= events_data(old_events).push(record_event_data(*e)));
                slots.insert(i, slot);
                assert(slots@ =~= before.update(i as int, slots@[i as int]));
                assert(slots_view(slots@) =~= st.slots.update(i as int, (pid, SpanData { events: st.slots[i as int].1.events.push(record_event_data(*e)), ..st.slots[i as int].1 })));
            }
        }
        n += 1;
    }
    assert(events@.subrange(0, events@.len() as int) =~= events@);
    (slots, roots)
}

/// The data of a tree held in an arena slot, if any.
pub open spec fn opt_flat(o: Option<SpanInfo>) -> Seq<SpanData> {
    match o {
        Some(t) => flat_tree(t),
        None => Seq::empty(),
    }
}

/// The data of every span held in an arena, slot after slot.
pub open spec fn flat_slots(s: Seq<Option<SpanInfo>>) -> Seq<SpanData>
    decreases s.len(),
{
    if s.len() == 0 {
        Seq::empty()
    } else {
        flat_slots(s.drop_last()) + opt_flat(s.last())
    }
}

proof fn lemma_flat_slots_update(s: Seq<Option<SpanInfo>>, k: int, x: Option<SpanInfo>)
    requires
        0 <= k < s.len(),
    ensures
        flat_slots(s.update(k, x)).to_multiset().add(opt_flat(s[k]).to_multiset())
            == flat_slots(s).to_multiset().add(opt_flat(x).to_multiset()),
    decreases s.len(),
{
    broadcast use vstd::seq_lib::lemma_multiset_commutative;
    broadcast use vstd::multiset::group_multiset_axioms;
    let t = s.update(k, x);
    if k == s.len() - 1 {
        assert(t.drop_last() =~= s.drop_last());
        let a = flat_slots(s.drop_last()).to_multiset();
        assert(flat_slots(t).to_multiset() =~= a.add(opt_flat(x).to_multiset()));
        assert(flat_slots(s).to_multiset() =~= a.add(opt_flat(s[k]).to_multiset()));
        assert(a.add(opt_flat(x).to_multiset()).add(opt_flat(s[k]).to_multiset())
            =~= a.add(opt_flat(s[k]).to_multiset()).add(opt_flat(x).to_multiset()));
    } else {
        assert(t.drop_last() =~= s.drop_last().update(k, x));
        lemma_flat_slots_update(s.drop_last(), k, x);
        assert(s.drop_last()[k] == s[k]);
        assert(t.last() == s.last());
        let l = opt_flat(s.last()).to_multiset();
        let a = flat_slots(t.drop_last()).to_multiset();
        let b = flat_slots(s.drop_last()).to_multiset();
        assert(flat_slots(t).to_multiset() =~= a.add(l));
        assert(flat_slots(s).to_multiset() =~= b.add(l));
        assert(a.add(opt_flat(s[k]).to_multiset()) =~= b.add(opt_flat(x).to_multiset()));
        let sk = opt_flat(s[k]).to_multiset();
        let xm = opt_flat(x).to_multiset();
        assert forall|v: SpanData| #[trigger] a.add(l).add(sk).count(v) == b.add(l).add(xm).count(v) by {
            assert(a.add(sk).count(v) == b.add(xm).count(v));
        }
        assert(a.add(l).add(sk) =~= b.add(l).add(xm));
    }
}

proof fn lemma_push_child(p: SpanInfo, c: SpanInfo, q: SpanInfo)
    requires
        span_data(q) == span_data(p),
        q.children@ == p.children@.push(c),
    ensures
        flat_tree(q) == flat_tree(p) + flat_tree(c),
        edges_ok(p) && edges_ok(c) && c.parent_id == Some(p.span_id) ==> edges_ok(q),
{
    lemma_flat_forest_push(p.children@, c);
    assert(flat_tree(q) =~= flat_tree(p) + flat_tree(c));
    if edges_ok(p) && edges_ok(c) && c.parent_id == Some(p.span_id) {
        assert forall|i: int| 0 <= i < q.children@.len() implies {
            &&& (#[trigger] q.children@[i]).parent_id == Some(q.span_id)
            &&& edges_ok(q.children@[i])
        } by {
            if i < p.children@.len() {
                assert(q.children@[i] == p.children@[i]);
            }
        }
    }
}

/// The tree holds a span with data `p` that has a direct child with data `c`.
pub open spec fn tree_has_edge(t: SpanInfo, p: SpanData, c: SpanData) -> bool
    decreases t,
{
    ||| (span_data(t) == p && exists|k: int| 0 <= k < t.children@.len() && span_data(#[trigger] t.children@[k]) == c)
    ||| exists|k: int| 0 <= k < t.children@.len() && tree_has_edge(#[trigger] t.children@[k], p, c)
}

/// Some tree of the forest holds a span with data `p` with a direct child
/// with data `c`.
pub open spec fn forest_has_edge(s: Seq<SpanInfo>, p: SpanData, c: SpanData) -> bool {
    exists|i: int| 0 <= i < s.len() && tree_has_edge(#[trigger] s[i], p, c)
}

pub open spec fn opt_has_edge(o: Option<SpanInfo>, p: SpanData, c: SpanData) -> bool {
    match o {
        Some(t) => tree_has_edge(t, p, c),
        None => false,
    }
}

/// Some tree of the arena holds the edge.
pub open spec fn arena_has_edge(a: Seq<Option<SpanInfo>>, p: SpanData, c: SpanData) -> bool {
    exists|k: int| 0 <= k < a.len() && #[trigger] opt_has_edge(a[k], p, c)
}

/// Adding a child keeps the edges of both trees and adds the new one.
proof fn lemma_push_child_edges(p: SpanInfo, c: SpanInfo, q: SpanInfo)
    requires
        span_data(q) == span_data(p),
        q.children@ == p.children@.push(c),
    ensures
        tree_has_edge(q, span_data(p), span_data(c)),
        forall|x: SpanData, y: SpanData| #[trigger] tree_has_edge(p, x, y) ==> tree_has_edge(q, x, y),
        forall|x: SpanData, y: SpanData| #[trigger] tree_has_edge(c, x, y) ==> tree_has_edge(q, x, y),
{
    let n = p.children@.len();
    assert(q.children@[n as int] == c);
    assert forall|x: SpanData, y: SpanData| #[trigger] tree_has_edge(p, x, y) implies tree_has_edge(q, x, y) by {
        if span_data(p) == x && exists|k: int| 0 <= k < p.children@.len() && span_data(#[trigger] p.children@[k]) == y {
            let k = choose|k: int| 0 <= k < p.children@.len() && span_data(#[trigger] p.children@[k]) == y;
            assert(q.children@[k] == p.children@[k]);
        } else {
            let k = choose|k: int| 0 <= k < p.children@.len() && tree_has_edge(#[trigger] p.children@[k], x, y);
            assert(q.children@[k] == p.children@[k]);
        }
    }
    assert forall|x: SpanData, y: SpanData| #[trigger] tree_has_edge(c, x, y) implies tree_has_edge(q, x, y) by {
        assert(tree_has_edge(q.children@[n as int], x, y));
    }
}

/// Moving a child tree from slot `i` under the tree of slot `j` keeps every
/// edge of the arena and adds the one from the parent to the child.
proof fn lemma_arena_attach(a: Seq<Option<SpanInfo>>, i: int, j: int, p: SpanInfo, c: SpanInfo, q: SpanInfo)
    requires
        0 <= i < a.len(),
        0 <= j < a.len(),
        i != j,
        a[i] == Some(c),
        a[j] == Some(p),
        span_data(q) == span_data(p),
        q.children@ == p.children@.push(c),
    ensures
        arena_has_edge(a.update(i, None).update(j, Some(q)), span_data(p), span_data(c)),
        forall|x: SpanData, y: SpanData| #[trigger] arena_has_edge(a, x, y) ==> arena_has_edge(
            a.update(i, None).update(j, Some(q)),
            x,
            y,
        ),
{
    let b = a.update(i, None).update(j, Some(q));
    lemma_push_child_edges(p, c, q);
    assert(opt_has_edge(b[j], span_data(p), span_data(c)));
    assert forall|x: SpanData, y: SpanData| #[trigger] arena_has_edge(a, x, y) implies arena_has_edge(b, x, y) by {
        let k = choose|k: int| 0 <= k < a.len() && #[trigger] opt_has_edge(a[k], x, y);
        if k == i || k == j {
            assert(opt_has_edge(b[j], x, y));
        } else {
            assert(b[k] == a[k]);
            assert(opt_has_edge(b[k], x, y));
        }
    }
}

/// Number of empty entries.
pub open spec fn count_none<T>(s: Seq<Option<T>>) -> nat
    decreases s.len(),
{
    if s.len() == 0 {
        0
    } else {
        count_none(s.drop_last()) + if s.last() is None { 1nat } else { 0nat }
    }
}

proof fn lemma_count_none_update<T>(s: Seq<Option<T>>, k: int, x: T)
    requires
        0 <= k < s.len(),
        s[k] is None,
    ensures
        count_none(s.update(k, Some(x))) + 1 == count_none(s),
    decreases s.len(),
{
    let t = s.update(k, Some(x));
    if k == s.len() - 1 {
        assert(t.drop_last() =~= s.drop_last());
    } else {
        assert(t.drop_last() =~= s.drop_last().update(k, Some(x)));
        lemma_count_none_update(s.drop_last(), k, x);
    }
}

proof fn lemma_count_none_bound<T>(s: Seq<Option<T>>)
    ensures
        count_none(s) <= s.len(),
        (exists|k: int| 0 <= k < s.len() && s[k] is Some) ==> count_none(s) < s.len(),
    decreases s.len(),
{
    if s.len() > 0 {
        lemma_count_none_bound(s.drop_last());
        if exists|k: int| 0 <= k < s.len() && s[k] is Some {
            let k = choose|k: int| 0 <= k < s.len() && s[k] is Some;
            if k < s.len() - 1 {
                assert(s.drop_last()[k] is Some);
            }
        }
    }
}

/// The depth of span `i` below a top-level span, following parents for at
/// most `fuel` steps: 0 for a recorded root or a span without a parent, one
/// more than its parent's otherwise; none when the chain of parents breaks
/// (a parent `-1` or not among the spans) or runs out of fuel.
pub open spec fn anchored(
    par: Seq<Option<usize>>,
    pids: Seq<Option<i64>>,
    roots: Seq<bool>,
    i: int,
    fuel: nat,
) -> Option<nat>
    decreases fuel,
{
    if roots[i] || pids[i] is None {
        Some(0)
    } else if fuel == 0 {
        None
    } else {
        match (pids[i], par[i]) {
            (Some(p), Some(j)) => if p != -1 {
                match anchored(par, pids, roots, j as int, (fuel - 1) as nat) {
                    Some(x) => Some(x + 1),
                    None => None,
                }
            } else {
                None
            },
            _ => None,
        }
    }
}

/// The depth a span is given: its anchored depth, or 0 without one.
pub open spec fn depth_or_zero(par: Seq<Option<usize>>, pids: Seq<Option<i64>>, roots: Seq<bool>, i: int) -> nat {
    match anchored(par, pids, roots, i, par.len()) {
        Some(x) => x,
        None => 0,
    }
}

proof fn lemma_anchored_mono(par: Seq<Option<usize>>, pids: Seq<Option<i64>>, roots: Seq<bool>, i: int, f: nat, g: nat)
    requires
        f <= g,
        anchored(par, pids, roots, i, f) is Some,
    ensures
        anchored(par, pids, roots, i, g) == anchored(par, pids, roots, i, f),
    decreases f,
{
    if !(roots[i] || pids[i] is None) && f > 0 {
        match (pids[i], par[i]) {
            (Some(p), Some(j)) => {
                lemma_anchored_mono(par, pids, roots, j as int, (f - 1) as nat, (g - 1) as nat);
            },
            _ => {},
        }
    }
}

/// What a pass gives span `i` (without a depth yet) from the depths so far.
pub open spec fn pass_value(par: Seq<Option<usize>>, pids: Seq<Option<i64>>, depth: Seq<Option<usize>>, i: int) -> Option<nat> {
    match pids[i] {
        None => Some(0),
        Some(p) => if p != -1 {
            match par[i] {
                Some(j) => match depth[j as int] {
                    Some(dj) => Some((dj + 1) as nat),
                    None => None,
                },
                None => None,
            }
        } else {
            None
        },
    }
}

/// Every depth given so far is the span's anchored depth.
pub open spec fn depths_sound(par: Seq<Option<usize>>, pids: Seq<Option<i64>>, roots: Seq<bool>, depth: Seq<Option<usize>>) -> bool {
    &&& forall|k: int| 0 <= k < depth.len() ==> (#[trigger] depth[k] matches Some(x) ==> anchored(par, pids, roots, k, x as nat) == Some(x as nat))
    &&& forall|k: int| 0 <= k < depth.len() && roots[k] ==> (#[trigger] depth[k]) == Some(0usize)
}

proof fn lemma_depths_complete(
    par: Seq<Option<usize>>,
    pids: Seq<Option<i64>>,
    roots: Seq<bool>,
    depth: Seq<Option<usize>>,
    i: int,
    f: nat,
)
    requires
        depth.len() == par.len(),
        pids.len() == par.len(),
        roots.len() == par.len(),
        0 <= i < par.len(),
        forall|k: int| 0 <= k < par.len() ==> (#[trigger] par[k] matches Some(j) ==> j < par.len()),
        depths_sound(par, pids, roots, depth),
        forall|k: int| 0 <= k < depth.len() && (#[trigger] depth[k]) is None ==> pass_value(par, pids, depth, k) is None,
        anchored(par, pids, roots, i, f) is Some,
    ensures
        depth[i] matches Some(y) && y == anchored(par, pids, roots, i, f)->0,
    decreases f,
{
    let x = anchored(par, pids, roots, i, f)->0;
    if roots[i] {
    } else if pids[i] is None {
        assert(pass_value(par, pids, depth, i) is Some);
        let y = depth[i]->0;
        assert(anchored(par, pids, roots, i, y as nat) == Some(y as nat));
    } else {
        match (pids[i], par[i]) {
            (Some(p), Some(j)) => {
                lemma_depths_complete(par, pids, roots, depth, j as int, (f - 1) as nat);
                assert(pass_value(par, pids, depth, i) is Some);
                let y = depth[i]->0;
                assert(anchored(par, pids, roots, i, y as nat) == Some(y as nat));
                if y as nat <= f {
                    lemma_anchored_mono(par, pids, roots, i, y as nat, f);
                } else {
                    lemma_anchored_mono(par, pids, roots, i, f, y as nat);
                }
            },
            _ => {},
        }
    }
}

/// The depth of each span below its root, found by repeated passes as long
/// as a pass assigns a new depth: roots and parentless spans are at depth 0,
/// a span whose parent (not `-1`) has a depth is one deeper. Spans left
/// without a depth count as 0.
fn compute_depths(parent_ids: &Vec<Option<i64>>, par: &Vec<Option<usize>>, is_root: &Vec<bool>) -> (d: Vec<usize>)
    requires
        parent_ids@.len() == par@.len(),
        is_root@.len() == par@.len(),
        forall|i: int| 0 <= i < par@.len() ==> (#[trigger] par@[i] matches Some(j) ==> j < par@.len()),
    ensures
        d@.len() == par@.len(),
        forall|i: int| 0 <= i < par@.len() ==> #[trigger] d@[i] == depth_or_zero(par@, parent_ids@, is_root@, i),
{
    let n = par.len();
    let ghost pv = par@;
    let ghost iv = parent_ids@;
    let ghost rv = is_root@;
    let mut depth: Vec<Option<usize>> = Vec::new();
    let mut remaining: usize = 0;
    let mut i: usize = 0;
    while i < n
        invariant
            n == par@.len(),
            n == is_root@.len(),
            pv == par@,
            iv == parent_ids@,
            rv == is_root@,
            i <= n,
            depth@.len() == i,
            remaining <= i,
            remaining == count_none(depth@),
            forall|k: int| 0 <= k < i ==> (#[trigger] depth@[k] matches Some(x) ==> x == 0),
            forall|k: int| 0 <= k < i ==> (#[trigger] depth@[k] is Some <==> rv[k]),
        decreases n - i,
    {
        let ghost before = depth@;
        if is_root[i] {
            depth.push(Some(0));
            assert(depth@.drop_last() =~= before);
        } else {
            depth.push(None);
            assert(depth@.drop_last() =~= before);
            remaining += 1;
        }
        i += 1;
    }
    proof {
        lemma_count_none_bound(depth@);
        assert(depths_sound(pv, iv, rv, depth@));
    }
    let mut changed = true;
    while changed
        invariant
            n == par@.len(),
            n == parent_ids@.len(),
            n == is_root@.len(),
            pv == par@,
            iv == parent_ids@,
            rv == is_root@,
            depth@.len() == n,
            remaining == count_none(depth@),
            forall|i: int| 0 <= i < n ==> (#[trigger] par@[i] matches Some(j) ==> j < n),
            forall|k: int| 0 <= k < n ==> (#[trigger] depth@[k] matches Some(x) ==> x + remaining < n),
            depths_sound(pv, iv, rv, depth@),
            !changed ==> forall|k: int| 0 <= k < n && (#[trigger] depth@[k]) is None ==> pass_value(pv, iv, depth@, k) is None,
        decreases 2 * remaining + if changed { 1int } else { 0int },
    {
        let r0 = remaining;
        let ghost d0 = depth@;
        changed = false;
        let mut i: usize = 0;
        while i < n
            invariant
                n == par@.len(),
                n == parent_ids@.len(),
                n == is_root@.len(),
                pv == par@,
                iv == parent_ids@,
                rv == is_root@,
                depth@.len() == n,
                i <= n,
                remaining == count_none(depth@),
                remaining <= r0,
                changed ==> remaining < r0,
                !changed ==> remaining == r0,
                !changed ==> depth@ == d0,
                !changed ==> forall|k: int| 0 <= k < i && (#[trigger] depth@[k]) is None ==> pass_value(pv, iv, depth@, k) is None,
                forall|i: int| 0 <= i < n ==> (#[trigger] par@[i] matches Some(j) ==> j < n),
                forall|k: int| 0 <= k < n ==> (#[trigger] depth@[k] matches Some(x) ==> x + remaining < n),
                depths_sound(pv, iv, rv, depth@),
            decreases n - i,
        {
            if depth[i].is_none() {
                let assign: Option<usize> = match parent_ids[i] {
                    Some(p) => {
                        if p != -1 {
                            match par[i] {
                                Some(j) => match depth[j] {
                                    Some(dj) => Some(dj + 1),
                                    None => None,
                                },
                                None => None,
                            }
                        } else {
                            None
                        }
                    },
                    None => Some(0),
                };
                assert(assign matches Some(x) ==> pass_value(pv, iv, depth@, i as int) == Some(x as nat));
                assert(assign is None ==> pass_value(pv, iv, depth@, i as int) is None);
                if let Some(x) = assign {
                    let ghost before = depth@;
                    proof {
                        lemma_count_none_update(before, i as int, x);
                        lemma_count_none_bound(before);
                        assert(!rv[i as int]);
                        match iv[i as int] {
                            Some(p) => {
                                let j = pv[i as int]->0;
                                assert(before[j as int] matches Some(dj) && anchored(pv, iv, rv, j as int, dj as nat) == Some(dj as nat));
                                assert(anchored(pv, iv, rv, i as int, x as nat) == Some(x as nat));
                            },
                            None => {},
                        }
                    }
                    depth.set(i, Some(x));
                    remaining -= 1;
                    changed = true;
                    proof {
                        assert forall|k: int| 0 <= k < n implies (#[trigger] depth@[k] matches Some(y) ==> anchored(pv, iv, rv, k, y as nat) == Some(y as nat)) by {
                            if k != i {
                                assert(depth@[k] == before[k]);
                            }
                        }
                        assert forall|k: int| 0 <= k < n && rv[k] implies (#[trigger] depth@[k]) == Some(0usize) by {
                            if k != i {
                                assert(depth@[k] == before[k]);
                            }
                        }
                    }
                }
            }
            i += 1;
        }
    }
    let mut out: Vec<usize> = Vec::new();
    let mut k: usize = 0;
    while k < n
        invariant
            n == par@.len(),
            n == parent_ids@.len(),
            n == is_root@.len(),
            pv == par@,
            iv == parent_ids@,
            rv == is_root@,
            depth@.len() == n,
            k <= n,
            out@.len() == k,
            forall|i: int| 0 <= i < n ==> (#[trigger] par@[i] matches Some(j) ==> j < n),
            forall|x: int| 0 <= x < n ==> (#[trigger] depth@[x] matches Some(y) ==> y < n),
            depths_sound(pv, iv, rv, depth@),
            forall|x: int| 0 <= x < n && (#[trigger] depth@[x]) is None ==> pass_value(pv, iv, depth@, x) is None,
            forall|x: int| 0 <= x < k ==> #[trigger] out@[x] == depth_or_zero(pv, iv, rv, x),
        decreases n - k,
    {
        proof {
            match depth@[k as int] {
                Some(y) => {
                    assert(anchored(pv, iv, rv, k as int, y as nat) == Some(y as nat));
                    lemma_anchored_mono(pv, iv, rv, k as int, y as nat, n as nat);
                },
                None => {
                    if anchored(pv, iv, rv, k as int, n as nat) is Some {
                        lemma_depths_complete(pv, iv, rv, depth@, k as int, n as nat);
                    }
                },
            }
        }
        match depth[k] {
            Some(x) => out.push(x),
            None => out.push(0),
        }
        k += 1;
    }
    out
}

fn find_key(keys: &Vec<(i64, i64)>, pid: i64, span_id: i64) -> (r: Option<usize>)
    ensures
        r matches Some(j) ==> j < keys@.len() && keys@[j as int] == (pid, span_id),
        r matches Some(j) ==> forall|k: int| 0 <= k < j ==> keys@[k] != (pid, span_id),
        r is None ==> forall|k: int| 0 <= k < keys@.len() ==> keys@[k] != (pid, span_id),
{
    let mut i: usize = 0;
    while i < keys.len()
        invariant
            i <= keys@.len(),
            forall|k: int| 0 <= k < i ==> keys@[k] != (pid, span_id),
        decreases keys@.len() - i,
    {
        let (a, b) = keys[i];
        if a == pid && b == span_id {
            return Some(i);
        }
        i += 1;
    }
    None
}

/// The data of the spans in a list of slots.
pub open spec fn slot_datas(s: Seq<SpanSlot>) -> Seq<SpanData> {
    s.map_values(|x: SpanSlot| span_data(x.span))
}

proof fn lemma_flat_slots_all_none(s: Seq<Option<SpanInfo>>)
    requires
        forall|k: int| 0 <= k < s.len() ==> (#[trigger] s[k]) is None,
    ensures
        flat_slots(s) == Seq::<SpanData>::empty(),
    decreases s.len(),
{
    if s.len() > 0 {
        assert(forall|k: int| 0 <= k < s.drop_last().len() ==> s.drop_last()[k] == s[k]);
        lemma_flat_slots_all_none(s.drop_last());
        assert(flat_slots(s) =~= Seq::<SpanData>::empty());
    }
}

/// Takes the tree out of arena slot `k`, leaving it empty.
fn take_slot(arena: &mut Vec<Option<SpanInfo>>, k: usize) -> (t: Option<SpanInfo>)
    requires
        k < old(arena)@.len(),
    ensures
        t == old(arena)@[k as int],
        final(arena)@ == old(arena)@.update(k as int, None),
        flat_slots(final(arena)@).to_multiset().add(opt_flat(t).to_multiset()) == flat_slots(old(arena)@).to_multiset(),
{
    proof {
        lemma_flat_slots_update(arena@, k as int, None);
        assert(opt_flat(None).to_multiset() =~= Multiset::empty());
        assert(flat_slots(arena@).to_multiset().add(Multiset::empty()) =~= flat_slots(arena@).to_multiset());
    }
    let mut tmp: Option<SpanInfo> = None;
    arena.set_and_swap(k, &mut tmp);
    tmp
}

/// The process and id of the span in slot `k`.
pub open spec fn slot_key(v: Seq<(i64, SpanData)>, k: int) -> (i64, i64) {
    (v[k].0, v[k].1.span_id)
}

/// `k` is the first slot with the given key.
pub open spec fn first_key_slot(v: Seq<(i64, SpanData)>, key: (i64, i64), k: int) -> bool {
    &&& 0 <= k < v.len()
    &&& slot_key(v, k) == key
    &&& forall|m: int| 0 <= m < k ==> slot_key(v, m) != key
}

/// The slot of the parent of the span in slot `i`: the first span of its
/// process with its parent id, unless that id is `-1` or missing.
pub open spec fn parent_index(v: Seq<(i64, SpanData)>, i: int) -> Option<usize> {
    match v[i].1.parent_id {
        Some(p) => if p != -1 && exists|k: int| first_key_slot(v, (v[i].0, p), k) {
            Some((choose|k: int| first_key_slot(v, (v[i].0, p), k)) as usize)
        } else {
            None
        },
        None => None,
    }
}

pub open spec fn parent_indices(v: Seq<(i64, SpanData)>) -> Seq<Option<usize>> {
    Seq::new(v.len(), |i: int| parent_index(v, i))
}

pub open spec fn parent_ids_of(v: Seq<(i64, SpanData)>) -> Seq<Option<i64>> {
    Seq::new(v.len(), |i: int| v[i].1.parent_id)
}

/// Which slots hold a recorded root.
pub open spec fn root_flags(v: Seq<(i64, SpanData)>, roots: Seq<(i64, i64)>) -> Seq<bool> {
    Seq::new(v.len(), |i: int| roots.contains(slot_key(v, i)))
}

/// The span in slot `i` sits below a top-level span through its chain of
/// parents within its process, at depth one or more.
pub open spec fn nested_slot(v: Seq<(i64, SpanData)>, roots: Seq<(i64, i64)>, i: int) -> bool {
    depth_or_zero(parent_indices(v), parent_ids_of(v), root_flags(v, roots), i) > 0
}

/// Every nested span is a direct child of its parent span.
pub open spec fn children_nested(r: Seq<SpanInfo>, v: Seq<(i64, SpanData)>, roots: Seq<(i64, i64)>) -> bool {
    forall|i: int|
        0 <= i < v.len() && #[trigger] nested_slot(v, roots, i) ==> forest_has_edge(
            r,
            v[parent_index(v, i)->0 as int].1,
            v[i].1,
        )
}

/// The keys, parent ids, parent slots and root flags of the slots.
fn slot_links(slots: &Vec<SpanSlot>, roots: &Vec<(i64, i64)>) -> (r: (Vec<(i64, i64)>, Vec<Option<i64>>, Vec<Option<usize>>, Vec<bool>))
    ensures
        r.0@.len() == slots@.len(),
        forall|k: int| 0 <= k < slots@.len() ==> #[trigger] r.0@[k] == (slots@[k].pid, slots@[k].span.span_id),
        r.1@ == parent_ids_of(slots_view(slots@)),
        r.2@ == parent_indices(slots_view(slots@)),
        r.3@ == root_flags(slots_view(slots@), roots@),
        forall|k: int|
            0 <= k < slots@.len() ==> (#[trigger] r.2@[k] matches Some(j) ==> j < slots@.len() && r.1@[k] == Some(
                r.0@[j as int].1,
            ) && r.0@[j as int].1 != -1),
{
    let ghost v = slots_view(slots@);
    let n = slots.len();
    let mut keys: Vec<(i64, i64)> = Vec::new();
    let mut parent_ids: Vec<Option<i64>> = Vec::new();
    let mut i: usize = 0;
    while i < n
        invariant
            n == slots@.len(),
            v == slots_view(slots@),
            i <= n,
            keys@.len() == i,
            parent_ids@.len() == i,
            forall|k: int| 0 <= k < i ==> #[trigger] keys@[k] == (slots@[k].pid, slots@[k].span.span_id),
            forall|k: int| 0 <= k < i ==> #[trigger] parent_ids@[k] == slots@[k].span.parent_id,
        decreases n - i,
    {
        keys.push((slots[i].pid, slots[i].span.span_id));
        parent_ids.push(slots[i].span.parent_id);
        i += 1;
    }
    assert forall|k: int| 0 <= k < n implies #[trigger] keys@[k] == slot_key(v, k) by {}
    assert(parent_ids@ =~= parent_ids_of(v));
    let mut par: Vec<Option<usize>> = Vec::new();
    let mut is_root: Vec<bool> = Vec::new();
    let mut i: usize = 0;
    while i < n
        invariant
            n == keys@.len(),
            n == parent_ids@.len(),
            n == slots@.len(),
            v == slots_view(slots@),
            forall|k: int| 0 <= k < n ==> #[trigger] keys@[k] == slot_key(v, k),
            parent_ids@ == parent_ids_of(v),
            i <= n,
            par@.len() == i,
            is_root@.len() == i,
            forall|k: int| 0 <= k < i ==> #[trigger] par@[k] == parent_index(v, k),
            forall|k: int| 0 <= k < i ==> #[trigger] is_root@[k] == roots@.contains(slot_key(v, k)),
            forall|k: int|
                0 <= k < i ==> (#[trigger] par@[k] matches Some(j) ==> j < n && parent_ids@[k]
                    == Some(keys@[j as int].1) && keys@[j as int].1 != -1),
        decreases n - i,
    {
        let (pid, _sid) = keys[i];
        let p: Option<usize> = match parent_ids[i] {
            Some(pp) => if pp != -1 {
                find_key(&keys, pid, pp)
            } else {
                None
            },
            None => None,
        };
        proof {
            match v[i as int].1.parent_id {
                Some(pp) => {
                    if pp != -1 {
                        match p {
                            Some(j) => {
                                assert(keys@[j as int] == slot_key(v, j as int));
                                assert forall|m: int| 0 <= m < j implies slot_key(v, m) != (pid, pp) by {
                                    assert(keys@[m] == slot_key(v, m));
                                }
                                assert(first_key_slot(v, (pid, pp), j as int));
                                let c = choose|k: int| first_key_slot(v, (pid, pp), k);
                                if c < j {
                                    assert(keys@[c] == (pid, pp));
                                }
                                if j < c {
                                    assert(slot_key(v, j as int) == (pid, pp));
                                }
                            },
                            None => {
                                if exists|k: int| first_key_slot(v, (pid, pp), k) {
                                    let c = choose|k: int| first_key_slot(v, (pid, pp), k);
                                    assert(keys@[c] == (pid, pp));
                                }
                            },
                        }
                    }
                },
                None => {},
            }
        }
        par.push(p);
        let mut found = false;
        let mut r: usize = 0;
        while r < roots.len()
            invariant
                r <= roots@.len(),
                i < n,
                n == keys@.len(),
                found <==> exists|m: int| 0 <= m < r && roots@[m] == keys@[i as int],
            decreases roots@.len() - r,
        {
            let (ra, rb) = roots[r];
            let (ka, kb) = keys[i];
            if ra == ka && rb == kb {
                found = true;
            }
            r += 1;
        }
        is_root.push(found);
        i += 1;
    }
    assert(par@ =~= parent_indices(v));
    assert(is_root@ =~= root_flags(v, roots@));
    (keys, parent_ids, par, is_root)
}

/// The slots ordered by depth, deepest first: each slot once.
fn depth_order(depths: &Vec<usize>) -> (order: Vec<usize>)
    ensures
        order@.len() == depths@.len(),
        order@.no_duplicates(),
        forall|q: int| 0 <= q < order@.len() ==> #[trigger] order@[q] < depths@.len(),
        forall|k: usize| (k as int) < depths@.len() ==> #[trigger] order@.contains(k),
        forall|a: int, b: int| 0 <= a < b < order@.len() ==> depths@[order@[b] as int] <= depths@[order@[a] as int],
{
    broadcast use vstd::seq_lib::group_to_multiset_ensures;

    let n = depths.len();
    let mut indices: Vec<usize> = Vec::new();
    let mut i: usize = 0;
    while i < n
        invariant
            i <= n,
            n == depths@.len(),
            indices@.len() == i,
            forall|k: int| 0 <= k < i ==> #[trigger] indices@[k] == k,
        decreases n - i,
    {
        indices.push(i);
        i += 1;
    }
    let ghost dv = depths@;
    let depth_key = |x: &usize| -> (k: i128)
        ensures
            k == (if (*x as int) < depths@.len() { -(depths@[*x as int] as int) } else { 0int }),
        {
            if *x < depths.len() {
                0 - (depths[*x] as i128)
            } else {
                0
            }
        };
    let ghost kf = |x: usize| if (x as int) < dv.len() { -(dv[x as int] as int) } else { 0int };
    let ghost idx_seq = indices@;
    assert(idx_seq.no_duplicates());
    proof {
        idx_seq.lemma_multiset_has_no_duplicates();
    }
    let order = sort_by_key(indices, Ghost(kf), depth_key);
    assert forall|q: int| 0 <= q < order@.len() implies #[trigger] order@[q] < n by {
        assert(order@.to_multiset().count(order@[q]) > 0);
        assert(idx_seq.to_multiset().count(order@[q]) > 0);
        assert(idx_seq.contains(order@[q]));
    }
    proof {
        assert forall|x: usize| order@.to_multiset().contains(x) implies order@.to_multiset().count(x) == 1 by {
            assert(idx_seq.to_multiset().contains(x));
        }
        order@.lemma_multiset_has_no_duplicates_conv();
        assert forall|k: usize| (k as int) < n implies #[trigger] order@.contains(k) by {
            assert(idx_seq[k as int] == k);
            assert(idx_seq.to_multiset().count(k) > 0);
            assert(order@.to_multiset().count(k) > 0);
        }
        assert forall|a: int, b: int| 0 <= a < b < order@.len() implies dv[order@[b] as int] <= dv[order@[a] as int] by {
            assert(kf(order@[a]) <= kf(order@[b]));
        }
    }
    order
}

/// The trees of the arena keep their keys, parent ids and data, and name
/// their parents.
pub open spec fn arena_ok(
    a: Seq<Option<SpanInfo>>,
    keys: Seq<(i64, i64)>,
    parent_ids: Seq<Option<i64>>,
    datas: Seq<SpanData>,
) -> bool {
    forall|k: int|
        0 <= k < a.len() ==> (#[trigger] a[k] matches Some(t) ==> edges_ok(t) && t.span_id == keys[k].1 && t.parent_id
            == parent_ids[k] && span_data(t) == datas[k])
}

/// Nests each span, in the given order, under the tree of its parent slot,
/// when both are still in the arena.
#[verifier::spinoff_prover]
#[verifier::rlimit(60)]
fn nest_in_order(
    arena: &mut Vec<Option<SpanInfo>>,
    order: &Vec<usize>,
    par: &Vec<Option<usize>>,
    keys: &Vec<(i64, i64)>,
    parent_ids: &Vec<Option<i64>>,
    Ghost(m0): Ghost<Multiset<SpanData>>,
    Ghost(datas): Ghost<Seq<SpanData>>,
    Ghost(d): Ghost<Seq<usize>>,
)
    requires
        old(arena)@.len() == par@.len(),
        keys@.len() == par@.len(),
        parent_ids@.len() == par@.len(),
        datas.len() == par@.len(),
        d.len() == par@.len(),
        order@.len() == par@.len(),
        order@.no_duplicates(),
        forall|q: int| 0 <= q < order@.len() ==> #[trigger] order@[q] < par@.len(),
        forall|k: usize| (k as int) < par@.len() ==> #[trigger] order@.contains(k),
        forall|a: int, b: int| 0 <= a < b < order@.len() ==> d[order@[b] as int] <= d[order@[a] as int],
        forall|k: int| 0 <= k < par@.len() && d[k] > 0 ==> (#[trigger] par@[k] matches Some(j) && d[j as int] + 1 == d[k]),
        flat_slots(old(arena)@).to_multiset() == m0,
        forall|k: int|
            0 <= k < par@.len() ==> (#[trigger] par@[k] matches Some(j) ==> j < par@.len() && parent_ids@[k] == Some(
                keys@[j as int].1,
            ) && keys@[j as int].1 != -1),
        arena_ok(old(arena)@, keys@, parent_ids@, datas),
        forall|k: int| 0 <= k < par@.len() ==> (#[trigger] old(arena)@[k]) is Some,
    ensures
        final(arena)@.len() == par@.len(),
        flat_slots(final(arena)@).to_multiset() == m0,
        arena_ok(final(arena)@, keys@, parent_ids@, datas),
        forall|k: int|
            0 <= k < par@.len() && d[k] > 0 ==> arena_has_edge(final(arena)@, datas[par@[k]->0 as int], datas[k]),
        forall|k: int| 0 <= k < par@.len() && #[trigger] par@[k] is None ==> final(arena)@[k] is Some,
{
    broadcast use vstd::seq_lib::lemma_multiset_commutative;
    broadcast use vstd::multiset::group_multiset_axioms;

    let n = par.len();
    let ghost mut done: Seq<bool> = Seq::new(n as nat, |k: int| false);
    let mut q: usize = 0;
    while q < order.len()
        invariant
            n == par@.len(),
            q <= order@.len(),
            order@.len() == n,
            order@.no_duplicates(),
            forall|q: int| 0 <= q < order@.len() ==> #[trigger] order@[q] < n,
            forall|a: int, b: int| 0 <= a < b < order@.len() ==> d[order@[b] as int] <= d[order@[a] as int],
            forall|k: int| 0 <= k < n && d[k] > 0 ==> (#[trigger] par@[k] matches Some(j) && d[j as int] + 1 == d[k]),
            n == keys@.len(),
            n == parent_ids@.len(),
            n == datas.len(),
            n == d.len(),
            arena@.len() == n,
            done.len() == n,
            flat_slots(arena@).to_multiset() == m0,
            forall|k: int|
                0 <= k < n ==> (#[trigger] par@[k] matches Some(j) ==> j < n && parent_ids@[k] == Some(keys@[j as int].1)
                    && keys@[j as int].1 != -1),
            arena_ok(arena@, keys@, parent_ids@, datas),
            forall|k: int| 0 <= k < n && !(#[trigger] done[k]) ==> arena@[k] is Some,
            forall|k: int| 0 <= k < n && #[trigger] done[k] ==> exists|q2: int| 0 <= q2 < q && order@[q2] == k,
            forall|q2: int| 0 <= q2 < q ==> done[#[trigger] order@[q2] as int],
            forall|k: int|
                0 <= k < n && #[trigger] done[k] && d[k] > 0 ==> arena_has_edge(arena@, datas[par@[k]->0 as int], datas[k]),
            forall|k: int| 0 <= k < n && #[trigger] par@[k] is None ==> arena@[k] is Some,
        decreases order@.len() - q,
    {
        let i = order[q];
        proof {
            if done[i as int] {
                let q2 = choose|q2: int| 0 <= q2 < q && order@[q2] == i;
                assert(order@[q2] == order@[q as int]);
            }
        }
        let ghost a_start = arena@;
        if let Some(j) = par[i] {
            proof {
                if d[i as int] > 0 && done[j as int] {
                    let q2 = choose|q2: int| 0 <= q2 < q && order@[q2] == j;
                    assert(d[order@[q as int] as int] <= d[order@[q2] as int]);
                }
            }
            let a0 = Ghost(arena@);
            let taken_child = take_slot(arena, i);
            match taken_child {
                Some(child) => {
                    let a1 = Ghost(arena@);
                    let taken_parent = take_slot(arena, j);
                    match taken_parent {
                        Some(mut parent) => {
                            let a2 = Ghost(arena@);
                            let ghost p0 = parent;
                            let ghost c0 = child;
                            parent.children.push(child);
                            proof {
                                lemma_push_child(p0, c0, parent);
                                vstd::seq_lib::lemma_multiset_commutative(flat_tree(p0), flat_tree(c0));
                                lemma_flat_slots_update(a2@, j as int, Some(parent));
                                assert(opt_flat(None).to_multiset() =~= Multiset::empty());
                                let m1 = flat_slots(a1@).to_multiset();
                                let m2 = flat_slots(a2@).to_multiset();
                                let fp = flat_tree(p0).to_multiset();
                                let fc = flat_tree(c0).to_multiset();
                                assert(flat_tree(parent).to_multiset() =~= fp.add(fc));
                                assert(m2.add(fp) =~= m1);
                                assert(m1.add(fc) =~= m0);
                            }
                            arena.set(j, Some(parent));
                            proof {
                                let m2 = flat_slots(a2@).to_multiset();
                                let m3 = flat_slots(arena@).to_multiset();
                                assert(arena@ == a2@.update(j as int, Some(parent)));
                                assert(a2@[j as int] is None);
                                assert(m3.add(Multiset::empty()) =~= m2.add(flat_tree(parent).to_multiset()));
                                let m1 = flat_slots(a1@).to_multiset();
                                let fp = flat_tree(p0).to_multiset();
                                let fc = flat_tree(c0).to_multiset();
                                assert forall|v: SpanData| #[trigger] m3.count(v) == m0.count(v) by {
                                    assert(m3.add(Multiset::empty()).count(v) == m3.count(v));
                                    assert(flat_tree(parent).to_multiset().count(v) == fp.count(v) + fc.count(v));
                                    assert(m2.add(fp).count(v) == m1.count(v));
                                    assert(m1.add(fc).count(v) == m0.count(v));
                                }
                                assert(m3 =~= m0);
                                assert forall|k: int| 0 <= k < n implies (#[trigger] arena@[k] matches Some(t) ==> edges_ok(t)
                                    && t.span_id == keys@[k].1 && t.parent_id == parent_ids@[k] && span_data(t) == datas[k]) by {
                                    if k != j && k != i {
                                        assert(arena@[k] == a0@[k]);
                                    }
                                }
                                assert(i != j);
                                assert(arena@ == a0@.update(i as int, None).update(j as int, Some(parent)));
                                assert forall|k: int| 0 <= k < n && #[trigger] par@[k] is None implies arena@[k] is Some by {
                                    if k != j && k != i {
                                        assert(arena@[k] == a0@[k]);
                                    }
                                }
                                lemma_arena_attach(a0@, i as int, j as int, p0, c0, parent);
                            }
                        },
                        None => {
                            proof {
                                lemma_flat_slots_update(arena@, i as int, Some(child));
                                assert(opt_flat(None).to_multiset() =~= Multiset::empty());
                            }
                            arena.set(i, Some(child));
                            proof {
                                assert(arena@ =~= a0@);
                            }
                        },
                    }
                },
                None => {
                    proof {
                        assert(arena@ =~= a0@);
                    }
                },
            }
        }
        proof {
            let done0 = done;
            done = done.update(i as int, true);
            assert forall|k: int| 0 <= k < n && !(#[trigger] done[k]) implies arena@[k] is Some by {
                assert(!done0[k]);
                if k != i {
                    if arena@[k] != a_start[k] {
                        assert(par@[i as int] matches Some(j) && k == j);
                    }
                }
            }
            assert forall|k: int| 0 <= k < n && #[trigger] done[k] implies exists|q2: int| 0 <= q2 < q + 1 && order@[q2] == k by {
                if k == i {
                    assert(order@[q as int] == k);
                } else {
                    assert(done0[k]);
                    let q2 = choose|q2: int| 0 <= q2 < q && order@[q2] == k;
                    assert(0 <= q2 < q + 1 && order@[q2] == k);
                }
            }
            assert forall|q2: int| 0 <= q2 < q + 1 implies done[#[trigger] order@[q2] as int] by {
                if q2 < q {
                    assert(done0[order@[q2] as int]);
                }
            }
            assert forall|k: int|
                0 <= k < n && #[trigger] done[k] && d[k] > 0 implies arena_has_edge(arena@, datas[par@[k]->0 as int], datas[k]) by {
                if k == i {
                    let j = par@[i as int]->0;
                    assert(a_start[i as int] is Some);
                    assert(a_start[j as int] is Some);
                } else {
                    assert(done0[k]);
                    assert(arena_has_edge(a_start, datas[par@[k]->0 as int], datas[k]));
                }
            }
        }
        q += 1;
    }
    proof {
        assert forall|k: int| 0 <= k < n && d[k] > 0 implies arena_has_edge(arena@, datas[par@[k]->0 as int], datas[k]) by {
            assert(order@.contains(k as usize));
            let q2 = choose|q2: int| 0 <= q2 < order@.len() && order@[q2] == k as usize;
            assert(done[order@[q2] as int]);
        }
    }
}

proof fn lemma_arena_take_edge(a: Seq<Option<SpanInfo>>, k: int, x: SpanData, y: SpanData)
    requires
        0 <= k < a.len(),
        arena_has_edge(a, x, y),
    ensures
        arena_has_edge(a.update(k, None), x, y) || opt_has_edge(a[k], x, y),
{
    let m = choose|m: int| 0 <= m < a.len() && #[trigger] opt_has_edge(a[m], x, y);
    if m != k {
        assert(a.update(k, None)[m] == a[m]);
        assert(opt_has_edge(a.update(k, None)[m], x, y));
    }
}

proof fn lemma_forest_push_edge(u: Seq<SpanInfo>, t: SpanInfo)
    ensures
        forall|x: SpanData, y: SpanData|
            forest_has_edge(u, x, y) || tree_has_edge(t, x, y) ==> #[trigger] forest_has_edge(u.push(t), x, y),
{
    assert forall|x: SpanData, y: SpanData| forest_has_edge(u, x, y) || tree_has_edge(t, x, y) implies #[trigger] forest_has_edge(
        u.push(t),
        x,
        y,
    ) by {
        if forest_has_edge(u, x, y) {
            let i = choose|i: int| 0 <= i < u.len() && tree_has_edge(#[trigger] u[i], x, y);
            assert(u.push(t)[i] == u[i]);
        } else {
            assert(u.push(t)[u.len() as int] == t);
        }
    }
}

proof fn lemma_forest_perm_edge(u: Seq<SpanInfo>, r: Seq<SpanInfo>, x: SpanData, y: SpanData)
    requires
        u.to_multiset() == r.to_multiset(),
        forest_has_edge(u, x, y),
    ensures
        forest_has_edge(r, x, y),
{
    broadcast use vstd::seq_lib::group_to_multiset_ensures;

    let i = choose|i: int| 0 <= i < u.len() && tree_has_edge(#[trigger] u[i], x, y);
    assert(u.contains(u[i]));
    assert(u.to_multiset().count(u[i]) > 0);
    assert(r.to_multiset().count(u[i]) > 0);
    assert(r.contains(u[i]));
    let k = choose|k: int| 0 <= k < r.len() && r[k] == u[i];
    assert(tree_has_edge(r[k], x, y));
}

/// The trees left in the arena: those of the recorded roots first, in
/// order, then the others, in slot order.
fn collect_trees(arena: Vec<Option<SpanInfo>>, keys: &Vec<(i64, i64)>, roots: &Vec<(i64, i64)>) -> (u: Vec<SpanInfo>)
    requires
        arena@.len() == keys@.len(),
        forall|x: int| 0 <= x < arena@.len() ==> (#[trigger] arena@[x] matches Some(t) ==> edges_ok(t)),
    ensures
        flat_forest(u@).to_multiset() == flat_slots(arena@).to_multiset(),
        forall|x: int| 0 <= x < u@.len() ==> edges_ok(#[trigger] u@[x]),
        forall|x: SpanData, y: SpanData| #[trigger] arena_has_edge(arena@, x, y) ==> forest_has_edge(u@, x, y),
        forall|x: int| 0 <= x < arena@.len() ==> (#[trigger] arena@[x] matches Some(t) ==> top_has(u@, span_data(t))),
{
    broadcast use vstd::seq_lib::lemma_multiset_commutative;
    broadcast use vstd::multiset::group_multiset_axioms;

    let ghost a_in = arena@;
    let ghost m0 = flat_slots(a_in).to_multiset();
    let n = arena.len();
    let mut arena = arena;
    let mut u: Vec<SpanInfo> = Vec::new();
    let mut r: usize = 0;
    assert(flat_forest(u@) =~= Seq::<SpanData>::empty());
    while r < roots.len()
        invariant
            r <= roots@.len(),
            n == keys@.len(),
            arena@.len() == n,
            flat_slots(arena@).to_multiset().add(flat_forest(u@).to_multiset()) == m0,
            forall|k: int| 0 <= k < n ==> (#[trigger] arena@[k] matches Some(t) ==> edges_ok(t)),
            forall|k: int| 0 <= k < u@.len() ==> edges_ok(#[trigger] u@[k]),
            forall|x: SpanData, y: SpanData| #[trigger] arena_has_edge(a_in, x, y) ==> arena_has_edge(arena@, x, y)
                || forest_has_edge(u@, x, y),
            a_in.len() == n,
            forall|x: int| 0 <= x < n ==> (#[trigger] a_in[x] matches Some(t) ==> arena@[x] == a_in[x] || top_has(u@, span_data(t))),
        decreases roots@.len() - r,
    {
        let (pid, sid) = roots[r];
        if let Some(k) = find_key(keys, pid, sid) {
            let ghost a0 = arena@;
            let ghost u0 = u@;
            let t = take_slot(&mut arena, k);
            if let Some(t) = t {
                u.push(t);
                proof {
                    lemma_flat_forest_push(u0, t);
                    vstd::seq_lib::lemma_multiset_commutative(flat_forest(u0), flat_tree(t));
                    assert(u@ =~= u0.push(t));
                    assert(flat_forest(u@).to_multiset() =~= flat_forest(u0).to_multiset().add(flat_tree(t).to_multiset()));
                    assert forall|x: int| 0 <= x < n implies (#[trigger] arena@[x] matches Some(t) ==> edges_ok(t)) by {
                        if x != k {
                            assert(arena@[x] == a0[x]);
                        }
                    }
                    lemma_forest_push_edge(u0, t);
                    lemma_top_push(a_in, a0, arena@, u0, u@, k as int);
                    assert forall|x: SpanData, y: SpanData| #[trigger] arena_has_edge(a_in, x, y) implies arena_has_edge(
                        arena@,
                        x,
                        y,
                    ) || forest_has_edge(u@, x, y) by {
                        if arena_has_edge(a0, x, y) {
                            lemma_arena_take_edge(a0, k as int, x, y);
                        }
                    }
                }
            } else {
                proof {
                    assert(opt_flat(t).to_multiset() =~= Multiset::empty());
                    assert(flat_slots(arena@).to_multiset() =~= flat_slots(a0).to_multiset());
                    assert(arena@ =~= a0);
                }
            }
        }
        r += 1;
    }
    let mut k: usize = 0;
    while k < n
        invariant
            k <= n,
            arena@.len() == n,
            flat_slots(arena@).to_multiset().add(flat_forest(u@).to_multiset()) == m0,
            forall|x: int| 0 <= x < n ==> (#[trigger] arena@[x] matches Some(t) ==> edges_ok(t)),
            forall|x: int| 0 <= x < k ==> (#[trigger] arena@[x]) is None,
            forall|x: int| 0 <= x < u@.len() ==> edges_ok(#[trigger] u@[x]),
            forall|x: SpanData, y: SpanData| #[trigger] arena_has_edge(a_in, x, y) ==> arena_has_edge(arena@, x, y)
                || forest_has_edge(u@, x, y),
            a_in.len() == n,
            forall|x: int| 0 <= x < n ==> (#[trigger] a_in[x] matches Some(t) ==> arena@[x] == a_in[x] || top_has(u@, span_data(t))),
        decreases n - k,
    {
        let ghost a0 = arena@;
        let ghost u0 = u@;
        let t = take_slot(&mut arena, k);
        if let Some(t) = t {
            u.push(t);
            proof {
                lemma_flat_forest_push(u0, t);
                vstd::seq_lib::lemma_multiset_commutative(flat_forest(u0), flat_tree(t));
                assert(u@ =~= u0.push(t));
                assert(flat_forest(u@).to_multiset() =~= flat_forest(u0).to_multiset().add(flat_tree(t).to_multiset()));
                lemma_forest_push_edge(u0, t);
                lemma_top_push(a_in, a0, arena@, u0, u@, k as int);
            }
        } else {
            proof {
                assert(opt_flat(t).to_multiset() =~= Multiset::empty());
                assert(flat_slots(arena@).to_multiset() =~= flat_slots(a0).to_multiset());
                assert(arena@ =~= a0);
            }
        }
        proof {
            assert forall|x: int| 0 <= x < n implies (#[trigger] arena@[x] matches Some(t) ==> edges_ok(t)) by {
                if x != k {
                    assert(arena@[x] == a0[x]);
                }
            }
            assert forall|x: SpanData, y: SpanData| #[trigger] arena_has_edge(a_in, x, y) implies arena_has_edge(
                arena@,
                x,
                y,
            ) || forest_has_edge(u@, x, y) by {
                if arena_has_edge(a0, x, y) {
                    lemma_arena_take_edge(a0, k as int, x, y);
                }
            }
        }
        k += 1;
    }
    proof {
        lemma_flat_slots_all_none(arena@);
        assert(flat_slots(arena@).to_multiset() =~= Multiset::empty());
        assert(flat_forest(u@).to_multiset() =~= m0);
        assert forall|x: SpanData, y: SpanData| #[trigger] arena_has_edge(a_in, x, y) implies forest_has_edge(u@, x, y) by {
            if arena_has_edge(arena@, x, y) {
                let m = choose|m: int| 0 <= m < arena@.len() && #[trigger] opt_has_edge(arena@[m], x, y);
                assert(arena@[m] is None);
            }
        }
        assert forall|x: int| 0 <= x < a_in.len() implies (#[trigger] a_in[x] matches Some(t) ==> top_has(u@, span_data(t))) by {
            if a_in[x] is Some {
                assert(arena@[x] is None);
            }
        }
    }
    u
}

/// Some top-level span of `r` has data `d`.
pub open spec fn top_has(r: Seq<SpanInfo>, d: SpanData) -> bool {
    exists|j: int| 0 <= j < r.len() && span_data(#[trigger] r[j]) == d
}

/// Every span with no parent slot in its process (its parent id missing or
/// `-1`, or no span of its process has that id) is a top-level span of `r`.
pub open spec fn unparented_on_top(r: Seq<SpanInfo>, v: Seq<(i64, SpanData)>) -> bool {
    forall|i: int| 0 <= i < v.len() && #[trigger] parent_index(v, i) is None ==> top_has(r, v[i].1)
}

proof fn lemma_top_push(
    a_in: Seq<Option<SpanInfo>>,
    a0: Seq<Option<SpanInfo>>,
    a1: Seq<Option<SpanInfo>>,
    u0: Seq<SpanInfo>,
    u1: Seq<SpanInfo>,
    k: int,
)
    requires
        a_in.len() == a0.len(),
        0 <= k < a0.len(),
        a0[k] is Some,
        a1 == a0.update(k, None),
        u1 == u0.push(a0[k]->0),
        forall|x: int| 0 <= x < a_in.len() ==> (#[trigger] a_in[x] matches Some(t) ==> a0[x] == a_in[x] || top_has(u0, span_data(t))),
    ensures
        forall|x: int| 0 <= x < a_in.len() ==> (#[trigger] a_in[x] matches Some(t) ==> a1[x] == a_in[x] || top_has(u1, span_data(t))),
{
    assert forall|x: int| 0 <= x < a_in.len() implies (#[trigger] a_in[x] matches Some(t) ==> a1[x] == a_in[x] || top_has(u1, span_data(t))) by {
        if let Some(t) = a_in[x] {
            if top_has(u0, span_data(t)) {
                let j = choose|j: int| 0 <= j < u0.len() && span_data(#[trigger] u0[j]) == span_data(t);
                assert(u1[j] == u0[j]);
            } else if x == k {
                assert(u1[u0.len() as int] == t);
            } else {
                assert(a1[x] == a0[x]);
            }
        }
    }
}

/// Nests every span under its parent span of the same process, deepest
/// first, then returns the remaining top-level spans: the recorded roots
/// first, the other spans after, ordered by start time.
fn assemble(slots: Vec<SpanSlot>, roots: &Vec<(i64, i64)>) -> (r: Vec<SpanInfo>)
    requires
        forall|i: int| 0 <= i < slots@.len() ==> (#[trigger] slots@[i]).span.children@.len() == 0,
    ensures
        exists|u: Seq<SpanInfo>|
            {
                &&& #[trigger] u.to_multiset() == r@.to_multiset()
                &&& flat_forest(u).to_multiset() == slot_datas(slots@).to_multiset()
                &&& forall|i: int| 0 <= i < u.len() ==> edges_ok(#[trigger] u[i])
            },
        sorted_by(r@, |s: SpanInfo| s.start_timestamp as int),
        children_nested(r@, slots_view(slots@), roots@),
        unparented_on_top(r@, slots_view(slots@)),
{
    broadcast use vstd::multiset::group_multiset_axioms;

    let ghost orig = slots@;
    let ghost v = slots_view(orig);
    let ghost datas = slot_datas(orig);
    let ghost m0 = datas.to_multiset();
    let n = slots.len();
    let (keys, parent_ids, par, is_root) = slot_links(&slots, roots);
    let mut arena: Vec<Option<SpanInfo>> = Vec::new();
    let mut rest = slots;
    let mut taken: usize = 0;
    while rest.len() > 0
        invariant
            taken + rest@.len() == n,
            orig.len() == n,
            datas == slot_datas(orig),
            rest@ == orig.subrange(taken as int, n as int),
            arena@.len() == taken,
            forall|k: int| 0 <= k < taken ==> #[trigger] arena@[k] == Some(orig[k].span),
            flat_slots(arena@) == slot_datas(orig).subrange(0, taken as int),
            forall|i: int| 0 <= i < orig.len() ==> (#[trigger] orig[i]).span.children@.len() == 0,
        decreases rest@.len(),
    {
        let x = rest.remove(0);
        let ghost before = arena@;
        proof {
            assert(x == orig[taken as int]);
            assert(flat_forest(x.span.children@) =~= Seq::<SpanData>::empty());
        }
        arena.push(Some(x.span));
        assert(arena@.drop_last() =~= before);
        taken += 1;
        assert(flat_slots(arena@) =~= slot_datas(orig).subrange(0, taken as int));
        assert(rest@ =~= orig.subrange(taken as int, n as int));
    }
    assert(slot_datas(orig).subrange(0, n as int) =~= slot_datas(orig));
    proof {
        assert forall|k: int| 0 <= k < n implies (#[trigger] arena@[k] matches Some(t) ==> edges_ok(t) && t.span_id
            == keys@[k].1 && t.parent_id == parent_ids@[k] && span_data(t) == datas[k]) by {
            assert(orig[k].span.children@.len() == 0);
        }
    }
    let depths = compute_depths(&parent_ids, &par, &is_root);
    let ghost dv = depths@;
    proof {
        assert forall|k: int| 0 <= k < n && dv[k] > 0 implies (#[trigger] par@[k] matches Some(j) && dv[j as int] + 1 == dv[k]) by {
            assert(dv[k] == depth_or_zero(par@, parent_ids@, is_root@, k));
            let x = anchored(par@, parent_ids@, is_root@, k, n as nat)->0;
            let j = par@[k]->0;
            let y = anchored(par@, parent_ids@, is_root@, j as int, (n - 1) as nat)->0;
            lemma_anchored_mono(par@, parent_ids@, is_root@, j as int, (n - 1) as nat, n as nat);
            assert(dv[j as int] == depth_or_zero(par@, parent_ids@, is_root@, j as int));
        }
    }
    let order = depth_order(&depths);
    nest_in_order(&mut arena, &order, &par, &keys, &parent_ids, Ghost(m0), Ghost(datas), Ghost(dv));
    let ghost a_done = arena@;
    let u = collect_trees(arena, &keys, roots);
    let ghost unsorted = u@;
    let by_start = |s: &SpanInfo| -> (k: i128)
        ensures
            k == s.start_timestamp as int,
        { s.start_timestamp as i128 };
    let r = sort_by_key(u, Ghost(|s: SpanInfo| s.start_timestamp as int), by_start);
    assert(unsorted.to_multiset() == r@.to_multiset());
    proof {
        assert forall|i: int| 0 <= i < v.len() && #[trigger] nested_slot(v, roots@, i) implies forest_has_edge(
            r@,
            v[parent_index(v, i)->0 as int].1,
            v[i].1,
        ) by {
            assert(dv[i] == depth_or_zero(par@, parent_ids@, is_root@, i));
            assert(arena_has_edge(a_done, datas[par@[i]->0 as int], datas[i]));
            assert(datas[i] == v[i].1);
            assert(datas[par@[i]->0 as int] == v[parent_index(v, i)->0 as int].1);
            lemma_forest_perm_edge(unsorted, r@, datas[par@[i]->0 as int], datas[i]);
        }
        assert forall|i: int| 0 <= i < v.len() && #[trigger] parent_index(v, i) is None implies top_has(r@, v[i].1) by {
            assert(par@[i] is None);
            assert(a_done[i] is Some);
            assert(span_data(a_done[i]->0) == datas[i]);
            assert(datas[i] == v[i].1);
            let j = choose|j: int| 0 <= j < unsorted.len() && span_data(#[trigger] unsorted[j]) == datas[i];
            assert(unsorted.to_multiset().count(unsorted[j]) > 0);
            assert(r@.contains(unsorted[j]));
            let m = choose|m: int| 0 <= m < r@.len() && r@[m] == unsorted[j];
            assert(span_data(r@[m]) == v[i].1);
        }
    }
    r
}

/// The data of the spans a fold describes.
pub open spec fn fold_datas(st: BuildState) -> Seq<SpanData> {
    st.slots.map_values(|p: (i64, SpanData)| p.1)
}

/// `r` holds exactly the spans `datas` describes, each once, every child
/// under a parent it names.
pub open spec fn forest_of(r: Seq<SpanInfo>, datas: Seq<SpanData>) -> bool {
    exists|u: Seq<SpanInfo>|
        {
            &&& #[trigger] u.to_multiset() == r.to_multiset()
            &&& flat_forest(u).to_multiset() == datas.to_multiset()
            &&& forall|i: int| 0 <= i < u.len() ==> edges_ok(#[trigger] u[i])
        }
}

/// Records ordered by time.
/// The records in time order; records at the same time keep their order.
pub open spec fn time_ordered(events: Seq<TraceEvent>) -> Seq<TraceEvent> {
    stable_sort_by(events, |e: TraceEvent| e.timestamp as int)
}

pub open spec fn sorted_events_of(sorted: Seq<TraceEvent>, events: Seq<TraceEvent>) -> bool {
    &&& sorted.to_multiset() == events.to_multiset()
    &&& sorted_by(sorted, |e: TraceEvent| e.timestamp as int)
}

/// Builds the span forest from trace records: the records are applied in
/// time order (see `build_step`; records at the same time keep their
/// order), each span is nested under its parent span of the same process,
/// spans without a parent span in their process stay at the top level, and
/// the top-level spans are ordered by start time.
pub fn build_span_tree_from_events(events: Vec<TraceEvent>) -> (r: Vec<SpanInfo>)
    ensures
        sorted_events_of(time_ordered(events@), events@),
        forest_of(r@, fold_datas(build_fold(time_ordered(events@)))),
        children_nested(
            r@,
            build_fold(time_ordered(events@)).slots,
            build_fold(time_ordered(events@)).roots,
        ),
        unparented_on_top(r@, build_fold(time_ordered(events@)).slots),
        sorted_by(r@, |s: SpanInfo| s.start_timestamp as int),
{
    let by_time = |e: &TraceEvent| -> (k: i128)
        ensures
            k == e.timestamp as int,
        { e.timestamp as i128 };
    let sorted = sort_by_key(events, Ghost(|e: TraceEvent| e.timestamp as int), by_time);
    let (slots, roots) = collect_spans(&sorted);
    let ghost st = build_fold(sorted@);
    assert(slot_datas(slots@) =~= fold_datas(st));
    let ghost sv = slots_view(slots@);
    let r = assemble(slots, &roots);
    assert(sv == st.slots);
    assert(sorted_events_of(sorted@, events@));
    assert(forest_of(r@, fold_datas(st)));
    assert(sorted@ == time_ordered(events@));
    r
}

} // verus!
