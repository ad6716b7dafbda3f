//! Trace records in the Chrome tracing format: process-name metadata, then a
//! begin, end or instant record for each trace record, in time order.
//!
//! The records are computed here; rendering them as JSON is left to the
//! caller.

use vstd::prelude::*;
use crate::model::TraceEvent;
use crate::order::{sort_by_key, sorted_by};
use crate::span_tree::{
    SpanProcessLookup, SpanStartEntry, event_pid_spec, lookup_insert, pid_from_start_spec, sorted_events_of, time_ordered,
    trace_event_process_pid, trace_event_process_pid_from_start,
};
use crate::text::{copy_opt_string, str_eq, string_of};
use crate::trace_api::{process_label, process_label_spec};

verus! {

broadcast use vstd::seq_lib::group_to_multiset_ensures;

/// Whether a text parses as JSON.
pub uninterp spec fn json_text_parses(text: Seq<char>) -> bool;

/// Whether `text` parses as a JSON value (`serde_json::from_str::<Value>` succeeds).
#[verifier::external_body]
fn json_parses(text: &str) -> (r: bool)
    ensures
        r == json_text_parses(text@),
{
    serde_json::from_str::<serde_json::Value>(text).is_ok()
}

/// A span start as remembered by the conversion: its time, name, kind and process.
pub struct StartView {
    pub ts: i64,
    pub name: Seq<char>,
    pub kind: Option<Seq<char>>,
    pub pid: i64,
}

/// A span start remembered by the conversion.
pub struct OpenSpan {
    pub ts: i64,
    pub name: String,
    pub kind: Option<String>,
    pub pid: i64,
}

pub open spec fn open_view(o: OpenSpan) -> StartView {
    StartView { ts: o.ts, name: o.name@, kind: o.kind.deep_view(), pid: o.pid }
}

/// One entry of a log of span starts keyed by (process, span, thread): a
/// start, or `None` where the start was consumed. Later entries win.
pub struct OpenEntry {
    pub key: (i64, i64, i64),
    pub val: Option<OpenSpan>,
}

pub open spec fn opt_open_view(o: Option<OpenSpan>) -> Option<StartView> {
    match o {
        Some(x) => Some(open_view(x)),
        None => None,
    }
}

pub open spec fn log_view(v: Seq<OpenEntry>) -> Seq<((i64, i64, i64), Option<StartView>)> {
    v.map_values(|e: OpenEntry| (e.key, opt_open_view(e.val)))
}

/// The current start for `key` in a log: its last entry for `key`.
pub open spec fn log_get(log: Seq<((i64, i64, i64), Option<StartView>)>, key: (i64, i64, i64)) -> Option<StartView>
    decreases log.len(),
{
    if log.len() == 0 {
        None
    } else if log.last().0 == key {
        log.last().1
    } else {
        log_get(log.drop_last(), key)
    }
}

proof fn lemma_log_get_prefix(log: Seq<((i64, i64, i64), Option<StartView>)>, key: (i64, i64, i64), i: int)
    requires
        0 <= i <= log.len(),
        forall|j: int| i <= j < log.len() ==> (#[trigger] log[j]).0 != key,
    ensures
        log_get(log, key) == log_get(log.subrange(0, i), key),
    decreases log.len() - i,
{
    if i < log.len() {
        assert(log.last() == log[log.len() - 1]);
        lemma_log_get_prefix(log.drop_last(), key, i);
        assert(log.drop_last().subrange(0, i) =~= log.subrange(0, i));
    } else {
        assert(log.subrange(0, i) =~= log);
    }
}

proof fn lemma_log_get_within(log: Seq<((i64, i64, i64), Option<StartView>)>, key: (i64, i64, i64), lo: int, hi: int)
    requires
        forall|i: int| 0 <= i < log.len() ==> ((#[trigger] log[i]).1 matches Some(v) ==> lo <= v.ts <= hi),
    ensures
        log_get(log, key) matches Some(v) ==> lo <= v.ts <= hi,
    decreases log.len(),
{
    if log.len() > 0 {
        assert(log.last() == log[log.len() - 1]);
        if log.last().0 != key {
            assert forall|i: int| 0 <= i < log.drop_last().len() implies ((#[trigger] log.drop_last()[i]).1 matches Some(v) ==> lo <= v.ts <= hi) by {
                assert(log.drop_last()[i] == log[i]);
            }
            lemma_log_get_within(log.drop_last(), key, lo, hi);
        }
    }
}

fn copy_open(o: &OpenSpan) -> (r: OpenSpan)
    ensures
        open_view(r) == open_view(*o),
{
    OpenSpan { ts: o.ts, name: o.name.clone(), kind: copy_opt_string(&o.kind), pid: o.pid }
}

/// The current start for `key` in the log.
fn log_find(log: &Vec<OpenEntry>, key: (i64, i64, i64)) -> (r: Option<OpenSpan>)
    ensures
        opt_open_view(r) == log_get(log_view(log@), key),
{
    let mut i: usize = log.len();
    assert(log_view(log@).subrange(0, i as int) =~= log_view(log@));
    while i > 0
        invariant
            i <= log@.len(),
            log_get(log_view(log@), key) == log_get(log_view(log@).subrange(0, i as int), key),
        decreases i,
    {
        let e = &log[i - 1];
        if e.key.0 == key.0 && e.key.1 == key.1 && e.key.2 == key.2 {
            proof {
                let pre = log_view(log@).subrange(0, i as int);
                assert(pre.last() == log_view(log@)[i - 1]);
            }
            return match &e.val {
                Some(o) => Some(copy_open(o)),
                None => None,
            };
        }
        proof {
            let pre = log_view(log@).subrange(0, i as int);
            assert(pre.last() == log_view(log@)[i - 1]);
            assert(pre.drop_last() =~= log_view(log@).subrange(0, i - 1));
        }
        i -= 1;
    }
    None
}

/// A `span_start` record.
pub open spec fn is_span_start(e: TraceEvent) -> bool {
    e.record_type@ == "span_start"@
}

/// What the first pass over the records gathers: the process of every span
/// start, the span starts by (process, span, thread), and the label of every
/// process in order of first appearance.
pub struct FirstPass {
    pub lookup: Seq<SpanStartEntry>,
    pub starts: Seq<((i64, i64, i64), Option<StartView>)>,
    pub procs: Seq<(i64, Seq<char>)>,
}

pub open spec fn has_pid(procs: Seq<(i64, Seq<char>)>, pid: i64) -> bool {
    exists|i: int| 0 <= i < procs.len() && (#[trigger] procs[i]).0 == pid
}

pub open spec fn first_pass_step(st: FirstPass, e: TraceEvent) -> FirstPass {
    if is_span_start(e) {
        let pid = event_pid_spec(e);
        FirstPass {
            lookup: lookup_insert(
                st.lookup,
                SpanStartEntry { span_id: e.span_id, thread_id: e.thread_id, trace_id: e.trace_id, pid },
            ),
            starts: st.starts.push(
                ((pid, e.span_id, e.thread_id), Some(StartView { ts: e.timestamp, name: e.name@, kind: e.kind.deep_view(), pid })),
            ),
            procs: if has_pid(st.procs, pid) {
                st.procs
            } else {
                st.procs.push((pid, process_label_spec(e.attributes.deep_view(), e.trace_id)))
            },
        }
    } else {
        st
    }
}

pub open spec fn first_pass(s: Seq<TraceEvent>) -> FirstPass
    decreases s.len(),
{
    if s.len() == 0 {
        FirstPass { lookup: Seq::empty(), starts: Seq::empty(), procs: Seq::empty() }
    } else {
        first_pass_step(first_pass(s.drop_last()), s.last())
    }
}

pub open spec fn procs_view(v: Seq<(i64, String)>) -> Seq<(i64, Seq<char>)> {
    v.map_values(|p: (i64, String)| (p.0, p.1@))
}

/// Every remembered start lies in `[lo, hi]`.
pub open spec fn starts_within(log: Seq<((i64, i64, i64), Option<StartView>)>, lo: int, hi: int) -> bool {
    forall|i: int| 0 <= i < log.len() ==> ((#[trigger] log[i]).1 matches Some(v) ==> lo <= v.ts <= hi)
}

fn has_pid_exec(procs: &Vec<(i64, String)>, pid: i64) -> (r: bool)
    ensures
        r == has_pid(procs_view(procs@), pid),
{
    let mut i: usize = 0;
    while i < procs.len()
        invariant
            i <= procs@.len(),
            forall|k: int| 0 <= k < i ==> (#[trigger] procs@[k]).0 != pid,
        decreases procs@.len() - i,
    {
        if procs[i].0 == pid {
            assert(procs_view(procs@)[i as int].0 == pid);
            return true;
        }
        i += 1;
    }
    proof {
        if has_pid(procs_view(procs@), pid) {
            let k = choose|k: int| 0 <= k < procs_view(procs@).len() && (#[trigger] procs_view(procs@)[k]).0 == pid;
            assert(procs@[k].0 == pid);
        }
    }
    false
}

/// The first pass over time-ordered records.
fn run_first_pass(events: &Vec<TraceEvent>, Ghost(lo): Ghost<int>, Ghost(hi): Ghost<int>) -> (r: (
    SpanProcessLookup,
    Vec<OpenEntry>,
    Vec<(i64, String)>,
))
    requires
        forall|i: int| 0 <= i < events@.len() ==> lo <= (#[trigger] events@[i]).timestamp <= hi,
    ensures
        r.0.entries@ == first_pass(events@).lookup,
        log_view(r.1@) == first_pass(events@).starts,
        procs_view(r.2@) == first_pass(events@).procs,
        starts_within(log_view(r.1@), lo, hi),
{
    let mut lookup = SpanProcessLookup::new();
    let mut starts: Vec<OpenEntry> = Vec::new();
    let mut procs: Vec<(i64, String)> = Vec::new();
    let mut i: usize = 0;
    while i < events.len()
        invariant
            i <= events@.len(),
            forall|k: int| 0 <= k < events@.len() ==> lo <= (#[trigger] events@[k]).timestamp <= hi,
            lookup.entries@ == first_pass(events@.subrange(0, i as int)).lookup,
            log_view(starts@) == first_pass(events@.subrange(0, i as int)).starts,
            procs_view(procs@) == first_pass(events@.subrange(0, i as int)).procs,
            starts_within(log_view(starts@), lo, hi),
        decreases events@.len() - i,
    {
        let e = &events[i];
        proof {
            let pre = events@.subrange(0, i + 1);
            assert(pre.drop_last() =~= events@.subrange(0, i as int));
            assert(pre.last() == *e);
            reveal_strlit("span_start");
        }
        if str_eq(e.record_type.as_str(), "span_start") {
            let pid = trace_event_process_pid(e);
            lookup.insert(SpanStartEntry { span_id: e.span_id, thread_id: e.thread_id, trace_id: e.trace_id, pid });
            let ghost s0 = starts@;
            starts.push(
                OpenEntry {
                    key: (pid, e.span_id, e.thread_id),
                    val: Some(OpenSpan { ts: e.timestamp, name: e.name.clone(), kind: copy_opt_string(&e.kind), pid }),
                },
            );
            proof {
                assert(log_view(starts@) =~= log_view(s0).push(
                    ((pid, e.span_id, e.thread_id), Some(StartView { ts: e.timestamp, name: e.name@, kind: e.kind.deep_view(), pid })),
                ));
                assert forall|k: int| 0 <= k < log_view(starts@).len() implies ((#[trigger] log_view(starts@)[k]).1 matches Some(v) ==> lo <= v.ts <= hi) by {
                    if k < s0.len() {
                        assert(log_view(starts@)[k] == log_view(s0)[k]);
                    }
                }
            }
            if !has_pid_exec(&procs, pid) {
                let label = process_label(&e.attributes, e.trace_id);
                let ghost p0 = procs@;
                procs.push((pid, label));
                assert(procs_view(procs@) =~= procs_view(p0).push((pid, process_label_spec(e.attributes.deep_view(), e.trace_id))));
            }
        }
        i += 1;
    }
    assert(events@.subrange(0, events@.len() as int) =~= events@);
    (lookup, starts, procs)
}

/// One record of a Chrome trace. Timestamps and durations are microseconds
/// since the earliest record; `attributes` and `args` hold JSON text that
/// parses.
pub enum ChromeRecord {
    /// Metadata naming a process (`ph: "M"`).
    ProcessName { pid: i64, name: String },
    /// The start of a span (`ph: "B"`).
    Begin {
        name: String,
        cat: String,
        ts: i64,
        pid: u32,
        tid: u32,
        location: Option<String>,
        attributes: Option<String>,
    },
    /// The end of a span (`ph: "E"`), with its duration when positive.
    End { name: String, cat: String, ts: i64, pid: u32, tid: u32, dur: Option<i64> },
    /// A point event in a span (`ph: "i"`, thread scope).
    Instant { name: String, ts: i64, pid: u32, tid: u32, args: Option<String> },
}

/// A Chrome trace record as values.
pub enum RecordView {
    ProcessName { pid: i64, name: Seq<char> },
    Begin {
        name: Seq<char>,
        cat: Seq<char>,
        ts: i64,
        pid: u32,
        tid: u32,
        location: Option<Seq<char>>,
        attributes: Option<Seq<char>>,
    },
    End { name: Seq<char>, cat: Seq<char>, ts: i64, pid: u32, tid: u32, dur: Option<i64> },
    Instant { name: Seq<char>, ts: i64, pid: u32, tid: u32, args: Option<Seq<char>> },
}

pub open spec fn record_view(r: ChromeRecord) -> RecordView {
    match r {
        ChromeRecord::ProcessName { pid, name } => RecordView::ProcessName { pid, name: name@ },
        ChromeRecord::Begin { name, cat, ts, pid, tid, location, attributes } => RecordView::Begin {
            name: name@,
            cat: cat@,
            ts,
            pid,
            tid,
            location: location.deep_view(),
            attributes: attributes.deep_view(),
        },
        ChromeRecord::End { name, cat, ts, pid, tid, dur } => RecordView::End { name: name@, cat: cat@, ts, pid, tid, dur },
        ChromeRecord::Instant { name, ts, pid, tid, args } => RecordView::Instant { name: name@, ts, pid, tid, args: args.deep_view() },
    }
}

pub open spec fn records_view(v: Seq<ChromeRecord>) -> Seq<RecordView> {
    v.map_values(|r: ChromeRecord| record_view(r))
}

/// Microseconds from `min` to `ts` (nanoseconds).
pub open spec fn micros(ts: i64, min: i64) -> i64 {
    ((ts - min) / 1000) as i64
}

/// The category of a span: its kind, else `span`.
pub open spec fn category(kind: Option<Seq<char>>) -> Seq<char> {
    match kind {
        Some(k) => k,
        None => "span"@,
    }
}

/// A text argument, kept when present and non-empty.
pub open spec fn nonempty(o: Option<Seq<char>>) -> Option<Seq<char>> {
    match o {
        Some(t) => if t.len() > 0 {
            Some(t)
        } else {
            None
        },
        None => None,
    }
}

/// A JSON argument, kept when present, non-empty and valid JSON.
pub open spec fn json_arg(o: Option<Seq<char>>) -> Option<Seq<char>> {
    match o {
        Some(t) => if t.len() > 0 && json_text_parses(t) {
            Some(t)
        } else {
            None
        },
        None => None,
    }
}

/// A duration, kept when positive.
pub open spec fn positive(d: int) -> Option<i64> {
    if d > 0 {
        Some(d as i64)
    } else {
        None
    }
}

/// The state of the second pass: the starts not yet ended, and the records so far.
pub struct SecondPass {
    pub open: Seq<((i64, i64, i64), Option<StartView>)>,
    pub out: Seq<RecordView>,
}

/// The record (if any) of one trace record in the second pass.
pub open spec fn second_pass_step(fp: FirstPass, min: i64, st: SecondPass, e: TraceEvent) -> SecondPass {
    let ts = micros(e.timestamp, min);
    let pid = pid_from_start_spec(e, fp.lookup);
    let tid = e.thread_id as u32;
    let key = (pid, e.span_id, e.thread_id);
    if is_span_start(e) {
        SecondPass {
            open: st.open.push((key, Some(StartView { ts, name: e.name@, kind: e.kind.deep_view(), pid }))),
            out: st.out.push(
                RecordView::Begin {
                    name: e.name@,
                    cat: category(e.kind.deep_view()),
                    ts,
                    pid: pid as u32,
                    tid,
                    location: nonempty(e.location.deep_view()),
                    attributes: json_arg(e.attributes.deep_view()),
                },
            ),
        }
    } else if e.record_type@ == "span_end"@ {
        match log_get(st.open, key) {
            Some(sv) => SecondPass {
                open: st.open.push((key, None)),
                out: st.out.push(
                    RecordView::End { name: sv.name, cat: category(sv.kind), ts, pid: sv.pid as u32, tid, dur: positive(ts - sv.ts) },
                ),
            },
            None => match log_get(fp.starts, key) {
                Some(sv) => SecondPass {
                    open: st.open,
                    out: st.out.push(
                        RecordView::End {
                            name: sv.name,
                            cat: category(sv.kind),
                            ts,
                            pid: sv.pid as u32,
                            tid,
                            dur: positive(ts - micros(sv.ts, min)),
                        },
                    ),
                },
                None => SecondPass {
                    open: st.open,
                    out: st.out.push(
                        RecordView::End {
                            name: if e.name@.len() == 0 {
                                "unknown_span"@
                            } else {
                                e.name@
                            },
                            cat: "span"@,
                            ts,
                            pid: pid as u32,
                            tid,
                            dur: None,
                        },
                    ),
                },
            },
        }
    } else if e.record_type@ == "event"@ {
        SecondPass {
            open: st.open,
            out: st.out.push(
                RecordView::Instant { name: e.name@, ts, pid: pid as u32, tid, args: json_arg(e.event_attributes.deep_view()) },
            ),
        }
    } else {
        st
    }
}

pub open spec fn second_pass(fp: FirstPass, min: i64, s: Seq<TraceEvent>) -> SecondPass
    decreases s.len(),
{
    if s.len() == 0 {
        SecondPass { open: Seq::empty(), out: Seq::empty() }
    } else {
        second_pass_step(fp, min, second_pass(fp, min, s.drop_last()), s.last())
    }
}

/// The earliest timestamp of time-ordered records (0 when there is none).
pub open spec fn earliest(s: Seq<TraceEvent>) -> i64 {
    if s.len() == 0 {
        0
    } else {
        s[0].timestamp
    }
}

/// The metadata record naming a process.
pub open spec fn name_record(p: (i64, Seq<char>)) -> RecordView {
    RecordView::ProcessName { pid: p.0, name: p.1 }
}

/// The Chrome trace of time-ordered records: one process-name record per
/// process in order of first appearance, then the record of each trace record.
pub open spec fn chrome_records_spec(s: Seq<TraceEvent>) -> Seq<RecordView> {
    let fp = first_pass(s);
    fp.procs.map_values(|p: (i64, Seq<char>)| name_record(p)) + second_pass(
        fp,
        earliest(s),
        s,
    ).out
}

/// The category of a span: its kind, else `span`.
pub fn category_of(kind: &Option<String>) -> (r: String)
    ensures
        r@ == category(kind.deep_view()),
{
    match kind {
        Some(k) => k.clone(),
        None => string_of("span"),
    }
}

/// A text argument, kept when present and non-empty.
pub fn nonempty_of(o: &Option<String>) -> (r: Option<String>)
    ensures
        r.deep_view() == nonempty(o.deep_view()),
{
    match o {
        Some(t) => if t.as_str().is_empty() {
            None
        } else {
            Some(t.clone())
        },
        None => None,
    }
}

/// A JSON argument, kept when present, non-empty and valid JSON.
pub fn json_arg_of(o: &Option<String>) -> (r: Option<String>)
    ensures
        r.deep_view() == json_arg(o.deep_view()),
{
    match o {
        Some(t) => if !t.as_str().is_empty() {
            keep_json_arg(t, json_parses(t.as_str()))
        } else {
            None
        },
        None => None,
    }
}

/// A non-empty argument, kept when it parses as JSON (`parses`).
pub fn keep_json_arg(t: &String, parses: bool) -> (r: Option<String>)
    ensures
        r.deep_view() == if parses { Some(t@) } else { None::<Seq<char>> },
{
    if parses {
        Some(t.clone())
    } else {
        None
    }
}

fn micros_of(ts: i64, min: i64) -> (r: i64)
    requires
        min <= ts,
        ts - min <= i64::MAX,
    ensures
        r == micros(ts, min),
        0 <= r <= i64::MAX / 1000,
{
    let d = ts - min;
    let r = d / 1000;
    assert(r == (ts - min) / 1000) by (nonlinear_arith)
        requires
            d == ts - min,
            d >= 0,
            r == d / 1000,
    ;
    r
}

/// The second pass over time-ordered records.
fn run_second_pass(
    events: &Vec<TraceEvent>,
    lookup: &SpanProcessLookup,
    starts: &Vec<OpenEntry>,
    min: i64,
    Ghost(fp): Ghost<FirstPass>,
) -> (r: Vec<ChromeRecord>)
    requires
        lookup.entries@ == fp.lookup,
        log_view(starts@) == fp.starts,
        starts_within(fp.starts, min as int, min + i64::MAX),
        forall|i: int| 0 <= i < events@.len() ==> min <= (#[trigger] events@[i]).timestamp <= min + i64::MAX,
    ensures
        records_view(r@) == second_pass(fp, min, events@).out,
{
    let mut open: Vec<OpenEntry> = Vec::new();
    let mut out: Vec<ChromeRecord> = Vec::new();
    let mut i: usize = 0;
    while i < events.len()
        invariant
            i <= events@.len(),
            lookup.entries@ == fp.lookup,
            log_view(starts@) == fp.starts,
            starts_within(fp.starts, min as int, min + i64::MAX),
            forall|k: int| 0 <= k < events@.len() ==> min <= (#[trigger] events@[k]).timestamp <= min + i64::MAX,
            log_view(open@) == second_pass(fp, min, events@.subrange(0, i as int)).open,
            records_view(out@) == second_pass(fp, min, events@.subrange(0, i as int)).out,
            starts_within(log_view(open@), 0, i64::MAX / 1000),
        decreases events@.len() - i,
    {
        let e = &events[i];
        proof {
            let pre = events@.subrange(0, i + 1);
            assert(pre.drop_last() =~= events@.subrange(0, i as int));
            assert(pre.last() == *e);
            reveal_strlit("span_start");
            reveal_strlit("span_end");
            reveal_strlit("event");
            reveal_strlit("span");
            reveal_strlit("unknown_span");
        }
        let ghost open0 = open@;
        let ghost out0 = out@;
        let ts = micros_of(e.timestamp, min);
        let pid = trace_event_process_pid_from_start(e, lookup);
        let tid = e.thread_id as u32;
        let key = (pid, e.span_id, e.thread_id);
        if str_eq(e.record_type.as_str(), "span_start") {
            open.push(
                OpenEntry {
                    key,
                    val: Some(OpenSpan { ts, name: e.name.clone(), kind: copy_opt_string(&e.kind), pid }),
                },
            );
            out.push(
                ChromeRecord::Begin {
                    name: e.name.clone(),
                    cat: category_of(&e.kind),
                    ts,
                    pid: pid as u32,
                    tid,
                    location: nonempty_of(&e.location),
                    attributes: json_arg_of(&e.attributes),
                },
            );
            proof {
                assert(log_view(open@) =~= log_view(open0).push(
                    (key, Some(StartView { ts, name: e.name@, kind: e.kind.deep_view(), pid })),
                ));
                assert(records_view(out@) =~= records_view(out0).push(record_view(out@.last())));
                assert forall|k: int| 0 <= k < log_view(open@).len() implies ((#[trigger] log_view(open@)[k]).1 matches Some(v) ==> 0 <= v.ts <= i64::MAX / 1000) by {
                    if k < open0.len() {
                        assert(log_view(open@)[k] == log_view(open0)[k]);
                    }
                }
            }
        } else if str_eq(e.record_type.as_str(), "span_end") {
            let found = log_find(&open, key);
            match found {
                Some(sv) => {
                    proof {
                        lemma_log_get_within(log_view(open0), key, 0, i64::MAX / 1000);
                    }
                    open.push(OpenEntry { key, val: None });
                    let dur = ts - sv.ts;
                    let cat = category_of(&sv.kind);
                    out.push(
                        ChromeRecord::End {
                            name: sv.name,
                            cat,
                            ts,
                            pid: sv.pid as u32,
                            tid,
                            dur: if dur > 0 {
                                Some(dur)
                            } else {
                                None
                            },
                        },
                    );
                    proof {
                        assert(log_view(open@) =~= log_view(open0).push((key, None)));
                        assert(records_view(out@) =~= records_view(out0).push(record_view(out@.last())));
                        assert forall|k: int| 0 <= k < log_view(open@).len() implies ((#[trigger] log_view(open@)[k]).1 matches Some(v) ==> 0 <= v.ts <= i64::MAX / 1000) by {
                            if k < open0.len() {
                                assert(log_view(open@)[k] == log_view(open0)[k]);
                            }
                        }
                    }
                },
                None => {
                    let started = log_find(starts, key);
                    match started {
                        Some(sv) => {
                            proof {
                                lemma_log_get_within(fp.starts, key, min as int, min + i64::MAX);
                            }
                            let start_ts = micros_of(sv.ts, min);
                            let dur = ts - start_ts;
                            let cat = category_of(&sv.kind);
                            out.push(
                                ChromeRecord::End {
                                    name: sv.name,
                                    cat,
                                    ts,
                                    pid: sv.pid as u32,
                                    tid,
                                    dur: if dur > 0 {
                                        Some(dur)
                                    } else {
                                        None
                                    },
                                },
                            );
                        },
                        None => {
                            let name = if e.name.as_str().is_empty() {
                                string_of("unknown_span")
                            } else {
                                e.name.clone()
                            };
                            out.push(
                                ChromeRecord::End { name, cat: string_of("span"), ts, pid: pid as u32, tid, dur: None },
                            );
                        },
                    }
                    proof {
                        assert(records_view(out@) =~= records_view(out0).push(record_view(out@.last())));
                    }
                },
            }
        } else if str_eq(e.record_type.as_str(), "event") {
            out.push(
                ChromeRecord::Instant {
                    name: e.name.clone(),
                    ts,
                    pid: pid as u32,
                    tid,
                    args: json_arg_of(&e.event_attributes),
                },
            );
            proof {
                assert(records_view(out@) =~= records_view(out0).push(record_view(out@.last())));
            }
        }
        i += 1;
    }
    assert(events@.subrange(0, events@.len() as int) =~= events@);
    out
}

/// No two records lie further apart than `i64::MAX` nanoseconds.
pub open spec fn times_within_range(events: Seq<TraceEvent>) -> bool {
    forall|i: int, j: int|
        0 <= i < events.len() && 0 <= j < events.len() ==> (#[trigger] events[i]).timestamp - (#[trigger] events[j]).timestamp
            <= i64::MAX
}

/// The Chrome trace of trace records: the records are taken in time order
/// (records at the same time keep their order), timestamps count microseconds from the
/// earliest record, and each process is named once, in order of first
/// appearance among the span starts.
pub fn chrome_trace_records(events: Vec<TraceEvent>) -> (r: Vec<ChromeRecord>)
    requires
        times_within_range(events@),
    ensures
        records_view(r@) == chrome_records_spec(time_ordered(events@)),
{
    let by_time = |e: &TraceEvent| -> (k: i128)
        ensures
            k == e.timestamp as int,
        { e.timestamp as i128 };
    let sorted = sort_by_key(events, Ghost(|e: TraceEvent| e.timestamp as int), by_time);
    let min: i64 = if sorted.len() > 0 { sorted[0].timestamp } else { 0 };
    proof {
        assert forall|k: int| 0 <= k < sorted@.len() implies min <= (#[trigger] sorted@[k]).timestamp <= min + i64::MAX by {
            assert(sorted@.to_multiset().count(sorted@[k]) > 0);
            assert(events@.contains(sorted@[k]));
            assert(sorted@.to_multiset().count(sorted@[0]) > 0);
            assert(events@.contains(sorted@[0]));
            let a = choose|a: int| 0 <= a < events@.len() && events@[a] == sorted@[k];
            let b = choose|b: int| 0 <= b < events@.len() && events@[b] == sorted@[0];
            assert(events@[a].timestamp - events@[b].timestamp <= i64::MAX);
            if k > 0 {
                assert(sorted@[0].timestamp <= sorted@[k].timestamp);
            }
        }
    }
    let (lookup, starts, procs) = run_first_pass(&sorted, Ghost(min as int), Ghost(min + i64::MAX));
    let ghost fp = first_pass(sorted@);
    let mut out: Vec<ChromeRecord> = Vec::new();
    let mut i: usize = 0;
    while i < procs.len()
        invariant
            i <= procs@.len(),
            records_view(out@) == procs_view(procs@).subrange(0, i as int).map_values(
                |p: (i64, Seq<char>)| name_record(p),
            ),
        decreases procs@.len() - i,
    {
        let ghost o0 = out@;
        out.push(ChromeRecord::ProcessName { pid: procs[i].0, name: procs[i].1.clone() });
        proof {
            let want = procs_view(procs@).subrange(0, i + 1).map_values(|p: (i64, Seq<char>)| name_record(p));
            let before = procs_view(procs@).subrange(0, i as int).map_values(|p: (i64, Seq<char>)| name_record(p));
            assert(records_view(o0).len() == o0.len());
            assert(o0.len() == i);
            assert(out@.len() == i + 1);
            assert forall|k: int| 0 <= k < i + 1 implies records_view(out@)[k] == want[k] by {
                if k < i {
                    assert(out@[k] == o0[k]);
                    assert(records_view(o0)[k] == before[k]);
                } else {
                    assert(procs_view(procs@)[k] == (procs@[k].0, procs@[k].1@));
                }
            }
            assert(records_view(out@) =~= want);
        }
        i += 1;
    }
    assert(procs_view(procs@).subrange(0, procs@.len() as int) =~= procs_view(procs@));
    let mut rest = run_second_pass(&sorted, &lookup, &starts, min, Ghost(fp));
    let ghost o1 = out@;
    let ghost r1 = rest@;
    out.append(&mut rest);
    assert(records_view(out@) =~= records_view(o1) + records_view(r1));
    assert(earliest(sorted@) == min);
    assert(records_view(out@) == chrome_records_spec(sorted@));
    assert(sorted@ == time_ordered(events@));
    out
}

/// The start record `s` and record `x` are of the same span, thread and trace.
pub open spec fn same_start_key(x: TraceEvent, s: TraceEvent) -> bool {
    x.span_id == s.span_id && x.thread_id == s.thread_id && x.trace_id == s.trace_id
}

/// No other span start of `events` has the key of `s`.
pub open spec fn only_start_of_key(events: Seq<TraceEvent>, s: TraceEvent) -> bool {
    forall|k: int|
        0 <= k < events.len() && is_span_start(#[trigger] events[k]) && same_start_key(events[k], s) ==> events[k] == s
}

proof fn lemma_first_exact_exists(l: Seq<SpanStartEntry>, a: i64, b: i64, c: i64, k: int)
    requires
        0 <= k < l.len(),
        crate::span_tree::matches_exact(l[k], a, b, c),
    ensures
        exists|i: int| crate::span_tree::first_exact(l, a, b, c, i),
    decreases k,
{
    if exists|j: int| 0 <= j < k && crate::span_tree::matches_exact(#[trigger] l[j], a, b, c) {
        let j = choose|j: int| 0 <= j < k && crate::span_tree::matches_exact(#[trigger] l[j], a, b, c);
        lemma_first_exact_exists(l, a, b, c, j);
    } else {
        assert(crate::span_tree::first_exact(l, a, b, c, k));
    }
}

proof fn lemma_lookup_insert_at(l: Seq<SpanStartEntry>, x: SpanStartEntry, i: int)
    requires
        crate::span_tree::first_exact(l, x.span_id, x.thread_id, x.trace_id, i),
    ensures
        lookup_insert(l, x) == l.update(i, x),
{
    let j = choose|j: int| crate::span_tree::first_exact(l, x.span_id, x.thread_id, x.trace_id, j);
    assert(crate::span_tree::first_exact(l, x.span_id, x.thread_id, x.trace_id, j));
    if j < i {
        assert(crate::span_tree::matches_exact(l[j], x.span_id, x.thread_id, x.trace_id));
    } else if i < j {
        assert(crate::span_tree::matches_exact(l[i], x.span_id, x.thread_id, x.trace_id));
    }
}

/// The lookup of the first pass maps the key of a span start that is the
/// only one with its key to the process that start names.
proof fn lemma_first_pass_lookup(events: Seq<TraceEvent>, s: TraceEvent)
    requires
        events.contains(s),
        is_span_start(s),
        only_start_of_key(events, s),
    ensures
        exists|i: int|
            crate::span_tree::first_exact(first_pass(events).lookup, s.span_id, s.thread_id, s.trace_id, i)
                && #[trigger] first_pass(events).lookup[i].pid == event_pid_spec(s),
    decreases events.len(),
{
    let prev = events.drop_last();
    let x = events.last();
    let l = first_pass(prev).lookup;
    let l1 = first_pass(events).lookup;
    assert(first_pass(events) == first_pass_step(first_pass(prev), x));
    if x == s {
        let entry = SpanStartEntry { span_id: s.span_id, thread_id: s.thread_id, trace_id: s.trace_id, pid: event_pid_spec(s) };
        assert(l1 == lookup_insert(l, entry));
        if exists|i: int| crate::span_tree::first_exact(l, s.span_id, s.thread_id, s.trace_id, i) {
            let i = choose|i: int| crate::span_tree::first_exact(l, s.span_id, s.thread_id, s.trace_id, i);
            lemma_lookup_insert_at(l, entry, i);
            assert(l1 == l.update(i, entry));
            assert(crate::span_tree::first_exact(l1, s.span_id, s.thread_id, s.trace_id, i));
            assert(l1[i].pid == event_pid_spec(s));
        } else {
            assert(l1 == l.push(entry));
            let n = l.len() as int;
            assert forall|k: int| 0 <= k < n implies !crate::span_tree::matches_exact(#[trigger] l1[k], s.span_id, s.thread_id, s.trace_id) by {
                assert(l1[k] == l[k]);
                if crate::span_tree::matches_exact(l[k], s.span_id, s.thread_id, s.trace_id) {
                    lemma_first_exact_exists(l, s.span_id, s.thread_id, s.trace_id, k);
                }
            }
            assert(crate::span_tree::first_exact(l1, s.span_id, s.thread_id, s.trace_id, n));
            assert(l1[n].pid == event_pid_spec(s));
        }
    } else {
        assert(prev.contains(s)) by {
            let k = choose|k: int| 0 <= k < events.len() && events[k] == s;
            assert(k < events.len() - 1);
            assert(prev[k] == s);
        }
        assert(only_start_of_key(prev, s)) by {
            assert forall|k: int| 0 <= k < prev.len() && is_span_start(#[trigger] prev[k]) && same_start_key(prev[k], s) implies prev[k] == s by {
                assert(prev[k] == events[k]);
            }
        }
        lemma_first_pass_lookup(prev, s);
        let i = choose|i: int|
            crate::span_tree::first_exact(l, s.span_id, s.thread_id, s.trace_id, i) && #[trigger] l[i].pid == event_pid_spec(s);
        if is_span_start(x) {
            assert(!same_start_key(x, s)) by {
                if same_start_key(x, s) {
                    assert(events[events.len() - 1] == x);
                }
            }
            let ex = SpanStartEntry { span_id: x.span_id, thread_id: x.thread_id, trace_id: x.trace_id, pid: event_pid_spec(x) };
            assert(l1 == lookup_insert(l, ex));
            if exists|j: int| crate::span_tree::first_exact(l, x.span_id, x.thread_id, x.trace_id, j) {
                let j = choose|j: int| crate::span_tree::first_exact(l, x.span_id, x.thread_id, x.trace_id, j);
                lemma_lookup_insert_at(l, ex, j);
                assert(l1 == l.update(j, ex));
                assert(j != i);
                assert(crate::span_tree::first_exact(l1, s.span_id, s.thread_id, s.trace_id, i));
                assert(l1[i].pid == event_pid_spec(s));
            } else {
                assert(l1 == l.push(ex));
                assert(crate::span_tree::first_exact(l1, s.span_id, s.thread_id, s.trace_id, i));
                assert(l1[i].pid == event_pid_spec(s));
            }
        } else {
            assert(l1 == l);
        }
    }
}

/// An event record is drawn in the process of its span's start: when the
/// span start `s` is the only start with its span, thread and trace ids
/// (and its trace id is positive), the instant record of an event on that
/// span, thread and trace carries the pid `s`'s attributes name, as the
/// begin record of `s` does.
pub proof fn lemma_instant_in_span_process(
    events: Seq<TraceEvent>,
    s: TraceEvent,
    e: TraceEvent,
    min: i64,
    st: SecondPass,
)
    requires
        events.contains(s),
        is_span_start(s),
        only_start_of_key(events, s),
        s.trace_id > 0,
        e.record_type@ == "event"@,
        same_start_key(e, s),
    ensures
        second_pass_step(first_pass(events), min, st, e).out == st.out.push(
            RecordView::Instant {
                name: e.name@,
                ts: micros(e.timestamp, min),
                pid: event_pid_spec(s) as u32,
                tid: e.thread_id as u32,
                args: json_arg(e.event_attributes.deep_view()),
            },
        ),
        second_pass_step(first_pass(events), min, st, s).out.last() matches RecordView::Begin { pid, .. }
            && pid == event_pid_spec(s) as u32,
{
    reveal_strlit("event");
    reveal_strlit("span_start");
    reveal_strlit("span_end");
    assert(!is_span_start(e)) by {
        assert(e.record_type@[1] == 'v');
    }
    assert(e.record_type@ != "span_end"@) by {
        assert(e.record_type@.len() == 5);
    }
    lemma_first_pass_lookup(events, s);
    let l = first_pass(events).lookup;
    let i = choose|i: int|
        crate::span_tree::first_exact(l, s.span_id, s.thread_id, s.trace_id, i) && #[trigger] l[i].pid == event_pid_spec(s);
    let c = choose|c: int| crate::span_tree::first_exact(l, s.span_id, s.thread_id, s.trace_id, c);
    assert(crate::span_tree::first_exact(l, s.span_id, s.thread_id, s.trace_id, c));
    if c != i {
        if c < i {
            assert(crate::span_tree::matches_exact(l[c], s.span_id, s.thread_id, s.trace_id));
        } else {
            assert(crate::span_tree::matches_exact(l[i], s.span_id, s.thread_id, s.trace_id));
        }
    }
    assert(pid_from_start_spec(e, l) == event_pid_spec(s));
    assert(pid_from_start_spec(s, l) == event_pid_spec(s));
}

} // verus!
