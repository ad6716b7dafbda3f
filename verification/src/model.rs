//! The records the trace views work on: raw trace events, assembled spans,
//! span events, and the processes that emitted them.

use vstd::prelude::*;

verus! {

/// One row of the `python.trace_event` table.
#[derive(Debug, Clone, PartialEq)]
pub struct TraceEvent {
    pub record_type: String,
    pub trace_id: i64,
    pub span_id: i64,
    pub parent_id: Option<i64>,
    pub name: String,
    pub timestamp: i64,
    pub thread_id: i64,
    pub kind: Option<String>,
    pub location: Option<String>,
    pub attributes: Option<String>,
    pub event_attributes: Option<String>,
}

/// A span with its nested child spans and its point events.
#[derive(Debug, PartialEq)]
pub struct SpanInfo {
    pub span_id: i64,
    pub trace_id: i64,
    pub parent_id: Option<i64>,
    pub name: String,
    pub start_timestamp: i64,
    pub end_timestamp: Option<i64>,
    pub thread_id: i64,
    pub kind: Option<String>,
    pub location: Option<String>,
    pub attributes: Option<String>,
    pub children: Vec<SpanInfo>,
    pub events: Vec<EventInfo>,
}

/// A point event recorded inside a span.
#[derive(Debug, Clone, PartialEq)]
pub struct EventInfo {
    pub name: String,
    pub timestamp: i64,
    pub attributes: Option<String>,
}

/// A Ray or probing process known to the driver.
#[derive(Debug, Clone, PartialEq)]
pub struct TraceProcessInfo {
    pub pid: i32,
    pub process_role: Option<String>,
    pub hostname: Option<String>,
    pub ray_worker_id: Option<String>,
    pub ray_actor_id: Option<String>,
    pub ray_actor_name: Option<String>,
}

/// What the trace views read of a local process that exposes probing
/// memtables: its pid and its command line.
#[derive(Debug, Clone, PartialEq)]
pub struct Process {
    pub pid: i32,
    pub cmd: String,
}

/// The fields of a point event, as text.
pub struct EventData {
    pub name: Seq<char>,
    pub timestamp: i64,
    pub attributes: Option<Seq<char>>,
}

pub open spec fn event_data(e: EventInfo) -> EventData {
    EventData { name: e.name@, timestamp: e.timestamp, attributes: e.attributes.deep_view() }
}

pub open spec fn events_data(s: Seq<EventInfo>) -> Seq<EventData> {
    s.map_values(|e: EventInfo| event_data(e))
}

/// The fields of a span other than its children, as text.
pub struct SpanData {
    pub span_id: i64,
    pub trace_id: i64,
    pub parent_id: Option<i64>,
    pub name: Seq<char>,
    pub start_timestamp: i64,
    pub end_timestamp: Option<i64>,
    pub thread_id: i64,
    pub kind: Option<Seq<char>>,
    pub location: Option<Seq<char>>,
    pub attributes: Option<Seq<char>>,
    pub events: Seq<EventData>,
}

pub open spec fn span_data(s: SpanInfo) -> SpanData {
    SpanData {
        span_id: s.span_id,
        trace_id: s.trace_id,
        parent_id: s.parent_id,
        name: s.name@,
        start_timestamp: s.start_timestamp,
        end_timestamp: s.end_timestamp,
        thread_id: s.thread_id,
        kind: s.kind.deep_view(),
        location: s.location.deep_view(),
        attributes: s.attributes.deep_view(),
        events: events_data(s.events@),
    }
}

/// The data of every span of a tree, in preorder.
pub open spec fn flat_tree(t: SpanInfo) -> Seq<SpanData>
    decreases t,
{
    seq![span_data(t)] + flat_forest(t.children@)
}

/// The data of every span of a forest, tree after tree, each in preorder.
pub open spec fn flat_forest(s: Seq<SpanInfo>) -> Seq<SpanData>
    decreases s,
{
    if s.len() == 0 {
        Seq::empty()
    } else {
        flat_forest(s.subrange(0, s.len() - 1)) + flat_tree(s[s.len() - 1])
    }
}

/// Every child names its parent: `child.parent_id == Some(parent.span_id)`.
pub open spec fn edges_ok(t: SpanInfo) -> bool
    decreases t,
{
    forall|i: int|
        0 <= i < t.children@.len() ==> {
            &&& (#[trigger] t.children@[i]).parent_id == Some(t.span_id)
            &&& edges_ok(t.children@[i])
        }
}

pub proof fn lemma_flat_forest_push(s: Seq<SpanInfo>, t: SpanInfo)
    ensures
        flat_forest(s.push(t)) == flat_forest(s) + flat_tree(t),
{
    assert(s.push(t).subrange(0, s.len() as int) =~= s);
}

pub proof fn lemma_flat_forest_append(a: Seq<SpanInfo>, b: Seq<SpanInfo>)
    ensures
        flat_forest(a + b) == flat_forest(a) + flat_forest(b),
    decreases b.len(),
{
    if b.len() == 0 {
        assert(a + b =~= a);
        assert(flat_forest(b) =~= Seq::empty());
        assert(flat_forest(a) + flat_forest(b) =~= flat_forest(a));
    } else {
        let b0 = b.subrange(0, b.len() - 1);
        lemma_flat_forest_append(a, b0);
        assert((a + b).subrange(0, (a + b).len() - 1) =~= a + b0);
        assert((a + b)[(a + b).len() - 1] == b[b.len() - 1]);
        assert(flat_forest(a + b) =~= flat_forest(a) + flat_forest(b));
    }
}

} // verus!
