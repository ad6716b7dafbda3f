//! How the span views load their spans, as steps from state and event to
//! next state and fetch: the process list, then the span tree (all of it, or
//! one rollout's), then the tree of every listed process that none of those
//! spans names; a failed process fetch is skipped. The caller performs each
//! fetch and hands its outcome back.

use vstd::prelude::*;
use crate::fetch::{processes_to_fetch, span_pids, unfetched};
use crate::linking::{link_cross_process_spans, linked_from};
use crate::model::{SpanInfo, TraceProcessInfo};
use crate::ui::{expanded_trace_fetch_limit, fetch_limit_spec};

verus! {

/// A fetch the span views ask for.
pub enum SpanFetch {
    /// The list of processes.
    Processes,
    /// The span tree of the newest `limit` trace records.
    Tree { limit: usize },
    /// The span tree of one rollout.
    TreeForRollout { rollout_id: String },
    /// The span tree of one process, from its newest `limit` records.
    PidTree { pid: i32, limit: usize },
    /// The span tree of one rollout in one process.
    PidTreeForRollout { pid: i32, rollout_id: String },
}

/// A fetch as values.
pub enum FetchView {
    Processes,
    Tree { limit: int },
    TreeForRollout { rollout_id: Seq<char> },
    PidTree { pid: i32, limit: int },
    PidTreeForRollout { pid: i32, rollout_id: Seq<char> },
}

impl View for SpanFetch {
    type V = FetchView;

    open spec fn view(&self) -> FetchView {
        match self {
            SpanFetch::Processes => FetchView::Processes,
            SpanFetch::Tree { limit } => FetchView::Tree { limit: *limit as int },
            SpanFetch::TreeForRollout { rollout_id } => FetchView::TreeForRollout { rollout_id: rollout_id@ },
            SpanFetch::PidTree { pid, limit } => FetchView::PidTree { pid: *pid, limit: *limit as int },
            SpanFetch::PidTreeForRollout { pid, rollout_id } => FetchView::PidTreeForRollout {
                pid: *pid,
                rollout_id: rollout_id@,
            },
        }
    }
}

/// Where a load stands: what it was asked for, what came back so far, and
/// which process trees are still to fetch (those from `fetched` on).
pub struct SpanLoad {
    pub limit: usize,
    pub rollout_id: String,
    pub processes: Vec<TraceProcessInfo>,
    pub spans: Vec<SpanInfo>,
    pub to_fetch: Vec<i32>,
    pub fetched: usize,
}

/// The span tree fetch: of the rollout, or of the newest records (the
/// expanded limit) when no rollout is asked for.
pub open spec fn tree_fetch(limit: usize, rollout_id: Seq<char>) -> FetchView {
    if rollout_id.len() == 0 {
        FetchView::Tree { limit: fetch_limit_spec(limit) }
    } else {
        FetchView::TreeForRollout { rollout_id }
    }
}

/// The fetch of one process's span tree.
pub open spec fn pid_fetch(limit: usize, rollout_id: Seq<char>, pid: i32) -> FetchView {
    if rollout_id.len() == 0 {
        FetchView::PidTree { pid, limit: fetch_limit_spec(limit) }
    } else {
        FetchView::PidTreeForRollout { pid, rollout_id }
    }
}

/// The next process tree to fetch, if any.
pub open spec fn next_fetch(st: SpanLoad) -> Option<FetchView> {
    if st.fetched < st.to_fetch@.len() {
        Some(pid_fetch(st.limit, st.rollout_id@, st.to_fetch@[st.fetched as int]))
    } else {
        None
    }
}

pub open spec fn opt_fetch_view(f: Option<SpanFetch>) -> Option<FetchView> {
    match f {
        Some(x) => Some(x@),
        None => None,
    }
}

fn make_tree_fetch(limit: usize, rollout_id: &String) -> (r: SpanFetch)
    ensures
        r@ == tree_fetch(limit, rollout_id@),
{
    if rollout_id.unicode_len() == 0 {
        SpanFetch::Tree { limit: expanded_trace_fetch_limit(limit) }
    } else {
        SpanFetch::TreeForRollout { rollout_id: rollout_id.clone() }
    }
}

fn make_next_fetch(st: &SpanLoad) -> (r: Option<SpanFetch>)
    ensures
        opt_fetch_view(r) == next_fetch(*st),
{
    if st.fetched < st.to_fetch.len() {
        let pid = st.to_fetch[st.fetched];
        if st.rollout_id.unicode_len() == 0 {
            Some(SpanFetch::PidTree { pid, limit: expanded_trace_fetch_limit(st.limit) })
        } else {
            Some(SpanFetch::PidTreeForRollout { pid, rollout_id: st.rollout_id.clone() })
        }
    } else {
        None
    }
}

/// Starts a load: nothing fetched yet; the process list comes first.
pub fn start_load(limit: usize, rollout_id: &str) -> (r: (SpanLoad, SpanFetch))
    ensures
        r.0.limit == limit,
        r.0.rollout_id@ == rollout_id@,
        r.0.processes@.len() == 0,
        r.0.spans@.len() == 0,
        r.0.to_fetch@.len() == 0,
        r.0.fetched == 0,
        r.1@ == FetchView::Processes,
{
    let st = SpanLoad {
        limit,
        rollout_id: crate::text::string_of(rollout_id),
        processes: Vec::new(),
        spans: Vec::new(),
        to_fetch: Vec::new(),
        fetched: 0,
    };
    (st, SpanFetch::Processes)
}

/// The process list came back (`None` when its fetch failed, which counts as
/// no processes); the span tree comes next.
pub fn on_processes(st: SpanLoad, processes: Option<Vec<TraceProcessInfo>>) -> (r: (SpanLoad, SpanFetch))
    ensures
        r.0.processes@ == match processes {
            Some(p) => p@,
            None => Seq::empty(),
        },
        r.0.limit == st.limit,
        r.0.rollout_id@ == st.rollout_id@,
        r.0.spans@ == st.spans@,
        r.0.to_fetch@ == st.to_fetch@,
        r.0.fetched == st.fetched,
        r.1@ == tree_fetch(st.limit, st.rollout_id@),
{
    let mut st = st;
    st.processes = match processes {
        Some(p) => p,
        None => Vec::new(),
    };
    let f = make_tree_fetch(st.limit, &st.rollout_id);
    (st, f)
}

/// The span tree came back: the trees of the listed processes that none of
/// its spans names are fetched next, one by one; none when there is none.
pub fn on_tree(st: SpanLoad, spans: Vec<SpanInfo>) -> (r: (SpanLoad, Option<SpanFetch>))
    ensures
        r.0.spans@ == spans@,
        r.0.to_fetch@ == unfetched(st.processes@, span_pids(spans@)),
        r.0.fetched == 0,
        r.0.limit == st.limit,
        r.0.rollout_id@ == st.rollout_id@,
        r.0.processes@ == st.processes@,
        opt_fetch_view(r.1) == next_fetch(r.0),
{
    let mut st = st;
    let to_fetch = processes_to_fetch(&spans, &st.processes);
    st.spans = spans;
    st.to_fetch = to_fetch;
    st.fetched = 0;
    let f = make_next_fetch(&st);
    (st, f)
}

/// One process tree came back (`None` when its fetch failed, and it is
/// skipped); its spans join the others, and the next process tree is
/// fetched, if any is left.
pub fn on_process_tree(st: SpanLoad, spans: Option<Vec<SpanInfo>>) -> (r: (SpanLoad, Option<SpanFetch>))
    requires
        st.fetched < st.to_fetch@.len(),
    ensures
        r.0.spans@ == match spans {
            Some(more) => st.spans@ + more@,
            None => st.spans@,
        },
        r.0.fetched == st.fetched + 1,
        r.0.to_fetch@ == st.to_fetch@,
        r.0.limit == st.limit,
        r.0.rollout_id@ == st.rollout_id@,
        r.0.processes@ == st.processes@,
        opt_fetch_view(r.1) == next_fetch(r.0),
{
    let mut st = st;
    let _n = st.to_fetch.len();
    match spans {
        Some(more) => {
            let mut more = more;
            st.spans.append(&mut more);
        },
        None => {},
    }
    st.fetched = st.fetched + 1;
    let f = make_next_fetch(&st);
    (st, f)
}

/// Ends a load: the processes, and every span fetched, linked across
/// processes.
pub fn finish_load(st: SpanLoad) -> (r: (Vec<TraceProcessInfo>, Vec<SpanInfo>))
    ensures
        r.0@ == st.processes@,
        linked_from(st.spans@, r.1@),
{
    let SpanLoad { processes, spans, .. } = st;
    (processes, link_cross_process_spans(spans))
}

} // verus!
