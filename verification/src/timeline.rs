//! Timeline rows of the process-timeline view: spans by depth, the batch
//! spans a user can drill into, and lookup of a span by its unique key.

use vstd::prelude::*;
use crate::display::{DisplaySpan, display_data};
use crate::order::{sort_by_key, sorted_by};
use crate::rl_contract::{is_step_parent_span, is_step_parent_span_spec, opt_as_str};
use crate::text::{copy_opt_string, str_eq, string_of};

verus! {

/// A row of the timeline: a span with its depth and duration.
pub struct TimelineSpan {
    pub unique_key: String,
    pub name: String,
    pub display_id: String,
    pub span_id: i64,
    pub kind: Option<String>,
    pub location: Option<String>,
    pub start: i64,
    pub duration: i64,
    pub depth: usize,
    pub process_label: String,
}

pub struct TimelineView {
    pub unique_key: Seq<char>,
    pub name: Seq<char>,
    pub display_id: Seq<char>,
    pub span_id: i64,
    pub kind: Option<Seq<char>>,
    pub location: Option<Seq<char>>,
    pub start: i64,
    pub duration: i64,
    pub depth: int,
    pub process_label: Seq<char>,
}

pub open spec fn timeline_view(t: TimelineSpan) -> TimelineView {
    TimelineView {
        unique_key: t.unique_key@,
        name: t.name@,
        display_id: t.display_id@,
        span_id: t.span_id,
        kind: t.kind.deep_view(),
        location: t.location.deep_view(),
        start: t.start,
        duration: t.duration,
        depth: t.depth as int,
        process_label: t.process_label@,
    }
}

pub open spec fn timeline_views(v: Seq<TimelineSpan>) -> Seq<TimelineView> {
    v.map_values(|t: TimelineSpan| timeline_view(t))
}

/// The row of a span at `depth` lasting `duration`.
pub open spec fn row_at(d: DisplaySpan, depth: int, duration: i64) -> TimelineView {
    TimelineView {
        unique_key: d.unique_key@,
        name: d.name@,
        display_id: d.display_id@,
        span_id: d.span_id,
        kind: d.kind.deep_view(),
        location: d.location.deep_view(),
        start: d.start_timestamp,
        duration,
        depth,
        process_label: d.process_label@,
    }
}

/// How long a span lasted, at least 0 (0 while it runs).
pub open spec fn nonneg_duration(d: DisplaySpan) -> i64 {
    match d.end_timestamp {
        Some(e) => if e - d.start_timestamp > 0 {
            (e - d.start_timestamp) as i64
        } else {
            0
        },
        None => 0,
    }
}

/// Every span of the forest has a duration that fits in an `i64`.
pub open spec fn durations_fit(s: Seq<DisplaySpan>) -> bool
    decreases s,
{
    forall|i: int|
        0 <= i < s.len() ==> (match (#[trigger] s[i]).end_timestamp {
            Some(e) => i64::MIN <= e - s[i].start_timestamp <= i64::MAX,
            None => true,
        }) && durations_fit(s[i].children@)
}

/// The timeline rows of a forest at `depth`: every completed span above
/// `max_depth`, in display order.
pub open spec fn timeline_rows(s: Seq<DisplaySpan>, depth: int, max_depth: int) -> Seq<TimelineView>
    decreases s,
{
    if s.len() == 0 {
        Seq::empty()
    } else {
        let t = s.last();
        timeline_rows(s.drop_last(), depth, max_depth) + (if depth < max_depth && t.end_timestamp is Some {
            seq![row_at(t, depth, nonneg_duration(t))]
        } else {
            Seq::empty()
        }) + timeline_rows(t.children@, depth + 1, max_depth)
    }
}

fn duration_of(span: &DisplaySpan) -> (r: i64)
    requires
        match span.end_timestamp {
            Some(e) => i64::MIN <= e - span.start_timestamp <= i64::MAX,
            None => true,
        },
    ensures
        r == nonneg_duration(*span),
{
    match span.end_timestamp {
        Some(e) => {
            let d = e - span.start_timestamp;
            if d > 0 {
                d
            } else {
                0
            }
        },
        None => 0,
    }
}

fn row_of(span: &DisplaySpan, depth: usize, duration: i64) -> (r: TimelineSpan)
    ensures
        timeline_view(r) == row_at(*span, depth as int, duration),
{
    TimelineSpan {
        unique_key: span.unique_key.clone(),
        name: span.name.clone(),
        display_id: span.display_id.clone(),
        span_id: span.span_id,
        kind: copy_opt_string(&span.kind),
        location: copy_opt_string(&span.location),
        start: span.start_timestamp,
        duration,
        depth,
        process_label: span.process_label.clone(),
    }
}

/// Appends the timeline rows of `spans` at `depth`.
pub fn collect_timeline_spans(spans: &Vec<DisplaySpan>, depth: usize, max_depth: usize, rows: &mut Vec<TimelineSpan>)
    requires
        durations_fit(spans@),
        depth < usize::MAX - crate::display::flat_display(spans@).len(),
    ensures
        timeline_views(final(rows)@) == timeline_views(old(rows)@) + timeline_rows(spans@, depth as int, max_depth as int),
    decreases spans@,
{
    let ghost r0 = rows@;
    let mut i: usize = 0;
    assert(spans@.subrange(0, 0) =~= Seq::<DisplaySpan>::empty());
    assert(timeline_views(r0) + timeline_rows(Seq::<DisplaySpan>::empty(), depth as int, max_depth as int) =~= timeline_views(r0));
    while i < spans.len()
        invariant
            i <= spans@.len(),
            durations_fit(spans@),
            depth < usize::MAX - crate::display::flat_display(spans@).len(),
            timeline_views(rows@) == timeline_views(r0) + timeline_rows(spans@.subrange(0, i as int), depth as int, max_depth as int),
        decreases spans@.len() - i,
    {
        let t = &spans[i];
        let ghost pre = spans@.subrange(0, i as int);
        let ghost r1 = rows@;
        proof {
            let next = spans@.subrange(0, i + 1);
            assert(next.drop_last() =~= pre);
            assert(next.last() == *t);
            crate::display::lemma_flat_display_push(pre, *t);
            crate::display::lemma_flat_display_append(next, spans@.subrange(i + 1, spans@.len() as int));
            assert(spans@ =~= next + spans@.subrange(i + 1, spans@.len() as int));
            assert(crate::display::flat_display_tree(*t) == seq![display_data(*t)] + crate::display::flat_display(t.children@));
        }
        if depth < max_depth && t.end_timestamp.is_some() {
            let d = duration_of(t);
            rows.push(row_of(t, depth, d));
            assert(timeline_views(rows@) =~= timeline_views(r1).push(row_at(*t, depth as int, nonneg_duration(*t))));
        }
        let ghost r2 = rows@;
        collect_timeline_spans(&t.children, depth + 1, max_depth, rows);
        proof {
            let next = spans@.subrange(0, i + 1);
            let own = if depth < max_depth && t.end_timestamp is Some {
                seq![row_at(*t, depth as int, nonneg_duration(*t))]
            } else {
                Seq::<TimelineView>::empty()
            };
            assert(timeline_views(r2) =~= timeline_views(r1) + own);
            assert(timeline_rows(next, depth as int, max_depth as int) == timeline_rows(pre, depth as int, max_depth as int) + own
                + timeline_rows(t.children@, depth + 1, max_depth as int));
            assert(timeline_views(rows@) =~= timeline_views(r0) + timeline_rows(next, depth as int, max_depth as int));
        }
        i += 1;
    }
    assert(spans@.subrange(0, spans@.len() as int) =~= spans@);
}

/// The first span (depth first) whose unique key is `key`.
pub open spec fn find_spec(s: Seq<DisplaySpan>, key: Seq<char>) -> Option<DisplaySpan>
    decreases s,
{
    if s.len() == 0 {
        None
    } else if s[0].unique_key@ == key {
        Some(s[0])
    } else {
        match find_spec(s[0].children@, key) {
            Some(d) => Some(d),
            None => find_spec(s.drop_first(), key),
        }
    }
}

/// The first span (depth first) whose unique key is `unique_key`.
pub fn find_display_span<'a>(spans: &'a Vec<DisplaySpan>, unique_key: &str) -> (r: Option<&'a DisplaySpan>)
    ensures
        match r {
            Some(d) => find_spec(spans@, unique_key@) == Some(*d),
            None => find_spec(spans@, unique_key@) is None,
        },
    decreases spans@,
{
    let mut i: usize = 0;
    assert(spans@.skip(0) =~= spans@);
    while i < spans.len()
        invariant
            i <= spans@.len(),
            find_spec(spans@, unique_key@) == find_spec(spans@.skip(i as int), unique_key@),
        decreases spans@.len() - i,
    {
        let t = &spans[i];
        proof {
            assert(spans@.skip(i as int)[0] == *t);
            assert(spans@.skip(i as int).drop_first() =~= spans@.skip(i + 1));
        }
        if str_eq(t.unique_key.as_str(), unique_key) {
            return Some(t);
        }
        match find_display_span(&t.children, unique_key) {
            Some(d) => {
                return Some(d);
            },
            None => {},
        }
        i += 1;
    }
    assert(spans@.skip(i as int) =~= Seq::<DisplaySpan>::empty());
    None
}

/// The timeline rows to show: those of the selected span's subtree when a
/// batch is selected (none when it is not found), else of every span, ordered
/// by start.
pub open spec fn timeline_selection(spans: Seq<DisplaySpan>, max_depth: int, selected: Seq<char>) -> Seq<TimelineView> {
    if selected.len() == 0 {
        timeline_rows(spans, 0, max_depth)
    } else {
        match find_spec(spans, selected) {
            Some(d) => timeline_rows(seq![d], 0, max_depth),
            None => Seq::empty(),
        }
    }
}

proof fn lemma_find_fits(s: Seq<DisplaySpan>, key: Seq<char>)
    requires
        durations_fit(s),
    ensures
        find_spec(s, key) matches Some(d) ==> durations_fit(seq![d]) && crate::display::flat_display(seq![d]).len()
            <= crate::display::flat_display(s).len(),
    decreases s,
{
    if s.len() > 0 {
        assert(s =~= seq![s[0]] + s.drop_first());
        crate::display::lemma_flat_display_append(seq![s[0]], s.drop_first());
        assert(seq![s[0]].drop_last() =~= Seq::<DisplaySpan>::empty());
        assert(crate::display::flat_display(Seq::<DisplaySpan>::empty()) =~= Seq::empty());
        assert(crate::display::flat_display(seq![s[0]]) =~= crate::display::flat_display_tree(s[0]));
        if s[0].unique_key@ != key {
            lemma_find_fits(s[0].children@, key);
            assert forall|i: int| 0 <= i < s.drop_first().len() implies (match (#[trigger] s.drop_first()[i]).end_timestamp {
                Some(e) => i64::MIN <= e - s.drop_first()[i].start_timestamp <= i64::MAX,
                None => true,
            }) && durations_fit(s.drop_first()[i].children@) by {
                assert(s.drop_first()[i] == s[i + 1]);
            }
            lemma_find_fits(s.drop_first(), key);
            if let Some(d) = find_spec(s[0].children@, key) {
                assert(crate::display::flat_display_tree(s[0]) == seq![display_data(s[0])] + crate::display::flat_display(s[0].children@));
            }
        } else {
            assert(durations_fit(seq![s[0]])) by {
                assert forall|i: int| 0 <= i < 1 implies (match (#[trigger] seq![s[0]][i]).end_timestamp {
                    Some(e) => i64::MIN <= e - seq![s[0]][i].start_timestamp <= i64::MAX,
                    None => true,
                }) && durations_fit(seq![s[0]][i].children@) by {
                    assert(seq![s[0]][i] == s[0]);
                }
            }
        }
    }
}

/// Appends the timeline rows of the tree under `span`, at depth 0.
fn collect_tree_rows(span: &DisplaySpan, max_depth: usize, rows: &mut Vec<TimelineSpan>)
    requires
        durations_fit(seq![*span]),
        crate::display::flat_display(seq![*span]).len() < usize::MAX,
    ensures
        timeline_views(final(rows)@) == timeline_views(old(rows)@) + timeline_rows(seq![*span], 0, max_depth as int),
{
    let ghost one = seq![*span];
    proof {
        assert(one[0] == *span);
        assert(one.drop_last() =~= Seq::<DisplaySpan>::empty());
        assert(one.last() == *span);
        crate::display::lemma_flat_display_push(Seq::<DisplaySpan>::empty(), *span);
        assert(Seq::<DisplaySpan>::empty().push(*span) =~= one);
        assert(crate::display::flat_display(Seq::<DisplaySpan>::empty()) =~= Seq::empty());
        assert(crate::display::flat_display_tree(*span) == seq![display_data(*span)] + crate::display::flat_display(span.children@));
        assert(timeline_rows(Seq::<DisplaySpan>::empty(), 0, max_depth as int) =~= Seq::empty());
    }
    let ghost r1 = rows@;
    if 0 < max_depth && span.end_timestamp.is_some() {
        let d = duration_of(span);
        rows.push(row_of(span, 0, d));
        assert(timeline_views(rows@) =~= timeline_views(r1).push(row_at(*span, 0, nonneg_duration(*span))));
    }
    let ghost r2 = rows@;
    collect_timeline_spans(&span.children, 1, max_depth, rows);
    proof {
        let own = if 0 < max_depth && span.end_timestamp is Some {
            seq![row_at(*span, 0, nonneg_duration(*span))]
        } else {
            Seq::<TimelineView>::empty()
        };
        assert(timeline_views(r2) =~= timeline_views(r1) + own);
        assert(timeline_rows(one, 0, max_depth as int) =~= own + timeline_rows(span.children@, 1, max_depth as int));
        assert(timeline_views(rows@) =~= timeline_views(r1) + timeline_rows(one, 0, max_depth as int));
    }
}

/// Timeline rows in start order; rows starting together keep their order.
pub open spec fn rows_by_start(rows: Seq<TimelineView>) -> Seq<TimelineView> {
    crate::order::stable_sort_by(rows, |t: TimelineView| t.start as int)
}

/// Orders timeline rows by start.
fn sort_rows_by_start(rows: Vec<TimelineSpan>) -> (r: Vec<TimelineSpan>)
    ensures
        timeline_views(r@).to_multiset() == timeline_views(rows@).to_multiset(),
        timeline_views(r@) == rows_by_start(timeline_views(rows@)),
        sorted_by(timeline_views(r@), |t: TimelineView| t.start as int),
{
    let by_start = |t: &TimelineSpan| -> (k: i128)
        ensures
            k == t.start as int,
        { t.start as i128 };
    let ghost r0 = rows@;
    let sorted = sort_by_key(rows, Ghost(|t: TimelineSpan| t.start as int), by_start);
    proof {
        let f = |t: TimelineSpan| timeline_view(t);
        crate::order::lemma_map_multiset(sorted@, r0, f);
        crate::order::lemma_stable_sort_by_map(r0, f, |t: TimelineSpan| t.start as int, |t: TimelineView| t.start as int);
        assert(sorted@.map_values(f) =~= timeline_views(sorted@));
        assert(r0.map_values(f) =~= timeline_views(r0));
        assert forall|i: int, j: int| 0 <= i < j < timeline_views(sorted@).len() implies timeline_views(sorted@)[i].start
            <= timeline_views(sorted@)[j].start by {
            assert(sorted@[i].start <= sorted@[j].start);
        }
    }
    sorted
}

/// The timeline rows to show, ordered by start.
pub fn build_timeline_spans(spans: &Vec<DisplaySpan>, max_depth: usize, selected_batch_key: &str) -> (r: Vec<TimelineSpan>)
    requires
        durations_fit(spans@),
        crate::display::flat_display(spans@).len() < usize::MAX,
    ensures
        timeline_views(r@) == rows_by_start(timeline_selection(spans@, max_depth as int, selected_batch_key@)),
        timeline_views(r@).to_multiset() == timeline_selection(spans@, max_depth as int, selected_batch_key@).to_multiset(),
        sorted_by(timeline_views(r@), |t: TimelineView| t.start as int),
{
    let mut rows: Vec<TimelineSpan> = Vec::new();
    if !selected_batch_key.is_empty() {
        proof {
            lemma_find_fits(spans@, selected_batch_key@);
        }
        match find_display_span(spans, selected_batch_key) {
            Some(selected) => {
                collect_tree_rows(selected, max_depth, &mut rows);
            },
            None => {},
        }
    } else {
        collect_timeline_spans(spans, 0, max_depth, &mut rows);
    }
    assert(timeline_views(rows@) =~= timeline_selection(spans@, max_depth as int, selected_batch_key@));
    sort_rows_by_start(rows)
}

/// A batch span: named `batch`, or a step parent span.
pub open spec fn is_batch_span(d: DisplaySpan) -> bool {
    d.name@ == "batch"@ || is_step_parent_span_spec(d.name@, d.kind.deep_view())
}

/// The rows of the batch spans of a forest, in display order, at depth 0.
pub open spec fn batch_rows(s: Seq<DisplaySpan>) -> Seq<TimelineView>
    decreases s,
{
    if s.len() == 0 {
        Seq::empty()
    } else {
        let t = s.last();
        batch_rows(s.drop_last()) + (if is_batch_span(t) {
            seq![row_at(t, 0, nonneg_duration(t))]
        } else {
            Seq::empty()
        }) + batch_rows(t.children@)
    }
}

/// Appends the rows of the batch spans of `spans`.
pub fn collect_batches(spans: &Vec<DisplaySpan>, rows: &mut Vec<TimelineSpan>)
    requires
        durations_fit(spans@),
    ensures
        timeline_views(final(rows)@) == timeline_views(old(rows)@) + batch_rows(spans@),
    decreases spans@,
{
    let ghost r0 = rows@;
    let mut i: usize = 0;
    assert(spans@.subrange(0, 0) =~= Seq::<DisplaySpan>::empty());
    assert(timeline_views(r0) + batch_rows(Seq::<DisplaySpan>::empty()) =~= timeline_views(r0));
    while i < spans.len()
        invariant
            i <= spans@.len(),
            durations_fit(spans@),
            timeline_views(rows@) == timeline_views(r0) + batch_rows(spans@.subrange(0, i as int)),
        decreases spans@.len() - i,
    {
        let t = &spans[i];
        let ghost pre = spans@.subrange(0, i as int);
        let ghost r1 = rows@;
        proof {
            let next = spans@.subrange(0, i + 1);
            assert(next.drop_last() =~= pre);
            assert(next.last() == *t);
            reveal_strlit("batch");
        }
        let is_batch = str_eq(t.name.as_str(), "batch") || is_step_parent_span(t.name.as_str(), opt_as_str(&t.kind));
        if is_batch {
            let d = duration_of(t);
            rows.push(row_of(t, 0, d));
            assert(timeline_views(rows@) =~= timeline_views(r1).push(row_at(*t, 0, nonneg_duration(*t))));
        }
        let ghost r2 = rows@;
        collect_batches(&t.children, rows);
        proof {
            let next = spans@.subrange(0, i + 1);
            let own = if is_batch_span(*t) {
                seq![row_at(*t, 0, nonneg_duration(*t))]
            } else {
                Seq::<TimelineView>::empty()
            };
            assert(timeline_views(r2) =~= timeline_views(r1) + own);
            assert(batch_rows(next) == batch_rows(pre) + own + batch_rows(t.children@));
            assert(timeline_views(rows@) =~= timeline_views(r0) + batch_rows(next));
        }
        i += 1;
    }
    assert(spans@.subrange(0, spans@.len() as int) =~= spans@);
}

/// The batch spans a user can drill into, ordered by start.
pub fn collect_batch_options(spans: &Vec<DisplaySpan>) -> (r: Vec<TimelineSpan>)
    requires
        durations_fit(spans@),
    ensures
        timeline_views(r@) == rows_by_start(batch_rows(spans@)),
        timeline_views(r@).to_multiset() == batch_rows(spans@).to_multiset(),
        sorted_by(timeline_views(r@), |t: TimelineView| t.start as int),
{
    let mut rows: Vec<TimelineSpan> = Vec::new();
    collect_batches(spans, &mut rows);
    assert(timeline_views(rows@) =~= batch_rows(spans@));
    sort_rows_by_start(rows)
}

/// The first batch option with the given key.
pub open spec fn first_batch(opts: Seq<TimelineView>, key: Seq<char>) -> Option<int>
    decreases opts.len(),
{
    if opts.len() == 0 {
        None
    } else {
        match first_batch(opts.drop_last(), key) {
            Some(i) => Some(i),
            None => if opts.last().unique_key == key {
                Some(opts.len() - 1)
            } else {
                None
            },
        }
    }
}

/// The batch a timeline shows and its label: the current key when some
/// batch option has it, else the empty key (all batches); the label is that
/// option's display id, or `All batches`.
pub open spec fn batch_selection(opts: Seq<TimelineView>, current: Seq<char>) -> (Seq<char>, Seq<char>) {
    let key = if first_batch(opts, current) is Some {
        current
    } else {
        Seq::empty()
    };
    let label = match first_batch(opts, key) {
        Some(i) => opts[i].display_id,
        None => "All batches"@,
    };
    (key, label)
}

proof fn lemma_first_batch_bounds(opts: Seq<TimelineView>, key: Seq<char>)
    ensures
        first_batch(opts, key) matches Some(i) ==> 0 <= i < opts.len() && opts[i].unique_key == key,
    decreases opts.len(),
{
    if opts.len() > 0 {
        lemma_first_batch_bounds(opts.drop_last(), key);
    }
}

fn find_batch(opts: &Vec<TimelineSpan>, key: &str) -> (r: Option<usize>)
    ensures
        match r {
            Some(i) => first_batch(timeline_views(opts@), key@) == Some(i as int) && i < opts@.len(),
            None => first_batch(timeline_views(opts@), key@) is None,
        },
{
    let ghost v = timeline_views(opts@);
    let mut i: usize = 0;
    while i < opts.len()
        invariant
            i <= opts@.len(),
            v == timeline_views(opts@),
            first_batch(v.subrange(0, i as int), key@) is None,
        decreases opts@.len() - i,
    {
        proof {
            assert(v.subrange(0, i + 1).drop_last() =~= v.subrange(0, i as int));
            assert(v[i as int] == timeline_view(opts@[i as int]));
        }
        if str_eq(opts[i].unique_key.as_str(), key) {
            proof {
                lemma_first_batch_prefix(v, key@, i as int);
            }
            return Some(i);
        }
        i += 1;
    }
    assert(v.subrange(0, i as int) =~= v);
    None
}

/// A key found first at position `i` of a prefix is found there in the whole.
proof fn lemma_first_batch_prefix(v: Seq<TimelineView>, key: Seq<char>, i: int)
    requires
        0 <= i < v.len(),
        first_batch(v.subrange(0, i), key) is None,
        v[i].unique_key == key,
    ensures
        first_batch(v, key) == Some(i),
    decreases v.len(),
{
    assert(v.subrange(0, i + 1).drop_last() =~= v.subrange(0, i));
    if i + 1 < v.len() {
        assert(v.drop_last().subrange(0, i) =~= v.subrange(0, i));
        lemma_first_batch_prefix(v.drop_last(), key, i);
    } else {
        assert(v.subrange(0, i + 1) =~= v);
    }
}

/// The batch a timeline shows and its label (see [`batch_selection`]).
pub fn select_batch(opts: &Vec<TimelineSpan>, current: &str) -> (r: (String, String))
    ensures
        (r.0@, r.1@) == batch_selection(timeline_views(opts@), current@),
{
    let ghost v = timeline_views(opts@);
    proof {
        lemma_first_batch_bounds(v, current@);
        lemma_first_batch_bounds(v, Seq::<char>::empty());
    }
    let key = match find_batch(opts, current) {
        Some(_) => string_of(current),
        None => String::new(),
    };
    let label = match find_batch(opts, key.as_str()) {
        Some(i) => {
            proof {
                assert(v[i as int] == timeline_view(opts@[i as int]));
            }
            opts[i].display_id.clone()
        },
        None => string_of("All batches"),
    };
    proof {
        if first_batch(v, key@) is Some {
            let i = first_batch(v, key@)->0;
            assert(v[i] == timeline_view(opts@[i]));
        }
    }
    (key, label)
}

} // verus!
