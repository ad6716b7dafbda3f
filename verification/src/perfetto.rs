//! The Perfetto view of the displayed spans: completed spans as Chrome
//! `X` records, grouped into one process per rollout (or source process) and
//! one track per trajectory, batch or thread.

use vstd::prelude::*;
use crate::display::{DisplayData, DisplaySpan, display_data, flat_display, flat_display_tree, lemma_flat_display_push};
use crate::rl_contract::{attr_spec, attr_string, opt_or};
use crate::chrome::{category, category_of, json_arg, json_arg_of, nonempty, nonempty_of};
use crate::order::lemma_map_multiset;
use crate::order::{
    SortKey, TextPair, key_le, stable_sort_by_key, lemma_stable_sort_by_key_map, lex_le, pair_found, pair_key, pairs_strictly_sorted, sort_by_sort_key, sorted_by_key_le,
    sorted_distinct_pairs, sorted_distinct_texts, string_pair_key,
};
use crate::text::{copy_opt_string, int_text, push_int, push_str, seq_contains, seq_starts_with, str_contains, str_starts_with, string_of};

verus! {

broadcast use vstd::seq_lib::group_to_multiset_ensures;

/// The Perfetto process of a span: `rollout:<id>` for rollout spans, else
/// its process label.
pub open spec fn perfetto_process_label_spec(attributes: Option<Seq<char>>, process_label: Seq<char>) -> Seq<char> {
    match attr_spec(attributes, "rollout_id"@) {
        Some(r) => "rollout:"@ + r,
        None => process_label,
    }
}

/// The Perfetto process of a span.
pub fn perfetto_process_label(span: &DisplaySpan) -> (r: String)
    ensures
        r@ == perfetto_process_label_spec(span.attributes.deep_view(), span.process_label@),
{
    match attr_string(&span.attributes, "rollout_id") {
        Some(r) => {
            let mut s = string_of("rollout:");
            push_str(&mut s, r.as_str());
            s
        },
        None => span.process_label.clone(),
    }
}

/// The trajectory a span belongs to: its `trajectory_id`, else `sample_id`,
/// else `group:<group_id>/sample:<group_index>`.
pub open spec fn trajectory_spec(attributes: Option<Seq<char>>) -> Option<Seq<char>> {
    match opt_or(attr_spec(attributes, "trajectory_id"@), attr_spec(attributes, "sample_id"@)) {
        Some(t) => Some(t),
        None => match (attr_spec(attributes, "group_id"@), attr_spec(attributes, "group_index"@)) {
            (Some(g), Some(i)) => Some("group:"@ + g + "/sample:"@ + i),
            _ => None,
        },
    }
}

/// The Perfetto track of a span: its rollout and trajectory (or the rollout's
/// control track, or the rollout alone), else its train batch, else its
/// process and thread.
pub open spec fn perfetto_track_label_spec(d: DisplayData) -> Seq<char> {
    let attrs = d.source.attributes;
    match attr_spec(attrs, "rollout_id"@) {
        Some(r) => match trajectory_spec(attrs) {
            Some(t) => "rollout:"@ + r + " / "@ + t,
            None => if seq_starts_with(d.source.name, "rollout."@) || (match d.source.kind {
                Some(k) => seq_contains(k, "rollout"@),
                None => false,
            }) {
                "rollout:"@ + r + " / control"@
            } else {
                "rollout:"@ + r
            },
        },
        None => match opt_or(attr_spec(attrs, "batch_id"@), attr_spec(attrs, "train_step_id"@)) {
            Some(b) => "train:"@ + b,
            None => d.process_label + " / thread:"@ + int_text(d.source.thread_id as int),
        },
    }
}

/// Each trajectory of a rollout gets its own Perfetto track: a span with a
/// rollout id `r` is shown on track `rollout:<r> / <t>`, where `t` is its
/// trajectory id, or, without one, its sample id.
pub proof fn lemma_track_per_trajectory(d: DisplayData)
    ensures
        attr_spec(d.source.attributes, "rollout_id"@) matches Some(r) ==> (
            attr_spec(d.source.attributes, "trajectory_id"@) matches Some(t)
                ==> perfetto_track_label_spec(d) == "rollout:"@ + r + " / "@ + t),
        attr_spec(d.source.attributes, "rollout_id"@) matches Some(r) ==> (
            attr_spec(d.source.attributes, "trajectory_id"@) is None
                ==> (attr_spec(d.source.attributes, "sample_id"@) matches Some(s)
                ==> perfetto_track_label_spec(d) == "rollout:"@ + r + " / "@ + s)),
{
}

/// Two spans of one rollout with different sample ids (and no trajectory
/// ids) are shown on different tracks.
pub proof fn lemma_samples_get_own_tracks(a: DisplayData, b: DisplayData)
    requires
        attr_spec(a.source.attributes, "rollout_id"@) is Some,
        attr_spec(a.source.attributes, "rollout_id"@) == attr_spec(b.source.attributes, "rollout_id"@),
        attr_spec(a.source.attributes, "trajectory_id"@) is None,
        attr_spec(b.source.attributes, "trajectory_id"@) is None,
        attr_spec(a.source.attributes, "sample_id"@) is Some,
        attr_spec(b.source.attributes, "sample_id"@) is Some,
        attr_spec(a.source.attributes, "sample_id"@) != attr_spec(b.source.attributes, "sample_id"@),
    ensures
        perfetto_track_label_spec(a) != perfetto_track_label_spec(b),
{
    lemma_track_per_trajectory(a);
    lemma_track_per_trajectory(b);
    let r = attr_spec(a.source.attributes, "rollout_id"@)->0;
    let pre = "rollout:"@ + r + " / "@;
    let sa = attr_spec(a.source.attributes, "sample_id"@)->0;
    let sb = attr_spec(b.source.attributes, "sample_id"@)->0;
    assert(perfetto_track_label_spec(a) =~= pre + sa);
    assert(perfetto_track_label_spec(b) =~= pre + sb);
    if pre + sa == pre + sb {
        assert((pre + sa).skip(pre.len() as int) =~= sa);
        assert((pre + sb).skip(pre.len() as int) =~= sb);
    }
}

fn trajectory_of(attributes: &Option<String>) -> (r: Option<String>)
    ensures
        r.deep_view() == trajectory_spec(attributes.deep_view()),
{
    if let Some(t) = attr_string(attributes, "trajectory_id") {
        return Some(t);
    }
    if let Some(t) = attr_string(attributes, "sample_id") {
        return Some(t);
    }
    let g = match attr_string(attributes, "group_id") {
        Some(g) => g,
        None => return None,
    };
    let i = match attr_string(attributes, "group_index") {
        Some(i) => i,
        None => return None,
    };
    let mut s = string_of("group:");
    push_str(&mut s, g.as_str());
    push_str(&mut s, "/sample:");
    push_str(&mut s, i.as_str());
    proof {
        reveal_strlit("/sample:");
    }
    assert(s@ =~= "group:"@ + g@ + "/sample:"@ + i@);
    Some(s)
}

/// The Perfetto track of a span.
pub fn perfetto_track_label(span: &DisplaySpan) -> (r: String)
    ensures
        r@ == perfetto_track_label_spec(display_data(*span)),
{
    proof {
        reveal_strlit(" / ");
        reveal_strlit(" / control");
        reveal_strlit(" / thread:");
    }
    if let Some(r) = attr_string(&span.attributes, "rollout_id") {
        let mut s = string_of("rollout:");
        push_str(&mut s, r.as_str());
        if let Some(t) = trajectory_of(&span.attributes) {
            push_str(&mut s, " / ");
            push_str(&mut s, t.as_str());
            assert(s@ =~= "rollout:"@ + r@ + " / "@ + t@);
            return s;
        }
        let control = str_starts_with(span.name.as_str(), "rollout.") || match &span.kind {
            Some(k) => str_contains(k.as_str(), "rollout"),
            None => false,
        };
        if control {
            push_str(&mut s, " / control");
            assert(s@ =~= "rollout:"@ + r@ + " / control"@);
        }
        return s;
    }
    let batch = match attr_string(&span.attributes, "batch_id") {
        Some(b) => Some(b),
        None => attr_string(&span.attributes, "train_step_id"),
    };
    if let Some(b) = batch {
        let mut s = string_of("train:");
        push_str(&mut s, b.as_str());
        return s;
    }
    let mut s = span.process_label.clone();
    push_str(&mut s, " / thread:");
    push_int(&mut s, span.thread_id);
    assert(s@ =~= span.process_label@ + " / thread:"@ + int_text(span.thread_id as int));
    s
}

/// A completed span as the Perfetto view lays it out.
pub struct PerfettoRow {
    pub name: String,
    pub kind: Option<String>,
    pub span_id: i64,
    pub trace_id: i64,
    pub parent_id: Option<i64>,
    pub start: i64,
    pub end: i64,
    pub location: Option<String>,
    pub attributes: Option<String>,
    pub process_label: String,
    pub perfetto_process: String,
    pub track: String,
}

pub struct RowView {
    pub name: Seq<char>,
    pub kind: Option<Seq<char>>,
    pub span_id: i64,
    pub trace_id: i64,
    pub parent_id: Option<i64>,
    pub start: i64,
    pub end: i64,
    pub location: Option<Seq<char>>,
    pub attributes: Option<Seq<char>>,
    pub process_label: Seq<char>,
    pub perfetto_process: Seq<char>,
    pub track: Seq<char>,
}

pub open spec fn row_view(r: PerfettoRow) -> RowView {
    RowView {
        name: r.name@,
        kind: r.kind.deep_view(),
        span_id: r.span_id,
        trace_id: r.trace_id,
        parent_id: r.parent_id,
        start: r.start,
        end: r.end,
        location: r.location.deep_view(),
        attributes: r.attributes.deep_view(),
        process_label: r.process_label@,
        perfetto_process: r.perfetto_process@,
        track: r.track@,
    }
}

pub open spec fn rows_view(v: Seq<PerfettoRow>) -> Seq<RowView> {
    v.map_values(|r: PerfettoRow| row_view(r))
}

/// The row of a completed display span.
pub open spec fn row_of(x: DisplayData) -> RowView {
    RowView {
        name: x.source.name,
        kind: x.source.kind,
        span_id: x.source.span_id,
        trace_id: x.source.trace_id,
        parent_id: x.source.parent_id,
        start: x.source.start_timestamp,
        end: x.source.end_timestamp->0,
        location: x.source.location,
        attributes: x.source.attributes,
        process_label: x.process_label,
        perfetto_process: perfetto_process_label_spec(x.source.attributes, x.process_label),
        track: perfetto_track_label_spec(x),
    }
}

/// The rows of the completed spans, in display order.
pub open spec fn complete_rows(flat: Seq<DisplayData>) -> Seq<RowView>
    decreases flat.len(),
{
    if flat.len() == 0 {
        Seq::empty()
    } else {
        let x = flat.last();
        complete_rows(flat.drop_last()) + if x.source.end_timestamp is Some {
            seq![row_of(x)]
        } else {
            Seq::empty()
        }
    }
}

proof fn lemma_complete_rows_append(a: Seq<DisplayData>, b: Seq<DisplayData>)
    ensures
        complete_rows(a + b) == complete_rows(a) + complete_rows(b),
    decreases b.len(),
{
    if b.len() == 0 {
        assert(a + b =~= a);
        assert(complete_rows(a) + complete_rows(b) =~= complete_rows(a));
    } else {
        lemma_complete_rows_append(a, b.drop_last());
        assert((a + b).drop_last() =~= a + b.drop_last());
        assert((a + b).last() == b.last());
        assert(complete_rows(a + b) =~= complete_rows(a) + complete_rows(b));
    }
}

/// Appends the rows of the completed spans of `spans`, in display order.
fn collect_rows(spans: &Vec<DisplaySpan>, out: &mut Vec<PerfettoRow>)
    ensures
        rows_view(final(out)@) == rows_view(old(out)@) + complete_rows(flat_display(spans@)),
    decreases flat_display(spans@).len(),
{
    let ghost out0 = out@;
    let mut i: usize = 0;
    assert(flat_display(spans@.subrange(0, 0)) =~= Seq::<DisplayData>::empty());
    assert(rows_view(out0) + complete_rows(Seq::<DisplayData>::empty()) =~= rows_view(out0));
    while i < spans.len()
        invariant
            i <= spans@.len(),
            rows_view(out@) == rows_view(out0) + complete_rows(flat_display(spans@.subrange(0, i as int))),
        decreases spans@.len() - i,
    {
        let t = &spans[i];
        let ghost pre = spans@.subrange(0, i as int);
        let ghost o1 = out@;
        proof {
            assert(spans@.subrange(0, i + 1) =~= pre.push(*t));
            lemma_flat_display_push(pre, *t);
            crate::display::lemma_flat_display_append(spans@.subrange(0, i + 1), spans@.subrange(i + 1, spans@.len() as int));
            assert(spans@ =~= spans@.subrange(0, i + 1) + spans@.subrange(i + 1, spans@.len() as int));
            assert(flat_display_tree(*t) == seq![display_data(*t)] + flat_display(t.children@));
            lemma_complete_rows_append(flat_display(pre), flat_display_tree(*t));
            lemma_complete_rows_append(seq![display_data(*t)], flat_display(t.children@));
            assert(seq![display_data(*t)].drop_last() =~= Seq::<DisplayData>::empty());
            assert(complete_rows(Seq::<DisplayData>::empty()) =~= Seq::<RowView>::empty());
            assert(complete_rows(seq![display_data(*t)]) =~= if t.end_timestamp is Some {
                seq![row_of(display_data(*t))]
            } else {
                Seq::<RowView>::empty()
            });
        }
        if let Some(end) = t.end_timestamp {
            let row = PerfettoRow {
                name: t.name.clone(),
                kind: copy_opt_string(&t.kind),
                span_id: t.span_id,
                trace_id: t.trace_id,
                parent_id: t.parent_id,
                start: t.start_timestamp,
                end,
                location: copy_opt_string(&t.location),
                attributes: copy_opt_string(&t.attributes),
                process_label: t.process_label.clone(),
                perfetto_process: perfetto_process_label(t),
                track: perfetto_track_label(t),
            };
            out.push(row);
            assert(rows_view(out@) =~= rows_view(o1).push(row_of(display_data(*t))));
        }
        assert(rows_view(out@) =~= rows_view(o1) + complete_rows(seq![display_data(*t)]));
        collect_rows(&t.children, out);
        assert(rows_view(out@) =~= rows_view(out0) + complete_rows(flat_display(spans@.subrange(0, i + 1))));
        i += 1;
    }
    assert(spans@.subrange(0, spans@.len() as int) =~= spans@);
}

/// The order of the Perfetto rows: by start, longer spans first.
pub open spec fn row_key(r: RowView) -> SortKey {
    SortKey { rank: r.start * 0x4_0000_0000_0000_0000 - (r.end - r.start), first: Seq::empty(), second: Seq::empty() }
}

/// The rows by start, longer first among equal starts; rows equal in both
/// keep their order.
pub open spec fn row_order(rows: Seq<RowView>) -> Seq<RowView> {
    stable_sort_by_key(rows, |r: RowView| row_key(r))
}

pub open spec fn perfetto_row_key(r: PerfettoRow) -> SortKey {
    row_key(row_view(r))
}

fn row_le(a: &PerfettoRow, b: &PerfettoRow) -> (r: bool)
    ensures
        r == key_le(perfetto_row_key(*a), perfetto_row_key(*b)),
{
    proof {
        crate::order::lemma_lex_refl(Seq::<char>::empty());
    }
    let da = a.end as i128 - a.start as i128;
    let db = b.end as i128 - b.start as i128;
    a.start < b.start || (a.start == b.start && da >= db)
}

/// A span record of the Perfetto trace.
pub struct PerfettoSpan {
    pub name: String,
    pub cat: String,
    pub ts: i64,
    pub dur: i64,
    pub pid: i64,
    pub tid: i64,
    pub span_id: i64,
    pub trace_id: i64,
    pub process: String,
    pub perfetto_process: String,
    pub track: String,
    pub parent_id: Option<i64>,
    pub location: Option<String>,
    pub attributes: Option<String>,
}

/// A record of the Perfetto trace: process and track names, then spans
/// (Chrome `X` records). Times are microseconds.
pub enum PerfettoRecord {
    ProcessName { pid: i64, name: String },
    ThreadName { pid: i64, tid: i64, name: String },
    Span(PerfettoSpan),
}

pub struct SpanRecordView {
    pub name: Seq<char>,
    pub cat: Seq<char>,
    pub ts: i64,
    pub dur: i64,
    pub pid: i64,
    pub tid: i64,
    pub span_id: i64,
    pub trace_id: i64,
    pub process: Seq<char>,
    pub perfetto_process: Seq<char>,
    pub track: Seq<char>,
    pub parent_id: Option<i64>,
    pub location: Option<Seq<char>>,
    pub attributes: Option<Seq<char>>,
}

pub enum PerfettoView {
    ProcessName { pid: i64, name: Seq<char> },
    ThreadName { pid: i64, tid: i64, name: Seq<char> },
    Span(SpanRecordView),
}

pub open spec fn perfetto_view(r: PerfettoRecord) -> PerfettoView {
    match r {
        PerfettoRecord::ProcessName { pid, name } => PerfettoView::ProcessName { pid, name: name@ },
        PerfettoRecord::ThreadName { pid, tid, name } => PerfettoView::ThreadName { pid, tid, name: name@ },
        PerfettoRecord::Span(s) => PerfettoView::Span(
            SpanRecordView {
                name: s.name@,
                cat: s.cat@,
                ts: s.ts,
                dur: s.dur,
                pid: s.pid,
                tid: s.tid,
                span_id: s.span_id,
                trace_id: s.trace_id,
                process: s.process@,
                perfetto_process: s.perfetto_process@,
                track: s.track@,
                parent_id: s.parent_id,
                location: s.location.deep_view(),
                attributes: s.attributes.deep_view(),
            },
        ),
    }
}

pub open spec fn perfetto_views(v: Seq<PerfettoRecord>) -> Seq<PerfettoView> {
    v.map_values(|r: PerfettoRecord| perfetto_view(r))
}

/// Where `x` stands in `s`.
pub open spec fn position<T>(s: Seq<T>, x: T) -> int {
    choose|i: int| 0 <= i < s.len() && s[i] == x
}

/// The span record of a row, with the process and track ids its labels have.
pub open spec fn span_record(r: RowView, procs: Seq<Seq<char>>, tracks: Seq<(Seq<char>, Seq<char>)>, min: i64) -> PerfettoView {
    PerfettoView::Span(
        SpanRecordView {
            name: r.name,
            cat: category(r.kind),
            ts: ((r.start - min) / 1000) as i64,
            dur: (if r.end - r.start > 0 { (r.end - r.start) / 1000 } else { 0 }) as i64,
            pid: (position(procs, r.perfetto_process) + 1) as i64,
            tid: (position(tracks, (r.perfetto_process, r.track)) + 1) as i64,
            span_id: r.span_id,
            trace_id: r.trace_id,
            process: r.process_label,
            perfetto_process: r.perfetto_process,
            track: r.track,
            parent_id: r.parent_id,
            location: nonempty(r.location),
            attributes: json_arg(r.attributes),
        },
    )
}

/// The Perfetto trace of rows in their order, given the process list and the
/// track list: a name record per process (ids from 1), a name record per
/// track (ids from 1), then a span record per row.
pub open spec fn perfetto_spec(rows: Seq<RowView>, procs: Seq<Seq<char>>, tracks: Seq<(Seq<char>, Seq<char>)>) -> Seq<PerfettoView> {
    let min = if rows.len() > 0 { rows[0].start } else { 0 };
    Seq::new(procs.len(), |i: int| PerfettoView::ProcessName { pid: (i + 1) as i64, name: procs[i] }) + Seq::new(
        tracks.len(),
        |i: int| PerfettoView::ThreadName { pid: (position(procs, tracks[i].0) + 1) as i64, tid: (i + 1) as i64, name: tracks[i].1 },
    ) + rows.map_values(|r: RowView| span_record(r, procs, tracks, min))
}

/// Some entry of `procs` is `x`.
pub open spec fn text_listed(x: Seq<char>, procs: Seq<Seq<char>>) -> bool {
    exists|i: int| 0 <= i < procs.len() && #[trigger] procs[i] == x
}

/// Some row has the Perfetto process `x`.
pub open spec fn process_of_some_row(x: Seq<char>, rows: Seq<RowView>) -> bool {
    exists|j: int| 0 <= j < rows.len() && (#[trigger] rows[j]).perfetto_process == x
}

/// Some entry of `tracks` is `x`.
pub open spec fn track_listed(x: (Seq<char>, Seq<char>), tracks: Seq<(Seq<char>, Seq<char>)>) -> bool {
    exists|i: int| 0 <= i < tracks.len() && #[trigger] tracks[i] == x
}

/// Some row has the (Perfetto process, track) pair `x`.
pub open spec fn track_of_some_row(x: (Seq<char>, Seq<char>), rows: Seq<RowView>) -> bool {
    exists|j: int| 0 <= j < rows.len() && ((#[trigger] rows[j]).perfetto_process, rows[j].track) == x
}

/// How the rows are laid out: `sorted` orders them by start (longer first),
/// `procs` lists their Perfetto processes and `tracks` their (process,
/// track) pairs, each once and in increasing order.
pub open spec fn perfetto_layout(
    rows: Seq<RowView>,
    sorted: Seq<RowView>,
    procs: Seq<Seq<char>>,
    tracks: Seq<(Seq<char>, Seq<char>)>,
) -> bool {
    &&& sorted.to_multiset() == rows.to_multiset()
    &&& forall|i: int, j: int| 0 <= i < j < sorted.len() ==> key_le(#[trigger] row_key(sorted[i]), #[trigger] row_key(sorted[j]))
    &&& forall|i: int, j: int| 0 <= i < j < procs.len() ==> lex_le(#[trigger] procs[i], #[trigger] procs[j]) && procs[i] != procs[j]
    &&& forall|i: int| 0 <= i < procs.len() ==> process_of_some_row(#[trigger] procs[i], sorted)
    &&& forall|j: int| 0 <= j < sorted.len() ==> text_listed((#[trigger] sorted[j]).perfetto_process, procs)
    &&& forall|i: int, j: int| 0 <= i < j < tracks.len() ==> key_le(#[trigger] pair_key(tracks[i].0, tracks[i].1), #[trigger] pair_key(tracks[j].0, tracks[j].1))
        && tracks[i] != tracks[j]
    &&& forall|i: int| 0 <= i < tracks.len() ==> track_of_some_row(#[trigger] tracks[i], sorted)
    &&& forall|j: int| 0 <= j < sorted.len() ==> track_listed(((#[trigger] sorted[j]).perfetto_process, sorted[j].track), tracks)
}

/// Span times that fit the arithmetic: every duration, and every distance
/// between two starts, fits in an `i64`.
pub open spec fn rows_time_ok(rows: Seq<RowView>) -> bool {
    &&& forall|i: int| 0 <= i < rows.len() ==> i64::MIN <= (#[trigger] rows[i]).end - rows[i].start <= i64::MAX
    &&& forall|i: int, j: int| 0 <= i < rows.len() && 0 <= j < rows.len() ==> (#[trigger] rows[i]).start - (#[trigger] rows[j]).start <= i64::MAX
}

pub open spec fn text_views(v: Seq<String>) -> Seq<Seq<char>> {
    v.map_values(|t: String| t@)
}

pub open spec fn pair_views(v: Seq<TextPair>) -> Seq<(Seq<char>, Seq<char>)> {
    v.map_values(|p: TextPair| (p.first@, p.second@))
}

proof fn lemma_position<T>(s: Seq<T>, x: T, r: int)
    requires
        forall|i: int, j: int| 0 <= i < j < s.len() ==> #[trigger] s[i] != #[trigger] s[j],
        0 <= r < s.len(),
        s[r] == x,
    ensures
        position(s, x) == r,
{
    let p = position(s, x);
    assert(0 <= p < s.len() && s[p] == x);
    if p < r {
        assert(s[p] != s[r]);
    } else if p > r {
        assert(s[r] != s[p]);
    }
}

/// Where the text `x` stands in `list`.
fn find_text(list: &Vec<String>, x: &String) -> (r: usize)
    requires
        text_listed(x@, text_views(list@)),
    ensures
        r < list@.len(),
        list@[r as int]@ == x@,
{
    let mut i: usize = 0;
    while i < list.len()
        invariant
            i <= list@.len(),
            text_listed(x@, text_views(list@)),
            forall|k: int| 0 <= k < i ==> (#[trigger] list@[k])@ != x@,
        decreases list@.len() - i,
    {
        if crate::order::compare_text(list[i].as_str(), x.as_str()) == 0 {
            return i;
        }
        i += 1;
    }
    proof {
        let k = choose|k: int| 0 <= k < text_views(list@).len() && #[trigger] text_views(list@)[k] == x@;
        assert(list@[k]@ == x@);
    }
    0
}

/// Where the pair (`a`, `b`) stands in `list`.
fn find_pair(list: &Vec<TextPair>, a: &String, b: &String) -> (r: usize)
    requires
        track_listed((a@, b@), pair_views(list@)),
    ensures
        r < list@.len(),
        (list@[r as int].first@, list@[r as int].second@) == (a@, b@),
{
    let mut i: usize = 0;
    while i < list.len()
        invariant
            i <= list@.len(),
            track_listed((a@, b@), pair_views(list@)),
            forall|k: int| 0 <= k < i ==> ((#[trigger] list@[k]).first@, list@[k].second@) != (a@, b@),
        decreases list@.len() - i,
    {
        if crate::order::compare_text(list[i].first.as_str(), a.as_str()) == 0
            && crate::order::compare_text(list[i].second.as_str(), b.as_str()) == 0 {
            return i;
        }
        i += 1;
    }
    proof {
        let k = choose|k: int| 0 <= k < pair_views(list@).len() && #[trigger] pair_views(list@)[k] == (a@, b@);
        assert((list@[k].first@, list@[k].second@) == (a@, b@));
    }
    0
}

proof fn lemma_perm_member<T>(a: Seq<T>, b: Seq<T>, k: int)
    requires
        a.to_multiset() == b.to_multiset(),
        0 <= k < a.len(),
    ensures
        exists|m: int| 0 <= m < b.len() && b[m] == a[k],
{
    assert(a.to_multiset().count(a[k]) > 0);
    assert(b.contains(a[k]));
}

proof fn lemma_start_order(a: RowView, b: RowView)
    requires
        key_le(row_key(a), row_key(b)),
    ensures
        a.start <= b.start,
{
}

/// Facts about the sorted rows that the records need.
proof fn lemma_sorted_rows_time(rv: Seq<RowView>, sv: Seq<RowView>)
    requires
        rows_time_ok(rv),
        sv.to_multiset() == rv.to_multiset(),
        sv.len() > 0,
        forall|i: int, j: int| 0 <= i < j < sv.len() ==> key_le(#[trigger] row_key(sv[i]), #[trigger] row_key(sv[j])),
    ensures
        forall|k: int| 0 <= k < sv.len() ==> sv[0].start <= (#[trigger] sv[k]).start && sv[k].start - sv[0].start <= i64::MAX
            && i64::MIN <= sv[k].end - sv[k].start <= i64::MAX,
{
    assert forall|k: int| 0 <= k < sv.len() implies sv[0].start <= (#[trigger] sv[k]).start && sv[k].start - sv[0].start <= i64::MAX
        && i64::MIN <= sv[k].end - sv[k].start <= i64::MAX by {
        if k > 0 {
            lemma_start_order(sv[0], sv[k]);
        }
        lemma_perm_member(sv, rv, k);
        lemma_perm_member(sv, rv, 0);
        let m = choose|m: int| 0 <= m < rv.len() && rv[m] == sv[k];
        let n = choose|n: int| 0 <= n < rv.len() && rv[n] == sv[0];
        assert(rv[m].start - rv[n].start <= i64::MAX);
        assert(i64::MIN <= rv[m].end - rv[m].start <= i64::MAX);
    }
}

/// The Perfetto trace of the completed spans of a display forest (none when
/// no span has completed).
#[verifier::spinoff_prover]
#[verifier::rlimit(50)]
pub fn build_perfetto_records(spans: &Vec<DisplaySpan>) -> (r: Option<Vec<PerfettoRecord>>)
    requires
        rows_time_ok(complete_rows(flat_display(spans@))),
    ensures
        r is None <==> complete_rows(flat_display(spans@)).len() == 0,
        r matches Some(recs) ==> exists|procs: Seq<Seq<char>>, tracks: Seq<(Seq<char>, Seq<char>)>|
            #![trigger perfetto_spec(row_order(complete_rows(flat_display(spans@))), procs, tracks)]
            perfetto_layout(
                complete_rows(flat_display(spans@)),
                row_order(complete_rows(flat_display(spans@))),
                procs,
                tracks,
            ) && perfetto_views(recs@) == perfetto_spec(row_order(complete_rows(flat_display(spans@))), procs, tracks),
{
    let mut rows: Vec<PerfettoRow> = Vec::new();
    collect_rows(spans, &mut rows);
    let ghost rv = complete_rows(flat_display(spans@));
    assert(rows_view(rows@) =~= rv);
    if rows.len() == 0 {
        return None;
    }
    let ghost key = |r: PerfettoRow| perfetto_row_key(r);
    let le = |a: &PerfettoRow, b: &PerfettoRow| -> (r: bool)
        ensures
            r == key_le(perfetto_row_key(*a), perfetto_row_key(*b)),
        { row_le(a, b) };
    let ghost r0 = rows@;
    let sorted = sort_by_sort_key(rows, Ghost(key), le);
    let ghost sv = rows_view(sorted@);
    proof {
        let f = |r: PerfettoRow| row_view(r);
        lemma_map_multiset(sorted@, r0, f);
        assert(sorted@.map_values(f) =~= sv);
        assert(r0.map_values(f) =~= rv);
        lemma_stable_sort_by_key_map(r0, f, key, |r: RowView| row_key(r));
        assert(sv == row_order(rv));
        assert forall|i: int, j: int| 0 <= i < j < sv.len() implies key_le(#[trigger] row_key(sv[i]), #[trigger] row_key(sv[j])) by {
            assert(key_le(key(sorted@[i]), key(sorted@[j])));
        }
        lemma_sorted_rows_time(rv, sv);
    }
    let mut texts: Vec<String> = Vec::new();
    let mut pairs: Vec<TextPair> = Vec::new();
    let mut k: usize = 0;
    while k < sorted.len()
        invariant
            k <= sorted@.len(),
            sv == rows_view(sorted@),
            texts@.len() == k,
            pairs@.len() == k,
            forall|m: int| 0 <= m < k ==> (#[trigger] texts@[m])@ == sv[m].perfetto_process,
            forall|m: int| 0 <= m < k ==> ((#[trigger] pairs@[m]).first@, pairs@[m].second@) == (sv[m].perfetto_process, sv[m].track),
        decreases sorted@.len() - k,
    {
        texts.push(sorted[k].perfetto_process.clone());
        pairs.push(TextPair { first: sorted[k].perfetto_process.clone(), second: sorted[k].track.clone() });
        k += 1;
    }
    let ghost tx = texts@;
    let ghost px = pairs@;
    let procs = sorted_distinct_texts(texts);
    let tracks = sorted_distinct_pairs(pairs);
    let ghost pv = text_views(procs@);
    let ghost tv = pair_views(tracks@);
    proof {
        assert forall|i: int, j: int| 0 <= i < j < pv.len() implies lex_le(#[trigger] pv[i], #[trigger] pv[j]) && pv[i] != pv[j] by {
            assert(lex_le(procs@[i]@, procs@[j]@) && procs@[i]@ != procs@[j]@);
        }
        assert forall|i: int| 0 <= i < pv.len() implies process_of_some_row(#[trigger] pv[i], sv) by {
            let j = choose|j: int| 0 <= j < tx.len() && procs@[i]@ == tx[j]@;
            assert(sv[j].perfetto_process == pv[i]);
        }
        assert forall|j: int| 0 <= j < sv.len() implies text_listed((#[trigger] sv[j]).perfetto_process, pv) by {
            assert(tx[j]@ == sv[j].perfetto_process);
            let i = choose|i: int| 0 <= i < procs@.len() && procs@[i]@ == tx[j]@;
            assert(pv[i] == sv[j].perfetto_process);
        }
        assert forall|i: int, j: int| 0 <= i < j < tv.len() implies key_le(#[trigger] pair_key(tv[i].0, tv[i].1), #[trigger] pair_key(tv[j].0, tv[j].1))
            && tv[i] != tv[j] by {
            assert(key_le(string_pair_key(tracks@[i]), string_pair_key(tracks@[j])) && string_pair_key(tracks@[i]) != string_pair_key(tracks@[j]));
        }
        assert forall|i: int| 0 <= i < tv.len() implies track_of_some_row(#[trigger] tv[i], sv) by {
            assert(pair_found(tracks@[i], px));
            let j = choose|j: int| 0 <= j < px.len() && string_pair_key(#[trigger] px[j]) == string_pair_key(tracks@[i]);
            assert((sv[j].perfetto_process, sv[j].track) == tv[i]);
        }
        assert forall|j: int| 0 <= j < sv.len() implies track_listed(((#[trigger] sv[j]).perfetto_process, sv[j].track), tv) by {
            assert(pair_found(px[j], tracks@));
            let i = choose|i: int| 0 <= i < tracks@.len() && string_pair_key(#[trigger] tracks@[i]) == string_pair_key(px[j]);
            assert(tv[i] == (sv[j].perfetto_process, sv[j].track));
        }
        assert(perfetto_layout(rv, sv, pv, tv));
    }
    let min = sorted[0].start;
    let mut out: Vec<PerfettoRecord> = Vec::new();
    let ghost head = Seq::new(pv.len(), |i: int| PerfettoView::ProcessName { pid: (i + 1) as i64, name: pv[i] });
    let mut i: usize = 0;
    while i < procs.len()
        invariant
            i <= procs@.len(),
            pv == text_views(procs@),
            head == Seq::new(pv.len(), |i: int| PerfettoView::ProcessName { pid: (i + 1) as i64, name: pv[i] }),
            perfetto_views(out@) == head.subrange(0, i as int),
        decreases procs@.len() - i,
    {
        let ghost o0 = out@;
        out.push(PerfettoRecord::ProcessName { pid: (i + 1) as i64, name: procs[i].clone() });
        proof {
            assert(perfetto_views(out@) =~= perfetto_views(o0).push(perfetto_view(out@.last())));
            assert(head.subrange(0, i + 1) =~= head.subrange(0, i as int).push(head[i as int]));
            assert(perfetto_view(out@.last()) == head[i as int]);
        }
        i += 1;
    }
    assert(head.subrange(0, pv.len() as int) =~= head);
    let ghost mid = Seq::new(
        tv.len(),
        |i: int| PerfettoView::ThreadName { pid: (position(pv, tv[i].0) + 1) as i64, tid: (i + 1) as i64, name: tv[i].1 },
    );
    let mut i: usize = 0;
    while i < tracks.len()
        invariant
            i <= tracks@.len(),
            pv == text_views(procs@),
            tv == pair_views(tracks@),
            perfetto_layout(rv, sv, pv, tv),
            mid == Seq::new(
                tv.len(),
                |i: int| PerfettoView::ThreadName { pid: (position(pv, tv[i].0) + 1) as i64, tid: (i + 1) as i64, name: tv[i].1 },
            ),
            perfetto_views(out@) == head + mid.subrange(0, i as int),
        decreases tracks@.len() - i,
    {
        proof {
            assert(track_of_some_row(tv[i as int], sv));
            let j = choose|j: int| 0 <= j < sv.len() && ((#[trigger] sv[j]).perfetto_process, sv[j].track) == tv[i as int];
            assert(text_listed(sv[j].perfetto_process, pv));
        }
        let p = find_text(&procs, &tracks[i].first);
        let _np = procs.len();
        proof {
            lemma_position(pv, tv[i as int].0, p as int);
        }
        let ghost o0 = out@;
        out.push(PerfettoRecord::ThreadName { pid: (p + 1) as i64, tid: (i + 1) as i64, name: tracks[i].second.clone() });
        proof {
            assert(perfetto_views(out@) =~= perfetto_views(o0).push(perfetto_view(out@.last())));
            assert(mid.subrange(0, i + 1) =~= mid.subrange(0, i as int).push(mid[i as int]));
            assert(perfetto_view(out@.last()) == mid[i as int]);
            assert(head + mid.subrange(0, i + 1) =~= (head + mid.subrange(0, i as int)).push(mid[i as int]));
        }
        i += 1;
    }
    assert(mid.subrange(0, tv.len() as int) =~= mid);
    let ghost tail = sv.map_values(|r: RowView| span_record(r, pv, tv, min));
    proof {
        assert forall|a: int, b: int| 0 <= a < b < tv.len() implies #[trigger] tv[a] != #[trigger] tv[b] by {
            assert(pairs_strictly_sorted(tracks@));
            assert(string_pair_key(tracks@[a]) != string_pair_key(tracks@[b]));
        }
    }
    let mut k: usize = 0;
    while k < sorted.len()
        invariant
            k <= sorted@.len(),
            sv == rows_view(sorted@),
            pv == text_views(procs@),
            tv == pair_views(tracks@),
            perfetto_layout(rv, sv, pv, tv),
            min == sv[0].start,
            forall|m: int| 0 <= m < sv.len() ==> sv[0].start <= (#[trigger] sv[m]).start && sv[m].start - sv[0].start <= i64::MAX
                && i64::MIN <= sv[m].end - sv[m].start <= i64::MAX,
            tail == sv.map_values(|r: RowView| span_record(r, pv, tv, min)),
            perfetto_views(out@) == head + mid + tail.subrange(0, k as int),
            forall|a: int, b: int| 0 <= a < b < tv.len() ==> #[trigger] tv[a] != #[trigger] tv[b],
        decreases sorted@.len() - k,
    {
        let row = &sorted[k];
        proof {
            assert(row_view(*row) == sv[k as int]);
            assert(text_listed(sv[k as int].perfetto_process, pv));
            assert(track_listed((sv[k as int].perfetto_process, sv[k as int].track), tv));
        }
        let p = find_text(&procs, &row.perfetto_process);
        let t = find_pair(&tracks, &row.perfetto_process, &row.track);
        let _np = procs.len();
        let _nt = tracks.len();
        proof {
            lemma_position(pv, sv[k as int].perfetto_process, p as int);
            lemma_position(tv, (sv[k as int].perfetto_process, sv[k as int].track), t as int);
        }
        let ts = (row.start - min) / 1000;
        let d = row.end - row.start;
        let dur = if d > 0 { d / 1000 } else { 0 };
        let rec = PerfettoSpan {
            name: row.name.clone(),
            cat: category_of(&row.kind),
            ts,
            dur,
            pid: (p + 1) as i64,
            tid: (t + 1) as i64,
            span_id: row.span_id,
            trace_id: row.trace_id,
            process: row.process_label.clone(),
            perfetto_process: row.perfetto_process.clone(),
            track: row.track.clone(),
            parent_id: row.parent_id,
            location: nonempty_of(&row.location),
            attributes: json_arg_of(&row.attributes),
        };
        let ghost o0 = out@;
        out.push(PerfettoRecord::Span(rec));
        proof {
            assert(perfetto_views(out@) =~= perfetto_views(o0).push(perfetto_view(out@.last())));
            assert(tail.subrange(0, k + 1) =~= tail.subrange(0, k as int).push(tail[k as int]));
            assert(perfetto_view(out@.last()) == tail[k as int]);
            assert(head + mid + tail.subrange(0, k + 1) =~= (head + mid + tail.subrange(0, k as int)).push(tail[k as int]));
        }
        k += 1;
    }
    assert(tail.subrange(0, sv.len() as int) =~= tail);
    assert(perfetto_views(out@) == perfetto_spec(sv, pv, tv));
    Some(out)
}

} // verus!
