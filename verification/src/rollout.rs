//! The rollout and train views: phase segments of spans, grouped into
//! samples (trajectories or train batches), grouped into rollouts.

use vstd::prelude::*;
use vstd::multiset::Multiset;
use crate::display::{DisplayData, DisplaySpan, display_data, flat_display};
use crate::rl_contract::{
    attr_spec, attr_string, has_trajectory_identity, has_trajectory_identity_spec, is_train_timeline_span,
    is_train_timeline_span_spec, opt_as_str, opt_or,
};
use crate::text::{copy_opt_string, nat_text, push_char, push_str, push_uint, string_of};
use crate::rl_contract::attr_string_or;
use crate::client::{join, join_strings, views};
use crate::order::{
    SortKey, distinct_sorted_texts, key_le, lemma_stable_sort_by_key_map, lemma_stable_sort_by_map, sort_by_key,
    sort_by_sort_key, sorted_by, sorted_distinct_texts, stable_sort_by, stable_sort_by_key,
};
use crate::ui::{numeric_sort_key_spec, numeric_string_sort_key};

verus! {

/// A phase of a sample: one completed span.
pub struct RlPhaseSegment {
    pub name: String,
    pub phase: String,
    pub start: i64,
    pub end: i64,
    pub process_label: String,
    pub span_id: i64,
    pub attributes: Option<String>,
    pub turn_id: Option<String>,
    pub env_step_id: Option<String>,
}

pub struct SegView {
    pub name: Seq<char>,
    pub phase: Seq<char>,
    pub start: i64,
    pub end: i64,
    pub process_label: Seq<char>,
    pub span_id: i64,
    pub attributes: Option<Seq<char>>,
    pub turn_id: Option<Seq<char>>,
    pub env_step_id: Option<Seq<char>>,
}

pub open spec fn seg_view(s: RlPhaseSegment) -> SegView {
    SegView {
        name: s.name@,
        phase: s.phase@,
        start: s.start,
        end: s.end,
        process_label: s.process_label@,
        span_id: s.span_id,
        attributes: s.attributes.deep_view(),
        turn_id: s.turn_id.deep_view(),
        env_step_id: s.env_step_id.deep_view(),
    }
}

/// The phase of a span: its `phase` attribute, else its kind, else its name.
pub open spec fn phase_spec(x: DisplayData) -> Seq<char> {
    match attr_spec(x.source.attributes, "phase"@) {
        Some(p) => p,
        None => match x.source.kind {
            Some(k) => k,
            None => x.source.name,
        },
    }
}

fn phase_of(span: &DisplaySpan) -> (r: String)
    ensures
        r@ == phase_spec(display_data(*span)),
{
    match attr_string(&span.attributes, "phase") {
        Some(p) => p,
        None => match &span.kind {
            Some(k) => k.clone(),
            None => span.name.clone(),
        },
    }
}

/// The segment of a completed span with the given phase, turn and env step.
pub open spec fn segment_at(x: DisplayData, phase: Seq<char>, turn: Option<Seq<char>>, env: Option<Seq<char>>) -> SegView {
    SegView {
        name: x.source.name,
        phase,
        start: x.source.start_timestamp,
        end: x.source.end_timestamp->0,
        process_label: x.process_label,
        span_id: x.source.span_id,
        attributes: x.source.attributes,
        turn_id: turn,
        env_step_id: env,
    }
}

/// The rollout segment of a span: completed spans of a trajectory or sample.
pub open spec fn rl_segment_spec(x: DisplayData) -> Option<SegView> {
    if x.source.end_timestamp is Some && has_trajectory_identity_spec(x.source.attributes) {
        Some(
            segment_at(
                x,
                phase_spec(x),
                attr_spec(x.source.attributes, "turn_id"@),
                attr_spec(x.source.attributes, "env_step_id"@),
            ),
        )
    } else {
        None
    }
}

/// The rollout segment of a span.
pub fn rl_segment_from_span(span: &DisplaySpan) -> (r: Option<RlPhaseSegment>)
    ensures
        match r {
            Some(s) => rl_segment_spec(display_data(*span)) == Some(seg_view(s)),
            None => rl_segment_spec(display_data(*span)) is None,
        },
{
    let end = match span.end_timestamp {
        Some(e) => e,
        None => return None,
    };
    if !has_trajectory_identity(&span.attributes) {
        return None;
    }
    Some(
        RlPhaseSegment {
            name: span.name.clone(),
            phase: phase_of(span),
            start: span.start_timestamp,
            end,
            process_label: span.process_label.clone(),
            span_id: span.span_id,
            attributes: copy_opt_string(&span.attributes),
            turn_id: attr_string(&span.attributes, "turn_id"),
            env_step_id: attr_string(&span.attributes, "env_step_id"),
        },
    )
}

/// The train segment of a span: completed train-phase spans of a step or batch.
pub open spec fn train_segment_spec(x: DisplayData) -> Option<SegView> {
    if x.source.end_timestamp is Some && is_train_timeline_span_spec(
        x.source.name,
        phase_spec(x),
        x.source.kind,
        x.source.attributes,
    ) {
        Some(segment_at(x, phase_spec(x), None, None))
    } else {
        None
    }
}

/// The train segment of a span.
pub fn train_segment_from_span(span: &DisplaySpan) -> (r: Option<RlPhaseSegment>)
    ensures
        match r {
            Some(s) => train_segment_spec(display_data(*span)) == Some(seg_view(s)),
            None => train_segment_spec(display_data(*span)) is None,
        },
{
    let end = match span.end_timestamp {
        Some(e) => e,
        None => return None,
    };
    let phase = phase_of(span);
    if !is_train_timeline_span(span.name.as_str(), phase.as_str(), opt_as_str(&span.kind), &span.attributes) {
        return None;
    }
    Some(
        RlPhaseSegment {
            name: span.name.clone(),
            phase,
            start: span.start_timestamp,
            end,
            process_label: span.process_label.clone(),
            span_id: span.span_id,
            attributes: copy_opt_string(&span.attributes),
            turn_id: None,
            env_step_id: None,
        },
    )
}

/// What a span adds to a sample: the sample's key and label, its rollout,
/// the two detail attributes (group and attempt, or role and rank), the
/// segment and the span's process.
pub struct ContribView {
    pub key: Seq<char>,
    pub label: Seq<char>,
    pub rollout: Seq<char>,
    pub group: Option<Seq<char>>,
    pub attempt: Option<Seq<char>>,
    pub seg: SegView,
    pub process_label: Seq<char>,
}

/// The trajectory of a rollout span: `trajectory_id`, else
/// `r<rollout>-g<group_id>-i<group_index>`, else `sample_id`.
pub open spec fn trajectory_of_spec(attrs: Option<Seq<char>>, rollout: Seq<char>) -> Option<Seq<char>> {
    match attr_spec(attrs, "trajectory_id"@) {
        Some(t) => Some(t),
        None => match (attr_spec(attrs, "group_id"@), attr_spec(attrs, "group_index"@)) {
            (Some(g), Some(i)) => Some("r"@ + rollout + "-g"@ + g + "-i"@ + i),
            _ => attr_spec(attrs, "sample_id"@),
        },
    }
}

/// The contribution of a span to the rollout view.
pub open spec fn rl_contrib(x: DisplayData) -> Option<ContribView> {
    let attrs = x.source.attributes;
    match rl_segment_spec(x) {
        None => None,
        Some(seg) => match opt_or(attr_spec(attrs, "rollout_id"@), attr_spec(attrs, "step_id"@)) {
            None => None,
            Some(r) => match trajectory_of_spec(attrs, r) {
                None => None,
                Some(t) => Some(
                    ContribView {
                        key: r + ":"@ + t,
                        label: t,
                        rollout: r,
                        group: attr_spec(attrs, "group_id"@),
                        attempt: attr_spec(attrs, "attempt"@),
                        seg,
                        process_label: x.process_label,
                    },
                ),
            },
        },
    }
}

/// The label of a train batch: its train step and batch ids.
pub open spec fn batch_label(step: Option<Seq<char>>, batch: Option<Seq<char>>, fallback: Seq<char>) -> Seq<char> {
    match (step, batch) {
        (Some(s), Some(b)) => "train_step:"@ + s + " batch:"@ + b,
        (Some(s), None) => "train_step:"@ + s,
        (None, Some(b)) => "batch:"@ + b,
        (None, None) => fallback,
    }
}

/// The contribution of a span to the train view.
pub open spec fn train_contrib(x: DisplayData) -> Option<ContribView> {
    let attrs = x.source.attributes;
    let step = attr_spec(attrs, "train_step_id"@);
    let batch = attr_spec(attrs, "batch_id"@);
    match train_segment_spec(x) {
        None => None,
        Some(seg) => match opt_or(attr_spec(attrs, "rollout_id"@), attr_spec(attrs, "step_id"@)) {
            None => None,
            Some(r) => match opt_or(step, batch) {
                None => None,
                Some(b) => Some(
                    ContribView {
                        key: r + ":"@ + b,
                        label: batch_label(step, batch, b),
                        rollout: r,
                        group: attr_spec(attrs, "role"@),
                        attempt: attr_spec(attrs, "rank"@),
                        seg,
                        process_label: x.process_label,
                    },
                ),
            },
        },
    }
}

/// The contribution of a span to the view: rollout samples, or train batches.
pub open spec fn contrib_of(x: DisplayData, train: bool) -> Option<ContribView> {
    if train {
        train_contrib(x)
    } else {
        rl_contrib(x)
    }
}

/// The contributions of the spans, in display order.
pub open spec fn contribs(flat: Seq<DisplayData>, train: bool) -> Seq<ContribView>
    decreases flat.len(),
{
    if flat.len() == 0 {
        Seq::empty()
    } else {
        contribs(flat.drop_last(), train) + match contrib_of(flat.last(), train) {
            Some(c) => seq![c],
            None => Seq::empty(),
        }
    }
}

/// What a span adds to a sample.
pub struct Contrib {
    pub key: String,
    pub label: String,
    pub rollout: String,
    pub group: Option<String>,
    pub attempt: Option<String>,
    pub seg: RlPhaseSegment,
    pub process_label: String,
}

pub open spec fn contrib_view(c: Contrib) -> ContribView {
    ContribView {
        key: c.key@,
        label: c.label@,
        rollout: c.rollout@,
        group: c.group.deep_view(),
        attempt: c.attempt.deep_view(),
        seg: seg_view(c.seg),
        process_label: c.process_label@,
    }
}

pub open spec fn contrib_views(v: Seq<Contrib>) -> Seq<ContribView> {
    v.map_values(|c: Contrib| contrib_view(c))
}

fn trajectory_of(attrs: &Option<String>, rollout: &String) -> (r: Option<String>)
    ensures
        r.deep_view() == trajectory_of_spec(attrs.deep_view(), rollout@),
{
    if let Some(t) = attr_string(attrs, "trajectory_id") {
        return Some(t);
    }
    match (attr_string(attrs, "group_id"), attr_string(attrs, "group_index")) {
        (Some(g), Some(i)) => {
            let mut t = string_of("r");
            push_str(&mut t, rollout.as_str());
            push_str(&mut t, "-g");
            push_str(&mut t, g.as_str());
            push_str(&mut t, "-i");
            push_str(&mut t, i.as_str());
            Some(t)
        },
        _ => attr_string(attrs, "sample_id"),
    }
}

fn key_of(rollout: &String, id: &String) -> (r: String)
    ensures
        r@ == rollout@ + ":"@ + id@,
{
    let mut k = rollout.clone();
    push_char(&mut k, ':');
    push_str(&mut k, id.as_str());
    proof {
        reveal_strlit(":");
    }
    assert(k@ =~= rollout@ + ":"@ + id@);
    k
}

fn batch_label_of(step: &Option<String>, batch: &Option<String>, fallback: &String) -> (r: String)
    ensures
        r@ == batch_label(step.deep_view(), batch.deep_view(), fallback@),
{
    match (step, batch) {
        (Some(s), Some(b)) => {
            let mut t = string_of("train_step:");
            push_str(&mut t, s.as_str());
            push_str(&mut t, " batch:");
            push_str(&mut t, b.as_str());
            t
        },
        (Some(s), None) => {
            let mut t = string_of("train_step:");
            push_str(&mut t, s.as_str());
            t
        },
        (None, Some(b)) => {
            let mut t = string_of("batch:");
            push_str(&mut t, b.as_str());
            t
        },
        (None, None) => fallback.clone(),
    }
}

/// What a span adds to the rollout view (`train` false) or the train view.
fn contribution(span: &DisplaySpan, train: bool) -> (r: Option<Contrib>)
    ensures
        match r {
            Some(c) => contrib_of(display_data(*span), train) == Some(contrib_view(c)),
            None => contrib_of(display_data(*span), train) is None,
        },
{
    let seg = if train {
        train_segment_from_span(span)
    } else {
        rl_segment_from_span(span)
    };
    let seg = match seg {
        Some(s) => s,
        None => return None,
    };
    let rollout = match attr_string_or(&span.attributes, "rollout_id", "step_id") {
        Some(r) => r,
        None => return None,
    };
    if train {
        let step = attr_string(&span.attributes, "train_step_id");
        let batch = attr_string(&span.attributes, "batch_id");
        let b = match &step {
            Some(s) => s.clone(),
            None => match &batch {
                Some(b) => b.clone(),
                None => return None,
            },
        };
        let label = batch_label_of(&step, &batch, &b);
        let key = key_of(&rollout, &b);
        Some(
            Contrib {
                key,
                label,
                rollout,
                group: attr_string(&span.attributes, "role"),
                attempt: attr_string(&span.attributes, "rank"),
                seg,
                process_label: span.process_label.clone(),
            },
        )
    } else {
        let t = match trajectory_of(&span.attributes, &rollout) {
            Some(t) => t,
            None => return None,
        };
        let key = key_of(&rollout, &t);
        Some(
            Contrib {
                key,
                label: t,
                rollout,
                group: attr_string(&span.attributes, "group_id"),
                attempt: attr_string(&span.attributes, "attempt"),
                seg,
                process_label: span.process_label.clone(),
            },
        )
    }
}

proof fn lemma_contribs_append(a: Seq<DisplayData>, b: Seq<DisplayData>, train: bool)
    ensures
        contribs(a + b, train) == contribs(a, train) + contribs(b, train),
    decreases b.len(),
{
    if b.len() == 0 {
        assert(a + b =~= a);
        assert(contribs(a, train) + contribs(b, train) =~= contribs(a, train));
    } else {
        lemma_contribs_append(a, b.drop_last(), train);
        assert((a + b).drop_last() =~= a + b.drop_last());
        assert((a + b).last() == b.last());
        assert(contribs(a + b, train) =~= contribs(a, train) + contribs(b, train));
    }
}

/// Appends the contributions of the spans of `spans`, in display order.
fn collect_contribs(spans: &Vec<DisplaySpan>, train: bool, out: &mut Vec<Contrib>)
    ensures
        contrib_views(final(out)@) == contrib_views(old(out)@) + contribs(flat_display(spans@), train),
    decreases spans@,
{
    let ghost o0 = contrib_views(out@);
    let mut i: usize = 0;
    assert(spans@.subrange(0, 0) =~= Seq::<DisplaySpan>::empty());
    assert(o0 + contribs(flat_display(Seq::<DisplaySpan>::empty()), train) =~= o0);
    while i < spans.len()
        invariant
            i <= spans@.len(),
            contrib_views(out@) == o0 + contribs(flat_display(spans@.subrange(0, i as int)), train),
        decreases spans@.len() - i,
    {
        let t = &spans[i];
        let ghost pre = spans@.subrange(0, i as int);
        let ghost o1 = out@;
        proof {
            assert(spans@.subrange(0, i + 1) =~= pre.push(*t));
            crate::display::lemma_flat_display_push(pre, *t);
            assert(crate::display::flat_display_tree(*t) == seq![display_data(*t)] + flat_display(t.children@));
            lemma_contribs_append(flat_display(pre), crate::display::flat_display_tree(*t), train);
            lemma_contribs_append(seq![display_data(*t)], flat_display(t.children@), train);
            assert(seq![display_data(*t)].drop_last() =~= Seq::<DisplayData>::empty());
            assert(contribs(Seq::<DisplayData>::empty(), train) =~= Seq::<ContribView>::empty());
        }
        match contribution(t, train) {
            Some(c) => {
                out.push(c);
                assert(contrib_views(out@) =~= contrib_views(o1).push(contrib_views(out@).last()));
            },
            None => {},
        }
        assert(contrib_views(out@) =~= contrib_views(o1) + contribs(seq![display_data(*t)], train));
        collect_contribs(&t.children, train, out);
        assert(contrib_views(out@) =~= o0 + contribs(flat_display(spans@.subrange(0, i + 1)), train));
        i += 1;
    }
    assert(spans@.subrange(0, spans@.len() as int) =~= spans@);
}

/// A sample being gathered: its key, label and rollout, its detail
/// attributes (the first present), its time range, the processes of its
/// spans and its segments in display order.
pub struct AccView {
    pub key: Seq<char>,
    pub label: Seq<char>,
    pub rollout: Seq<char>,
    pub group: Option<Seq<char>>,
    pub attempt: Option<Seq<char>>,
    pub start: i64,
    pub end: i64,
    pub labels: Seq<Seq<char>>,
    pub segments: Seq<SegView>,
}

/// The sample a contribution starts.
pub open spec fn new_acc(c: ContribView) -> AccView {
    AccView {
        key: c.key,
        label: c.label,
        rollout: c.rollout,
        group: c.group,
        attempt: c.attempt,
        start: c.seg.start,
        end: c.seg.end,
        labels: seq![c.process_label],
        segments: seq![c.seg],
    }
}

/// A sample with one more contribution.
pub open spec fn update_acc(a: AccView, c: ContribView) -> AccView {
    AccView {
        key: a.key,
        label: a.label,
        rollout: a.rollout,
        group: if a.group is None { c.group } else { a.group },
        attempt: if a.attempt is None { c.attempt } else { a.attempt },
        start: if c.seg.start < a.start { c.seg.start } else { a.start },
        end: if c.seg.end > a.end { c.seg.end } else { a.end },
        labels: a.labels.push(c.process_label),
        segments: a.segments.push(c.seg),
    }
}

/// Where the sample with key `k` is, or -1.
pub open spec fn key_index(accs: Seq<AccView>, k: Seq<char>) -> int
    decreases accs.len(),
{
    if accs.len() == 0 {
        -1
    } else if accs.last().key == k {
        accs.len() - 1
    } else {
        key_index(accs.drop_last(), k)
    }
}

proof fn lemma_key_index(accs: Seq<AccView>, k: Seq<char>)
    ensures
        -1 <= key_index(accs, k) < accs.len(),
        key_index(accs, k) >= 0 ==> accs[key_index(accs, k)].key == k,
        forall|j: int| key_index(accs, k) < j < accs.len() ==> (#[trigger] accs[j]).key != k,
    decreases accs.len(),
{
    if accs.len() > 0 && accs.last().key != k {
        lemma_key_index(accs.drop_last(), k);
        assert forall|j: int| key_index(accs, k) < j < accs.len() implies (#[trigger] accs[j]).key != k by {
            if j < accs.len() - 1 {
                assert(accs.drop_last()[j] == accs[j]);
            }
        }
        if key_index(accs, k) >= 0 {
            assert(accs.drop_last()[key_index(accs, k)] == accs[key_index(accs, k)]);
        }
    }
}

pub open spec fn acc_step(accs: Seq<AccView>, c: ContribView) -> Seq<AccView> {
    let i = key_index(accs, c.key);
    if i >= 0 {
        accs.update(i, update_acc(accs[i], c))
    } else {
        accs.push(new_acc(c))
    }
}

/// The samples the contributions gather, in order of first contribution.
pub open spec fn accumulate(cs: Seq<ContribView>) -> Seq<AccView>
    decreases cs.len(),
{
    if cs.len() == 0 {
        Seq::empty()
    } else {
        acc_step(accumulate(cs.drop_last()), cs.last())
    }
}

/// A sample being gathered.
pub struct SampleAcc {
    pub key: String,
    pub label: String,
    pub rollout: String,
    pub group: Option<String>,
    pub attempt: Option<String>,
    pub start: i64,
    pub end: i64,
    pub labels: Vec<String>,
    pub segments: Vec<RlPhaseSegment>,
}

pub open spec fn acc_view(a: SampleAcc) -> AccView {
    AccView {
        key: a.key@,
        label: a.label@,
        rollout: a.rollout@,
        group: a.group.deep_view(),
        attempt: a.attempt.deep_view(),
        start: a.start,
        end: a.end,
        labels: crate::client::views(a.labels@),
        segments: a.segments@.map_values(|s: RlPhaseSegment| seg_view(s)),
    }
}

pub open spec fn acc_views(v: Seq<SampleAcc>) -> Seq<AccView> {
    v.map_values(|a: SampleAcc| acc_view(a))
}

/// Adds a contribution to the samples.
fn add_contrib(accs: &mut Vec<SampleAcc>, c: Contrib)
    ensures
        acc_views(final(accs)@) == acc_step(acc_views(old(accs)@), contrib_view(c)),
{
    let ghost cv = contrib_view(c);
    let ghost av = acc_views(accs@);
    proof {
        lemma_key_index(av, cv.key);
    }
    let mut i: usize = accs.len();
    while i > 0
        invariant
            i <= accs@.len(),
            av == acc_views(accs@),
            accs@ == old(accs)@,
            forall|j: int| i <= j < accs@.len() ==> (#[trigger] accs@[j]).key@ != cv.key,
            cv == contrib_view(c),
            -1 <= key_index(av, cv.key) < av.len(),
            key_index(av, cv.key) >= 0 ==> av[key_index(av, cv.key)].key == cv.key,
            forall|j: int| key_index(av, cv.key) < j < av.len() ==> (#[trigger] av[j]).key != cv.key,
        decreases i,
    {
        if crate::order::compare_text(accs[i - 1].key.as_str(), c.key.as_str()) == 0 {
            let k = i - 1;
            proof {
                assert(av[k as int].key == cv.key);
                if key_index(av, cv.key) < k {
                    assert(av[k as int].key != cv.key);
                }
                if key_index(av, cv.key) > k {
                    assert(accs@[key_index(av, cv.key)].key@ == cv.key);
                }
            }
            let ghost before = accs@[k as int];
            let mut a = accs.remove(k);
            if a.group.is_none() {
                a.group = c.group;
            }
            if a.attempt.is_none() {
                a.attempt = c.attempt;
            }
            if c.seg.start < a.start {
                a.start = c.seg.start;
            }
            if c.seg.end > a.end {
                a.end = c.seg.end;
            }
            let ghost l0 = a.labels@;
            let ghost s0 = a.segments@;
            a.labels.push(c.process_label);
            a.segments.push(c.seg);
            proof {
                assert(crate::client::views(a.labels@) =~= crate::client::views(l0).push(cv.process_label));
                assert(a.segments@.map_values(|s: RlPhaseSegment| seg_view(s)) =~= s0.map_values(|s: RlPhaseSegment| seg_view(s)).push(cv.seg));
                assert(acc_view(a) == update_acc(acc_view(before), cv));
            }
            let ghost mid = accs@;
            accs.insert(k, a);
            proof {
                assert(accs@ =~= old(accs)@.update(k as int, a));
                assert(acc_views(accs@) =~= av.update(k as int, update_acc(av[k as int], cv)));
            }
            return;
        }
        i -= 1;
    }
    proof {
        if key_index(av, cv.key) >= 0 {
            assert(accs@[key_index(av, cv.key)].key@ == cv.key);
        }
    }
    let Contrib { key, label, rollout, group, attempt, seg, process_label } = c;
    let ghost sv = seg_view(seg);
    let mut labels: Vec<String> = Vec::new();
    labels.push(process_label);
    let mut segments: Vec<RlPhaseSegment> = Vec::new();
    let start = seg.start;
    let end = seg.end;
    segments.push(seg);
    let ghost a0 = accs@;
    accs.push(SampleAcc { key, label, rollout, group, attempt, start, end, labels, segments });
    proof {
        assert(crate::client::views(accs@.last().labels@) =~= seq![cv.process_label]);
        assert(accs@.last().segments@.map_values(|s: RlPhaseSegment| seg_view(s)) =~= seq![cv.seg]);
        assert(acc_view(accs@.last()) == new_acc(cv));
        assert(acc_views(accs@) =~= av.push(new_acc(cv)));
    }
}

/// A sample (trajectory or train batch) of a rollout.
pub struct RlSampleRow {
    pub sample_key: String,
    pub label: String,
    pub detail: String,
    pub start: i64,
    pub end: i64,
    pub process_labels: String,
    pub segments: Vec<RlPhaseSegment>,
}

pub struct SampleView {
    pub sample_key: Seq<char>,
    pub label: Seq<char>,
    pub detail: Seq<char>,
    pub start: i64,
    pub end: i64,
    pub process_labels: Seq<char>,
    pub segments: Seq<SegView>,
}

pub open spec fn seg_views(v: Seq<RlPhaseSegment>) -> Seq<SegView> {
    v.map_values(|s: RlPhaseSegment| seg_view(s))
}

pub open spec fn sample_view(r: RlSampleRow) -> SampleView {
    SampleView {
        sample_key: r.sample_key@,
        label: r.label@,
        detail: r.detail@,
        start: r.start,
        end: r.end,
        process_labels: r.process_labels@,
        segments: seg_views(r.segments@),
    }
}

/// The detail line of a sample: its group and attempt (role and rank for
/// train batches) when not empty, and its number of phases.
pub open spec fn detail_spec(a: AccView, train: bool) -> Seq<char> {
    let g = match a.group {
        Some(g) => if g.len() > 0 {
            seq![(if train { "role:"@ } else { "group:"@ }) + g]
        } else {
            Seq::empty()
        },
        None => Seq::empty(),
    };
    let t = match a.attempt {
        Some(t) => if t.len() > 0 {
            seq![(if train { "rank:"@ } else { "attempt:"@ }) + t]
        } else {
            Seq::empty()
        },
        None => Seq::empty(),
    };
    join(g + t + seq![nat_text(a.segments.len()) + " phases"@], " "@)
}

/// The row of a gathered sample: its segments by start, its processes once
/// each in order, joined by `, `.
pub open spec fn sample_row_spec(a: AccView, train: bool) -> SampleView {
    SampleView {
        sample_key: a.key,
        label: a.label,
        detail: detail_spec(a, train),
        start: a.start,
        end: a.end,
        process_labels: join(distinct_sorted_texts(a.labels), ", "@),
        segments: stable_sort_by(a.segments, |s: SegView| s.start as int),
    }
}

fn detail_of(a: &SampleAcc, train: bool) -> (r: String)
    ensures
        r@ == detail_spec(acc_view(*a), train),
{
    let mut parts: Vec<String> = Vec::new();
    proof {
        reveal_strlit("role:");
        reveal_strlit("group:");
        reveal_strlit("rank:");
        reveal_strlit("attempt:");
    }
    let ghost av = acc_view(*a);
    if let Some(g) = &a.group {
        if !g.as_str().is_empty() {
            let mut t = if train { string_of("role:") } else { string_of("group:") };
            push_str(&mut t, g.as_str());
            parts.push(t);
        }
    }
    let ghost p1 = views(parts@);
    if let Some(at) = &a.attempt {
        if !at.as_str().is_empty() {
            let mut t = if train { string_of("rank:") } else { string_of("attempt:") };
            push_str(&mut t, at.as_str());
            let ghost p0 = parts@;
            parts.push(t);
            assert(views(parts@) =~= views(p0).push(t@));
        }
    }
    let ghost p2 = views(parts@);
    let mut count = String::new();
    push_uint(&mut count, a.segments.len() as u64);
    push_str(&mut count, " phases");
    let ghost p3 = parts@;
    parts.push(count);
    proof {
        let g = match av.group {
            Some(g) => if g.len() > 0 {
                seq![(if train { "role:"@ } else { "group:"@ }) + g]
            } else {
                Seq::empty()
            },
            None => Seq::empty(),
        };
        let t = match av.attempt {
            Some(t) => if t.len() > 0 {
                seq![(if train { "rank:"@ } else { "attempt:"@ }) + t]
            } else {
                Seq::empty()
            },
            None => Seq::empty(),
        };
        assert(p1 =~= g);
        assert(p2 =~= g + t);
        assert(a.segments@.len() == av.segments.len());
        assert(views(parts@) =~= views(p3).push(parts@.last()@));
        assert(views(parts@) =~= g + t + seq![nat_text(av.segments.len()) + " phases"@]);
    }
    join_strings(&parts, " ")
}

/// The row of a gathered sample.
fn finalize_sample(a: SampleAcc, train: bool) -> (r: RlSampleRow)
    ensures
        sample_view(r) == sample_row_spec(acc_view(a), train),
{
    let ghost av = acc_view(a);
    let detail = detail_of(&a, train);
    let SampleAcc { key, label, rollout: _, group: _, attempt: _, start, end, labels, segments } = a;
    let ghost lv = labels@;
    let distinct = sorted_distinct_texts(labels);
    let process_labels = join_strings(&distinct, ", ");
    let by_start = |s: &RlPhaseSegment| -> (k: i128)
        ensures
            k == s.start as int,
        { s.start as i128 };
    let ghost sv = segments@;
    let sorted = sort_by_key(segments, Ghost(|s: RlPhaseSegment| s.start as int), by_start);
    proof {
        assert(views(distinct@) =~= distinct@.map_values(|t: String| t@));
        assert(lv.map_values(|t: String| t@) =~= views(lv));
        let f = |s: RlPhaseSegment| seg_view(s);
        let k1 = |s: RlPhaseSegment| s.start as int;
        let k2 = |s: SegView| s.start as int;
        assert forall|y: RlPhaseSegment| #[trigger] k1(y) == k2(f(y)) by {}
        lemma_stable_sort_by_map(sv, f, k1, k2);
        assert(sv.map_values(f) =~= av.segments);
        assert(sorted@.map_values(f) =~= seg_views(sorted@));
    }
    RlSampleRow { sample_key: key, label, detail, start, end, process_labels, segments: sorted }
}

/// The samples of one rollout, as gathered.
pub struct GroupView {
    pub id: Seq<char>,
    pub rows: Seq<SampleView>,
}

pub open spec fn group_index(groups: Seq<GroupView>, id: Seq<char>) -> int
    decreases groups.len(),
{
    if groups.len() == 0 {
        -1
    } else if groups.last().id == id {
        groups.len() - 1
    } else {
        group_index(groups.drop_last(), id)
    }
}

proof fn lemma_group_index(groups: Seq<GroupView>, id: Seq<char>)
    ensures
        -1 <= group_index(groups, id) < groups.len(),
        group_index(groups, id) >= 0 ==> groups[group_index(groups, id)].id == id,
        forall|j: int| group_index(groups, id) < j < groups.len() ==> (#[trigger] groups[j]).id != id,
    decreases groups.len(),
{
    if groups.len() > 0 && groups.last().id != id {
        lemma_group_index(groups.drop_last(), id);
        assert forall|j: int| group_index(groups, id) < j < groups.len() implies (#[trigger] groups[j]).id != id by {
            if j < groups.len() - 1 {
                assert(groups.drop_last()[j] == groups[j]);
            }
        }
        if group_index(groups, id) >= 0 {
            assert(groups.drop_last()[group_index(groups, id)] == groups[group_index(groups, id)]);
        }
    }
}

pub open spec fn group_step(groups: Seq<GroupView>, id: Seq<char>, row: SampleView) -> Seq<GroupView> {
    let i = group_index(groups, id);
    if i >= 0 {
        groups.update(i, GroupView { id, rows: groups[i].rows.push(row) })
    } else {
        groups.push(GroupView { id, rows: seq![row] })
    }
}

/// The sample rows of the gathered samples, grouped by rollout in order of
/// first appearance.
pub open spec fn groups_of(accs: Seq<AccView>, train: bool) -> Seq<GroupView>
    decreases accs.len(),
{
    if accs.len() == 0 {
        Seq::empty()
    } else {
        group_step(groups_of(accs.drop_last(), train), accs.last().rollout, sample_row_spec(accs.last(), train))
    }
}

/// The earliest start of time-ordered samples (0 when there is none).
pub open spec fn min_start(s: Seq<SampleView>) -> i64
    decreases s.len(),
{
    if s.len() == 0 {
        0
    } else if s.len() == 1 {
        s[0].start
    } else if s.last().start < min_start(s.drop_last()) {
        s.last().start
    } else {
        min_start(s.drop_last())
    }
}

/// The latest end of samples (`default` when there is none).
pub open spec fn max_end(s: Seq<SampleView>, default: i64) -> i64
    decreases s.len(),
{
    if s.len() == 0 {
        default
    } else if s.len() == 1 {
        s[0].end
    } else if s.last().end > max_end(s.drop_last(), default) {
        s.last().end
    } else {
        max_end(s.drop_last(), default)
    }
}

/// A rollout of the view.
pub struct RlRolloutView {
    pub rollout_id: String,
    pub start: i64,
    pub end: i64,
    pub samples: Vec<RlSampleRow>,
}

pub struct RolloutViewV {
    pub rollout_id: Seq<char>,
    pub start: i64,
    pub end: i64,
    pub samples: Seq<SampleView>,
}

pub open spec fn sample_views(v: Seq<RlSampleRow>) -> Seq<SampleView> {
    v.map_values(|r: RlSampleRow| sample_view(r))
}

pub open spec fn rollout_view(r: RlRolloutView) -> RolloutViewV {
    RolloutViewV { rollout_id: r.rollout_id@, start: r.start, end: r.end, samples: sample_views(r.samples@) }
}

pub open spec fn rollout_views(v: Seq<RlRolloutView>) -> Seq<RolloutViewV> {
    v.map_values(|r: RlRolloutView| rollout_view(r))
}

/// The rollout of a group: its samples by start, from the earliest start to
/// the latest end.
pub open spec fn rollout_of_group(g: GroupView) -> RolloutViewV {
    let samples = stable_sort_by(g.rows, |v: SampleView| v.start as int);
    RolloutViewV { rollout_id: g.id, start: min_start(samples), end: max_end(samples, min_start(samples)), samples }
}

/// Rollouts are ordered by their id as a number (ids that are not numbers
/// last), then by id.
pub open spec fn rollout_key(v: RolloutViewV) -> SortKey {
    SortKey { rank: numeric_sort_key_spec(v.rollout_id) as int, first: v.rollout_id, second: Seq::empty() }
}

/// The rollouts of the view (`train` false) or of the train view.
pub open spec fn rollout_views_spec(spans: Seq<DisplaySpan>, train: bool) -> Seq<RolloutViewV> {
    stable_sort_by_key(
        groups_of(accumulate(contribs(flat_display(spans), train)), train).map_values(|g: GroupView| rollout_of_group(g)),
        |v: RolloutViewV| rollout_key(v),
    )
}


/// The gathered samples of one rollout.
pub struct RolloutGroup {
    pub id: String,
    pub rows: Vec<RlSampleRow>,
}

pub open spec fn group_view(g: RolloutGroup) -> GroupView {
    GroupView { id: g.id@, rows: sample_views(g.rows@) }
}

pub open spec fn group_views(v: Seq<RolloutGroup>) -> Seq<GroupView> {
    v.map_values(|g: RolloutGroup| group_view(g))
}

/// Adds a sample row to the group of its rollout, or starts that group.
fn add_row(groups: &mut Vec<RolloutGroup>, id: String, row: RlSampleRow)
    ensures
        group_views(final(groups)@) == group_step(group_views(old(groups)@), id@, sample_view(row)),
{
    let ghost gv = group_views(groups@);
    let ghost rv = sample_view(row);
    proof {
        lemma_group_index(gv, id@);
    }
    let mut i: usize = groups.len();
    while i > 0
        invariant
            i <= groups@.len(),
            gv == group_views(groups@),
            groups@ == old(groups)@,
            rv == sample_view(row),
            forall|j: int| i <= j < groups@.len() ==> (#[trigger] groups@[j]).id@ != id@,
            -1 <= group_index(gv, id@) < gv.len(),
            group_index(gv, id@) >= 0 ==> gv[group_index(gv, id@)].id == id@,
            forall|j: int| group_index(gv, id@) < j < gv.len() ==> (#[trigger] gv[j]).id != id@,
        decreases i,
    {
        if crate::order::compare_text(groups[i - 1].id.as_str(), id.as_str()) == 0 {
            let k = i - 1;
            proof {
                assert(gv[k as int].id == id@);
                if group_index(gv, id@) < k {
                    assert(gv[k as int].id != id@);
                }
                if group_index(gv, id@) > k {
                    assert(groups@[group_index(gv, id@)].id@ == id@);
                }
            }
            let mut g = groups.remove(k);
            let ghost r0 = g.rows@;
            g.rows.push(row);
            proof {
                assert(g.rows@ == r0.push(row));
                assert(rv == sample_view(row));
                assert(sample_views(g.rows@).len() == r0.len() + 1);
                assert forall|j: int| 0 <= j < g.rows@.len() implies sample_views(g.rows@)[j] == sample_views(r0).push(rv)[j] by {
                    if j < r0.len() {
                        assert(g.rows@[j] == r0[j]);
                    } else {
                        assert(g.rows@[j] == row);
                    }
                }
                assert(sample_views(g.rows@) =~= sample_views(r0).push(rv));
                assert(group_view(g) == GroupView { id: id@, rows: gv[k as int].rows.push(rv) });
            }
            groups.insert(k, g);
            proof {
                assert(groups@ =~= old(groups)@.update(k as int, g));
                assert(group_views(groups@) =~= gv.update(k as int, GroupView { id: id@, rows: gv[k as int].rows.push(rv) }));
            }
            return;
        }
        i -= 1;
    }
    proof {
        if group_index(gv, id@) >= 0 {
            assert(groups@[group_index(gv, id@)].id@ == id@);
        }
    }
    let mut rows: Vec<RlSampleRow> = Vec::new();
    rows.push(row);
    let g = RolloutGroup { id, rows };
    let ghost g0 = groups@;
    groups.push(g);
    proof {
        assert(sample_views(g.rows@) =~= seq![rv]);
        assert(group_views(groups@) =~= gv.push(group_view(g)));
    }
}

/// The rows of the gathered samples, grouped by rollout.
fn group_samples(accs: Vec<SampleAcc>, train: bool) -> (r: Vec<RolloutGroup>)
    ensures
        group_views(r@) == groups_of(acc_views(accs@), train),
{
    let ghost a0 = acc_views(accs@);
    let mut rest = accs;
    let mut groups: Vec<RolloutGroup> = Vec::new();
    let ghost mut done: int = 0;
    assert(a0.subrange(0, 0) =~= Seq::<AccView>::empty());
    assert(acc_views(rest@) =~= a0.subrange(0, a0.len() as int));
    while rest.len() > 0
        invariant
            0 <= done <= a0.len(),
            acc_views(rest@) == a0.subrange(done, a0.len() as int),
            group_views(groups@) == groups_of(a0.subrange(0, done), train),
        decreases rest@.len(),
    {
        let ghost rv = rest@;
        let a = rest.remove(0);
        proof {
            assert(rv.len() > 0);
            assert(acc_views(rv).len() == rv.len());
            assert(a0.subrange(done, a0.len() as int).len() > 0);
            assert(done < a0.len());
            assert(a == rv[0]);
            assert(acc_views(rv)[0] == acc_view(a));
            assert(a0.subrange(done, a0.len() as int)[0] == a0[done]);
            assert(a0[done] == acc_view(a));
            assert forall|j: int| 0 <= j < rest@.len() implies #[trigger] acc_views(rest@)[j] == a0.subrange(done + 1, a0.len() as int)[j] by {
                assert(rest@[j] == rv[j + 1]);
                assert(acc_views(rv)[j + 1] == a0.subrange(done, a0.len() as int)[j + 1]);
            }
            assert(acc_views(rest@) =~= a0.subrange(done + 1, a0.len() as int));
        }
        let id = a.rollout.clone();
        let row = finalize_sample(a, train);
        add_row(&mut groups, id, row);
        proof {
            assert(a0.subrange(0, done + 1).drop_last() =~= a0.subrange(0, done));
            assert(a0.subrange(0, done + 1).last() == a0[done]);
            done = done + 1;
        }
    }
    assert(a0.subrange(0, a0.len() as int) =~= a0);
    groups
}

proof fn lemma_min_start_step(s: Seq<SampleView>, i: int)
    requires
        0 <= i < s.len(),
    ensures
        min_start(s.subrange(0, i + 1)) == if i == 0 || s[i].start < min_start(s.subrange(0, i)) {
            s[i].start
        } else {
            min_start(s.subrange(0, i))
        },
{
    assert(s.subrange(0, i + 1).drop_last() =~= s.subrange(0, i));
    assert(s.subrange(0, i + 1).last() == s[i]);
}

proof fn lemma_max_end_step(s: Seq<SampleView>, i: int, d: i64)
    requires
        0 <= i < s.len(),
    ensures
        max_end(s.subrange(0, i + 1), d) == if i == 0 || s[i].end > max_end(s.subrange(0, i), d) {
            s[i].end
        } else {
            max_end(s.subrange(0, i), d)
        },
{
    assert(s.subrange(0, i + 1).drop_last() =~= s.subrange(0, i));
    assert(s.subrange(0, i + 1).last() == s[i]);
}

/// The rollout of a group: its samples by start and its time range.
fn rollout_from_group(g: RolloutGroup) -> (r: RlRolloutView)
    ensures
        rollout_view(r) == rollout_of_group(group_view(g)),
{
    let RolloutGroup { id, rows } = g;
    let ghost rows0 = rows@;
    let by_start = |r: &RlSampleRow| -> (k: i128)
        ensures
            k == r.start as int,
        { r.start as i128 };
    let samples = sort_by_key(rows, Ghost(|r: RlSampleRow| r.start as int), by_start);
    let ghost sv = sample_views(samples@);
    proof {
        let f = |r: RlSampleRow| sample_view(r);
        let k1 = |r: RlSampleRow| r.start as int;
        let k2 = |v: SampleView| v.start as int;
        assert forall|y: RlSampleRow| #[trigger] k1(y) == k2(f(y)) by {}
        lemma_stable_sort_by_map(rows0, f, k1, k2);
        assert(rows0.map_values(f) =~= sample_views(rows0));
        assert(samples@.map_values(f) =~= sv);
    }
    let mut start: i64 = 0;
    let mut i: usize = 0;
    assert(sv.subrange(0, 0) =~= Seq::<SampleView>::empty());
    while i < samples.len()
        invariant
            i <= samples@.len(),
            sv == sample_views(samples@),
            start == min_start(sv.subrange(0, i as int)),
        decreases samples@.len() - i,
    {
        proof {
            lemma_min_start_step(sv, i as int);
        }
        if i == 0 || samples[i].start < start {
            start = samples[i].start;
        }
        i += 1;
    }
    assert(sv.subrange(0, sv.len() as int) =~= sv);
    let mut end: i64 = start;
    let mut j: usize = 0;
    assert(sv.subrange(0, 0) =~= Seq::<SampleView>::empty());
    while j < samples.len()
        invariant
            j <= samples@.len(),
            sv == sample_views(samples@),
            end == max_end(sv.subrange(0, j as int), start),
        decreases samples@.len() - j,
    {
        proof {
            lemma_max_end_step(sv, j as int, start);
        }
        if j == 0 || samples[j].end > end {
            end = samples[j].end;
        }
        j += 1;
    }
    RlRolloutView { rollout_id: id, start, end, samples }
}

/// Whether rollout `a` sorts no later than rollout `b`.
fn rollout_le(a: &RlRolloutView, b: &RlRolloutView) -> (r: bool)
    ensures
        r == key_le(rollout_key(rollout_view(*a)), rollout_key(rollout_view(*b))),
{
    let ra = numeric_string_sort_key(a.rollout_id.as_str());
    let rb = numeric_string_sort_key(b.rollout_id.as_str());
    proof {
        crate::options::lemma_rank_key_le(ra as int, rb as int, a.rollout_id@, b.rollout_id@);
    }
    ra < rb || (ra == rb && crate::order::compare_text(a.rollout_id.as_str(), b.rollout_id.as_str()) <= 0)
}

/// The rollouts of the view (`train` false) or of the train view.
fn build_rollout_views(spans: &Vec<DisplaySpan>, train: bool) -> (r: Vec<RlRolloutView>)
    ensures
        rollout_views(r@) == rollout_views_spec(spans@, train),
{
    let mut cs: Vec<Contrib> = Vec::new();
    collect_contribs(spans, train, &mut cs);
    assert(contrib_views(cs@) =~= contribs(flat_display(spans@), train));
    let ghost c0 = contrib_views(cs@);
    let mut accs: Vec<SampleAcc> = Vec::new();
    let ghost mut done: int = 0;
    assert(c0.subrange(0, 0) =~= Seq::<ContribView>::empty());
    assert(contrib_views(cs@) =~= c0.subrange(0, c0.len() as int));
    while cs.len() > 0
        invariant
            0 <= done <= c0.len(),
            contrib_views(cs@) == c0.subrange(done, c0.len() as int),
            acc_views(accs@) == accumulate(c0.subrange(0, done)),
        decreases cs@.len(),
    {
        let ghost cv = cs@;
        let c = cs.remove(0);
        proof {
            assert(c == cv[0]);
            assert(contrib_views(cv).len() == cv.len());
            assert(done < c0.len());
            assert(contrib_views(cv)[0] == contrib_view(c));
            assert(c0.subrange(done, c0.len() as int)[0] == c0[done]);
            assert(c0[done] == contrib_view(c));
            assert forall|j: int| 0 <= j < cs@.len() implies #[trigger] contrib_views(cs@)[j] == c0.subrange(done + 1, c0.len() as int)[j] by {
                assert(cs@[j] == cv[j + 1]);
                assert(contrib_views(cv)[j + 1] == c0.subrange(done, c0.len() as int)[j + 1]);
            }
            assert(contrib_views(cs@) =~= c0.subrange(done + 1, c0.len() as int));
        }
        add_contrib(&mut accs, c);
        proof {
            assert(c0.subrange(0, done + 1).drop_last() =~= c0.subrange(0, done));
            assert(c0.subrange(0, done + 1).last() == c0[done]);
            done = done + 1;
        }
    }
    assert(c0.subrange(0, c0.len() as int) =~= c0);
    let groups = group_samples(accs, train);
    let ghost g0 = group_views(groups@);
    let mut rest = groups;
    let mut rollouts: Vec<RlRolloutView> = Vec::new();
    let ghost mut k: int = 0;
    assert(g0.subrange(0, 0).map_values(|g: GroupView| rollout_of_group(g)) =~= Seq::<RolloutViewV>::empty());
    assert(group_views(rest@) =~= g0.subrange(0, g0.len() as int));
    while rest.len() > 0
        invariant
            0 <= k <= g0.len(),
            group_views(rest@) == g0.subrange(k, g0.len() as int),
            rollout_views(rollouts@) == g0.subrange(0, k).map_values(|g: GroupView| rollout_of_group(g)),
        decreases rest@.len(),
    {
        let ghost rv = rest@;
        let ghost r0 = rollouts@;
        let g = rest.remove(0);
        proof {
            assert(g == rv[0]);
            assert(group_views(rv).len() == rv.len());
            assert(k < g0.len());
            assert(group_views(rv)[0] == group_view(g));
            assert(g0.subrange(k, g0.len() as int)[0] == g0[k]);
            assert(g0[k] == group_view(g));
            assert forall|j: int| 0 <= j < rest@.len() implies #[trigger] group_views(rest@)[j] == g0.subrange(k + 1, g0.len() as int)[j] by {
                assert(rest@[j] == rv[j + 1]);
                assert(group_views(rv)[j + 1] == g0.subrange(k, g0.len() as int)[j + 1]);
            }
            assert(group_views(rest@) =~= g0.subrange(k + 1, g0.len() as int));
        }
        let v = rollout_from_group(g);
        rollouts.push(v);
        proof {
            assert(rollout_views(rollouts@) =~= rollout_views(r0).push(rollout_view(v)));
            assert(g0.subrange(0, k + 1).map_values(|g: GroupView| rollout_of_group(g)) =~= g0.subrange(0, k).map_values(
                |g: GroupView| rollout_of_group(g),
            ).push(rollout_of_group(g0[k])));
            k = k + 1;
        }
    }
    assert(g0.subrange(0, g0.len() as int) =~= g0);
    let ghost unsorted = rollouts@;
    let ghost key = |v: RlRolloutView| rollout_key(rollout_view(v));
    let le = |a: &RlRolloutView, b: &RlRolloutView| -> (r: bool)
        ensures
            r == key_le(rollout_key(rollout_view(*a)), rollout_key(rollout_view(*b))),
        { rollout_le(a, b) };
    let sorted = sort_by_sort_key(rollouts, Ghost(key), le);
    proof {
        let f = |v: RlRolloutView| rollout_view(v);
        let k2 = |v: RolloutViewV| rollout_key(v);
        assert forall|y: RlRolloutView| #[trigger] key(y) == k2(f(y)) by {}
        lemma_stable_sort_by_key_map(unsorted, f, key, k2);
        assert(unsorted.map_values(f) =~= rollout_views(unsorted));
        assert(sorted@.map_values(f) =~= rollout_views(sorted@));
    }
    sorted
}

/// The rollout view: the trajectories of each rollout, rollouts by id.
pub fn build_rl_rollout_views(spans: &Vec<DisplaySpan>) -> (r: Vec<RlRolloutView>)
    ensures
        rollout_views(r@) == rollout_views_spec(spans@, false),
{
    build_rollout_views(spans, false)
}

/// The train view: the train batches of each rollout, rollouts by id.
pub fn build_train_rollout_views(spans: &Vec<DisplaySpan>) -> (r: Vec<RlRolloutView>)
    ensures
        rollout_views(r@) == rollout_views_spec(spans@, true),
{
    build_rollout_views(spans, true)
}

/// How long a sample lasted, never negative.
pub fn sample_duration_ns(sample: &RlSampleRow) -> (r: i64)
    requires
        i64::MIN <= sample.end - sample.start <= i64::MAX,
    ensures
        r == if sample.end - sample.start > 0 { sample.end - sample.start } else { 0 },
{
    let d = sample.end - sample.start;
    if d > 0 {
        d
    } else {
        0
    }
}


/// A sample row's phases are in start order.
pub open spec fn row_ok(r: SampleView) -> bool {
    &&& sorted_by(r.segments, |s: SegView| s.start as int)
    &&& spans_phases(r)
}

/// A sample spans exactly its phases: it has one at least, every phase lies
/// within the sample's time range, and the sample starts with its earliest
/// phase and ends with its latest.
pub open spec fn spans_phases(r: SampleView) -> bool {
    &&& r.segments.len() > 0
    &&& forall|k: int| 0 <= k < r.segments.len() ==> r.start <= (#[trigger] r.segments[k]).start && r.segments[k].end <= r.end
    &&& exists|k: int| 0 <= k < r.segments.len() && (#[trigger] r.segments[k]).start == r.start
    &&& exists|k: int| 0 <= k < r.segments.len() && (#[trigger] r.segments[k]).end == r.end
}

/// A gathered sample spans exactly its phases.
pub open spec fn acc_ok(a: AccView) -> bool {
    &&& a.segments.len() > 0
    &&& forall|k: int| 0 <= k < a.segments.len() ==> a.start <= (#[trigger] a.segments[k]).start && a.segments[k].end <= a.end
    &&& exists|k: int| 0 <= k < a.segments.len() && (#[trigger] a.segments[k]).start == a.start
    &&& exists|k: int| 0 <= k < a.segments.len() && (#[trigger] a.segments[k]).end == a.end
}

proof fn lemma_update_acc_ok(a: AccView, c: ContribView)
    requires
        acc_ok(a),
    ensures
        acc_ok(update_acc(a, c)),
{
    let b = update_acc(a, c);
    let n = a.segments.len() as int;
    assert(b.segments[n] == c.seg);
    assert forall|k: int| 0 <= k < b.segments.len() implies b.start <= (#[trigger] b.segments[k]).start && b.segments[k].end <= b.end by {
        if k < n {
            assert(b.segments[k] == a.segments[k]);
        }
    }
    if c.seg.start < a.start {
        assert(b.segments[n].start == b.start);
    } else {
        let k = choose|k: int| 0 <= k < a.segments.len() && (#[trigger] a.segments[k]).start == a.start;
        assert(b.segments[k] == a.segments[k]);
    }
    if c.seg.end > a.end {
        assert(b.segments[n].end == b.end);
    } else {
        let k = choose|k: int| 0 <= k < a.segments.len() && (#[trigger] a.segments[k]).end == a.end;
        assert(b.segments[k] == a.segments[k]);
    }
}

proof fn lemma_accumulate_ok(cs: Seq<ContribView>)
    ensures
        forall|i: int| 0 <= i < accumulate(cs).len() ==> acc_ok(#[trigger] accumulate(cs)[i]),
    decreases cs.len(),
{
    if cs.len() > 0 {
        let prev = accumulate(cs.drop_last());
        let c = cs.last();
        lemma_accumulate_ok(cs.drop_last());
        lemma_key_index(prev, c.key);
        let i = key_index(prev, c.key);
        let now = accumulate(cs);
        if i >= 0 {
            lemma_update_acc_ok(prev[i], c);
            assert forall|j: int| 0 <= j < now.len() implies acc_ok(#[trigger] now[j]) by {
                if j != i {
                    assert(now[j] == prev[j]);
                }
            }
        } else {
            let na = new_acc(c);
            assert(na.segments[0] == c.seg);
            assert(acc_ok(na));
            assert forall|j: int| 0 <= j < now.len() implies acc_ok(#[trigger] now[j]) by {
                if j < prev.len() {
                    assert(now[j] == prev[j]);
                }
            }
        }
    }
}

proof fn lemma_sample_row_spans(a: AccView, train: bool)
    requires
        acc_ok(a),
    ensures
        spans_phases(sample_row_spec(a, train)),
{
    broadcast use vstd::seq_lib::group_to_multiset_ensures;
    let r = sample_row_spec(a, train);
    crate::order::lemma_stable_sort_by_sorted(a.segments, |s: SegView| s.start as int);
    let segs = r.segments;
    assert(segs.to_multiset() == a.segments.to_multiset());
    assert(segs.len() == a.segments.len()) by {
        assert(segs.to_multiset().len() == segs.len());
        assert(a.segments.to_multiset().len() == a.segments.len());
    }
    assert forall|k: int| 0 <= k < segs.len() implies r.start <= (#[trigger] segs[k]).start && segs[k].end <= r.end by {
        assert(segs.to_multiset().count(segs[k]) > 0);
        assert(a.segments.contains(segs[k]));
        let j = choose|j: int| 0 <= j < a.segments.len() && a.segments[j] == segs[k];
        assert(a.start <= a.segments[j].start);
    }
    let k1 = choose|k: int| 0 <= k < a.segments.len() && (#[trigger] a.segments[k]).start == a.start;
    assert(a.segments.to_multiset().count(a.segments[k1]) > 0);
    assert(segs.contains(a.segments[k1]));
    let j1 = choose|j: int| 0 <= j < segs.len() && segs[j] == a.segments[k1];
    assert(segs[j1].start == r.start);
    let k2 = choose|k: int| 0 <= k < a.segments.len() && (#[trigger] a.segments[k]).end == a.end;
    assert(a.segments.to_multiset().count(a.segments[k2]) > 0);
    assert(segs.contains(a.segments[k2]));
    let j2 = choose|j: int| 0 <= j < segs.len() && segs[j] == a.segments[k2];
    assert(segs[j2].end == r.end);
}

/// A rollout's samples are in start order, each with its phases in start
/// order and within the rollout's time range.
pub open spec fn rollout_ordered(r: RolloutViewV) -> bool {
    &&& sorted_by(r.samples, |v: SampleView| v.start as int)
    &&& r.samples.len() > 0 ==> r.start == r.samples[0].start
    &&& forall|a: int|
        0 <= a < r.samples.len() ==> {
            &&& row_ok(#[trigger] r.samples[a])
            &&& r.start <= r.samples[a].start
            &&& r.samples[a].end <= r.end
        }
}

proof fn lemma_min_start_le(s: Seq<SampleView>)
    ensures
        forall|k: int| 0 <= k < s.len() ==> min_start(s) <= (#[trigger] s[k]).start,
    decreases s.len(),
{
    if s.len() > 1 {
        lemma_min_start_le(s.drop_last());
        assert forall|k: int| 0 <= k < s.len() implies min_start(s) <= (#[trigger] s[k]).start by {
            if k < s.len() - 1 {
                assert(s.drop_last()[k] == s[k]);
            }
        }
    }
}

proof fn lemma_min_start_elem(s: Seq<SampleView>)
    requires
        s.len() > 0,
    ensures
        exists|k: int| 0 <= k < s.len() && (#[trigger] s[k]).start == min_start(s),
    decreases s.len(),
{
    if s.len() > 1 {
        lemma_min_start_elem(s.drop_last());
        if !(s.last().start < min_start(s.drop_last())) {
            let k = choose|k: int| 0 <= k < s.drop_last().len() && (#[trigger] s.drop_last()[k]).start == min_start(s.drop_last());
            assert(s[k] == s.drop_last()[k]);
        } else {
            assert(s[s.len() - 1].start == min_start(s));
        }
    } else {
        assert(s[0].start == min_start(s));
    }
}

proof fn lemma_max_end_ge(s: Seq<SampleView>, d: i64)
    ensures
        forall|k: int| 0 <= k < s.len() ==> (#[trigger] s[k]).end <= max_end(s, d),
    decreases s.len(),
{
    if s.len() > 1 {
        lemma_max_end_ge(s.drop_last(), d);
        assert forall|k: int| 0 <= k < s.len() implies (#[trigger] s[k]).end <= max_end(s, d) by {
            if k < s.len() - 1 {
                assert(s.drop_last()[k] == s[k]);
            }
        }
    }
}

proof fn lemma_groups_rows_ok(accs: Seq<AccView>, train: bool)
    requires
        forall|i: int| 0 <= i < accs.len() ==> acc_ok(#[trigger] accs[i]),
    ensures
        forall|g: int, a: int|
            0 <= g < groups_of(accs, train).len() && 0 <= a < groups_of(accs, train)[g].rows.len() ==> row_ok(
                #[trigger] groups_of(accs, train)[g].rows[a],
            ),
    decreases accs.len(),
{
    if accs.len() > 0 {
        let prev = groups_of(accs.drop_last(), train);
        let id = accs.last().rollout;
        let row = sample_row_spec(accs.last(), train);
        assert forall|i: int| 0 <= i < accs.drop_last().len() implies acc_ok(#[trigger] accs.drop_last()[i]) by {
            assert(accs.drop_last()[i] == accs[i]);
        }
        lemma_groups_rows_ok(accs.drop_last(), train);
        lemma_sample_row_spans(accs.last(), train);
        lemma_group_index(prev, id);
        crate::order::lemma_stable_sort_by_sorted(accs.last().segments, |s: SegView| s.start as int);
        assert(row_ok(row));
        let gs = groups_of(accs, train);
        assert forall|g: int, a: int| 0 <= g < gs.len() && 0 <= a < gs[g].rows.len() implies row_ok(
            #[trigger] gs[g].rows[a],
        ) by {
            let i = group_index(prev, id);
            if i >= 0 {
                if g == i {
                    if a < prev[g].rows.len() {
                        assert(gs[g].rows[a] == prev[g].rows[a]);
                    } else {
                        assert(gs[g].rows[a] == row);
                    }
                } else {
                    assert(gs[g] == prev[g]);
                }
            } else {
                if g < prev.len() {
                    assert(gs[g] == prev[g]);
                } else {
                    assert(gs[g].rows[a] == row);
                }
            }
        }
    }
}

proof fn lemma_rollout_of_group_ordered(g: GroupView)
    requires
        forall|a: int| 0 <= a < g.rows.len() ==> row_ok(#[trigger] g.rows[a]),
    ensures
        rollout_ordered(rollout_of_group(g)),
{
    broadcast use vstd::seq_lib::group_to_multiset_ensures;

    let r = rollout_of_group(g);
    let samples = r.samples;
    crate::order::lemma_stable_sort_by_sorted(g.rows, |v: SampleView| v.start as int);
    lemma_min_start_le(samples);
    lemma_max_end_ge(samples, min_start(samples));
    if samples.len() > 0 {
        lemma_min_start_elem(samples);
        let k = choose|k: int| 0 <= k < samples.len() && (#[trigger] samples[k]).start == min_start(samples);
        assert(samples[0].start <= samples[k].start);
    }
    assert forall|a: int| 0 <= a < samples.len() implies row_ok(#[trigger] samples[a]) by {
        assert(samples.contains(samples[a]));
        assert(samples.to_multiset().count(samples[a]) > 0);
        assert(g.rows.to_multiset().count(samples[a]) > 0);
        assert(g.rows.contains(samples[a]));
        let k = choose|k: int| 0 <= k < g.rows.len() && g.rows[k] == samples[a];
        assert(row_ok(g.rows[k]));
    }
}

/// The rollout view is ordered: rollouts by id (as numbers, then as text),
/// each rollout's samples by start, each sample's phases by start; each
/// sample starts with its earliest phase and ends with its latest, and each
/// rollout starts with its earliest sample and covers all of them.
pub proof fn lemma_rollout_views_ordered(spans: Seq<DisplaySpan>, train: bool)
    ensures
        forall|i: int, j: int|
            0 <= i < j < rollout_views_spec(spans, train).len() ==> key_le(
                #[trigger] rollout_key(rollout_views_spec(spans, train)[i]),
                #[trigger] rollout_key(rollout_views_spec(spans, train)[j]),
            ),
        forall|i: int|
            0 <= i < rollout_views_spec(spans, train).len() ==> rollout_ordered(
                #[trigger] rollout_views_spec(spans, train)[i],
            ),
{
    broadcast use vstd::seq_lib::group_to_multiset_ensures;

    let accs = accumulate(contribs(flat_display(spans), train));
    let groups = groups_of(accs, train);
    let unsorted = groups.map_values(|g: GroupView| rollout_of_group(g));
    let v = rollout_views_spec(spans, train);
    let key = |r: RolloutViewV| rollout_key(r);
    crate::order::lemma_stable_sort_by_key_sorted(unsorted, key);
    assert(v == stable_sort_by_key(unsorted, key));
    assert forall|i: int, j: int| 0 <= i < j < v.len() implies key_le(
        #[trigger] rollout_key(v[i]),
        #[trigger] rollout_key(v[j]),
    ) by {
        assert(key_le(key(v[i]), key(v[j])));
    }
    lemma_accumulate_ok(contribs(flat_display(spans), train));
    lemma_groups_rows_ok(accs, train);
    assert forall|i: int| 0 <= i < v.len() implies rollout_ordered(#[trigger] v[i]) by {
        assert(v.contains(v[i]));
        assert(v.to_multiset().count(v[i]) > 0);
        assert(unsorted.to_multiset().count(v[i]) > 0);
        assert(unsorted.contains(v[i]));
        let k = choose|k: int| 0 <= k < unsorted.len() && unsorted[k] == v[i];
        assert forall|a: int| 0 <= a < groups[k].rows.len() implies row_ok(#[trigger] groups[k].rows[a]) by {}
        lemma_rollout_of_group_ordered(groups[k]);
    }
}


/// The keys of sample rows.
pub open spec fn sample_keys(s: Seq<SampleView>) -> Seq<Seq<char>> {
    s.map_values(|r: SampleView| r.sample_key)
}

/// The multisets `f` gives for the elements of `s`, added up.
pub open spec fn sum_bags<T>(s: Seq<T>, f: spec_fn(T) -> Multiset<Seq<char>>) -> Multiset<Seq<char>>
    decreases s.len(),
{
    if s.len() == 0 {
        Multiset::empty()
    } else {
        sum_bags(s.drop_last(), f).add(f(s.last()))
    }
}

/// The sample keys of the rows of rollouts, as a multiset.
pub open spec fn view_bag(v: Seq<RolloutViewV>) -> Multiset<Seq<char>> {
    sum_bags(v, |r: RolloutViewV| sample_keys(r.samples).to_multiset())
}

/// The keys the contributions name, in order.
pub open spec fn contrib_keys(cs: Seq<ContribView>) -> Seq<Seq<char>> {
    cs.map_values(|c: ContribView| c.key)
}

pub open spec fn acc_keys(accs: Seq<AccView>) -> Seq<Seq<char>> {
    accs.map_values(|a: AccView| a.key)
}

pub open spec fn group_bag(gs: Seq<GroupView>) -> Multiset<Seq<char>> {
    sum_bags(gs, |g: GroupView| sample_keys(g.rows).to_multiset())
}

proof fn lemma_sum_bags_append<T>(a: Seq<T>, b: Seq<T>, f: spec_fn(T) -> Multiset<Seq<char>>)
    ensures
        sum_bags(a + b, f) == sum_bags(a, f).add(sum_bags(b, f)),
    decreases b.len(),
{
    broadcast use vstd::multiset::group_multiset_axioms;

    if b.len() == 0 {
        assert(a + b =~= a);
        assert(sum_bags(a, f).add(sum_bags(b, f)) =~= sum_bags(a, f));
    } else {
        lemma_sum_bags_append(a, b.drop_last(), f);
        assert((a + b).drop_last() =~= a + b.drop_last());
        assert((a + b).last() == b.last());
        assert(sum_bags(a + b, f) =~= sum_bags(a, f).add(sum_bags(b, f)));
    }
}

proof fn lemma_sum_bags_split<T>(s: Seq<T>, i: int, x: T, f: spec_fn(T) -> Multiset<Seq<char>>)
    requires
        0 <= i < s.len(),
    ensures
        sum_bags(s, f) == sum_bags(s.remove(i), f).add(f(s[i])),
        sum_bags(s.update(i, x), f) == sum_bags(s.remove(i), f).add(f(x)),
{
    broadcast use vstd::multiset::group_multiset_axioms;

    let a = s.subrange(0, i);
    let b = s.subrange(i + 1, s.len() as int);
    assert(s =~= a.push(s[i]) + b);
    assert(s.update(i, x) =~= a.push(x) + b);
    assert(s.remove(i) =~= a + b);
    lemma_sum_bags_append(a.push(s[i]), b, f);
    lemma_sum_bags_append(a.push(x), b, f);
    lemma_sum_bags_append(a, b, f);
    assert(a.push(s[i]).drop_last() =~= a);
    assert(a.push(x).drop_last() =~= a);
    assert(sum_bags(s, f) =~= sum_bags(s.remove(i), f).add(f(s[i])));
    assert(sum_bags(s.update(i, x), f) =~= sum_bags(s.remove(i), f).add(f(x)));
}

proof fn lemma_sum_bags_perm<T>(a: Seq<T>, b: Seq<T>, f: spec_fn(T) -> Multiset<Seq<char>>)
    requires
        a.to_multiset() == b.to_multiset(),
    ensures
        sum_bags(a, f) == sum_bags(b, f),
    decreases a.len(),
{
    broadcast use vstd::multiset::group_multiset_axioms;
    broadcast use vstd::seq_lib::group_to_multiset_ensures;

    if a.len() == 0 {
        assert(b.to_multiset().len() == b.len());
        assert(b.len() == 0);
        assert(a =~= b);
    } else {
        let x = a.last();
        let a0 = a.drop_last();
        assert(a =~= a0.push(x));
        assert(b.to_multiset().count(x) > 0);
        assert(b.contains(x));
        let i = choose|i: int| 0 <= i < b.len() && b[i] == x;
        let b0 = b.remove(i);
        assert(b0.to_multiset() =~= b.to_multiset().remove(x));
        assert(a0.to_multiset() =~= a.to_multiset().remove(x));
        lemma_sum_bags_perm(a0, b0, f);
        lemma_sum_bags_split(b, i, x, f);
    }
}

/// The gathered samples have distinct keys: those the contributions name.
proof fn lemma_accumulate_keys(cs: Seq<ContribView>)
    ensures
        acc_keys(accumulate(cs)).no_duplicates(),
        forall|k: Seq<char>| #[trigger] acc_keys(accumulate(cs)).contains(k) <==> contrib_keys(cs).contains(k),
    decreases cs.len(),
{
    if cs.len() > 0 {
        let prev = accumulate(cs.drop_last());
        let c = cs.last();
        lemma_accumulate_keys(cs.drop_last());
        lemma_key_index(prev, c.key);
        let accs = accumulate(cs);
        let i = key_index(prev, c.key);
        assert(contrib_keys(cs) =~= contrib_keys(cs.drop_last()).push(c.key));
        if i >= 0 {
            assert(acc_keys(accs) =~= acc_keys(prev));
            assert(acc_keys(prev)[i] == c.key);
        } else {
            assert(acc_keys(accs) =~= acc_keys(prev).push(c.key));
            assert forall|j: int| 0 <= j < acc_keys(prev).len() implies acc_keys(prev)[j] != c.key by {
                assert(prev[j].key != c.key);
            }
        }
        assert forall|k: Seq<char>| #[trigger] acc_keys(accs).contains(k) <==> contrib_keys(cs).contains(k) by {
            assert(acc_keys(prev).contains(k) <==> contrib_keys(cs.drop_last()).contains(k));
            assert(contrib_keys(cs)[cs.len() - 1] == c.key);
            if contrib_keys(cs).contains(k) && k != c.key {
                let j = choose|j: int| 0 <= j < contrib_keys(cs).len() && contrib_keys(cs)[j] == k;
                assert(contrib_keys(cs.drop_last())[j] == k);
            }
            if contrib_keys(cs.drop_last()).contains(k) {
                let j = choose|j: int| 0 <= j < contrib_keys(cs.drop_last()).len() && contrib_keys(cs.drop_last())[j] == k;
                assert(contrib_keys(cs)[j] == k);
            }
            if i < 0 && acc_keys(accs).contains(k) && k != c.key {
                let j = choose|j: int| 0 <= j < acc_keys(accs).len() && acc_keys(accs)[j] == k;
                assert(acc_keys(prev)[j] == k);
            }
            if i < 0 && acc_keys(prev).contains(k) {
                let j = choose|j: int| 0 <= j < acc_keys(prev).len() && acc_keys(prev)[j] == k;
                assert(acc_keys(accs)[j] == k);
            }
            if i < 0 && k == c.key {
                assert(acc_keys(accs)[acc_keys(prev).len() as int] == k);
            }
            if contrib_keys(cs).contains(k) && k == c.key && i >= 0 {
                assert(acc_keys(accs)[i] == k);
            }
            if i >= 0 {
                assert(acc_keys(accs) == acc_keys(prev));
            }
        }
    }
}

/// Grouping by rollout keeps every gathered sample's row.
proof fn lemma_group_bag(accs: Seq<AccView>, train: bool)
    ensures
        group_bag(groups_of(accs, train)) == acc_keys(accs).to_multiset(),
    decreases accs.len(),
{
    broadcast use vstd::multiset::group_multiset_axioms;
    broadcast use vstd::seq_lib::group_to_multiset_ensures;

    if accs.len() > 0 {
        let prev = groups_of(accs.drop_last(), train);
        let id = accs.last().rollout;
        let row = sample_row_spec(accs.last(), train);
        let f = |g: GroupView| sample_keys(g.rows).to_multiset();
        lemma_group_bag(accs.drop_last(), train);
        lemma_group_index(prev, id);
        assert(acc_keys(accs) =~= acc_keys(accs.drop_last()).push(accs.last().key));
        let i = group_index(prev, id);
        if i >= 0 {
            let g2 = GroupView { id, rows: prev[i].rows.push(row) };
            lemma_sum_bags_split(prev, i, g2, f);
            assert(sample_keys(g2.rows) =~= sample_keys(prev[i].rows).push(row.sample_key));
            assert(group_bag(groups_of(accs, train)) =~= group_bag(prev).insert(accs.last().key));
        } else {
            let g2 = GroupView { id, rows: seq![row] };
            assert(groups_of(accs, train) =~= prev.push(g2));
            assert(groups_of(accs, train).drop_last() =~= prev);
            assert(sample_keys(g2.rows) =~= Seq::<Seq<char>>::empty().push(row.sample_key));
            assert(group_bag(groups_of(accs, train)) =~= group_bag(prev).insert(accs.last().key));
        }
    }
}

/// Turning groups into rollouts keeps every row.
proof fn lemma_view_bag_of_groups(gs: Seq<GroupView>)
    ensures
        view_bag(gs.map_values(|g: GroupView| rollout_of_group(g))) == group_bag(gs),
    decreases gs.len(),
{
    if gs.len() > 0 {
        let m = gs.map_values(|g: GroupView| rollout_of_group(g));
        lemma_view_bag_of_groups(gs.drop_last());
        assert(m.drop_last() =~= gs.drop_last().map_values(|g: GroupView| rollout_of_group(g)));
        let g = gs.last();
        crate::order::lemma_stable_sort_by_sorted(g.rows, |v: SampleView| v.start as int);
        crate::order::lemma_map_multiset(rollout_of_group(g).samples, g.rows, |r: SampleView| r.sample_key);
    }
}

/// The view shows each sample once: a key occurs once among the rows of the
/// view when some span contributes to the sample it names, and not at all
/// otherwise.
pub proof fn lemma_one_row_per_sample(spans: Seq<DisplaySpan>, train: bool)
    ensures
        forall|k: Seq<char>|
            #[trigger] view_bag(rollout_views_spec(spans, train)).count(k) == if contrib_keys(
                contribs(flat_display(spans), train),
            ).contains(k) {
                1nat
            } else {
                0nat
            },
{
    broadcast use vstd::seq_lib::group_to_multiset_ensures;

    let cs = contribs(flat_display(spans), train);
    let accs = accumulate(cs);
    let groups = groups_of(accs, train);
    let unsorted = groups.map_values(|g: GroupView| rollout_of_group(g));
    let v = rollout_views_spec(spans, train);
    crate::order::lemma_stable_sort_by_key_sorted(unsorted, |r: RolloutViewV| rollout_key(r));
    lemma_sum_bags_perm(v, unsorted, |r: RolloutViewV| sample_keys(r.samples).to_multiset());
    lemma_view_bag_of_groups(groups);
    lemma_group_bag(accs, train);
    lemma_accumulate_keys(cs);
    acc_keys(accs).lemma_multiset_has_no_duplicates();
    assert forall|k: Seq<char>| #[trigger] view_bag(v).count(k) == if contrib_keys(cs).contains(k) {
        1nat
    } else {
        0nat
    } by {
        assert(view_bag(v).count(k) == acc_keys(accs).to_multiset().count(k));
        if !acc_keys(accs).contains(k) {
            assert(acc_keys(accs).to_multiset().count(k) == 0);
        }
    }
}

} // verus!
