//! How well cross-process linking worked on the displayed spans: worker spans
//! that ended up under a step parent, those left orphaned (and their most
//! frequent step keys), and the number of parents.

use vstd::prelude::*;
use crate::display::DisplaySpan;
use crate::rl_contract::{
    LogicalStepKey, attr_spec, attr_string, attr_string_or, is_rollout_submit_parent_span,
    is_rollout_submit_parent_span_spec, is_rollout_worker_role, is_rollout_worker_role_spec, is_step_parent_span,
    is_step_parent_span_spec, key_view, opt_as_str, opt_or, span_role_spec,
};
use crate::text::{nat_text, push_char, push_str, push_uint, seq_starts_with, str_eq, str_starts_with, string_of};
use crate::client::{join, join_strings, views};
use crate::order::{SortKey, key_le, lex_le, sort_by_sort_key, sorted_by_key_le, sorted_distinct_texts, compare_text};

verus! {

broadcast use vstd::seq_lib::group_to_multiset_ensures;

/// The step key a displayed span carries: its `rollout_id` and `step_id`,
/// unless either is missing or `-1`.
pub open spec fn display_step_key_spec(attributes: Option<Seq<char>>) -> Option<(Seq<char>, Seq<char>)> {
    match (attr_spec(attributes, "rollout_id"@), attr_spec(attributes, "step_id"@)) {
        (Some(r), Some(s)) => if r == "-1"@ || s == "-1"@ {
            None
        } else {
            Some((r, s))
        },
        _ => None,
    }
}

/// The step key a displayed span carries.
pub fn display_logical_step_key(span: &DisplaySpan) -> (r: Option<LogicalStepKey>)
    ensures
        key_view(r) == display_step_key_spec(span.attributes.deep_view()),
{
    let rollout_id = match attr_string(&span.attributes, "rollout_id") {
        Some(v) => v,
        None => return None,
    };
    let step_id = match attr_string(&span.attributes, "step_id") {
        Some(v) => v,
        None => return None,
    };
    if str_eq(rollout_id.as_str(), "-1") || str_eq(step_id.as_str(), "-1") {
        return None;
    }
    Some(LogicalStepKey { rollout_id, step_id })
}

/// A step parent span other than a rollout submission.
pub open spec fn display_logical_parent_spec(d: DisplaySpan) -> bool {
    is_step_parent_span_spec(d.name@, d.kind.deep_view()) && !is_rollout_submit_parent_span_spec(d.name@)
}

/// A displayed step parent span other than a rollout submission.
pub fn is_display_logical_parent_span(span: &DisplaySpan) -> (r: bool)
    ensures
        r == display_logical_parent_spec(*span),
{
    is_step_parent_span(span.name.as_str(), opt_as_str(&span.kind)) && !is_rollout_submit_parent_span(span.name.as_str())
}

/// A displayed rollout submission span.
pub fn is_display_submit_parent_span(span: &DisplaySpan) -> (r: bool)
    ensures
        r == is_rollout_submit_parent_span_spec(span.name@),
{
    is_rollout_submit_parent_span(span.name.as_str())
}

/// A span that cross-process children can hang under.
pub open spec fn display_parent_spec(d: DisplaySpan) -> bool {
    display_logical_parent_spec(d) || is_rollout_submit_parent_span_spec(d.name@)
}

/// A displayed span that cross-process children can hang under.
pub fn is_display_cross_process_parent_span(span: &DisplaySpan) -> (r: bool)
    ensures
        r == display_parent_spec(*span),
{
    is_display_logical_parent_span(span) || is_display_submit_parent_span(span)
}

/// A worker-side span that belongs under a cross-process parent.
pub open spec fn display_candidate_spec(d: DisplaySpan) -> bool {
    &&& display_step_key_spec(d.attributes.deep_view()) is Some
    &&& !display_parent_spec(d)
    &&& (is_rollout_worker_role_spec(span_role_spec(d.attributes.deep_view())) || seq_starts_with(d.name@, "custom.generate"@))
}

/// A displayed worker-side span that belongs under a cross-process parent.
pub fn is_display_cross_process_child_candidate(span: &DisplaySpan) -> (r: bool)
    ensures
        r == display_candidate_spec(*span),
{
    if display_logical_step_key(span).is_none() || is_display_cross_process_parent_span(span) {
        return false;
    }
    let role = match attr_string_or(&span.attributes, "process_role", "actor_role") {
        Some(r) => r,
        None => String::new(),
    };
    is_rollout_worker_role(role.as_str()) || str_starts_with(span.name.as_str(), "custom.generate")
}

/// Counts of linked and orphaned worker spans and of parents, with the step
/// key (`rollout/step`) of every orphan in display order.
pub struct LinkCounts {
    pub linked: nat,
    pub orphan: nat,
    pub parents: nat,
    pub keys: Seq<Seq<char>>,
}

pub open spec fn add_counts(a: LinkCounts, b: LinkCounts) -> LinkCounts {
    LinkCounts { linked: a.linked + b.linked, orphan: a.orphan + b.orphan, parents: a.parents + b.parents, keys: a.keys + b.keys }
}

/// The orphan key text of a step key: `rollout/step`.
pub open spec fn orphan_key_text(k: (Seq<char>, Seq<char>)) -> Seq<char> {
    k.0 + "/"@ + k.1
}

/// What one span adds, given whether a parent lies above it.
pub open spec fn own_counts(d: DisplaySpan, under: bool) -> LinkCounts {
    let candidate = display_candidate_spec(d);
    LinkCounts {
        linked: if candidate && under { 1 } else { 0 },
        orphan: if candidate && !under { 1 } else { 0 },
        parents: if display_parent_spec(d) { 1 } else { 0 },
        keys: if candidate && !under {
            seq![orphan_key_text(display_step_key_spec(d.attributes.deep_view())->0)]
        } else {
            Seq::empty()
        },
    }
}

/// The counts of a forest whose spans have a parent above them when `under`.
pub open spec fn link_counts(s: Seq<DisplaySpan>, under: bool) -> LinkCounts
    decreases s,
{
    if s.len() == 0 {
        LinkCounts { linked: 0, orphan: 0, parents: 0, keys: Seq::empty() }
    } else {
        let t = s.last();
        add_counts(
            add_counts(link_counts(s.drop_last(), under), own_counts(t, under)),
            link_counts(t.children@, under || display_parent_spec(t)),
        )
    }
}

proof fn lemma_counts_bounded(s: Seq<DisplaySpan>, under: bool)
    ensures
        link_counts(s, under).linked + link_counts(s, under).orphan <= crate::display::flat_display(s).len(),
        link_counts(s, under).parents <= crate::display::flat_display(s).len(),
        link_counts(s, under).keys.len() == link_counts(s, under).orphan,
    decreases s,
{
    if s.len() > 0 {
        let t = s.last();
        lemma_counts_bounded(s.drop_last(), under);
        lemma_counts_bounded(t.children@, under || display_parent_spec(t));
        crate::display::lemma_flat_display_push(s.drop_last(), t);
        assert(s.drop_last().push(t) =~= s);
        assert(crate::display::flat_display_tree(t) == seq![crate::display::display_data(t)] + crate::display::flat_display(t.children@));
    }
}

/// The summary of cross-process linking shown above the span tree.
pub struct CrossProcessLinkSummaryView {
    pub linked: usize,
    pub orphan: usize,
    pub parents: usize,
    pub orphan_keys: String,
}

/// Adds the counts of `spans` (with a parent above them when
/// `under_logical_parent`) to `summary`, and their orphan keys to `orphan_keys`.
fn collect_cross_process_link_summary(
    spans: &Vec<DisplaySpan>,
    under_logical_parent: bool,
    summary: &mut CrossProcessLinkSummaryView,
    orphan_keys: &mut Vec<String>,
)
    requires
        old(summary).linked + old(summary).orphan + crate::display::flat_display(spans@).len() <= usize::MAX,
        old(summary).parents + crate::display::flat_display(spans@).len() <= usize::MAX,
    ensures
        final(summary).linked == old(summary).linked + link_counts(spans@, under_logical_parent).linked,
        final(summary).orphan == old(summary).orphan + link_counts(spans@, under_logical_parent).orphan,
        final(summary).parents == old(summary).parents + link_counts(spans@, under_logical_parent).parents,
        final(summary).orphan_keys == old(summary).orphan_keys,
        views(final(orphan_keys)@) == views(old(orphan_keys)@) + link_counts(spans@, under_logical_parent).keys,
    decreases spans@,
{
    let ghost l0 = summary.linked;
    let ghost o0 = summary.orphan;
    let ghost p0 = summary.parents;
    let ghost k0 = views(orphan_keys@);
    let mut i: usize = 0;
    assert(spans@.subrange(0, 0) =~= Seq::<DisplaySpan>::empty());
    while i < spans.len()
        invariant
            i <= spans@.len(),
            l0 + o0 + crate::display::flat_display(spans@).len() <= usize::MAX,
            p0 + crate::display::flat_display(spans@).len() <= usize::MAX,
            summary.linked == l0 + link_counts(spans@.subrange(0, i as int), under_logical_parent).linked,
            summary.orphan == o0 + link_counts(spans@.subrange(0, i as int), under_logical_parent).orphan,
            summary.parents == p0 + link_counts(spans@.subrange(0, i as int), under_logical_parent).parents,
            summary.orphan_keys == old(summary).orphan_keys,
            views(orphan_keys@) == k0 + link_counts(spans@.subrange(0, i as int), under_logical_parent).keys,
        decreases spans@.len() - i,
    {
        let t = &spans[i];
        let ghost pre = spans@.subrange(0, i as int);
        let ghost next = spans@.subrange(0, i + 1);
        proof {
            assert(next.drop_last() =~= pre);
            assert(next.last() == *t);
            lemma_counts_bounded(next, under_logical_parent);
            lemma_counts_bounded(pre, under_logical_parent);
            lemma_counts_bounded(t.children@, under_logical_parent || display_parent_spec(*t));
            crate::display::lemma_flat_display_append(next, spans@.subrange(i + 1, spans@.len() as int));
            assert(spans@ =~= next + spans@.subrange(i + 1, spans@.len() as int));
            crate::display::lemma_flat_display_push(pre, *t);
            assert(crate::display::flat_display_tree(*t) == seq![crate::display::display_data(*t)] + crate::display::flat_display(t.children@));
            reveal_strlit("/");
        }
        let is_parent = is_display_cross_process_parent_span(t);
        let under = under_logical_parent || is_parent;
        if is_parent {
            summary.parents = summary.parents + 1;
        }
        let ghost ok0 = orphan_keys@;
        if is_display_cross_process_child_candidate(t) {
            if under_logical_parent {
                summary.linked = summary.linked + 1;
            } else {
                summary.orphan = summary.orphan + 1;
                if let Some(key) = display_logical_step_key(t) {
                    let ghost kv = key@;
                    let mut text = key.rollout_id;
                    push_char(&mut text, '/');
                    push_str(&mut text, key.step_id.as_str());
                    assert(text@ =~= kv.0 + "/"@ + kv.1);
                    orphan_keys.push(text);
                    assert(views(orphan_keys@) =~= views(ok0).push(orphan_key_text(display_step_key_spec(t.attributes.deep_view())->0)));
                }
            }
        }
        let ghost mid_keys = views(orphan_keys@);
        assert(mid_keys =~= views(ok0) + own_counts(*t, under_logical_parent).keys);
        collect_cross_process_link_summary(&t.children, under, summary, orphan_keys);
        proof {
            assert(link_counts(next, under_logical_parent) == add_counts(
                add_counts(link_counts(pre, under_logical_parent), own_counts(*t, under_logical_parent)),
                link_counts(t.children@, under),
            ));
            assert(views(orphan_keys@) =~= k0 + link_counts(next, under_logical_parent).keys);
        }
        i += 1;
    }
    assert(spans@.subrange(0, spans@.len() as int) =~= spans@);
}

/// An orphan key and how often it occurs.
pub struct KeyCount {
    pub key: String,
    pub count: usize,
}

pub open spec fn entry_views(v: Seq<KeyCount>) -> Seq<(Seq<char>, nat)> {
    v.map_values(|e: KeyCount| (e.key@, e.count as nat))
}

/// Orphan keys are listed most frequent first, then by key.
pub open spec fn entry_key(e: (Seq<char>, nat)) -> SortKey {
    SortKey { rank: -(e.1 as int), first: e.0, second: Seq::empty() }
}

/// Some entry of `list` is the text `k`.
pub open spec fn text_in(k: Seq<char>, list: Seq<Seq<char>>) -> bool {
    exists|i: int| 0 <= i < list.len() && #[trigger] list[i] == k
}

/// The entry of key `k`: the key and how often it occurs in `keys`.
pub open spec fn entry_of(k: Seq<char>, keys: Seq<Seq<char>>) -> (Seq<char>, nat) {
    (k, keys.to_multiset().count(k))
}

/// `entries` holds each key of `keys` once (the distinct keys being
/// `base`, in increasing order), with how often it occurs, most frequent
/// first and then by key.
pub open spec fn entries_from(entries: Seq<(Seq<char>, nat)>, keys: Seq<Seq<char>>, base: Seq<Seq<char>>) -> bool {
    &&& forall|i: int, j: int| 0 <= i < j < base.len() ==> lex_le(#[trigger] base[i], #[trigger] base[j]) && base[i] != base[j]
    &&& forall|i: int| 0 <= i < base.len() ==> text_in(#[trigger] base[i], keys)
    &&& forall|j: int| 0 <= j < keys.len() ==> text_in(#[trigger] keys[j], base)
    &&& entries.to_multiset() == base.map_values(|k: Seq<char>| entry_of(k, keys)).to_multiset()
    &&& forall|i: int, j: int| 0 <= i < j < entries.len() ==> key_le(#[trigger] entry_key(entries[i]), #[trigger] entry_key(entries[j]))
}

/// `entries` holds each key of `keys` once, with how often it occurs, most
/// frequent first and then by key.
pub open spec fn orphan_entries(entries: Seq<(Seq<char>, nat)>, keys: Seq<Seq<char>>) -> bool {
    exists|base: Seq<Seq<char>>| #[trigger] entries_from(entries, keys, base)
}

/// The text of the first three entries: `key:count`, joined by `, `.
pub open spec fn top_keys_text(entries: Seq<(Seq<char>, nat)>) -> Seq<char> {
    let top = if entries.len() > 3 { entries.take(3) } else { entries };
    join(top.map_values(|e: (Seq<char>, nat)| e.0 + ":"@ + nat_text(e.1)), ", "@)
}

/// How often `k` occurs in `keys`.
pub(crate) fn count_key(keys: &Vec<String>, k: &String) -> (r: usize)
    ensures
        r == views(keys@).to_multiset().count(k@),
{
    let mut c: usize = 0;
    let mut i: usize = 0;
    while i < keys.len()
        invariant
            i <= keys@.len(),
            c == views(keys@.subrange(0, i as int)).to_multiset().count(k@),
            c <= i,
        decreases keys@.len() - i,
    {
        proof {
            assert(views(keys@.subrange(0, i + 1)) =~= views(keys@.subrange(0, i as int)).push(keys@[i as int]@));
        }
        if compare_text(keys[i].as_str(), k.as_str()) == 0 {
            c = c + 1;
        }
        i += 1;
    }
    assert(keys@.subrange(0, keys@.len() as int) =~= keys@);
    c
}

fn entry_le(a: &KeyCount, b: &KeyCount) -> (r: bool)
    ensures
        r == key_le(entry_key((a.key@, a.count as nat)), entry_key((b.key@, b.count as nat))),
{
    proof {
        crate::order::lemma_text_key_le(a.key@, b.key@);
    }
    a.count > b.count || (a.count == b.count && compare_text(a.key.as_str(), b.key.as_str()) <= 0)
}

pub(crate) fn copy_strings(keys: &Vec<String>) -> (r: Vec<String>)
    ensures
        views(r@) == views(keys@),
{
    let mut copy: Vec<String> = Vec::new();
    let mut i: usize = 0;
    while i < keys.len()
        invariant
            i <= keys@.len(),
            views(copy@) == views(keys@.subrange(0, i as int)),
        decreases keys@.len() - i,
    {
        let ghost c0 = copy@;
        copy.push(keys[i].clone());
        assert(views(copy@) =~= views(c0).push(keys@[i as int]@));
        assert(views(keys@.subrange(0, i + 1)) =~= views(keys@.subrange(0, i as int)).push(keys@[i as int]@));
        i += 1;
    }
    assert(keys@.subrange(0, keys@.len() as int) =~= keys@);
    copy
}

fn count_entries(distinct: &Vec<String>, keys: &Vec<String>) -> (r: Vec<KeyCount>)
    ensures
        entry_views(r@) == views(distinct@).map_values(|k: Seq<char>| entry_of(k, views(keys@))),
{
    let ghost base = views(distinct@);
    let ghost kv = views(keys@);
    let mut entries: Vec<KeyCount> = Vec::new();
    let mut i: usize = 0;
    while i < distinct.len()
        invariant
            i <= distinct@.len(),
            base == views(distinct@),
            kv == views(keys@),
            entry_views(entries@) == base.subrange(0, i as int).map_values(|k: Seq<char>| entry_of(k, kv)),
        decreases distinct@.len() - i,
    {
        let c = count_key(keys, &distinct[i]);
        let ghost en0 = entries@;
        entries.push(KeyCount { key: distinct[i].clone(), count: c });
        assert(entry_views(entries@) =~= entry_views(en0).push((distinct@[i as int]@, c as nat)));
        assert(base.subrange(0, i + 1).map_values(|k: Seq<char>| entry_of(k, kv)) =~= base.subrange(0, i as int).map_values(
            |k: Seq<char>| entry_of(k, kv),
        ).push(entry_of(base[i as int], kv)));
        i += 1;
    }
    assert(base.subrange(0, base.len() as int) =~= base);
    entries
}

proof fn lemma_entries_from(sorted: Seq<KeyCount>, e0: Seq<KeyCount>, distinct: Seq<String>, cv: Seq<String>, kv: Seq<Seq<char>>)
    requires
        sorted.to_multiset() == e0.to_multiset(),
        forall|i: int, j: int|
            0 <= i < j < sorted.len() ==> key_le(
                #[trigger] entry_key((sorted[i].key@, sorted[i].count as nat)),
                #[trigger] entry_key((sorted[j].key@, sorted[j].count as nat)),
            ),
        entry_views(e0) == views(distinct).map_values(|k: Seq<char>| entry_of(k, kv)),
        views(cv) == kv,
        forall|i: int, j: int| 0 <= i < j < distinct.len() ==> lex_le(#[trigger] distinct[i]@, #[trigger] distinct[j]@) && distinct[i]@ != distinct[j]@,
        forall|i: int| 0 <= i < distinct.len() ==> exists|j: int| 0 <= j < cv.len() && (#[trigger] distinct[i])@ == cv[j]@,
        forall|j: int| 0 <= j < cv.len() ==> exists|i: int| 0 <= i < distinct.len() && distinct[i]@ == (#[trigger] cv[j])@,
    ensures
        entries_from(entry_views(sorted), kv, views(distinct)),
{
    let sv = entry_views(sorted);
    let base = views(distinct);
    let f = |e: KeyCount| (e.key@, e.count as nat);
    crate::order::lemma_map_multiset(sorted, e0, f);
    assert(sorted.map_values(f) =~= sv);
    assert(e0.map_values(f) =~= entry_views(e0));
    assert forall|i: int, j: int| 0 <= i < j < sv.len() implies key_le(#[trigger] entry_key(sv[i]), #[trigger] entry_key(sv[j])) by {
        assert(key_le(entry_key((sorted[i].key@, sorted[i].count as nat)), entry_key((sorted[j].key@, sorted[j].count as nat))));
    }
    assert forall|i: int, j: int| 0 <= i < j < base.len() implies lex_le(#[trigger] base[i], #[trigger] base[j]) && base[i] != base[j] by {
        assert(lex_le(distinct[i]@, distinct[j]@) && distinct[i]@ != distinct[j]@);
    }
    assert forall|i: int| 0 <= i < base.len() implies text_in(#[trigger] base[i], kv) by {
        let j = choose|j: int| 0 <= j < cv.len() && distinct[i]@ == cv[j]@;
        assert(views(cv)[j] == kv[j]);
    }
    assert forall|j: int| 0 <= j < kv.len() implies text_in(#[trigger] kv[j], base) by {
        assert(views(cv)[j] == kv[j]);
        let i = choose|i: int| 0 <= i < distinct.len() && distinct[i]@ == cv[j]@;
        assert(base[i] == kv[j]);
    }
}

/// Each orphan key once with how often it occurs, most frequent first,
/// then by key.
fn sorted_key_entries(keys: &Vec<String>) -> (r: Vec<KeyCount>)
    ensures
        orphan_entries(entry_views(r@), views(keys@)),
{
    let copy = copy_strings(keys);
    let ghost cv = copy@;
    let distinct = sorted_distinct_texts(copy);
    let entries = count_entries(&distinct, keys);
    let ghost e0 = entries@;
    let ghost key = |e: KeyCount| entry_key((e.key@, e.count as nat));
    let le = |a: &KeyCount, b: &KeyCount| -> (r: bool)
        ensures
            r == key_le(entry_key((a.key@, a.count as nat)), entry_key((b.key@, b.count as nat))),
        { entry_le(a, b) };
    let sorted = sort_by_sort_key(entries, Ghost(key), le);
    proof {
        assert forall|i: int, j: int|
            0 <= i < j < sorted@.len() implies key_le(
            #[trigger] entry_key((sorted@[i].key@, sorted@[i].count as nat)),
            #[trigger] entry_key((sorted@[j].key@, sorted@[j].count as nat)),
        ) by {
            assert(key_le(key(sorted@[i]), key(sorted@[j])));
        }
        lemma_entries_from(sorted@, e0, distinct@, cv, views(keys@));
        assert(entries_from(entry_views(sorted@), views(keys@), views(distinct@)));
    }
    sorted
}

/// The first three entries as `key:count`, joined by `, `.
fn top_keys_string(sorted: &Vec<KeyCount>) -> (r: String)
    ensures
        r@ == top_keys_text(entry_views(sorted@)),
{
    let ghost sv = entry_views(sorted@);
    let n: usize = if sorted.len() > 3 { 3 } else { sorted.len() };
    let mut parts: Vec<String> = Vec::new();
    let ghost top = if sv.len() > 3 { sv.take(3) } else { sv };
    let ghost shown = top.map_values(|e: (Seq<char>, nat)| e.0 + ":"@ + nat_text(e.1));
    let mut i: usize = 0;
    while i < n
        invariant
            i <= n,
            n == top.len(),
            n <= sorted@.len(),
            sv == entry_views(sorted@),
            top == (if sv.len() > 3 { sv.take(3) } else { sv }),
            shown == top.map_values(|e: (Seq<char>, nat)| e.0 + ":"@ + nat_text(e.1)),
            views(parts@) == shown.subrange(0, i as int),
        decreases n - i,
    {
        let mut t = sorted[i].key.clone();
        push_char(&mut t, ':');
        push_uint(&mut t, sorted[i].count as u64);
        proof {
            reveal_strlit(":");
            assert(top[i as int] == sv[i as int]);
            assert(t@ =~= shown[i as int]);
        }
        let ghost p0 = parts@;
        parts.push(t);
        assert(views(parts@) =~= views(p0).push(t@));
        assert(shown.subrange(0, i + 1) =~= shown.subrange(0, i as int).push(shown[i as int]));
        i += 1;
    }
    assert(shown.subrange(0, n as int) =~= shown);
    join_strings(&parts, ", ")
}

/// The cross-process linking summary of a display forest: linked and
/// orphaned worker spans, parents, and the three most frequent orphan keys.
pub fn cross_process_link_summary_view(spans: &Vec<DisplaySpan>) -> (r: CrossProcessLinkSummaryView)
    requires
        crate::display::flat_display(spans@).len() <= usize::MAX,
    ensures
        r.linked == link_counts(spans@, false).linked,
        r.orphan == link_counts(spans@, false).orphan,
        r.parents == link_counts(spans@, false).parents,
        exists|entries: Seq<(Seq<char>, nat)>|
            #![trigger top_keys_text(entries)]
            orphan_entries(entries, link_counts(spans@, false).keys) && r.orphan_keys@ == top_keys_text(entries),
{
    let mut summary = CrossProcessLinkSummaryView { linked: 0, orphan: 0, parents: 0, orphan_keys: String::new() };
    let mut keys: Vec<String> = Vec::new();
    collect_cross_process_link_summary(spans, false, &mut summary, &mut keys);
    assert(views(keys@) =~= link_counts(spans@, false).keys);
    let sorted = sorted_key_entries(&keys);
    summary.orphan_keys = top_keys_string(&sorted);
    assert(top_keys_text(entry_views(sorted@)) == summary.orphan_keys@);
    summary
}

} // verus!
