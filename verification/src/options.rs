//! The filter options of the span views: one per process (discovered or
//! named by span attributes) and one per span name.

use vstd::prelude::*;
use vstd::utf8::{decode_utf8, encode_utf8, is_char_boundary};
use crate::display::{DisplayData, DisplaySpan, flat_display, pid_from_attrs_spec, process_pid_from_attrs};
use crate::model::TraceProcessInfo;
use crate::rl_contract::{attr_spec, attr_string};
use crate::order::{SortKey, key_le, lex_le, sort_by_sort_key, sorted_by_key_le, sorted_distinct_texts, compare_text, lemma_map_multiset};
use crate::summary::text_in;
use crate::client::views;
use crate::text::{int_text, nat_text, push_char, push_int, push_str, push_uint, seq_contains, str_contains, string_of};

verus! {

/// A worker id can be cut to its first 8 bytes: it is no longer, or its
/// 8th byte ends a character.
pub open spec fn short_id_ok(v: Seq<char>) -> bool {
    encode_utf8(v).len() > 8 ==> is_char_boundary(encode_utf8(v), 8)
}

/// The first 8 bytes of an id, as text (the whole id when shorter).
pub open spec fn short_text(v: Seq<char>) -> Seq<char> {
    if encode_utf8(v).len() > 8 {
        decode_utf8(encode_utf8(v).take(8))
    } else {
        v
    }
}

/// The first 8 bytes of an id.
pub fn short_id(value: &str) -> (r: String)
    requires
        short_id_ok(value@),
    ensures
        r@ == short_text(value@),
{
    broadcast use vstd::utf8::encode_utf8_decode_utf8;

    let bytes = value.as_bytes();
    if bytes.len() > 8 {
        let (head, _rest) = value.split_at(8);
        proof {
            assert(encode_utf8(head@) =~= encode_utf8(value@).subrange(0, 8));
            assert(encode_utf8(value@).subrange(0, 8) =~= encode_utf8(value@).take(8));
            assert(decode_utf8(encode_utf8(head@)) == head@);
            assert(short_text(value@) == decode_utf8(encode_utf8(value@).take(8)));
        }
        string_of(head)
    } else {
        string_of(value)
    }
}

/// The actor name and the short worker id of a process, each when present
/// and not empty, each after ` | ` (the worker id after ` | worker:`).
pub open spec fn label_tail(actor: Option<Seq<char>>, worker: Option<Seq<char>>) -> Seq<char> {
    let a = match actor {
        Some(a) => if a.len() > 0 {
            " | "@ + a
        } else {
            Seq::empty()
        },
        None => Seq::empty(),
    };
    let w = match worker {
        Some(w) => if w.len() > 0 {
            " | worker:"@ + short_text(w)
        } else {
            Seq::empty()
        },
        None => Seq::empty(),
    };
    a + w
}

pub open spec fn opt_text_or(o: Option<Seq<char>>, d: Seq<char>) -> Seq<char> {
    match o {
        Some(t) => t,
        None => d,
    }
}

/// The label of a discovered process: `role:pid` (`process` when it has no
/// role), then its actor name and short worker id.
pub open spec fn trace_process_label_spec(p: TraceProcessInfo) -> Seq<char> {
    opt_text_or(p.process_role.deep_view(), "process"@) + ":"@ + int_text(p.pid as int) + label_tail(
        p.ray_actor_name.deep_view(),
        p.ray_worker_id.deep_view(),
    )
}

pub open spec fn worker_ok(w: Option<Seq<char>>) -> bool {
    match w {
        Some(t) => short_id_ok(t),
        None => true,
    }
}

/// Appends the actor and worker parts of a process label.
fn push_label_tail(s: &mut String, actor: &Option<String>, worker: &Option<String>)
    requires
        worker_ok(worker.deep_view()),
    ensures
        final(s)@ == old(s)@ + label_tail(actor.deep_view(), worker.deep_view()),
{
    proof {
        reveal_strlit(" | ");
        reveal_strlit(" | worker:");
    }
    let ghost s0 = s@;
    if let Some(a) = actor {
        if !a.as_str().is_empty() {
            push_str(s, " | ");
            push_str(s, a.as_str());
        }
    }
    let ghost s1 = s@;
    if let Some(w) = worker {
        if !w.as_str().is_empty() {
            push_str(s, " | worker:");
            let short = short_id(w.as_str());
            push_str(s, short.as_str());
        }
    }
    assert(s@ =~= s0 + label_tail(actor.deep_view(), worker.deep_view()));
}

/// The label of a discovered process.
pub fn trace_process_label(process: &TraceProcessInfo) -> (r: String)
    requires
        worker_ok(process.ray_worker_id.deep_view()),
    ensures
        r@ == trace_process_label_spec(*process),
{
    let mut s = match &process.process_role {
        Some(r) => r.clone(),
        None => string_of("process"),
    };
    push_char(&mut s, ':');
    push_int(&mut s, process.pid as i64);
    push_label_tail(&mut s, &process.ray_actor_name, &process.ray_worker_id);
    proof {
        reveal_strlit(":");
    }
    assert(s@ =~= trace_process_label_spec(*process));
    s
}

/// A choice of a filter: the key it filters by and the label it shows.
pub struct FilterOption {
    pub filter_key: String,
    pub label: String,
}

/// Driver processes first, then rollout processes, then the rest.
pub open spec fn option_rank_spec(label: Seq<char>) -> int {
    if seq_contains(label, "driver"@) {
        0
    } else if seq_contains(label, "rollout"@) {
        1
    } else {
        2
    }
}

/// The rank of a process option: driver, rollout, other.
pub fn process_option_rank(option: &FilterOption) -> (r: usize)
    ensures
        r == option_rank_spec(option.label@),
{
    if str_contains(option.label.as_str(), "driver") {
        0
    } else if str_contains(option.label.as_str(), "rollout") {
        1
    } else {
        2
    }
}

/// A filter option as values.
pub struct OptView {
    pub filter_key: Seq<char>,
    pub label: Seq<char>,
}

pub open spec fn opt_view(o: FilterOption) -> OptView {
    OptView { filter_key: o.filter_key@, label: o.label@ }
}

pub open spec fn opt_views(v: Seq<FilterOption>) -> Seq<OptView> {
    v.map_values(|o: FilterOption| opt_view(o))
}

/// Process options are ordered by rank, then by label.
pub open spec fn process_option_key(o: OptView) -> SortKey {
    SortKey { rank: option_rank_spec(o.label), first: o.label, second: Seq::empty() }
}

/// The option a discovered process offers, keyed by its pid.
pub open spec fn discovered_candidate(p: TraceProcessInfo) -> (Seq<char>, OptView) {
    (int_text(p.pid as int), OptView { filter_key: "pid:"@ + int_text(p.pid as int), label: trace_process_label_spec(p) })
}

/// The option a span with process `pid` offers: `role:pid` (`process` when
/// it has no role), then its actor name and short worker id.
pub open spec fn span_candidate(attrs: Option<Seq<char>>, pid: Seq<char>) -> (Seq<char>, OptView) {
    (
        pid,
        OptView {
            filter_key: "pid:"@ + pid,
            label: opt_text_or(attr_spec(attrs, "process_role"@), "process"@) + ":"@ + pid + label_tail(
                attr_spec(attrs, "ray_actor_name"@),
                attr_spec(attrs, "ray_worker_id"@),
            ),
        },
    )
}

/// The options the spans offer, in display order: one per span that names a pid.
pub open spec fn span_candidates(attrs: Seq<Option<Seq<char>>>) -> Seq<(Seq<char>, OptView)>
    decreases attrs.len(),
{
    if attrs.len() == 0 {
        Seq::empty()
    } else {
        let rest = span_candidates(attrs.drop_last());
        match pid_from_attrs_spec(attrs.last()) {
            Some(pid) => rest.push(span_candidate(attrs.last(), pid)),
            None => rest,
        }
    }
}

/// Some candidate of `s` has key `k`.
pub open spec fn has_key(s: Seq<(Seq<char>, OptView)>, k: Seq<char>) -> bool {
    exists|i: int| 0 <= i < s.len() && (#[trigger] s[i]).0 == k
}

/// The first candidate of each key, in order.
pub open spec fn first_wins(s: Seq<(Seq<char>, OptView)>) -> Seq<(Seq<char>, OptView)>
    decreases s.len(),
{
    if s.len() == 0 {
        Seq::empty()
    } else {
        let r = first_wins(s.drop_last());
        if has_key(r, s.last().0) {
            r
        } else {
            r.push(s.last())
        }
    }
}

/// The attributes of every span of a forest, in display order.
pub open spec fn flat_attrs(flat: Seq<DisplayData>) -> Seq<Option<Seq<char>>> {
    flat.map_values(|x: DisplayData| x.source.attributes)
}

/// The process options of the spans and the discovered processes: one per
/// pid (a discovered process first, else the first span naming it), ordered
/// by rank and label.
pub open spec fn process_candidates(spans: Seq<DisplaySpan>, discovered: Seq<TraceProcessInfo>) -> Seq<(Seq<char>, OptView)> {
    first_wins(discovered.map_values(|p: TraceProcessInfo| discovered_candidate(p)) + span_candidates(flat_attrs(flat_display(spans))))
}

/// A span that names a process carries a worker id that can be cut to 8
/// bytes (or none).
pub open spec fn span_worker_ok(attrs: Option<Seq<char>>) -> bool {
    pid_from_attrs_spec(attrs) is Some ==> worker_ok(attr_spec(attrs, "ray_worker_id"@))
}

/// Every worker id that a label is made from can be cut to 8 bytes: those of
/// the discovered processes and of the spans that name a process.
pub open spec fn worker_ids_ok(spans: Seq<DisplaySpan>, discovered: Seq<TraceProcessInfo>) -> bool {
    &&& forall|i: int| 0 <= i < discovered.len() ==> worker_ok((#[trigger] discovered[i]).ray_worker_id.deep_view())
    &&& forall|i: int| 0 <= i < flat_display(spans).len() ==> span_worker_ok(
        (#[trigger] flat_display(spans)[i]).source.attributes,
    )
}

/// Appends the attributes of every span of `spans`, in display order.
fn collect_attrs(spans: &Vec<DisplaySpan>, out: &mut Vec<Option<String>>)
    ensures
        final(out)@.map_values(|a: Option<String>| a.deep_view()) == old(out)@.map_values(|a: Option<String>| a.deep_view())
            + flat_attrs(flat_display(spans@)),
    decreases spans@,
{
    let ghost o0 = out@.map_values(|a: Option<String>| a.deep_view());
    let mut i: usize = 0;
    assert(spans@.subrange(0, 0) =~= Seq::<DisplaySpan>::empty());
    assert(o0 + flat_attrs(flat_display(Seq::<DisplaySpan>::empty())) =~= o0);
    while i < spans.len()
        invariant
            i <= spans@.len(),
            out@.map_values(|a: Option<String>| a.deep_view()) == o0 + flat_attrs(flat_display(spans@.subrange(0, i as int))),
        decreases spans@.len() - i,
    {
        let t = &spans[i];
        let ghost pre = spans@.subrange(0, i as int);
        let ghost o1 = out@;
        proof {
            assert(spans@.subrange(0, i + 1) =~= pre.push(*t));
            crate::display::lemma_flat_display_push(pre, *t);
            assert(crate::display::flat_display_tree(*t) == seq![crate::display::display_data(*t)] + flat_display(t.children@));
        }
        out.push(crate::text::copy_opt_string(&t.attributes));
        assert(out@.map_values(|a: Option<String>| a.deep_view()) =~= o1.map_values(|a: Option<String>| a.deep_view()).push(
            t.attributes.deep_view(),
        ));
        collect_attrs(&t.children, out);
        proof {
            let fd = flat_display(spans@.subrange(0, i + 1));
            assert(flat_attrs(fd) =~= flat_attrs(flat_display(pre)) + seq![t.attributes.deep_view()] + flat_attrs(
                flat_display(t.children@),
            ));
            assert(out@.map_values(|a: Option<String>| a.deep_view()) =~= o0 + flat_attrs(fd));
        }
        i += 1;
    }
    assert(spans@.subrange(0, spans@.len() as int) =~= spans@);
}

pub open spec fn cand_views(v: Seq<(String, FilterOption)>) -> Seq<(Seq<char>, OptView)> {
    v.map_values(|c: (String, FilterOption)| (c.0@, opt_view(c.1)))
}

/// Adds a candidate unless its key is already there.
fn add_candidate(by_pid: &mut Vec<(String, FilterOption)>, key: String, opt: FilterOption)
    ensures
        cand_views(final(by_pid)@) == if has_key(cand_views(old(by_pid)@), key@) {
            cand_views(old(by_pid)@)
        } else {
            cand_views(old(by_pid)@).push((key@, opt_view(opt)))
        },
{
    let mut i: usize = 0;
    while i < by_pid.len()
        invariant
            i <= by_pid@.len(),
            forall|k: int| 0 <= k < i ==> (#[trigger] by_pid@[k]).0@ != key@,
        decreases by_pid@.len() - i,
    {
        if compare_text(by_pid[i].0.as_str(), key.as_str()) == 0 {
            assert(cand_views(by_pid@)[i as int].0 == key@);
            return;
        }
        i += 1;
    }
    proof {
        if has_key(cand_views(by_pid@), key@) {
            let k = choose|k: int| 0 <= k < cand_views(by_pid@).len() && (#[trigger] cand_views(by_pid@)[k]).0 == key@;
            assert(by_pid@[k].0@ == key@);
        }
    }
    let ghost b0 = by_pid@;
    let ghost ov = opt_view(opt);
    by_pid.push((key, opt));
    assert(cand_views(by_pid@) =~= cand_views(b0).push((key@, ov)));
}

pub(crate) proof fn lemma_rank_key_le(r1: int, r2: int, a: Seq<char>, b: Seq<char>)
    ensures
        key_le(SortKey { rank: r1, first: a, second: Seq::empty() }, SortKey { rank: r2, first: b, second: Seq::empty() })
            == (r1 < r2 || (r1 == r2 && crate::order::lex_le(a, b))),
{
    crate::order::lemma_text_key_le(a, b);
}

fn option_le(a: &FilterOption, b: &FilterOption) -> (r: bool)
    ensures
        r == key_le(process_option_key(opt_view(*a)), process_option_key(opt_view(*b))),
{
    proof {
        lemma_rank_key_le(option_rank_spec(a.label@), option_rank_spec(b.label@), a.label@, b.label@);
    }
    let ra = process_option_rank(a);
    let rb = process_option_rank(b);
    ra < rb || (ra == rb && compare_text(a.label.as_str(), b.label.as_str()) <= 0)
}

/// The label a span offers for process `pid`.
fn span_option_label(attrs: &Option<String>, pid: &String) -> (r: String)
    requires
        worker_ok(attr_spec(attrs.deep_view(), "ray_worker_id"@)),
    ensures
        r@ == span_candidate(attrs.deep_view(), pid@).1.label,
{
    let mut s = match attr_string(attrs, "process_role") {
        Some(r) => r,
        None => string_of("process"),
    };
    push_char(&mut s, ':');
    push_str(&mut s, pid.as_str());
    let actor = attr_string(attrs, "ray_actor_name");
    let worker = attr_string(attrs, "ray_worker_id");
    push_label_tail(&mut s, &actor, &worker);
    proof {
        reveal_strlit(":");
    }
    assert(s@ =~= span_candidate(attrs.deep_view(), pid@).1.label);
    s
}

/// The process filter options: one per pid, from the discovered processes
/// first and then from the spans' attributes, driver processes first, then
/// rollout processes, then by label.
pub fn collect_process_options(spans: &Vec<DisplaySpan>, discovered: &Vec<TraceProcessInfo>) -> (r: Vec<FilterOption>)
    requires
        worker_ids_ok(spans@, discovered@),
    ensures
        opt_views(r@).to_multiset() == process_candidates(spans@, discovered@).map_values(
            |c: (Seq<char>, OptView)| c.1,
        ).to_multiset(),
        forall|i: int, j: int| 0 <= i < j < r@.len() ==> key_le(
            #[trigger] process_option_key(opt_view(r@[i])),
            #[trigger] process_option_key(opt_view(r@[j])),
        ),
{
    let ghost dc = discovered@.map_values(|p: TraceProcessInfo| discovered_candidate(p));
    let mut by_pid: Vec<(String, FilterOption)> = Vec::new();
    let mut i: usize = 0;
    assert(dc.take(0) =~= Seq::<(Seq<char>, OptView)>::empty());
    while i < discovered.len()
        invariant
            i <= discovered@.len(),
            worker_ids_ok(spans@, discovered@),
            dc == discovered@.map_values(|p: TraceProcessInfo| discovered_candidate(p)),
            cand_views(by_pid@) == first_wins(dc.take(i as int)),
        decreases discovered@.len() - i,
    {
        let p = &discovered[i];
        proof {
            assert(worker_ok(discovered@[i as int].ray_worker_id.deep_view()));
            assert(dc.take(i + 1) =~= dc.take(i as int).push(dc[i as int]));
            assert(dc.take(i + 1).drop_last() =~= dc.take(i as int));
            reveal_strlit("pid:");
        }
        let key = crate::text::int_to_string(p.pid as i64);
        let mut fk = string_of("pid:");
        push_int(&mut fk, p.pid as i64);
        let label = trace_process_label(p);
        add_candidate(&mut by_pid, key, FilterOption { filter_key: fk, label });
        i += 1;
    }
    assert(dc.take(discovered@.len() as int) =~= dc);
    let mut attrs: Vec<Option<String>> = Vec::new();
    collect_attrs(spans, &mut attrs);
    let ghost av = attrs@.map_values(|a: Option<String>| a.deep_view());
    assert(av =~= flat_attrs(flat_display(spans@)));
    let mut k: usize = 0;
    assert(dc + span_candidates(av.take(0)) =~= dc) by {
        assert(av.take(0) =~= Seq::<Option<Seq<char>>>::empty());
    }
    while k < attrs.len()
        invariant
            k <= attrs@.len(),
            av == attrs@.map_values(|a: Option<String>| a.deep_view()),
            av == flat_attrs(flat_display(spans@)),
            worker_ids_ok(spans@, discovered@),
            cand_views(by_pid@) == first_wins(dc + span_candidates(av.take(k as int))),
        decreases attrs@.len() - k,
    {
        proof {
            assert(av.take(k + 1).drop_last() =~= av.take(k as int));
            assert(av.take(k + 1).last() == attrs@[k as int].deep_view());
            assert(av.len() == attrs@.len());
            assert(flat_attrs(flat_display(spans@)).len() == flat_display(spans@).len());
            assert(flat_attrs(flat_display(spans@))[k as int] == flat_display(spans@)[k as int].source.attributes);
            assert(flat_display(spans@)[k as int].source.attributes == av[k as int]);
            assert(span_worker_ok(attrs@[k as int].deep_view()));
            reveal_strlit("pid:");
        }
        match process_pid_from_attrs(&attrs[k]) {
            Some(pid) => {
                let mut fk = string_of("pid:");
                push_str(&mut fk, pid.as_str());
                let label = span_option_label(&attrs[k], &pid);
                proof {
                    let c = span_candidate(av[k as int], pid@);
                    assert(span_candidates(av.take(k + 1)) == span_candidates(av.take(k as int)).push(c));
                    assert(dc + span_candidates(av.take(k + 1)) =~= (dc + span_candidates(av.take(k as int))).push(c));
                    assert((dc + span_candidates(av.take(k + 1))).drop_last() =~= dc + span_candidates(av.take(k as int)));
                }
                add_candidate(&mut by_pid, pid, FilterOption { filter_key: fk, label });
            },
            None => {
                proof {
                    assert(span_candidates(av.take(k + 1)) == span_candidates(av.take(k as int)));
                }
            },
        }
        k += 1;
    }
    assert(av.take(attrs@.len() as int) =~= av);
    let ghost all = cand_views(by_pid@);
    let mut options: Vec<FilterOption> = Vec::new();
    let mut rest = by_pid;
    while rest.len() > 0
        invariant
            opt_views(options@) + cand_views(rest@).map_values(|c: (Seq<char>, OptView)| c.1) == all.map_values(
                |c: (Seq<char>, OptView)| c.1,
            ),
        decreases rest@.len(),
    {
        let ghost o0 = options@;
        let ghost rv = rest@;
        let (_, o) = rest.remove(0);
        options.push(o);
        proof {
            assert(opt_views(options@) =~= opt_views(o0).push(opt_view(rv[0].1)));
            assert(cand_views(rv).map_values(|c: (Seq<char>, OptView)| c.1) =~= seq![opt_view(rv[0].1)] + cand_views(rest@).map_values(
                |c: (Seq<char>, OptView)| c.1,
            ));
            assert(opt_views(options@) + cand_views(rest@).map_values(|c: (Seq<char>, OptView)| c.1) =~= opt_views(o0)
                + cand_views(rv).map_values(|c: (Seq<char>, OptView)| c.1));
        }
    }
    assert(opt_views(options@) =~= all.map_values(|c: (Seq<char>, OptView)| c.1));
    let ghost key = |o: FilterOption| process_option_key(opt_view(o));
    let le = |a: &FilterOption, b: &FilterOption| -> (r: bool)
        ensures
            r == key_le(process_option_key(opt_view(*a)), process_option_key(opt_view(*b))),
        { option_le(a, b) };
    let ghost unsorted = options@;
    let sorted = sort_by_sort_key(options, Ghost(key), le);
    proof {
        let f = |o: FilterOption| opt_view(o);
        lemma_map_multiset(sorted@, unsorted, f);
        assert(sorted@.map_values(f) =~= opt_views(sorted@));
        assert(unsorted.map_values(f) =~= opt_views(unsorted));
        assert forall|i: int, j: int| 0 <= i < j < sorted@.len() implies key_le(
            #[trigger] process_option_key(opt_view(sorted@[i])),
            #[trigger] process_option_key(opt_view(sorted@[j])),
        ) by {
            assert(key_le(key(sorted@[i]), key(sorted@[j])));
        }
    }
    sorted
}

/// Whether a worker id can be cut to its first 8 bytes.
pub fn worker_id_ok(id: &str) -> (r: bool)
    ensures
        r == short_id_ok(id@),
{
    id.as_bytes().len() <= 8 || id.is_char_boundary(8)
}

fn opt_worker_ok(w: &Option<String>) -> (r: bool)
    ensures
        r == worker_ok(w.deep_view()),
{
    match w {
        Some(t) => worker_id_ok(t.as_str()),
        None => true,
    }
}

/// Whether every worker id a label is made from, of the discovered processes
/// and of the spans that name a process, can be cut to its first 8 bytes.
pub fn worker_ids_valid(spans: &Vec<DisplaySpan>, discovered: &Vec<TraceProcessInfo>) -> (r: bool)
    ensures
        r == worker_ids_ok(spans@, discovered@),
{
    let mut i: usize = 0;
    while i < discovered.len()
        invariant
            i <= discovered@.len(),
            forall|k: int| 0 <= k < i ==> worker_ok((#[trigger] discovered@[k]).ray_worker_id.deep_view()),
        decreases discovered@.len() - i,
    {
        if !opt_worker_ok(&discovered[i].ray_worker_id) {
            return false;
        }
        i += 1;
    }
    let mut attrs: Vec<Option<String>> = Vec::new();
    collect_attrs(spans, &mut attrs);
    let ghost fa = flat_attrs(flat_display(spans@));
    assert(attrs@.map_values(|a: Option<String>| a.deep_view()) =~= fa);
    let mut j: usize = 0;
    while j < attrs.len()
        invariant
            j <= attrs@.len(),
            fa == flat_attrs(flat_display(spans@)),
            attrs@.map_values(|a: Option<String>| a.deep_view()) == fa,
            forall|k: int| 0 <= k < j ==> span_worker_ok(#[trigger] fa[k]),
        decreases attrs@.len() - j,
    {
        let w = attr_string(&attrs[j], "ray_worker_id");
        let names_pid = process_pid_from_attrs(&attrs[j]).is_some();
        assert(attrs@[j as int].deep_view() == fa[j as int]);
        if names_pid && !opt_worker_ok(&w) {
            proof {
                assert(attrs@.map_values(|a: Option<String>| a.deep_view()).len() == attrs@.len());
                assert(fa.len() == flat_display(spans@).len());
                assert(flat_display(spans@)[j as int].source.attributes == fa[j as int]);
                assert(!span_worker_ok(flat_display(spans@)[j as int].source.attributes));
            }
            return false;
        }
        j += 1;
    }
    proof {
        assert forall|k: int| 0 <= k < flat_display(spans@).len() implies span_worker_ok(
            (#[trigger] flat_display(spans@)[k]).source.attributes,
        ) by {
            assert(fa[k] == flat_display(spans@)[k].source.attributes);
        }
    }
    true
}

/// The process filter options, or none when a worker id cannot be cut to
/// its first 8 bytes.
pub fn collect_process_options_checked(spans: &Vec<DisplaySpan>, discovered: &Vec<TraceProcessInfo>) -> (r: Option<
    Vec<FilterOption>,
>)
    ensures
        r is None <==> !worker_ids_ok(spans@, discovered@),
        r matches Some(v) ==> opt_views(v@).to_multiset() == process_candidates(spans@, discovered@).map_values(
            |c: (Seq<char>, OptView)| c.1,
        ).to_multiset(),
        r matches Some(v) ==> forall|i: int, j: int| 0 <= i < j < v@.len() ==> key_le(
            #[trigger] process_option_key(opt_view(v@[i])),
            #[trigger] process_option_key(opt_view(v@[j])),
        ),
{
    if worker_ids_valid(spans, discovered) {
        Some(collect_process_options(spans, discovered))
    } else {
        None
    }
}

/// The names of every span of a forest, in display order.
pub open spec fn flat_names(flat: Seq<DisplayData>) -> Seq<Seq<char>> {
    flat.map_values(|x: DisplayData| x.source.name)
}

/// Appends the names of every span of `spans`, in display order.
fn collect_names(spans: &Vec<DisplaySpan>, out: &mut Vec<String>)
    ensures
        views(final(out)@) == views(old(out)@) + flat_names(flat_display(spans@)),
    decreases spans@,
{
    let ghost o0 = views(out@);
    let mut i: usize = 0;
    assert(spans@.subrange(0, 0) =~= Seq::<DisplaySpan>::empty());
    assert(o0 + flat_names(flat_display(Seq::<DisplaySpan>::empty())) =~= o0);
    while i < spans.len()
        invariant
            i <= spans@.len(),
            views(out@) == o0 + flat_names(flat_display(spans@.subrange(0, i as int))),
        decreases spans@.len() - i,
    {
        let t = &spans[i];
        let ghost pre = spans@.subrange(0, i as int);
        let ghost o1 = out@;
        proof {
            assert(spans@.subrange(0, i + 1) =~= pre.push(*t));
            crate::display::lemma_flat_display_push(pre, *t);
            assert(crate::display::flat_display_tree(*t) == seq![crate::display::display_data(*t)] + flat_display(t.children@));
        }
        out.push(t.name.clone());
        assert(views(out@) =~= views(o1).push(t.name@));
        collect_names(&t.children, out);
        proof {
            let fd = flat_display(spans@.subrange(0, i + 1));
            assert(flat_names(fd) =~= flat_names(flat_display(pre)) + seq![t.name@] + flat_names(flat_display(t.children@)));
            assert(views(out@) =~= o0 + flat_names(fd));
        }
        i += 1;
    }
    assert(spans@.subrange(0, spans@.len() as int) =~= spans@);
}

/// The filter keys of options.
pub open spec fn option_keys(v: Seq<FilterOption>) -> Seq<Seq<char>> {
    v.map_values(|o: FilterOption| o.filter_key@)
}

/// The label of a function option: the name and how many spans carry it.
pub open spec fn function_label(name: Seq<char>, count: nat) -> Seq<char> {
    name + " ("@ + nat_text(count) + ")"@
}

/// One option per distinct name, labelled with how often the name occurs.
fn labelled_options(distinct: &Vec<String>, names: &Vec<String>) -> (r: Vec<FilterOption>)
    ensures
        r@.len() == distinct@.len(),
        forall|k: int| 0 <= k < r@.len() ==> (#[trigger] r@[k]).filter_key@ == distinct@[k]@,
        forall|k: int| 0 <= k < r@.len() ==> (#[trigger] r@[k]).label@ == function_label(
            distinct@[k]@,
            views(names@).to_multiset().count(distinct@[k]@),
        ),
{
    let ghost nv = views(names@);
    let mut out: Vec<FilterOption> = Vec::new();
    let mut i: usize = 0;
    while i < distinct.len()
        invariant
            i <= distinct@.len(),
            nv == views(names@),
            out@.len() == i,
            forall|k: int| 0 <= k < i ==> (#[trigger] out@[k]).filter_key@ == distinct@[k]@,
            forall|k: int| 0 <= k < i ==> (#[trigger] out@[k]).label@ == function_label(distinct@[k]@, nv.to_multiset().count(distinct@[k]@)),
        decreases distinct@.len() - i,
    {
        let c = crate::summary::count_key(names, &distinct[i]);
        let mut label = distinct[i].clone();
        push_str(&mut label, " (");
        push_uint(&mut label, c as u64);
        push_char(&mut label, ')');
        proof {
            reveal_strlit(")");
        }
        assert(label@ =~= function_label(distinct@[i as int]@, nv.to_multiset().count(distinct@[i as int]@)));
        out.push(FilterOption { filter_key: distinct[i].clone(), label });
        i += 1;
    }
    out
}

/// The function filter options: one per span name, in order of name, each
/// labelled with how many spans carry the name.
#[verifier::spinoff_prover]
pub fn collect_function_options(spans: &Vec<DisplaySpan>) -> (r: Vec<FilterOption>)
    ensures
        forall|i: int, j: int| 0 <= i < j < r@.len() ==> lex_le(#[trigger] r@[i].filter_key@, #[trigger] r@[j].filter_key@)
            && r@[i].filter_key@ != r@[j].filter_key@,
        forall|i: int| 0 <= i < r@.len() ==> text_in(
            (#[trigger] r@[i]).filter_key@,
            flat_names(flat_display(spans@)),
        ),
        forall|j: int| 0 <= j < flat_names(flat_display(spans@)).len() ==> text_in(
            #[trigger] flat_names(flat_display(spans@))[j],
            option_keys(r@),
        ),
        forall|i: int| 0 <= i < r@.len() ==> (#[trigger] r@[i]).label@ == function_label(
            r@[i].filter_key@,
            flat_names(flat_display(spans@)).to_multiset().count(r@[i].filter_key@),
        ),
{
    let mut names: Vec<String> = Vec::new();
    collect_names(spans, &mut names);
    let ghost nv = views(names@);
    assert(nv =~= flat_names(flat_display(spans@)));
    let copy = crate::summary::copy_strings(&names);
    let ghost cv = copy@;
    let distinct = sorted_distinct_texts(copy);
    let out = labelled_options(&distinct, &names);
    proof {
        assert forall|a: int, b: int| 0 <= a < b < out@.len() implies lex_le(#[trigger] out@[a].filter_key@, #[trigger] out@[b].filter_key@)
            && out@[a].filter_key@ != out@[b].filter_key@ by {
            assert(lex_le(distinct@[a]@, distinct@[b]@) && distinct@[a]@ != distinct@[b]@);
        }
        assert forall|a: int| 0 <= a < out@.len() implies text_in((#[trigger] out@[a]).filter_key@, nv) by {
            let j = choose|j: int| 0 <= j < cv.len() && distinct@[a]@ == cv[j]@;
            assert(nv[j] == cv[j]@);
        }
        assert forall|j: int| 0 <= j < nv.len() implies text_in(#[trigger] nv[j], option_keys(out@)) by {
            assert(nv[j] == cv[j]@);
            let a = choose|a: int| 0 <= a < distinct@.len() && distinct@[a]@ == cv[j]@;
            assert(option_keys(out@)[a] == nv[j]);
        }
    }
    out
}

} // verus!
