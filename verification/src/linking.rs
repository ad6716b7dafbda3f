//! Cross-process linking: worker spans of a logical rollout step are pulled
//! out of their own process trees and re-attached under the step's parent
//! span, wherever it was recorded.

use vstd::prelude::*;
use vstd::multiset::Multiset;
use crate::model::{SpanData, SpanInfo, span_data, flat_tree, flat_forest, lemma_flat_forest_push,
    lemma_flat_forest_append};
use crate::order::{sort_by_key, sorted_by, stable_sort_by};
use crate::links::{SpanLink, tree_links, links_from, link_bag, tree_link_bag, top_bag, from_bag, tops, lemma_link_bag_perm, lemma_link_bag_push,
    lemma_link_bag_remove, lemma_link_bag_append, lemma_tree_link_bag, lemma_from_bag_perm, lemma_from_bag_push};
use crate::rl_contract::{
    attr_spec, attr_string, is_cross_process_child_candidate, is_cross_process_child_candidate_spec,
    is_rollout_submit_parent_span, is_rollout_submit_parent_span_spec, is_step_parent_span,
    is_step_parent_span_spec, key_view, logical_step_key, opt_as_str, opt_or, same_step_key,
    step_key_spec, LogicalStepKey, is_rollout_worker_role_spec, span_role_spec,
};
use crate::text::{str_eq, seq_starts_with};

verus! {

broadcast use vstd::seq_lib::group_to_multiset_ensures;

/// The span data of a forest, as a multiset.
pub open spec fn forest_bag(s: Seq<SpanInfo>) -> Multiset<SpanData> {
    flat_forest(s).to_multiset()
}

pub open spec fn tree_bag(t: SpanInfo) -> Multiset<SpanData> {
    flat_tree(t).to_multiset()
}

pub proof fn lemma_forest_bag_push(s: Seq<SpanInfo>, t: SpanInfo)
    ensures
        forest_bag(s.push(t)) == forest_bag(s).add(tree_bag(t)),
{
    lemma_flat_forest_push(s, t);
    vstd::seq_lib::lemma_multiset_commutative(flat_forest(s), flat_tree(t));
}

pub proof fn lemma_forest_bag_append(a: Seq<SpanInfo>, b: Seq<SpanInfo>)
    ensures
        forest_bag(a + b) == forest_bag(a).add(forest_bag(b)),
{
    lemma_flat_forest_append(a, b);
    vstd::seq_lib::lemma_multiset_commutative(flat_forest(a), flat_forest(b));
}

proof fn lemma_forest_bag_remove(s: Seq<SpanInfo>, i: int)
    requires
        0 <= i < s.len(),
    ensures
        forest_bag(s) == forest_bag(s.remove(i)).add(tree_bag(s[i])),
{
    broadcast use vstd::multiset::group_multiset_axioms;
    let a = s.subrange(0, i);
    let b = s.subrange(i + 1, s.len() as int);
    assert(s =~= a.push(s[i]) + b);
    assert(s.remove(i) =~= a + b);
    lemma_forest_bag_append(a.push(s[i]), b);
    lemma_forest_bag_push(a, s[i]);
    lemma_forest_bag_append(a, b);
    assert(forest_bag(s) =~= forest_bag(s.remove(i)).add(tree_bag(s[i])));
}

/// A forest's span data depends only on which trees it holds, not their order.
pub proof fn lemma_forest_bag_perm(a: Seq<SpanInfo>, b: Seq<SpanInfo>)
    requires
        a.to_multiset() == b.to_multiset(),
    ensures
        forest_bag(a) == forest_bag(b),
    decreases a.len(),
{
    broadcast use vstd::multiset::group_multiset_axioms;
    if a.len() == 0 {
        assert(a.to_multiset().len() == 0);
        assert(b.to_multiset().len() == b.len());
        assert(b.len() == 0);
        assert(a =~= b);
    } else {
        let x = a.last();
        let a0 = a.drop_last();
        assert(a =~= a0.push(x));
        assert(b.to_multiset().count(x) > 0);
        assert(b.contains(x));
        let i = choose|i: int| 0 <= i < b.len() && b[i] == x;
        let b0 = b.remove(i);
        assert(b0.to_multiset() =~= b.to_multiset().remove(x));
        assert(a0.to_multiset() =~= a.to_multiset().remove(x));
        lemma_forest_bag_perm(a0, b0);
        lemma_forest_bag_remove(b, i);
        lemma_forest_bag_push(a0, x);
    }
}

/// Every level of a forest is ordered by start time.
pub open spec fn forest_sorted(s: Seq<SpanInfo>) -> bool
    decreases s,
{
    &&& sorted_by(s, |t: SpanInfo| t.start_timestamp as int)
    &&& forall|i: int| 0 <= i < s.len() ==> forest_sorted(#[trigger] s[i].children@)
}

/// Spans in start order; spans starting together keep their order.
pub open spec fn by_start(s: Seq<SpanInfo>) -> Seq<SpanInfo> {
    stable_sort_by(s, |t: SpanInfo| t.start_timestamp as int)
}

/// Orders spans by start time.
pub fn sort_by_start(v: Vec<SpanInfo>) -> (r: Vec<SpanInfo>)
    ensures
        r@ == by_start(v@),
        r@.len() == v@.len(),
        r@.to_multiset() == v@.to_multiset(),
        forest_bag(r@) == forest_bag(v@),
        link_bag(r@) == link_bag(v@),
        top_bag(r@) == top_bag(v@),
        sorted_by(r@, |t: SpanInfo| t.start_timestamp as int),
{
    let by_start = |s: &SpanInfo| -> (k: i128)
        ensures
            k == s.start_timestamp as int,
        { s.start_timestamp as i128 };
    let r = sort_by_key(v, Ghost(|t: SpanInfo| t.start_timestamp as int), by_start);
    proof {
        lemma_forest_bag_perm(r@, v@);
        lemma_link_bag_perm(r@, v@);
    }
    r
}

/// Moves the children out of a span.
fn detach_children(s: &mut SpanInfo) -> (c: Vec<SpanInfo>)
    ensures
        c@ == old(s).children@,
        final(s).children@.len() == 0,
        span_data(*final(s)) == span_data(*old(s)),
{
    let mut c: Vec<SpanInfo> = Vec::new();
    std::mem::swap(&mut s.children, &mut c);
    c
}

proof fn lemma_tree_bag_children(t: SpanInfo, u: SpanInfo)
    requires
        span_data(t) == span_data(u),
    ensures
        tree_bag(t) == tree_bag(u).sub(forest_bag(u.children@)).add(forest_bag(t.children@)),
        tree_bag(u) == Multiset::singleton(span_data(u)).add(forest_bag(u.children@)),
        tree_bag(t) == Multiset::singleton(span_data(t)).add(forest_bag(t.children@)),
{
    broadcast use vstd::multiset::group_multiset_axioms;
    vstd::seq_lib::lemma_multiset_commutative(seq![span_data(t)], flat_forest(t.children@));
    vstd::seq_lib::lemma_multiset_commutative(seq![span_data(u)], flat_forest(u.children@));
    assert(seq![span_data(t)].to_multiset() =~= Multiset::singleton(span_data(t)));
    assert(seq![span_data(u)].to_multiset() =~= Multiset::singleton(span_data(u)));
    assert(tree_bag(t) =~= tree_bag(u).sub(forest_bag(u.children@)).add(forest_bag(t.children@)));
}

/// `r` is the forest `s` with the children of every span in start order.
pub open spec fn sorted_copy(r: Seq<SpanInfo>, s: Seq<SpanInfo>) -> bool
    decreases r,
{
    &&& r.len() == s.len()
    &&& forall|i: int|
        0 <= i < r.len() ==> span_data(#[trigger] r[i]) == span_data(s[i]) && sorted_copy(
            r[i].children@,
            by_start(s[i].children@),
        )
}

/// Sorts the spans of every level by start time.
pub fn sort_span_tree(spans: Vec<SpanInfo>) -> (r: Vec<SpanInfo>)
    ensures
        sorted_copy(r@, by_start(spans@)),
        forest_bag(r@) == forest_bag(spans@),
        link_bag(r@) == link_bag(spans@),
        top_bag(r@) == top_bag(spans@),
        forest_sorted(r@),
        r@.len() == spans@.len(),
    decreases flat_forest(spans@).len(),
{
    broadcast use vstd::multiset::group_multiset_axioms;
    let sorted = sort_by_start(spans);
    let mut out: Vec<SpanInfo> = Vec::new();
    let mut rest = sorted;
    let ghost s0 = rest@;
    while rest.len() > 0
        invariant
            out@.len() + rest@.len() == s0.len(),
            rest@ == s0.subrange(out@.len() as int, s0.len() as int),
            forest_bag(out@) == forest_bag(s0.subrange(0, out@.len() as int)),
            forall|i: int| 0 <= i < out@.len() ==> forest_sorted(#[trigger] out@[i].children@),
            forall|i: int| 0 <= i < out@.len() ==> span_data(#[trigger] out@[i]) == span_data(s0[i]),
            forall|i: int| 0 <= i < out@.len() ==> sorted_copy(#[trigger] out@[i].children@, by_start(s0[i].children@)),
            s0 == by_start(spans@),
            link_bag(out@) == link_bag(s0.subrange(0, out@.len() as int)),
            forest_bag(s0) == forest_bag(spans@),
            link_bag(s0) == link_bag(spans@),
            top_bag(s0) == top_bag(spans@),
            s0.len() == spans@.len(),
        decreases rest@.len(),
    {
        let mut t = rest.remove(0);
        let ghost t0 = t;
        let children = detach_children(&mut t);
        proof {
            let k = out@.len() as int;
            assert(t0 == s0[k]);
            lemma_forest_bag_remove(s0, k);
            assert(forest_bag(s0).len() == flat_forest(s0).len());
            assert(forest_bag(spans@).len() == flat_forest(spans@).len());
            assert(tree_bag(t0).len() == flat_tree(t0).len());
            assert(flat_tree(t0).len() == 1 + flat_forest(children@).len());
            assert(forest_bag(s0) == forest_bag(s0.remove(k)).add(tree_bag(t0)));
            assert(flat_forest(children@).len() < flat_forest(spans@).len());
        }
        let sorted_children = sort_span_tree(children);
        t.children = sorted_children;
        proof {
            lemma_tree_bag_children(t, t0);
            assert(tree_bag(t) == tree_bag(t0));
            lemma_tree_link_bag(t);
            lemma_tree_link_bag(t0);
            lemma_from_bag_perm(span_data(t0), t.children@, t0.children@);
            assert(tree_link_bag(t) == tree_link_bag(t0));
            let k = out@.len() as int;
            assert(s0.subrange(0, k + 1) =~= s0.subrange(0, k).push(t0));
            lemma_forest_bag_push(s0.subrange(0, k), t0);
            lemma_forest_bag_push(out@, t);
            lemma_link_bag_push(s0.subrange(0, k), t0);
            lemma_link_bag_push(out@, t);
        }
        out.push(t);
        assert(rest@ =~= s0.subrange(out@.len() as int, s0.len() as int));
    }
    assert(s0.subrange(0, s0.len() as int) =~= s0);
    assert(tops(out@) =~= tops(s0));
    assert(sorted_by(out@, |t: SpanInfo| t.start_timestamp as int));
    out
}

/// No span of the forest is a cross-process child candidate.
pub open spec fn candidate_free(s: Seq<SpanInfo>) -> bool
    decreases s,
{
    forall|i: int|
        0 <= i < s.len() ==> !is_cross_process_child_candidate_spec(#[trigger] s[i])
            && candidate_free(s[i].children@)
}

/// The topmost cross-process child candidates of a forest, depth first:
/// the spans that linking pulls out, each with its subtree.
pub open spec fn top_candidates(s: Seq<SpanInfo>) -> Seq<SpanInfo>
    decreases s,
{
    if s.len() == 0 {
        Seq::empty()
    } else {
        top_candidates(s.subrange(0, s.len() - 1)) + tree_candidates(s[s.len() - 1])
    }
}

pub open spec fn tree_candidates(t: SpanInfo) -> Seq<SpanInfo>
    decreases t,
{
    if is_cross_process_child_candidate_spec(t) {
        seq![t]
    } else {
        top_candidates(t.children@)
    }
}

/// The data of the spans that stay in place: those outside the subtree of
/// every candidate.
pub open spec fn staying(s: Seq<SpanInfo>) -> Seq<SpanData>
    decreases s,
{
    if s.len() == 0 {
        Seq::empty()
    } else {
        staying(s.subrange(0, s.len() - 1)) + staying_tree(s[s.len() - 1])
    }
}

pub open spec fn staying_tree(t: SpanInfo) -> Seq<SpanData>
    decreases t,
{
    if is_cross_process_child_candidate_spec(t) {
        Seq::empty()
    } else {
        seq![span_data(t)] + staying(t.children@)
    }
}

/// The data of the spans of a level that stay at that level (those that are
/// not candidates), in order.
pub open spec fn kept_tops(s: Seq<SpanInfo>) -> Seq<SpanData>
    decreases s,
{
    if s.len() == 0 {
        Seq::empty()
    } else {
        kept_tops(s.subrange(0, s.len() - 1)) + (if is_cross_process_child_candidate_spec(s[s.len() - 1]) {
            Seq::empty()
        } else {
            seq![span_data(s[s.len() - 1])]
        })
    }
}

/// The links of a forest that linking keeps: every link but those into a
/// candidate that is pulled out; a candidate keeps every link of its own
/// subtree.
pub open spec fn held_links(s: Seq<SpanInfo>) -> Seq<SpanLink>
    decreases s,
{
    if s.len() == 0 {
        Seq::empty()
    } else {
        held_links(s.subrange(0, s.len() - 1)) + held_tree_links(s[s.len() - 1])
    }
}

pub open spec fn held_tree_links(t: SpanInfo) -> Seq<SpanLink>
    decreases t,
{
    if is_cross_process_child_candidate_spec(t) {
        tree_links(t)
    } else {
        links_from(span_data(t), kept_tops(t.children@)) + held_links(t.children@)
    }
}

/// `kept` is the forest `s` without its candidates (each with its
/// subtree): the other spans, in order, with the same pruning below them.
pub open spec fn prunes(kept: Seq<SpanInfo>, s: Seq<SpanInfo>) -> bool
    decreases s,
{
    if s.len() == 0 {
        kept.len() == 0
    } else if is_cross_process_child_candidate_spec(s[s.len() - 1]) {
        prunes(kept, s.subrange(0, s.len() - 1))
    } else {
        &&& kept.len() > 0
        &&& span_data(kept[kept.len() - 1]) == span_data(s[s.len() - 1])
        &&& prunes(kept.subrange(0, kept.len() - 1), s.subrange(0, s.len() - 1))
        &&& prunes(kept[kept.len() - 1].children@, s[s.len() - 1].children@)
    }
}

proof fn lemma_held_push(s: Seq<SpanInfo>, t: SpanInfo)
    ensures
        held_links(s.push(t)).to_multiset() == held_links(s).to_multiset().add(held_tree_links(t).to_multiset()),
        kept_tops(s.push(t)) == kept_tops(s) + (if is_cross_process_child_candidate_spec(t) {
            Seq::<SpanData>::empty()
        } else {
            seq![span_data(t)]
        }),
        held_tree_links(t).to_multiset() == (if is_cross_process_child_candidate_spec(t) {
            tree_link_bag(t)
        } else {
            links_from(span_data(t), kept_tops(t.children@)).to_multiset().add(held_links(t.children@).to_multiset())
        }),
{
    assert(s.push(t).subrange(0, s.len() as int) =~= s);
    vstd::seq_lib::lemma_multiset_commutative(held_links(s), held_tree_links(t));
    vstd::seq_lib::lemma_multiset_commutative(links_from(span_data(t), kept_tops(t.children@)), held_links(t.children@));
}

proof fn lemma_split_push(s: Seq<SpanInfo>, t: SpanInfo)
    ensures
        top_candidates(s.push(t)) == top_candidates(s) + tree_candidates(t),
        staying(s.push(t)).to_multiset() == staying(s).to_multiset().add(staying_tree(t).to_multiset()),
        !is_cross_process_child_candidate_spec(t) ==> staying_tree(t).to_multiset() == Multiset::singleton(
            span_data(t),
        ).add(staying(t.children@).to_multiset()),
        is_cross_process_child_candidate_spec(t) ==> staying_tree(t).to_multiset() == Multiset::<SpanData>::empty(),
{
    broadcast use vstd::multiset::group_multiset_axioms;
    assert(s.push(t).subrange(0, s.len() as int) =~= s);
    vstd::seq_lib::lemma_multiset_commutative(staying(s), staying_tree(t));
    vstd::seq_lib::lemma_multiset_commutative(seq![span_data(t)], staying(t.children@));
    assert(seq![span_data(t)].to_multiset() =~= Multiset::singleton(span_data(t)));
    assert(Seq::<SpanData>::empty().to_multiset() =~= Multiset::empty());
}

proof fn lemma_tree_bag_split(t0: SpanInfo, t: SpanInfo, kept: Seq<SpanInfo>, pending: Seq<SpanInfo>)
    requires
        span_data(t) == span_data(t0),
        t.children@ == kept,
        forest_bag(kept).add(forest_bag(pending)) == forest_bag(t0.children@),
    ensures
        tree_bag(t).add(forest_bag(pending)) == tree_bag(t0),
{
    broadcast use vstd::multiset::group_multiset_axioms;
    lemma_tree_bag_children(t, t0);
    assert(tree_bag(t).add(forest_bag(pending)) =~= tree_bag(t0));
}

proof fn lemma_tree_size(s: Seq<SpanInfo>, k: int)
    requires
        0 <= k < s.len(),
    ensures
        flat_forest(s[k].children@).len() < flat_forest(s).len(),
{
    lemma_forest_bag_remove(s, k);
    assert(forest_bag(s).len() == flat_forest(s).len());
    assert(tree_bag(s[k]).len() == flat_tree(s[k]).len());
    assert(flat_tree(s[k]).len() == 1 + flat_forest(s[k].children@).len());
}

proof fn lemma_sub_add<V>(a: Multiset<V>, b: Multiset<V>, c: Multiset<V>, d: Multiset<V>)
    requires
        a.subset_of(b),
        c.subset_of(d),
    ensures
        a.add(c).subset_of(b.add(d)),
{
    broadcast use vstd::multiset::group_multiset_axioms;
    assert forall|x: V| a.add(c).count(x) <= b.add(d).count(x) by {
        assert(a.count(x) <= b.count(x));
        assert(c.count(x) <= d.count(x));
    }
}

/// A span whose children were split keeps at most the links it had, less
/// those of the subtrees pulled out.
proof fn lemma_split_links(t0: SpanInfo, t: SpanInfo, pending: Seq<SpanInfo>)
    requires
        span_data(t) == span_data(t0),
        link_bag(t.children@).add(link_bag(pending)).subset_of(link_bag(t0.children@)),
        top_bag(t.children@).subset_of(top_bag(t0.children@)),
    ensures
        tree_link_bag(t).add(link_bag(pending)).subset_of(tree_link_bag(t0)),
{
    broadcast use vstd::multiset::group_multiset_axioms;
    lemma_tree_link_bag(t);
    lemma_tree_link_bag(t0);
    crate::links::lemma_from_bag_sub(span_data(t0), t.children@, t0.children@);
    lemma_sub_add(from_bag(span_data(t0), t.children@), from_bag(span_data(t0), t0.children@),
        link_bag(t.children@).add(link_bag(pending)), link_bag(t0.children@));
    assert(tree_link_bag(t).add(link_bag(pending)) =~= from_bag(span_data(t0), t.children@).add(
        link_bag(t.children@).add(link_bag(pending))));
}

/// Pulls every cross-process child candidate (with its subtree) out of the
/// forest, in depth-first order; the rest keeps its shape.
pub fn split_cross_process_candidates(spans: Vec<SpanInfo>) -> (r: (Vec<SpanInfo>, Vec<SpanInfo>))
    ensures
        forest_bag(r.0@).add(forest_bag(r.1@)) == forest_bag(spans@),
        link_bag(r.0@).add(link_bag(r.1@)).subset_of(link_bag(spans@)),
        link_bag(r.0@).add(link_bag(r.1@)) == held_links(spans@).to_multiset(),
        tops(r.0@) == kept_tops(spans@),
        top_bag(r.0@).subset_of(top_bag(spans@)),
        r.1@ == top_candidates(spans@),
        forest_bag(r.0@) == staying(spans@).to_multiset(),
        prunes(r.0@, spans@),
        candidate_free(r.0@),
        forall|i: int| 0 <= i < r.1@.len() ==> is_cross_process_child_candidate_spec(#[trigger] r.1@[i]),
    decreases flat_forest(spans@).len(),
{
    broadcast use vstd::multiset::group_multiset_axioms;
    let ghost s0 = spans@;
    let _n0 = spans.len();
    let mut kept: Vec<SpanInfo> = Vec::new();
    let mut pending: Vec<SpanInfo> = Vec::new();
    let mut rest = spans;
    let mut done: usize = 0;
    assert(forest_bag(kept@).add(forest_bag(pending@)) =~= forest_bag(s0.subrange(0, 0)));
    while rest.len() > 0
        invariant
            done + rest@.len() == s0.len(),
            rest@ == s0.subrange(done as int, s0.len() as int),
            forest_bag(kept@).add(forest_bag(pending@)) == forest_bag(s0.subrange(0, done as int)),
            candidate_free(kept@),
            forall|i: int| 0 <= i < pending@.len() ==> is_cross_process_child_candidate_spec(#[trigger] pending@[i]),
            s0 == spans@,
            s0.len() <= usize::MAX,
            link_bag(kept@).add(link_bag(pending@)).subset_of(link_bag(s0.subrange(0, done as int))),
            top_bag(kept@).subset_of(top_bag(s0.subrange(0, done as int))),
            pending@ == top_candidates(s0.subrange(0, done as int)),
            forest_bag(kept@) == staying(s0.subrange(0, done as int)).to_multiset(),
            link_bag(kept@).add(link_bag(pending@)) == held_links(s0.subrange(0, done as int)).to_multiset(),
            tops(kept@) == kept_tops(s0.subrange(0, done as int)),
            prunes(kept@, s0.subrange(0, done as int)),
        decreases rest@.len(),
    {
        let mut t = rest.remove(0);
        let ghost t0 = t;
        let ghost kb = forest_bag(kept@);
        let ghost pb = forest_bag(pending@);
        let ghost prefix = s0.subrange(0, done as int);
        let ghost k_in = kept@;
        let ghost p_in = pending@;
        proof {
            assert(t0 == s0[done as int]);
            assert(s0.subrange(0, done + 1) =~= s0.subrange(0, done as int).push(t0));
            lemma_forest_bag_push(s0.subrange(0, done as int), t0);
            lemma_link_bag_push(prefix, t0);
            lemma_from_bag_push(span_data(t0), prefix, t0);
            lemma_split_push(prefix, t0);
            lemma_held_push(prefix, t0);
        }
        if is_cross_process_child_candidate(&t) {
            let ghost p0 = pending@;
            pending.push(t);
            proof {
                lemma_forest_bag_push(p0, t0);
                assert(pending@ == p0.push(t0));
                lemma_link_bag_push(p0, t0);
                lemma_sub_add(link_bag(k_in).add(link_bag(p0)), link_bag(prefix), tree_link_bag(t0), tree_link_bag(t0));
                assert(link_bag(kept@).add(link_bag(pending@)) =~= link_bag(k_in).add(link_bag(p0)).add(tree_link_bag(t0)));
                lemma_sub_add(top_bag(k_in), top_bag(prefix), Multiset::empty(), Multiset::singleton(span_data(t0)));
                assert(top_bag(kept@) =~= top_bag(k_in).add(Multiset::empty()));
                assert(top_bag(prefix.push(t0)) =~= top_bag(prefix).add(Multiset::singleton(span_data(t0))));
                assert(forest_bag(kept@) =~= staying(prefix.push(t0)).to_multiset());
                assert(link_bag(kept@).add(link_bag(pending@)) =~= held_links(prefix.push(t0)).to_multiset());
                assert(kept_tops(prefix.push(t0)) =~= kept_tops(prefix));
                assert(prefix.push(t0).subrange(0, prefix.len() as int) =~= prefix);
                assert(prunes(kept@, prefix.push(t0)));
            }
        } else {
            let children = detach_children(&mut t);
            proof {
                lemma_tree_size(s0, done as int);
            }
            let (k2, mut p2) = split_cross_process_candidates(children);
            t.children = k2;
            proof {
                lemma_tree_bag_split(t0, t, k2@, p2@);
                lemma_split_links(t0, t, p2@);
                lemma_tree_bag_children(t, t0);
            }
            let ghost p0 = pending@;
            let ghost k0 = kept@;
            let ghost p2v = p2@;
            pending.append(&mut p2);
            proof {
                lemma_forest_bag_append(p0, p2v);
                assert(pending@ == p0 + p2v);
            }
            kept.push(t);
            proof {
                lemma_forest_bag_push(k0, t);
                assert(kept@ == k0.push(t));
                lemma_link_bag_push(k0, t);
                lemma_link_bag_append(p0, p2v);
                lemma_sub_add(link_bag(k0).add(link_bag(p0)), link_bag(prefix),
                    tree_link_bag(t).add(link_bag(p2v)), tree_link_bag(t0));
                assert(link_bag(kept@).add(link_bag(pending@)) =~= link_bag(k0).add(link_bag(p0)).add(
                    tree_link_bag(t).add(link_bag(p2v))));
                lemma_from_bag_push(span_data(t0), k0, t);
                lemma_sub_add(top_bag(k0), top_bag(prefix), Multiset::singleton(span_data(t0)),
                    Multiset::singleton(span_data(t0)));
                assert(top_bag(kept@) =~= top_bag(k0).add(Multiset::singleton(span_data(t0))));
                assert(top_bag(prefix.push(t0)) =~= top_bag(prefix).add(Multiset::singleton(span_data(t0))));
                assert(forest_bag(kept@) =~= staying(prefix.push(t0)).to_multiset());
                lemma_tree_link_bag(t);
                assert(tops(kept@) =~= tops(k0).push(span_data(t0)));
                assert(from_bag(span_data(t), t.children@) == links_from(span_data(t0), kept_tops(t0.children@)).to_multiset());
                assert(link_bag(kept@).add(link_bag(pending@)) =~= held_links(prefix.push(t0)).to_multiset());
                assert(prefix.push(t0).subrange(0, prefix.len() as int) =~= prefix);
                assert(kept@.subrange(0, k0.len() as int) =~= k0);
                assert(prunes(kept@, prefix.push(t0)));
                assert forall|i: int| 0 <= i < kept@.len() implies !is_cross_process_child_candidate_spec(#[trigger] kept@[i])
                    && candidate_free(kept@[i].children@) by {
                    if i < k0.len() {
                        assert(kept@[i] == k0[i]);
                    }
                }
                assert forall|i: int| 0 <= i < pending@.len() implies is_cross_process_child_candidate_spec(#[trigger] pending@[i]) by {
                    if i < p0.len() {
                        assert(pending@[i] == p0[i]);
                    } else {
                        assert(pending@[i] == p2v[i - p0.len()]);
                    }
                }
            }
        }
        done += 1;
        assert(rest@ =~= s0.subrange(done as int, s0.len() as int));
    }
    assert(s0.subrange(0, s0.len() as int) =~= s0);
    (kept, pending)
}

pub open spec fn is_logical_parent_spec(t: SpanInfo) -> bool {
    is_step_parent_span_spec(t.name@, t.kind.deep_view()) && !is_rollout_submit_parent_span_spec(t.name@)
}

/// A step parent span other than a rollout submission.
pub fn is_logical_parent_span(span: &SpanInfo) -> (r: bool)
    ensures
        r == is_logical_parent_spec(*span),
{
    is_step_parent_span(span.name.as_str(), opt_as_str(&span.kind)) && !is_rollout_submit_parent_span(
        span.name.as_str(),
    )
}

/// A rollout submission span.
pub fn is_submit_parent_span(span: &SpanInfo) -> (r: bool)
    ensures
        r == is_rollout_submit_parent_span_spec(span.name@),
{
    is_rollout_submit_parent_span(span.name.as_str())
}

/// The key linking a span to its submission: rollout id and submit step id
/// (none when either is missing or the rollout id is `-1`).
pub open spec fn submit_key_spec(attrs: Option<Seq<char>>) -> Option<(Seq<char>, Seq<char>)> {
    match (attr_spec(attrs, "rollout_id"@), attr_spec(attrs, "submit_step_id"@)) {
        (Some(r), Some(s)) => if r == "-1"@ {
            None
        } else {
            Some((r, s))
        },
        _ => None,
    }
}

/// The key linking a span to the submission that issued it.
pub fn submit_link_key(span: &SpanInfo) -> (r: Option<LogicalStepKey>)
    ensures
        key_view(r) == submit_key_spec(span.attributes.deep_view()),
{
    let rollout_id = match attr_string(&span.attributes, "rollout_id") {
        Some(v) => v,
        None => return None,
    };
    let step_id = match attr_string(&span.attributes, "submit_step_id") {
        Some(v) => v,
        None => return None,
    };
    if str_eq(rollout_id.as_str(), "-1") {
        return None;
    }
    Some(LogicalStepKey { rollout_id, step_id })
}

/// The rollout id of a span, unless missing or `-1`.
pub open spec fn logical_rollout_id_spec(attrs: Option<Seq<char>>) -> Option<Seq<char>> {
    match attr_spec(attrs, "rollout_id"@) {
        Some(r) => if r == "-1"@ {
            None
        } else {
            Some(r)
        },
        None => None,
    }
}

/// The rollout id of a span, unless missing or `-1`.
pub fn logical_rollout_id(span: &SpanInfo) -> (r: Option<String>)
    ensures
        r.deep_view() == logical_rollout_id_spec(span.attributes.deep_view()),
{
    match attr_string(&span.attributes, "rollout_id") {
        Some(r) => if str_eq(r.as_str(), "-1") {
            None
        } else {
            Some(r)
        },
        None => None,
    }
}

pub open spec fn submit_parent_matches_spec(t: SpanInfo, key: (Seq<char>, Seq<char>)) -> bool {
    &&& attr_spec(t.attributes.deep_view(), "rollout_id"@) == Some(key.0)
    &&& opt_or(
        attr_spec(t.attributes.deep_view(), "submit_step_id"@),
        attr_spec(t.attributes.deep_view(), "step_id"@),
    ) == Some(key.1)
}

/// Whether a submission span carries the rollout id and (submit) step id of `key`.
pub fn submit_parent_matches(span: &SpanInfo, key: &LogicalStepKey) -> (r: bool)
    ensures
        r == submit_parent_matches_spec(*span, key@),
{
    let rollout_id = attr_string(&span.attributes, "rollout_id");
    let step = match attr_string(&span.attributes, "submit_step_id") {
        Some(v) => Some(v),
        None => attr_string(&span.attributes, "step_id"),
    };
    let r_ok = match &rollout_id {
        Some(r) => str_eq(r.as_str(), key.rollout_id.as_str()),
        None => false,
    };
    let s_ok = match &step {
        Some(v) => str_eq(v.as_str(), key.step_id.as_str()),
        None => false,
    };
    r_ok && s_ok
}

/// Which spans may adopt a pending child.
pub enum ParentRule {
    /// A logical parent with this step key.
    Logical(LogicalStepKey),
    /// A submission span with this rollout id and (submit) step id.
    Submit(LogicalStepKey),
    /// A logical parent with this rollout id.
    Rollout(String),
    /// A logical parent whose time range contains `[start, end]`.
    Covers(i64, i64),
    /// Such a logical parent, lasting exactly `duration`.
    CoversFor(i64, i64, i128),
}

/// A parent rule as values.
pub enum RuleView {
    Logical((Seq<char>, Seq<char>)),
    Submit((Seq<char>, Seq<char>)),
    Rollout(Seq<char>),
    Covers(i64, i64),
    CoversFor(i64, i64, i128),
}

impl View for ParentRule {
    type V = RuleView;

    open spec fn view(&self) -> RuleView {
        match self {
            ParentRule::Logical(k) => RuleView::Logical(k@),
            ParentRule::Submit(k) => RuleView::Submit(k@),
            ParentRule::Rollout(r) => RuleView::Rollout(r@),
            ParentRule::Covers(s, e) => RuleView::Covers(*s, *e),
            ParentRule::CoversFor(s, e, d) => RuleView::CoversFor(*s, *e, *d),
        }
    }
}

/// The end of a span's time range (unbounded while it runs).
pub open spec fn span_end_or_max(t: SpanInfo) -> i64 {
    match t.end_timestamp {
        Some(e) => e,
        None => i64::MAX,
    }
}

pub open spec fn rule_matches(t: SpanInfo, rule: RuleView) -> bool {
    match rule {
        RuleView::Logical(k) => is_logical_parent_spec(t) && step_key_spec(t.attributes.deep_view()) == Some(k),
        RuleView::Submit(k) => is_rollout_submit_parent_span_spec(t.name@) && submit_parent_matches_spec(t, k),
        RuleView::Rollout(r) => is_logical_parent_spec(t) && logical_rollout_id_spec(t.attributes.deep_view()) == Some(r),
        RuleView::Covers(start, end) => is_logical_parent_spec(t) && start >= t.start_timestamp && end <= span_end_or_max(t),
        RuleView::CoversFor(start, end, d) => is_logical_parent_spec(t) && start >= t.start_timestamp && end <= span_end_or_max(t)
            && span_duration(t) == d,
    }
}

/// How long a span lasted (`i64::MAX` while it runs).
pub open spec fn span_duration(t: SpanInfo) -> int {
    match t.end_timestamp {
        Some(e) => e - t.start_timestamp,
        None => i64::MAX as int,
    }
}

fn duration_of(t: &SpanInfo) -> (d: i128)
    ensures
        d == span_duration(*t),
{
    match t.end_timestamp {
        Some(e) => e as i128 - t.start_timestamp as i128,
        None => i64::MAX as i128,
    }
}

fn rule_check(t: &SpanInfo, rule: &ParentRule) -> (r: bool)
    ensures
        r == rule_matches(*t, rule@),
{
    match rule {
        ParentRule::Logical(k) => {
            if !is_logical_parent_span(t) {
                return false;
            }
            match logical_step_key(t) {
                Some(tk) => same_step_key(&tk, k),
                None => false,
            }
        },
        ParentRule::Submit(k) => is_submit_parent_span(t) && submit_parent_matches(t, k),
        ParentRule::Rollout(r) => {
            if !is_logical_parent_span(t) {
                return false;
            }
            match logical_rollout_id(t) {
                Some(x) => str_eq(x.as_str(), r.as_str()),
                None => false,
            }
        },
        ParentRule::Covers(start, end) => {
            let t_end = match t.end_timestamp {
                Some(e) => e,
                None => i64::MAX,
            };
            is_logical_parent_span(t) && *start >= t.start_timestamp && *end <= t_end
        },
        ParentRule::CoversFor(start, end, d) => {
            let t_end = match t.end_timestamp {
                Some(e) => e,
                None => i64::MAX,
            };
            is_logical_parent_span(t) && *start >= t.start_timestamp && *end <= t_end
                && duration_of(t) == *d
        },
    }
}

/// Whether span data satisfies `rule`, as [`rule_matches`] asks of the span.
pub open spec fn rule_matches_data(d: SpanData, rule: RuleView) -> bool {
    let logical = is_step_parent_span_spec(d.name, d.kind) && !is_rollout_submit_parent_span_spec(d.name);
    let end = match d.end_timestamp {
        Some(e) => e,
        None => i64::MAX,
    };
    let duration: int = match d.end_timestamp {
        Some(e) => e - d.start_timestamp,
        None => i64::MAX as int,
    };
    match rule {
        RuleView::Logical(k) => logical && step_key_spec(d.attributes) == Some(k),
        RuleView::Submit(k) => is_rollout_submit_parent_span_spec(d.name)
            && attr_spec(d.attributes, "rollout_id"@) == Some(k.0)
            && opt_or(attr_spec(d.attributes, "submit_step_id"@), attr_spec(d.attributes, "step_id"@)) == Some(k.1),
        RuleView::Rollout(r) => logical && logical_rollout_id_spec(d.attributes) == Some(r),
        RuleView::Covers(start, stop) => logical && start >= d.start_timestamp && stop <= end,
        RuleView::CoversFor(start, stop, dd) => logical && start >= d.start_timestamp && stop <= end && duration == dd,
    }
}

/// Whether a span satisfies a rule depends on its data alone.
pub proof fn lemma_rule_matches_data(t: SpanInfo, rule: RuleView)
    ensures
        rule_matches(t, rule) == rule_matches_data(span_data(t), rule),
{
}

/// `after` is `before` with the links of `child`'s tree and one link more:
/// from a span satisfying `rule` to `child`.
pub open spec fn adds_adoption(
    before: Multiset<SpanLink>,
    after: Multiset<SpanLink>,
    child: SpanInfo,
    rule: RuleView,
) -> bool {
    exists|p: SpanData|
        #[trigger] rule_matches_data(p, rule) && after == before.add(tree_link_bag(child)).insert(
            (p, span_data(child)),
        )
}

proof fn lemma_adoption_add(
    a: Multiset<SpanLink>,
    b: Multiset<SpanLink>,
    x: Multiset<SpanLink>,
    child: SpanInfo,
    rule: RuleView,
)
    requires
        adds_adoption(a, b, child, rule),
    ensures
        adds_adoption(a.add(x), b.add(x), child, rule),
        adds_adoption(x.add(a), x.add(b), child, rule),
{
    broadcast use vstd::multiset::group_multiset_axioms;
    let p = choose|p: SpanData|
        #[trigger] rule_matches_data(p, rule) && b == a.add(tree_link_bag(child)).insert((p, span_data(child)));
    assert(b.add(x) =~= a.add(x).add(tree_link_bag(child)).insert((p, span_data(child))));
    assert(x.add(b) =~= x.add(a).add(tree_link_bag(child)).insert((p, span_data(child))));
}

/// Some span of the forest satisfies `rule`.
pub open spec fn forest_has(s: Seq<SpanInfo>, rule: RuleView) -> bool
    decreases s,
{
    exists|i: int| 0 <= i < s.len() && (rule_matches(#[trigger] s[i], rule) || forest_has(s[i].children@, rule))
}

/// The tree bag of an optional span.
pub open spec fn opt_bag(o: Option<SpanInfo>) -> Multiset<SpanData> {
    match o {
        Some(t) => tree_bag(t),
        None => Multiset::empty(),
    }
}

/// `parent` with `child` added to its children, the children ordered by start time.
fn adopt(parent: SpanInfo, child: SpanInfo) -> (r: SpanInfo)
    ensures
        span_data(r) == span_data(parent),
        tree_bag(r) == tree_bag(parent).add(tree_bag(child)),
        tree_link_bag(r) == tree_link_bag(parent).add(tree_link_bag(child)).insert((span_data(parent), span_data(child))),
        sorted_by(r.children@, |t: SpanInfo| t.start_timestamp as int),
        r.children@.to_multiset() == parent.children@.push(child).to_multiset(),
{
    broadcast use vstd::multiset::group_multiset_axioms;
    let mut p = parent;
    let mut children = detach_children(&mut p);
    let ghost c0 = children@;
    children.push(child);
    proof {
        lemma_forest_bag_push(c0, child);
    }
    let ghost pushed = children@;
    let sorted = sort_by_start(children);
    p.children = sorted;
    proof {
        lemma_tree_bag_children(p, parent);
        assert(tree_bag(p) =~= tree_bag(parent).add(tree_bag(child)));
        let d = span_data(parent);
        lemma_link_bag_push(c0, child);
        lemma_from_bag_push(d, c0, child);
        lemma_from_bag_perm(d, p.children@, pushed);
        lemma_tree_link_bag(p);
        lemma_tree_link_bag(parent);
        assert(tree_link_bag(p) =~= tree_link_bag(parent).add(tree_link_bag(child)).insert((d, span_data(child))));
    }
    p
}

proof fn lemma_reattach(t0: SpanInfo, t: SpanInfo, left: Option<SpanInfo>, child: SpanInfo)
    requires
        span_data(t) == span_data(t0),
        forest_bag(t.children@).add(opt_bag(left)) == forest_bag(t0.children@).add(tree_bag(child)),
    ensures
        tree_bag(t).add(opt_bag(left)) == tree_bag(t0).add(tree_bag(child)),
{
    broadcast use vstd::multiset::group_multiset_axioms;
    lemma_tree_bag_children(t, t0);
    let d = Multiset::singleton(span_data(t0));
    assert(tree_bag(t) == d.add(forest_bag(t.children@)));
    assert(tree_bag(t0) == d.add(forest_bag(t0.children@)));
    let a = forest_bag(t.children@);
    let b = forest_bag(t0.children@);
    let l = opt_bag(left);
    let c = tree_bag(child);
    assert forall|v: SpanData| #[trigger] tree_bag(t).add(l).count(v) == tree_bag(t0).add(c).count(v) by {
        assert(tree_bag(t).add(l).count(v) == d.count(v) + a.count(v) + l.count(v));
        assert(tree_bag(t0).add(c).count(v) == d.count(v) + b.count(v) + c.count(v));
        assert(a.add(l).count(v) == b.add(c).count(v));
    }
    assert(tree_bag(t).add(l) =~= tree_bag(t0).add(c));
}

#[verifier::spinoff_prover]
proof fn lemma_bag_step(
    o: Multiset<SpanData>,
    x: Multiset<SpanData>,
    carry: Multiset<SpanData>,
    t: Multiset<SpanData>,
    cb: Multiset<SpanData>,
    prev: Multiset<SpanData>,
    child: Multiset<SpanData>,
)
    requires
        x.add(carry) == t.add(cb),
        o.add(cb) == prev.add(child),
    ensures
        o.add(x).add(carry) == prev.add(t).add(child),
{
    broadcast use vstd::multiset::group_multiset_axioms;
    assert forall|v: SpanData| #[trigger] o.add(x).add(carry).count(v) == prev.add(t).add(child).count(v) by {
        assert(x.add(carry).count(v) == t.add(cb).count(v));
        assert(o.add(cb).count(v) == prev.add(child).count(v));
        assert(o.add(x).count(v) == o.count(v) + x.count(v));
        assert(prev.add(t).count(v) == prev.count(v) + t.count(v));
        assert(x.add(carry).count(v) == x.count(v) + carry.count(v));
        assert(t.add(cb).count(v) == t.count(v) + cb.count(v));
        assert(o.add(cb).count(v) == o.count(v) + cb.count(v));
        assert(prev.add(child).count(v) == prev.count(v) + child.count(v));
    }
    assert(o.add(x).add(carry) =~= prev.add(t).add(child));
}

/// The first span data, in order, that satisfies `rule`.
pub open spec fn first_match(s: Seq<SpanData>, rule: RuleView) -> Option<SpanData>
    decreases s.len(),
{
    if s.len() == 0 {
        None
    } else if rule_matches_data(s[0], rule) {
        Some(s[0])
    } else {
        first_match(s.drop_first(), rule)
    }
}

/// `after` is `before` with the links of `child`'s tree and one link more:
/// to `child` from the first span of `order` that satisfies `rule`.
pub open spec fn placed_first(
    order: Seq<SpanData>,
    before: Multiset<SpanLink>,
    after: Multiset<SpanLink>,
    child: SpanInfo,
    rule: RuleView,
) -> bool {
    &&& first_match(order, rule) is Some
    &&& after == before.add(tree_link_bag(child)).insert((first_match(order, rule)->0, span_data(child)))
}

pub proof fn lemma_first_match_matches(s: Seq<SpanData>, rule: RuleView)
    ensures
        first_match(s, rule) matches Some(d) ==> rule_matches_data(d, rule),
    decreases s.len(),
{
    if s.len() > 0 && !rule_matches_data(s[0], rule) {
        lemma_first_match_matches(s.drop_first(), rule);
    }
}

proof fn lemma_first_concat(a: Seq<SpanData>, b: Seq<SpanData>, rule: RuleView)
    ensures
        first_match(a + b, rule) == if first_match(a, rule) is Some {
            first_match(a, rule)
        } else {
            first_match(b, rule)
        },
    decreases a.len(),
{
    if a.len() == 0 {
        assert(a + b =~= b);
    } else {
        assert((a + b)[0] == a[0]);
        assert((a + b).drop_first() =~= a.drop_first() + b);
        lemma_first_concat(a.drop_first(), b, rule);
    }
}

proof fn lemma_first_tree(t: SpanInfo, rule: RuleView)
    ensures
        first_match(flat_tree(t), rule) == if rule_matches(t, rule) {
            Some(span_data(t))
        } else {
            first_match(flat_forest(t.children@), rule)
        },
{
    lemma_rule_matches_data(t, rule);
    let f = flat_tree(t);
    assert(f == seq![span_data(t)] + flat_forest(t.children@));
    assert(f[0] == span_data(t));
    assert(f.drop_first() =~= flat_forest(t.children@));
}

/// One step of [`attach_first`] on where `child` goes: the first span that
/// satisfies `rule` in the prefix, else in `t0`'s tree.
proof fn lemma_first_step(
    prefix: Seq<SpanInfo>,
    out: Seq<SpanInfo>,
    t0: SpanInfo,
    x: SpanInfo,
    was_none: bool,
    is_none: bool,
    child: SpanInfo,
    rule: RuleView,
)
    requires
        was_none ==> placed_first(flat_forest(prefix), link_bag(prefix), link_bag(out), child, rule),
        !was_none ==> first_match(flat_forest(prefix), rule) is None && link_bag(out) == link_bag(prefix),
        was_none ==> is_none && x == t0,
        !was_none && is_none ==> placed_first(flat_tree(t0), tree_link_bag(t0), tree_link_bag(x), child, rule),
        !was_none && !is_none ==> first_match(flat_tree(t0), rule) is None && tree_link_bag(x) == tree_link_bag(t0),
    ensures
        is_none ==> placed_first(flat_forest(prefix.push(t0)), link_bag(prefix.push(t0)), link_bag(out.push(x)), child, rule),
        !is_none ==> first_match(flat_forest(prefix.push(t0)), rule) is None,
{
    broadcast use vstd::multiset::group_multiset_axioms;
    lemma_flat_forest_push(prefix, t0);
    lemma_first_concat(flat_forest(prefix), flat_tree(t0), rule);
    lemma_link_bag_push(prefix, t0);
    lemma_link_bag_push(out, x);
    if is_none {
        let f = first_match(flat_forest(prefix.push(t0)), rule)->0;
        assert(link_bag(out.push(x)) =~= link_bag(prefix.push(t0)).add(tree_link_bag(child)).insert((f, span_data(child))));
    }
}

/// One step of [`attach_first`] on links: the prefix grows by `t0` and the
/// output by `x`, which is `t0` unchanged, `t0` adopting `child`, or `t0`
/// with the links of its children changed in the same way.
proof fn lemma_link_step(
    prefix: Seq<SpanInfo>,
    out: Seq<SpanInfo>,
    t0: SpanInfo,
    x: SpanInfo,
    was_none: bool,
    is_none: bool,
    child: SpanInfo,
    rule: RuleView,
)
    requires
        span_data(x) == span_data(t0),
        tops(out) == tops(prefix),
        was_none ==> adds_adoption(link_bag(prefix), link_bag(out), child, rule),
        !was_none ==> link_bag(out) == link_bag(prefix),
        was_none ==> is_none && x == t0,
        !was_none && is_none ==> adds_adoption(tree_link_bag(t0), tree_link_bag(x), child, rule)
            || (rule_matches_data(span_data(t0), rule) && tree_link_bag(x) == tree_link_bag(t0).add(
            tree_link_bag(child)).insert((span_data(t0), span_data(child)))),
        !was_none && !is_none ==> tree_link_bag(x) == tree_link_bag(t0),
    ensures
        tops(out.push(x)) == tops(prefix.push(t0)),
        is_none ==> adds_adoption(link_bag(prefix.push(t0)), link_bag(out.push(x)), child, rule),
        !is_none ==> link_bag(out.push(x)) == link_bag(prefix.push(t0)),
{
    broadcast use vstd::multiset::group_multiset_axioms;
    assert(tops(out.push(x)) =~= tops(out).push(span_data(x)));
    assert(tops(prefix.push(t0)) =~= tops(prefix).push(span_data(t0)));
    lemma_link_bag_push(prefix, t0);
    lemma_link_bag_push(out, x);
    if was_none {
        lemma_adoption_add(link_bag(prefix), link_bag(out), tree_link_bag(t0), child, rule);
    } else if is_none {
        if adds_adoption(tree_link_bag(t0), tree_link_bag(x), child, rule) {
            lemma_adoption_add(tree_link_bag(t0), tree_link_bag(x), link_bag(prefix), child, rule);
        } else {
            let p = span_data(t0);
            assert(link_bag(out.push(x)) =~= link_bag(prefix.push(t0)).add(tree_link_bag(child)).insert(
                (p, span_data(child)),
            ));
            assert(rule_matches_data(p, rule));
        }
    }
}

/// Attaches `child` to the first span (depth first) that satisfies `rule`;
/// hands `child` back when none does.
pub fn attach_first(spans: Vec<SpanInfo>, rule: &ParentRule, child: SpanInfo) -> (r: (Vec<SpanInfo>, Option<SpanInfo>))
    ensures
        forest_bag(r.0@).add(opt_bag(r.1)) == forest_bag(spans@).add(tree_bag(child)),
        r.1 is None <==> forest_has(spans@, rule@),
        r.1 matches Some(c) ==> c == child,
        r.0@.len() == spans@.len(),
        tops(r.0@) == tops(spans@),
        r.1 is None ==> adds_adoption(link_bag(spans@), link_bag(r.0@), child, rule@),
        r.1 is Some ==> link_bag(r.0@) == link_bag(spans@),
        r.1 is None ==> placed_first(flat_forest(spans@), link_bag(spans@), link_bag(r.0@), child, rule@),
        r.1 is Some ==> first_match(flat_forest(spans@), rule@) is None,
    decreases flat_forest(spans@).len(),
{
    broadcast use vstd::multiset::group_multiset_axioms;
    let ghost s0 = spans@;
    let _n0 = spans.len();
    let mut out: Vec<SpanInfo> = Vec::new();
    let mut rest = spans;
    let mut carry: Option<SpanInfo> = Some(child);
    let mut done: usize = 0;
    assert(forest_bag(out@) =~= forest_bag(s0.subrange(0, 0)));
    while rest.len() > 0
        invariant
            done + rest@.len() == s0.len(),
            s0.len() <= usize::MAX,
            rest@ == s0.subrange(done as int, s0.len() as int),
            out@.len() == done,
            forest_bag(out@).add(opt_bag(carry)) == forest_bag(s0.subrange(0, done as int)).add(tree_bag(child)),
            carry is None <==> exists|k: int| 0 <= k < done && (rule_matches(#[trigger] s0[k], rule@) || forest_has(s0[k].children@, rule@)),
            carry matches Some(c) ==> c == child,
            s0 == spans@,
            tops(out@) == tops(s0.subrange(0, done as int)),
            carry is None ==> adds_adoption(link_bag(s0.subrange(0, done as int)), link_bag(out@), child, rule@),
            carry is Some ==> link_bag(out@) == link_bag(s0.subrange(0, done as int)),
            carry is None ==> placed_first(flat_forest(s0.subrange(0, done as int)), link_bag(s0.subrange(0, done as int)),
                link_bag(out@), child, rule@),
            carry is Some ==> first_match(flat_forest(s0.subrange(0, done as int)), rule@) is None,
        decreases rest@.len(),
    {
        let t = rest.remove(0);
        let ghost t0 = t;
        let ghost o0 = out@;
        let ghost cb = opt_bag(carry);
        proof {
            assert(t0 == s0[done as int]);
            assert(s0.subrange(0, done + 1) =~= s0.subrange(0, done as int).push(t0));
            lemma_forest_bag_push(s0.subrange(0, done as int), t0);
        }
        let ghost was_none = carry is None;
        match carry {
            None => {
                out.push(t);
                carry = None;
                assert(tree_bag(out@.last()).add(opt_bag(carry)) =~= tree_bag(t0).add(cb));
            },
            Some(c) => {
                if rule_check(&t, rule) {
                    assert(c == child);
                    let adopted = adopt(t, c);
                    out.push(adopted);
                    carry = None;
                    assert(tree_bag(out@.last()).add(opt_bag(carry)) =~= tree_bag(t0).add(cb));
                    proof {
                        lemma_rule_matches_data(t0, rule@);
                        lemma_first_tree(t0, rule@);
                        assert(tree_link_bag(out@.last()) =~= tree_link_bag(t0).add(tree_link_bag(child)).insert(
                            (span_data(t0), span_data(child))));
                    }
                } else {
                    let mut t = t;
                    let children = detach_children(&mut t);
                    proof {
                        lemma_tree_size(s0, done as int);
                    }
                    let (new_children, left) = attach_first(children, rule, c);
                    t.children = new_children;
                    proof {
                        assert(c == child);
                        lemma_reattach(t0, t, left, child);
                        lemma_tree_link_bag(t);
                        lemma_tree_link_bag(t0);
                        assert(from_bag(span_data(t), t.children@) == from_bag(span_data(t0), t0.children@));
                        if left is None {
                            lemma_adoption_add(link_bag(t0.children@), link_bag(t.children@),
                                from_bag(span_data(t0), t0.children@), child, rule@);
                        }
                        lemma_first_tree(t0, rule@);
                        if left is None {
                            let f = first_match(flat_forest(t0.children@), rule@)->0;
                            assert(tree_link_bag(t) =~= tree_link_bag(t0).add(tree_link_bag(child)).insert((f, span_data(child))));
                        }
                    }
                    out.push(t);
                    carry = left;
                }
            },
        }
        proof {
            let prev = forest_bag(s0.subrange(0, done as int));
            let x = tree_bag(out@.last());
            assert(out@ == o0.push(out@.last()));
            lemma_forest_bag_push(o0, out@.last());
            lemma_bag_step(forest_bag(o0), x, opt_bag(carry), tree_bag(t0), cb, prev, tree_bag(child));
            lemma_link_step(s0.subrange(0, done as int), o0, t0, out@.last(), was_none, carry is None, child, rule@);
            lemma_first_step(s0.subrange(0, done as int), o0, t0, out@.last(), was_none, carry is None, child, rule@);
        }
        done += 1;
        assert(rest@ =~= s0.subrange(done as int, s0.len() as int));
    }
    assert(s0.subrange(0, s0.len() as int) =~= s0);
    (out, carry)
}

/// Number of spans of the forest that satisfy `rule`.
pub open spec fn forest_count(s: Seq<SpanInfo>, rule: RuleView) -> nat
    decreases s,
{
    if s.len() == 0 {
        0
    } else {
        let t = s[s.len() - 1];
        forest_count(s.subrange(0, s.len() - 1), rule) + (if rule_matches(t, rule) {
            1nat
        } else {
            0nat
        }) + forest_count(t.children@, rule)
    }
}

proof fn lemma_count_has(s: Seq<SpanInfo>, rule: RuleView)
    ensures
        forest_count(s, rule) > 0 <==> forest_has(s, rule),
    decreases s,
{
    if s.len() > 0 {
        let t = s[s.len() - 1];
        let s0 = s.subrange(0, s.len() - 1);
        lemma_count_has(s0, rule);
        lemma_count_has(t.children@, rule);
        if forest_has(s0, rule) {
            let k = choose|k: int| 0 <= k < s0.len() && (rule_matches(#[trigger] s0[k], rule) || forest_has(s0[k].children@, rule));
            assert(s[k] == s0[k]);
        }
        if forest_has(s, rule) {
            let k = choose|k: int| 0 <= k < s.len() && (rule_matches(#[trigger] s[k], rule) || forest_has(s[k].children@, rule));
            if k < s.len() - 1 {
                assert(s0[k] == s[k]);
            }
        }
    }
}

/// The number of spans satisfying `rule`, counted up to 2.
fn count_matches(spans: &Vec<SpanInfo>, rule: &ParentRule) -> (c: u64)
    ensures
        c as int == if forest_count(spans@, rule@) < 2 { forest_count(spans@, rule@) as int } else { 2 },
    decreases flat_forest(spans@).len(),
{
    let mut c: u64 = 0;
    let mut i: usize = 0;
    while i < spans.len()
        invariant
            i <= spans@.len(),
            c as int == if forest_count(spans@.subrange(0, i as int), rule@) < 2 {
                forest_count(spans@.subrange(0, i as int), rule@) as int
            } else {
                2
            },
        decreases spans@.len() - i,
    {
        let t = &spans[i];
        let ghost next = spans@.subrange(0, i + 1);
        assert(next.subrange(0, i as int) =~= spans@.subrange(0, i as int));
        assert(next[i as int] == *t);
        let m: u64 = if rule_check(t, rule) { 1 } else { 0 };
        proof {
            lemma_tree_size(spans@, i as int);
        }
        let cc = count_matches(&t.children, rule);
        let sum = c + m + cc;
        c = if sum > 2 { 2 } else { sum };
        i += 1;
    }
    assert(spans@.subrange(0, spans@.len() as int) =~= spans@);
    c
}

/// Every span of the forest covering `[start, end]` lasts at least `d`.
pub open spec fn covers_at_least(s: Seq<SpanInfo>, start: i64, end: i64, d: int) -> bool
    decreases s,
{
    forall|i: int|
        0 <= i < s.len() ==> (rule_matches(#[trigger] s[i], RuleView::Covers(start, end)) ==> span_duration(s[i]) >= d)
            && covers_at_least(s[i].children@, start, end, d)
}

proof fn lemma_covers_at_least_weaken(s: Seq<SpanInfo>, start: i64, end: i64, d: int, e: int)
    requires
        covers_at_least(s, start, end, d),
        e <= d,
    ensures
        covers_at_least(s, start, end, e),
    decreases s,
{
    assert forall|i: int| 0 <= i < s.len() implies (rule_matches(#[trigger] s[i], RuleView::Covers(start, end)) ==> span_duration(s[i]) >= e)
        && covers_at_least(s[i].children@, start, end, e) by {
        lemma_covers_at_least_weaken(s[i].children@, start, end, d, e);
    }
}

proof fn lemma_covers_for_has(s: Seq<SpanInfo>, start: i64, end: i64, d: i128)
    requires
        forest_has(s, RuleView::CoversFor(start, end, d)),
    ensures
        forest_has(s, RuleView::Covers(start, end)),
    decreases s,
{
    let k = choose|k: int| 0 <= k < s.len() && (rule_matches(#[trigger] s[k], RuleView::CoversFor(start, end, d))
        || forest_has(s[k].children@, RuleView::CoversFor(start, end, d)));
    if !rule_matches(s[k], RuleView::CoversFor(start, end, d)) {
        lemma_covers_for_has(s[k].children@, start, end, d);
    }
}

/// The span or one of its descendants satisfies `rule`.
pub open spec fn tree_has(t: SpanInfo, rule: RuleView) -> bool {
    rule_matches(t, rule) || forest_has(t.children@, rule)
}

/// Every span of the tree covering `[start, end]` lasts at least `d`.
pub open spec fn tree_covers_at_least(t: SpanInfo, start: i64, end: i64, d: int) -> bool {
    &&& rule_matches(t, RuleView::Covers(start, end)) ==> span_duration(t) >= d
    &&& covers_at_least(t.children@, start, end, d)
}

proof fn lemma_tree_weaken(t: SpanInfo, start: i64, end: i64, d: int, e: int)
    requires
        tree_covers_at_least(t, start, end, d),
        e <= d,
    ensures
        tree_covers_at_least(t, start, end, e),
{
    lemma_covers_at_least_weaken(t.children@, start, end, d, e);
}

proof fn lemma_tree_no_cover(t: SpanInfo, start: i64, end: i64, d: int)
    requires
        !tree_has(t, RuleView::Covers(start, end)),
    ensures
        tree_covers_at_least(t, start, end, d),
{
    lemma_no_cover(t.children@, start, end, d);
}

/// The smaller of two optional durations; `a` on a tie.
fn min_opt(a: Option<i128>, b: Option<i128>) -> (r: Option<i128>)
    ensures
        a is None ==> r == b,
        b is None ==> r == a,
        (a is Some && b is Some) ==> r == Some(if b->0 < a->0 { b->0 } else { a->0 }),
{
    match (a, b) {
        (None, y) => y,
        (x, None) => x,
        (Some(x), Some(y)) => if y < x {
            Some(y)
        } else {
            Some(x)
        },
    }
}

/// The shortest duration of a logical parent covering `[start, end]`.
fn min_cover_duration(spans: &Vec<SpanInfo>, start: i64, end: i64) -> (r: Option<i128>)
    ensures
        r is None <==> !forest_has(spans@, RuleView::Covers(start, end)),
        r matches Some(d) ==> forest_has(spans@, RuleView::CoversFor(start, end, d))
            && covers_at_least(spans@, start, end, d as int),
    decreases flat_forest(spans@).len(),
{
    let mut best: Option<i128> = None;
    let mut i: usize = 0;
    while i < spans.len()
        invariant
            i <= spans@.len(),
            best is None <==> !exists|k: int| 0 <= k < i && #[trigger] tree_has(spans@[k], RuleView::Covers(start, end)),
            best matches Some(d) ==> exists|k: int| 0 <= k < i && #[trigger] tree_has(spans@[k], RuleView::CoversFor(start, end, d)),
            best matches Some(d) ==> forall|k: int| 0 <= k < i ==> #[trigger] tree_covers_at_least(spans@[k], start, end, d as int),
        decreases spans@.len() - i,
    {
        let t = &spans[i];
        let own: Option<i128> = if rule_check(t, &ParentRule::Covers(start, end)) {
            Some(duration_of(t))
        } else {
            None
        };
        proof {
            lemma_tree_size(spans@, i as int);
        }
        let sub = min_cover_duration(&t.children, start, end);
        let tr = min_opt(own, sub);
        proof {
            if let Some(x) = sub {
                lemma_covers_for_has(t.children@, start, end, x);
            }
            if let Some(d) = tr {
                assert(tree_has(*t, RuleView::CoversFor(start, end, d)));
                if let Some(x) = sub {
                    lemma_covers_at_least_weaken(t.children@, start, end, x as int, d as int);
                } else {
                    lemma_no_cover(t.children@, start, end, d as int);
                }
                assert(tree_covers_at_least(*t, start, end, d as int));
            }
            assert(tr is None <==> !tree_has(*t, RuleView::Covers(start, end)));
        }
        let ghost b0 = best;
        best = min_opt(best, tr);
        proof {
            if let Some(d) = best {
                if let Some(b) = b0 {
                    assert forall|k: int| 0 <= k < i implies #[trigger] tree_covers_at_least(spans@[k], start, end, d as int) by {
                        lemma_tree_weaken(spans@[k], start, end, b as int, d as int);
                    }
                } else {
                    assert forall|k: int| 0 <= k < i implies #[trigger] tree_covers_at_least(spans@[k], start, end, d as int) by {
                        assert(!tree_has(spans@[k], RuleView::Covers(start, end)));
                        lemma_tree_no_cover(spans@[k], start, end, d as int);
                    }
                }
                match tr {
                    Some(x) => {
                        lemma_tree_weaken(*t, start, end, x as int, d as int);
                    },
                    None => {
                        lemma_tree_no_cover(*t, start, end, d as int);
                    },
                }
                assert(spans@[i as int] == *t);
                assert forall|k: int| 0 <= k < i + 1 implies #[trigger] tree_covers_at_least(spans@[k], start, end, d as int) by {
                    if k == i {
                        assert(spans@[k] == *t);
                    }
                }
                if b0 == Some(d) {
                    let w = choose|k: int| 0 <= k < i && #[trigger] tree_has(spans@[k], RuleView::CoversFor(start, end, d));
                    assert(0 <= w < i + 1 && tree_has(spans@[w], RuleView::CoversFor(start, end, d)));
                } else {
                    assert(tr == Some(d));
                    assert(tree_has(spans@[i as int], RuleView::CoversFor(start, end, d)));
                }
            }
            if best is None {
                assert forall|k: int| 0 <= k < i + 1 implies !#[trigger] tree_has(spans@[k], RuleView::Covers(start, end)) by {
                    if k == i {
                        assert(spans@[k] == *t);
                    }
                }
            } else {
                if b0 is None {
                    assert(tree_has(spans@[i as int], RuleView::Covers(start, end)));
                }
            }
        }
        i += 1;
    }
    proof {
        if best is None {
            assert forall|k: int| 0 <= k < spans@.len() implies !(rule_matches(#[trigger] spans@[k], RuleView::Covers(start, end))
                || forest_has(spans@[k].children@, RuleView::Covers(start, end))) by {
                assert(!tree_has(spans@[k], RuleView::Covers(start, end)));
            }
        }
        if let Some(d) = best {
            let w = choose|k: int| 0 <= k < i && #[trigger] tree_has(spans@[k], RuleView::Covers(start, end));
            assert(rule_matches(spans@[w], RuleView::Covers(start, end)) || forest_has(spans@[w].children@, RuleView::Covers(start, end)));
            let u = choose|k: int| 0 <= k < i && #[trigger] tree_has(spans@[k], RuleView::CoversFor(start, end, d));
            assert(rule_matches(spans@[u], RuleView::CoversFor(start, end, d)) || forest_has(spans@[u].children@, RuleView::CoversFor(start, end, d)));
            assert forall|k: int| 0 <= k < spans@.len() implies (rule_matches(#[trigger] spans@[k], RuleView::Covers(start, end))
                ==> span_duration(spans@[k]) >= d) && covers_at_least(spans@[k].children@, start, end, d as int) by {
                assert(tree_covers_at_least(spans@[k], start, end, d as int));
            }
        }
    }
    best
}

proof fn lemma_no_cover(s: Seq<SpanInfo>, start: i64, end: i64, d: int)
    requires
        !forest_has(s, RuleView::Covers(start, end)),
    ensures
        covers_at_least(s, start, end, d),
    decreases s,
{
    assert forall|i: int| 0 <= i < s.len() implies (rule_matches(#[trigger] s[i], RuleView::Covers(start, end)) ==> span_duration(s[i]) >= d)
        && covers_at_least(s[i].children@, start, end, d) by {
        assert(!(rule_matches(s[i], RuleView::Covers(start, end)) || forest_has(s[i].children@, RuleView::Covers(start, end))));
        lemma_no_cover(s[i].children@, start, end, d);
    }
}

/// A copy of a step key.
fn copy_key(k: &LogicalStepKey) -> (r: LogicalStepKey)
    ensures
        r@ == k@,
{
    LogicalStepKey { rollout_id: k.rollout_id.clone(), step_id: k.step_id.clone() }
}

/// `after` adds `child` under a span satisfying `rule`; for a time range,
/// under a shortest logical parent covering it in `forest`.
pub open spec fn linked_by(
    forest: Seq<SpanInfo>,
    before: Multiset<SpanLink>,
    after: Multiset<SpanLink>,
    child: SpanInfo,
    rule: RuleView,
) -> bool {
    match rule {
        RuleView::Covers(start, end) => exists|d: i128|
            #[trigger] covers_at_least(forest, start, end, d as int) && adds_adoption(
                before,
                after,
                child,
                RuleView::CoversFor(start, end, d),
            ),
        _ => adds_adoption(before, after, child, rule),
    }
}

/// The submission rule accepts as parent of `c` only a `rollout.submit`
/// span of `c`'s own rollout whose (submit) step id is the step `c` was
/// submitted for.
pub proof fn lemma_submit_rule_same_rollout(p: SpanData, c: SpanData)
    requires
        submit_key_spec(c.attributes) is Some,
        rule_matches_data(p, RuleView::Submit(submit_key_spec(c.attributes)->0)),
    ensures
        is_rollout_submit_parent_span_spec(p.name),
        attr_spec(c.attributes, "rollout_id"@) is Some,
        attr_spec(p.attributes, "rollout_id"@) == attr_spec(c.attributes, "rollout_id"@),
        opt_or(attr_spec(p.attributes, "submit_step_id"@), attr_spec(p.attributes, "step_id"@)) == attr_spec(
            c.attributes,
            "submit_step_id"@,
        ),
{
}

/// A span matches a submission key only if it carries the key's rollout id
/// and (submit) step id.
pub proof fn lemma_submit_match_same_rollout(t: SpanInfo, c: SpanInfo)
    requires
        submit_key_spec(c.attributes.deep_view()) is Some,
        submit_parent_matches_spec(t, submit_key_spec(c.attributes.deep_view())->0),
    ensures
        attr_spec(t.attributes.deep_view(), "rollout_id"@) == attr_spec(c.attributes.deep_view(), "rollout_id"@),
        opt_or(attr_spec(t.attributes.deep_view(), "submit_step_id"@), attr_spec(t.attributes.deep_view(), "step_id"@))
            == attr_spec(c.attributes.deep_view(), "submit_step_id"@),
{
}

/// When the submission rule links a pending child, the one link it adds
/// comes from a `rollout.submit` span of the child's own rollout.
pub proof fn lemma_submit_link_same_rollout(
    forest: Seq<SpanInfo>,
    before: Multiset<SpanLink>,
    after: Multiset<SpanLink>,
    child: SpanInfo,
)
    requires
        submit_key_spec(child.attributes.deep_view()) is Some,
        placed_by(forest, before, after, child, RuleView::Submit(submit_key_spec(child.attributes.deep_view())->0)),
    ensures
        exists|p: SpanData|
            #![trigger is_rollout_submit_parent_span_spec(p.name)]
            after == before.add(tree_link_bag(child)).insert((p, span_data(child)))
                && is_rollout_submit_parent_span_spec(p.name)
                && attr_spec(p.attributes, "rollout_id"@) == attr_spec(child.attributes.deep_view(), "rollout_id"@),
{
    let rule = RuleView::Submit(submit_key_spec(child.attributes.deep_view())->0);
    lemma_first_match_matches(flat_forest(forest), rule);
    let p = first_match(flat_forest(forest), rule)->0;
    lemma_submit_rule_same_rollout(p, span_data(child));
    assert(is_rollout_submit_parent_span_spec(p.name));
}

/// `after` adds `child` under the first span of `forest` (depth first) that
/// satisfies `rule`; for a time range, the first of the shortest logical
/// parents covering it.
pub open spec fn placed_by(
    forest: Seq<SpanInfo>,
    before: Multiset<SpanLink>,
    after: Multiset<SpanLink>,
    child: SpanInfo,
    rule: RuleView,
) -> bool {
    match rule {
        RuleView::Covers(start, end) => exists|d: i128|
            #[trigger] covers_at_least(forest, start, end, d as int) && placed_first(
                flat_forest(forest),
                before,
                after,
                child,
                RuleView::CoversFor(start, end, d),
            ),
        _ => placed_first(flat_forest(forest), before, after, child, rule),
    }
}

/// Attaches `child` in place to the first span (depth first) that satisfies
/// `rule`; hands `child` back, leaving the forest as it was, when none does.
fn attach_in_place(spans: &mut Vec<SpanInfo>, rule: &ParentRule, child: SpanInfo) -> (r: Option<SpanInfo>)
    ensures
        r is None <==> forest_has(old(spans)@, rule@),
        r is None ==> forest_bag(final(spans)@) == forest_bag(old(spans)@).add(tree_bag(child))
            && final(spans)@.len() == old(spans)@.len()
            && adds_adoption(link_bag(old(spans)@), link_bag(final(spans)@), child, rule@)
            && placed_first(flat_forest(old(spans)@), link_bag(old(spans)@), link_bag(final(spans)@), child, rule@),
        r matches Some(c) ==> c == child && *final(spans) == *old(spans),
{
    proof {
        lemma_count_has(spans@, rule@);
    }
    if count_matches(spans, rule) == 0 {
        return Some(child);
    }
    let mut taken: Vec<SpanInfo> = Vec::new();
    std::mem::swap(&mut taken, spans);
    let (attached, back) = attach_first(taken, rule, child);
    *spans = attached;
    back
}

/// Attaches `child` under the first logical parent span with step key `key`.
fn attach_to_logical_parent(spans: &mut Vec<SpanInfo>, key: &LogicalStepKey, child: SpanInfo) -> (r: Option<SpanInfo>)
    ensures
        r is None <==> forest_has(old(spans)@, RuleView::Logical(key@)),
        r is None ==> forest_bag(final(spans)@) == forest_bag(old(spans)@).add(tree_bag(child))
            && final(spans)@.len() == old(spans)@.len()
            && adds_adoption(link_bag(old(spans)@), link_bag(final(spans)@), child, RuleView::Logical(key@))
            && placed_by(old(spans)@, link_bag(old(spans)@), link_bag(final(spans)@), child, RuleView::Logical(key@)),
        r matches Some(c) ==> c == child && *final(spans) == *old(spans),
{
    attach_in_place(spans, &ParentRule::Logical(copy_key(key)), child)
}

/// Attaches `child` under the first rollout submission span matching `key`.
fn attach_to_submit_parent(spans: &mut Vec<SpanInfo>, key: &LogicalStepKey, child: SpanInfo) -> (r: Option<SpanInfo>)
    ensures
        r is None <==> forest_has(old(spans)@, RuleView::Submit(key@)),
        r is None ==> forest_bag(final(spans)@) == forest_bag(old(spans)@).add(tree_bag(child))
            && final(spans)@.len() == old(spans)@.len()
            && adds_adoption(link_bag(old(spans)@), link_bag(final(spans)@), child, RuleView::Submit(key@))
            && placed_by(old(spans)@, link_bag(old(spans)@), link_bag(final(spans)@), child, RuleView::Submit(key@)),
        r matches Some(c) ==> c == child && *final(spans) == *old(spans),
{
    attach_in_place(spans, &ParentRule::Submit(copy_key(key)), child)
}

/// The end a child span occupies: its end, or its start while it runs.
pub open spec fn child_end(child: SpanInfo) -> i64 {
    match child.end_timestamp {
        Some(e) => e,
        None => child.start_timestamp,
    }
}

/// Attaches `child` under the shortest logical parent span whose time range
/// contains it (the first such, depth first, among equally short ones).
fn attach_to_time_parent(spans: &mut Vec<SpanInfo>, child: SpanInfo) -> (r: Option<SpanInfo>)
    ensures
        r is None <==> forest_has(old(spans)@, RuleView::Covers(child.start_timestamp, child_end(child))),
        r is None ==> forest_bag(final(spans)@) == forest_bag(old(spans)@).add(tree_bag(child))
            && final(spans)@.len() == old(spans)@.len()
            && linked_by(old(spans)@, link_bag(old(spans)@), link_bag(final(spans)@), child,
            RuleView::Covers(child.start_timestamp, child_end(child)))
            && placed_by(old(spans)@, link_bag(old(spans)@), link_bag(final(spans)@), child,
            RuleView::Covers(child.start_timestamp, child_end(child))),
        r matches Some(c) ==> c == child && *final(spans) == *old(spans),
{
    let start = child.start_timestamp;
    let end = match child.end_timestamp {
        Some(e) => e,
        None => child.start_timestamp,
    };
    match min_cover_duration(spans, start, end) {
        None => Some(child),
        Some(d) => {
            let ghost s0 = spans@;
            let r = attach_in_place(spans, &ParentRule::CoversFor(start, end, d), child);
            assert(r is None);
            assert(covers_at_least(s0, start, end, d as int));
            r
        },
    }
}

/// Attaches `child` under the logical parent span of its rollout, when
/// exactly one span is that parent.
fn attach_to_single_rollout_parent(spans: &mut Vec<SpanInfo>, rollout_id: &String, child: SpanInfo) -> (r: Option<SpanInfo>)
    ensures
        r is None <==> forest_count(old(spans)@, RuleView::Rollout(rollout_id@)) == 1,
        r is None ==> forest_bag(final(spans)@) == forest_bag(old(spans)@).add(tree_bag(child))
            && final(spans)@.len() == old(spans)@.len()
            && adds_adoption(link_bag(old(spans)@), link_bag(final(spans)@), child, RuleView::Rollout(rollout_id@))
            && placed_by(old(spans)@, link_bag(old(spans)@), link_bag(final(spans)@), child, RuleView::Rollout(rollout_id@)),
        r matches Some(c) ==> c == child && *final(spans) == *old(spans),
{
    let rule = ParentRule::Rollout(rollout_id.clone());
    proof {
        lemma_count_has(spans@, rule@);
    }
    if count_matches(spans, &rule) != 1 {
        return Some(child);
    }
    attach_in_place(spans, &rule, child)
}

/// The rule under which a pending child span is linked into the forest `s`:
/// its logical step parent, else its rollout submission, else the shortest
/// logical parent covering it in time, else the one logical parent of its
/// rollout; none when no rule finds a parent.
pub open spec fn link_rule(s: Seq<SpanInfo>, child: SpanInfo) -> Option<RuleView> {
    let attrs = child.attributes.deep_view();
    let covers = RuleView::Covers(child.start_timestamp, child_end(child));
    if step_key_spec(attrs) is Some && forest_has(s, RuleView::Logical(step_key_spec(attrs)->0)) {
        Some(RuleView::Logical(step_key_spec(attrs)->0))
    } else if submit_key_spec(attrs) is Some && forest_has(s, RuleView::Submit(submit_key_spec(attrs)->0)) {
        Some(RuleView::Submit(submit_key_spec(attrs)->0))
    } else if forest_has(s, covers) {
        Some(covers)
    } else if logical_rollout_id_spec(attrs) is Some && forest_count(
        s,
        RuleView::Rollout(logical_rollout_id_spec(attrs)->0),
    ) == 1 {
        Some(RuleView::Rollout(logical_rollout_id_spec(attrs)->0))
    } else {
        None
    }
}

/// Links one pending child span into `roots`: under the parent its
/// [`link_rule`] finds, or as a new root.
pub fn link_pending_child(roots: &mut Vec<SpanInfo>, child: SpanInfo)
    ensures
        forest_bag(final(roots)@) == forest_bag(old(roots)@).add(tree_bag(child)),
        link_rule(old(roots)@, child) is Some ==> final(roots)@.len() == old(roots)@.len(),
        link_rule(old(roots)@, child) matches Some(rule) ==> linked_by(
            old(roots)@,
            link_bag(old(roots)@),
            link_bag(final(roots)@),
            child,
            rule,
        ),
        link_rule(old(roots)@, child) matches Some(rule) ==> placed_by(
            old(roots)@,
            link_bag(old(roots)@),
            link_bag(final(roots)@),
            child,
            rule,
        ),
        link_rule(old(roots)@, child) is None ==> final(roots)@ == old(roots)@.push(child),
{
    let ghost c0 = child;
    let mut c = child;
    if let Some(key) = logical_step_key(&c) {
        match attach_to_logical_parent(roots, &key, c) {
            None => return,
            Some(back) => c = back,
        }
    }
    if let Some(key) = submit_link_key(&c) {
        match attach_to_submit_parent(roots, &key, c) {
            None => return,
            Some(back) => c = back,
        }
    }
    match attach_to_time_parent(roots, c) {
        None => return,
        Some(back) => c = back,
    }
    if let Some(rollout_id) = logical_rollout_id(&c) {
        match attach_to_single_rollout_parent(roots, &rollout_id, c) {
            None => return,
            Some(back) => c = back,
        }
    }
    assert(c == c0);
    let ghost r0 = roots@;
    roots.push(c);
    proof {
        lemma_forest_bag_push(r0, c0);
    }
}

/// Whether span data makes a cross-process child candidate, as
/// [`is_cross_process_child_candidate_spec`] asks of the span.
pub open spec fn is_candidate_data(d: SpanData) -> bool {
    &&& step_key_spec(d.attributes) is Some
    &&& !is_step_parent_span_spec(d.name, d.kind)
    &&& (is_rollout_worker_role_spec(span_role_spec(d.attributes)) || seq_starts_with(d.name, "custom.generate"@))
}

/// The end of the time range a span's data gives: its end, or its start while it runs.
pub open spec fn data_end(d: SpanData) -> i64 {
    match d.end_timestamp {
        Some(e) => e,
        None => d.start_timestamp,
    }
}

/// A link the cross-process rules may add: to a candidate `c`, from a span
/// that `c`'s step key, submission key, time range or rollout id accepts.
pub open spec fn link_accepts(p: SpanData, c: SpanData) -> bool {
    &&& is_candidate_data(c)
    &&& {
        ||| step_key_spec(c.attributes) is Some && rule_matches_data(
            p,
            RuleView::Logical(step_key_spec(c.attributes)->0),
        )
        ||| submit_key_spec(c.attributes) is Some && rule_matches_data(
            p,
            RuleView::Submit(submit_key_spec(c.attributes)->0),
        )
        ||| rule_matches_data(p, RuleView::Covers(c.start_timestamp, data_end(c)))
        ||| logical_rollout_id_spec(c.attributes) is Some && rule_matches_data(
            p,
            RuleView::Rollout(logical_rollout_id_spec(c.attributes)->0),
        )
    }
}

/// Every link of `after` beyond those of `before` is one the rules accept.
pub open spec fn new_links_accepted(before: Multiset<SpanLink>, after: Multiset<SpanLink>) -> bool {
    forall|e: SpanLink| #[trigger] after.count(e) > before.count(e) ==> link_accepts(e.0, e.1)
}

/// The link a pending candidate gains is one the rules accept; its parent is
/// returned.
proof fn lemma_linked_accepted(
    roots: Seq<SpanInfo>,
    before: Multiset<SpanLink>,
    after: Multiset<SpanLink>,
    child: SpanInfo,
) -> (p: SpanData)
    requires
        is_cross_process_child_candidate_spec(child),
        link_rule(roots, child) is Some,
        linked_by(roots, before, after, child, link_rule(roots, child)->0),
    ensures
        link_accepts(p, span_data(child)),
        after == before.add(tree_link_bag(child)).insert((p, span_data(child))),
{
    let rule = link_rule(roots, child)->0;
    let dc = span_data(child);
    assert(is_candidate_data(dc));
    match rule {
        RuleView::Covers(start, end) => {
            let d = choose|d: i128|
                #[trigger] covers_at_least(roots, start, end, d as int) && adds_adoption(
                    before,
                    after,
                    child,
                    RuleView::CoversFor(start, end, d),
                );
            let p = choose|p: SpanData|
                #[trigger] rule_matches_data(p, RuleView::CoversFor(start, end, d)) && after == before.add(
                    tree_link_bag(child),
                ).insert((p, dc));
            assert(rule_matches_data(p, RuleView::Covers(dc.start_timestamp, data_end(dc))));
            p
        },
        _ => {
            let p = choose|p: SpanData|
                #[trigger] rule_matches_data(p, rule) && after == before.add(tree_link_bag(child)).insert((p, dc));
            p
        },
    }
}

/// A span whose data lies in a forest and satisfies `rule` is found there.
proof fn lemma_has_from_data(s: Seq<SpanInfo>, d: SpanData, rule: RuleView)
    requires
        flat_forest(s).contains(d),
        rule_matches_data(d, rule),
    ensures
        forest_has(s, rule),
    decreases flat_forest(s).len(),
{
    let n = s.len() as int;
    if n == 0 {
        assert(flat_forest(s) =~= Seq::<SpanData>::empty());
    } else {
        let s0 = s.subrange(0, n - 1);
        let t = s[n - 1];
        let ft = flat_tree(t);
        assert(flat_forest(s) == flat_forest(s0) + ft);
        let k = choose|k: int| 0 <= k < flat_forest(s).len() && flat_forest(s)[k] == d;
        if k < flat_forest(s0).len() {
            assert(flat_forest(s0)[k] == d);
            lemma_has_from_data(s0, d, rule);
            let i = choose|i: int| 0 <= i < s0.len() && (rule_matches(#[trigger] s0[i], rule) || forest_has(s0[i].children@, rule));
            assert(s[i] == s0[i]);
        } else {
            let j = k - flat_forest(s0).len();
            assert(ft[j] == d);
            assert(ft == seq![span_data(t)] + flat_forest(t.children@));
            if j == 0 {
                lemma_rule_matches_data(t, rule);
                assert(rule_matches(s[n - 1], rule));
            } else {
                assert(flat_forest(t.children@)[j - 1] == d);
                lemma_has_from_data(t.children@, d, rule);
                assert(forest_has(s[n - 1].children@, rule));
            }
        }
    }
}

/// A candidate whose step has a logical parent among the spans of `spans`
/// that stay in place.
pub open spec fn has_staying_step_parent(spans: Seq<SpanInfo>, c: SpanInfo) -> bool {
    let key = step_key_spec(c.attributes.deep_view());
    &&& key is Some
    &&& exists|d: SpanData| staying(spans).contains(d) && #[trigger] rule_matches_data(d, RuleView::Logical(key->0))
}

/// `links` holds a link to `c` from a logical parent of its step.
pub open spec fn linked_to_step_parent(links: Multiset<SpanLink>, c: SpanInfo) -> bool {
    exists|p: SpanData|
        #[trigger] rule_matches_data(p, RuleView::Logical(step_key_spec(c.attributes.deep_view())->0))
            && links.count((p, span_data(c))) > 0
}

/// One linking step: `after` is `before` with `child` placed by
/// [`link_rule`], or with `child` as one more root when no rule applies.
pub open spec fn link_step(before: Seq<SpanInfo>, after: Seq<SpanInfo>, child: SpanInfo) -> bool {
    &&& forest_bag(after) == forest_bag(before).add(tree_bag(child))
    &&& match link_rule(before, child) {
        Some(rule) => after.len() == before.len() && placed_by(before, link_bag(before), link_bag(after), child, rule),
        None => after == before.push(child),
    }
}

/// `states` starts from its first forest and links each of `pending` in turn.
pub open spec fn link_chain(states: Seq<Seq<SpanInfo>>, pending: Seq<SpanInfo>) -> bool {
    &&& states.len() == pending.len() + 1
    &&& forall|k: int| 0 <= k < pending.len() ==> link_step(#[trigger] states[k], states[k + 1], pending[k])
}

/// The forest linking starts from: the spans of `spans` that stay in place,
/// each keeping its children that are not candidates.
pub open spec fn linking_start(spans: Seq<SpanInfo>, kept: Seq<SpanInfo>) -> bool {
    &&& forest_bag(kept) == staying(spans).to_multiset()
    &&& tops(kept) == kept_tops(spans)
    &&& link_bag(kept).add(link_bag(top_candidates(spans))) == held_links(spans).to_multiset()
    &&& candidate_free(kept)
    &&& prunes(kept, spans)
}

/// `r` is what linking gives for `spans`: from the spans that stay in place,
/// the pulled-out candidates are linked one by one in start order, and every
/// level of the outcome is put in start order.
pub open spec fn linked_from(spans: Seq<SpanInfo>, r: Seq<SpanInfo>) -> bool {
    exists|states: Seq<Seq<SpanInfo>>|
        #[trigger] link_chain(states, by_start(top_candidates(spans))) && linking_start(spans, states[0])
            && sorted_copy(r, by_start(states.last()))
}

/// Re-attaches worker spans of logical rollout steps under their parents
/// across processes, then orders every level by start time.
///
/// Candidates (with their subtrees) leave their own trees and, taken in
/// order of start time, are linked by [`link_rule`]; no span is lost or
/// duplicated ([`linked_from`] spells out each step). Every link of the
/// input stays but those into a pulled-out candidate ([`held_links`]). Every link the result has beyond those of the input joins a
/// candidate to a parent its rules accept, and a candidate whose step has a
/// logical parent among the spans staying in place ends up under one.
pub fn link_cross_process_spans(spans: Vec<SpanInfo>) -> (r: Vec<SpanInfo>)
    ensures
        forest_bag(r@) == forest_bag(spans@),
        forest_sorted(r@),
        new_links_accepted(link_bag(spans@), link_bag(r@)),
        held_links(spans@).to_multiset().subset_of(link_bag(r@)),
        linked_from(spans@, r@),
        forall|c: SpanInfo|
            #[trigger] top_candidates(spans@).contains(c) && has_staying_step_parent(spans@, c)
                ==> linked_to_step_parent(link_bag(r@), c),
{
    broadcast use vstd::multiset::group_multiset_axioms;
    let ghost input = spans@;
    let (mut roots, pending) = split_cross_process_candidates(spans);
    let ghost unsorted = pending@;
    let ghost kept0 = roots@;
    let pending = sort_by_start(pending);
    let ghost mut states: Seq<Seq<SpanInfo>> = seq![roots@];
    let ghost total = forest_bag(input);
    let ghost links = link_bag(input);
    proof {
        assert forall|i: int| 0 <= i < pending@.len() implies is_cross_process_child_candidate_spec(
            #[trigger] pending@[i],
        ) by {
            assert(pending@.to_multiset().count(pending@[i]) > 0);
            assert(unsorted.contains(pending@[i]));
        }
        assert forall|e: SpanLink| #[trigger] link_bag(roots@).add(link_bag(pending@)).count(e) > links.count(e)
            implies link_accepts(e.0, e.1) by {
            assert(link_bag(roots@).add(link_bag(unsorted)).count(e) <= links.count(e));
        }
        assert(link_bag(roots@).add(link_bag(pending@)) =~= link_bag(roots@).add(link_bag(unsorted)));
    }
    let ghost ps = pending@;
    let ghost stay = staying(input).to_multiset();
    let mut rest = pending;
    let _n = rest.len();
    let mut done: usize = 0;
    while rest.len() > 0
        invariant
            forest_bag(roots@).add(forest_bag(rest@)) == total,
            new_links_accepted(links, link_bag(roots@).add(link_bag(rest@))),
            forall|i: int| 0 <= i < rest@.len() ==> is_cross_process_child_candidate_spec(#[trigger] rest@[i]),
            done + rest@.len() == ps.len(),
            rest@ == ps.subrange(done as int, ps.len() as int),
            stay.subset_of(forest_bag(roots@)),
            stay == staying(input).to_multiset(),
            ps.len() <= usize::MAX,
            held_links(input).to_multiset().subset_of(link_bag(roots@).add(link_bag(rest@))),
            ps == by_start(top_candidates(input)),
            states.len() == done + 1,
            states[0] == kept0,
            states.last() == roots@,
            link_chain(states, ps.take(done as int)),
            forall|j: int|
                0 <= j < done && has_staying_step_parent(input, #[trigger] ps[j]) ==> linked_to_step_parent(
                    link_bag(roots@),
                    ps[j],
                ),
        decreases rest@.len(),
    {
        let ghost r0 = rest@;
        let ghost roots0 = roots@;
        let child = rest.remove(0);
        proof {
            lemma_forest_bag_remove(r0, 0);
            lemma_link_bag_remove(r0, 0);
            assert(rest@ == r0.remove(0));
            assert(is_cross_process_child_candidate_spec(r0[0]));
            assert forall|i: int| 0 <= i < rest@.len() implies is_cross_process_child_candidate_spec(
                #[trigger] rest@[i],
            ) by {
                assert(rest@[i] == r0[i + 1]);
            }
        }
        link_pending_child(&mut roots, child);
        proof {
            assert(forest_bag(roots@).add(forest_bag(rest@)) =~= total);
            assert(child == ps[done as int]);
            assert(stay.subset_of(forest_bag(roots@))) by {
                broadcast use vstd::multiset::group_multiset_axioms;
                assert forall|x: SpanData| stay.count(x) <= forest_bag(roots@).count(x) by {
                    assert(stay.count(x) <= forest_bag(roots0).count(x));
                }
            }
            lemma_links_grow(roots0, roots@, child);
            lemma_step_parent_linked(input, roots0, roots@, child, stay);
            assert forall|j: int|
                0 <= j < done + 1 && has_staying_step_parent(input, #[trigger] ps[j]) implies linked_to_step_parent(
                link_bag(roots@),
                ps[j],
            ) by {
                if j < done {
                    let k = step_key_spec(ps[j].attributes.deep_view())->0;
                    let p = choose|p: SpanData|
                        #[trigger] rule_matches_data(p, RuleView::Logical(k)) && link_bag(roots0).count(
                            (p, span_data(ps[j])),
                        ) > 0;
                    assert(link_bag(roots@).count((p, span_data(ps[j]))) > 0);
                }
            }
            let before = link_bag(roots0).add(link_bag(r0));
            let after = link_bag(roots@).add(link_bag(rest@));
            if link_rule(roots0, child) is Some {
                let p = lemma_linked_accepted(roots0, link_bag(roots0), link_bag(roots@), child);
                assert(after =~= before.insert((p, span_data(child))));
                assert forall|e: SpanLink| held_links(input).to_multiset().count(e) <= #[trigger] after.count(e) by {
                    assert(held_links(input).to_multiset().count(e) <= before.count(e));
                }
                assert forall|e: SpanLink| #[trigger] after.count(e) > links.count(e) implies link_accepts(
                    e.0,
                    e.1,
                ) by {
                    if e != (p, span_data(child)) {
                        assert(before.count(e) > links.count(e));
                    }
                }
            } else {
                lemma_link_bag_push(roots0, child);
                assert(after =~= before);
            }
            assert(held_links(input).to_multiset().subset_of(after));
        }
        proof {
            let s0 = states;
            states = states.push(roots@);
            assert(link_step(roots0, roots@, child));
            assert forall|k: int| 0 <= k < done + 1 implies link_step(#[trigger] states[k], states[k + 1], ps.take(done + 1)[k]) by {
                if k < done {
                    assert(ps.take(done + 1)[k] == ps.take(done as int)[k]);
                    assert(link_step(s0[k], s0[k + 1], ps.take(done as int)[k]));
                }
            }
        }
        done += 1;
        proof {
            assert(rest@ =~= ps.subrange(done as int, ps.len() as int));
        }
    }
    proof {
        assert(forest_bag(rest@) =~= Multiset::empty()) by {
            assert(rest@.len() == 0);
            assert(flat_forest(rest@) =~= Seq::<SpanData>::empty());
        }
        assert(forest_bag(roots@) =~= total);
        assert(link_bag(rest@) =~= Multiset::empty()) by {
            assert(rest@.len() == 0);
        }
        assert(link_bag(roots@).add(link_bag(rest@)) =~= link_bag(roots@));
        assert(held_links(input).to_multiset().subset_of(link_bag(roots@)));
        assert forall|c: SpanInfo|
            #[trigger] top_candidates(input).contains(c) && has_staying_step_parent(input, c)
                implies linked_to_step_parent(link_bag(roots@), c) by {
            assert(unsorted.to_multiset().count(c) > 0);
            assert(ps.contains(c));
            let j = choose|j: int| 0 <= j < ps.len() && ps[j] == c;
            assert(has_staying_step_parent(input, ps[j]));
        }
    }
    assert(ps.take(done as int) =~= ps);
    let r = sort_span_tree(roots);
    assert(linking_start(input, states[0]));
    assert(link_chain(states, by_start(top_candidates(input))));
    r
}

/// Linking one pending child keeps every link and every span already there.
proof fn lemma_links_grow(roots0: Seq<SpanInfo>, roots: Seq<SpanInfo>, child: SpanInfo)
    requires
        is_cross_process_child_candidate_spec(child),
        link_rule(roots0, child) is Some ==> linked_by(roots0, link_bag(roots0), link_bag(roots), child, link_rule(roots0, child)->0),
        link_rule(roots0, child) is None ==> roots == roots0.push(child),
    ensures
        forall|e: SpanLink| link_bag(roots0).count(e) <= #[trigger] link_bag(roots).count(e),
{
    broadcast use vstd::multiset::group_multiset_axioms;
    if link_rule(roots0, child) is Some {
        let p = lemma_linked_accepted(roots0, link_bag(roots0), link_bag(roots), child);
    } else {
        lemma_link_bag_push(roots0, child);
    }
}

/// A pending child whose step parent stays in place is linked under a
/// logical parent of its step.
proof fn lemma_step_parent_linked(
    input: Seq<SpanInfo>,
    roots0: Seq<SpanInfo>,
    roots: Seq<SpanInfo>,
    child: SpanInfo,
    stay: Multiset<SpanData>,
)
    requires
        stay == staying(input).to_multiset(),
        stay.subset_of(forest_bag(roots0)),
        link_rule(roots0, child) is Some ==> linked_by(roots0, link_bag(roots0), link_bag(roots), child, link_rule(roots0, child)->0),
    ensures
        has_staying_step_parent(input, child) ==> linked_to_step_parent(link_bag(roots), child),
{
    broadcast use vstd::multiset::group_multiset_axioms;
    if has_staying_step_parent(input, child) {
        let k = step_key_spec(child.attributes.deep_view())->0;
        let d = choose|d: SpanData| staying(input).contains(d) && #[trigger] rule_matches_data(d, RuleView::Logical(k));
        assert(stay.count(d) > 0);
        assert(forest_bag(roots0).count(d) > 0);
        assert(flat_forest(roots0).contains(d));
        lemma_has_from_data(roots0, d, RuleView::Logical(k));
        assert(link_rule(roots0, child) == Some(RuleView::Logical(k)));
        let p = choose|p: SpanData|
            #[trigger] rule_matches_data(p, RuleView::Logical(k)) && link_bag(roots) == link_bag(roots0).add(
                tree_link_bag(child),
            ).insert((p, span_data(child)));
        assert(link_bag(roots).count((p, span_data(child))) > 0);
    }
}

} // verus!
