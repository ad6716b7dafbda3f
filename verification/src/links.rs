//! Parent–child links of a span forest: each link pairs the data of a span
//! with the data of one of its direct children. Reordering a level keeps the
//! links; adopting a span adds exactly one.

use vstd::prelude::*;
use vstd::multiset::Multiset;
use crate::model::{SpanData, SpanInfo, span_data};

verus! {

broadcast use vstd::seq_lib::group_to_multiset_ensures;

/// A link from a parent span to one of its direct children.
pub type SpanLink = (SpanData, SpanData);

/// The data of each span of a level, in order.
pub open spec fn tops(s: Seq<SpanInfo>) -> Seq<SpanData> {
    s.map_values(|c: SpanInfo| span_data(c))
}

/// The links from `parent` to each span of `level`.
pub open spec fn links_from(parent: SpanData, level: Seq<SpanData>) -> Seq<SpanLink> {
    level.map_values(|d: SpanData| (parent, d))
}

/// The links of a tree: from its root to its children, then those below.
pub open spec fn tree_links(t: SpanInfo) -> Seq<SpanLink>
    decreases t,
{
    links_from(span_data(t), tops(t.children@)) + forest_links(t.children@)
}

/// The links of a forest, tree after tree.
pub open spec fn forest_links(s: Seq<SpanInfo>) -> Seq<SpanLink>
    decreases s,
{
    if s.len() == 0 {
        Seq::empty()
    } else {
        forest_links(s.subrange(0, s.len() - 1)) + tree_links(s[s.len() - 1])
    }
}

/// The links of a forest, as a multiset.
pub open spec fn link_bag(s: Seq<SpanInfo>) -> Multiset<SpanLink> {
    forest_links(s).to_multiset()
}

pub open spec fn tree_link_bag(t: SpanInfo) -> Multiset<SpanLink> {
    tree_links(t).to_multiset()
}

/// The data of the spans of one level, as a multiset.
pub open spec fn top_bag(s: Seq<SpanInfo>) -> Multiset<SpanData> {
    tops(s).to_multiset()
}

/// The links from `parent` to the spans of `level`, as a multiset.
pub open spec fn from_bag(parent: SpanData, level: Seq<SpanInfo>) -> Multiset<SpanLink> {
    links_from(parent, tops(level)).to_multiset()
}

/// Mapping a permutation gives a permutation.
pub proof fn lemma_map_perm<A, B>(a: Seq<A>, b: Seq<A>, f: spec_fn(A) -> B)
    requires
        a.to_multiset() == b.to_multiset(),
    ensures
        a.map_values(f).to_multiset() == b.map_values(f).to_multiset(),
{
    lemma_map_sub(a, b, f);
    lemma_map_sub(b, a, f);
    assert(a.map_values(f).to_multiset() =~= b.map_values(f).to_multiset());
}

/// Mapping keeps inclusion of multisets.
pub proof fn lemma_map_sub<A, B>(a: Seq<A>, b: Seq<A>, f: spec_fn(A) -> B)
    requires
        a.to_multiset().subset_of(b.to_multiset()),
    ensures
        a.map_values(f).to_multiset().subset_of(b.map_values(f).to_multiset()),
    decreases a.len(),
{
    broadcast use vstd::multiset::group_multiset_axioms;
    if a.len() == 0 {
        assert(a.map_values(f) =~= Seq::<B>::empty());
        assert(a.map_values(f).to_multiset() =~= Multiset::empty());
    } else {
        let x = a.last();
        let a0 = a.drop_last();
        assert(a =~= a0.push(x));
        assert(a.to_multiset() == a0.to_multiset().insert(x));
        assert(a.to_multiset().count(x) > 0);
        assert(b.to_multiset().count(x) > 0);
        assert(b.contains(x));
        let i = choose|i: int| 0 <= i < b.len() && b[i] == x;
        let b0 = b.remove(i);
        assert(b0.to_multiset() == b.to_multiset().remove(x));
        assert(a0.to_multiset().subset_of(b0.to_multiset())) by {
            assert forall|y: A| a0.to_multiset().count(y) <= b0.to_multiset().count(y) by {
                assert(a.to_multiset().count(y) <= b.to_multiset().count(y));
            }
        }
        lemma_map_sub(a0, b0, f);
        let ma = a.map_values(f);
        let mb = b.map_values(f);
        assert(ma =~= a0.map_values(f).push(f(x)));
        assert(mb.remove(i) =~= b0.map_values(f));
        assert(mb[i] == f(x));
        assert(mb.remove(i).to_multiset() == mb.to_multiset().remove(mb[i]));
        assert(mb.to_multiset().count(f(x)) > 0) by {
            assert(mb.contains(f(x)));
        }
        assert forall|y: B| ma.to_multiset().count(y) <= mb.to_multiset().count(y) by {
            assert(ma.to_multiset() == a0.map_values(f).to_multiset().insert(f(x)));
        }
    }
}

pub proof fn lemma_link_bag_push(s: Seq<SpanInfo>, t: SpanInfo)
    ensures
        link_bag(s.push(t)) == link_bag(s).add(tree_link_bag(t)),
{
    assert(s.push(t).subrange(0, s.len() as int) =~= s);
    vstd::seq_lib::lemma_multiset_commutative(forest_links(s), tree_links(t));
}

pub proof fn lemma_link_bag_append(a: Seq<SpanInfo>, b: Seq<SpanInfo>)
    ensures
        link_bag(a + b) == link_bag(a).add(link_bag(b)),
    decreases b.len(),
{
    broadcast use vstd::multiset::group_multiset_axioms;
    if b.len() == 0 {
        assert(a + b =~= a);
        assert(link_bag(b) =~= Multiset::empty());
        assert(link_bag(a).add(link_bag(b)) =~= link_bag(a));
    } else {
        let b0 = b.drop_last();
        let x = b.last();
        assert(b =~= b0.push(x));
        assert(a + b =~= (a + b0).push(x));
        lemma_link_bag_append(a, b0);
        lemma_link_bag_push(a + b0, x);
        lemma_link_bag_push(b0, x);
        assert(link_bag(a + b) =~= link_bag(a).add(link_bag(b)));
    }
}

pub proof fn lemma_link_bag_remove(s: Seq<SpanInfo>, i: int)
    requires
        0 <= i < s.len(),
    ensures
        link_bag(s) == link_bag(s.remove(i)).add(tree_link_bag(s[i])),
{
    broadcast use vstd::multiset::group_multiset_axioms;
    let a = s.subrange(0, i);
    let b = s.subrange(i + 1, s.len() as int);
    assert(s =~= a.push(s[i]) + b);
    assert(s.remove(i) =~= a + b);
    lemma_link_bag_append(a.push(s[i]), b);
    lemma_link_bag_push(a, s[i]);
    lemma_link_bag_append(a, b);
    assert(link_bag(s) =~= link_bag(s.remove(i)).add(tree_link_bag(s[i])));
}

/// A forest's links depend only on which trees it holds, not their order.
pub proof fn lemma_link_bag_perm(a: Seq<SpanInfo>, b: Seq<SpanInfo>)
    requires
        a.to_multiset() == b.to_multiset(),
    ensures
        link_bag(a) == link_bag(b),
        top_bag(a) == top_bag(b),
    decreases a.len(),
{
    broadcast use vstd::multiset::group_multiset_axioms;
    lemma_map_perm(a, b, |c: SpanInfo| span_data(c));
    if a.len() == 0 {
        assert(b.to_multiset().len() == b.len());
        assert(b.len() == 0);
        assert(a =~= b);
    } else {
        let x = a.last();
        let a0 = a.drop_last();
        assert(a =~= a0.push(x));
        assert(b.to_multiset().count(x) > 0);
        assert(b.contains(x));
        let i = choose|i: int| 0 <= i < b.len() && b[i] == x;
        let b0 = b.remove(i);
        assert(b0.to_multiset() =~= b.to_multiset().remove(x));
        assert(a0.to_multiset() =~= a.to_multiset().remove(x));
        lemma_link_bag_perm(a0, b0);
        lemma_link_bag_remove(b, i);
        lemma_link_bag_push(a0, x);
    }
}

/// A tree's links: those from its root, then those of its children.
pub proof fn lemma_tree_link_bag(t: SpanInfo)
    ensures
        tree_link_bag(t) == from_bag(span_data(t), t.children@).add(link_bag(t.children@)),
{
    vstd::seq_lib::lemma_multiset_commutative(links_from(span_data(t), tops(t.children@)), forest_links(t.children@));
}

/// The links from one parent depend only on the data of its children, as a multiset.
pub proof fn lemma_from_bag_sub(p: SpanData, a: Seq<SpanInfo>, b: Seq<SpanInfo>)
    requires
        top_bag(a).subset_of(top_bag(b)),
    ensures
        from_bag(p, a).subset_of(from_bag(p, b)),
{
    lemma_map_sub(tops(a), tops(b), |d: SpanData| (p, d));
}

pub proof fn lemma_from_bag_perm(p: SpanData, a: Seq<SpanInfo>, b: Seq<SpanInfo>)
    requires
        top_bag(a) == top_bag(b),
    ensures
        from_bag(p, a) == from_bag(p, b),
{
    lemma_map_perm(tops(a), tops(b), |d: SpanData| (p, d));
}

/// One more child adds one link from the parent.
pub proof fn lemma_from_bag_push(p: SpanData, s: Seq<SpanInfo>, c: SpanInfo)
    ensures
        from_bag(p, s.push(c)) == from_bag(p, s).insert((p, span_data(c))),
        top_bag(s.push(c)) == top_bag(s).insert(span_data(c)),
{
    assert(tops(s.push(c)) =~= tops(s).push(span_data(c)));
    assert(links_from(p, tops(s.push(c))) =~= links_from(p, tops(s)).push((p, span_data(c))));
}

} // verus!
