//! What the rollout and train panels show of their views: which rollout and
//! which sample are selected, the order of the sample rows (by start, or
//! slowest first), the slowest sample and the counts.

use vstd::prelude::*;
use crate::order::{
    SortKey, key_le, sort_by_key, sort_by_sort_key, stable_sort_by, stable_sort_by_key,
    lemma_stable_sort_by_map, lemma_stable_sort_by_key_map,
};
use crate::rollout::{RlRolloutView, RlSampleRow, SampleView, sample_view, sample_views};
use crate::text::str_eq;

verus! {

/// How long a sample lasted, never negative.
pub open spec fn view_duration(v: SampleView) -> int {
    if v.end - v.start > 0 {
        v.end - v.start
    } else {
        0
    }
}

fn duration_of(s: &RlSampleRow) -> (d: i128)
    ensures
        d == view_duration(sample_view(*s)),
{
    let d = s.end as i128 - s.start as i128;
    if d > 0 {
        d
    } else {
        0
    }
}

/// The key of the slowest-first order: a longer sample comes first, and of
/// two equally long ones the earlier start.
pub open spec fn slow_key(v: SampleView) -> int {
    v.start - view_duration(v) * 0x1_0000_0000_0000_0000
}

pub open spec fn slow_sort_key(v: SampleView) -> SortKey {
    SortKey { rank: slow_key(v), first: Seq::empty(), second: Seq::empty() }
}

/// The key of the timeline order: the start.
pub open spec fn time_key(v: SampleView) -> int {
    v.start as int
}

/// The sample rows in the order a panel shows them: slowest first (ties by
/// start), or by start; rows equal in the key keep their order.
pub open spec fn sample_order(s: Seq<SampleView>, slowest_first: bool) -> Seq<SampleView> {
    if slowest_first {
        stable_sort_by_key(s, |v: SampleView| slow_sort_key(v))
    } else {
        stable_sort_by(s, |v: SampleView| time_key(v))
    }
}

/// The slowest-first key orders by duration, longest first, then by start.
pub proof fn lemma_slow_key_order(a: SampleView, b: SampleView)
    ensures
        slow_key(a) <= slow_key(b) <==> (view_duration(a) > view_duration(b) || (view_duration(a) == view_duration(b)
            && a.start <= b.start)),
{
    let da = view_duration(a);
    let db = view_duration(b);
    let m: int = 0x1_0000_0000_0000_0000;
    if da > db {
        assert(da * m >= db * m + m) by (nonlinear_arith)
            requires
                da >= db + 1,
                m > 0,
        ;
    } else if da < db {
        assert(db * m >= da * m + m) by (nonlinear_arith)
            requires
                db >= da + 1,
                m > 0,
        ;
    }
}

/// The sample rows in the order a panel shows them.
pub fn ordered_samples(samples: Vec<RlSampleRow>, slowest_first: bool) -> (r: Vec<RlSampleRow>)
    ensures
        sample_views(r@) == sample_order(sample_views(samples@), slowest_first),
{
    let ghost s0 = samples@;
    let ghost f = |s: RlSampleRow| sample_view(s);
    if slowest_first {
        let ghost k1 = |s: RlSampleRow| slow_sort_key(sample_view(s));
        let le = |a: &RlSampleRow, b: &RlSampleRow| -> (r: bool)
            ensures
                r == key_le(slow_sort_key(sample_view(*a)), slow_sort_key(sample_view(*b))),
            {
                let da = duration_of(a);
                let db = duration_of(b);
                proof {
                    lemma_slow_key_order(sample_view(*a), sample_view(*b));
                    crate::order::lemma_lex_refl(Seq::<char>::empty());
                }
                da > db || (da == db && a.start <= b.start)
            };
        let r = sort_by_sort_key(samples, Ghost(k1), le);
        proof {
            lemma_stable_sort_by_key_map(s0, f, k1, |v: SampleView| slow_sort_key(v));
            assert(s0.map_values(f) =~= sample_views(s0));
            assert(r@.map_values(f) =~= sample_views(r@));
        }
        r
    } else {
        let ghost k1 = |s: RlSampleRow| time_key(sample_view(s));
        let key = |s: &RlSampleRow| -> (k: i128)
            ensures
                k == time_key(sample_view(*s)),
            { s.start as i128 };
        let r = sort_by_key(samples, Ghost(k1), key);
        proof {
            lemma_stable_sort_by_map(s0, f, k1, |v: SampleView| time_key(v));
            assert(s0.map_values(f) =~= sample_views(s0));
            assert(r@.map_values(f) =~= sample_views(r@));
        }
        r
    }
}

/// The sample a panel names as slowest: one of greatest duration, the last
/// of those.
pub open spec fn is_slowest(s: Seq<SampleView>, i: int) -> bool {
    &&& 0 <= i < s.len()
    &&& forall|j: int| 0 <= j < s.len() ==> view_duration(#[trigger] s[j]) <= view_duration(s[i])
    &&& forall|j: int| i < j < s.len() ==> view_duration(#[trigger] s[j]) < view_duration(s[i])
}

/// The index of the slowest sample (the last of equally slow ones); none
/// without samples.
pub fn slowest_sample(samples: &Vec<RlSampleRow>) -> (r: Option<usize>)
    ensures
        r is None <==> samples@.len() == 0,
        r matches Some(i) ==> is_slowest(sample_views(samples@), i as int),
{
    let ghost sv = sample_views(samples@);
    if samples.len() == 0 {
        return None;
    }
    assert(sv[0] == sample_view(samples@[0]));
    let mut best: usize = 0;
    let mut best_d: i128 = duration_of(&samples[0]);
    let mut i: usize = 1;
    while i < samples.len()
        invariant
            sv == sample_views(samples@),
            1 <= i <= samples@.len(),
            best < i,
            best_d == view_duration(sv[best as int]),
            forall|j: int| 0 <= j < i ==> view_duration(#[trigger] sv[j]) <= best_d,
            forall|j: int| best < j < i ==> view_duration(#[trigger] sv[j]) < best_d,
        decreases samples@.len() - i,
    {
        assert(sv[i as int] == sample_view(samples@[i as int]));
        let d = duration_of(&samples[i]);
        if d >= best_d {
            best = i;
            best_d = d;
        }
        i += 1;
    }
    Some(best)
}

/// The index a selection picks: the first entry with the selected key, or
/// the first entry when none has it; none when there are no entries.
pub open spec fn pick_index(keys: Seq<Seq<char>>, selected: Seq<char>) -> Option<int> {
    if keys.len() == 0 {
        None
    } else if exists|k: int| 0 <= k < keys.len() && keys[k] == selected {
        Some(choose|k: int| 0 <= k < keys.len() && keys[k] == selected && forall|j: int| 0 <= j < k ==> keys[j] != selected)
    } else {
        Some(0)
    }
}

/// The ids of a list of rollouts.
pub open spec fn rollout_ids(v: Seq<RlRolloutView>) -> Seq<Seq<char>> {
    v.map_values(|r: RlRolloutView| r.rollout_id@)
}

/// The keys of a list of samples.
pub open spec fn sample_keys(v: Seq<RlSampleRow>) -> Seq<Seq<char>> {
    v.map_values(|s: RlSampleRow| s.sample_key@)
}

/// The index of the first key equal to `selected`, else 0; none for no keys.
fn pick(keys: &Vec<&str>, selected: &str) -> (r: Option<usize>)
    ensures
        match r {
            None => keys@.len() == 0,
            Some(i) => keys@.len() > 0 && i < keys@.len() && (
                (keys@[i as int]@ == selected@ && forall|j: int| 0 <= j < i ==> keys@[j]@ != selected@)
                || (i == 0 && forall|j: int| 0 <= j < keys@.len() ==> keys@[j]@ != selected@)),
        },
{
    if keys.len() == 0 {
        return None;
    }
    let mut i: usize = 0;
    while i < keys.len()
        invariant
            i <= keys@.len(),
            forall|j: int| 0 <= j < i ==> keys@[j]@ != selected@,
        decreases keys@.len() - i,
    {
        if str_eq(keys[i], selected) {
            return Some(i);
        }
        i += 1;
    }
    Some(0)
}

proof fn lemma_pick_index(keys: Seq<Seq<char>>, selected: Seq<char>, i: int)
    requires
        keys.len() > 0,
        0 <= i < keys.len(),
        (keys[i] == selected && forall|j: int| 0 <= j < i ==> keys[j] != selected) || (i == 0 && forall|j: int|
            0 <= j < keys.len() ==> keys[j] != selected),
    ensures
        pick_index(keys, selected) == Some(i),
{
    if exists|k: int| 0 <= k < keys.len() && keys[k] == selected {
        let k = choose|k: int| 0 <= k < keys.len() && keys[k] == selected && forall|j: int| 0 <= j < k ==> keys[j] != selected;
        assert(0 <= k < keys.len() && keys[k] == selected && forall|j: int| 0 <= j < k ==> keys[j] != selected) by {
            assert(keys[i] == selected);
        }
        if k < i {
            assert(keys[k] != selected);
        }
        if i < k {
            assert(keys[i] != selected);
        }
    }
}

/// The rollout a panel shows: the first with the selected id, else the first.
pub fn selected_rollout_index(rollouts: &Vec<RlRolloutView>, selected: &str) -> (r: Option<usize>)
    ensures
        match r {
            Some(i) => i < rollouts@.len() && pick_index(rollout_ids(rollouts@), selected@) == Some(i as int),
            None => pick_index(rollout_ids(rollouts@), selected@) is None,
        },
{
    let mut keys: Vec<&str> = Vec::new();
    let mut k: usize = 0;
    while k < rollouts.len()
        invariant
            k <= rollouts@.len(),
            keys@.len() == k,
            forall|j: int| 0 <= j < k ==> (#[trigger] keys@[j])@ == rollouts@[j].rollout_id@,
        decreases rollouts@.len() - k,
    {
        keys.push(rollouts[k].rollout_id.as_str());
        k += 1;
    }
    let r = pick(&keys, selected);
    proof {
        let ids = rollout_ids(rollouts@);
        assert forall|j: int| 0 <= j < keys@.len() implies keys@[j]@ == ids[j] by {
        }
        if let Some(i) = r {
            lemma_pick_index(ids, selected@, i as int);
        }
    }
    r
}

/// The sample a panel pins: the first with the selected key, else the first.
pub fn selected_sample_index(samples: &Vec<RlSampleRow>, selected: &str) -> (r: Option<usize>)
    ensures
        match r {
            Some(i) => i < samples@.len() && pick_index(sample_keys(samples@), selected@) == Some(i as int),
            None => pick_index(sample_keys(samples@), selected@) is None,
        },
{
    let mut keys: Vec<&str> = Vec::new();
    let mut k: usize = 0;
    while k < samples.len()
        invariant
            k <= samples@.len(),
            keys@.len() == k,
            forall|j: int| 0 <= j < k ==> (#[trigger] keys@[j])@ == samples@[j].sample_key@,
        decreases samples@.len() - k,
    {
        keys.push(samples[k].sample_key.as_str());
        k += 1;
    }
    let r = pick(&keys, selected);
    proof {
        let ks = sample_keys(samples@);
        assert forall|j: int| 0 <= j < keys@.len() implies keys@[j]@ == ks[j] by {
        }
        if let Some(i) = r {
            lemma_pick_index(ks, selected@, i as int);
        }
    }
    r
}

/// How many phase segments the samples hold in all.
pub open spec fn segment_total(s: Seq<SampleView>) -> int
    decreases s.len(),
{
    if s.len() == 0 {
        0
    } else {
        segment_total(s.drop_last()) + s.last().segments.len()
    }
}

/// The number of phase segments of the samples.
pub fn segment_count(samples: &Vec<RlSampleRow>) -> (r: usize)
    requires
        segment_total(sample_views(samples@)) <= usize::MAX,
    ensures
        r == segment_total(sample_views(samples@)),
{
    let ghost sv = sample_views(samples@);
    let mut total: usize = 0;
    let mut i: usize = 0;
    while i < samples.len()
        invariant
            i <= samples@.len(),
            sv == sample_views(samples@),
            segment_total(sv) <= usize::MAX,
            total == segment_total(sv.subrange(0, i as int)),
        decreases samples@.len() - i,
    {
        proof {
            assert(sv.subrange(0, i + 1).drop_last() =~= sv.subrange(0, i as int));
            lemma_segment_total_prefix(sv, i + 1);
            assert(sv[i as int] == sample_view(samples@[i as int]));
            assert(sv.subrange(0, i + 1).last() == sv[i as int]);
        }
        total = total + samples[i].segments.len();
        i += 1;
    }
    assert(sv.subrange(0, i as int) =~= sv);
    total
}

proof fn lemma_segment_total_prefix(s: Seq<SampleView>, k: int)
    requires
        0 <= k <= s.len(),
    ensures
        segment_total(s.subrange(0, k)) <= segment_total(s),
    decreases s.len() - k,
{
    if k < s.len() {
        lemma_segment_total_prefix(s, k + 1);
        assert(s.subrange(0, k + 1).drop_last() =~= s.subrange(0, k));
    } else {
        assert(s.subrange(0, k) =~= s);
    }
}

/// The time window a panel spans: from the rollout's start to its end, or
/// to one nanosecond past the start when the end is not later; at least one
/// nanosecond.
pub open spec fn window_spec(start: int, end: int) -> int {
    let max_end = if end > start + 1 {
        end
    } else {
        start + 1
    };
    if max_end - start > 1 {
        max_end - start
    } else {
        1
    }
}

/// The time window of a rollout panel.
pub fn rollout_window(start: i64, end: i64) -> (r: i64)
    requires
        start < i64::MAX,
        end - start <= i64::MAX,
    ensures
        r == window_spec(start as int, end as int),
{
    let max_end = if end > start + 1 {
        end
    } else {
        start + 1
    };
    let w = max_end - start;
    if w > 1 {
        w
    } else {
        1
    }
}

} // verus!
