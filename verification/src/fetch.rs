//! Which processes the span view still fetches on their own: the known
//! processes that none of the fetched spans names.

use vstd::prelude::*;
use crate::model::{SpanData, SpanInfo, TraceProcessInfo, flat_forest, flat_tree, lemma_flat_forest_push, span_data};
use crate::display::{pid_from_attrs_spec, process_pid_from_attrs};
use crate::text::{parse_i32, parse_i32_spec};

verus! {

/// The pid a span names in its attributes, as a number.
pub open spec fn span_pid(d: SpanData) -> Option<i32> {
    match pid_from_attrs_spec(d.attributes) {
        Some(p) => parse_i32_spec(p),
        None => None,
    }
}

/// The pids the spans name, span by span.
pub open spec fn pid_list(flat: Seq<SpanData>) -> Seq<i32>
    decreases flat.len(),
{
    if flat.len() == 0 {
        Seq::empty()
    } else {
        pid_list(flat.drop_last()) + match span_pid(flat.last()) {
            Some(p) => seq![p],
            None => Seq::empty(),
        }
    }
}

/// `acc` with `p` added unless it is there.
pub open spec fn add_pid(acc: Seq<i32>, p: i32) -> Seq<i32> {
    if acc.contains(p) {
        acc
    } else {
        acc.push(p)
    }
}

/// `acc` with the pids of `s` added in turn.
pub open spec fn add_pids(acc: Seq<i32>, s: Seq<i32>) -> Seq<i32>
    decreases s.len(),
{
    if s.len() == 0 {
        acc
    } else {
        add_pid(add_pids(acc, s.drop_last()), s.last())
    }
}

/// The pids the spans of a forest name, each once, in order of first mention.
pub open spec fn span_pids(spans: Seq<SpanInfo>) -> Seq<i32> {
    add_pids(Seq::empty(), pid_list(flat_forest(spans)))
}

proof fn lemma_pid_list_append(a: Seq<SpanData>, b: Seq<SpanData>)
    ensures
        pid_list(a + b) == pid_list(a) + pid_list(b),
    decreases b.len(),
{
    if b.len() == 0 {
        assert(a + b =~= a);
        assert(pid_list(a) + pid_list(b) =~= pid_list(a));
    } else {
        lemma_pid_list_append(a, b.drop_last());
        assert((a + b).drop_last() =~= a + b.drop_last());
        assert((a + b).last() == b.last());
        assert(pid_list(a + b) =~= pid_list(a) + pid_list(b));
    }
}

proof fn lemma_add_pids_append(acc: Seq<i32>, a: Seq<i32>, b: Seq<i32>)
    ensures
        add_pids(acc, a + b) == add_pids(add_pids(acc, a), b),
    decreases b.len(),
{
    if b.len() == 0 {
        assert(a + b =~= a);
    } else {
        lemma_add_pids_append(acc, a, b.drop_last());
        assert((a + b).drop_last() =~= a + b.drop_last());
        assert((a + b).last() == b.last());
    }
}

/// Adding pids keeps each pid once, and holds exactly those of either side.
pub proof fn lemma_add_pids(acc: Seq<i32>, s: Seq<i32>)
    requires
        acc.no_duplicates(),
    ensures
        add_pids(acc, s).no_duplicates(),
        forall|p: i32| #[trigger] add_pids(acc, s).contains(p) <==> acc.contains(p) || s.contains(p),
    decreases s.len(),
{
    if s.len() > 0 {
        lemma_add_pids(acc, s.drop_last());
        let r = add_pids(acc, s.drop_last());
        assert forall|p: i32| #[trigger] add_pids(acc, s).contains(p) <==> acc.contains(p) || s.contains(p) by {
            if s.contains(p) && !s.drop_last().contains(p) {
                let i = choose|i: int| 0 <= i < s.len() && s[i] == p;
                if i < s.len() - 1 {
                    assert(s.drop_last()[i] == p);
                }
                assert(p == s.last());
            }
            if s.drop_last().contains(p) {
                let i = choose|i: int| 0 <= i < s.drop_last().len() && s.drop_last()[i] == p;
                assert(s[i] == p);
            }
            if !r.contains(s.last()) {
                assert(r.push(s.last())[r.len() as int] == s.last());
                if r.contains(p) {
                    let i = choose|i: int| 0 <= i < r.len() && r[i] == p;
                    assert(r.push(s.last())[i] == p);
                }
                if r.push(s.last()).contains(p) && p != s.last() {
                    let i = choose|i: int| 0 <= i < r.len() + 1 && r.push(s.last())[i] == p;
                    assert(r[i] == p);
                }
            }
        }
    }
}

/// Whether `p` is among `v`.
fn contains_pid(v: &Vec<i32>, p: i32) -> (r: bool)
    ensures
        r == v@.contains(p),
{
    let mut i: usize = 0;
    while i < v.len()
        invariant
            i <= v@.len(),
            forall|k: int| 0 <= k < i ==> v@[k] != p,
        decreases v@.len() - i,
    {
        if v[i] == p {
            return true;
        }
        i += 1;
    }
    false
}

fn push_pid(out: &mut Vec<i32>, p: i32)
    ensures
        final(out)@ == add_pid(old(out)@, p),
{
    if !contains_pid(out, p) {
        out.push(p);
    }
}

/// The pid a span names, as a number.
fn pid_of(span: &SpanInfo) -> (r: Option<i32>)
    ensures
        r == span_pid(span_data(*span)),
{
    match process_pid_from_attrs(&span.attributes) {
        Some(p) => parse_i32(p.as_str()),
        None => None,
    }
}

fn collect_pids(spans: &Vec<SpanInfo>, out: &mut Vec<i32>)
    ensures
        final(out)@ == add_pids(old(out)@, pid_list(flat_forest(spans@))),
    decreases spans@,
{
    let ghost o0 = out@;
    let mut i: usize = 0;
    assert(spans@.subrange(0, 0) =~= Seq::<SpanInfo>::empty());
    assert(pid_list(flat_forest(Seq::<SpanInfo>::empty())) =~= Seq::<i32>::empty());
    while i < spans.len()
        invariant
            i <= spans@.len(),
            out@ == add_pids(o0, pid_list(flat_forest(spans@.subrange(0, i as int)))),
        decreases spans@.len() - i,
    {
        let t = &spans[i];
        let ghost pre = spans@.subrange(0, i as int);
        let ghost prev = pid_list(flat_forest(pre));
        let ghost own = pid_list(seq![span_data(*t)]);
        let ghost below = pid_list(flat_forest(t.children@));
        proof {
            assert(spans@.subrange(0, i + 1) =~= pre.push(*t));
            lemma_flat_forest_push(pre, *t);
            assert(flat_tree(*t) == seq![span_data(*t)] + flat_forest(t.children@));
            lemma_pid_list_append(flat_forest(pre), flat_tree(*t));
            lemma_pid_list_append(seq![span_data(*t)], flat_forest(t.children@));
            assert(seq![span_data(*t)].drop_last() =~= Seq::<SpanData>::empty());
            assert(pid_list(Seq::<SpanData>::empty()) =~= Seq::<i32>::empty());
            assert(pid_list(flat_forest(spans@.subrange(0, i + 1))) == prev + (own + below));
            lemma_add_pids_append(o0, prev, own + below);
            lemma_add_pids_append(add_pids(o0, prev), own, below);
        }
        assert(out@ == add_pids(o0, prev));
        match pid_of(t) {
            Some(p) => {
                push_pid(out, p);
                assert(own =~= seq![p]);
                assert(seq![p].drop_last() =~= Seq::<i32>::empty());
                assert(seq![p].last() == p);
                assert(add_pids(add_pids(o0, prev), seq![p]) == add_pid(add_pids(add_pids(o0, prev), Seq::<i32>::empty()), p));
            },
            None => {
                assert(own =~= Seq::<i32>::empty());
            },
        }
        assert(out@ == add_pids(add_pids(o0, prev), own));
        collect_pids(&t.children, out);
        i += 1;
    }
    assert(spans@.subrange(0, spans@.len() as int) =~= spans@);
}

/// The pids the fetched spans name, each once, in order of first mention.
pub fn collect_span_process_pids(spans: &Vec<SpanInfo>) -> (r: Vec<i32>)
    ensures
        r@ == span_pids(spans@),
        r@.no_duplicates(),
        forall|p: i32| #[trigger] r@.contains(p) <==> pid_list(flat_forest(spans@)).contains(p),
{
    let mut out: Vec<i32> = Vec::new();
    collect_pids(spans, &mut out);
    proof {
        lemma_add_pids(Seq::empty(), pid_list(flat_forest(spans@)));
    }
    out
}

/// The pids of the processes that none of `local` names, in process order.
pub open spec fn unfetched(processes: Seq<TraceProcessInfo>, local: Seq<i32>) -> Seq<i32>
    decreases processes.len(),
{
    if processes.len() == 0 {
        Seq::empty()
    } else {
        unfetched(processes.drop_last(), local) + if local.contains(processes.last().pid) {
            Seq::empty()
        } else {
            seq![processes.last().pid]
        }
    }
}

/// Some process of the list has the pid.
pub open spec fn lists_pid(processes: Seq<TraceProcessInfo>, pid: i32) -> bool {
    exists|i: int| 0 <= i < processes.len() && #[trigger] processes[i].pid == pid
}

/// A pid is fetched on its own exactly when a known process has it and no
/// fetched span names it.
pub proof fn lemma_unfetched_members(processes: Seq<TraceProcessInfo>, local: Seq<i32>)
    ensures
        forall|p: i32| #[trigger] unfetched(processes, local).contains(p) <==> lists_pid(processes, p) && !local.contains(p),
    decreases processes.len(),
{
    if processes.len() > 0 {
        let prev = processes.drop_last();
        let last = processes.last();
        lemma_unfetched_members(prev, local);
        let u = unfetched(processes, local);
        let u0 = unfetched(prev, local);
        assert forall|p: i32| #[trigger] u.contains(p) <==> lists_pid(processes, p) && !local.contains(p) by {
            assert(u0.contains(p) <==> lists_pid(prev, p) && !local.contains(p));
            if local.contains(last.pid) {
                assert(u =~= u0);
            } else {
                assert(u =~= u0.push(last.pid));
                if u.contains(p) && p != last.pid {
                    let j = choose|j: int| 0 <= j < u.len() && u[j] == p;
                    assert(u0[j] == p);
                }
                if u0.contains(p) {
                    let j = choose|j: int| 0 <= j < u0.len() && u0[j] == p;
                    assert(u[j] == p);
                }
                if p == last.pid {
                    assert(u[u0.len() as int] == p);
                }
            }
            if lists_pid(processes, p) && !lists_pid(prev, p) {
                let i = choose|i: int| 0 <= i < processes.len() && #[trigger] processes[i].pid == p;
                if i < prev.len() {
                    assert(prev[i].pid == p);
                }
                assert(p == last.pid);
            }
            if lists_pid(prev, p) {
                let i = choose|i: int| 0 <= i < prev.len() && #[trigger] prev[i].pid == p;
                assert(processes[i].pid == p);
            }
            if p == last.pid {
                assert(processes[processes.len() - 1].pid == p);
            }
        }
    }
}

/// The processes whose spans are still to be fetched on their own: those
/// that no fetched span names, in process order.
pub fn processes_to_fetch(spans: &Vec<SpanInfo>, processes: &Vec<TraceProcessInfo>) -> (r: Vec<i32>)
    ensures
        r@ == unfetched(processes@, span_pids(spans@)),
{
    let local = collect_span_process_pids(spans);
    let mut out: Vec<i32> = Vec::new();
    let mut i: usize = 0;
    assert(processes@.subrange(0, 0) =~= Seq::<TraceProcessInfo>::empty());
    while i < processes.len()
        invariant
            i <= processes@.len(),
            local@ == span_pids(spans@),
            out@ == unfetched(processes@.subrange(0, i as int), local@),
        decreases processes@.len() - i,
    {
        let ghost pre = processes@.subrange(0, i + 1);
        assert(pre.drop_last() =~= processes@.subrange(0, i as int));
        let pid = processes[i].pid;
        if !contains_pid(&local, pid) {
            out.push(pid);
        }
        assert(out@ =~= unfetched(pre, local@));
        i += 1;
    }
    assert(processes@.subrange(0, processes@.len() as int) =~= processes@);
    out
}

} // verus!
