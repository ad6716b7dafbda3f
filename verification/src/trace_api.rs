//! The SQL the trace views send, and the bookkeeping of the processes they
//! query.

use vstd::prelude::*;
use crate::model::{Process, TraceProcessInfo};
use crate::rl_contract::{attr_spec, attr_string};
use crate::order::{sort_by_key, sorted_by};
use crate::text::{
    int_text, nat_text, push_char, push_int, push_str, push_uint, seq_contains, str_contains,
    str_eq, string_of,
};

verus! {

/// Column list and table shared by the trace event queries.
pub const TRACE_EVENT_SELECT: &'static str = "\n            SELECT\n                record_type,\n                trace_id,\n                span_id,\n                COALESCE(parent_id, -1) as parent_id,\n                name,\n                time as timestamp,\n                COALESCE(thread_id, 0) as thread_id,\n                kind,\n                location,\n                attributes,\n                event_attributes\n            FROM python.trace_event\n";

/// Query listing the Ray/probing processes known to the driver.
pub const TRACE_PROCESSES_QUERY: &'static str = "\n            SELECT\n                pid,\n                hostname,\n                ray_worker_id,\n                ray_actor_id,\n                ray_actor_name,\n                process_role\n            FROM python.ray_process\n            WHERE pid > 0\n            ORDER BY pid ASC\n        ";

/// The `LIMIT` clause for an optional limit.
pub open spec fn limit_clause(limit: Option<usize>) -> Seq<char> {
    match limit {
        Some(n) => "LIMIT "@ + nat_text(n as nat),
        None => Seq::empty(),
    }
}

pub open spec fn trace_events_query_spec(limit: Option<usize>) -> Seq<char> {
    TRACE_EVENT_SELECT@ + "            ORDER BY timestamp DESC\n            "@ + limit_clause(limit)
        + "\n        "@
}

/// Query for the latest trace events, newest first, optionally limited.
pub fn trace_events_query(limit: Option<usize>) -> (r: String)
    ensures
        r@ == trace_events_query_spec(limit),
{
    let mut q = string_of(TRACE_EVENT_SELECT);
    push_str(&mut q, "            ORDER BY timestamp DESC\n            ");
    if let Some(n) = limit {
        push_str(&mut q, "LIMIT ");
        push_uint(&mut q, n as u64);
    }
    push_str(&mut q, "\n        ");
    proof {
        assert(q@ =~= trace_events_query_spec(limit));
    }
    q
}

/// `s` with every single quote doubled.
pub open spec fn sql_escape(s: Seq<char>) -> Seq<char>
    decreases s.len(),
{
    if s.len() == 0 {
        Seq::empty()
    } else if s.last() == '\'' {
        sql_escape(s.drop_last()) + seq!['\'', '\'']
    } else {
        sql_escape(s.drop_last()).push(s.last())
    }
}

/// `s` as a single-quoted SQL string literal.
pub open spec fn sql_literal(s: Seq<char>) -> Seq<char> {
    seq!['\''] + sql_escape(s) + seq!['\'']
}

fn push_sql_escaped(q: &mut String, value: &Vec<char>)
    ensures
        final(q)@ == old(q)@ + sql_escape(value@),
{
    let ghost start = q@;
    let mut i: usize = 0;
    while i < value.len()
        invariant
            i <= value.len(),
            q@ == start + sql_escape(value@.subrange(0, i as int)),
        decreases value.len() - i,
    {
        let c = value[i];
        let ghost prefix = value@.subrange(0, i as int);
        let ghost next = value@.subrange(0, i + 1);
        assert(next.drop_last() =~= prefix);
        assert(next.last() == c);
        if c == '\'' {
            push_char(q, '\'');
            push_char(q, '\'');
            assert(q@ =~= start + sql_escape(next));
        } else {
            push_char(q, c);
            assert(q@ =~= start + sql_escape(next));
        }
        i += 1;
    }
    assert(value@.subrange(0, value@.len() as int) =~= value@);
}

fn push_sql_literal(q: &mut String, value: &Vec<char>)
    ensures
        final(q)@ == old(q)@ + sql_literal(value@),
{
    push_char(q, '\'');
    push_sql_escaped(q, value);
    push_char(q, '\'');
    assert(q@ =~= old(q)@ + sql_literal(value@));
}

/// `value` as a single-quoted SQL string literal, quotes doubled.
pub fn sql_string_literal(value: &str) -> (r: String)
    ensures
        r@ == sql_literal(value@),
{
    let v = crate::text::chars_of(value);
    let mut q = String::new();
    push_sql_literal(&mut q, &v);
    assert(q@ =~= sql_literal(value@));
    q
}

/// The LIKE pattern matching `"rollout_id"` followed by `open`, the id and `close`.
pub open spec fn rollout_like(open: Seq<char>, id: Seq<char>, close: Seq<char>) -> Seq<char> {
    sql_literal("%\"rollout_id\":"@ + open + id + close)
}

fn push_rollout_like(q: &mut String, open: &str, id: &str, close: &str)
    ensures
        final(q)@ == old(q)@ + rollout_like(open@, id@, close@),
{
    let mut pattern = string_of("%\"rollout_id\":");
    push_str(&mut pattern, open);
    push_str(&mut pattern, id);
    push_str(&mut pattern, close);
    let v = crate::text::chars_of(pattern.as_str());
    push_sql_literal(q, &v);
}

pub open spec fn span_ids_for_rollout_query_spec(id: Seq<char>) -> Seq<char> {
    "\n            SELECT DISTINCT span_id\n            FROM python.trace_event\n            WHERE record_type = 'span_start'\n              AND (\n                attributes LIKE "@
        + rollout_like(""@, id, ",%"@) + "\n                OR attributes LIKE "@
        + rollout_like(""@, id, "}%"@) + "\n                OR attributes LIKE "@
        + rollout_like(" "@, id, ",%"@) + "\n                OR attributes LIKE "@
        + rollout_like(" "@, id, "}%"@) + "\n                OR attributes LIKE "@
        + rollout_like("\""@, id, "\",%"@) + "\n                OR attributes LIKE "@
        + rollout_like("\""@, id, "\"}%"@) + "\n                OR attributes LIKE "@
        + rollout_like(" \""@, id, "\",%"@) + "\n                OR attributes LIKE "@
        + rollout_like(" \""@, id, "\"}%"@)
        + "\n              )\n            ORDER BY span_id ASC\n        "@
}

/// Query for the ids of spans whose attributes tag them with `rollout_id`,
/// numeric or quoted, with or without a space after the colon.
pub fn span_ids_for_rollout_query(rollout_id: &str) -> (r: String)
    ensures
        r@ == span_ids_for_rollout_query_spec(rollout_id@),
{
    let mut q = string_of(
        "\n            SELECT DISTINCT span_id\n            FROM python.trace_event\n            WHERE record_type = 'span_start'\n              AND (\n                attributes LIKE ",
    );
    push_rollout_like(&mut q, "", rollout_id, ",%");
    push_str(&mut q, "\n                OR attributes LIKE ");
    push_rollout_like(&mut q, "", rollout_id, "}%");
    push_str(&mut q, "\n                OR attributes LIKE ");
    push_rollout_like(&mut q, " ", rollout_id, ",%");
    push_str(&mut q, "\n                OR attributes LIKE ");
    push_rollout_like(&mut q, " ", rollout_id, "}%");
    push_str(&mut q, "\n                OR attributes LIKE ");
    push_rollout_like(&mut q, "\"", rollout_id, "\",%");
    push_str(&mut q, "\n                OR attributes LIKE ");
    push_rollout_like(&mut q, "\"", rollout_id, "\"}%");
    push_str(&mut q, "\n                OR attributes LIKE ");
    push_rollout_like(&mut q, " \"", rollout_id, "\",%");
    push_str(&mut q, "\n                OR attributes LIKE ");
    push_rollout_like(&mut q, " \"", rollout_id, "\"}%");
    push_str(&mut q, "\n              )\n            ORDER BY span_id ASC\n        ");
    assert(q@ =~= span_ids_for_rollout_query_spec(rollout_id@));
    q
}

/// Decimal ids joined by `", "`.
pub open spec fn join_ids(ids: Seq<i64>) -> Seq<char>
    decreases ids.len(),
{
    if ids.len() == 0 {
        Seq::empty()
    } else if ids.len() == 1 {
        int_text(ids[0] as int)
    } else {
        join_ids(ids.drop_last()) + ", "@ + int_text(ids.last() as int)
    }
}

pub open spec fn trace_events_for_span_ids_query_spec(ids: Seq<i64>) -> Seq<char> {
    TRACE_EVENT_SELECT@ + "            WHERE span_id IN ("@ + join_ids(ids)
        + ")\n            ORDER BY timestamp DESC\n        "@
}

/// The second query of a rollout lookup: the trace events of the spans the
/// first query found; none when it found no span, and then there is nothing
/// to fetch.
pub fn events_query_for_span_ids(span_ids: &Vec<i64>) -> (r: Option<String>)
    ensures
        span_ids@.len() == 0 ==> r is None,
        span_ids@.len() > 0 ==> (r matches Some(q) && q@ == trace_events_for_span_ids_query_spec(span_ids@)),
{
    if span_ids.len() == 0 {
        None
    } else {
        Some(trace_events_for_span_ids_query(span_ids.as_slice()))
    }
}

/// Query for all trace events of the given spans, newest first.
pub fn trace_events_for_span_ids_query(span_ids: &[i64]) -> (r: String)
    ensures
        r@ == trace_events_for_span_ids_query_spec(span_ids@),
{
    let mut q = string_of(TRACE_EVENT_SELECT);
    push_str(&mut q, "            WHERE span_id IN (");
    let ghost start = q@;
    let mut i: usize = 0;
    while i < span_ids.len()
        invariant
            i <= span_ids@.len(),
            q@ == start + join_ids(span_ids@.subrange(0, i as int)),
        decreases span_ids@.len() - i,
    {
        let ghost prefix = span_ids@.subrange(0, i as int);
        let ghost next = span_ids@.subrange(0, i + 1);
        assert(next.drop_last() =~= prefix);
        if i > 0 {
            push_str(&mut q, ", ");
        }
        push_int(&mut q, span_ids[i]);
        i += 1;
        assert(q@ =~= start + join_ids(next));
    }
    assert(span_ids@.subrange(0, span_ids@.len() as int) =~= span_ids@);
    push_str(&mut q, ")\n            ORDER BY timestamp DESC\n        ");
    assert(q@ =~= trace_events_for_span_ids_query_spec(span_ids@));
    q
}

/// The role a local process plays, from markers in its command line.
pub open spec fn local_process_role_spec(cmd: Seq<char>) -> Seq<char> {
    if seq_contains(cmd, "RolloutManager.generate"@) {
        "rollout_actor"@
    } else if seq_contains(cmd, "MegatronTrainRayActor.train"@) {
        "train_actor"@
    } else if seq_contains(cmd, "SGLangEngine"@) {
        "sglang_engine"@
    } else if seq_contains(cmd, "JobSupervisor"@) {
        "ray_job_supervisor"@
    } else if seq_contains(cmd, "Lock"@) {
        "ray_lock"@
    } else if seq_contains(cmd, "train_async.py"@) {
        "driver"@
    } else {
        "process"@
    }
}

/// The role of a local process, from its command line.
pub fn local_process_role(cmd: &str) -> (r: String)
    ensures
        r@ == local_process_role_spec(cmd@),
{
    if str_contains(cmd, "RolloutManager.generate") {
        string_of("rollout_actor")
    } else if str_contains(cmd, "MegatronTrainRayActor.train") {
        string_of("train_actor")
    } else if str_contains(cmd, "SGLangEngine") {
        string_of("sglang_engine")
    } else if str_contains(cmd, "JobSupervisor") {
        string_of("ray_job_supervisor")
    } else if str_contains(cmd, "Lock") {
        string_of("ray_lock")
    } else if str_contains(cmd, "train_async.py") {
        string_of("driver")
    } else {
        string_of("process")
    }
}

/// The Ray actor name a command line reveals: `ray::` and the first marker found.
pub open spec fn local_actor_name_spec(cmd: Seq<char>) -> Option<Seq<char>> {
    if seq_contains(cmd, "RolloutManager.generate"@) {
        Some("ray::RolloutManager.generate"@)
    } else if seq_contains(cmd, "MegatronTrainRayActor.train"@) {
        Some("ray::MegatronTrainRayActor.train"@)
    } else if seq_contains(cmd, "SGLangEngine"@) {
        Some("ray::SGLangEngine"@)
    } else if seq_contains(cmd, "JobSupervisor"@) {
        Some("ray::JobSupervisor"@)
    } else if seq_contains(cmd, "Lock"@) {
        Some("ray::Lock"@)
    } else {
        None
    }
}

/// The Ray actor name of a local process, from its command line.
pub fn local_actor_name(cmd: &str) -> (r: Option<String>)
    ensures
        r.deep_view() == local_actor_name_spec(cmd@),
{
    if str_contains(cmd, "RolloutManager.generate") {
        Some(string_of("ray::RolloutManager.generate"))
    } else if str_contains(cmd, "MegatronTrainRayActor.train") {
        Some(string_of("ray::MegatronTrainRayActor.train"))
    } else if str_contains(cmd, "SGLangEngine") {
        Some(string_of("ray::SGLangEngine"))
    } else if str_contains(cmd, "JobSupervisor") {
        Some(string_of("ray::JobSupervisor"))
    } else if str_contains(cmd, "Lock") {
        Some(string_of("ray::Lock"))
    } else {
        None
    }
}

/// Ordering rank of a process: the driver first, then driver-like, rollout,
/// other roles, and processes without a role last.
pub open spec fn process_sort_rank_spec(role: Option<Seq<char>>) -> int {
    match role {
        Some(r) => if r == "driver"@ {
            0
        } else if seq_contains(r, "driver"@) {
            1
        } else if seq_contains(r, "rollout"@) {
            2
        } else {
            3
        },
        None => 4,
    }
}

/// Ordering rank of a process by its role.
pub fn process_sort_rank(process: &TraceProcessInfo) -> (r: usize)
    ensures
        r as int == process_sort_rank_spec(process.process_role.deep_view()),
{
    match &process.process_role {
        Some(role) => {
            if str_eq(role.as_str(), "driver") {
                0
            } else if str_contains(role.as_str(), "driver") {
                1
            } else if str_contains(role.as_str(), "rollout") {
                2
            } else {
                3
            }
        },
        None => 4,
    }
}

/// The combined ordering key: rank first, then pid.
pub open spec fn process_order_key(p: TraceProcessInfo) -> int {
    process_sort_rank_spec(p.process_role.deep_view()) * 0x1_0000_0000 + p.pid
}

/// Orders processes by rank, then by pid.
pub fn sort_trace_processes(processes: Vec<TraceProcessInfo>) -> (r: Vec<TraceProcessInfo>)
    ensures
        r@.to_multiset() == processes@.to_multiset(),
        sorted_by(r@, |p: TraceProcessInfo| process_order_key(p)),
{
    let key = |p: &TraceProcessInfo| -> (k: i128)
        ensures
            k == process_order_key(*p),
        { process_sort_rank(p) as i128 * 0x1_0000_0000 + p.pid as i128 };
    sort_by_key(processes, Ghost(|p: TraceProcessInfo| process_order_key(p)), key)
}

/// The entry a local process adds to the process list.
pub open spec fn local_entry_matches(e: TraceProcessInfo, p: Process) -> bool {
    &&& e.pid == p.pid
    &&& e.process_role.deep_view() == Some(local_process_role_spec(p.cmd@))
    &&& e.hostname is None
    &&& e.ray_worker_id is None
    &&& e.ray_actor_id is None
    &&& e.ray_actor_name.deep_view() == local_actor_name_spec(p.cmd@)
}

/// The local processes that are added: positive pids not yet known, each
/// pid once, in order.
pub open spec fn added_locals(known: Set<i32>, locals: Seq<Process>) -> Seq<Process>
    decreases locals.len(),
{
    if locals.len() == 0 {
        Seq::empty()
    } else {
        let p = locals[0];
        if p.pid <= 0 || known.contains(p.pid) {
            added_locals(known, locals.skip(1))
        } else {
            seq![p] + added_locals(known.insert(p.pid), locals.skip(1))
        }
    }
}

/// The pids of a process list.
pub open spec fn pid_set(s: Seq<TraceProcessInfo>) -> Set<i32> {
    Set::new(|pid: i32| exists|i: int| 0 <= i < s.len() && s[i].pid == pid)
}

fn contains_pid(processes: &Vec<TraceProcessInfo>, pid: i32) -> (r: bool)
    ensures
        r == pid_set(processes@).contains(pid),
{
    let mut i: usize = 0;
    while i < processes.len()
        invariant
            i <= processes@.len(),
            forall|k: int| 0 <= k < i ==> processes@[k].pid != pid,
        decreases processes@.len() - i,
    {
        if processes[i].pid == pid {
            return true;
        }
        i += 1;
    }
    false
}

proof fn lemma_added_locals_step(known: Set<i32>, locals: Seq<Process>, i: int)
    requires
        0 <= i < locals.len(),
    ensures
        added_locals(known, locals.skip(i)) == if locals[i].pid <= 0 || known.contains(locals[i].pid) {
            added_locals(known, locals.skip(i + 1))
        } else {
            seq![locals[i]] + added_locals(known.insert(locals[i].pid), locals.skip(i + 1))
        },
{
    assert(locals.skip(i).skip(1) =~= locals.skip(i + 1));
    assert(locals.skip(i)[0] == locals[i]);
}

/// The pid some added local process has.
pub open spec fn added_pid(added: Seq<Process>, pid: i32) -> bool {
    exists|j: int| 0 <= j < added.len() && #[trigger] added[j].pid == pid
}

/// Merging lists each process once: the added local processes have positive
/// pids not yet known and distinct from each other, and every local process
/// with a positive pid is known or added.
pub proof fn lemma_added_locals_once(known: Set<i32>, locals: Seq<Process>)
    ensures
        forall|i: int|
            0 <= i < added_locals(known, locals).len() ==> (#[trigger] added_locals(known, locals)[i]).pid > 0
                && !known.contains(added_locals(known, locals)[i].pid),
        forall|i: int, j: int|
            0 <= i < j < added_locals(known, locals).len() ==> (#[trigger] added_locals(known, locals)[i]).pid
                != (#[trigger] added_locals(known, locals)[j]).pid,
        forall|i: int|
            0 <= i < locals.len() && (#[trigger] locals[i]).pid > 0 ==> known.contains(locals[i].pid) || added_pid(
                added_locals(known, locals),
                locals[i].pid,
            ),
    decreases locals.len(),
{
    if locals.len() > 0 {
        let p = locals[0];
        let rest = locals.skip(1);
        let a = added_locals(known, locals);
        if p.pid <= 0 || known.contains(p.pid) {
            lemma_added_locals_once(known, rest);
            assert(a == added_locals(known, rest));
            assert forall|i: int| 0 <= i < locals.len() && (#[trigger] locals[i]).pid > 0 implies known.contains(
                locals[i].pid,
            ) || added_pid(a, locals[i].pid) by {
                if i > 0 {
                    assert(rest[i - 1] == locals[i]);
                }
            }
        } else {
            let k2 = known.insert(p.pid);
            let t = added_locals(k2, rest);
            lemma_added_locals_once(k2, rest);
            assert(a == seq![p] + t);
            assert forall|i: int| 0 <= i < a.len() implies (#[trigger] a[i]).pid > 0 && !known.contains(a[i].pid) by {
                if i > 0 {
                    assert(a[i] == t[i - 1]);
                }
            }
            assert forall|i: int, j: int| 0 <= i < j < a.len() implies (#[trigger] a[i]).pid != (#[trigger] a[j]).pid by {
                assert(a[j] == t[j - 1]);
                if i > 0 {
                    assert(a[i] == t[i - 1]);
                } else {
                    assert(!k2.contains(t[j - 1].pid));
                }
            }
            assert forall|i: int| 0 <= i < locals.len() && (#[trigger] locals[i]).pid > 0 implies known.contains(
                locals[i].pid,
            ) || added_pid(a, locals[i].pid) by {
                if i == 0 {
                    assert(a[0].pid == p.pid);
                } else {
                    assert(rest[i - 1] == locals[i]);
                    if added_pid(t, locals[i].pid) {
                        let j = choose|j: int| 0 <= j < t.len() && #[trigger] t[j].pid == locals[i].pid;
                        assert(a[j + 1] == t[j]);
                    } else if locals[i].pid == p.pid {
                        assert(a[0].pid == p.pid);
                    }
                }
            }
        }
    }
}

/// Appends the local probing processes not already listed (by pid),
/// deriving their role and actor name from the command line.
pub fn merge_local_processes(processes: &mut Vec<TraceProcessInfo>, local_processes: Vec<Process>)
    ensures
        final(processes)@.len() == old(processes)@.len() + added_locals(
            pid_set(old(processes)@),
            local_processes@,
        ).len(),
        forall|i: int|
            0 <= i < old(processes)@.len() ==> #[trigger] final(processes)@[i] == old(processes)@[i],
        forall|i: int|
            0 <= i < added_locals(pid_set(old(processes)@), local_processes@).len()
                ==> local_entry_matches(
                #[trigger] final(processes)@[old(processes)@.len() + i],
                added_locals(pid_set(old(processes)@), local_processes@)[i],
            ),
{
    let ghost base = processes@;
    let ghost all = added_locals(pid_set(base), local_processes@);
    let mut i: usize = 0;
    assert(local_processes@.skip(0) =~= local_processes@);
    assert(all.subrange(0, all.len() as int) =~= all);
    while i < local_processes.len()
        invariant
            i <= local_processes@.len(),
            base.len() <= processes@.len(),
            forall|k: int| 0 <= k < base.len() ==> #[trigger] processes@[k] == base[k],
            all == added_locals(pid_set(base), local_processes@),
            ({
                let done = (processes@.len() - base.len()) as int;
                &&& 0 <= done <= all.len()
                &&& all.subrange(done, all.len() as int) == added_locals(
                    pid_set(processes@),
                    local_processes@.skip(i as int),
                )
                &&& forall|k: int|
                    0 <= k < done ==> local_entry_matches(
                        #[trigger] processes@[base.len() + k],
                        all[k],
                    )
            }),
        decreases local_processes@.len() - i,
    {
        let process = &local_processes[i];
        proof {
            lemma_added_locals_step(pid_set(processes@), local_processes@, i as int);
        }
        let ghost done = (processes@.len() - base.len()) as int;
        if process.pid > 0 && !contains_pid(processes, process.pid) {
            let role = local_process_role(process.cmd.as_str());
            let actor = local_actor_name(process.cmd.as_str());
            let ghost before = processes@;
            processes.push(
                TraceProcessInfo {
                    pid: process.pid,
                    process_role: Some(role),
                    hostname: None,
                    ray_worker_id: None,
                    ray_actor_id: None,
                    ray_actor_name: actor,
                },
            );
            proof {
                assert(pid_set(processes@) =~= pid_set(before).insert(process.pid)) by {
                    assert forall|pid: i32| pid_set(processes@).contains(pid) implies pid_set(
                        before,
                    ).insert(process.pid).contains(pid) by {
                        let k = choose|k: int| 0 <= k < processes@.len() && processes@[k].pid == pid;
                        if k < before.len() {
                            assert(processes@[k] == before[k]);
                        }
                    }
                    assert forall|pid: i32| pid_set(before).insert(process.pid).contains(
                        pid,
                    ) implies pid_set(processes@).contains(pid) by {
                        if pid != process.pid {
                            let k = choose|k: int| 0 <= k < before.len() && before[k].pid == pid;
                            assert(processes@[k] == before[k]);
                        } else {
                            assert(processes@[before.len() as int].pid == pid);
                        }
                    }
                }
                assert(all.subrange(done, all.len() as int)[0] == local_processes@[i as int]);
                assert(all.subrange(done + 1, all.len() as int) =~= all.subrange(
                    done,
                    all.len() as int,
                ).skip(1));
            }
        }
        i += 1;
    }
    proof {
        let done = (processes@.len() - base.len()) as int;
        assert(local_processes@.skip(i as int).len() == 0);
        assert(all.subrange(done, all.len() as int).len() == 0);
    }
}

/// The label of the process a span or event came from: its `process_role`
/// (else `process`), a colon, and its `pid` attribute, or the trace id when
/// the pid is missing or empty.
pub open spec fn process_label_spec(attributes: Option<Seq<char>>, fallback_trace_id: i64) -> Seq<char> {
    let role = match attr_spec(attributes, "process_role"@) {
        Some(r) => r,
        None => "process"@,
    };
    match attr_spec(attributes, "pid"@) {
        Some(p) => if p.len() > 0 {
            role + ":"@ + p
        } else {
            role + ":"@ + int_text(fallback_trace_id as int)
        },
        None => role + ":"@ + int_text(fallback_trace_id as int),
    }
}

/// The label of the process a span or event came from.
pub fn process_label(attributes: &Option<String>, fallback_trace_id: i64) -> (r: String)
    ensures
        r@ == process_label_spec(attributes.deep_view(), fallback_trace_id),
{
    let mut out = match attr_string(attributes, "process_role") {
        Some(role) => role,
        None => string_of("process"),
    };
    push_char(&mut out, ':');
    match attr_string(attributes, "pid") {
        Some(pid) => {
            proof {
                reveal_strlit("");
                assert(pid@.len() == 0 ==> pid@ =~= ""@);
            }
            if !str_eq(pid.as_str(), "") {
                push_str(&mut out, pid.as_str());
            } else {
                push_int(&mut out, fallback_trace_id);
            }
        },
        None => push_int(&mut out, fallback_trace_id),
    }
    proof {
        reveal_strlit("process");
        reveal_strlit(":");
        reveal_strlit("");
    }
    assert(out@ =~= process_label_spec(attributes.deep_view(), fallback_trace_id));
    out
}

} // verus!
