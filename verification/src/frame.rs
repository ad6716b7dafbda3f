//! Query results as the trace views read them, and their conversion into
//! trace events, span ids and process lists.

use vstd::prelude::*;
use crate::model::{TraceEvent, TraceProcessInfo};
use crate::order::sorted_by;
use crate::trace_api::{process_order_key, sort_trace_processes};
use crate::text::{copy_opt_string, int_text, int_to_string, parse_i32, parse_i32_spec, parse_i64,
    parse_i64_spec, str_eq, string_of};

verus! {

/// What the logic reads of a floating-point cell: the value converted to an
/// integer with `as i64`, and its decimal text as `to_string` renders it.
#[derive(Debug, Clone, PartialEq)]
pub struct FloatCell {
    pub truncated: i64,
    pub text: String,
}

/// One cell of a query result.
#[derive(Debug, Clone, PartialEq)]
pub enum Ele {
    Nil,
    I32(i32),
    I64(i64),
    F32(FloatCell),
    F64(FloatCell),
    Text(String),
    Url(String),
    DataTime(u64),
}

/// A query result: column names and one cell vector per column.
#[derive(Debug, Clone, PartialEq)]
pub struct DataFrame {
    pub names: Vec<String>,
    pub cols: Vec<Vec<Ele>>,
}

/// The cell at `(col, row)`, if both are in range.
pub open spec fn cell(df: DataFrame, col: int, row: int) -> Option<Ele> {
    if 0 <= col < df.cols@.len() && 0 <= row < df.cols@[col]@.len() {
        Some(df.cols@[col]@[row])
    } else {
        None
    }
}

/// The number of rows: the length of the longest column.
pub open spec fn row_count(cols: Seq<Vec<Ele>>) -> nat
    decreases cols.len(),
{
    if cols.len() == 0 {
        0
    } else {
        let rest = row_count(cols.drop_last());
        if cols.last()@.len() > rest {
            cols.last()@.len()
        } else {
            rest
        }
    }
}

/// The first position of `name` among `names`.
pub open spec fn is_first_index(names: Seq<String>, name: Seq<char>, i: int) -> bool {
    &&& 0 <= i < names.len()
    &&& names[i]@ == name
    &&& forall|k: int| 0 <= k < i ==> names[k]@ != name
}

/// The position of `name` among `names`, or `default`.
pub open spec fn index_or(names: Seq<String>, name: Seq<char>, default: int) -> int {
    if exists|i: int| is_first_index(names, name, i) {
        choose|i: int| is_first_index(names, name, i)
    } else {
        default
    }
}

proof fn lemma_first_index_unique(names: Seq<String>, name: Seq<char>, i: int, j: int)
    requires
        is_first_index(names, name, i),
        is_first_index(names, name, j),
    ensures
        i == j,
{
}

/// The position of the column called `name`.
pub fn col_idx(df: &DataFrame, name: &str) -> (r: Option<usize>)
    ensures
        r matches Some(i) ==> is_first_index(df.names@, name@, i as int),
        r is None ==> forall|k: int| 0 <= k < df.names@.len() ==> df.names@[k]@ != name@,
{
    let mut i: usize = 0;
    while i < df.names.len()
        invariant
            i <= df.names@.len(),
            forall|k: int| 0 <= k < i ==> df.names@[k]@ != name@,
        decreases df.names@.len() - i,
    {
        if str_eq(df.names[i].as_str(), name) {
            return Some(i);
        }
        i += 1;
    }
    None
}

fn col_idx_or(df: &DataFrame, name: &str, default: usize) -> (r: usize)
    ensures
        r as int == index_or(df.names@, name@, default as int),
{
    match col_idx(df, name) {
        Some(i) => {
            proof {
                let c = choose|k: int| is_first_index(df.names@, name@, k);
                lemma_first_index_unique(df.names@, name@, i as int, c);
            }
            i
        },
        None => default,
    }
}

pub(crate) fn num_rows(df: &DataFrame) -> (n: usize)
    ensures
        n as int == row_count(df.cols@),
{
    let mut i: usize = 0;
    let mut n: usize = 0;
    while i < df.cols.len()
        invariant
            i <= df.cols@.len(),
            n as int == row_count(df.cols@.subrange(0, i as int)),
        decreases df.cols@.len() - i,
    {
        let ghost next = df.cols@.subrange(0, i + 1);
        assert(next.drop_last() =~= df.cols@.subrange(0, i as int));
        if df.cols[i].len() > n {
            n = df.cols[i].len();
        }
        i += 1;
    }
    assert(df.cols@.subrange(0, df.cols@.len() as int) =~= df.cols@);
    n
}

pub(crate) fn get_cell(df: &DataFrame, col: usize, row: usize) -> (r: Option<&Ele>)
    ensures
        match r {
            Some(e) => cell(*df, col as int, row as int) == Some(*e),
            None => cell(*df, col as int, row as int) is None,
        },
{
    if col < df.cols.len() && row < df.cols[col].len() {
        Some(&df.cols[col][row])
    } else {
        None
    }
}

/// A cell read as text: text as is, integers and floats rendered, else empty.
pub open spec fn cell_text(c: Option<Ele>) -> Seq<char> {
    match c {
        Some(Ele::Text(s)) => s@,
        Some(Ele::I32(x)) => int_text(x as int),
        Some(Ele::I64(x)) => int_text(x as int),
        Some(Ele::F32(f)) => f.text@,
        Some(Ele::F64(f)) => f.text@,
        _ => Seq::empty(),
    }
}

/// A cell read as an integer: integers as is, floats truncated, text parsed
/// (0 when it does not parse), else 0.
pub open spec fn cell_i64(c: Option<Ele>) -> i64 {
    match c {
        Some(Ele::I32(x)) => x as i64,
        Some(Ele::I64(x)) => x,
        Some(Ele::F32(f)) => f.truncated,
        Some(Ele::F64(f)) => f.truncated,
        Some(Ele::Text(s)) => match parse_i64_spec(s@) {
            Some(v) => v,
            None => 0,
        },
        _ => 0,
    }
}

/// A cell read as optional text: non-empty text only.
pub open spec fn cell_opt_text(c: Option<Ele>) -> Option<Seq<char>> {
    match c {
        Some(Ele::Text(s)) => if s@.len() > 0 {
            Some(s@)
        } else {
            None
        },
        _ => None,
    }
}

/// A cell read as an optional integer: `-1` stands for none.
pub open spec fn cell_opt_i64(c: Option<Ele>) -> Option<i64> {
    if cell_i64(c) == -1 {
        None
    } else {
        Some(cell_i64(c))
    }
}

/// The cell a borrowed lookup refers to.
pub open spec fn owned_cell(c: Option<&Ele>) -> Option<Ele> {
    match c {
        Some(e) => Some(*e),
        None => None,
    }
}

fn read_text(c: Option<&Ele>) -> (r: String)
    ensures
        r@ == cell_text(owned_cell(c)),
{
    match c {
        Some(Ele::Text(s)) => s.clone(),
        Some(Ele::I32(x)) => int_to_string(*x as i64),
        Some(Ele::I64(x)) => int_to_string(*x),
        Some(Ele::F32(f)) => f.text.clone(),
        Some(Ele::F64(f)) => f.text.clone(),
        _ => String::new(),
    }
}

fn read_i64(c: Option<&Ele>) -> (r: i64)
    ensures
        r == cell_i64(owned_cell(c)),
{
    match c {
        Some(Ele::I32(x)) => *x as i64,
        Some(Ele::I64(x)) => *x,
        Some(Ele::F32(f)) => f.truncated,
        Some(Ele::F64(f)) => f.truncated,
        Some(Ele::Text(s)) => match parse_i64(s.as_str()) {
            Some(v) => v,
            None => 0,
        },
        _ => 0,
    }
}

fn read_opt_text(c: Option<&Ele>) -> (r: Option<String>)
    ensures
        r.deep_view() == cell_opt_text(owned_cell(c)),
{
    match c {
        Some(Ele::Text(s)) => if s.unicode_len() > 0 {
            Some(s.clone())
        } else {
            None
        },
        _ => None,
    }
}

fn read_opt_i64(c: Option<&Ele>) -> (r: Option<i64>)
    ensures
        r == cell_opt_i64(owned_cell(c)),
{
    let v = read_i64(c);
    if v == -1 {
        None
    } else {
        Some(v)
    }
}

/// Column positions of the trace event fields, by name or else by default position.
pub struct EventColumns {
    pub record_type: usize,
    pub trace_id: usize,
    pub span_id: usize,
    pub parent_id: usize,
    pub name: usize,
    pub timestamp: usize,
    pub thread_id: usize,
    pub kind: usize,
    pub location: usize,
    pub attributes: usize,
    pub event_attributes: usize,
}

pub open spec fn event_columns_spec(names: Seq<String>) -> EventColumns {
    EventColumns {
        record_type: index_or(names, "record_type"@, 0) as usize,
        trace_id: index_or(names, "trace_id"@, 1) as usize,
        span_id: index_or(names, "span_id"@, 2) as usize,
        parent_id: index_or(names, "parent_id"@, 3) as usize,
        name: index_or(names, "name"@, 4) as usize,
        timestamp: index_or(names, "timestamp"@, 5) as usize,
        thread_id: index_or(names, "thread_id"@, 6) as usize,
        kind: index_or(names, "kind"@, 7) as usize,
        location: index_or(names, "location"@, 8) as usize,
        attributes: index_or(names, "attributes"@, 9) as usize,
        event_attributes: index_or(names, "event_attributes"@, 10) as usize,
    }
}

/// The trace event row `row` holds.
pub open spec fn event_from_row(e: TraceEvent, df: DataFrame, c: EventColumns, row: int) -> bool {
    &&& e.record_type@ == cell_text(cell(df, c.record_type as int, row))
    &&& e.trace_id == cell_i64(cell(df, c.trace_id as int, row))
    &&& e.span_id == cell_i64(cell(df, c.span_id as int, row))
    &&& e.parent_id == cell_opt_i64(cell(df, c.parent_id as int, row))
    &&& e.name@ == cell_text(cell(df, c.name as int, row))
    &&& e.timestamp == cell_i64(cell(df, c.timestamp as int, row))
    &&& e.thread_id == cell_i64(cell(df, c.thread_id as int, row))
    &&& e.kind.deep_view() == cell_opt_text(cell(df, c.kind as int, row))
    &&& e.location.deep_view() == cell_opt_text(cell(df, c.location as int, row))
    &&& e.attributes.deep_view() == cell_opt_text(cell(df, c.attributes as int, row))
    &&& e.event_attributes.deep_view() == cell_opt_text(cell(df, c.event_attributes as int, row))
}

/// Reads one trace event per row (none when the frame has no names or no columns).
pub fn trace_events_from_df(df: &DataFrame) -> (events: Vec<TraceEvent>)
    ensures
        df.names@.len() == 0 || df.cols@.len() == 0 ==> events@.len() == 0,
        df.names@.len() > 0 && df.cols@.len() > 0 ==> events@.len() == row_count(df.cols@),
        forall|r: int|
            0 <= r < events@.len() ==> event_from_row(
                #[trigger] events@[r],
                *df,
                event_columns_spec(df.names@),
                r,
            ),
{
    let mut events: Vec<TraceEvent> = Vec::new();
    if df.names.len() == 0 || df.cols.len() == 0 {
        return events;
    }
    let c = EventColumns {
        record_type: col_idx_or(df, "record_type", 0),
        trace_id: col_idx_or(df, "trace_id", 1),
        span_id: col_idx_or(df, "span_id", 2),
        parent_id: col_idx_or(df, "parent_id", 3),
        name: col_idx_or(df, "name", 4),
        timestamp: col_idx_or(df, "timestamp", 5),
        thread_id: col_idx_or(df, "thread_id", 6),
        kind: col_idx_or(df, "kind", 7),
        location: col_idx_or(df, "location", 8),
        attributes: col_idx_or(df, "attributes", 9),
        event_attributes: col_idx_or(df, "event_attributes", 10),
    };
    assert(c == event_columns_spec(df.names@));
    let nrows = num_rows(df);
    let mut row: usize = 0;
    while row < nrows
        invariant
            row <= nrows,
            nrows == row_count(df.cols@),
            c == event_columns_spec(df.names@),
            events@.len() == row,
            forall|r: int| 0 <= r < row ==> event_from_row(#[trigger] events@[r], *df, c, r),
        decreases nrows - row,
    {
        let e = TraceEvent {
            record_type: read_text(get_cell(df, c.record_type, row)),
            trace_id: read_i64(get_cell(df, c.trace_id, row)),
            span_id: read_i64(get_cell(df, c.span_id, row)),
            parent_id: read_opt_i64(get_cell(df, c.parent_id, row)),
            name: read_text(get_cell(df, c.name, row)),
            timestamp: read_i64(get_cell(df, c.timestamp, row)),
            thread_id: read_i64(get_cell(df, c.thread_id, row)),
            kind: read_opt_text(get_cell(df, c.kind, row)),
            location: read_opt_text(get_cell(df, c.location, row)),
            attributes: read_opt_text(get_cell(df, c.attributes, row)),
            event_attributes: read_opt_text(get_cell(df, c.event_attributes, row)),
        };
        events.push(e);
        row += 1;
    }
    events
}

/// A cell read as a span id, if it holds one.
pub open spec fn cell_span_id(c: Option<Ele>) -> Option<i64> {
    match c {
        Some(Ele::I64(v)) => Some(v),
        Some(Ele::I32(v)) => Some(v as i64),
        Some(Ele::F32(f)) => Some(f.truncated),
        Some(Ele::F64(f)) => Some(f.truncated),
        Some(Ele::Text(s)) => parse_i64_spec(s@),
        Some(Ele::Url(s)) => parse_i64_spec(s@),
        Some(Ele::DataTime(v)) => if v <= i64::MAX {
            Some(v as i64)
        } else {
            None
        },
        _ => None,
    }
}

/// The span ids in rows `0..n` of column `col`, skipping unreadable cells.
pub open spec fn span_ids_upto(df: DataFrame, col: int, n: int) -> Seq<i64>
    decreases n,
{
    if n <= 0 {
        Seq::empty()
    } else {
        let rest = span_ids_upto(df, col, n - 1);
        match cell_span_id(cell(df, col, n - 1)) {
            Some(v) => rest.push(v),
            None => rest,
        }
    }
}

/// Reads the `span_id` column (or else the first column) as span ids.
pub fn span_ids_from_df(df: &DataFrame) -> (ids: Vec<i64>)
    ensures
        df.names@.len() == 0 || df.cols@.len() == 0 ==> ids@.len() == 0,
        df.names@.len() > 0 && df.cols@.len() > 0 ==> ids@ == span_ids_upto(
            *df,
            index_or(df.names@, "span_id"@, 0),
            row_count(df.cols@) as int,
        ),
{
    let mut ids: Vec<i64> = Vec::new();
    if df.names.len() == 0 || df.cols.len() == 0 {
        return ids;
    }
    let col = col_idx_or(df, "span_id", 0);
    let nrows = num_rows(df);
    let mut row: usize = 0;
    while row < nrows
        invariant
            row <= nrows,
            ids@ == span_ids_upto(*df, col as int, row as int),
        decreases nrows - row,
    {
        let v: Option<i64> = match get_cell(df, col, row) {
            Some(Ele::I64(v)) => Some(*v),
            Some(Ele::I32(v)) => Some(*v as i64),
            Some(Ele::F32(f)) => Some(f.truncated),
            Some(Ele::F64(f)) => Some(f.truncated),
            Some(Ele::Text(s)) => parse_i64(s.as_str()),
            Some(Ele::Url(s)) => parse_i64(s.as_str()),
            Some(Ele::DataTime(v)) => if *v <= i64::MAX as u64 {
                Some(*v as i64)
            } else {
                None
            },
            _ => None,
        };
        if let Some(x) = v {
            ids.push(x);
        }
        row += 1;
    }
    ids
}

/// The fields of a process entry, as text.
pub struct ProcessView {
    pub pid: i32,
    pub process_role: Option<Seq<char>>,
    pub hostname: Option<Seq<char>>,
    pub ray_worker_id: Option<Seq<char>>,
    pub ray_actor_id: Option<Seq<char>>,
    pub ray_actor_name: Option<Seq<char>>,
}

pub open spec fn process_view(p: TraceProcessInfo) -> ProcessView {
    ProcessView {
        pid: p.pid,
        process_role: p.process_role.deep_view(),
        hostname: p.hostname.deep_view(),
        ray_worker_id: p.ray_worker_id.deep_view(),
        ray_actor_id: p.ray_actor_id.deep_view(),
        ray_actor_name: p.ray_actor_name.deep_view(),
    }
}

/// Empty text stands for none.
pub open spec fn nonempty(s: Seq<char>) -> Option<Seq<char>> {
    if s.len() == 0 {
        None
    } else {
        Some(s)
    }
}

/// Column positions of the process fields, by name or else by default position.
pub struct ProcessColumns {
    pub pid: usize,
    pub hostname: usize,
    pub ray_worker_id: usize,
    pub ray_actor_id: usize,
    pub ray_actor_name: usize,
    pub process_role: usize,
}

pub open spec fn process_columns_spec(names: Seq<String>) -> ProcessColumns {
    ProcessColumns {
        pid: index_or(names, "pid"@, 0) as usize,
        hostname: index_or(names, "hostname"@, 1) as usize,
        ray_worker_id: index_or(names, "ray_worker_id"@, 2) as usize,
        ray_actor_id: index_or(names, "ray_actor_id"@, 3) as usize,
        ray_actor_name: index_or(names, "ray_actor_name"@, 4) as usize,
        process_role: index_or(names, "process_role"@, 5) as usize,
    }
}

/// The pid row `row` names (0 when its text does not parse as an `i32`).
pub open spec fn row_pid(df: DataFrame, c: ProcessColumns, row: int) -> i32 {
    match parse_i32_spec(cell_text(cell(df, c.pid as int, row))) {
        Some(v) => v,
        None => 0,
    }
}

pub open spec fn row_process(df: DataFrame, c: ProcessColumns, row: int) -> ProcessView {
    ProcessView {
        pid: row_pid(df, c, row),
        process_role: nonempty(cell_text(cell(df, c.process_role as int, row))),
        hostname: nonempty(cell_text(cell(df, c.hostname as int, row))),
        ray_worker_id: nonempty(cell_text(cell(df, c.ray_worker_id as int, row))),
        ray_actor_id: nonempty(cell_text(cell(df, c.ray_actor_id as int, row))),
        ray_actor_name: nonempty(cell_text(cell(df, c.ray_actor_name as int, row))),
    }
}

/// Whether a list of process views holds `pid`.
pub open spec fn lists_pid(s: Seq<ProcessView>, pid: i32) -> bool {
    exists|i: int| 0 <= i < s.len() && s[i].pid == pid
}

/// The processes of rows `0..n`: positive pids only, the first row of each pid.
pub open spec fn process_rows(df: DataFrame, c: ProcessColumns, n: int) -> Seq<ProcessView>
    decreases n,
{
    if n <= 0 {
        Seq::empty()
    } else {
        let rest = process_rows(df, c, n - 1);
        let p = row_process(df, c, n - 1);
        if p.pid <= 0 || lists_pid(rest, p.pid) {
            rest
        } else {
            rest.push(p)
        }
    }
}

fn read_nonempty(c: Option<&Ele>) -> (r: Option<String>)
    ensures
        r.deep_view() == nonempty(cell_text(owned_cell(c))),
{
    let t = read_text(c);
    if t.unicode_len() == 0 {
        None
    } else {
        Some(t)
    }
}

/// Reads the process list: one entry per positive pid (its first row),
/// ordered by role rank and pid.
pub fn trace_processes_from_df(df: &DataFrame) -> (r: Vec<TraceProcessInfo>)
    ensures
        df.names@.len() == 0 || df.cols@.len() == 0 ==> r@.len() == 0,
        df.names@.len() > 0 && df.cols@.len() > 0 ==> exists|u: Seq<TraceProcessInfo>|
            {
                &&& #[trigger] u.to_multiset() == r@.to_multiset()
                &&& u.len() == process_rows(
                    *df,
                    process_columns_spec(df.names@),
                    row_count(df.cols@) as int,
                ).len()
                &&& forall|i: int|
                    0 <= i < u.len() ==> process_view(#[trigger] u[i]) == process_rows(
                        *df,
                        process_columns_spec(df.names@),
                        row_count(df.cols@) as int,
                    )[i]
            },
        sorted_by(r@, |p: TraceProcessInfo| process_order_key(p)),
{
    if df.names.len() == 0 || df.cols.len() == 0 {
        return Vec::new();
    }
    let c = ProcessColumns {
        pid: col_idx_or(df, "pid", 0),
        hostname: col_idx_or(df, "hostname", 1),
        ray_worker_id: col_idx_or(df, "ray_worker_id", 2),
        ray_actor_id: col_idx_or(df, "ray_actor_id", 3),
        ray_actor_name: col_idx_or(df, "ray_actor_name", 4),
        process_role: col_idx_or(df, "process_role", 5),
    };
    assert(c == process_columns_spec(df.names@));
    let nrows = num_rows(df);
    let mut u: Vec<TraceProcessInfo> = Vec::new();
    let mut row: usize = 0;
    while row < nrows
        invariant
            row <= nrows,
            u@.len() == process_rows(*df, c, row as int).len(),
            forall|i: int|
                0 <= i < u@.len() ==> process_view(#[trigger] u@[i]) == process_rows(
                    *df,
                    c,
                    row as int,
                )[i],
        decreases nrows - row,
    {
        let ghost before = process_rows(*df, c, row as int);
        let text = read_text(get_cell(df, c.pid, row));
        let pid = match parse_i32(text.as_str()) {
            Some(v) => v,
            None => 0,
        };
        let mut seen = false;
        let mut k: usize = 0;
        while k < u.len()
            invariant
                k <= u@.len(),
                u@.len() == before.len(),
                forall|i: int| 0 <= i < u@.len() ==> process_view(#[trigger] u@[i]) == before[i],
                seen == exists|i: int| 0 <= i < k && before[i].pid == pid,
            decreases u@.len() - k,
        {
            if u[k].pid == pid {
                assert(process_view(u@[k as int]).pid == pid);
                seen = true;
            }
            k += 1;
        }
        if pid > 0 && !seen {
            let p = TraceProcessInfo {
                pid,
                process_role: read_nonempty(get_cell(df, c.process_role, row)),
                hostname: read_nonempty(get_cell(df, c.hostname, row)),
                ray_worker_id: read_nonempty(get_cell(df, c.ray_worker_id, row)),
                ray_actor_id: read_nonempty(get_cell(df, c.ray_actor_id, row)),
                ray_actor_name: read_nonempty(get_cell(df, c.ray_actor_name, row)),
            };
            u.push(p);
        }
        row += 1;
        assert(process_rows(*df, c, row as int) == (if row_pid(*df, c, row - 1) <= 0 || lists_pid(
            before,
            row_pid(*df, c, row - 1),
        ) {
            before
        } else {
            before.push(row_process(*df, c, row - 1))
        }));
    }
    let ghost unsorted = u@;
    let r = sort_trace_processes(u);
    assert(unsorted.to_multiset() == r@.to_multiset());
    r
}

} // verus!
