//! The inference engine view: the metric queries, how metric cells are read,
//! which rows feed the charts, and the colours and series of the charts.

use vstd::prelude::*;
use crate::frame::{DataFrame, Ele, cell, get_cell, index_or, num_rows, row_count, col_idx};
use crate::text::{int_text, int_to_string, parse_i64, parse_i64_spec, push_int, seq_starts_with, str_eq,
    str_starts_with, string_of};
use crate::order::{SortKey, TextPair, distinct_sorted_texts, key_le, lemma_stable_sort_by_key_map, sort_by_sort_key,
    sorted_distinct_texts, stable_sort_by_key, string_key, text_key, text_le};
use crate::client::views;

verus! {

/// The normalized metric samples, newest first; the limit follows.
pub const NORMALIZED_METRICS_SELECT: &'static str = "SELECT timestamp_ns, engine_id, engine_type, metric_name, metric_value, labels FROM python.inference_engine_metric WHERE metric_name LIKE 'normalized.%' ORDER BY timestamp_ns DESC LIMIT ";

/// The raw (not normalized) metric samples, newest first; the limit follows.
pub const RAW_METRICS_SELECT: &'static str = "SELECT timestamp_ns, engine_id, engine_type, metric_name, metric_value, labels FROM python.inference_engine_metric WHERE metric_name NOT LIKE 'normalized.%' ORDER BY timestamp_ns DESC LIMIT ";

/// The colour of a series without one of its own.
pub const DEFAULT_SERIES_COLOR: &'static str = "#64748b";

/// The query for the latest `limit` normalized metric samples.
pub fn normalized_metrics_query(limit: i64) -> (r: String)
    ensures
        r@ == NORMALIZED_METRICS_SELECT@ + int_text(limit as int),
{
    let mut q = string_of(NORMALIZED_METRICS_SELECT);
    push_int(&mut q, limit);
    q
}

/// The query for the latest `limit` raw metric samples.
pub fn raw_metrics_query(limit: i64) -> (r: String)
    ensures
        r@ == RAW_METRICS_SELECT@ + int_text(limit as int),
{
    let mut q = string_of(RAW_METRICS_SELECT);
    push_int(&mut q, limit);
    q
}

/// A cell read as an integer: integers as they are, floats truncated, text
/// and URLs parsed, times that fit; nothing otherwise.
pub open spec fn ele_i64_spec(c: Option<Ele>) -> Option<i64> {
    match c {
        Some(Ele::I64(v)) => Some(v),
        Some(Ele::I32(v)) => Some(v as i64),
        Some(Ele::F64(f)) => Some(f.truncated),
        Some(Ele::F32(f)) => Some(f.truncated),
        Some(Ele::Text(s)) => parse_i64_spec(s@),
        Some(Ele::Url(s)) => parse_i64_spec(s@),
        Some(Ele::DataTime(v)) => if v <= i64::MAX as u64 {
            Some(v as i64)
        } else {
            None
        },
        _ => None,
    }
}

/// A cell read as text: text and URLs as they are, numbers rendered;
/// nothing otherwise.
pub open spec fn ele_str_spec(c: Option<Ele>) -> Option<Seq<char>> {
    match c {
        Some(Ele::Text(s)) => Some(s@),
        Some(Ele::Url(s)) => Some(s@),
        Some(Ele::I64(v)) => Some(int_text(v as int)),
        Some(Ele::I32(v)) => Some(int_text(v as int)),
        Some(Ele::F32(f)) => Some(f.text@),
        Some(Ele::F64(f)) => Some(f.text@),
        _ => None,
    }
}

pub open spec fn ele_opt(e: Option<&Ele>) -> Option<Ele> {
    match e {
        Some(x) => Some(*x),
        None => None,
    }
}

/// A cell read as an integer.
pub fn ele_i64(ele: Option<&Ele>) -> (r: Option<i64>)
    ensures
        r == ele_i64_spec(ele_opt(ele)),
{
    match ele {
        Some(Ele::I64(v)) => Some(*v),
        Some(Ele::I32(v)) => Some(*v as i64),
        Some(Ele::F64(f)) => Some(f.truncated),
        Some(Ele::F32(f)) => Some(f.truncated),
        Some(Ele::Text(s)) => parse_i64(s.as_str()),
        Some(Ele::Url(s)) => parse_i64(s.as_str()),
        Some(Ele::DataTime(v)) => if *v <= i64::MAX as u64 {
            Some(*v as i64)
        } else {
            None
        },
        _ => None,
    }
}

/// A cell read as text.
pub fn ele_str(ele: Option<&Ele>) -> (r: Option<String>)
    ensures
        r.deep_view() == ele_str_spec(ele_opt(ele)),
{
    match ele {
        Some(Ele::Text(s)) => Some(s.clone()),
        Some(Ele::Url(s)) => Some(s.clone()),
        Some(Ele::I64(v)) => Some(int_to_string(*v)),
        Some(Ele::I32(v)) => Some(int_to_string(*v as i64)),
        Some(Ele::F32(f)) => Some(f.text.clone()),
        Some(Ele::F64(f)) => Some(f.text.clone()),
        _ => None,
    }
}

/// A metric name the charts show: a normalized metric.
pub fn is_normalized_metric(name: &str) -> (r: bool)
    ensures
        r == seq_starts_with(name@, "normalized."@),
{
    str_starts_with(name, "normalized.")
}

/// A row of a metric sample that the charts may show: its time, engine and
/// metric. Its value is read from the `metric_value` column of the row.
pub struct MetricRow {
    pub row: usize,
    pub timestamp_ns: i64,
    pub engine_id: String,
    pub metric_name: String,
}

pub struct MetricRowView {
    pub row: int,
    pub timestamp_ns: i64,
    pub engine_id: Seq<char>,
    pub metric_name: Seq<char>,
}

pub open spec fn metric_row_view(m: MetricRow) -> MetricRowView {
    MetricRowView { row: m.row as int, timestamp_ns: m.timestamp_ns, engine_id: m.engine_id@, metric_name: m.metric_name@ }
}

pub open spec fn metric_row_views(v: Seq<MetricRow>) -> Seq<MetricRowView> {
    v.map_values(|m: MetricRow| metric_row_view(m))
}

/// Row `row` as a chart sample: its time, engine and metric read, the metric
/// a normalized one.
pub open spec fn metric_row_at(df: DataFrame, ts: int, engine: int, name: int, row: int) -> Option<MetricRowView> {
    match (ele_i64_spec(cell(df, ts, row)), ele_str_spec(cell(df, engine, row)), ele_str_spec(cell(df, name, row))) {
        (Some(t), Some(e), Some(n)) => if seq_starts_with(n, "normalized."@) {
            Some(MetricRowView { row, timestamp_ns: t, engine_id: e, metric_name: n })
        } else {
            None
        },
        _ => None,
    }
}

/// The chart samples among the first `n` rows, in row order.
pub open spec fn metric_rows_upto(df: DataFrame, ts: int, engine: int, name: int, n: int) -> Seq<MetricRowView>
    decreases n,
{
    if n <= 0 {
        Seq::empty()
    } else {
        metric_rows_upto(df, ts, engine, name, n - 1) + match metric_row_at(df, ts, engine, name, n - 1) {
            Some(m) => seq![m],
            None => Seq::empty(),
        }
    }
}

/// The chart samples of a metric result: none when one of the time, engine,
/// name and value columns is missing.
pub open spec fn metric_rows_spec(df: DataFrame) -> Seq<MetricRowView> {
    let ts = index_or(df.names@, "timestamp_ns"@, -1);
    let engine = index_or(df.names@, "engine_id"@, -1);
    let name = index_or(df.names@, "metric_name"@, -1);
    let value = index_or(df.names@, "metric_value"@, -1);
    if ts < 0 || engine < 0 || name < 0 || value < 0 {
        Seq::empty()
    } else {
        metric_rows_upto(df, ts, engine, name, row_count(df.cols@) as int)
    }
}

fn find_col(df: &DataFrame, name: &str) -> (r: Option<usize>)
    ensures
        match r {
            Some(i) => i as int == index_or(df.names@, name@, -1) && i < df.names@.len(),
            None => index_or(df.names@, name@, -1) == -1,
        },
{
    let r = col_idx(df, name);
    proof {
        if let Some(i) = r {
            let c = choose|k: int| crate::frame::is_first_index(df.names@, name@, k);
            if c < i {
                assert(df.names@[c]@ != name@);
            }
            if c > i {
                assert(df.names@[i as int]@ != name@);
            }
        } else {
            if exists|k: int| crate::frame::is_first_index(df.names@, name@, k) {
                let c = choose|k: int| crate::frame::is_first_index(df.names@, name@, k);
                assert(df.names@[c]@ == name@);
            }
        }
    }
    r
}

/// The rows of a metric result that the charts may show, in row order.
pub fn metric_rows(df: &DataFrame) -> (r: Vec<MetricRow>)
    ensures
        metric_row_views(r@) == metric_rows_spec(*df),
{
    let mut out: Vec<MetricRow> = Vec::new();
    let ts = match find_col(df, "timestamp_ns") {
        Some(i) => i,
        None => return out,
    };
    let engine = match find_col(df, "engine_id") {
        Some(i) => i,
        None => return out,
    };
    let name = match find_col(df, "metric_name") {
        Some(i) => i,
        None => return out,
    };
    match find_col(df, "metric_value") {
        Some(_) => {},
        None => return out,
    }
    let n = num_rows(df);
    let mut row: usize = 0;
    while row < n
        invariant
            row <= n,
            n as int == row_count(df.cols@),
            metric_row_views(out@) == metric_rows_upto(*df, ts as int, engine as int, name as int, row as int),
        decreases n - row,
    {
        let t = ele_i64(get_cell(df, ts, row));
        let e = ele_str(get_cell(df, engine, row));
        let m = ele_str(get_cell(df, name, row));
        let ghost o0 = out@;
        match (t, e, m) {
            (Some(t), Some(e), Some(m)) => {
                if is_normalized_metric(m.as_str()) {
                    out.push(MetricRow { row, timestamp_ns: t, engine_id: e, metric_name: m });
                    assert(metric_row_views(out@) =~= metric_row_views(o0).push(metric_row_views(out@).last()));
                }
            },
            _ => {},
        }
        assert(metric_row_views(out@) =~= metric_rows_upto(*df, ts as int, engine as int, name as int, row + 1));
        row += 1;
    }
    out
}

/// The colour of the `i`th engine (by id) in every chart.
pub open spec fn series_color_spec(i: nat) -> Seq<char> {
    let k = i % 6;
    if k == 0 {
        "#2563eb"@
    } else if k == 1 {
        "#dc2626"@
    } else if k == 2 {
        "#16a34a"@
    } else if k == 3 {
        "#9333ea"@
    } else if k == 4 {
        "#ea580c"@
    } else {
        "#0891b2"@
    }
}

/// The colour of the `i`th engine.
pub fn series_color(i: usize) -> (r: &'static str)
    ensures
        r@ == series_color_spec(i as nat),
{
    let k = i % 6;
    if k == 0 {
        "#2563eb"
    } else if k == 1 {
        "#dc2626"
    } else if k == 2 {
        "#16a34a"
    } else if k == 3 {
        "#9333ea"
    } else if k == 4 {
        "#ea580c"
    } else {
        "#0891b2"
    }
}

/// An engine and the colour of its series.
pub struct EngineColor {
    pub engine_id: String,
    pub color: String,
}

/// The colours of the engines: each engine once, by id, the colours in turn.
pub fn engine_color_map(engine_ids: Vec<String>) -> (r: Vec<EngineColor>)
    ensures
        r@.len() == distinct_sorted_texts(views(engine_ids@)).len(),
        forall|i: int|
            0 <= i < r@.len() ==> (#[trigger] r@[i]).engine_id@ == distinct_sorted_texts(views(engine_ids@))[i]
                && r@[i].color@ == series_color_spec(i as nat),
{
    let ghost v0 = engine_ids@;
    let ids = sorted_distinct_texts(engine_ids);
    proof {
        assert(views(v0) =~= v0.map_values(|t: String| t@));
        assert(views(ids@) =~= ids@.map_values(|t: String| t@));
    }
    let ghost d = views(ids@);
    let mut out: Vec<EngineColor> = Vec::new();
    let mut i: usize = 0;
    while i < ids.len()
        invariant
            i <= ids@.len(),
            out@.len() == i,
            d == views(ids@),
            forall|k: int| 0 <= k < i ==> (#[trigger] out@[k]).engine_id@ == d[k] && out@[k].color@ == series_color_spec(k as nat),
        decreases ids@.len() - i,
    {
        let c = series_color(i);
        out.push(EngineColor { engine_id: ids[i].clone(), color: string_of(c) });
        i += 1;
    }
    out
}

/// The colour of an engine's series: the first listed for it, else the default.
pub open spec fn color_of(colors: Seq<EngineColor>, engine_id: Seq<char>) -> Seq<char>
    decreases colors.len(),
{
    if colors.len() == 0 {
        DEFAULT_SERIES_COLOR@
    } else if colors[0].engine_id@ == engine_id {
        colors[0].color@
    } else {
        color_of(colors.subrange(1, colors.len() as int), engine_id)
    }
}

/// The colour of an engine's series.
pub fn engine_color(colors: &Vec<EngineColor>, engine_id: &str) -> (r: String)
    ensures
        r@ == color_of(colors@, engine_id@),
{
    let mut i: usize = 0;
    assert(colors@.subrange(0, colors@.len() as int) =~= colors@);
    while i < colors.len()
        invariant
            i <= colors@.len(),
            color_of(colors@, engine_id@) == color_of(colors@.subrange(i as int, colors@.len() as int), engine_id@),
        decreases colors@.len() - i,
    {
        let ghost rest = colors@.subrange(i as int, colors@.len() as int);
        if str_eq(colors[i].engine_id.as_str(), engine_id) {
            return colors[i].color.clone();
        }
        assert(rest.subrange(1, rest.len() as int) =~= colors@.subrange(i + 1, colors@.len() as int));
        i += 1;
    }
    string_of(DEFAULT_SERIES_COLOR)
}

/// The engines of a metric's series: the engine of each (metric, engine)
/// key with that metric, in key order.
pub open spec fn metric_engines(keys: Seq<TextPair>, metric: Seq<char>) -> Seq<Seq<char>>
    decreases keys.len(),
{
    if keys.len() == 0 {
        Seq::empty()
    } else {
        metric_engines(keys.drop_last(), metric) + if keys.last().first@ == metric {
            seq![keys.last().second@]
        } else {
            Seq::empty()
        }
    }
}

/// The engines of a metric's series, by id.
pub fn chart_engine_ids(keys: &Vec<TextPair>, metric_key: &str) -> (r: Vec<String>)
    ensures
        views(r@) == stable_sort_by_key(metric_engines(keys@, metric_key@), |t: Seq<char>| text_key(t)),
{
    let mut ids: Vec<String> = Vec::new();
    let mut i: usize = 0;
    while i < keys.len()
        invariant
            i <= keys@.len(),
            views(ids@) == metric_engines(keys@.subrange(0, i as int), metric_key@),
        decreases keys@.len() - i,
    {
        let ghost pre = keys@.subrange(0, i + 1);
        assert(pre.drop_last() =~= keys@.subrange(0, i as int));
        let ghost i0 = ids@;
        if str_eq(keys[i].first.as_str(), metric_key) {
            ids.push(keys[i].second.clone());
            assert(views(ids@) =~= views(i0).push(keys@[i as int].second@));
        }
        assert(views(ids@) =~= metric_engines(pre, metric_key@));
        i += 1;
    }
    assert(keys@.subrange(0, keys@.len() as int) =~= keys@);
    let ghost unsorted = ids@;
    let ghost key = |s: String| string_key(s);
    let le = |a: &String, b: &String| -> (r: bool)
        ensures
            r == key_le(string_key(*a), string_key(*b)),
        { text_le(a, b) };
    let sorted = sort_by_sort_key(ids, Ghost(key), le);
    proof {
        let f = |s: String| s@;
        let k2 = |t: Seq<char>| text_key(t);
        assert forall|y: String| #[trigger] key(y) == k2(f(y)) by {}
        lemma_stable_sort_by_key_map(unsorted, f, key, k2);
        assert(unsorted.map_values(f) =~= views(unsorted));
        assert(sorted@.map_values(f) =~= views(sorted@));
    }
    sorted
}

} // verus!
