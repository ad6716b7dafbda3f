//! The `python` SQL namespace: which tables it lists, which names it
//! serves, and how a Python expression names the modules to import.

use vstd::prelude::*;
use crate::text::{chars_of, push_char, push_str, string_of, str_eq};
use crate::client::{join, views};

verus! {

/// The `python` namespace of the SQL engine.
#[derive(Default, Debug)]
pub struct PythonNamespace {}

/// How the namespace serves a table name.
#[derive(Debug, PartialEq, Eq)]
pub enum PythonTable {
    /// The stack of the Python process.
    Backtrace,
    /// The value of a Python expression.
    Expression,
    /// Not a table of this namespace (a bare identifier).
    NotServed,
}

impl PythonNamespace {
    /// The namespace's name.
    pub fn name() -> (r: &'static str)
        ensures
            r@ == "python"@,
    {
        "python"
    }

    /// The tables the namespace lists.
    pub fn list() -> (r: Vec<String>)
        ensures
            views(r@) == seq!["backtrace"@],
    {
        let mut v: Vec<String> = Vec::new();
        v.push(string_of("backtrace"));
        assert(views(v@) =~= seq!["backtrace"@]);
        v
    }

    /// How a table name is served: `backtrace` is the stack, a name with `.`,
    /// `(` or `[` is a Python expression, and a bare identifier is not served.
    pub fn table(expr: &str) -> (r: PythonTable)
        ensures
            r == table_spec(expr@),
    {
        if str_eq(expr, "backtrace") {
            return PythonTable::Backtrace;
        }
        let v = chars_of(expr);
        let mut i: usize = 0;
        while i < v.len()
            invariant
                i <= v@.len(),
                v@ == expr@,
                expr@ != "backtrace"@,
                forall|k: int| 0 <= k < i ==> !is_expression_char(#[trigger] v@[k]),
            decreases v@.len() - i,
        {
            if v[i] == '.' || v[i] == '(' || v[i] == '[' {
                assert(is_expression_char(expr@[i as int]));
                return PythonTable::Expression;
            }
            i += 1;
        }
        PythonTable::NotServed
    }
}

/// `.`, `(` or `[`: a character only a Python expression holds.
pub open spec fn is_expression_char(c: char) -> bool {
    c == '.' || c == '(' || c == '['
}

pub open spec fn table_spec(expr: Seq<char>) -> PythonTable {
    if expr == "backtrace"@ {
        PythonTable::Backtrace
    } else if exists|k: int| 0 <= k < expr.len() && is_expression_char(#[trigger] expr[k]) {
        PythonTable::Expression
    } else {
        PythonTable::NotServed
    }
}

/// Where the import path of an expression ends: at its first `(` or `[`.
pub open spec fn import_path_end(s: Seq<char>) -> int
    decreases s.len(),
{
    if s.len() == 0 {
        0
    } else if import_path_end(s.drop_last()) < s.len() - 1 {
        import_path_end(s.drop_last())
    } else if s.last() == '(' || s.last() == '[' {
        s.len() - 1
    } else {
        s.len() as int
    }
}

/// The `.`-separated pieces of a text, empty ones included.
pub open spec fn dot_pieces(s: Seq<char>) -> Seq<Seq<char>>
    decreases s.len(),
{
    if s.len() == 0 {
        seq![Seq::empty()]
    } else {
        let r = dot_pieces(s.drop_last());
        if s.last() == '.' {
            r.push(Seq::empty())
        } else {
            r.update(r.len() - 1, r.last().push(s.last()))
        }
    }
}

proof fn lemma_dot_pieces_nonempty(s: Seq<char>)
    ensures
        dot_pieces(s).len() > 0,
    decreases s.len(),
{
    if s.len() > 0 {
        lemma_dot_pieces_nonempty(s.drop_last());
    }
}

pub open spec fn nonempty_piece(p: Seq<char>) -> bool {
    p.len() > 0
}

/// The modules an expression names: the non-empty `.`-separated pieces of
/// the text before its first `(` or `[`.
pub open spec fn import_path_parts_spec(expr: Seq<char>) -> Seq<Seq<char>> {
    dot_pieces(expr.take(import_path_end(expr))).filter(|p: Seq<char>| nonempty_piece(p))
}

proof fn lemma_import_path_end(s: Seq<char>)
    ensures
        0 <= import_path_end(s) <= s.len(),
        forall|k: int| 0 <= k < import_path_end(s) ==> s[k] != '(' && s[k] != '[',
        import_path_end(s) < s.len() ==> (s[import_path_end(s)] == '(' || s[import_path_end(s)] == '['),
    decreases s.len(),
{
    if s.len() > 0 {
        lemma_import_path_end(s.drop_last());
        assert forall|k: int| 0 <= k < import_path_end(s) implies s[k] != '(' && s[k] != '[' by {
            if k < s.len() - 1 {
                assert(s.drop_last()[k] == s[k]);
            }
        }
        if import_path_end(s) < s.len() && import_path_end(s) < s.len() - 1 {
            assert(s.drop_last()[import_path_end(s)] == s[import_path_end(s)]);
        }
    }
}

proof fn lemma_filter_push(s: Seq<Seq<char>>, x: Seq<char>)
    ensures
        s.push(x).filter(|p: Seq<char>| nonempty_piece(p)) == if nonempty_piece(x) {
            s.filter(|p: Seq<char>| nonempty_piece(p)).push(x)
        } else {
            s.filter(|p: Seq<char>| nonempty_piece(p))
        },
{
    reveal(Seq::filter);
    assert(s.push(x).drop_last() =~= s);
}

/// The modules a Python expression names, outermost first.
pub fn import_path_parts(expr: &str) -> (r: Vec<String>)
    ensures
        views(r@) == import_path_parts_spec(expr@),
{
    let v = chars_of(expr);
    let mut end: usize = 0;
    while end < v.len() && v[end] != '(' && v[end] != '['
        invariant
            end <= v@.len(),
            v@ == expr@,
            forall|k: int| 0 <= k < end ==> v@[k] != '(' && v@[k] != '[',
        decreases v@.len() - end,
    {
        end += 1;
    }
    proof {
        lemma_import_path_end(expr@);
        let e = import_path_end(expr@);
        if e < end {
            assert(v@[e] != '(' && v@[e] != '[');
        }
        if end < e {
            assert(expr@[end as int] != '(' && expr@[end as int] != '[');
        }
        assert(e == end);
    }
    let ghost path = expr@.take(end as int);
    let mut parts: Vec<String> = Vec::new();
    let mut cur = String::new();
    let ghost mut done: Seq<Seq<char>> = Seq::empty();
    let mut i: usize = 0;
    assert(path.take(0) =~= Seq::<char>::empty());
    while i < end
        invariant
            i <= end <= v@.len(),
            v@ == expr@,
            path == expr@.take(end as int),
            dot_pieces(path.take(i as int)) == done.push(cur@),
            views(parts@) == done.filter(|p: Seq<char>| nonempty_piece(p)),
        decreases end - i,
    {
        let c = v[i];
        proof {
            assert(path.take(i + 1).drop_last() =~= path.take(i as int));
            assert(path.take(i + 1).last() == c);
        }
        if c == '.' {
            let ghost before = done;
            if cur.as_str().is_empty() {
            } else {
                let ghost p0 = parts@;
                parts.push(cur);
                assert(views(parts@) =~= views(p0).push(parts@.last()@));
            }
            proof {
                lemma_filter_push(before, cur@);
                done = before.push(cur@);
            }
            cur = String::new();
            assert(dot_pieces(path.take(i + 1)) =~= done.push(cur@));
        } else {
            push_char(&mut cur, c);
            proof {
                lemma_dot_pieces_nonempty(path.take(i as int));
            }
            assert(dot_pieces(path.take(i + 1)) =~= done.push(cur@));
        }
        i += 1;
    }
    assert(path.take(end as int) =~= path);
    let ghost before = done;
    let ghost last = cur@;
    if !cur.as_str().is_empty() {
        let ghost p0 = parts@;
        parts.push(cur);
        assert(views(parts@) =~= views(p0).push(last));
    }
    proof {
        lemma_filter_push(before, last);
    }
    parts
}


/// A frame of a captured stack: native (with its instruction pointer) or
/// Python.
pub enum CallFrame {
    CFrame { ip: String, file: String, func: String, lineno: i64 },
    PyFrame { file: String, func: String, lineno: i64 },
}

/// The columns of the backtrace table, one entry per frame, outermost
/// frame first as captured.
pub struct BacktraceColumns {
    pub ips: Vec<Option<String>>,
    pub files: Vec<String>,
    pub funcs: Vec<String>,
    pub linenos: Vec<i64>,
    pub depths: Vec<i64>,
    pub frame_types: Vec<String>,
}

/// The backtrace row of a frame: its ip (native frames only), file,
/// function, line and kind.
pub open spec fn frame_row(f: CallFrame) -> (Option<Seq<char>>, Seq<char>, Seq<char>, i64, Seq<char>) {
    match f {
        CallFrame::CFrame { ip, file, func, lineno } => (Some(ip@), file@, func@, lineno, "Native"@),
        CallFrame::PyFrame { file, func, lineno } => (None, file@, func@, lineno, "Python"@),
    }
}

/// Whether the columns hold the rows of `frames`, the `i`th at depth `i`.
pub open spec fn backtrace_of(c: BacktraceColumns, frames: Seq<CallFrame>) -> bool {
    &&& c.ips@.len() == frames.len()
    &&& c.files@.len() == frames.len()
    &&& c.funcs@.len() == frames.len()
    &&& c.linenos@.len() == frames.len()
    &&& c.depths@.len() == frames.len()
    &&& c.frame_types@.len() == frames.len()
    &&& forall|i: int|
        0 <= i < frames.len() ==> {
            let r = frame_row(#[trigger] frames[i]);
            &&& c.ips@[i].deep_view() == r.0
            &&& c.files@[i]@ == r.1
            &&& c.funcs@[i]@ == r.2
            &&& c.linenos@[i] == r.3
            &&& c.depths@[i] == i
            &&& c.frame_types@[i]@ == r.4
        }
}

/// The backtrace table of a captured stack; none for an empty stack.
pub fn backtrace_columns(frames: &Vec<CallFrame>) -> (r: Option<BacktraceColumns>)
    requires
        frames@.len() <= i64::MAX,
    ensures
        r is None <==> frames@.len() == 0,
        r matches Some(c) ==> backtrace_of(c, frames@),
{
    if frames.len() == 0 {
        return None;
    }
    let mut c = BacktraceColumns {
        ips: Vec::new(),
        files: Vec::new(),
        funcs: Vec::new(),
        linenos: Vec::new(),
        depths: Vec::new(),
        frame_types: Vec::new(),
    };
    let mut i: usize = 0;
    while i < frames.len()
        invariant
            i <= frames@.len(),
            frames@.len() <= i64::MAX,
            backtrace_of(c, frames@.subrange(0, i as int)),
        decreases frames@.len() - i,
    {
        let ghost c0 = c;
        proof {
            reveal_strlit("Native");
            reveal_strlit("Python");
        }
        match &frames[i] {
            CallFrame::CFrame { ip, file, func, lineno } => {
                c.ips.push(Some(ip.clone()));
                c.files.push(file.clone());
                c.funcs.push(func.clone());
                c.linenos.push(*lineno);
                c.frame_types.push(string_of("Native"));
            },
            CallFrame::PyFrame { file, func, lineno } => {
                c.ips.push(None);
                c.files.push(file.clone());
                c.funcs.push(func.clone());
                c.linenos.push(*lineno);
                c.frame_types.push(string_of("Python"));
            },
        }
        c.depths.push(i as i64);
        proof {
            let pre = frames@.subrange(0, i + 1);
            assert forall|k: int| 0 <= k < pre.len() implies {
                let r = frame_row(#[trigger] pre[k]);
                &&& c.ips@[k].deep_view() == r.0
                &&& c.files@[k]@ == r.1
                &&& c.funcs@[k]@ == r.2
                &&& c.linenos@[k] == r.3
                &&& c.depths@[k] == k
                &&& c.frame_types@[k]@ == r.4
            } by {
                if k < i {
                    assert(pre[k] == frames@.subrange(0, i as int)[k]);
                } else {
                    assert(pre[k] == frames@[i as int]);
                }
            }
        }
        i += 1;
    }
    assert(frames@.subrange(0, frames@.len() as int) =~= frames@);
    Some(c)
}

/// The module names to import for an expression's import path beyond its
/// top-level package: each longer prefix of the path, joined by `.`.
pub fn import_prefixes(parts: &Vec<String>) -> (r: Vec<String>)
    ensures
        r@.len() == if parts@.len() >= 1 { parts@.len() - 1 } else { 0 },
        forall|i: int| 0 <= i < r@.len() ==> (#[trigger] r@[i])@ == join(views(parts@).take(i + 2), "."@),
{
    let mut out: Vec<String> = Vec::new();
    if parts.len() == 0 {
        return out;
    }
    let ghost pv = views(parts@);
    let mut cur = parts[0].clone();
    let mut d: usize = 1;
    assert(pv.take(1).len() == 1);
    assert(pv.take(1)[0] == parts@[0]@);
    while d < parts.len()
        invariant
            1 <= d <= parts@.len(),
            pv == views(parts@),
            cur@ == join(pv.take(d as int), "."@),
            out@.len() == d - 1,
            forall|i: int| 0 <= i < out@.len() ==> (#[trigger] out@[i])@ == join(pv.take(i + 2), "."@),
        decreases parts@.len() - d,
    {
        let ghost before = cur@;
        push_char(&mut cur, '.');
        push_str(&mut cur, parts[d].as_str());
        proof {
            reveal_strlit(".");
            assert(pv.take(d + 1).drop_last() =~= pv.take(d as int));
            assert(pv.take(d + 1).last() == parts@[d as int]@);
            assert(cur@ =~= before + "."@ + parts@[d as int]@);
        }
        out.push(cur.clone());
        d += 1;
    }
    out
}

/// The table of a Python list: its items' keys in order of first appearance
/// and, per key, each item's value for it.
pub struct ListTable {
    pub names: Vec<String>,
    pub columns: Vec<Vec<Option<String>>>,
}

pub open spec fn entries_view(item: Seq<(String, String)>) -> Seq<(Seq<char>, Seq<char>)> {
    item.map_values(|e: (String, String)| (e.0@, e.1@))
}

/// `acc` with the keys of `entries` added in turn, each unless it is there.
pub open spec fn add_keys(acc: Seq<Seq<char>>, entries: Seq<(Seq<char>, Seq<char>)>) -> Seq<Seq<char>>
    decreases entries.len(),
{
    if entries.len() == 0 {
        acc
    } else {
        let a = add_keys(acc, entries.drop_last());
        if a.contains(entries.last().0) {
            a
        } else {
            a.push(entries.last().0)
        }
    }
}

/// The keys of the items, each once, in order of first appearance.
pub open spec fn list_keys(items: Seq<Vec<(String, String)>>) -> Seq<Seq<char>>
    decreases items.len(),
{
    if items.len() == 0 {
        Seq::empty()
    } else {
        add_keys(list_keys(items.drop_last()), entries_view(items.last()@))
    }
}

/// An item's value for a key: that of its first entry with the key.
pub open spec fn entry_value(entries: Seq<(Seq<char>, Seq<char>)>, key: Seq<char>) -> Option<Seq<char>>
    decreases entries.len(),
{
    if entries.len() == 0 {
        None
    } else if entries[0].0 == key {
        Some(entries[0].1)
    } else {
        entry_value(entries.subrange(1, entries.len() as int), key)
    }
}

proof fn lemma_add_keys_distinct(acc: Seq<Seq<char>>, entries: Seq<(Seq<char>, Seq<char>)>)
    requires
        acc.no_duplicates(),
    ensures
        add_keys(acc, entries).no_duplicates(),
    decreases entries.len(),
{
    if entries.len() > 0 {
        lemma_add_keys_distinct(acc, entries.drop_last());
        let a = add_keys(acc, entries.drop_last());
        let k = entries.last().0;
        if !a.contains(k) {
            assert forall|i: int, j: int| 0 <= i < j < a.push(k).len() implies a.push(k)[i] != a.push(k)[j] by {
                if j == a.len() {
                    assert(a.push(k)[i] == a[i]);
                }
            }
        }
    }
}

/// Each key of a list's items is listed once.
pub proof fn lemma_list_keys_distinct(items: Seq<Vec<(String, String)>>)
    ensures
        list_keys(items).no_duplicates(),
    decreases items.len(),
{
    if items.len() > 0 {
        lemma_list_keys_distinct(items.drop_last());
        lemma_add_keys_distinct(list_keys(items.drop_last()), entries_view(items.last()@));
    }
}

/// Whether `t` holds the keys of `items` and each item's value per key.
pub open spec fn list_table_of(t: ListTable, items: Seq<Vec<(String, String)>>) -> bool {
    &&& views(t.names@) == list_keys(items)
    &&& t.columns@.len() == t.names@.len()
    &&& forall|c: int|
        0 <= c < t.columns@.len() ==> {
            &&& (#[trigger] t.columns@[c])@.len() == items.len()
            &&& forall|j: int|
                0 <= j < items.len() ==> (#[trigger] t.columns@[c]@[j]).deep_view() == entry_value(
                    entries_view(items[j]@),
                    t.names@[c]@,
                )
        }
}

fn has_text(v: &Vec<String>, k: &str) -> (r: bool)
    ensures
        r == views(v@).contains(k@),
{
    let mut i: usize = 0;
    while i < v.len()
        invariant
            i <= v@.len(),
            forall|m: int| 0 <= m < i ==> v@[m]@ != k@,
        decreases v@.len() - i,
    {
        if str_eq(v[i].as_str(), k) {
            assert(views(v@)[i as int] == k@);
            return true;
        }
        i += 1;
    }
    proof {
        if views(v@).contains(k@) {
            let m = choose|m: int| 0 <= m < views(v@).len() && views(v@)[m] == k@;
            assert(v@[m]@ == k@);
        }
    }
    false
}

fn item_value(item: &Vec<(String, String)>, key: &str) -> (r: Option<String>)
    ensures
        r.deep_view() == entry_value(entries_view(item@), key@),
{
    let ghost ev = entries_view(item@);
    let mut i: usize = 0;
    assert(ev.subrange(0, ev.len() as int) =~= ev);
    while i < item.len()
        invariant
            i <= item@.len(),
            ev == entries_view(item@),
            entry_value(ev, key@) == entry_value(ev.subrange(i as int, ev.len() as int), key@),
        decreases item@.len() - i,
    {
        let ghost rest = ev.subrange(i as int, ev.len() as int);
        assert(rest[0] == (item@[i as int].0@, item@[i as int].1@));
        if str_eq(item[i].0.as_str(), key) {
            return Some(item[i].1.clone());
        }
        assert(rest.subrange(1, rest.len() as int) =~= ev.subrange(i + 1, ev.len() as int));
        i += 1;
    }
    None
}

/// The table of a Python list whose items are read as key/value entries.
pub fn list_table(items: &Vec<Vec<(String, String)>>) -> (r: ListTable)
    ensures
        list_table_of(r, items@),
{
    let mut names: Vec<String> = Vec::new();
    let mut i: usize = 0;
    assert(items@.subrange(0, 0) =~= Seq::<Vec<(String, String)>>::empty());
    while i < items.len()
        invariant
            i <= items@.len(),
            views(names@) == list_keys(items@.subrange(0, i as int)),
        decreases items@.len() - i,
    {
        let item = &items[i];
        let ghost pre = items@.subrange(0, i + 1);
        assert(pre.drop_last() =~= items@.subrange(0, i as int));
        assert(pre.last() == *item);
        let ghost ev = entries_view(item@);
        let ghost n0 = views(names@);
        let mut e: usize = 0;
        assert(ev.subrange(0, 0) =~= Seq::<(Seq<char>, Seq<char>)>::empty());
        while e < item.len()
            invariant
                e <= item@.len(),
                ev == entries_view(item@),
                views(names@) == add_keys(n0, ev.subrange(0, e as int)),
            decreases item@.len() - e,
        {
            let ghost sub = ev.subrange(0, e + 1);
            assert(sub.drop_last() =~= ev.subrange(0, e as int));
            assert(sub.last() == (item@[e as int].0@, item@[e as int].1@));
            if !has_text(&names, item[e].0.as_str()) {
                let ghost before = names@;
                names.push(item[e].0.clone());
                assert(views(names@) =~= views(before).push(item@[e as int].0@));
            }
            e += 1;
        }
        assert(ev.subrange(0, ev.len() as int) =~= ev);
        i += 1;
    }
    assert(items@.subrange(0, items@.len() as int) =~= items@);
    let mut columns: Vec<Vec<Option<String>>> = Vec::new();
    let mut c: usize = 0;
    while c < names.len()
        invariant
            c <= names@.len(),
            views(names@) == list_keys(items@),
            columns@.len() == c,
            forall|k: int|
                0 <= k < c ==> {
                    &&& (#[trigger] columns@[k])@.len() == items@.len()
                    &&& forall|j: int|
                        0 <= j < items@.len() ==> (#[trigger] columns@[k]@[j]).deep_view() == entry_value(
                            entries_view(items@[j]@),
                            names@[k]@,
                        )
                },
        decreases names@.len() - c,
    {
        let mut col: Vec<Option<String>> = Vec::new();
        let mut j: usize = 0;
        while j < items.len()
            invariant
                j <= items@.len(),
                c < names@.len(),
                col@.len() == j,
                forall|m: int| 0 <= m < j ==> (#[trigger] col@[m]).deep_view() == entry_value(entries_view(items@[m]@), names@[c as int]@),
            decreases items@.len() - j,
        {
            let v = item_value(&items[j], names[c].as_str());
            col.push(v);
            j += 1;
        }
        columns.push(col);
        c += 1;
    }
    ListTable { names, columns }
}

} // verus!
