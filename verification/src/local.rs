//! The server side of local process discovery: which processes expose
//! probing memtables, how their command lines read, and how a query is
//! forwarded to one of them.

use vstd::prelude::*;
use crate::text::{chars_of, int_text, push_char, push_int, push_str, string_of};

verus! {

broadcast use vstd::seq_lib::group_to_multiset_ensures;

/// The query string of a forwarded query: the target process.
#[derive(Debug, Clone, PartialEq)]
pub struct LocalPidQuery {
    pub pid: i32,
}

/// The abstract Unix socket a local probing process listens on (Linux):
/// a NUL byte, then `probing-<pid>`.
pub fn local_socket_name(pid: i32) -> (r: String)
    ensures
        r@ == seq!['\0'] + "probing-"@ + int_text(pid as int),
{
    let mut s = String::new();
    push_char(&mut s, '\0');
    push_str(&mut s, "probing-");
    push_int(&mut s, pid as i64);
    assert(s@ =~= seq!['\0'] + "probing-"@ + int_text(pid as int));
    s
}

/// The message of a query that could not be forwarded.
pub fn local_query_error_message(pid: i32, err: &str) -> (r: String)
    ensures
        r@ == "Failed to query local pid "@ + int_text(pid as int) + ": "@ + err@,
{
    let mut s = string_of("Failed to query local pid ");
    push_int(&mut s, pid as i64);
    push_str(&mut s, ": ");
    push_str(&mut s, err);
    s
}

/// Whether the memtable of `pid` is alive, as discovered.
pub open spec fn alive_pid(tables: Seq<(i32, bool)>, pid: i32) -> bool {
    exists|i: int| 0 <= i < tables.len() && #[trigger] tables[i] == (pid, true)
}

/// The processes with a live memtable, each once, by increasing pid.
pub fn local_process_pids(tables: &Vec<(i32, bool)>) -> (r: Vec<i32>)
    ensures
        forall|i: int, j: int| 0 <= i < j < r@.len() ==> r@[i] < r@[j],
        forall|p: i32| r@.contains(p) <==> alive_pid(tables@, p),
{
    let mut pids: Vec<i32> = Vec::new();
    let mut i: usize = 0;
    while i < tables.len()
        invariant
            i <= tables@.len(),
            forall|p: i32| pids@.contains(p) <==> alive_pid(tables@.subrange(0, i as int), p),
            forall|a: int, b: int| 0 <= a < b < pids@.len() ==> pids@[a] < pids@[b],
        decreases tables@.len() - i,
    {
        let (pid, alive) = tables[i];
        let ghost old_pids = pids@;
        proof {
            assert forall|p: i32| alive_pid(tables@.subrange(0, i + 1), p) <==> alive_pid(tables@.subrange(0, i as int), p)
                || (p == pid && alive) by {
                if alive_pid(tables@.subrange(0, i + 1), p) {
                    let k = choose|k: int| 0 <= k < i + 1 && #[trigger] tables@.subrange(0, i + 1)[k] == (p, true);
                    if k < i {
                        assert(tables@.subrange(0, i as int)[k] == (p, true));
                    }
                }
                if alive_pid(tables@.subrange(0, i as int), p) {
                    let k = choose|k: int| 0 <= k < i && #[trigger] tables@.subrange(0, i as int)[k] == (p, true);
                    assert(tables@.subrange(0, i + 1)[k] == (p, true));
                }
                if p == pid && alive {
                    assert(tables@.subrange(0, i + 1)[i as int] == (p, true));
                }
            }
        }
        if alive {
            let mut p: usize = 0;
            while p < pids.len() && pids[p] < pid
                invariant
                    p <= pids@.len(),
                    forall|a: int, b: int| 0 <= a < b < pids@.len() ==> pids@[a] < pids@[b],
                    forall|a: int| 0 <= a < p ==> pids@[a] < pid,
                decreases pids@.len() - p,
            {
                p += 1;
            }
            if p < pids.len() && pids[p] == pid {
                assert(pids@.contains(pid)) by {
                    assert(pids@[p as int] == pid);
                }
            } else {
                let ghost before = pids@;
                pids.insert(p, pid);
                proof {
                    assert(pids@ =~= before.insert(p as int, pid));
                    assert forall|a: int, b: int| 0 <= a < b < pids@.len() implies pids@[a] < pids@[b] by {
                        if b < p {
                        } else if b == p {
                        } else if a < p {
                            assert(before[p as int] > pid);
                        } else if a == p {
                            assert(pids@[b] == before[b - 1]);
                            if b - 1 > p {
                                assert(before[p as int] < before[b - 1]);
                            }
                        }
                    }
                    assert forall|q: i32| pids@.contains(q) <==> before.contains(q) || q == pid by {
                        if pids@.contains(q) {
                            let k = choose|k: int| 0 <= k < pids@.len() && pids@[k] == q;
                            if k < p {
                                assert(before[k] == q);
                            } else if k > p {
                                assert(before[k - 1] == q);
                            }
                        }
                        if before.contains(q) {
                            let k = choose|k: int| 0 <= k < before.len() && before[k] == q;
                            if k < p {
                                assert(pids@[k] == q);
                            } else {
                                assert(pids@[k + 1] == q);
                            }
                        }
                        if q == pid {
                            assert(pids@[p as int] == q);
                        }
                    }
                }
            }
        }
        proof {
            if alive {
                assert(pids@.contains(pid));
            }
            assert forall|q: i32| pids@.contains(q) <==> old_pids.contains(q) || (alive && q == pid) by {
                if !alive {
                    assert(pids@ == old_pids);
                }
            }
            assert forall|q: i32| pids@.contains(q) <==> alive_pid(tables@.subrange(0, i + 1), q) by {
                assert(old_pids.contains(q) <==> alive_pid(tables@.subrange(0, i as int), q));
            }
        }
        i += 1;
    }
    assert(tables@.subrange(0, tables@.len() as int) =~= tables@);
    pids
}

/// Unicode white space, as `char::is_whitespace` and `str::trim` take it.
pub open spec fn is_white(c: char) -> bool {
    ||| '\t' <= c <= '\r'
    ||| c == ' '
    ||| c == '\u{85}'
    ||| c == '\u{a0}'
    ||| c == '\u{1680}'
    ||| '\u{2000}' <= c <= '\u{200a}'
    ||| c == '\u{2028}'
    ||| c == '\u{2029}'
    ||| c == '\u{202f}'
    ||| c == '\u{205f}'
    ||| c == '\u{3000}'
}

fn is_white_char(c: char) -> (r: bool)
    ensures
        r == is_white(c),
{
    ('\t' <= c && c <= '\r') || c == ' ' || c == '\u{85}' || c == '\u{a0}' || c == '\u{1680}' || ('\u{2000}' <= c
        && c <= '\u{200a}') || c == '\u{2028}' || c == '\u{2029}' || c == '\u{202f}' || c == '\u{205f}' || c
        == '\u{3000}'
}

/// The text without its leading white space.
pub open spec fn trim_start(s: Seq<char>) -> Seq<char>
    decreases s.len(),
{
    if s.len() > 0 && is_white(s[0]) {
        trim_start(s.drop_first())
    } else {
        s
    }
}

/// The text without its trailing white space.
pub open spec fn trim_end(s: Seq<char>) -> Seq<char>
    decreases s.len(),
{
    if s.len() > 0 && is_white(s.last()) {
        trim_end(s.drop_last())
    } else {
        s
    }
}

/// The text with white space cut from both ends (`str::trim`).
pub open spec fn trim(s: Seq<char>) -> Seq<char> {
    trim_end(trim_start(s))
}

proof fn lemma_trim_start(s: Seq<char>, lo: int)
    requires
        0 <= lo <= s.len(),
        forall|k: int| 0 <= k < lo ==> is_white(#[trigger] s[k]),
        lo == s.len() || !is_white(s[lo]),
    ensures
        trim_start(s) == s.skip(lo),
    decreases lo,
{
    if lo == 0 {
        assert(s.skip(0) =~= s);
    } else {
        assert forall|k: int| 0 <= k < lo - 1 implies is_white(#[trigger] s.drop_first()[k]) by {
            assert(s.drop_first()[k] == s[k + 1]);
        }
        if lo < s.len() {
            assert(s.drop_first()[lo - 1] == s[lo]);
        }
        lemma_trim_start(s.drop_first(), lo - 1);
        assert(s.drop_first().skip(lo - 1) =~= s.skip(lo));
    }
}

proof fn lemma_trim_end(s: Seq<char>, hi: int)
    requires
        0 <= hi <= s.len(),
        forall|k: int| hi <= k < s.len() ==> is_white(#[trigger] s[k]),
        hi == 0 || !is_white(s[hi - 1]),
    ensures
        trim_end(s) == s.take(hi),
    decreases s.len() - hi,
{
    if hi == s.len() {
        assert(s.take(hi) =~= s);
    } else {
        assert forall|k: int| hi <= k < s.len() - 1 implies is_white(#[trigger] s.drop_last()[k]) by {
            assert(s.drop_last()[k] == s[k]);
        }
        if hi > 0 {
            assert(s.drop_last()[hi - 1] == s[hi - 1]);
        }
        lemma_trim_end(s.drop_last(), hi);
        assert(s.drop_last().take(hi) =~= s.take(hi));
    }
}

/// The characters of `s` between `lo` and `hi`, as a string.
fn string_from(s: &Vec<char>, lo: usize, hi: usize) -> (r: String)
    requires
        lo <= hi <= s@.len(),
    ensures
        r@ == s@.subrange(lo as int, hi as int),
{
    let mut out = String::new();
    let mut i: usize = lo;
    while i < hi
        invariant
            lo <= i <= hi <= s@.len(),
            out@ == s@.subrange(lo as int, i as int),
        decreases hi - i,
    {
        push_char(&mut out, s[i]);
        i += 1;
        assert(out@ =~= s@.subrange(lo as int, i as int));
    }
    out
}

/// The text with white space cut from both ends.
fn trim_text(s: &Vec<char>) -> (r: String)
    ensures
        r@ == trim(s@),
{
    let mut lo: usize = 0;
    while lo < s.len() && is_white_char(s[lo])
        invariant
            lo <= s@.len(),
            forall|k: int| 0 <= k < lo ==> is_white(#[trigger] s@[k]),
        decreases s@.len() - lo,
    {
        lo += 1;
    }
    let mut hi: usize = s.len();
    while hi > lo && is_white_char(s[hi - 1])
        invariant
            lo <= hi <= s@.len(),
            forall|k: int| hi <= k < s@.len() ==> is_white(#[trigger] s@[k]),
        decreases hi,
    {
        hi -= 1;
    }
    proof {
        lemma_trim_start(s@, lo as int);
        let t = s@.skip(lo as int);
        assert forall|k: int| hi - lo <= k < t.len() implies is_white(#[trigger] t[k]) by {
            assert(t[k] == s@[k + lo]);
        }
        if hi > lo {
            assert(t[hi - lo - 1] == s@[hi - 1]);
        }
        lemma_trim_end(t, hi - lo);
        assert(t.take(hi - lo) =~= s@.subrange(lo as int, hi as int));
    }
    string_from(s, lo, hi)
}

/// The NUL-separated arguments of a `/proc/<pid>/cmdline`, joined by spaces.
pub open spec fn nul_to_space(s: Seq<char>) -> Seq<char> {
    s.map_values(|c: char| if c == '\0' { ' ' } else { c })
}

/// The command line of a process: its `cmdline` with NULs as spaces and
/// trimmed, or, when that is empty, its `comm` trimmed.
pub open spec fn command_line_spec(cmdline: Seq<char>, comm: Seq<char>) -> Seq<char> {
    if trim(nul_to_space(cmdline)).len() > 0 {
        trim(nul_to_space(cmdline))
    } else {
        trim(comm)
    }
}

/// The command line of a process from its `cmdline` and `comm` files.
pub fn command_line(cmdline: &str, comm: &str) -> (r: String)
    ensures
        r@ == command_line_spec(cmdline@, comm@),
{
    let raw = chars_of(cmdline);
    let mut spaced: Vec<char> = Vec::new();
    let mut i: usize = 0;
    while i < raw.len()
        invariant
            i <= raw@.len(),
            raw@ == cmdline@,
            spaced@ == nul_to_space(cmdline@.take(i as int)),
        decreases raw@.len() - i,
    {
        let c = raw[i];
        spaced.push(if c == '\0' { ' ' } else { c });
        i += 1;
        assert(spaced@ =~= nul_to_space(cmdline@.take(i as int)));
    }
    assert(cmdline@.take(cmdline@.len() as int) =~= cmdline@);
    let cmd = trim_text(&spaced);
    if !cmd.as_str().is_empty() {
        return cmd;
    }
    let c = chars_of(comm);
    trim_text(&c)
}

} // verus!
