//! The request side of the web client: URLs of the probing API and the query
//! strings of the Ray timeline endpoints.

use vstd::prelude::*;
use vstd::utf8::encode_utf8;
use crate::text::{int_text, push_char, push_int, push_str, string_of};

verus! {

/// Client of the probing HTTP API, served from the page's own origin.
pub struct ApiClient;

impl ApiClient {
    /// A client for the page's origin.
    pub fn new() -> (r: ApiClient)
        ensures
            r == ApiClient,
    {
        ApiClient
    }

    /// The URL of an API path on `origin`: the origin followed by the path.
    pub fn build_url(origin: &str, path: &str) -> (r: String)
        ensures
            r@ == origin@ + path@,
    {
        let mut url = string_of(origin);
        push_str(&mut url, path);
        url
    }
}

/// Bytes that percent-encoding leaves as they are: ASCII letters, digits and
/// `-`, `.`, `_`, `~`.
pub open spec fn url_unreserved(b: u8) -> bool {
    (48 <= b <= 57) || (65 <= b <= 90) || (97 <= b <= 122) || b == 45 || b == 46 || b == 95 || b == 126
}

/// The upper-case hexadecimal digit of `d < 16`.
pub open spec fn hex_digit(d: u8) -> char {
    if d < 10 {
        (48 + d) as char
    } else {
        (55 + d) as char
    }
}

/// Percent-encoding of a byte string: unreserved bytes as themselves, every
/// other byte as `%` and two upper-case hexadecimal digits.
pub open spec fn url_encode_spec(bytes: Seq<u8>) -> Seq<char>
    decreases bytes.len(),
{
    if bytes.len() == 0 {
        Seq::empty()
    } else {
        let b = bytes.last();
        let tail = if url_unreserved(b) {
            seq![b as char]
        } else {
            seq!['%', hex_digit(b / 16), hex_digit(b % 16)]
        };
        url_encode_spec(bytes.drop_last()) + tail
    }
}

/// Percent-encodes the UTF-8 bytes of `s` (`urlencoding::encode`): every byte
/// but ASCII letters, digits and `-`, `.`, `_`, `~` becomes `%XX`, upper case.
#[verifier::external_body]
fn url_encode(s: &str) -> (r: String)
    ensures
        r@ == url_encode_spec(encode_utf8(s@)),
{
    urlencoding::encode(s).into_owned()
}

/// One `key=value` parameter of the timeline query, `None` when absent.
pub open spec fn text_param(key: Seq<char>, value: Option<Seq<char>>) -> Option<Seq<char>> {
    match value {
        Some(v) => Some(key + "="@ + url_encode_spec(encode_utf8(v))),
        None => None,
    }
}

pub open spec fn int_param(key: Seq<char>, value: Option<i64>) -> Option<Seq<char>> {
    match value {
        Some(v) => Some(key + "="@ + int_text(v as int)),
        None => None,
    }
}

/// The present parameters, in order.
pub open spec fn present(params: Seq<Option<Seq<char>>>) -> Seq<Seq<char>>
    decreases params.len(),
{
    if params.len() == 0 {
        Seq::empty()
    } else {
        let rest = present(params.drop_last());
        match params.last() {
            Some(p) => rest.push(p),
            None => rest,
        }
    }
}

/// `parts` joined by `sep`.
pub open spec fn join(parts: Seq<Seq<char>>, sep: Seq<char>) -> Seq<char>
    decreases parts.len(),
{
    if parts.len() == 0 {
        Seq::empty()
    } else if parts.len() == 1 {
        parts[0]
    } else {
        join(parts.drop_last(), sep) + sep + parts.last()
    }
}

/// The query string of the Ray timeline endpoints: `?` and the present
/// filters joined by `&`, or nothing when no filter is given.
pub open spec fn ray_timeline_query_spec(
    task_filter: Option<Seq<char>>,
    actor_filter: Option<Seq<char>>,
    start_time: Option<i64>,
    end_time: Option<i64>,
) -> Seq<char> {
    let params = present(
        seq![
            text_param("task_filter"@, task_filter),
            text_param("actor_filter"@, actor_filter),
            int_param("start_time"@, start_time),
            int_param("end_time"@, end_time),
        ],
    );
    if params.len() == 0 {
        Seq::empty()
    } else {
        "?"@ + join(params, "&"@)
    }
}

pub open spec fn opt_str_view(o: Option<&str>) -> Option<Seq<char>> {
    match o {
        Some(s) => Some(s@),
        None => None,
    }
}

pub open spec fn views(v: Seq<String>) -> Seq<Seq<char>> {
    v.map_values(|s: String| s@)
}

/// The strings of `parts` joined by `sep`.
pub fn join_strings(parts: &Vec<String>, sep: &str) -> (r: String)
    ensures
        r@ == join(views(parts@), sep@),
{
    let mut out = String::new();
    let mut i: usize = 0;
    while i < parts.len()
        invariant
            i <= parts@.len(),
            out@ == join(views(parts@.subrange(0, i as int)), sep@),
        decreases parts@.len() - i,
    {
        let ghost before = out@;
        if i > 0 {
            push_str(&mut out, sep);
        }
        push_str(&mut out, parts[i].as_str());
        proof {
            let vs = views(parts@.subrange(0, i + 1));
            assert(vs.drop_last() =~= views(parts@.subrange(0, i as int)));
            assert(vs.last() == parts@[i as int]@);
            if i == 0 {
                assert(vs.len() == 1);
                assert(before =~= Seq::<char>::empty());
                assert(out@ =~= vs[0]);
            } else {
                assert(out@ =~= before + sep@ + parts@[i as int]@);
            }
        }
        i += 1;
    }
    assert(parts@.subrange(0, parts@.len() as int) =~= parts@);
    out
}

/// `key=` followed by the percent-encoded value.
fn text_param_string(key: &str, value: &str) -> (r: String)
    ensures
        r@ == key@ + "="@ + url_encode_spec(encode_utf8(value@)),
{
    let mut p = string_of(key);
    push_char(&mut p, '=');
    let enc = url_encode(value);
    push_str(&mut p, enc.as_str());
    proof {
        reveal_strlit("=");
    }
    assert(p@ =~= key@ + "="@ + url_encode_spec(encode_utf8(value@)));
    p
}

/// `key=` followed by the decimal value.
fn int_param_string(key: &str, value: i64) -> (r: String)
    ensures
        r@ == key@ + "="@ + int_text(value as int),
{
    let mut p = string_of(key);
    push_char(&mut p, '=');
    push_int(&mut p, value);
    proof {
        reveal_strlit("=");
    }
    assert(p@ =~= key@ + "="@ + int_text(value as int));
    p
}

/// The query string of the Ray timeline endpoints.
pub fn ray_timeline_query(
    task_filter: Option<&str>,
    actor_filter: Option<&str>,
    start_time: Option<i64>,
    end_time: Option<i64>,
) -> (r: String)
    ensures
        r@ == ray_timeline_query_spec(opt_str_view(task_filter), opt_str_view(actor_filter), start_time, end_time),
{
    let ghost ps = seq![
        text_param("task_filter"@, opt_str_view(task_filter)),
        text_param("actor_filter"@, opt_str_view(actor_filter)),
        int_param("start_time"@, start_time),
        int_param("end_time"@, end_time),
    ];
    let mut params: Vec<String> = Vec::new();
    if let Some(f) = task_filter {
        params.push(text_param_string("task_filter", f));
    }
    assert(views(params@) =~= present(ps.subrange(0, 1))) by {
        reveal_with_fuel(present, 2);
        assert(ps.subrange(0, 1).drop_last() =~= Seq::<Option<Seq<char>>>::empty());
    }
    if let Some(f) = actor_filter {
        params.push(text_param_string("actor_filter", f));
    }
    assert(views(params@) =~= present(ps.subrange(0, 2))) by {
        assert(ps.subrange(0, 2).drop_last() =~= ps.subrange(0, 1));
    }
    if let Some(t) = start_time {
        params.push(int_param_string("start_time", t));
    }
    assert(views(params@) =~= present(ps.subrange(0, 3))) by {
        assert(ps.subrange(0, 3).drop_last() =~= ps.subrange(0, 2));
    }
    if let Some(t) = end_time {
        params.push(int_param_string("end_time", t));
    }
    assert(views(params@) =~= present(ps)) by {
        assert(ps.drop_last() =~= ps.subrange(0, 3));
    }
    if params.len() == 0 {
        return String::new();
    }
    let mut q = string_of("?");
    let joined = join_strings(&params, "&");
    push_str(&mut q, joined.as_str());
    q
}

/// What parsing a timeline response as JSON gives: the parser's message when
/// it is not JSON, else the compact JSON text of its `error` member, if any.
pub uninterp spec fn json_error_member_spec(text: Seq<char>) -> Result<Option<Seq<char>>, Seq<char>>;

/// Parses `text` as JSON (`serde_json::from_str`) and renders its `error`
/// member, if any, as compact JSON (`Value`'s `Display`); on a parse failure,
/// the parser's message.
#[verifier::external_body]
fn json_error_member(text: &str) -> (r: Result<Option<String>, String>)
    ensures
        match r {
            Ok(m) => json_error_member_spec(text@) == Ok::<Option<Seq<char>>, Seq<char>>(m.deep_view()),
            Err(e) => json_error_member_spec(text@) == Err::<Option<Seq<char>>, Seq<char>>(e@),
        },
{
    match serde_json::from_str::<serde_json::Value>(text) {
        Ok(v) => Ok(v.get("error").map(|e| e.to_string())),
        Err(e) => Err(e.to_string()),
    }
}

/// Why a Chrome-format timeline response was refused.
pub enum TimelineError {
    /// The response is not JSON; the parser's message.
    Parse(String),
    /// The backend answered with an `error` member; the message names it.
    Backend(String),
}

/// The outcome of a Chrome-format timeline response, given what parsing it
/// gave, as values: a parse failure, a backend error, or the response.
pub open spec fn timeline_outcome_spec(
    response: Seq<char>,
    parsed: Result<Option<Seq<char>>, Seq<char>>,
) -> Result<Seq<char>, (bool, Seq<char>)> {
    match parsed {
        Err(e) => Err((false, e)),
        Ok(Some(m)) => Err((true, "Backend error: "@ + m)),
        Ok(None) => Ok(response),
    }
}

/// The outcome of a Chrome-format timeline response, as values.
pub open spec fn timeline_check_spec(response: Seq<char>) -> Result<Seq<char>, (bool, Seq<char>)> {
    timeline_outcome_spec(response, json_error_member_spec(response))
}

pub open spec fn parsed_view(parsed: Result<Option<String>, String>) -> Result<Option<Seq<char>>, Seq<char>> {
    match parsed {
        Ok(m) => Ok(m.deep_view()),
        Err(e) => Err(e@),
    }
}

pub open spec fn timeline_result_view(r: Result<String, TimelineError>) -> Result<Seq<char>, (bool, Seq<char>)> {
    match r {
        Ok(s) => Ok(s@),
        Err(TimelineError::Parse(e)) => Err((false, e@)),
        Err(TimelineError::Backend(m)) => Err((true, m@)),
    }
}

/// Accepts a Chrome-format timeline response unless it is not JSON or holds
/// an `error` member.
pub fn check_ray_timeline_response(response: String) -> (r: Result<String, TimelineError>)
    ensures
        timeline_result_view(r) == timeline_check_spec(response@),
{
    let parsed = json_error_member(response.as_str());
    proof {
        assert(parsed_view(parsed) == json_error_member_spec(response@));
    }
    timeline_outcome(response, parsed)
}

/// The outcome of a Chrome-format timeline response, given what parsing it
/// gave: the parser's message, the backend's `error` member, or the response.
pub fn timeline_outcome(response: String, parsed: Result<Option<String>, String>) -> (r: Result<String, TimelineError>)
    ensures
        timeline_result_view(r) == timeline_outcome_spec(response@, parsed_view(parsed)),
{
    match parsed {
        Err(e) => Err(TimelineError::Parse(e)),
        Ok(Some(m)) => {
            let mut msg = string_of("Backend error: ");
            push_str(&mut msg, m.as_str());
            Err(TimelineError::Backend(msg))
        },
        Ok(None) => Ok(response),
    }
}

/// The path of the Ray timeline endpoint for the given filters.
pub fn ray_timeline_path(
    task_filter: Option<&str>,
    actor_filter: Option<&str>,
    start_time: Option<i64>,
    end_time: Option<i64>,
) -> (r: String)
    ensures
        r@ == "/apis/python/ray/timeline"@ + ray_timeline_query_spec(
            opt_str_view(task_filter),
            opt_str_view(actor_filter),
            start_time,
            end_time,
        ),
{
    let mut p = string_of("/apis/python/ray/timeline");
    let q = ray_timeline_query(task_filter, actor_filter, start_time, end_time);
    push_str(&mut p, q.as_str());
    p
}

/// The path of the Chrome-format Ray timeline endpoint for the given filters.
pub fn ray_timeline_chrome_path(
    task_filter: Option<&str>,
    actor_filter: Option<&str>,
    start_time: Option<i64>,
    end_time: Option<i64>,
) -> (r: String)
    ensures
        r@ == "/apis/python/ray/timeline/chrome"@ + ray_timeline_query_spec(
            opt_str_view(task_filter),
            opt_str_view(actor_filter),
            start_time,
            end_time,
        ),
{
    let mut p = string_of("/apis/python/ray/timeline/chrome");
    let q = ray_timeline_query(task_filter, actor_filter, start_time, end_time);
    push_str(&mut p, q.as_str());
    p
}

} // verus!
