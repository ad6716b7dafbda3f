//! Character-sequence helpers used by every other module: comparison,
//! affix search, decimal rendering and decimal parsing.

use vstd::prelude::*;
use vstd::string::*;

verus! {

/// `p` is a prefix of `s`.
pub open spec fn seq_starts_with(s: Seq<char>, p: Seq<char>) -> bool {
    p.len() <= s.len() && s.subrange(0, p.len() as int) == p
}

/// `p` is a suffix of `s`.
pub open spec fn seq_ends_with(s: Seq<char>, p: Seq<char>) -> bool {
    p.len() <= s.len() && s.subrange(s.len() - p.len(), s.len() as int) == p
}

/// `p` occurs at position `i` of `s`.
pub open spec fn occurs_at(s: Seq<char>, p: Seq<char>, i: int) -> bool {
    0 <= i && i + p.len() <= s.len() && s.subrange(i, i + p.len()) == p
}

/// `p` occurs somewhere in `s`.
pub open spec fn seq_contains(s: Seq<char>, p: Seq<char>) -> bool {
    exists|i: int| occurs_at(s, p, i)
}

/// Copies the characters of `s` into a vector.
pub fn chars_of(s: &str) -> (v: Vec<char>)
    ensures
        v@ == s@,
{
    let n = s.unicode_len();
    let mut v: Vec<char> = Vec::new();
    let mut i: usize = 0;
    while i < n
        invariant
            n == s@.len(),
            i <= n,
            v@ == s@.subrange(0, i as int),
        decreases n - i,
    {
        let c = s.get_char(i);
        v.push(c);
        i += 1;
        assert(v@ =~= s@.subrange(0, i as int));
    }
    assert(v@ =~= s@);
    v
}

/// Whether `p` occurs in `s` at position `i`.
fn chars_occur_at(s: &Vec<char>, p: &Vec<char>, i: usize) -> (r: bool)
    ensures
        r == occurs_at(s@, p@, i as int),
{
    if i > s.len() || p.len() > s.len() - i {
        return false;
    }
    let mut j: usize = 0;
    while j < p.len()
        invariant
            i + p.len() <= s.len(),
            j <= p.len(),
            forall|k: int| 0 <= k < j ==> s@[i + k] == p@[k],
        decreases p.len() - j,
    {
        if s[i + j] != p[j] {
            assert(s@.subrange(i as int, i + p.len())[j as int] != p@[j as int]);
            return false;
        }
        j += 1;
    }
    assert(s@.subrange(i as int, i + p.len()) =~= p@);
    true
}

/// Character-wise equality of two strings.
pub fn str_eq(a: &str, b: &str) -> (r: bool)
    ensures
        r == (a@ == b@),
{
    let av = chars_of(a);
    let bv = chars_of(b);
    if av.len() != bv.len() {
        return false;
    }
    let r = chars_occur_at(&av, &bv, 0);
    proof {
        if r {
            assert(av@.subrange(0, bv@.len() as int) =~= av@);
        } else {
            assert(!(av@ == bv@) || av@.subrange(0, bv@.len() as int) =~= av@);
        }
    }
    r
}

/// Whether `s` starts with `p`.
pub fn str_starts_with(s: &str, p: &str) -> (r: bool)
    ensures
        r == seq_starts_with(s@, p@),
{
    let sv = chars_of(s);
    let pv = chars_of(p);
    chars_occur_at(&sv, &pv, 0)
}

/// Whether `s` ends with `p`.
pub fn str_ends_with(s: &str, p: &str) -> (r: bool)
    ensures
        r == seq_ends_with(s@, p@),
{
    let sv = chars_of(s);
    let pv = chars_of(p);
    if pv.len() > sv.len() {
        return false;
    }
    chars_occur_at(&sv, &pv, sv.len() - pv.len())
}

/// Whether `p` occurs anywhere in `s`.
pub fn str_contains(s: &str, p: &str) -> (r: bool)
    ensures
        r == seq_contains(s@, p@),
{
    let sv = chars_of(s);
    let pv = chars_of(p);
    if pv.len() > sv.len() {
        assert(forall|i: int| !occurs_at(s@, p@, i));
        return false;
    }
    let last = sv.len() - pv.len();
    let mut i: usize = 0;
    while i <= last
        invariant
            last + pv@.len() == sv@.len(),
            i <= last,
            sv@ == s@,
            pv@ == p@,
            forall|k: int| 0 <= k < i ==> !occurs_at(s@, p@, k),
        decreases last - i,
    {
        if chars_occur_at(&sv, &pv, i) {
            return true;
        }
        if i == last {
            assert(forall|k: int| !occurs_at(s@, p@, k));
            return false;
        }
        i += 1;
    }
    false
}

/// Appends one character to a string (std `String::push`).
#[verifier::external_body]
pub(crate) fn push_char(s: &mut String, c: char)
    ensures
        final(s)@ == old(s)@.push(c),
{
    s.push(c);
}

/// Appends a string slice to a string.
pub fn push_str(s: &mut String, t: &str)
    ensures
        final(s)@ == old(s)@ + t@,
{
    s.append(t);
}

/// A fresh string holding the characters of `t`.
pub fn string_of(t: &str) -> (s: String)
    ensures
        s@ == t@,
{
    let mut s = String::new();
    push_str(&mut s, t);
    assert(s@ =~= t@);
    s
}

/// The characters of `t` from position `k` on.
pub fn suffix_string(t: &str, k: usize) -> (s: String)
    requires
        k <= t@.len(),
    ensures
        s@ == t@.skip(k as int),
{
    let tv = chars_of(t);
    let mut s = String::new();
    let mut i: usize = k;
    while i < tv.len()
        invariant
            k <= i <= tv@.len(),
            tv@ == t@,
            s@ == t@.subrange(k as int, i as int),
        decreases tv@.len() - i,
    {
        push_char(&mut s, tv[i]);
        i += 1;
        assert(s@ =~= t@.subrange(k as int, i as int));
    }
    assert(s@ =~= t@.skip(k as int));
    s
}

/// A copy of an optional string.
pub fn copy_opt_string(o: &Option<String>) -> (r: Option<String>)
    ensures
        r == *o,
{
    match o {
        Some(s) => Some(s.clone()),
        None => None,
    }
}

/// The decimal digit character for `d < 10`.
pub open spec fn digit_char(d: nat) -> char {
    (d + 48) as char
}

/// Decimal digits of a natural number, most significant first.
pub open spec fn nat_text(n: nat) -> Seq<char>
    decreases n,
{
    if n < 10 {
        seq![digit_char(n)]
    } else {
        nat_text(n / 10).push(digit_char(n % 10))
    }
}

/// Decimal rendering of an integer, with a leading `-` when negative.
pub open spec fn int_text(n: int) -> Seq<char> {
    if n < 0 {
        seq!['-'] + nat_text((-n) as nat)
    } else {
        nat_text(n as nat)
    }
}

fn push_digits(s: &mut String, m: u64)
    ensures
        final(s)@ == old(s)@ + nat_text(m as nat),
    decreases m,
{
    if m >= 10 {
        push_digits(s, m / 10);
    }
    let d = (m % 10) as u8;
    let c = (d + 48) as char;
    assert(c == digit_char((m % 10) as nat));
    let ghost mid = s@;
    push_char(s, c);
    proof {
        if m >= 10 {
            assert(s@ =~= old(s)@ + nat_text(m as nat));
        } else {
            assert(s@ =~= old(s)@ + nat_text(m as nat));
        }
    }
}

/// Appends the decimal rendering of `n`.
pub fn push_int(s: &mut String, n: i64)
    ensures
        final(s)@ == old(s)@ + int_text(n as int),
{
    if n < 0 {
        push_char(s, '-');
        let m: u64 = (0i128 - n as i128) as u64;
        push_digits(s, m);
        assert(s@ =~= old(s)@ + int_text(n as int));
    } else {
        push_digits(s, n as u64);
    }
}

/// Appends the decimal rendering of an unsigned `n`.
pub fn push_uint(s: &mut String, n: u64)
    ensures
        final(s)@ == old(s)@ + nat_text(n as nat),
{
    push_digits(s, n);
}

/// The decimal rendering of `n` (`n.to_string()`).
pub fn int_to_string(n: i64) -> (s: String)
    ensures
        s@ == int_text(n as int),
{
    let mut s = String::new();
    push_int(&mut s, n);
    assert(s@ =~= int_text(n as int));
    s
}

/// ASCII decimal digit.
pub open spec fn is_digit(c: char) -> bool {
    '0' <= c && c <= '9'
}

/// Every character is an ASCII decimal digit.
pub open spec fn all_digits(s: Seq<char>) -> bool {
    forall|i: int| 0 <= i < s.len() ==> is_digit(#[trigger] s[i])
}

/// Value of a digit string.
pub open spec fn digits_value(s: Seq<char>) -> nat
    decreases s.len(),
{
    if s.len() == 0 {
        0
    } else {
        digits_value(s.drop_last()) * 10 + ((s.last() as nat) - 48) as nat
    }
}

/// The integer a decimal text denotes, with an optional leading `+` or `-`,
/// as std's integer `FromStr` reads it before the range check.
pub open spec fn decimal_value(s: Seq<char>) -> Option<int> {
    if s.len() == 0 {
        None
    } else if s[0] == '-' || s[0] == '+' {
        let rest = s.skip(1);
        if rest.len() > 0 && all_digits(rest) {
            if s[0] == '-' {
                Some(-(digits_value(rest) as int))
            } else {
                Some(digits_value(rest) as int)
            }
        } else {
            None
        }
    } else if all_digits(s) {
        Some(digits_value(s) as int)
    } else {
        None
    }
}

/// The `i64` that `s.parse::<i64>()` yields, if any.
pub open spec fn parse_i64_spec(s: Seq<char>) -> Option<i64> {
    match decimal_value(s) {
        Some(v) => if i64::MIN <= v && v <= i64::MAX {
            Some(v as i64)
        } else {
            None
        },
        None => None,
    }
}

/// The `i32` that `s.parse::<i32>()` yields, if any.
pub open spec fn parse_i32_spec(s: Seq<char>) -> Option<i32> {
    match decimal_value(s) {
        Some(v) => if i32::MIN <= v && v <= i32::MAX {
            Some(v as i32)
        } else {
            None
        },
        None => None,
    }
}

/// The cap on accumulated digit values (2^64).
pub open spec fn digit_cap() -> int {
    0x1_0000_0000_0000_0000
}

proof fn lemma_digits_cap(a: nat, d: nat)
    requires
        a >= digit_cap(),
        d < 10,
    ensures
        a * 10 + d >= digit_cap(),
{
    assert(a * 10 >= a) by (nonlinear_arith)
        requires
            a >= 0,
    ;
}

/// Value of the digits `v[from..]`, capped at 2^64; `None` when empty or
/// when a non-digit occurs.
fn capped_digits(v: &Vec<char>, from: usize) -> (r: Option<u128>)
    requires
        from <= v.len(),
    ensures
        r is Some <==> (v@.skip(from as int).len() > 0 && all_digits(v@.skip(from as int))),
        r matches Some(x) ==> (x as int == if digits_value(v@.skip(from as int)) < digit_cap() {
            digits_value(v@.skip(from as int)) as int
        } else {
            digit_cap()
        }),
{
    if from == v.len() {
        return None;
    }
    let cap: u128 = 0x1_0000_0000_0000_0000;
    let mut acc: u128 = 0;
    let mut i: usize = from;
    while i < v.len()
        invariant
            from < v.len(),
            from <= i <= v.len(),
            all_digits(v@.subrange(from as int, i as int)),
            cap == digit_cap(),
            acc as int == if digits_value(v@.subrange(from as int, i as int)) < digit_cap() {
                digits_value(v@.subrange(from as int, i as int)) as int
            } else {
                digit_cap()
            },
        decreases v.len() - i,
    {
        let c = v[i];
        if c < '0' || c > '9' {
            assert(v@.skip(from as int)[i - from] == c);
            return None;
        }
        let d = (c as u32 - 48) as u128;
        let ghost prev = v@.subrange(from as int, i as int);
        let ghost next = v@.subrange(from as int, i + 1);
        assert(next.drop_last() =~= prev);
        assert(next.last() == c);
        assert(digits_value(next) == digits_value(prev) * 10 + d);
        if acc >= cap {
            proof {
                lemma_digits_cap(digits_value(prev), d as nat);
            }
            acc = cap;
        } else {
            let t = acc * 10 + d;
            if t >= cap {
                acc = cap;
            } else {
                acc = t;
            }
        }
        i += 1;
        assert(all_digits(v@.subrange(from as int, i as int))) by {
            assert forall|k: int| 0 <= k < next.len() implies is_digit(#[trigger] next[k]) by {
                if k < prev.len() {
                    assert(next[k] == prev[k]);
                }
            }
        }
    }
    assert(v@.subrange(from as int, v@.len() as int) =~= v@.skip(from as int));
    Some(acc)
}

/// The value of a decimal text if it lies in `[lo, hi]`.
fn parse_in_range(s: &str, lo: i128, hi: i128) -> (r: Option<i128>)
    requires
        -digit_cap() < lo <= hi < digit_cap(),
    ensures
        r == (match decimal_value(s@) {
            Some(v) => if lo <= v && v <= hi {
                Some(v as i128)
            } else {
                None
            },
            None => None,
        }),
{
    let v = chars_of(s);
    if v.len() == 0 {
        return None;
    }
    let first = v[0];
    let signed = first == '-' || first == '+';
    let from: usize = if signed { 1 } else { 0 };
    assert(from == 0 ==> v@.skip(0) =~= v@);
    match capped_digits(&v, from) {
        None => None,
        Some(m) => {
            let value: i128 = if first == '-' { 0 - (m as i128) } else { m as i128 };
            if lo <= value && value <= hi {
                Some(value)
            } else {
                None
            }
        },
    }
}

/// `s.parse::<i64>().ok()`.
pub fn parse_i64(s: &str) -> (r: Option<i64>)
    ensures
        r == parse_i64_spec(s@),
{
    match parse_in_range(s, i64::MIN as i128, i64::MAX as i128) {
        Some(x) => Some(x as i64),
        None => None,
    }
}

/// `s.parse::<i32>().ok()`.
pub fn parse_i32(s: &str) -> (r: Option<i32>)
    ensures
        r == parse_i32_spec(s@),
{
    match parse_in_range(s, i32::MIN as i128, i32::MAX as i128) {
        Some(x) => Some(x as i32),
        None => None,
    }
}

} // verus!
