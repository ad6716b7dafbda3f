//! Stable insertion sorts used by the views: by an integer key, and
//! lexicographically by text.

use vstd::prelude::*;
use vstd::multiset::Multiset;
use crate::text::chars_of;

verus! {

broadcast use vstd::seq_lib::group_to_multiset_ensures;

/// `s` is ordered by `key`.
pub open spec fn sorted_by<T>(s: Seq<T>, key: spec_fn(T) -> int) -> bool {
    forall|i: int, j: int| 0 <= i < j < s.len() ==> key(s[i]) <= key(s[j])
}

proof fn lemma_insert_multiset<T>(s: Seq<T>, i: int, x: T)
    requires
        0 <= i <= s.len(),
    ensures
        s.insert(i, x).to_multiset() == s.to_multiset().insert(x),
{
    let t = s.insert(i, x);
    assert(t.remove(i) =~= s);
    assert(t[i] == x);
    assert(t.remove(i).to_multiset() =~= t.to_multiset().remove(x));
    assert(t.to_multiset().count(x) > 0);
    assert(t.to_multiset() =~= t.to_multiset().remove(x).insert(x));
}

proof fn lemma_front_multiset<T>(s: Seq<T>)
    requires
        s.len() > 0,
    ensures
        s.to_multiset() == s.remove(0).to_multiset().insert(s[0]),
{
    assert(s.remove(0).to_multiset() =~= s.to_multiset().remove(s[0]));
    assert(s.to_multiset().count(s[0]) > 0);
    assert(s.to_multiset() =~= s.to_multiset().remove(s[0]).insert(s[0]));
}

/// `x` inserted into `t` after every element whose key is at most its own.
pub open spec fn insert_by<T>(t: Seq<T>, x: T, key: spec_fn(T) -> int) -> Seq<T>
    decreases t.len(),
{
    if t.len() == 0 {
        seq![x]
    } else if key(t[0]) > key(x) {
        seq![x] + t
    } else {
        seq![t[0]] + insert_by(t.drop_first(), x, key)
    }
}

/// The stable insertion sort of `s` by `key`: each element in turn
/// inserted after the elements with keys at most its own.
pub open spec fn stable_sort_by<T>(s: Seq<T>, key: spec_fn(T) -> int) -> Seq<T>
    decreases s.len(),
{
    if s.len() == 0 {
        Seq::empty()
    } else {
        insert_by(stable_sort_by(s.drop_last(), key), s.last(), key)
    }
}

proof fn lemma_insert_by_at<T>(t: Seq<T>, x: T, key: spec_fn(T) -> int, p: int)
    requires
        0 <= p <= t.len(),
        forall|i: int| 0 <= i < p ==> key(#[trigger] t[i]) <= key(x),
        p == t.len() || key(t[p]) > key(x),
    ensures
        insert_by(t, x, key) == t.insert(p, x),
    decreases p,
{
    if t.len() == 0 {
        assert(t.insert(p, x) =~= seq![x]);
    } else if p == 0 {
        assert(t.insert(0, x) =~= seq![x] + t);
    } else {
        assert forall|i: int| 0 <= i < p - 1 implies key(#[trigger] t.drop_first()[i]) <= key(x) by {
            assert(t.drop_first()[i] == t[i + 1]);
        }
        if p < t.len() {
            assert(t.drop_first()[p - 1] == t[p]);
        }
        lemma_insert_by_at(t.drop_first(), x, key, p - 1);
        assert(t.insert(p, x) =~= seq![t[0]] + t.drop_first().insert(p - 1, x));
    }
}

/// Sorts `v` by the key `f` computes (ascending); elements with equal keys
/// keep their relative order.
pub fn sort_by_key<T, F: Fn(&T) -> i128>(v: Vec<T>, Ghost(key): Ghost<spec_fn(T) -> int>, f: F) -> (r:
    Vec<T>)
    requires
        forall|x: &T| #[trigger] f.requires((x,)),
        forall|x: &T, k: i128| #[trigger] f.ensures((x,), k) ==> k == key(*x),
    ensures
        r@.len() == v@.len(),
        r@.to_multiset() == v@.to_multiset(),
        sorted_by(r@, key),
        r@ == stable_sort_by(v@, key),
{
    let ghost v0 = v@;
    let mut rest = v;
    let mut out: Vec<T> = Vec::new();
    let mut done: usize = 0;
    let _n = rest.len();
    assert(v0.take(0) =~= Seq::<T>::empty());
    while rest.len() > 0
        invariant
            forall|x: &T| #[trigger] f.requires((x,)),
            forall|x: &T, k: i128| #[trigger] f.ensures((x,), k) ==> k == key(*x),
            out@.to_multiset().add(rest@.to_multiset()) == v@.to_multiset(),
            out@.len() + rest@.len() == v@.len(),
            sorted_by(out@, key),
            v0 == v@,
            done + rest@.len() == v0.len(),
            v0.len() <= usize::MAX,
            rest@ == v0.skip(done as int),
            out@ == stable_sort_by(v0.take(done as int), key),
        decreases rest@.len(),
    {
        proof {
            lemma_front_multiset(rest@);
        }
        let ghost old_rest = rest@;
        let x = rest.remove(0);
        let kx = f(&x);
        let mut p: usize = 0;
        while p < out.len()
            invariant
                forall|x: &T| #[trigger] f.requires((x,)),
                forall|x: &T, k: i128| #[trigger] f.ensures((x,), k) ==> k == key(*x),
                p <= out@.len(),
                kx == key(x),
                forall|i: int| 0 <= i < p ==> key(#[trigger] out@[i]) <= kx,
            ensures
                p <= out@.len(),
                forall|i: int| 0 <= i < p ==> key(#[trigger] out@[i]) <= kx,
                p == out@.len() || key(out@[p as int]) > kx,
            decreases out@.len() - p,
        {
            let kp = f(&out[p]);
            if kp > kx {
                break;
            }
            p += 1;
        }
        let ghost before = out@;
        proof {
            lemma_insert_multiset(before, p as int, x);
        }
        out.insert(p, x);
        assert(out@ =~= before.insert(p as int, x));
        proof {
            assert(x == v0[done as int]);
            assert(v0.take(done + 1).drop_last() =~= v0.take(done as int));
            assert(v0.take(done + 1).last() == x);
            lemma_insert_by_at(before, x, key, p as int);
            assert(v0.skip(done + 1) =~= rest@);
        }
        done += 1;
        assert(sorted_by(out@, key)) by {
            assert forall|i: int, j: int| 0 <= i < j < out@.len() implies key(out@[i]) <= key(
                out@[j],
            ) by {
                if j < p {
                } else if j == p {
                } else if i < p {
                    assert(out@[j] == before[j - 1]);
                    assert(key(out@[i]) <= kx);
                    assert(key(before[j - 1]) >= key(before[p as int]));
                } else if i == p {
                    assert(out@[j] == before[j - 1]);
                    assert(key(before[j - 1]) >= key(before[p as int]));
                } else {
                    assert(out@[i] == before[i - 1]);
                    assert(out@[j] == before[j - 1]);
                }
            }
        }
        assert(out@.to_multiset().add(rest@.to_multiset()) =~= v@.to_multiset());
    }
    assert(rest@.to_multiset() =~= Multiset::empty());
    assert(out@.to_multiset().add(rest@.to_multiset()) =~= out@.to_multiset());
    assert(v0.take(v0.len() as int) =~= v0);
    out
}

/// `a` comes no later than `b` in lexicographic order of code points (the
/// order of `str`'s `Ord`).
pub open spec fn lex_le(a: Seq<char>, b: Seq<char>) -> bool
    decreases a.len(),
{
    if a.len() == 0 {
        true
    } else if b.len() == 0 {
        false
    } else if a[0] != b[0] {
        (a[0] as int) < (b[0] as int)
    } else {
        lex_le(a.drop_first(), b.drop_first())
    }
}

pub proof fn lemma_lex_total(a: Seq<char>, b: Seq<char>)
    ensures
        lex_le(a, b) || lex_le(b, a),
    decreases a.len(),
{
    if a.len() > 0 && b.len() > 0 {
        if a[0] == b[0] {
            lemma_lex_total(a.drop_first(), b.drop_first());
        }
    }
}

pub proof fn lemma_lex_refl(a: Seq<char>)
    ensures
        lex_le(a, a),
    decreases a.len(),
{
    if a.len() > 0 {
        lemma_lex_refl(a.drop_first());
    }
}

pub proof fn lemma_lex_antisym(a: Seq<char>, b: Seq<char>)
    requires
        lex_le(a, b),
        lex_le(b, a),
    ensures
        a == b,
    decreases a.len(),
{
    if a.len() == 0 {
        assert(b.len() == 0);
        assert(a =~= b);
    } else {
        assert(b.len() > 0);
        assert(a[0] == b[0]);
        lemma_lex_antisym(a.drop_first(), b.drop_first());
        assert(a =~= seq![a[0]] + a.drop_first());
        assert(b =~= seq![b[0]] + b.drop_first());
    }
}

pub proof fn lemma_lex_trans(a: Seq<char>, b: Seq<char>, c: Seq<char>)
    requires
        lex_le(a, b),
        lex_le(b, c),
    ensures
        lex_le(a, c),
    decreases a.len(),
{
    if a.len() > 0 && b.len() > 0 && c.len() > 0 && a[0] == b[0] && b[0] == c[0] {
        lemma_lex_trans(a.drop_first(), b.drop_first(), c.drop_first());
    }
}

proof fn lemma_lex_skip(a: Seq<char>, b: Seq<char>, i: int)
    requires
        0 <= i <= a.len(),
        i <= b.len(),
        a.subrange(0, i) == b.subrange(0, i),
    ensures
        lex_le(a, b) == lex_le(a.skip(i), b.skip(i)),
    decreases i,
{
    if i > 0 {
        assert(a[0] == a.subrange(0, i)[0]);
        assert(b[0] == b.subrange(0, i)[0]);
        assert(a.drop_first().subrange(0, i - 1) =~= a.subrange(0, i).drop_first());
        assert(b.drop_first().subrange(0, i - 1) =~= b.subrange(0, i).drop_first());
        lemma_lex_skip(a.drop_first(), b.drop_first(), i - 1);
        assert(a.drop_first().skip(i - 1) =~= a.skip(i));
        assert(b.drop_first().skip(i - 1) =~= b.skip(i));
    } else {
        assert(a.skip(0) =~= a);
        assert(b.skip(0) =~= b);
    }
}

/// Three-way comparison of two texts: negative, zero or positive as `a` comes
/// before, equals, or comes after `b`.
pub fn compare_text(a: &str, b: &str) -> (r: i8)
    ensures
        r == 0 <==> a@ == b@,
        r <= 0 <==> lex_le(a@, b@),
        r >= 0 <==> lex_le(b@, a@),
{
    let av = chars_of(a);
    let bv = chars_of(b);
    let mut i: usize = 0;
    while i < av.len() && i < bv.len() && av[i] == bv[i]
        invariant
            i <= av@.len(),
            i <= bv@.len(),
            av@ == a@,
            bv@ == b@,
            av@.subrange(0, i as int) == bv@.subrange(0, i as int),
        decreases av@.len() - i,
    {
        assert(av@.subrange(0, i + 1) =~= av@.subrange(0, i as int).push(av@[i as int]));
        assert(bv@.subrange(0, i + 1) =~= bv@.subrange(0, i as int).push(bv@[i as int]));
        i += 1;
    }
    proof {
        lemma_lex_skip(a@, b@, i as int);
        lemma_lex_skip(b@, a@, i as int);
        lemma_lex_total(a@, b@);
        if lex_le(a@, b@) && lex_le(b@, a@) {
            lemma_lex_antisym(a@, b@);
        }
    }
    let r: i8 = if i == av.len() && i == bv.len() {
        0
    } else if i == av.len() {
        -1
    } else if i == bv.len() {
        1
    } else if av[i] < bv[i] {
        -1
    } else {
        1
    };
    proof {
        if i == av.len() && i == bv.len() {
            assert(a@ =~= av@.subrange(0, i as int));
            assert(b@ =~= bv@.subrange(0, i as int));
        }
        if r != 0 && a@ == b@ {
            assert(lex_le(a@, b@) && lex_le(b@, a@));
        }
    }
    r
}

/// Sort keys: a rank, then two texts, compared in that order.
pub struct SortKey {
    pub rank: int,
    pub first: Seq<char>,
    pub second: Seq<char>,
}

/// `a` sorts no later than `b`.
pub open spec fn key_le(a: SortKey, b: SortKey) -> bool {
    ||| a.rank < b.rank
    ||| a.rank == b.rank && !lex_le(b.first, a.first)
    ||| a.rank == b.rank && a.first == b.first && lex_le(a.second, b.second)
}

pub proof fn lemma_key_le_total(a: SortKey, b: SortKey)
    ensures
        key_le(a, b) || key_le(b, a),
{
    lemma_lex_total(a.first, b.first);
    lemma_lex_total(a.second, b.second);
    if lex_le(a.first, b.first) && lex_le(b.first, a.first) {
        lemma_lex_antisym(a.first, b.first);
    }
}

pub proof fn lemma_key_le_trans(a: SortKey, b: SortKey, c: SortKey)
    requires
        key_le(a, b),
        key_le(b, c),
    ensures
        key_le(a, c),
{
    lemma_lex_total(a.first, b.first);
    lemma_lex_total(b.first, c.first);
    lemma_lex_total(a.first, c.first);
    if a.rank == b.rank && b.rank == c.rank {
        if !lex_le(c.first, a.first) {
        } else if a.first == b.first && b.first == c.first {
            lemma_lex_trans(a.second, b.second, c.second);
        } else {
            if !lex_le(b.first, a.first) {
                if lex_le(c.first, b.first) {
                    lemma_lex_trans(c.first, b.first, a.first);
                    if lex_le(b.first, c.first) {
                        lemma_lex_antisym(b.first, c.first);
                    }
                }
                lemma_lex_trans(c.first, a.first, b.first);
                if lex_le(a.first, c.first) {
                    lemma_lex_antisym(a.first, c.first);
                }
            } else {
                lemma_lex_trans(c.first, b.first, a.first);
                if lex_le(b.first, c.first) {
                    lemma_lex_antisym(b.first, c.first);
                }
                lemma_lex_trans(b.first, a.first, c.first);
                if lex_le(a.first, c.first) {
                    lemma_lex_antisym(a.first, c.first);
                }
            }
        }
    }
}

/// `s` is ordered by `key` under [`key_le`].
pub open spec fn sorted_by_key_le<T>(s: Seq<T>, key: spec_fn(T) -> SortKey) -> bool {
    forall|i: int, j: int| 0 <= i < j < s.len() ==> key_le(#[trigger] key(s[i]), #[trigger] key(s[j]))
}

/// `x` inserted into `t` after every element that sorts no later than it.
pub open spec fn insert_by_key<T>(t: Seq<T>, x: T, key: spec_fn(T) -> SortKey) -> Seq<T>
    decreases t.len(),
{
    if t.len() == 0 {
        seq![x]
    } else if !key_le(key(t[0]), key(x)) {
        seq![x] + t
    } else {
        seq![t[0]] + insert_by_key(t.drop_first(), x, key)
    }
}

/// The stable insertion sort of `s` under [`key_le`].
pub open spec fn stable_sort_by_key<T>(s: Seq<T>, key: spec_fn(T) -> SortKey) -> Seq<T>
    decreases s.len(),
{
    if s.len() == 0 {
        Seq::empty()
    } else {
        insert_by_key(stable_sort_by_key(s.drop_last(), key), s.last(), key)
    }
}

proof fn lemma_insert_by_key_at<T>(t: Seq<T>, x: T, key: spec_fn(T) -> SortKey, p: int)
    requires
        0 <= p <= t.len(),
        forall|i: int| 0 <= i < p ==> key_le(#[trigger] key(t[i]), key(x)),
        p == t.len() || !key_le(key(t[p]), key(x)),
    ensures
        insert_by_key(t, x, key) == t.insert(p, x),
    decreases p,
{
    if t.len() == 0 {
        assert(t.insert(p, x) =~= seq![x]);
    } else if p == 0 {
        assert(t.insert(0, x) =~= seq![x] + t);
    } else {
        assert forall|i: int| 0 <= i < p - 1 implies key_le(#[trigger] key(t.drop_first()[i]), key(x)) by {
            assert(t.drop_first()[i] == t[i + 1]);
        }
        if p < t.len() {
            assert(t.drop_first()[p - 1] == t[p]);
        }
        assert(key_le(key(t[0]), key(x)));
        lemma_insert_by_key_at(t.drop_first(), x, key, p - 1);
        assert(t.insert(p, x) =~= seq![t[0]] + t.drop_first().insert(p - 1, x));
    }
}

/// Sorts `v` by the sort key that `le` compares (`le(a, b)` holds when `a`
/// sorts no later than `b`); elements with equal keys keep their relative order.
pub fn sort_by_sort_key<T, F: Fn(&T, &T) -> bool>(v: Vec<T>, Ghost(key): Ghost<spec_fn(T) -> SortKey>, le: F) -> (r: Vec<T>)
    requires
        forall|x: &T, y: &T| #[trigger] le.requires((x, y)),
        forall|x: &T, y: &T, b: bool| #[trigger] le.ensures((x, y), b) ==> b == key_le(key(*x), key(*y)),
    ensures
        r@.len() == v@.len(),
        r@.to_multiset() == v@.to_multiset(),
        sorted_by_key_le(r@, key),
        r@ == stable_sort_by_key(v@, key),
{
    let ghost v0 = v@;
    let mut rest = v;
    let mut out: Vec<T> = Vec::new();
    let mut done: usize = 0;
    let _n = rest.len();
    assert(v0.take(0) =~= Seq::<T>::empty());
    while rest.len() > 0
        invariant
            forall|x: &T, y: &T| #[trigger] le.requires((x, y)),
            forall|x: &T, y: &T, b: bool| #[trigger] le.ensures((x, y), b) ==> b == key_le(key(*x), key(*y)),
            out@.to_multiset().add(rest@.to_multiset()) == v@.to_multiset(),
            out@.len() + rest@.len() == v@.len(),
            sorted_by_key_le(out@, key),
            v0 == v@,
            done + rest@.len() == v0.len(),
            v0.len() <= usize::MAX,
            rest@ == v0.skip(done as int),
            out@ == stable_sort_by_key(v0.take(done as int), key),
        decreases rest@.len(),
    {
        proof {
            lemma_front_multiset(rest@);
        }
        let x = rest.remove(0);
        let mut p: usize = 0;
        while p < out.len()
            invariant
                forall|x: &T, y: &T| #[trigger] le.requires((x, y)),
                forall|x: &T, y: &T, b: bool| #[trigger] le.ensures((x, y), b) ==> b == key_le(key(*x), key(*y)),
                p <= out@.len(),
                forall|i: int| 0 <= i < p ==> key_le(#[trigger] key(out@[i]), key(x)),
            ensures
                p <= out@.len(),
                forall|i: int| 0 <= i < p ==> key_le(#[trigger] key(out@[i]), key(x)),
                p == out@.len() || !key_le(key(out@[p as int]), key(x)),
            decreases out@.len() - p,
        {
            if !le(&out[p], &x) {
                break;
            }
            p += 1;
        }
        let ghost before = out@;
        proof {
            lemma_insert_multiset(before, p as int, x);
            if p < before.len() {
                lemma_key_le_total(key(before[p as int]), key(x));
            }
        }
        out.insert(p, x);
        assert(out@ =~= before.insert(p as int, x));
        proof {
            assert(x == v0[done as int]);
            assert(v0.take(done + 1).drop_last() =~= v0.take(done as int));
            assert(v0.take(done + 1).last() == x);
            lemma_insert_by_key_at(before, x, key, p as int);
            assert(v0.skip(done + 1) =~= rest@);
        }
        done += 1;
        assert(sorted_by_key_le(out@, key)) by {
            assert forall|i: int, j: int| 0 <= i < j < out@.len() implies key_le(#[trigger] key(out@[i]), #[trigger] key(out@[j])) by {
                if j < p {
                    assert(out@[i] == before[i]);
                    assert(out@[j] == before[j]);
                } else if j == p {
                    assert(out@[i] == before[i]);
                } else if i < p {
                    assert(out@[i] == before[i]);
                    assert(out@[j] == before[j - 1]);
                    if j - 1 > p {
                        assert(key_le(key(before[p as int]), key(before[j - 1])));
                    } else {
                        lemma_lex_refl(key(before[p as int]).second);
                    }
                    lemma_key_le_trans(key(x), key(before[p as int]), key(before[j - 1]));
                    lemma_key_le_trans(key(before[i]), key(x), key(before[j - 1]));
                } else if i == p {
                    assert(out@[j] == before[j - 1]);
                    if j - 1 > p {
                        assert(key_le(key(before[p as int]), key(before[j - 1])));
                        lemma_key_le_trans(key(x), key(before[p as int]), key(before[j - 1]));
                    }
                } else {
                    assert(out@[i] == before[i - 1]);
                    assert(out@[j] == before[j - 1]);
                }
            }
        }
        assert(out@.to_multiset().add(rest@.to_multiset()) =~= v@.to_multiset());
    }
    assert(rest@.to_multiset() =~= Multiset::empty());
    assert(out@.to_multiset().add(rest@.to_multiset()) =~= out@.to_multiset());
    assert(v0.take(v0.len() as int) =~= v0);
    out
}

/// `s` is strictly increasing under [`key_le`]: sorted, with no key twice.
pub open spec fn strictly_sorted_keys<T>(s: Seq<T>, key: spec_fn(T) -> SortKey) -> bool {
    forall|i: int, j: int|
        0 <= i < j < s.len() ==> key_le(#[trigger] key(s[i]), #[trigger] key(s[j])) && key(s[i]) != key(s[j])
}

/// The keys of `a` are the keys of `b`.
pub open spec fn same_keys<T>(a: Seq<T>, b: Seq<T>, key: spec_fn(T) -> SortKey) -> bool {
    &&& forall|i: int| 0 <= i < a.len() ==> exists|j: int| 0 <= j < b.len() && key(#[trigger] a[i]) == key(b[j])
    &&& forall|j: int| 0 <= j < b.len() ==> exists|i: int| 0 <= i < a.len() && key(a[i]) == key(#[trigger] b[j])
}

/// The first of each run of equal keys.
pub open spec fn dedup_runs<T>(s: Seq<T>, key: spec_fn(T) -> SortKey) -> Seq<T>
    decreases s.len(),
{
    if s.len() == 0 {
        Seq::empty()
    } else {
        let d = dedup_runs(s.drop_last(), key);
        if d.len() > 0 && key(d.last()) == key(s.last()) {
            d
        } else {
            d.push(s.last())
        }
    }
}

proof fn lemma_dedup_last<T>(s: Seq<T>, key: spec_fn(T) -> SortKey)
    requires
        s.len() > 0,
    ensures
        dedup_runs(s, key).len() > 0,
        key(dedup_runs(s, key).last()) == key(s.last()),
{
}

pub proof fn lemma_dedup_sorted<T>(s: Seq<T>, key: spec_fn(T) -> SortKey)
    requires
        sorted_by_key_le(s, key),
    ensures
        strictly_sorted_keys(dedup_runs(s, key), key),
    decreases s.len(),
{
    if s.len() > 0 {
        let p = s.drop_last();
        assert(sorted_by_key_le(p, key)) by {
            assert forall|i: int, j: int| 0 <= i < j < p.len() implies key_le(#[trigger] key(p[i]), #[trigger] key(p[j])) by {
                assert(p[i] == s[i] && p[j] == s[j]);
            }
        }
        lemma_dedup_sorted(p, key);
        let d = dedup_runs(p, key);
        let x = s.last();
        if !(d.len() > 0 && key(d.last()) == key(x)) {
            let e = d.push(x);
            if d.len() > 0 {
                lemma_dedup_last(p, key);
                assert(key_le(key(s[s.len() - 2]), key(s[s.len() - 1])));
                assert(key(d.last()) == key(p.last()));
            }
            assert forall|i: int, j: int| 0 <= i < j < e.len() implies key_le(#[trigger] key(e[i]), #[trigger] key(e[j]))
                && key(e[i]) != key(e[j]) by {
                if j == e.len() - 1 {
                    let l = d.len() - 1;
                    assert(e[i] == d[i]);
                    assert(e[j] == x);
                    if i < l {
                        assert(key_le(key(d[i]), key(d[l])) && key(d[i]) != key(d[l]));
                        lemma_key_le_trans(key(d[i]), key(d[l]), key(x));
                        if key(d[i]) == key(x) {
                            lemma_key_le_antisym(key(d[l]), key(x));
                        }
                    }
                } else {
                    assert(e[i] == d[i] && e[j] == d[j]);
                }
            }
        }
    }
}

proof fn lemma_dedup_from<T>(s: Seq<T>, key: spec_fn(T) -> SortKey, i: int)
    requires
        0 <= i < dedup_runs(s, key).len(),
    ensures
        exists|j: int| 0 <= j < s.len() && key(dedup_runs(s, key)[i]) == key(#[trigger] s[j]),
    decreases s.len(),
{
    let p = s.drop_last();
    let d = dedup_runs(p, key);
    if i < d.len() {
        lemma_dedup_from(p, key, i);
        let j = choose|j: int| 0 <= j < p.len() && key(d[i]) == key(#[trigger] p[j]);
        assert(s[j] == p[j]);
    } else {
        assert(s[s.len() - 1] == s.last());
    }
}

proof fn lemma_dedup_covers<T>(s: Seq<T>, key: spec_fn(T) -> SortKey, j: int)
    requires
        0 <= j < s.len(),
    ensures
        exists|i: int| 0 <= i < dedup_runs(s, key).len() && key(#[trigger] dedup_runs(s, key)[i]) == key(s[j]),
    decreases s.len(),
{
    let p = s.drop_last();
    let d = dedup_runs(p, key);
    let e = dedup_runs(s, key);
    if j < p.len() {
        lemma_dedup_covers(p, key, j);
        let i = choose|i: int| 0 <= i < d.len() && key(#[trigger] d[i]) == key(p[j]);
        assert(e[i] == d[i]);
        assert(s[j] == p[j]);
    } else if d.len() > 0 && key(d.last()) == key(s.last()) {
        assert(e[d.len() - 1] == d.last());
    } else {
        assert(e[d.len() as int] == s.last());
    }
}

pub proof fn lemma_dedup_keys<T>(s: Seq<T>, key: spec_fn(T) -> SortKey)
    ensures
        same_keys(dedup_runs(s, key), s, key),
{
    let e = dedup_runs(s, key);
    assert forall|i: int| 0 <= i < e.len() implies exists|j: int| 0 <= j < s.len() && key(#[trigger] e[i]) == key(s[j]) by {
        lemma_dedup_from(s, key, i);
    }
    assert forall|j: int| 0 <= j < s.len() implies exists|i: int| 0 <= i < e.len() && key(e[i]) == key(#[trigger] s[j]) by {
        lemma_dedup_covers(s, key, j);
    }
}

/// Keeps the first of each run of equal keys in a sorted sequence: the
/// result is strictly increasing and has the same keys.
pub fn dedup_sorted<T, F: Fn(&T, &T) -> bool>(v: Vec<T>, Ghost(key): Ghost<spec_fn(T) -> SortKey>, same: F) -> (r: Vec<T>)
    requires
        sorted_by_key_le(v@, key),
        forall|x: &T, y: &T| #[trigger] same.requires((x, y)),
        forall|x: &T, y: &T, b: bool| #[trigger] same.ensures((x, y), b) ==> b == (key(*x) == key(*y)),
    ensures
        r@ == dedup_runs(v@, key),
{
    let ghost v0 = v@;
    let mut rest = v;
    let mut out: Vec<T> = Vec::new();
    let mut done: usize = 0;
    let _n = rest.len();
    while rest.len() > 0
        invariant
            forall|x: &T, y: &T| #[trigger] same.requires((x, y)),
            forall|x: &T, y: &T, b: bool| #[trigger] same.ensures((x, y), b) ==> b == (key(*x) == key(*y)),
            done + rest@.len() == v0.len(),
            v0.len() <= usize::MAX,
            rest@ == v0.subrange(done as int, v0.len() as int),
            out@ == dedup_runs(v0.subrange(0, done as int), key),
        decreases rest@.len(),
    {
        let x = rest.remove(0);
        proof {
            let pre = v0.subrange(0, done + 1);
            assert(pre.drop_last() =~= v0.subrange(0, done as int));
            assert(pre.last() == x);
        }
        let keep = if out.len() == 0 {
            true
        } else {
            let l = out.len() - 1;
            !same(&out[l], &x)
        };
        if keep {
            out.push(x);
        }
        done += 1;
        assert(rest@ =~= v0.subrange(done as int, v0.len() as int));
    }
    assert(v0.subrange(0, v0.len() as int) =~= v0);
    out
}

pub proof fn lemma_key_le_antisym(a: SortKey, b: SortKey)
    requires
        key_le(a, b),
        key_le(b, a),
    ensures
        a == b,
{
    lemma_lex_total(a.first, b.first);
    if lex_le(a.first, b.first) && lex_le(b.first, a.first) {
        lemma_lex_antisym(a.first, b.first);
    }
    if a.first == b.first {
        if lex_le(a.second, b.second) && lex_le(b.second, a.second) {
            lemma_lex_antisym(a.second, b.second);
        }
    }
}

/// Two texts, ordered by the first and then the second.
pub struct TextPair {
    pub first: String,
    pub second: String,
}

/// The sort key of a text alone.
pub open spec fn text_key(t: Seq<char>) -> SortKey {
    SortKey { rank: 0, first: t, second: Seq::empty() }
}

/// The sort key of a pair of texts, the first compared first.
pub open spec fn pair_key(a: Seq<char>, b: Seq<char>) -> SortKey {
    SortKey { rank: 0, first: a, second: b }
}

pub proof fn lemma_text_key_le(a: Seq<char>, b: Seq<char>)
    ensures
        key_le(text_key(a), text_key(b)) == lex_le(a, b),
{
    lemma_lex_total(a, b);
    lemma_lex_refl(a);
    lemma_lex_refl(Seq::<char>::empty());
    if lex_le(a, b) && lex_le(b, a) {
        lemma_lex_antisym(a, b);
    }
}

/// Whether `a` sorts no later than `b` as texts.
pub fn text_le(a: &String, b: &String) -> (r: bool)
    ensures
        r == key_le(text_key(a@), text_key(b@)),
{
    proof {
        lemma_text_key_le(a@, b@);
    }
    compare_text(a.as_str(), b.as_str()) <= 0
}

/// Whether the pair `a` sorts no later than the pair `b`.
pub fn pair_le(a: &TextPair, b: &TextPair) -> (r: bool)
    ensures
        r == key_le(pair_key(a.first@, a.second@), pair_key(b.first@, b.second@)),
{
    let c = compare_text(a.first.as_str(), b.first.as_str());
    c < 0 || (c == 0 && compare_text(a.second.as_str(), b.second.as_str()) <= 0)
}

proof fn lemma_distinct_from<T>(v: Seq<T>, sorted: Seq<T>, r: Seq<T>, key: spec_fn(T) -> SortKey)
    requires
        sorted.to_multiset() == v.to_multiset(),
        r == dedup_runs(sorted, key),
    ensures
        forall|i: int| 0 <= i < r.len() ==> exists|j: int| 0 <= j < v.len() && key(#[trigger] r[i]) == key(v[j]),
        forall|j: int| 0 <= j < v.len() ==> exists|i: int| 0 <= i < r.len() && key(r[i]) == key(#[trigger] v[j]),
{
    lemma_dedup_keys(sorted, key);
    assert forall|i: int| 0 <= i < r.len() implies exists|j: int| 0 <= j < v.len() && key(#[trigger] r[i]) == key(v[j]) by {
        let k = choose|k: int| 0 <= k < sorted.len() && key(r[i]) == key(sorted[k]);
        assert(sorted.to_multiset().count(sorted[k]) > 0);
        assert(v.contains(sorted[k]));
        let j = choose|j: int| 0 <= j < v.len() && v[j] == sorted[k];
    }
    assert forall|j: int| 0 <= j < v.len() implies exists|i: int| 0 <= i < r.len() && key(r[i]) == key(#[trigger] v[j]) by {
        assert(v.to_multiset().count(v[j]) > 0);
        assert(sorted.contains(v[j]));
        let k = choose|k: int| 0 <= k < sorted.len() && sorted[k] == v[j];
        let i = choose|i: int| 0 <= i < r.len() && key(r[i]) == key(#[trigger] sorted[k]);
    }
}

pub open spec fn string_key(s: String) -> SortKey {
    text_key(s@)
}

pub open spec fn string_pair_key(p: TextPair) -> SortKey {
    pair_key(p.first@, p.second@)
}

#[verifier::spinoff_prover]
proof fn lemma_distinct_texts(v: Seq<String>, sorted: Seq<String>, r: Seq<String>, key: spec_fn(String) -> SortKey)
    requires
        forall|s: String| #[trigger] key(s) == string_key(s),
        sorted.to_multiset() == v.to_multiset(),
        sorted_by_key_le(sorted, key),
        r == dedup_runs(sorted, key),
    ensures
        forall|i: int, j: int| 0 <= i < j < r.len() ==> lex_le(#[trigger] r[i]@, #[trigger] r[j]@) && r[i]@ != r[j]@,
        forall|i: int| 0 <= i < r.len() ==> exists|j: int| 0 <= j < v.len() && (#[trigger] r[i])@ == v[j]@,
        forall|j: int| 0 <= j < v.len() ==> exists|i: int| 0 <= i < r.len() && r[i]@ == (#[trigger] v[j])@,
{
    assert forall|i: int, j: int| 0 <= i < j < r.len() implies lex_le(#[trigger] r[i]@, #[trigger] r[j]@) && r[i]@ != r[j]@ by {
        lemma_dedup_sorted(sorted, key);
        assert(key_le(key(r[i]), key(r[j])) && key(r[i]) != key(r[j]));
        lemma_text_key_le(r[i]@, r[j]@);
    }
    assert forall|i: int| 0 <= i < r.len() implies exists|j: int| 0 <= j < v.len() && (#[trigger] r[i])@ == v[j]@ by {
        lemma_distinct_from(v, sorted, r, key);
        let j = choose|j: int| 0 <= j < v.len() && key(r[i]) == key(v[j]);
        assert(text_key(r[i]@) == text_key(v[j]@));
    }
    assert forall|j: int| 0 <= j < v.len() implies exists|i: int| 0 <= i < r.len() && r[i]@ == (#[trigger] v[j])@ by {
        lemma_distinct_from(v, sorted, r, key);
        let i = choose|i: int| 0 <= i < r.len() && key(r[i]) == key(v[j]);
        assert(text_key(r[i]@) == text_key(v[j]@));
    }
}

/// The distinct texts of `v`, in increasing order.
#[verifier::spinoff_prover]
pub fn sorted_distinct_texts(v: Vec<String>) -> (r: Vec<String>)
    ensures
        r@.map_values(|t: String| t@) == distinct_sorted_texts(v@.map_values(|t: String| t@)),
        forall|i: int, j: int| 0 <= i < j < r@.len() ==> lex_le(#[trigger] r@[i]@, #[trigger] r@[j]@) && r@[i]@ != r@[j]@,
        forall|i: int| 0 <= i < r@.len() ==> exists|j: int| 0 <= j < v@.len() && (#[trigger] r@[i])@ == v@[j]@,
        forall|j: int| 0 <= j < v@.len() ==> exists|i: int| 0 <= i < r@.len() && r@[i]@ == (#[trigger] v@[j])@,
{
    let ghost key = |s: String| string_key(s);
    let le = |a: &String, b: &String| -> (r: bool)
        ensures
            r == key_le(string_key(*a), string_key(*b)),
        { text_le(a, b) };
    let ghost v0 = v@;
    let sorted = sort_by_sort_key(v, Ghost(key), le);
    let same = |a: &String, b: &String| -> (r: bool)
        ensures
            r == (string_key(*a) == string_key(*b)),
        {
            let c = compare_text(a.as_str(), b.as_str());
            c == 0
        };
    let ghost s0 = sorted@;
    let r = dedup_sorted(sorted, Ghost(key), same);
    proof {
        lemma_distinct_texts(v0, s0, r@, key);
        let f = |t: String| t@;
        let k2 = |t: Seq<char>| text_key(t);
        assert forall|y: String| #[trigger] key(y) == k2(f(y)) by {}
        lemma_stable_sort_by_key_map(v0, f, key, k2);
        lemma_dedup_runs_map(s0, f, key, k2);
    }
    r
}

/// The pairs of `s` are strictly increasing.
pub open spec fn pairs_strictly_sorted(s: Seq<TextPair>) -> bool {
    forall|i: int, j: int| 0 <= i < j < s.len() ==> key_le(#[trigger] string_pair_key(s[i]), #[trigger] string_pair_key(s[j]))
        && string_pair_key(s[i]) != string_pair_key(s[j])
}

/// Some pair of `b` holds the texts of `p`.
pub open spec fn pair_found(p: TextPair, b: Seq<TextPair>) -> bool {
    exists|j: int| 0 <= j < b.len() && string_pair_key(#[trigger] b[j]) == string_pair_key(p)
}

/// Every pair of `a` is (as text) a pair of `b`.
pub open spec fn pairs_from(a: Seq<TextPair>, b: Seq<TextPair>) -> bool {
    forall|i: int| 0 <= i < a.len() ==> #[trigger] pair_found(a[i], b)
}

proof fn lemma_pairs_from_dedup(sorted: Seq<TextPair>, r: Seq<TextPair>, key: spec_fn(TextPair) -> SortKey)
    requires
        forall|p: TextPair| #[trigger] key(p) == string_pair_key(p),
        r == dedup_runs(sorted, key),
    ensures
        pairs_from(r, sorted),
        pairs_from(sorted, r),
{
    lemma_dedup_keys(sorted, key);
    assert forall|i: int| 0 <= i < r.len() implies #[trigger] pair_found(r[i], sorted) by {
        let j = choose|j: int| 0 <= j < sorted.len() && key(r[i]) == key(sorted[j]);
        assert(string_pair_key(sorted[j]) == string_pair_key(r[i]));
    }
    assert forall|j: int| 0 <= j < sorted.len() implies #[trigger] pair_found(sorted[j], r) by {
        let i = choose|i: int| 0 <= i < r.len() && key(r[i]) == key(sorted[j]);
        assert(string_pair_key(r[i]) == string_pair_key(sorted[j]));
    }
}

proof fn lemma_pairs_from_perm(a: Seq<TextPair>, b: Seq<TextPair>, c: Seq<TextPair>)
    requires
        b.to_multiset() == c.to_multiset(),
        pairs_from(a, b),
    ensures
        pairs_from(a, c),
{
    assert forall|i: int| 0 <= i < a.len() implies #[trigger] pair_found(a[i], c) by {
        assert(pair_found(a[i], b));
        let k = choose|k: int| 0 <= k < b.len() && string_pair_key(#[trigger] b[k]) == string_pair_key(a[i]);
        assert(b.to_multiset().count(b[k]) > 0);
        assert(c.contains(b[k]));
        let j = choose|j: int| 0 <= j < c.len() && c[j] == b[k];
        assert(string_pair_key(c[j]) == string_pair_key(a[i]));
    }
}

proof fn lemma_pairs_from_perm_rev(a: Seq<TextPair>, b: Seq<TextPair>, c: Seq<TextPair>)
    requires
        b.to_multiset() == a.to_multiset(),
        pairs_from(b, c),
    ensures
        pairs_from(a, c),
{
    assert forall|i: int| 0 <= i < a.len() implies #[trigger] pair_found(a[i], c) by {
        assert(a.to_multiset().count(a[i]) > 0);
        assert(b.contains(a[i]));
        let k = choose|k: int| 0 <= k < b.len() && b[k] == a[i];
        assert(pair_found(b[k], c));
    }
}

proof fn lemma_pairs_sorted_dedup(sorted: Seq<TextPair>, r: Seq<TextPair>, key: spec_fn(TextPair) -> SortKey)
    requires
        forall|p: TextPair| #[trigger] key(p) == string_pair_key(p),
        sorted_by_key_le(sorted, key),
        r == dedup_runs(sorted, key),
    ensures
        pairs_strictly_sorted(r),
{
    lemma_dedup_sorted(sorted, key);
    assert forall|i: int, j: int| 0 <= i < j < r.len() implies key_le(#[trigger] string_pair_key(r[i]), #[trigger] string_pair_key(r[j]))
        && string_pair_key(r[i]) != string_pair_key(r[j]) by {
        assert(key_le(key(r[i]), key(r[j])) && key(r[i]) != key(r[j]));
    }
}

/// The distinct pairs of texts of `v`, in increasing order.
#[verifier::spinoff_prover]
pub fn sorted_distinct_pairs(v: Vec<TextPair>) -> (r: Vec<TextPair>)
    ensures
        pairs_strictly_sorted(r@),
        pairs_from(r@, v@),
        pairs_from(v@, r@),
{
    let ghost key = |p: TextPair| string_pair_key(p);
    let le = |a: &TextPair, b: &TextPair| -> (r: bool)
        ensures
            r == key_le(string_pair_key(*a), string_pair_key(*b)),
        { pair_le(a, b) };
    let ghost v0 = v@;
    let sorted = sort_by_sort_key(v, Ghost(key), le);
    let same = |a: &TextPair, b: &TextPair| -> (r: bool)
        ensures
            r == (string_pair_key(*a) == string_pair_key(*b)),
        { compare_text(a.first.as_str(), b.first.as_str()) == 0 && compare_text(a.second.as_str(), b.second.as_str()) == 0 };
    let ghost s0 = sorted@;
    let r = dedup_sorted(sorted, Ghost(key), same);
    proof {
        lemma_pairs_sorted_dedup(s0, r@, key);
        lemma_pairs_from_dedup(s0, r@, key);
        lemma_pairs_from_perm(r@, s0, v0);
        lemma_pairs_from_perm_rev(v0, s0, r@);
    }
    r
}

proof fn lemma_remove_multiset<T>(s: Seq<T>, k: int)
    requires
        0 <= k < s.len(),
    ensures
        s.to_multiset() == s.remove(k).to_multiset().insert(s[k]),
{
    assert(s.remove(k).to_multiset() =~= s.to_multiset().remove(s[k]));
    assert(s.to_multiset().count(s[k]) > 0);
    assert(s.to_multiset() =~= s.to_multiset().remove(s[k]).insert(s[k]));
}

/// Mapping two sequences with the same elements gives sequences with the
/// same elements.
pub proof fn lemma_map_multiset<T, U>(a: Seq<T>, b: Seq<T>, f: spec_fn(T) -> U)
    requires
        a.to_multiset() == b.to_multiset(),
    ensures
        a.map_values(f).to_multiset() == b.map_values(f).to_multiset(),
    decreases a.len(),
{
    if a.len() == 0 {
        assert(b.to_multiset().len() == b.len());
        assert(b.len() == 0);
        assert(a.map_values(f) =~= b.map_values(f));
    } else {
        let x = a.last();
        let a0 = a.drop_last();
        assert(a =~= a0.push(x));
        assert(b.to_multiset().count(x) > 0);
        assert(b.contains(x));
        let k = choose|k: int| 0 <= k < b.len() && b[k] == x;
        let b0 = b.remove(k);
        lemma_remove_multiset(b, k);
        assert(a0.to_multiset() =~= a.to_multiset().remove(x));
        assert(b0.to_multiset() =~= b.to_multiset().remove(x));
        lemma_map_multiset(a0, b0, f);
        assert(a.map_values(f) =~= a0.map_values(f).push(f(x)));
        assert(b0.map_values(f) =~= b.map_values(f).remove(k));
        lemma_remove_multiset(b.map_values(f), k);
    }
}

pub proof fn lemma_insert_by_map<T, U>(t: Seq<T>, x: T, f: spec_fn(T) -> U, k1: spec_fn(T) -> int, k2: spec_fn(U) -> int)
    requires
        forall|y: T| #[trigger] k1(y) == k2(f(y)),
    ensures
        insert_by(t.map_values(f), f(x), k2) == insert_by(t, x, k1).map_values(f),
    decreases t.len(),
{
    assert(k1(x) == k2(f(x)));
    if t.len() == 0 {
        assert(insert_by(t, x, k1).map_values(f) =~= seq![f(x)]);
    } else {
        assert(t.map_values(f)[0] == f(t[0]));
        assert(k1(t[0]) == k2(f(t[0])));
        if k1(t[0]) > k1(x) {
            assert((seq![x] + t).map_values(f) =~= seq![f(x)] + t.map_values(f));
        } else {
            lemma_insert_by_map(t.drop_first(), x, f, k1, k2);
            assert(t.map_values(f).drop_first() =~= t.drop_first().map_values(f));
            assert((seq![t[0]] + insert_by(t.drop_first(), x, k1)).map_values(f) =~= seq![f(t[0])] + insert_by(
                t.drop_first(),
                x,
                k1,
            ).map_values(f));
        }
    }
}

/// Sorting commutes with a map that keeps the sort key.
pub proof fn lemma_stable_sort_by_map<T, U>(s: Seq<T>, f: spec_fn(T) -> U, k1: spec_fn(T) -> int, k2: spec_fn(U) -> int)
    requires
        forall|y: T| #[trigger] k1(y) == k2(f(y)),
    ensures
        stable_sort_by(s.map_values(f), k2) == stable_sort_by(s, k1).map_values(f),
    decreases s.len(),
{
    if s.len() == 0 {
        assert(s.map_values(f) =~= Seq::<U>::empty());
        assert(stable_sort_by(s, k1).map_values(f) =~= Seq::<U>::empty());
    } else {
        lemma_stable_sort_by_map(s.drop_last(), f, k1, k2);
        assert(s.map_values(f).drop_last() =~= s.drop_last().map_values(f));
        assert(s.map_values(f).last() == f(s.last()));
        lemma_insert_by_map(stable_sort_by(s.drop_last(), k1), s.last(), f, k1, k2);
    }
}

pub proof fn lemma_insert_by_key_map<T, U>(
    t: Seq<T>,
    x: T,
    f: spec_fn(T) -> U,
    k1: spec_fn(T) -> SortKey,
    k2: spec_fn(U) -> SortKey,
)
    requires
        forall|y: T| #[trigger] k1(y) == k2(f(y)),
    ensures
        insert_by_key(t.map_values(f), f(x), k2) == insert_by_key(t, x, k1).map_values(f),
    decreases t.len(),
{
    assert(k1(x) == k2(f(x)));
    if t.len() == 0 {
        assert(insert_by_key(t, x, k1).map_values(f) =~= seq![f(x)]);
    } else {
        assert(t.map_values(f)[0] == f(t[0]));
        assert(k1(t[0]) == k2(f(t[0])));
        if !key_le(k1(t[0]), k1(x)) {
            assert((seq![x] + t).map_values(f) =~= seq![f(x)] + t.map_values(f));
        } else {
            lemma_insert_by_key_map(t.drop_first(), x, f, k1, k2);
            assert(t.map_values(f).drop_first() =~= t.drop_first().map_values(f));
            assert((seq![t[0]] + insert_by_key(t.drop_first(), x, k1)).map_values(f) =~= seq![f(t[0])] + insert_by_key(
                t.drop_first(),
                x,
                k1,
            ).map_values(f));
        }
    }
}

/// Sorting under [`key_le`] commutes with a map that keeps the sort key.
pub proof fn lemma_stable_sort_by_key_map<T, U>(s: Seq<T>, f: spec_fn(T) -> U, k1: spec_fn(T) -> SortKey, k2: spec_fn(U) -> SortKey)
    requires
        forall|y: T| #[trigger] k1(y) == k2(f(y)),
    ensures
        stable_sort_by_key(s.map_values(f), k2) == stable_sort_by_key(s, k1).map_values(f),
    decreases s.len(),
{
    if s.len() == 0 {
        assert(s.map_values(f) =~= Seq::<U>::empty());
        assert(stable_sort_by_key(s, k1).map_values(f) =~= Seq::<U>::empty());
    } else {
        lemma_stable_sort_by_key_map(s.drop_last(), f, k1, k2);
        assert(s.map_values(f).drop_last() =~= s.drop_last().map_values(f));
        assert(s.map_values(f).last() == f(s.last()));
        lemma_insert_by_key_map(stable_sort_by_key(s.drop_last(), k1), s.last(), f, k1, k2);
    }
}

/// Dropping repeated keys commutes with a map that keeps the key.
pub proof fn lemma_dedup_runs_map<T, U>(s: Seq<T>, f: spec_fn(T) -> U, k1: spec_fn(T) -> SortKey, k2: spec_fn(U) -> SortKey)
    requires
        forall|y: T| #[trigger] k1(y) == k2(f(y)),
    ensures
        dedup_runs(s.map_values(f), k2) == dedup_runs(s, k1).map_values(f),
    decreases s.len(),
{
    if s.len() == 0 {
        assert(s.map_values(f) =~= Seq::<U>::empty());
        assert(dedup_runs(s, k1).map_values(f) =~= Seq::<U>::empty());
    } else {
        lemma_dedup_runs_map(s.drop_last(), f, k1, k2);
        assert(s.map_values(f).drop_last() =~= s.drop_last().map_values(f));
        assert(s.map_values(f).last() == f(s.last()));
        let d = dedup_runs(s.drop_last(), k1);
        if d.len() > 0 {
            assert(d.map_values(f).last() == f(d.last()));
            assert(k1(d.last()) == k2(f(d.last())));
        }
        assert(k1(s.last()) == k2(f(s.last())));
        assert(d.push(s.last()).map_values(f) =~= d.map_values(f).push(f(s.last())));
    }
}

/// The distinct texts of `s` in increasing order.
pub open spec fn distinct_sorted_texts(s: Seq<Seq<char>>) -> Seq<Seq<char>> {
    dedup_runs(stable_sort_by_key(s, |t: Seq<char>| text_key(t)), |t: Seq<char>| text_key(t))
}


/// Inserting into a sorted sequence keeps it sorted and adds the element.
pub proof fn lemma_insert_by_sorted<T>(t: Seq<T>, x: T, key: spec_fn(T) -> int)
    requires
        sorted_by(t, key),
    ensures
        sorted_by(insert_by(t, x, key), key),
        insert_by(t, x, key).to_multiset() == t.to_multiset().insert(x),
    decreases t.len(),
{
    if t.len() == 0 {
        assert(seq![x] =~= Seq::<T>::empty().push(x));
    } else if key(t[0]) > key(x) {
        assert(t.insert(0, x) =~= seq![x] + t);
    } else {
        let rest = t.drop_first();
        assert forall|i: int, j: int| 0 <= i < j < rest.len() implies key(rest[i]) <= key(rest[j]) by {
            assert(rest[i] == t[i + 1] && rest[j] == t[j + 1]);
        }
        lemma_insert_by_sorted(rest, x, key);
        let r = insert_by(rest, x, key);
        assert(t =~= seq![t[0]] + rest);
        vstd::seq_lib::lemma_multiset_commutative(seq![t[0]], r);
        vstd::seq_lib::lemma_multiset_commutative(seq![t[0]], rest);
        assert forall|j: int| 0 <= j < r.len() implies key(t[0]) <= key(#[trigger] r[j]) by {
            assert(r.contains(r[j]));
            assert(r.to_multiset().count(r[j]) > 0);
            if r[j] != x {
                assert(rest.to_multiset().count(r[j]) > 0);
                assert(rest.contains(r[j]));
                let k = choose|k: int| 0 <= k < rest.len() && rest[k] == r[j];
                assert(t[k + 1] == r[j]);
            }
        }
        let out = seq![t[0]] + r;
        assert forall|i: int, j: int| 0 <= i < j < out.len() implies key(out[i]) <= key(out[j]) by {
            if i == 0 {
                assert(out[j] == r[j - 1]);
            } else {
                assert(out[i] == r[i - 1] && out[j] == r[j - 1]);
            }
        }
    }
}

/// The stable sort orders by the key and keeps the elements.
pub proof fn lemma_stable_sort_by_sorted<T>(s: Seq<T>, key: spec_fn(T) -> int)
    ensures
        sorted_by(stable_sort_by(s, key), key),
        stable_sort_by(s, key).to_multiset() == s.to_multiset(),
    decreases s.len(),
{
    if s.len() > 0 {
        lemma_stable_sort_by_sorted(s.drop_last(), key);
        lemma_insert_by_sorted(stable_sort_by(s.drop_last(), key), s.last(), key);
        assert(s =~= s.drop_last().push(s.last()));
    }
}

/// Inserting into a sequence sorted under [`key_le`] keeps it sorted and
/// adds the element.
pub proof fn lemma_insert_by_key_sorted<T>(t: Seq<T>, x: T, key: spec_fn(T) -> SortKey)
    requires
        sorted_by_key_le(t, key),
    ensures
        sorted_by_key_le(insert_by_key(t, x, key), key),
        insert_by_key(t, x, key).to_multiset() == t.to_multiset().insert(x),
    decreases t.len(),
{
    if t.len() == 0 {
        assert(seq![x] =~= Seq::<T>::empty().push(x));
    } else if !key_le(key(t[0]), key(x)) {
        assert(t.insert(0, x) =~= seq![x] + t);
        lemma_key_le_total(key(t[0]), key(x));
        let out = seq![x] + t;
        assert forall|i: int, j: int| 0 <= i < j < out.len() implies key_le(#[trigger] key(out[i]), #[trigger] key(out[j])) by {
            if i == 0 {
                assert(out[j] == t[j - 1]);
                if j > 1 {
                    assert(key_le(key(t[0]), key(t[j - 1])));
                    lemma_key_le_trans(key(x), key(t[0]), key(t[j - 1]));
                }
            } else {
                assert(out[i] == t[i - 1] && out[j] == t[j - 1]);
            }
        }
    } else {
        let rest = t.drop_first();
        assert forall|i: int, j: int| 0 <= i < j < rest.len() implies key_le(#[trigger] key(rest[i]), #[trigger] key(rest[j])) by {
            assert(rest[i] == t[i + 1] && rest[j] == t[j + 1]);
        }
        lemma_insert_by_key_sorted(rest, x, key);
        let r = insert_by_key(rest, x, key);
        assert(t =~= seq![t[0]] + rest);
        vstd::seq_lib::lemma_multiset_commutative(seq![t[0]], r);
        vstd::seq_lib::lemma_multiset_commutative(seq![t[0]], rest);
        assert forall|j: int| 0 <= j < r.len() implies key_le(key(t[0]), #[trigger] key(r[j])) by {
            assert(r.contains(r[j]));
            assert(r.to_multiset().count(r[j]) > 0);
            if r[j] != x {
                assert(rest.to_multiset().count(r[j]) > 0);
                assert(rest.contains(r[j]));
                let k = choose|k: int| 0 <= k < rest.len() && rest[k] == r[j];
                assert(t[k + 1] == r[j]);
                assert(key_le(key(t[0]), key(t[k + 1])));
            }
        }
        let out = seq![t[0]] + r;
        assert forall|i: int, j: int| 0 <= i < j < out.len() implies key_le(#[trigger] key(out[i]), #[trigger] key(out[j])) by {
            if i == 0 {
                assert(out[j] == r[j - 1]);
            } else {
                assert(out[i] == r[i - 1] && out[j] == r[j - 1]);
            }
        }
    }
}

/// The stable sort under [`key_le`] orders by the key and keeps the elements.
pub proof fn lemma_stable_sort_by_key_sorted<T>(s: Seq<T>, key: spec_fn(T) -> SortKey)
    ensures
        sorted_by_key_le(stable_sort_by_key(s, key), key),
        stable_sort_by_key(s, key).to_multiset() == s.to_multiset(),
    decreases s.len(),
{
    if s.len() > 0 {
        lemma_stable_sort_by_key_sorted(s.drop_last(), key);
        lemma_insert_by_key_sorted(stable_sort_by_key(s.drop_last(), key), s.last(), key);
        assert(s =~= s.drop_last().push(s.last()));
    }
}

} // verus!
