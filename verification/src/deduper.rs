//! URL de-duplication: each URL is reduced to a normal form (no fragment,
//! query pairs sorted, trailing slashes removed) and a URL is new only if
//! its normal form has not been seen.

use vstd::prelude::*;
use std::collections::HashMap;
use crate::text::{chars_of, copy_range, string_of};
use crate::urls::{
    pair_views, url_parse, url_query_pairs, url_with_query_pairs, url_without_fragment, WebUrl,
};

verus! {

/// Lexicographic order on character sequences, by code point: the order of
/// `String`'s `Ord`.
pub open spec fn seq_lt(a: Seq<char>, b: Seq<char>) -> bool
    decreases a.len(),
{
    if a.len() == 0 {
        b.len() > 0
    } else if b.len() == 0 {
        false
    } else if a[0] != b[0] {
        a[0] < b[0]
    } else {
        seq_lt(a.drop_first(), b.drop_first())
    }
}

/// `seq_lt` is the lexicographic order by code point: `a` is below `b`
/// exactly when `a` is a proper prefix of `b`, or at the first position
/// where they differ `a` has the smaller character.
pub proof fn lemma_seq_lt_lexicographic(a: Seq<char>, b: Seq<char>)
    ensures
        seq_lt(a, b) <==> ((a.len() < b.len() && a == b.take(a.len() as int)) || exists|k: int|
            0 <= k < a.len() && k < b.len() && a.take(k) == b.take(k) && #[trigger] a[k] < #[trigger] b[k]),
    decreases a.len(),
{
    if a.len() > 0 && b.len() > 0 {
        let a1 = a.drop_first();
        let b1 = b.drop_first();
        lemma_seq_lt_lexicographic(a1, b1);
        if a[0] != b[0] {
            if a[0] < b[0] {
                assert(a.take(0) =~= b.take(0));
            } else {
                assert(!(a.len() < b.len() && a == b.take(a.len() as int))) by {
                    if a.len() < b.len() && a == b.take(a.len() as int) {
                        assert(a[0] == b.take(a.len() as int)[0]);
                    }
                }
                assert forall|k: int| 0 <= k < a.len() && k < b.len() && a.take(k) == b.take(k) implies !(#[trigger] a[k]
                    < #[trigger] b[k]) by {
                    if k > 0 {
                        assert(a.take(k)[0] == b.take(k)[0]);
                    }
                }
            }
        } else {
            if a.len() < b.len() && a == b.take(a.len() as int) {
                assert(a1 =~= b1.take(a1.len() as int));
            }
            if a1.len() < b1.len() && a1 == b1.take(a1.len() as int) {
                assert forall|i: int| 0 <= i < a.len() implies a[i] == b.take(a.len() as int)[i] by {
                    if i > 0 {
                        assert(a[i] == a1[i - 1]);
                        assert(b1.take(a1.len() as int)[i - 1] == b[i]);
                    }
                }
                assert(a =~= b.take(a.len() as int));
            }
            if exists|k: int| 0 <= k < a.len() && k < b.len() && a.take(k) == b.take(k) && #[trigger] a[k] < #[trigger] b[k] {
                let k = choose|k: int| 0 <= k < a.len() && k < b.len() && a.take(k) == b.take(k) && #[trigger] a[k] < #[trigger] b[k];
                assert(k > 0);
                assert(a1.take(k - 1) =~= a.take(k).drop_first());
                assert(b1.take(k - 1) =~= b.take(k).drop_first());
                assert(a1[k - 1] == a[k] && b1[k - 1] == b[k]);
            }
            if exists|k: int| 0 <= k < a1.len() && k < b1.len() && a1.take(k) == b1.take(k) && #[trigger] a1[k] < #[trigger] b1[k] {
                let k = choose|k: int| 0 <= k < a1.len() && k < b1.len() && a1.take(k) == b1.take(k) && #[trigger] a1[k] < #[trigger] b1[k];
                assert(a.take(k + 1) =~= seq![a[0]] + a1.take(k));
                assert(b.take(k + 1) =~= seq![b[0]] + b1.take(k));
                assert(a[k + 1] == a1[k] && b[k + 1] == b1[k]);
            }
        }
    } else if a.len() == 0 {
        if b.len() > 0 {
            assert(a =~= b.take(0));
        }
    } else {
        assert(!(a.len() < b.len()));
    }
}

/// Lexicographic order on name/value pairs: the order of `(String, String)`.
pub open spec fn pair_lt(p: (Seq<char>, Seq<char>), q: (Seq<char>, Seq<char>)) -> bool {
    seq_lt(p.0, q.0) || (p.0 == q.0 && seq_lt(p.1, q.1))
}

/// `s` with `x` inserted before its first element that is not below `x`.
pub open spec fn insert_sorted(x: (Seq<char>, Seq<char>), s: Seq<(Seq<char>, Seq<char>)>) -> Seq<(Seq<char>, Seq<char>)>
    decreases s.len(),
{
    if s.len() == 0 {
        seq![x]
    } else if pair_lt(s[0], x) {
        seq![s[0]] + insert_sorted(x, s.drop_first())
    } else {
        seq![x] + s
    }
}

/// `s` sorted in ascending order.
pub open spec fn sorted_pairs(s: Seq<(Seq<char>, Seq<char>)>) -> Seq<(Seq<char>, Seq<char>)>
    decreases s.len(),
{
    if s.len() == 0 {
        s
    } else {
        insert_sorted(s.last(), sorted_pairs(s.drop_last()))
    }
}

/// `s` without its trailing `/` characters.
pub open spec fn strip_slashes(s: Seq<char>) -> Seq<char>
    decreases s.len(),
{
    if s.len() > 0 && s.last() == '/' {
        strip_slashes(s.drop_last())
    } else {
        s
    }
}

/// Trailing slashes do not matter: a serialization with one more `/` at
/// its end has the same normal ending.
pub proof fn lemma_trailing_slash_ignored(s: Seq<char>)
    ensures
        strip_slashes(s.push('/')) == strip_slashes(s),
{
    assert(s.push('/').drop_last() =~= s);
}

/// The normal form of a URL: `None` where it does not parse; else its
/// serialization without fragment, with the query pairs (if it has a
/// query) in sorted order, and without trailing slashes.
pub open spec fn normalized(u: Seq<char>) -> Option<Seq<char>> {
    match url_parse(u) {
        Err(_) => None,
        Ok(p) => {
            let nf = url_without_fragment(p);
            let q = if nf.query is Some {
                url_with_query_pairs(nf, sorted_pairs(url_query_pairs(nf)))
            } else {
                nf
            };
            Some(strip_slashes(q.href))
        },
    }
}

/// Removing trailing slashes leaves a prefix of `s` that does not end in
/// `/`, followed in `s` by slashes only.
proof fn lemma_strip_slashes(s: Seq<char>)
    ensures
        strip_slashes(s).is_prefix_of(s),
        forall|i: int| strip_slashes(s).len() <= i < s.len() ==> #[trigger] s[i] == '/',
        strip_slashes(s).len() > 0 ==> strip_slashes(s).last() != '/',
    decreases s.len(),
{
    if s.len() > 0 && s.last() == '/' {
        lemma_strip_slashes(s.drop_last());
        assert forall|i: int| strip_slashes(s).len() <= i < s.len() implies #[trigger] s[i] == '/' by {
            if i < s.len() - 1 {
                assert(s.drop_last()[i] == s[i]);
            }
        }
    }
}

/// What the normal form of a URL is, character for character: a URL has
/// one exactly when it parses, and it is then the `url` crate's
/// serialization of the URL without its fragment (with its query pairs in
/// sorted order, where it has a query) with its trailing slashes, and
/// nothing else, removed; no other character, letter case included, is
/// changed. So a URL without fragment, query or trailing slash is its own
/// serialization, and two such URLs whose serializations differ (as in the
/// letter case of their paths) get different keys.
pub proof fn lemma_normal_form(u: Seq<char>, v: Seq<char>)
    ensures
        url_parse(u) is Err <==> normalized(u) is None,
        url_parse(u) matches Ok(p) ==> {
            let nf = url_without_fragment(p);
            let q = if nf.query is Some {
                url_with_query_pairs(nf, sorted_pairs(url_query_pairs(nf)))
            } else {
                nf
            };
            normalized(u) matches Some(k) && k.is_prefix_of(q.href) && (forall|i: int|
                k.len() <= i < q.href.len() ==> #[trigger] q.href[i] == '/') && (k.len() > 0 ==> k.last() != '/')
        },
        ({
            let pu = url_parse(u)->Ok_0;
            let pv = url_parse(v)->Ok_0;
            let hu = url_without_fragment(pu);
            let hv = url_without_fragment(pv);
            url_parse(u) is Ok && url_parse(v) is Ok && hu.query is None && hv.query is None && (hu.href.len() == 0
                || hu.href.last() != '/') && (hv.href.len() == 0 || hv.href.last() != '/') ==> normalized(u) == Some(
                hu.href,
            ) && normalized(v) == Some(hv.href) && (hu.href != hv.href ==> dedup_key(u) != dedup_key(v))
        }),
{
    if let Ok(p) = url_parse(u) {
        let nf = url_without_fragment(p);
        let q = if nf.query is Some {
            url_with_query_pairs(nf, sorted_pairs(url_query_pairs(nf)))
        } else {
            nf
        };
        lemma_strip_slashes(q.href);
    }
}

/// The key under which a URL is remembered: its normal form, or the URL
/// itself where it does not parse.
pub open spec fn dedup_key(u: Seq<char>) -> Seq<char> {
    match normalized(u) {
        Some(k) => k,
        None => u,
    }
}

/// `seq_lt` is irreflexive.
proof fn lemma_seq_lt_irreflexive(a: Seq<char>)
    ensures
        !seq_lt(a, a),
    decreases a.len(),
{
    if a.len() > 0 {
        lemma_seq_lt_irreflexive(a.drop_first());
    }
}

/// `seq_lt` is total on distinct sequences and never holds both ways.
proof fn lemma_seq_lt_total(a: Seq<char>, b: Seq<char>)
    ensures
        a != b ==> seq_lt(a, b) || seq_lt(b, a),
        !(seq_lt(a, b) && seq_lt(b, a)),
    decreases a.len(),
{
    if a.len() > 0 && b.len() > 0 && a[0] == b[0] {
        lemma_seq_lt_total(a.drop_first(), b.drop_first());
        if a != b {
            assert(a.drop_first() != b.drop_first()) by {
                if a.drop_first() == b.drop_first() {
                    assert(a =~= seq![a[0]] + a.drop_first());
                    assert(b =~= seq![b[0]] + b.drop_first());
                }
            }
        }
    } else if a.len() == 0 && b.len() == 0 {
        assert(a =~= b);
    }
}

/// `seq_lt` is transitive.
proof fn lemma_seq_lt_transitive(a: Seq<char>, b: Seq<char>, c: Seq<char>)
    requires
        seq_lt(a, b),
        seq_lt(b, c),
    ensures
        seq_lt(a, c),
    decreases a.len(),
{
    if a.len() > 0 && b.len() > 0 && c.len() > 0 && a[0] == b[0] && b[0] == c[0] {
        lemma_seq_lt_transitive(a.drop_first(), b.drop_first(), c.drop_first());
    }
}

/// `pair_lt` is irreflexive, total on distinct pairs, never holds both
/// ways, and is transitive.
proof fn lemma_pair_order(p: (Seq<char>, Seq<char>), q: (Seq<char>, Seq<char>), r: (Seq<char>, Seq<char>))
    ensures
        !pair_lt(p, p),
        p != q ==> pair_lt(p, q) || pair_lt(q, p),
        !(pair_lt(p, q) && pair_lt(q, p)),
        pair_lt(p, q) && pair_lt(q, r) ==> pair_lt(p, r),
{
    lemma_seq_lt_irreflexive(p.0);
    lemma_seq_lt_irreflexive(p.1);
    lemma_seq_lt_total(p.0, q.0);
    lemma_seq_lt_total(p.1, q.1);
    if pair_lt(p, q) && pair_lt(q, r) {
        if seq_lt(p.0, q.0) && seq_lt(q.0, r.0) {
            lemma_seq_lt_transitive(p.0, q.0, r.0);
        } else if p.0 == q.0 && q.0 == r.0 {
            lemma_seq_lt_transitive(p.1, q.1, r.1);
        }
    }
}

/// Whether no pair of `s` sorts below an earlier one.
pub open spec fn pairs_sorted(s: Seq<(Seq<char>, Seq<char>)>) -> bool {
    forall|i: int, j: int| 0 <= i < j < s.len() ==> !pair_lt(#[trigger] s[j], #[trigger] s[i])
}

/// Inserting into a sorted sequence keeps it sorted and adds the element.
proof fn lemma_insert_sorted(x: (Seq<char>, Seq<char>), s: Seq<(Seq<char>, Seq<char>)>)
    requires
        pairs_sorted(s),
    ensures
        pairs_sorted(insert_sorted(x, s)),
        insert_sorted(x, s).to_multiset() == s.to_multiset().insert(x),
    decreases s.len(),
{
    broadcast use vstd::seq_lib::to_multiset_insert, vstd::seq_lib::to_multiset_contains;

    let r = insert_sorted(x, s);
    if s.len() == 0 {
        assert(r =~= Seq::<(Seq<char>, Seq<char>)>::empty().insert(0, x));
    } else if pair_lt(s[0], x) {
        let t = s.drop_first();
        lemma_insert_sorted(x, t);
        let rt = insert_sorted(x, t);
        assert(r =~= rt.insert(0, s[0]));
        assert(s =~= t.insert(0, s[0]));
        assert forall|i: int, j: int| 0 <= i < j < r.len() implies !pair_lt(#[trigger] r[j], #[trigger] r[i]) by {
            if i == 0 {
                let e = r[j];
                assert(e == rt[j - 1]);
                assert(rt.contains(e));
                assert(rt.to_multiset().count(e) > 0);
                if e == x {
                    lemma_pair_order(s[0], x, x);
                } else {
                    assert(t.to_multiset().count(e) > 0);
                    let k = choose|k: int| 0 <= k < t.len() && t[k] == e;
                    assert(s[k + 1] == e);
                }
            } else {
                assert(r[i] == rt[i - 1] && r[j] == rt[j - 1]);
            }
        }
    } else {
        assert(r =~= s.insert(0, x));
        assert forall|i: int, j: int| 0 <= i < j < r.len() implies !pair_lt(#[trigger] r[j], #[trigger] r[i]) by {
            if i == 0 {
                let e = r[j];
                assert(e == s[j - 1]);
                lemma_pair_order(e, x, s[0]);
                lemma_pair_order(x, s[0], s[0]);
                if j - 1 > 0 {
                    assert(!pair_lt(s[j - 1], s[0]));
                }
            } else {
                assert(r[i] == s[i - 1] && r[j] == s[j - 1]);
            }
        }
    }
}

/// `sorted_pairs` sorts: its result is sorted and has the same elements.
proof fn lemma_sorted_pairs(s: Seq<(Seq<char>, Seq<char>)>)
    ensures
        pairs_sorted(sorted_pairs(s)),
        sorted_pairs(s).to_multiset() == s.to_multiset(),
    decreases s.len(),
{
    broadcast use vstd::seq_lib::to_multiset_build;

    if s.len() > 0 {
        lemma_sorted_pairs(s.drop_last());
        lemma_insert_sorted(s.last(), sorted_pairs(s.drop_last()));
        assert(s =~= s.drop_last().push(s.last()));
    }
}

/// Two sorted sequences with the same elements are equal.
proof fn lemma_sorted_unique(s1: Seq<(Seq<char>, Seq<char>)>, s2: Seq<(Seq<char>, Seq<char>)>)
    requires
        pairs_sorted(s1),
        pairs_sorted(s2),
        s1.to_multiset() == s2.to_multiset(),
    ensures
        s1 == s2,
    decreases s1.len(),
{
    broadcast use vstd::seq_lib::to_multiset_len, vstd::seq_lib::to_multiset_contains, vstd::seq_lib::to_multiset_remove;

    vstd::seq_lib::to_multiset_len(s1);
    vstd::seq_lib::to_multiset_len(s2);
    assert(s1.len() == s2.len());
    if s1.len() == 0 {
        assert(s1 =~= s2);
    } else {
        assert(s1.to_multiset().count(s1[0]) > 0);
        assert(s2.to_multiset().count(s2[0]) > 0);
        let k = choose|k: int| 0 <= k < s2.len() && s2[k] == s1[0];
        let m = choose|m: int| 0 <= m < s1.len() && s1[m] == s2[0];
        if k > 0 {
            assert(!pair_lt(s2[k], s2[0]));
        }
        if m > 0 {
            assert(!pair_lt(s1[m], s1[0]));
        }
        lemma_pair_order(s1[0], s2[0], s2[0]);
        assert(s1[0] == s2[0]);
        let t1 = s1.drop_first();
        let t2 = s2.drop_first();
        assert(t1 =~= s1.remove(0));
        assert(t2 =~= s2.remove(0));
        assert forall|i: int, j: int| 0 <= i < j < t1.len() implies !pair_lt(#[trigger] t1[j], #[trigger] t1[i]) by {
            assert(t1[i] == s1[i + 1] && t1[j] == s1[j + 1]);
        }
        assert forall|i: int, j: int| 0 <= i < j < t2.len() implies !pair_lt(#[trigger] t2[j], #[trigger] t2[i]) by {
            assert(t2[i] == s2[i + 1] && t2[j] == s2[j + 1]);
        }
        lemma_sorted_unique(t1, t2);
        assert forall|i: int| 0 <= i < s1.len() implies s1[i] == s2[i] by {
            if i > 0 {
                assert(s1[i] == t1[i - 1] && s2[i] == t2[i - 1]);
            }
        }
        assert(s1 =~= s2);
    }
}

/// The order of a URL's query parameters does not matter: two lists of
/// name/value pairs with the same elements, in any order, sort to the same
/// list.
pub proof fn lemma_query_order_free(s1: Seq<(Seq<char>, Seq<char>)>, s2: Seq<(Seq<char>, Seq<char>)>)
    requires
        s1.to_multiset() == s2.to_multiset(),
    ensures
        sorted_pairs(s1) == sorted_pairs(s2),
        pairs_sorted(sorted_pairs(s1)),
        sorted_pairs(s1).to_multiset() == s1.to_multiset(),
{
    lemma_sorted_pairs(s1);
    lemma_sorted_pairs(s2);
    lemma_sorted_unique(sorted_pairs(s1), sorted_pairs(s2));
}

/// Whether `a` sorts before `b`, by code point.
pub fn chars_lt(a: &[char], b: &[char]) -> (r: bool)
    ensures
        r == seq_lt(a@, b@),
{
    let mut i: usize = 0;
    assert(a@.skip(0) =~= a@);
    assert(b@.skip(0) =~= b@);
    while i < a.len() && i < b.len() && a[i] == b[i]
        invariant
            i <= a@.len(),
            i <= b@.len(),
            seq_lt(a@, b@) == seq_lt(a@.skip(i as int), b@.skip(i as int)),
        decreases a@.len() - i,
    {
        assert(a@.skip(i as int).drop_first() =~= a@.skip(i + 1));
        assert(b@.skip(i as int).drop_first() =~= b@.skip(i + 1));
        i = i + 1;
    }
    if i == a.len() {
        i < b.len()
    } else if i == b.len() {
        false
    } else {
        assert(a@.skip(i as int)[0] == a@[i as int]);
        assert(b@.skip(i as int)[0] == b@[i as int]);
        a[i] < b[i]
    }
}

/// Whether the pair `p` sorts before the pair `q`.
fn pair_before(p: &(String, String), q: &(String, String)) -> (r: bool)
    ensures
        r == pair_lt((p.0@, p.1@), (q.0@, q.1@)),
{
    let p0 = chars_of(p.0.as_str());
    let q0 = chars_of(q.0.as_str());
    if chars_lt(&p0, &q0) {
        return true;
    }
    if p0.len() != q0.len() {
        assert(p0@ != q0@);
        return false;
    }
    let mut i: usize = 0;
    while i < p0.len()
        invariant
            i <= p0@.len() == q0@.len(),
            p0@.take(i as int) == q0@.take(i as int),
            p0@ == p.0@,
            q0@ == q.0@,
            !seq_lt(p0@, q0@),
        decreases p0@.len() - i,
    {
        if p0[i] != q0[i] {
            assert(p0@[i as int] != q0@[i as int]);
            assert(p0@ != q0@);
            return false;
        }
        assert(p0@.take(i + 1) =~= p0@.take(i as int).push(p0@[i as int]));
        assert(q0@.take(i + 1) =~= q0@.take(i as int).push(q0@[i as int]));
        i = i + 1;
    }
    assert(p0@ =~= p0@.take(i as int));
    assert(q0@ =~= q0@.take(i as int));
    let p1 = chars_of(p.1.as_str());
    let q1 = chars_of(q.1.as_str());
    chars_lt(&p1, &q1)
}

/// Inserting before position `k` is `insert_sorted` when everything before
/// `k` sorts below `x` and the element at `k`, if any, does not.
proof fn lemma_insert_at(x: (Seq<char>, Seq<char>), s: Seq<(Seq<char>, Seq<char>)>, k: int)
    requires
        0 <= k <= s.len(),
        forall|j: int| 0 <= j < k ==> pair_lt(#[trigger] s[j], x),
        k < s.len() ==> !pair_lt(s[k], x),
    ensures
        insert_sorted(x, s) == s.take(k).push(x) + s.skip(k),
    decreases k,
{
    if k == 0 {
        assert(s.take(0).push(x) + s.skip(0) =~= seq![x] + s);
    } else {
        let t = s.drop_first();
        assert forall|j: int| 0 <= j < k - 1 implies pair_lt(#[trigger] t[j], x) by {
            assert(t[j] == s[j + 1]);
        }
        lemma_insert_at(x, t, k - 1);
        assert(pair_lt(s[0], x));
        assert(s.take(k).push(x) + s.skip(k) =~= seq![s[0]] + (t.take(k - 1).push(x) + t.skip(k - 1)));
    }
}

/// Inserts `x` into `v` before the first pair that does not sort below it.
fn insert_pair(v: &mut Vec<(String, String)>, x: (String, String))
    ensures
        pair_views(final(v)@) == insert_sorted((x.0@, x.1@), pair_views(old(v)@)),
{
    let mut k: usize = 0;
    while k < v.len() && pair_before(&v[k], &x)
        invariant
            k <= v@.len(),
            forall|j: int| 0 <= j < k ==> pair_lt(#[trigger] pair_views(v@)[j], (x.0@, x.1@)),
        decreases v@.len() - k,
    {
        k = k + 1;
    }
    let ghost before = pair_views(v@);
    proof {
        lemma_insert_at((x.0@, x.1@), before, k as int);
    }
    v.insert(k, x);
    assert(pair_views(v@) =~= before.take(k as int).push((x.0@, x.1@)) + before.skip(k as int));
}

/// The pairs of `v` in ascending order.
pub fn sort_pairs(v: Vec<(String, String)>) -> (r: Vec<(String, String)>)
    ensures
        pair_views(r@) == sorted_pairs(pair_views(v@)),
{
    let mut r: Vec<(String, String)> = Vec::new();
    let mut i: usize = 0;
    while i < v.len()
        invariant
            i <= v@.len(),
            pair_views(r@) == sorted_pairs(pair_views(v@.take(i as int))),
        decreases v@.len() - i,
    {
        let p = (v[i].0.clone(), v[i].1.clone());
        assert(pair_views(v@.take(i + 1)).drop_last() =~= pair_views(v@.take(i as int)));
        insert_pair(&mut r, p);
        i = i + 1;
    }
    assert(v@.take(i as int) =~= v@);
    r
}

/// `s` without its trailing `/` characters (`str::trim_end_matches('/')`).
pub fn strip_trailing_slashes(s: &str) -> (r: String)
    ensures
        r@ == strip_slashes(s@),
{
    let cs = chars_of(s);
    let mut j: usize = cs.len();
    assert(cs@.subrange(0, j as int) =~= cs@);
    while j > 0 && cs[j - 1] == '/'
        invariant
            j <= cs@.len(),
            strip_slashes(s@) == strip_slashes(cs@.subrange(0, j as int)),
        decreases j,
    {
        assert(cs@.subrange(0, j as int).drop_last() =~= cs@.subrange(0, j - 1));
        j = j - 1;
    }
    let kept = copy_range(&cs, 0, j);
    string_of(&kept)
}

/// The normal form of a URL, or `None` where it does not parse.
pub fn normalize_url(u: &str) -> (r: Option<String>)
    ensures
        match r {
            Some(s) => normalized(u@) == Some(s@),
            None => normalized(u@) is None,
        },
{
    let parsed = match WebUrl::parse(u) {
        Ok(p) => p,
        Err(_) => return None,
    };
    let mut url = parsed.without_fragment();
    if url.query().is_some() {
        let pairs = url.query_pairs();
        let sorted = sort_pairs(pairs);
        url = url.with_query_pairs(&sorted);
    }
    let s = url.to_string();
    Some(strip_trailing_slashes(s.as_str()))
}

/// The key under which `u` is remembered.
pub fn dedup_key_of(u: &str) -> (r: Vec<char>)
    ensures
        r@ == dedup_key(u@),
{
    match normalize_url(u) {
        Some(k) => chars_of(k.as_str()),
        None => chars_of(u),
    }
}

/// The character sequences of a list of keys.
pub open spec fn key_views(v: Seq<Vec<char>>) -> Seq<Seq<char>> {
    v.map_values(|k: Vec<char>| k@)
}

/// A set of URLs seen so far, told apart by their normal forms.
pub trait UrlDeduper {
    /// The keys remembered so far.
    spec fn seen(&self) -> Set<Seq<char>>;

    /// Remembers `url`; true where its key was not remembered before.
    fn try_add(&mut self, url: &str) -> (r: bool)
        ensures
            r == !old(self).seen().contains(dedup_key(url@)),
            final(self).seen() == old(self).seen().insert(dedup_key(url@)),
    ;

    /// The number of keys remembered.
    fn len(&self) -> (r: usize)
        ensures
            r == self.seen().len(),
    ;

    /// Whether no key is remembered.
    fn is_empty(&self) -> (r: bool)
        ensures
            r == (self.seen().len() == 0),
    ;
}

/// A polynomial hash of a key, modulo the prime 2^32 - 5.
pub open spec fn key_hash(s: Seq<char>) -> u64
    decreases s.len(),
{
    if s.len() == 0 {
        0
    } else {
        ((key_hash(s.drop_last()) * 31 + (s.last() as u32)) % 4294967291) as u64
    }
}

/// The hash of a key.
fn hash_key(key: &Vec<char>) -> (r: u64)
    ensures
        r == key_hash(key@),
{
    let mut h: u64 = 0;
    let mut i: usize = 0;
    assert(key@.take(0) =~= Seq::<char>::empty());
    while i < key.len()
        invariant
            i <= key@.len(),
            h == key_hash(key@.take(i as int)),
            h < 4294967291,
        decreases key@.len() - i,
    {
        assert(key@.take(i + 1).drop_last() =~= key@.take(i as int));
        let c = key[i] as u32;
        h = (h * 31 + c as u64) % 4294967291;
        i = i + 1;
    }
    assert(key@.take(i as int) =~= key@);
    h
}

/// The remembered keys, with an index from each key's hash to the
/// positions of the keys with that hash.
struct KeyTable {
    keys: Vec<Vec<char>>,
    index: HashMap<u64, Vec<usize>>,
}

impl KeyTable {
    /// No key occurs twice, every key's position is in its hash's bucket,
    /// and every bucket holds positions of keys.
    spec fn valid(&self) -> bool {
        &&& key_views(self.keys@).no_duplicates()
        &&& forall|i: int| 0 <= i < self.keys@.len() ==> {
            &&& self.index@.contains_key(key_hash(#[trigger] self.keys@[i]@))
            &&& self.index@[key_hash(self.keys@[i]@)]@.contains(i as usize)
        }
        &&& forall|h: u64, j: int| self.index@.contains_key(h) && 0 <= j < self.index@[h]@.len() ==> #[trigger] self.index@[h]@[j]
            < self.keys@.len()
    }

    /// A table with no keys.
    fn empty() -> (r: KeyTable)
        ensures
            r.valid(),
            r.keys@ == Seq::<Vec<char>>::empty(),
    {
        let r = KeyTable { keys: Vec::new(), index: HashMap::new() };
        assert(key_views(r.keys@) =~= Seq::<Seq<char>>::empty());
        r
    }

    /// The position of `key` among the keys, if it is one.
    fn find(&self, key: &Vec<char>) -> (r: Option<usize>)
        requires
            self.valid(),
        ensures
            match r {
                Some(i) => i < self.keys@.len() && self.keys@[i as int]@ == key@,
                None => !key_views(self.keys@).contains(key@),
            },
    {
        broadcast use vstd::std_specs::hash::group_hash_axioms;

        let h = hash_key(key);
        match self.index.get(&h) {
            None => {
                proof {
                    if key_views(self.keys@).contains(key@) {
                        let i = choose|i: int| 0 <= i < key_views(self.keys@).len() && key_views(self.keys@)[i] == key@;
                        assert(self.keys@[i]@ == key@);
                        assert(self.index@.contains_key(key_hash(self.keys@[i]@)));
                    }
                }
                None
            },
            Some(bucket) => {
                let mut j: usize = 0;
                while j < bucket.len()
                    invariant
                        self.valid(),
                        self.index@.contains_key(h),
                        self.index@[h] == *bucket,
                        h == key_hash(key@),
                        j <= bucket@.len(),
                        forall|k: int| 0 <= k < j ==> self.keys@[#[trigger] bucket@[k] as int]@ != key@,
                    decreases bucket@.len() - j,
                {
                    let p = bucket[j];
                    assert(self.index@[h]@[j as int] < self.keys@.len());
                    if crate::robots::chars_eq(&self.keys[p], key) {
                        return Some(p);
                    }
                    j = j + 1;
                }
                // The number of keys is a `usize`, so every position converts exactly.
                let _key_count = self.keys.len();
                proof {
                    if key_views(self.keys@).contains(key@) {
                        let i = choose|i: int| 0 <= i < key_views(self.keys@).len() && key_views(self.keys@)[i] == key@;
                        assert(self.keys@[i]@ == key@);
                        assert(0 <= i < self.keys@.len());
                        assert((i as usize) as int == i);
                        assert(key_hash(self.keys@[i]@) == h);
                        assert(self.index@[h]@.contains(i as usize));
                        assert(bucket@.contains(i as usize));
                        let k = choose|k: int| 0 <= k < bucket@.len() && bucket@[k] == i as usize;
                        assert(self.keys@[bucket@[k] as int]@ != key@);
                        assert(false);
                    }
                }
                None
            },
        }
    }

    /// Adds a key that is not among the keys.
    fn add(&mut self, key: Vec<char>)
        requires
            old(self).valid(),
            !key_views(old(self).keys@).contains(key@),
        ensures
            final(self).valid(),
            final(self).keys@ == old(self).keys@.push(key),
    {
        broadcast use vstd::std_specs::hash::group_hash_axioms;

        let ghost before = key_views(self.keys@);
        let ghost old_index = self.index@;
        let ghost old_keys = self.keys@;
        let p = self.keys.len();
        let h = hash_key(&key);
        self.keys.push(key);
        let mut bucket = match self.index.remove(&h) {
            Some(b) => b,
            None => Vec::new(),
        };
        let ghost old_bucket = bucket@;
        assert(old_index.contains_key(h) ==> old_bucket == old_index[h]@);
        assert(!old_index.contains_key(h) ==> old_bucket == Seq::<usize>::empty());
        bucket.push(p);
        self.index.insert(h, bucket);
        proof {
            assert(key_views(self.keys@) =~= before.push(key@));
            assert forall|a: int, b: int| 0 <= a < b < before.push(key@).len() implies before.push(key@)[a]
                != before.push(key@)[b] by {
                if b == before.len() {
                    assert(before.contains(before[a]));
                }
            }
            assert forall|i: int| 0 <= i < self.keys@.len() implies {
                &&& self.index@.contains_key(key_hash(#[trigger] self.keys@[i]@))
                &&& self.index@[key_hash(self.keys@[i]@)]@.contains(i as usize)
            } by {
                if i < p {
                    assert(self.keys@[i] == old_keys[i]);
                    let hi = key_hash(old_keys[i]@);
                    assert(old_index.contains_key(hi) && old_index[hi]@.contains(i as usize));
                    if hi == h {
                        let k = choose|k: int| 0 <= k < old_bucket.len() && old_bucket[k] == i as usize;
                        assert(self.index@[h]@[k] == i as usize);
                    }
                } else {
                    assert(self.index@[h]@[old_bucket.len() as int] == p);
                }
            }
            assert forall|g: u64, j: int| self.index@.contains_key(g) && 0 <= j < self.index@[g]@.len() implies
                #[trigger] self.index@[g]@[j] < self.keys@.len() by {
                if g != h {
                    assert(old_index[g]@[j] < old_keys.len());
                } else if j < old_bucket.len() {
                    assert(old_index[h]@[j] < old_keys.len());
                }
            }
        }
    }
}

/// A de-duplicator that keeps every key in memory.
pub struct MemoryDeduper {
    table: KeyTable,
}

impl MemoryDeduper {
    /// The key table is consistent.
    #[verifier::type_invariant]
    spec fn consistent(&self) -> bool {
        self.table.valid()
    }

    /// The keys remembered so far.
    pub closed spec fn keys(&self) -> Set<Seq<char>> {
        key_views(self.table.keys@).to_set()
    }

    /// The remembered keys are finitely many.
    pub proof fn lemma_keys_finite(&self)
        ensures
            self.keys().finite(),
    {
        vstd::seq_lib::seq_to_set_is_finite(key_views(self.table.keys@));
    }

    /// An empty de-duplicator.
    pub fn new() -> (r: MemoryDeduper)
        ensures
            r.keys() == Set::<Seq<char>>::empty(),
    {
        let r = MemoryDeduper { table: KeyTable::empty() };
        assert(key_views(r.table.keys@).to_set() =~= Set::<Seq<char>>::empty());
        r
    }

    /// An empty de-duplicator with room for `capacity` keys.
    pub fn with_capacity(capacity: usize) -> (r: MemoryDeduper)
        ensures
            r.keys() == Set::<Seq<char>>::empty(),
    {
        let table = KeyTable { keys: Vec::with_capacity(capacity), index: HashMap::with_capacity(capacity) };
        assert(key_views(table.keys@) =~= Seq::<Seq<char>>::empty());
        let r = MemoryDeduper { table };
        assert(key_views(r.table.keys@).to_set() =~= Set::<Seq<char>>::empty());
        r
    }
}

impl Default for MemoryDeduper {
    fn default() -> (r: MemoryDeduper)
        ensures
            r.keys() == Set::<Seq<char>>::empty(),
    {
        MemoryDeduper::new()
    }
}

impl UrlDeduper for MemoryDeduper {
    open spec fn seen(&self) -> Set<Seq<char>> {
        self.keys()
    }

    fn try_add(&mut self, url: &str) -> (r: bool) {
        proof {
            use_type_invariant(&*self);
        }
        let key = dedup_key_of(url);
        match self.table.find(&key) {
            Some(i) => {
                assert(key_views(self.table.keys@)[i as int] == key@);
                assert(self.keys().insert(key@) =~= self.keys());
                false
            },
            None => {
                let ghost before = key_views(self.table.keys@);
                let mut table = KeyTable::empty();
                std::mem::swap(&mut table, &mut self.table);
                table.add(key);
                assert(key_views(table.keys@) =~= before.push(key@));
                proof {
                    before.lemma_push_to_set_commute(key@);
                }
                self.table = table;
                true
            },
        }
    }

    fn len(&self) -> (r: usize) {
        proof {
            use_type_invariant(self);
            key_views(self.table.keys@).unique_seq_to_set();
        }
        self.table.keys.len()
    }

    fn is_empty(&self) -> (r: bool) {
        proof {
            use_type_invariant(self);
            key_views(self.table.keys@).unique_seq_to_set();
        }
        self.table.keys.len() == 0
    }
}

/// The de-duplicator a crawl starts with.
pub fn create_deduper() -> (r: MemoryDeduper)
    ensures
        r.seen() == Set::<Seq<char>>::empty(),
{
    MemoryDeduper::new()
}

} // verus!
