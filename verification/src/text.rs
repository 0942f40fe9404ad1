//! Character-level text helpers: whitespace, trimming, word splitting,
//! joining and substring search, stated over `Seq<char>`.

use vstd::prelude::*;

verus! {

/// The Unicode `White_Space` property, which `char::is_whitespace` tests.
pub open spec fn is_ws(c: char) -> bool {
    ||| ('\u{9}' <= c && c <= '\u{d}')
    ||| c == ' '
    ||| c == '\u{85}'
    ||| c == '\u{a0}'
    ||| c == '\u{1680}'
    ||| ('\u{2000}' <= c && c <= '\u{200a}')
    ||| c == '\u{2028}'
    ||| c == '\u{2029}'
    ||| c == '\u{202f}'
    ||| c == '\u{205f}'
    ||| c == '\u{3000}'
}

/// The whitespace characters are exactly tab, line feed, vertical tab,
/// form feed, carriage return, space, next line (U+0085), no-break space
/// (U+00A0), ogham space mark (U+1680), the spaces U+2000 to U+200A, line
/// and paragraph separators (U+2028, U+2029), narrow no-break space
/// (U+202F), medium mathematical space (U+205F) and ideographic space
/// (U+3000).
pub proof fn lemma_whitespace_chars(c: char)
    ensures
        is_ws(c) <==> (c == '\t' || c == '\n' || c == '\u{b}' || c == '\u{c}' || c == '\r' || c == ' ' || c
            == '\u{85}' || c == '\u{a0}' || c == '\u{1680}' || ((c as u32) >= 0x2000 && (c as u32) <= 0x200a) || c
            == '\u{2028}' || c == '\u{2029}' || c == '\u{202f}' || c == '\u{205f}' || c == '\u{3000}'),
{
}

/// `trim` removes whitespace at both ends and nothing else: the result is
/// the piece of `s` from `start` to `end`, everything before `start` and
/// from `end` on is whitespace, and the piece, when not empty, neither
/// starts nor ends with whitespace.
pub proof fn lemma_trim(s: Seq<char>) -> (bounds: (int, int))
    ensures
        0 <= bounds.0 <= bounds.1 <= s.len(),
        trim(s) == s.subrange(bounds.0, bounds.1),
        forall|i: int| 0 <= i < bounds.0 ==> is_ws(#[trigger] s[i]),
        forall|i: int| bounds.1 <= i < s.len() ==> is_ws(#[trigger] s[i]),
        bounds.0 < bounds.1 ==> !is_ws(s[bounds.0]) && !is_ws(s[bounds.1 - 1]),
{
    let a = lemma_trim_start(s);
    let t = trim_start(s);
    let b = lemma_trim_end(t);
    assert(trim(s) =~= s.subrange(a, a + b));
    assert forall|i: int| a + b <= i < s.len() implies is_ws(#[trigger] s[i]) by {
        assert(s[i] == t[i - a]);
    }
    if b > 0 {
        assert(s[a] == t[0]);
        assert(s[a + b - 1] == t[b - 1]);
    }
    (a, a + b)
}

/// `trim_start` drops the leading whitespace of `s`, and only that.
proof fn lemma_trim_start(s: Seq<char>) -> (a: int)
    ensures
        0 <= a <= s.len(),
        trim_start(s) == s.subrange(a, s.len() as int),
        forall|i: int| 0 <= i < a ==> is_ws(#[trigger] s[i]),
        a < s.len() ==> !is_ws(s[a]),
    decreases s.len(),
{
    if s.len() > 0 && is_ws(s[0]) {
        let a = lemma_trim_start(s.drop_first());
        assert(s.drop_first().subrange(a, s.len() - 1) =~= s.subrange(a + 1, s.len() as int));
        assert forall|i: int| 0 <= i < a + 1 implies is_ws(#[trigger] s[i]) by {
            if i > 0 {
                assert(s[i] == s.drop_first()[i - 1]);
            }
        }
        a + 1
    } else {
        assert(s.subrange(0, s.len() as int) =~= s);
        0
    }
}

/// `trim_end` drops the trailing whitespace of `s`, and only that.
proof fn lemma_trim_end(s: Seq<char>) -> (b: int)
    ensures
        0 <= b <= s.len(),
        trim_end(s) == s.subrange(0, b),
        forall|i: int| b <= i < s.len() ==> is_ws(#[trigger] s[i]),
        b > 0 ==> !is_ws(s[b - 1]),
    decreases s.len(),
{
    if s.len() > 0 && is_ws(s.last()) {
        let b = lemma_trim_end(s.drop_last());
        assert(s.drop_last().subrange(0, b) =~= s.subrange(0, b));
        assert forall|i: int| b <= i < s.len() implies is_ws(#[trigger] s[i]) by {
            if i < s.len() - 1 {
                assert(s[i] == s.drop_last()[i]);
            }
        }
        b
    } else {
        assert(s.subrange(0, s.len() as int) =~= s);
        s.len() as int
    }
}

/// Whether `c` is a whitespace character.
pub fn is_whitespace(c: char) -> (r: bool)
    ensures
        r == is_ws(c),
{
    ('\u{9}' <= c && c <= '\u{d}') || c == ' ' || c == '\u{85}' || c == '\u{a0}' || c
        == '\u{1680}' || ('\u{2000}' <= c && c <= '\u{200a}') || c == '\u{2028}' || c
        == '\u{2029}' || c == '\u{202f}' || c == '\u{205f}' || c == '\u{3000}'
}

/// `s` without its leading whitespace.
pub open spec fn trim_start(s: Seq<char>) -> Seq<char>
    decreases s.len(),
{
    if s.len() > 0 && is_ws(s[0]) {
        trim_start(s.drop_first())
    } else {
        s
    }
}

/// `s` without its trailing whitespace.
pub open spec fn trim_end(s: Seq<char>) -> Seq<char>
    decreases s.len(),
{
    if s.len() > 0 && is_ws(s.last()) {
        trim_end(s.drop_last())
    } else {
        s
    }
}

/// `s` without leading and trailing whitespace.
pub open spec fn trim(s: Seq<char>) -> Seq<char> {
    trim_end(trim_start(s))
}


/// Copies `s[from..to]` into a new vector.
pub fn copy_range(s: &[char], from: usize, to: usize) -> (r: Vec<char>)
    requires
        from <= to <= s@.len(),
    ensures
        r@ == s@.subrange(from as int, to as int),
{
    let mut r: Vec<char> = Vec::new();
    let mut k = from;
    while k < to
        invariant
            from <= k <= to <= s@.len(),
            r@ == s@.subrange(from as int, k as int),
        decreases to - k,
    {
        r.push(s[k]);
        assert(s@.subrange(from as int, k + 1) =~= s@.subrange(from as int, k as int).push(s@[k as int]));
        k = k + 1;
    }
    r
}

/// `s` with leading and trailing whitespace removed (`str::trim`).
pub fn trim_chars(s: &[char]) -> (r: Vec<char>)
    ensures
        r@ == trim(s@),
{
    let n = s.len();
    let mut i: usize = 0;
    assert(s@.subrange(0, n as int) =~= s@);
    while i < n && is_whitespace(s[i])
        invariant
            i <= n == s@.len(),
            trim_start(s@) == trim_start(s@.subrange(i as int, n as int)),
        decreases n - i,
    {
        assert(s@.subrange(i as int, n as int).drop_first() =~= s@.subrange(i + 1, n as int));
        i = i + 1;
    }
    let ghost rest = s@.subrange(i as int, n as int);
    assert(trim_start(rest) == rest);
    let mut j: usize = n;
    while j > i && is_whitespace(s[j - 1])
        invariant
            i <= j <= n == s@.len(),
            rest == s@.subrange(i as int, n as int),
            trim_end(rest) == trim_end(s@.subrange(i as int, j as int)),
        decreases j,
    {
        assert(s@.subrange(i as int, j as int).drop_last() =~= s@.subrange(i as int, j - 1));
        j = j - 1;
    }
    copy_range(s, i, j)
}


/// The words of a prefix scan: the words completed so far and the word
/// being read.
pub open spec fn words_state(s: Seq<char>) -> (Seq<Seq<char>>, Seq<char>)
    decreases s.len(),
{
    if s.len() == 0 {
        (seq![], seq![])
    } else {
        let (done, cur) = words_state(s.drop_last());
        if is_ws(s.last()) {
            if cur.len() > 0 {
                (done.push(cur), seq![])
            } else {
                (done, seq![])
            }
        } else {
            (done, cur.push(s.last()))
        }
    }
}

/// The maximal runs of non-whitespace characters of `s`, in order
/// (`str::split_whitespace`).
pub open spec fn words(s: Seq<char>) -> Seq<Seq<char>> {
    let (done, cur) = words_state(s);
    if cur.len() > 0 {
        done.push(cur)
    } else {
        done
    }
}

/// `parts` joined with `sep` between neighbours.
pub open spec fn join(parts: Seq<Seq<char>>, sep: Seq<char>) -> Seq<char>
    decreases parts.len(),
{
    if parts.len() == 0 {
        seq![]
    } else if parts.len() == 1 {
        parts[0]
    } else {
        join(parts.drop_last(), sep) + sep + parts.last()
    }
}

/// The words of `s` joined by single spaces.
pub open spec fn collapse(s: Seq<char>) -> Seq<char> {
    join(words(s), seq![' '])
}

/// The pieces `parts` joined by a space, then collapsed to single spaces.
pub open spec fn join_and_clean_spec(parts: Seq<Seq<char>>) -> Seq<char> {
    collapse(join(parts, seq![' ']))
}

/// Whether the only whitespace in `r` is single spaces between other
/// characters: no whitespace at either end, none doubled.
pub open spec fn clean_shape(r: Seq<char>) -> bool {
    forall|i: int|
        0 <= i < r.len() && is_ws(#[trigger] r[i]) ==> r[i] == ' ' && 0 < i && i + 1 < r.len() && !is_ws(r[i - 1])
            && !is_ws(r[i + 1])
}

/// A word is non-empty and has no whitespace.
pub open spec fn word_ok(w: Seq<char>) -> bool {
    w.len() > 0 && forall|j: int| 0 <= j < w.len() ==> !is_ws(#[trigger] w[j])
}

/// The words of a prefix scan are words, and the word being read has no
/// whitespace.
proof fn lemma_words_state_ok(s: Seq<char>)
    ensures
        forall|k: int| 0 <= k < words_state(s).0.len() ==> word_ok(#[trigger] words_state(s).0[k]),
        forall|j: int| 0 <= j < words_state(s).1.len() ==> !is_ws(#[trigger] words_state(s).1[j]),
    decreases s.len(),
{
    if s.len() > 0 {
        lemma_words_state_ok(s.drop_last());
        let (done, cur) = words_state(s.drop_last());
        if is_ws(s.last()) {
            if cur.len() > 0 {
                assert forall|k: int| 0 <= k < done.push(cur).len() implies word_ok(#[trigger] done.push(cur)[k]) by {
                    if k < done.len() {
                        assert(done.push(cur)[k] == done[k]);
                    }
                }
            }
        } else {
            assert forall|j: int| 0 <= j < cur.push(s.last()).len() implies !is_ws(#[trigger] cur.push(s.last())[j]) by {
                if j < cur.len() {
                    assert(cur.push(s.last())[j] == cur[j]);
                }
            }
        }
    }
}

/// Words joined by single spaces have the clean shape, and are not empty
/// when there is a word.
proof fn lemma_join_words_shape(ws: Seq<Seq<char>>)
    requires
        forall|k: int| 0 <= k < ws.len() ==> word_ok(#[trigger] ws[k]),
    ensures
        clean_shape(join(ws, seq![' '])),
        ws.len() > 0 ==> join(ws, seq![' ']).len() > 0,
    decreases ws.len(),
{
    if ws.len() == 1 {
        assert(word_ok(ws[0]));
    } else if ws.len() > 1 {
        let p = ws.drop_last();
        assert forall|k: int| 0 <= k < p.len() implies word_ok(#[trigger] p[k]) by {
            assert(p[k] == ws[k]);
        }
        lemma_join_words_shape(p);
        let j = join(p, seq![' ']);
        let w = ws.last();
        assert(word_ok(w));
        let r = j + seq![' '] + w;
        assert(join(ws, seq![' ']) == r);
        assert(!is_ws(j[j.len() - 1]));
        assert forall|i: int| 0 <= i < r.len() && is_ws(#[trigger] r[i]) implies r[i] == ' ' && 0 < i && i + 1
            < r.len() && !is_ws(r[i - 1]) && !is_ws(r[i + 1]) by {
            if i < j.len() {
                assert(r[i] == j[i]);
                assert(is_ws(j[i]));
                assert(r[i - 1] == j[i - 1]);
                assert(r[i + 1] == j[i + 1]);
            } else if i == j.len() {
                assert(r[i - 1] == j[j.len() - 1]);
                assert(r[i + 1] == w[0]);
            } else {
                assert(r[i] == w[i - j.len() - 1]);
            }
        }
    }
}

/// Cleaned text has no whitespace at its ends and no whitespace but
/// single spaces between words.
pub proof fn lemma_cleaned_text_shape(parts: Seq<Seq<char>>)
    ensures
        clean_shape(join_and_clean_spec(parts)),
{
    let s = join(parts, seq![' ']);
    lemma_words_state_ok(s);
    let (done, cur) = words_state(s);
    assert forall|k: int| 0 <= k < words(s).len() implies word_ok(#[trigger] words(s)[k]) by {
        if cur.len() > 0 {
            if k < done.len() {
                assert(words(s)[k] == done[k]);
            } else {
                assert(words(s)[k] == cur);
            }
        } else {
            assert(words(s)[k] == done[k]);
        }
    }
    lemma_join_words_shape(words(s));
}

/// Reading characters that are not whitespace extends the word being read.
proof fn lemma_words_state_extend(t: Seq<char>, w: Seq<char>)
    requires
        forall|j: int| 0 <= j < w.len() ==> !is_ws(#[trigger] w[j]),
    ensures
        words_state(t + w) == (words_state(t).0, words_state(t).1 + w),
    decreases w.len(),
{
    if w.len() == 0 {
        assert(t + w =~= t);
        assert(words_state(t).1 + w =~= words_state(t).1);
    } else {
        let w2 = w.drop_last();
        assert forall|j: int| 0 <= j < w2.len() implies !is_ws(#[trigger] w2[j]) by {
            assert(w2[j] == w[j]);
        }
        lemma_words_state_extend(t, w2);
        assert((t + w).drop_last() =~= t + w2);
        assert((t + w).last() == w.last());
        assert(words_state(t).1 + w =~= (words_state(t).1 + w2).push(w.last()));
    }
}

/// Words joined by single spaces split back into the same words.
proof fn lemma_words_of_joined(ws: Seq<Seq<char>>)
    requires
        forall|k: int| 0 <= k < ws.len() ==> word_ok(#[trigger] ws[k]),
    ensures
        words(join(ws, seq![' '])) == ws,
        ws.len() > 0 ==> words_state(join(ws, seq![' '])).1 == ws.last(),
        ws.len() > 0 ==> words_state(join(ws, seq![' '])).0 == ws.drop_last(),
    decreases ws.len(),
{
    let e = Seq::<char>::empty();
    if ws.len() == 0 {
        assert(words_state(e) == (Seq::<Seq<char>>::empty(), e));
    } else {
        let w = ws.last();
        assert(word_ok(w));
        if ws.len() == 1 {
            lemma_words_state_extend(e, w);
            assert(e + w =~= w);
            assert(words_state(e) == (Seq::<Seq<char>>::empty(), e));
            assert(e + w =~= w);
            assert(ws.drop_last() =~= Seq::<Seq<char>>::empty());
            assert(words(w) =~= ws);
        } else {
            let p = ws.drop_last();
            assert forall|k: int| 0 <= k < p.len() implies word_ok(#[trigger] p[k]) by {
                assert(p[k] == ws[k]);
            }
            lemma_words_of_joined(p);
            let a = join(p, seq![' ']);
            let (done, cur) = words_state(a);
            assert(word_ok(p.last()));
            let a1 = a.push(' ');
            assert(a1.drop_last() =~= a);
            assert(words_state(a1) == (done.push(cur), e));
            lemma_words_state_extend(a1, w);
            assert(join(ws, seq![' ']) =~= a1 + w);
            assert(done.push(cur) =~= ws.drop_last());
            assert(e + w =~= w);
            assert(words(a1 + w) =~= ws);
        }
    }
}

/// Collapsing whitespace keeps the words: the collapsed text splits into
/// exactly the words of the original, in order, and its only whitespace
/// is single spaces between them.
pub proof fn lemma_collapse_keeps_words(s: Seq<char>)
    ensures
        words(collapse(s)) == words(s),
        clean_shape(collapse(s)),
{
    lemma_words_state_ok(s);
    let (done, cur) = words_state(s);
    assert forall|k: int| 0 <= k < words(s).len() implies word_ok(#[trigger] words(s)[k]) by {
        if cur.len() > 0 {
            if k < done.len() {
                assert(words(s)[k] == done[k]);
            } else {
                assert(words(s)[k] == cur);
            }
        } else {
            assert(words(s)[k] == done[k]);
        }
    }
    lemma_words_of_joined(words(s));
    lemma_join_words_shape(words(s));
}

/// The character sequences of a list of character vectors.
pub open spec fn views(v: Seq<Vec<char>>) -> Seq<Seq<char>> {
    v.map_values(|w: Vec<char>| w@)
}

/// Splits `s` into its whitespace-separated words.
pub fn split_words(s: &[char]) -> (r: Vec<Vec<char>>)
    ensures
        views(r@) == words(s@),
{
    let mut done: Vec<Vec<char>> = Vec::new();
    let mut cur: Vec<char> = Vec::new();
    let n = s.len();
    let mut i: usize = 0;
    while i < n
        invariant
            i <= n == s@.len(),
            (views(done@), cur@) == words_state(s@.take(i as int)),
        decreases n - i,
    {
        let c = s[i];
        assert(s@.take(i + 1).drop_last() =~= s@.take(i as int));
        if is_whitespace(c) {
            if cur.len() > 0 {
                let w = cur;
                done.push(w);
                assert(views(done@) =~= words_state(s@.take(i as int)).0.push(w@));
                cur = Vec::new();
            } else {
                cur = Vec::new();
            }
        } else {
            cur.push(c);
        }
        i = i + 1;
    }
    assert(s@.take(n as int) =~= s@);
    if cur.len() > 0 {
        let ghost d = views(done@);
        done.push(cur);
        assert(views(done@) =~= d.push(cur@));
    }
    done
}

/// Joins `parts` with `sep` between neighbours.
pub fn join_chars(parts: &Vec<Vec<char>>, sep: &[char]) -> (r: Vec<char>)
    ensures
        r@ == join(views(parts@), sep@),
{
    let mut r: Vec<char> = Vec::new();
    let n = parts.len();
    let mut i: usize = 0;
    while i < n
        invariant
            i <= n == parts@.len(),
            r@ == join(views(parts@).take(i as int), sep@),
        decreases n - i,
    {
        let ghost before = r@;
        if i > 0 {
            let mut k: usize = 0;
            while k < sep.len()
                invariant
                    k <= sep@.len(),
                    r@ == before + sep@.take(k as int),
                decreases sep@.len() - k,
            {
                r.push(sep[k]);
                assert(sep@.take(k + 1) =~= sep@.take(k as int).push(sep@[k as int]));
                k = k + 1;
            }
        }
        let ghost mid = r@;
        let w = &parts[i];
        let mut k: usize = 0;
        while k < w.len()
            invariant
                k <= w@.len(),
                r@ == mid + w@.take(k as int),
            decreases w@.len() - k,
        {
            r.push(w[k]);
            assert(w@.take(k + 1) =~= w@.take(k as int).push(w@[k as int]));
            k = k + 1;
        }
        assert(w@.take(w@.len() as int) =~= w@);
        assert(sep@.take(sep@.len() as int) =~= sep@);
        assert(views(parts@).take(i + 1).drop_last() =~= views(parts@).take(i as int));
        assert(views(parts@)[i as int] == w@);
        if i == 0 {
            assert(views(parts@).take(1) =~= seq![w@]);
            assert(r@ =~= w@);
        }
        i = i + 1;
    }
    assert(views(parts@).take(n as int) =~= views(parts@));
    r
}

/// The words of `s` joined by single spaces.
pub fn collapse_chars(s: &[char]) -> (r: Vec<char>)
    ensures
        r@ == collapse(s@),
{
    let ws = split_words(s);
    let sep = vec![' '];
    assert(sep@ =~= seq![' ']);
    join_chars(&ws, &sep)
}


/// The characters of `s`, in order.
pub fn chars_of(s: &str) -> (r: Vec<char>)
    ensures
        r@ == s@,
{
    let mut r: Vec<char> = Vec::new();
    for c in it: s.chars()
        invariant
            it.seq() == s@,
            r@ == s@.take(it.index() as int),
    {
        r.push(c);
        assert(s@.take(it.index() + 1) =~= s@.take(it.index() as int).push(c));
    }
    assert(r@ =~= s@);
    r
}


/// A string holding the characters `v`, in order (`String: FromIterator<char>`).
#[verifier::external_body]
pub(crate) fn string_of(v: &[char]) -> (r: String)
    ensures
        r@ == v@,
{
    v.iter().collect::<String>()
}

/// Whether `t` occurs in `s` as a contiguous piece (`str::contains`).
pub open spec fn contains_sub(s: Seq<char>, t: Seq<char>) -> bool {
    exists|i: int| 0 <= i && i + t.len() <= s.len() && #[trigger] s.subrange(i, i + t.len()) == t
}

/// Whether `t` occurs in `s` at position `i`.
pub fn matches_at(s: &[char], t: &[char], i: usize) -> (r: bool)
    requires
        i + t@.len() <= s@.len(),
    ensures
        r == (s@.subrange(i as int, i + t@.len()) == t@),
{
    let m = t.len();
    let n = s.len();
    let mut k: usize = 0;
    while k < m
        invariant
            k <= m == t@.len(),
            n == s@.len(),
            i + m <= n,
            forall|j: int| 0 <= j < k ==> s@[i + j] == t@[j],
        decreases m - k,
    {
        if s[i + k] != t[k] {
            assert(s@.subrange(i as int, i + m)[k as int] != t@[k as int]);
            return false;
        }
        k = k + 1;
    }
    assert(s@.subrange(i as int, i + m) =~= t@);
    true
}

/// Whether `t` occurs in `s` as a contiguous piece.
pub fn contains_chars(s: &[char], t: &[char]) -> (r: bool)
    ensures
        r == contains_sub(s@, t@),
{
    let n = s.len();
    let m = t.len();
    if m > n {
        return false;
    }
    if m == 0 {
        assert(s@.subrange(0int, 0int + t@.len()) =~= t@);
        return true;
    }
    let mut i: usize = 0;
    while i <= n - m
        invariant
            1 <= m <= n,
            i <= n - m + 1,
            n == s@.len(),
            m == t@.len(),
            forall|j: int| 0 <= j < i ==> #[trigger] s@.subrange(j, j + m) != t@,
        decreases n + 1 - i,
    {
        if matches_at(s, t, i) {
            return true;
        }
        i = i + 1;
    }
    assert forall|j: int| 0 <= j && j + t@.len() <= s@.len() implies #[trigger] s@.subrange(j, j + t@.len()) != t@ by {
        assert(j < i);
    }
    false
}

/// Whether `t` is a prefix of `s` (`str::starts_with`).
pub fn starts_with_chars(s: &[char], t: &[char]) -> (r: bool)
    ensures
        r == t@.is_prefix_of(s@),
{
    if t.len() > s.len() {
        return false;
    }
    let r = matches_at(s, t, 0);
    assert(r == (s@.subrange(0, t@.len() as int) =~= t@));
    r
}

/// Whether `t` is a suffix of `s` (`str::ends_with`).
pub fn ends_with_chars(s: &[char], t: &[char]) -> (r: bool)
    ensures
        r == t@.is_suffix_of(s@),
{
    if t.len() > s.len() {
        return false;
    }
    let r = matches_at(s, t, s.len() - t.len());
    assert(r == (s@.subrange(s@.len() - t@.len(), s@.len() as int) =~= t@));
    r
}

/// The ASCII lowercase of a character: `A`..`Z` become `a`..`z`, all else stays.
pub open spec fn ascii_lower(c: char) -> char {
    if 'A' <= c && c <= 'Z' {
        ((c as u32) + 32) as char
    } else {
        c
    }
}

/// Whether every character of `s` is ASCII.
pub open spec fn all_ascii(s: Seq<char>) -> bool {
    forall|i: int| 0 <= i < s.len() ==> (s[i] as u32) < 128
}

/// The ASCII lowercase of `c` (`char::to_ascii_lowercase`).
pub fn to_ascii_lower(c: char) -> (r: char)
    ensures
        r == ascii_lower(c),
{
    if 'A' <= c && c <= 'Z' {
        let b = c as u8;
        ((b + 32) as char)
    } else {
        c
    }
}

/// The ASCII lowercase of every character of `s` (`str::to_ascii_lowercase`).
pub fn to_ascii_lower_chars(s: &[char]) -> (r: Vec<char>)
    ensures
        r@ == s@.map_values(|c: char| ascii_lower(c)),
{
    let mut r: Vec<char> = Vec::new();
    let mut i: usize = 0;
    while i < s.len()
        invariant
            i <= s@.len(),
            r@ == s@.take(i as int).map_values(|c: char| ascii_lower(c)),
        decreases s@.len() - i,
    {
        r.push(to_ascii_lower(s[i]));
        assert(s@.take(i + 1).map_values(|c: char| ascii_lower(c)) =~= s@.take(i as int).map_values(
            |c: char| ascii_lower(c),
        ).push(ascii_lower(s@[i as int])));
        i = i + 1;
    }
    assert(s@.take(s@.len() as int) =~= s@);
    r
}

/// Name for what `str::to_lowercase` returns: the Unicode lowercase mapping
/// of a string.
pub uninterp spec fn unicode_lowercase(s: Seq<char>) -> Seq<char>;

/// The Unicode lowercase of `s`, through `str::to_lowercase`.
///
/// Trusted: the result is `unicode_lowercase(s@)`, and on all-ASCII input it
/// is the ASCII lowercase of each character, as the Unicode lowercase
/// mapping of every ASCII character is its ASCII lowercase.
#[verifier::external_body]
pub(crate) fn lowercase(s: &str) -> (r: String)
    ensures
        r@ == unicode_lowercase(s@),
        all_ascii(s@) ==> r@ == s@.map_values(|c: char| ascii_lower(c)),
{
    s.to_lowercase()
}

} // verus!
