//! robots.txt rules: parsing the file for one user agent, and deciding
//! whether a path may be fetched (longest matching rule wins, `Allow` on a
//! tie).

use vstd::prelude::*;
use crate::urls::{url_parse, UrlView, WebUrl};
use crate::text::{
    chars_of, copy_range, contains_chars, contains_sub, lowercase, starts_with_chars, string_of, trim, trim_chars,
    unicode_lowercase, views,
};

verus! {

// ----------------------------------------------------------------------
// Deciding a path
// ----------------------------------------------------------------------

/// A rule matches a path when it is non-empty and a prefix of the path.
pub open spec fn rule_matches(pattern: Seq<char>, path: Seq<char>) -> bool {
    pattern.len() > 0 && pattern.is_prefix_of(path)
}

/// The length of the longest rule of `patterns` that matches `path`, if any.
pub open spec fn longest_match(patterns: Seq<Seq<char>>, path: Seq<char>) -> Option<nat>
    decreases patterns.len(),
{
    if patterns.len() == 0 {
        None
    } else {
        let rest = longest_match(patterns.drop_last(), path);
        let p = patterns.last();
        if rule_matches(p, path) {
            match rest {
                Some(m) => Some(if m >= p.len() { m } else { p.len() }),
                None => Some(p.len()),
            }
        } else {
            rest
        }
    }
}

/// `longest_match` is the length of the longest non-empty rule of
/// `patterns` that is a prefix of `path`: it is at least as long as every
/// such rule, it is the length of one of them, and there is none exactly
/// when it is `None`.
pub proof fn lemma_longest_match_is_longest(patterns: Seq<Seq<char>>, path: Seq<char>)
    ensures
        forall|i: int|
            0 <= i < patterns.len() && #[trigger] patterns[i].len() > 0 && patterns[i].is_prefix_of(path) ==> (
            longest_match(patterns, path) matches Some(m) && m >= patterns[i].len()),
        longest_match(patterns, path) matches Some(m) ==> exists|i: int|
            0 <= i < patterns.len() && #[trigger] patterns[i].len() == m && m > 0 && patterns[i].is_prefix_of(path),
        longest_match(patterns, path) is None ==> forall|i: int|
            0 <= i < patterns.len() ==> !(#[trigger] patterns[i].len() > 0 && patterns[i].is_prefix_of(path)),
    decreases patterns.len(),
{
    if patterns.len() > 0 {
        let rest = patterns.drop_last();
        lemma_longest_match_is_longest(rest, path);
        let last = patterns.len() - 1;
        assert forall|i: int|
            0 <= i < patterns.len() && #[trigger] patterns[i].len() > 0 && patterns[i].is_prefix_of(path) implies (
            longest_match(patterns, path) matches Some(m) && m >= patterns[i].len()) by {
            if i < last {
                assert(rest[i] == patterns[i]);
            }
        }
        if longest_match(patterns, path) is Some {
            let m = longest_match(patterns, path)->Some_0;
            if rule_matches(patterns[last], path) && (rest.len() == 0 || longest_match(rest, path) is None
                || longest_match(rest, path)->Some_0 < patterns[last].len()) {
                assert(patterns[last].len() == m);
            } else {
                let j = choose|j: int|
                    0 <= j < rest.len() && #[trigger] rest[j].len() == m && m > 0 && rest[j].is_prefix_of(path);
                assert(patterns[j] == rest[j]);
            }
        } else {
            assert forall|i: int| 0 <= i < patterns.len() implies !(#[trigger] patterns[i].len() > 0
                && patterns[i].is_prefix_of(path)) by {
                if i < last {
                    assert(rest[i] == patterns[i]);
                }
            }
        }
    }
}

/// The longest matching rule decides a path, `Allow` winning a tie: a
/// path that no `Disallow` rule matches is allowed; a path matched by a
/// `Disallow` rule longer than every `Allow` rule that matches it is not;
/// a path matched by an `Allow` rule at least as long as every `Disallow`
/// rule that matches it is. (A rule matches a path when it is non-empty and
/// a prefix of it.)
pub proof fn lemma_longest_rule_decides(allow: Seq<Seq<char>>, disallow: Seq<Seq<char>>, path: Seq<char>)
    ensures
        (forall|j: int| 0 <= j < disallow.len() ==> !(#[trigger] disallow[j].len() > 0 && disallow[j].is_prefix_of(path)))
            ==> rules_allow(allow, disallow, path),
        (exists|j: int|
            0 <= j < disallow.len() && #[trigger] disallow[j].len() > 0 && disallow[j].is_prefix_of(path) && forall|i: int|
                0 <= i < allow.len() && #[trigger] allow[i].len() > 0 && allow[i].is_prefix_of(path) ==> allow[i].len()
                    < disallow[j].len()) ==> !rules_allow(allow, disallow, path),
        (exists|i: int|
            0 <= i < allow.len() && #[trigger] allow[i].len() > 0 && allow[i].is_prefix_of(path) && forall|j: int|
                0 <= j < disallow.len() && #[trigger] disallow[j].len() > 0 && disallow[j].is_prefix_of(path)
                    ==> disallow[j].len() <= allow[i].len()) ==> rules_allow(allow, disallow, path),
{
    lemma_longest_match_is_longest(allow, path);
    lemma_longest_match_is_longest(disallow, path);
    if exists|j: int|
        0 <= j < disallow.len() && #[trigger] disallow[j].len() > 0 && disallow[j].is_prefix_of(path) && forall|i: int|
            0 <= i < allow.len() && #[trigger] allow[i].len() > 0 && allow[i].is_prefix_of(path) ==> allow[i].len()
                < disallow[j].len() {
        let j = choose|j: int|
            0 <= j < disallow.len() && #[trigger] disallow[j].len() > 0 && disallow[j].is_prefix_of(path) && forall|i: int|
                0 <= i < allow.len() && #[trigger] allow[i].len() > 0 && allow[i].is_prefix_of(path) ==> allow[i].len()
                    < disallow[j].len();
        assert(disallow[j].len() > 0);
        if longest_match(allow, path) is Some {
            let a = longest_match(allow, path)->Some_0;
            let i = choose|i: int| 0 <= i < allow.len() && #[trigger] allow[i].len() == a && a > 0 && allow[i].is_prefix_of(path);
            assert(allow[i].len() > 0);
        }
    }
    if exists|i: int|
        0 <= i < allow.len() && #[trigger] allow[i].len() > 0 && allow[i].is_prefix_of(path) && forall|j: int|
            0 <= j < disallow.len() && #[trigger] disallow[j].len() > 0 && disallow[j].is_prefix_of(path)
                ==> disallow[j].len() <= allow[i].len() {
        let i = choose|i: int|
            0 <= i < allow.len() && #[trigger] allow[i].len() > 0 && allow[i].is_prefix_of(path) && forall|j: int|
                0 <= j < disallow.len() && #[trigger] disallow[j].len() > 0 && disallow[j].is_prefix_of(path)
                    ==> disallow[j].len() <= allow[i].len();
        assert(allow[i].len() > 0);
        if longest_match(disallow, path) is Some {
            let d = longest_match(disallow, path)->Some_0;
            let j = choose|j: int|
                0 <= j < disallow.len() && #[trigger] disallow[j].len() == d && d > 0 && disallow[j].is_prefix_of(path);
            assert(disallow[j].len() > 0);
        }
    }
    if longest_match(disallow, path) is Some {
        let d = longest_match(disallow, path)->Some_0;
        let j = choose|j: int| 0 <= j < disallow.len() && #[trigger] disallow[j].len() == d && d > 0 && disallow[j].is_prefix_of(path);
        assert(disallow[j].len() > 0);
    }
}

/// A path is allowed unless a `Disallow` rule matches it and no `Allow` rule
/// at least as long matches it.
pub open spec fn rules_allow(allow: Seq<Seq<char>>, disallow: Seq<Seq<char>>, path: Seq<char>) -> bool {
    match (longest_match(allow, path), longest_match(disallow, path)) {
        (Some(a), Some(d)) => a >= d,
        (Some(_), None) => true,
        (None, Some(_)) => false,
        (None, None) => true,
    }
}

/// The rules of a robots.txt file that apply to one user agent.
pub struct RobotsTxt {
    allow: Vec<String>,
    disallow: Vec<String>,
}

/// The character sequences of a list of strings.
pub open spec fn string_views(v: Seq<String>) -> Seq<Seq<char>> {
    v.map_values(|s: String| s@)
}

impl RobotsTxt {
    /// The `Allow` rules.
    pub closed spec fn allow_rules(&self) -> Seq<Seq<char>> {
        string_views(self.allow@)
    }

    /// The `Disallow` rules.
    pub closed spec fn disallow_rules(&self) -> Seq<Seq<char>> {
        string_views(self.disallow@)
    }

    /// A rule set with no rules, which allows every path.
    pub fn empty() -> (r: RobotsTxt)
        ensures
            r.allow_rules() == Seq::<Seq<char>>::empty(),
            r.disallow_rules() == Seq::<Seq<char>>::empty(),
    {
        let r = RobotsTxt { allow: Vec::new(), disallow: Vec::new() };
        assert(r.allow_rules() =~= Seq::<Seq<char>>::empty());
        assert(r.disallow_rules() =~= Seq::<Seq<char>>::empty());
        r
    }

    /// A rule set with the given rules.
    pub fn from_rules(allow: Vec<String>, disallow: Vec<String>) -> (r: RobotsTxt)
        ensures
            r.allow_rules() == string_views(allow@),
            r.disallow_rules() == string_views(disallow@),
    {
        RobotsTxt { allow, disallow }
    }

    /// A copy of this rule set.
    pub fn clone(&self) -> (r: RobotsTxt)
        ensures
            r.allow_rules() == self.allow_rules(),
            r.disallow_rules() == self.disallow_rules(),
    {
        let r = RobotsTxt { allow: clone_strings(&self.allow), disallow: clone_strings(&self.disallow) };
        r
    }

    /// Whether `path` may be fetched under these rules.
    pub fn is_allowed(&self, path: &str) -> (r: bool)
        ensures
            r == rules_allow(self.allow_rules(), self.disallow_rules(), path@),
    {
        let p = chars_of(path);
        let a = longest_match_of(&self.allow, &p);
        let d = longest_match_of(&self.disallow, &p);
        match (a, d) {
            (Some(allow_len), Some(disallow_len)) => allow_len >= disallow_len,
            (Some(_), None) => true,
            (None, Some(_)) => false,
            _ => true,
        }
    }
}

impl Default for RobotsTxt {
    fn default() -> (r: RobotsTxt)
        ensures
            r.allow_rules() == Seq::<Seq<char>>::empty(),
            r.disallow_rules() == Seq::<Seq<char>>::empty(),
    {
        RobotsTxt::empty()
    }
}

/// A copy of a list of strings.
pub fn clone_strings(v: &Vec<String>) -> (r: Vec<String>)
    ensures
        string_views(r@) == string_views(v@),
{
    let mut r: Vec<String> = Vec::new();
    let mut i: usize = 0;
    while i < v.len()
        invariant
            i <= v@.len(),
            string_views(r@) == string_views(v@.take(i as int)),
        decreases v@.len() - i,
    {
        let c = v[i].clone();
        assert(c@ == v@[i as int]@);
        let ghost before = r@;
        r.push(c);
        assert(r@ == before.push(c));
        assert(string_views(r@) =~= string_views(v@.take(i as int)).push(c@));
        assert(string_views(v@.take(i + 1)) =~= string_views(v@.take(i as int)).push(v@[i as int]@));
        i = i + 1;
    }
    assert(v@.take(v@.len() as int) =~= v@);
    r
}

/// The length of the longest of `patterns` that matches `path`.
fn longest_match_of(patterns: &Vec<String>, path: &Vec<char>) -> (r: Option<usize>)
    ensures
        match (r, longest_match(string_views(patterns@), path@)) {
            (Some(a), Some(b)) => a == b,
            (None, None) => true,
            _ => false,
        },
{
    let mut best: Option<usize> = None;
    let mut i: usize = 0;
    while i < patterns.len()
        invariant
            i <= patterns@.len(),
            match (best, longest_match(string_views(patterns@.take(i as int)), path@)) {
                (Some(a), Some(b)) => a == b,
                (None, None) => true,
                _ => false,
            },
        decreases patterns@.len() - i,
    {
        let pat = chars_of(patterns[i].as_str());
        assert(string_views(patterns@.take(i + 1)).drop_last() =~= string_views(patterns@.take(i as int)));
        assert(string_views(patterns@.take(i + 1)).last() == pat@);
        if pat.len() > 0 && starts_with_chars(path, &pat) {
            best = match best {
                Some(m) => Some(if m >= pat.len() { m } else { pat.len() }),
                None => Some(pat.len()),
            };
        }
        i = i + 1;
    }
    assert(patterns@.take(patterns@.len() as int) =~= patterns@);
    best
}


// ----------------------------------------------------------------------
// Reading the file
// ----------------------------------------------------------------------

/// `l` without one trailing carriage return.
pub open spec fn strip_cr(l: Seq<char>) -> Seq<char> {
    if l.len() > 0 && l.last() == '\r' {
        l.drop_last()
    } else {
        l
    }
}

/// The lines of a prefix scan: the lines ended so far and the line being read.
pub open spec fn lines_state(s: Seq<char>) -> (Seq<Seq<char>>, Seq<char>)
    decreases s.len(),
{
    if s.len() == 0 {
        (seq![], seq![])
    } else {
        let (done, cur) = lines_state(s.drop_last());
        if s.last() == '\n' {
            (done.push(strip_cr(cur)), seq![])
        } else {
            (done, cur.push(s.last()))
        }
    }
}

/// The lines of `s` as `str::lines` yields them: split at `\n`, a `\r`
/// before the `\n` dropped, and no empty line after a final `\n`.
pub open spec fn lines_of(s: Seq<char>) -> Seq<Seq<char>> {
    let (done, cur) = lines_state(s);
    if cur.len() > 0 {
        done.push(cur)
    } else {
        done
    }
}

/// The position of the first `c` in `s`, or the length of `s` if there is none.
pub open spec fn find_char(s: Seq<char>, c: char) -> nat
    decreases s.len(),
{
    if s.len() == 0 {
        0
    } else if s[0] == c {
        0
    } else {
        1 + find_char(s.drop_first(), c)
    }
}

/// What comes before the first `c` in `s` (all of `s` if there is none).
pub open spec fn before_char(s: Seq<char>, c: char) -> Seq<char> {
    s.take(find_char(s, c) as int)
}

/// What comes after the first `c` in `s` (nothing if there is none).
pub open spec fn after_char(s: Seq<char>, c: char) -> Seq<char> {
    if find_char(s, c) < s.len() {
        s.skip(find_char(s, c) + 1int)
    } else {
        seq![]
    }
}

/// A line without its comment, trimmed.
pub open spec fn clean_line(line: Seq<char>) -> Seq<char> {
    trim(before_char(line, '#'))
}

/// The directive name of a cleaned line, lowercased.
pub open spec fn directive_of(l: Seq<char>) -> Seq<char> {
    unicode_lowercase(trim(before_char(l, ':')))
}

/// The value of a cleaned line: what follows the first colon, trimmed.
pub open spec fn value_of(l: Seq<char>) -> Seq<char> {
    trim(after_char(l, ':'))
}

/// A group of a robots.txt file: its user agents and rules.
#[verifier::ext_equal]
pub struct GroupSpec {
    pub user_agents: Seq<Seq<char>>,
    pub allow: Seq<Seq<char>>,
    pub disallow: Seq<Seq<char>>,
}

/// A group with no user agents and no rules.
pub open spec fn empty_group() -> GroupSpec {
    GroupSpec { user_agents: seq![], allow: seq![], disallow: seq![] }
}

/// The state of reading a robots.txt file line by line.
#[verifier::ext_equal]
pub struct ParseState {
    pub groups: Seq<GroupSpec>,
    pub current: GroupSpec,
    pub last_was_agent: bool,
}

/// The state before the first line.
pub open spec fn initial_state() -> ParseState {
    ParseState { groups: seq![], current: empty_group(), last_was_agent: false }
}

/// The effect of one line. A `User-agent` line that follows a rule closes
/// the current group and opens a new one; consecutive `User-agent` lines
/// share a group; `Allow` and `Disallow` add to the current group; other
/// directives only end a run of `User-agent` lines; blank and comment lines
/// change nothing.
pub open spec fn line_step(st: ParseState, line: Seq<char>) -> ParseState {
    let l = clean_line(line);
    if l.len() == 0 {
        st
    } else {
        let d = directive_of(l);
        let v = value_of(l);
        if d == "user-agent"@ {
            let closes = st.current.user_agents.len() > 0 && !st.last_was_agent;
            let groups = if closes { st.groups.push(st.current) } else { st.groups };
            let cur = if closes { empty_group() } else { st.current };
            ParseState {
                groups,
                current: GroupSpec {
                    user_agents: cur.user_agents.push(unicode_lowercase(v)),
                    allow: cur.allow,
                    disallow: cur.disallow,
                },
                last_was_agent: true,
            }
        } else if d == "allow"@ {
            ParseState {
                groups: st.groups,
                current: GroupSpec {
                    user_agents: st.current.user_agents,
                    allow: st.current.allow.push(v),
                    disallow: st.current.disallow,
                },
                last_was_agent: false,
            }
        } else if d == "disallow"@ {
            ParseState {
                groups: st.groups,
                current: GroupSpec {
                    user_agents: st.current.user_agents,
                    allow: st.current.allow,
                    disallow: st.current.disallow.push(v),
                },
                last_was_agent: false,
            }
        } else {
            ParseState { groups: st.groups, current: st.current, last_was_agent: false }
        }
    }
}

/// `find_char` is the position of the first `c` in `s`, or the length of
/// `s` where there is none.
pub proof fn lemma_find_char(s: Seq<char>, c: char)
    ensures
        find_char(s, c) <= s.len(),
        forall|i: int| 0 <= i < find_char(s, c) ==> #[trigger] s[i] != c,
        find_char(s, c) < s.len() ==> s[find_char(s, c) as int] == c,
    decreases s.len(),
{
    if s.len() > 0 && s[0] != c {
        lemma_find_char(s.drop_first(), c);
        assert forall|i: int| 0 <= i < find_char(s, c) implies #[trigger] s[i] != c by {
            if i > 0 {
                assert(s[i] == s.drop_first()[i - 1]);
            }
        }
    }
}

/// What one line of robots.txt does. Its comment, from the first `#`, is
/// dropped and the rest trimmed; a line left empty changes nothing. Its
/// directive is the text before the first `:`, trimmed and lowercased, and
/// its value the text after it, trimmed. An `allow` line adds its value to
/// the current group's `Allow` rules and a `disallow` line to its
/// `Disallow` rules, and nothing else; a `user-agent` line adds its value,
/// lowercased, to the current group's user agents, or to a new group where
/// the current one has had a rule since its last user agent; any other
/// directive leaves the groups as they are.
pub proof fn lemma_line_effects(st: ParseState, line: Seq<char>)
    ensures
        ({
            let l = trim(line.take(find_char(line, '#') as int));
            let d = unicode_lowercase(trim(l.take(find_char(l, ':') as int)));
            let v = trim(
                if find_char(l, ':') < l.len() {
                    l.skip(find_char(l, ':') + 1int)
                } else {
                    Seq::<char>::empty()
                },
            );
            let r = line_step(st, line);
            &&& l.len() == 0 ==> r == st
            &&& (l.len() > 0 && d == "allow"@) ==> r.groups == st.groups && r.current.allow == st.current.allow.push(v)
                && r.current.disallow == st.current.disallow && r.current.user_agents == st.current.user_agents
            &&& (l.len() > 0 && d == "disallow"@) ==> r.groups == st.groups && r.current.disallow
                == st.current.disallow.push(v) && r.current.allow == st.current.allow && r.current.user_agents
                == st.current.user_agents
            &&& (l.len() > 0 && d == "user-agent"@) ==> r.last_was_agent && if st.current.user_agents.len() > 0
                && !st.last_was_agent {
                r.groups == st.groups.push(st.current) && r.current.user_agents == seq![unicode_lowercase(v)]
                    && r.current.allow.len() == 0 && r.current.disallow.len() == 0
            } else {
                r.groups == st.groups && r.current.user_agents == st.current.user_agents.push(unicode_lowercase(v))
                    && r.current.allow == st.current.allow && r.current.disallow == st.current.disallow
            }
            &&& (l.len() > 0 && d != "allow"@ && d != "disallow"@ && d != "user-agent"@) ==> r.groups == st.groups
                && r.current == st.current
        }),
{
    reveal_strlit("allow");
    reveal_strlit("disallow");
    reveal_strlit("user-agent");
    let l = clean_line(line);
    assert(l == trim(line.take(find_char(line, '#') as int)));
    assert(empty_group().user_agents.push(unicode_lowercase(value_of(l))) =~= seq![unicode_lowercase(value_of(l))]);
    let d = unicode_lowercase(trim(l.take(find_char(l, ':') as int)));
    assert(d == directive_of(l));
    let r = line_step(st, line);
    assert(l.len() == 0 ==> r == st);
    assert((l.len() > 0 && d == "allow"@) ==> r.groups == st.groups && r.current.allow == st.current.allow.push(value_of(l)));
    assert((l.len() > 0 && d == "disallow"@) ==> r.groups == st.groups);
    assert((l.len() > 0 && d != "allow"@ && d != "disallow"@ && d != "user-agent"@) ==> r.groups == st.groups && r.current == st.current);
}

/// The state after reading `lines` in order.
pub open spec fn run_lines(lines: Seq<Seq<char>>) -> ParseState
    decreases lines.len(),
{
    if lines.len() == 0 {
        initial_state()
    } else {
        line_step(run_lines(lines.drop_last()), lines.last())
    }
}

/// The groups of a robots.txt file, in order; a trailing group counts when
/// it names a user agent.
pub open spec fn groups_of(body: Seq<char>) -> Seq<GroupSpec> {
    let st = run_lines(lines_of(body));
    if st.current.user_agents.len() > 0 {
        st.groups.push(st.current)
    } else {
        st.groups
    }
}

/// Whether a group names a user agent other than `*` that is contained in
/// `agent`.
pub open spec fn group_applies(g: GroupSpec, agent: Seq<char>) -> bool {
    exists|i: int|
        0 <= i < g.user_agents.len() && #[trigger] g.user_agents[i] != "*"@ && contains_sub(agent, g.user_agents[i])
}

/// Whether a group names `*`.
pub open spec fn group_is_wildcard(g: GroupSpec) -> bool {
    exists|i: int| 0 <= i < g.user_agents.len() && #[trigger] g.user_agents[i] == "*"@
}

/// The first group that names part of `agent` (or, with `wildcard_only`,
/// the first that names `*`).
pub open spec fn first_group(gs: Seq<GroupSpec>, agent: Seq<char>, wildcard_only: bool) -> Option<GroupSpec>
    decreases gs.len(),
{
    if gs.len() == 0 {
        None
    } else if (if wildcard_only { group_is_wildcard(gs[0]) } else { group_applies(gs[0], agent) }) {
        Some(gs[0])
    } else {
        first_group(gs.drop_first(), agent, wildcard_only)
    }
}

/// `first_group` gives the first group that passes its test, and none
/// where no group does.
proof fn lemma_first_group(gs: Seq<GroupSpec>, agent: Seq<char>, wildcard_only: bool)
    ensures
        first_group(gs, agent, wildcard_only) matches Some(g) ==> exists|i: int|
            0 <= i < gs.len() && #[trigger] gs[i] == g && (if wildcard_only {
                group_is_wildcard(gs[i])
            } else {
                group_applies(gs[i], agent)
            }) && forall|j: int|
                0 <= j < i ==> !(if wildcard_only {
                    group_is_wildcard(#[trigger] gs[j])
                } else {
                    group_applies(gs[j], agent)
                }),
        first_group(gs, agent, wildcard_only) is None ==> forall|i: int|
            0 <= i < gs.len() ==> !(if wildcard_only {
                group_is_wildcard(#[trigger] gs[i])
            } else {
                group_applies(gs[i], agent)
            }),
    decreases gs.len(),
{
    if gs.len() > 0 {
        let rest = gs.drop_first();
        lemma_first_group(rest, agent, wildcard_only);
        let t = if wildcard_only { group_is_wildcard(gs[0]) } else { group_applies(gs[0], agent) };
        if t {
            assert(gs[0] == gs[0]);
        } else {
            if first_group(rest, agent, wildcard_only) is Some {
                let g = first_group(rest, agent, wildcard_only)->Some_0;
                let i = choose|i: int|
                    0 <= i < rest.len() && #[trigger] rest[i] == g && (if wildcard_only {
                        group_is_wildcard(rest[i])
                    } else {
                        group_applies(rest[i], agent)
                    }) && forall|j: int|
                        0 <= j < i ==> !(if wildcard_only {
                            group_is_wildcard(#[trigger] rest[j])
                        } else {
                            group_applies(rest[j], agent)
                        });
                assert(gs[i + 1] == rest[i]);
                assert forall|j: int| 0 <= j < i + 1 implies !(if wildcard_only {
                    group_is_wildcard(#[trigger] gs[j])
                } else {
                    group_applies(gs[j], agent)
                }) by {
                    if j > 0 {
                        assert(gs[j] == rest[j - 1]);
                    }
                }
            } else {
                assert forall|i: int| 0 <= i < gs.len() implies !(if wildcard_only {
                    group_is_wildcard(#[trigger] gs[i])
                } else {
                    group_applies(gs[i], agent)
                }) by {
                    if i > 0 {
                        assert(gs[i] == rest[i - 1]);
                    }
                }
            }
        }
    }
}

/// Which group a crawler follows, of the groups of a robots.txt body: the
/// first group that names a user agent other than `*` contained in the
/// crawler's lowercased name; where there is none, the first group that
/// names `*`; where there is none either, no rules.
pub proof fn lemma_group_choice(body: Seq<char>, user_agent: Seq<char>)
    ensures
        ({
            let gs = groups_of(body);
            let a = unicode_lowercase(user_agent);
            let g = selected_group(body, user_agent);
            &&& (exists|i: int|
                #![trigger gs[i]]
                0 <= i < gs.len() && exists|k: int|
                    0 <= k < gs[i].user_agents.len() && #[trigger] gs[i].user_agents[k] != "*"@ && contains_sub(
                        a,
                        gs[i].user_agents[k],
                    )) ==> exists|i: int|
                0 <= i < gs.len() && #[trigger] gs[i] == g && (exists|k: int|
                    0 <= k < gs[i].user_agents.len() && #[trigger] gs[i].user_agents[k] != "*"@ && contains_sub(
                        a,
                        gs[i].user_agents[k],
                    )) && forall|j: int|
                    #![trigger gs[j]]
                    0 <= j < i ==> !exists|k: int|
                        0 <= k < gs[j].user_agents.len() && #[trigger] gs[j].user_agents[k] != "*"@ && contains_sub(
                            a,
                            gs[j].user_agents[k],
                        )
            &&& (forall|i: int|
                #![trigger gs[i]]
                0 <= i < gs.len() ==> !exists|k: int|
                    0 <= k < gs[i].user_agents.len() && #[trigger] gs[i].user_agents[k] != "*"@ && contains_sub(
                        a,
                        gs[i].user_agents[k],
                    )) ==> if exists|i: int|
                #![trigger gs[i]]
                0 <= i < gs.len() && exists|k: int|
                    0 <= k < gs[i].user_agents.len() && #[trigger] gs[i].user_agents[k] == "*"@ {
                exists|i: int|
                    0 <= i < gs.len() && #[trigger] gs[i] == g && (exists|k: int|
                        0 <= k < gs[i].user_agents.len() && #[trigger] gs[i].user_agents[k] == "*"@) && forall|j: int|
                        #![trigger gs[j]]
                        0 <= j < i ==> !exists|k: int| 0 <= k < gs[j].user_agents.len() && #[trigger] gs[j].user_agents[k] == "*"@
            } else {
                g.allow.len() == 0 && g.disallow.len() == 0
            }
        }),
{
    let gs = groups_of(body);
    let a = unicode_lowercase(user_agent);
    lemma_first_group(gs, a, false);
    lemma_first_group(gs, a, true);
}

/// The group whose rules a crawler named `user_agent` follows: the first
/// group that names part of its (lowercased) name, else the first that
/// names `*`, else no rules. A group of the crawler's own thus wins over a
/// `*` group wherever the two stand.
pub open spec fn selected_group(body: Seq<char>, user_agent: Seq<char>) -> GroupSpec {
    let gs = groups_of(body);
    let agent = unicode_lowercase(user_agent);
    match first_group(gs, agent, false) {
        Some(g) => g,
        None => match first_group(gs, agent, true) {
            Some(g) => g,
            None => empty_group(),
        },
    }
}

/// Splits `s` into lines as `str::lines` does.
pub fn split_lines(s: &[char]) -> (r: Vec<Vec<char>>)
    ensures
        views(r@) == lines_of(s@),
{
    let mut done: Vec<Vec<char>> = Vec::new();
    let mut cur: Vec<char> = Vec::new();
    let n = s.len();
    let mut i: usize = 0;
    while i < n
        invariant
            i <= n == s@.len(),
            (views(done@), cur@) == lines_state(s@.take(i as int)),
        decreases n - i,
    {
        let c = s[i];
        assert(s@.take(i + 1).drop_last() =~= s@.take(i as int));
        if c == '\n' {
            let mut w = cur;
            if w.len() > 0 && w[w.len() - 1] == '\r' {
                let ghost before = w@;
                w.pop();
                assert(w@ =~= before.drop_last());
            }
            let ghost d = views(done@);
            done.push(w);
            assert(views(done@) =~= d.push(w@));
            cur = Vec::new();
        } else {
            cur.push(c);
        }
        i = i + 1;
    }
    assert(s@.take(n as int) =~= s@);
    if cur.len() > 0 {
        let ghost d = views(done@);
        done.push(cur);
        assert(views(done@) =~= d.push(cur@));
    }
    done
}

/// The position of the first `c` in `s`, or the length of `s`.
pub fn find_char_in(s: &[char], c: char) -> (r: usize)
    ensures
        r == find_char(s@, c),
        r <= s@.len(),
{
    let n = s.len();
    let mut i: usize = 0;
    assert(s@.skip(0) =~= s@);
    while i < n && s[i] != c
        invariant
            i <= n == s@.len(),
            find_char(s@, c) == i + find_char(s@.skip(i as int), c),
        decreases n - i,
    {
        assert(s@.skip(i as int).drop_first() =~= s@.skip(i + 1));
        i = i + 1;
    }
    i
}

/// The lowercase of a character sequence, through `lowercase`.
fn lower_chars(v: &[char]) -> (r: Vec<char>)
    ensures
        r@ == unicode_lowercase(v@),
{
    let s = string_of(v);
    let l = lowercase(s.as_str());
    chars_of(l.as_str())
}

/// Whether two character sequences are equal.
pub fn chars_eq(a: &[char], b: &[char]) -> (r: bool)
    ensures
        r == (a@ == b@),
{
    if a.len() != b.len() {
        return false;
    }
    let mut i: usize = 0;
    while i < a.len()
        invariant
            i <= a@.len() == b@.len(),
            forall|j: int| 0 <= j < i ==> a@[j] == b@[j],
        decreases a@.len() - i,
    {
        if a[i] != b[i] {
            return false;
        }
        i = i + 1;
    }
    assert(a@ =~= b@);
    true
}


/// A line without its comment, trimmed.
fn clean_line_chars(line: &[char]) -> (r: Vec<char>)
    ensures
        r@ == clean_line(line@),
{
    let f = find_char_in(line, '#');
    let before = copy_range(line, 0, f);
    assert(before@ =~= before_char(line@, '#'));
    trim_chars(&before)
}

/// The lowercased directive name and the trimmed value of a cleaned line.
fn directive_and_value(l: &[char]) -> (r: (Vec<char>, Vec<char>))
    ensures
        r.0@ == directive_of(l@),
        r.1@ == value_of(l@),
{
    let f = find_char_in(l, ':');
    let before = copy_range(l, 0, f);
    assert(before@ =~= before_char(l@, ':'));
    let d = lower_chars(&trim_chars(&before));
    let after = if f < l.len() {
        let a = copy_range(l, f + 1, l.len());
        assert(a@ =~= after_char(l@, ':'));
        a
    } else {
        let a: Vec<char> = Vec::new();
        assert(a@ =~= after_char(l@, ':'));
        a
    };
    (d, trim_chars(&after))
}

/// A group while the file is read.
struct RuleGroup {
    user_agents: Vec<Vec<char>>,
    allow: Vec<Vec<char>>,
    disallow: Vec<Vec<char>>,
}

impl RuleGroup {
    closed spec fn spec_group(&self) -> GroupSpec {
        GroupSpec {
            user_agents: views(self.user_agents@),
            allow: views(self.allow@),
            disallow: views(self.disallow@),
        }
    }

    fn new() -> (r: RuleGroup)
        ensures
            r.spec_group() == empty_group(),
    {
        let r = RuleGroup { user_agents: Vec::new(), allow: Vec::new(), disallow: Vec::new() };
        assert(r.spec_group() =~= empty_group());
        r
    }
}

/// The group views of a list of groups.
closed spec fn group_views(gs: Seq<RuleGroup>) -> Seq<GroupSpec> {
    gs.map_values(|g: RuleGroup| g.spec_group())
}

/// Appends `x` to a list of character vectors.
fn push_chars(v: &mut Vec<Vec<char>>, x: Vec<char>)
    ensures
        views(final(v)@) == views(old(v)@).push(x@),
{
    let ghost before = views(v@);
    v.push(x);
    assert(views(v@) =~= before.push(x@));
}

/// Whether `g` names a user agent other than `*` contained in `agent` (or,
/// with `wildcard_only`, whether it names `*`).
fn group_matches(g: &RuleGroup, agent: &Vec<char>, star: &Vec<char>, wildcard_only: bool) -> (r: bool)
    requires
        star@ == "*"@,
    ensures
        r == (if wildcard_only { group_is_wildcard(g.spec_group()) } else { group_applies(g.spec_group(), agent@) }),
{
    let mut i: usize = 0;
    let ghost gs = g.spec_group();
    while i < g.user_agents.len()
        invariant
            i <= g.user_agents@.len(),
            star@ == "*"@,
            gs == g.spec_group(),
            forall|j: int|
                0 <= j < i ==> !(if wildcard_only {
                    #[trigger] gs.user_agents[j] == "*"@
                } else {
                    gs.user_agents[j] != "*"@ && contains_sub(agent@, gs.user_agents[j])
                }),
        decreases g.user_agents@.len() - i,
    {
        let ua = &g.user_agents[i];
        assert(gs.user_agents[i as int] == ua@);
        let is_star = chars_eq(ua, star);
        if wildcard_only {
            if is_star {
                return true;
            }
        } else if !is_star && contains_chars(agent, ua) {
            return true;
        }
        i = i + 1;
    }
    proof {
        if wildcard_only {
            assert(!group_is_wildcard(gs));
        } else {
            assert(!group_applies(gs, agent@));
        }
    }
    false
}

/// The index of the first group of `gs` that `group_matches` accepts.
fn first_group_index(gs: &Vec<RuleGroup>, agent: &Vec<char>, star: &Vec<char>, wildcard_only: bool) -> (r: Option<usize>)
    requires
        star@ == "*"@,
    ensures
        match r {
            Some(i) => i < gs@.len() && first_group(group_views(gs@), agent@, wildcard_only) == Some(
                group_views(gs@)[i as int],
            ),
            None => first_group(group_views(gs@), agent@, wildcard_only) is None,
        },
{
    let ghost all = group_views(gs@);
    let mut i: usize = 0;
    assert(all.skip(0) =~= all);
    while i < gs.len()
        invariant
            i <= gs@.len() == all.len(),
            star@ == "*"@,
            all == group_views(gs@),
            first_group(all, agent@, wildcard_only) == first_group(all.skip(i as int), agent@, wildcard_only),
        decreases gs@.len() - i,
    {
        assert(all.skip(i as int)[0] == all[i as int]);
        if group_matches(&gs[i], agent, star, wildcard_only) {
            return Some(i);
        }
        assert(all.skip(i as int).drop_first() =~= all.skip(i + 1));
        i = i + 1;
    }
    None
}

/// Strings holding the given character sequences.
fn strings_of(v: &Vec<Vec<char>>) -> (r: Vec<String>)
    ensures
        string_views(r@) == views(v@),
{
    let mut r: Vec<String> = Vec::new();
    let mut i: usize = 0;
    while i < v.len()
        invariant
            i <= v@.len(),
            string_views(r@) == views(v@.take(i as int)),
        decreases v@.len() - i,
    {
        let s = string_of(&v[i]);
        let ghost before = r@;
        r.push(s);
        assert(string_views(r@) =~= string_views(before).push(s@));
        assert(views(v@.take(i + 1)) =~= views(v@.take(i as int)).push(v@[i as int]@));
        i = i + 1;
    }
    assert(v@.take(v@.len() as int) =~= v@);
    r
}

/// The rules of the robots.txt text `body` that a crawler named
/// `user_agent` follows.
pub fn parse_robots_txt(body: &str, user_agent: &str) -> (r: RobotsTxt)
    ensures
        r.allow_rules() == selected_group(body@, user_agent@).allow,
        r.disallow_rules() == selected_group(body@, user_agent@).disallow,
{
    let chars = chars_of(body);
    let lines = split_lines(&chars);
    let ua_word = chars_of("user-agent");
    let allow_word = chars_of("allow");
    let disallow_word = chars_of("disallow");
    let mut groups: Vec<RuleGroup> = Vec::new();
    let mut current = RuleGroup::new();
    let mut last_was_agent = false;
    let ghost all_lines = views(lines@);
    let mut i: usize = 0;
    while i < lines.len()
        invariant
            i <= lines@.len(),
            all_lines == views(lines@),
            all_lines == lines_of(body@),
            ua_word@ == "user-agent"@,
            allow_word@ == "allow"@,
            disallow_word@ == "disallow"@,
            (ParseState { groups: group_views(groups@), current: current.spec_group(), last_was_agent })
                == run_lines(all_lines.take(i as int)),
        decreases lines@.len() - i,
    {
        let ghost st = run_lines(all_lines.take(i as int));
        assert(all_lines.take(i + 1).drop_last() =~= all_lines.take(i as int));
        assert(all_lines.take(i + 1).last() == lines@[i as int]@);
        let l = clean_line_chars(&lines[i]);
        if l.len() > 0 {
            let (d, v) = directive_and_value(&l);
            if chars_eq(&d, &ua_word) {
                if current.user_agents.len() > 0 && !last_was_agent {
                    let ghost gv = group_views(groups@);
                    let done = current;
                    groups.push(done);
                    assert(group_views(groups@) =~= gv.push(done.spec_group()));
                    current = RuleGroup::new();
                }
                let lv = lower_chars(&v);
                push_chars(&mut current.user_agents, lv);
                last_was_agent = true;
            } else if chars_eq(&d, &allow_word) {
                push_chars(&mut current.allow, v);
                last_was_agent = false;
            } else if chars_eq(&d, &disallow_word) {
                push_chars(&mut current.disallow, v);
                last_was_agent = false;
            } else {
                last_was_agent = false;
            }
        }
        assert((ParseState { groups: group_views(groups@), current: current.spec_group(), last_was_agent })
            =~= line_step(st, lines@[i as int]@));
        i = i + 1;
    }
    assert(all_lines.take(lines@.len() as int) =~= all_lines);
    if current.user_agents.len() > 0 {
        let ghost gv = group_views(groups@);
        groups.push(current);
        assert(group_views(groups@) =~= gv.push(current.spec_group()));
    }
    assert(group_views(groups@) == groups_of(body@));
    let uc = chars_of(user_agent);
    let agent = lower_chars(&uc);
    let star = chars_of("*");
    let pick = match first_group_index(&groups, &agent, &star, false) {
        Some(k) => Some(k),
        None => first_group_index(&groups, &agent, &star, true),
    };
    match pick {
        Some(k) => {
            let g = &groups[k];
            assert(group_views(groups@)[k as int] == g.spec_group());
            RobotsTxt::from_rules(strings_of(&g.allow), strings_of(&g.disallow))
        },
        None => RobotsTxt::empty(),
    }
}

// ----------------------------------------------------------------------
// Remembering each site's rules
// ----------------------------------------------------------------------

/// The rules of a rule set, as `(allow, disallow)`.
pub open spec fn rules_of(r: RobotsTxt) -> (Seq<Seq<char>>, Seq<Seq<char>>) {
    (r.allow_rules(), r.disallow_rules())
}

/// The key under which a site's rules are remembered: `scheme://host`;
/// `None` for a URL without a host.
pub open spec fn robots_key(u: UrlView) -> Option<Seq<char>> {
    match u.host {
        Some(h) => Some(u.scheme + "://"@ + h),
        None => None,
    }
}

/// The answer for `u` from the rules `known` for each site key: a URL
/// without a host may be fetched; a URL of a site whose rules are known is
/// answered by them; `None` where its site's rules are not known.
pub open spec fn robots_answer(known: Map<Seq<char>, (Seq<Seq<char>>, Seq<Seq<char>>)>, u: UrlView) -> Option<bool> {
    match robots_key(u) {
        None => Some(true),
        Some(k) => if known.contains_key(k) {
            Some(rules_allow(known[k].0, known[k].1, u.path))
        } else {
            None
        },
    }
}

/// The allow and disallow rules that a robots.txt response gives for
/// `agent`: none where the fetch failed (`None`) or the status is 404,
/// else those of the group that `agent` follows.
pub open spec fn response_rules(agent: Seq<char>, response: Option<(u16, String)>) -> (Seq<Seq<char>>, Seq<Seq<char>>) {
    match response {
        Some((status, body)) => if status == 404 {
            (seq![], seq![])
        } else {
            (selected_group(body@, agent).allow, selected_group(body@, agent).disallow)
        },
        None => (seq![], seq![]),
    }
}

/// What checking a URL against robots.txt gives.
pub enum RobotsDecision {
    /// The answer is known: whether the URL may be fetched.
    Known(bool),
    /// The site's rules are not known yet: fetch `robots_url`, turn the
    /// response into rules with [`RobotsManager::rules_from`], remember
    /// them under `key` with [`RobotsManager::remember`], and check again.
    Fetch {
        /// The key the rules are remembered under.
        key: String,
        /// The site's robots.txt URL.
        robots_url: WebUrl,
    },
}

/// The robots.txt rules of each site seen so far, for one user agent.
pub struct RobotsManager {
    user_agent: String,
    cache: Vec<(String, RobotsTxt)>,
}

/// The keys of a list of cache entries.
pub open spec fn entry_keys(c: Seq<(String, RobotsTxt)>) -> Seq<Seq<char>> {
    c.map_values(|e: (String, RobotsTxt)| e.0@)
}

/// The rules remembered under each key.
pub open spec fn entry_map(c: Seq<(String, RobotsTxt)>) -> Map<Seq<char>, (Seq<Seq<char>>, Seq<Seq<char>>)>
    decreases c.len(),
{
    if c.len() == 0 {
        Map::empty()
    } else {
        entry_map(c.drop_last()).insert(c.last().0@, rules_of(c.last().1))
    }
}

impl RobotsManager {
    /// The user agent whose rules are followed.
    pub closed spec fn agent(&self) -> Seq<char> {
        self.user_agent@
    }

    /// The rules remembered for each site key.
    pub closed spec fn known(&self) -> Map<Seq<char>, (Seq<Seq<char>>, Seq<Seq<char>>)> {
        entry_map(self.cache@)
    }

    /// Every key is remembered once.
    #[verifier::type_invariant]
    spec fn distinct_keys(&self) -> bool {
        entry_keys(self.cache@).no_duplicates()
    }

    /// A manager for `user_agent` that knows no site yet.
    pub fn new(user_agent: String) -> (r: RobotsManager)
        ensures
            r.agent() == user_agent@,
            r.known() == Map::<Seq<char>, (Seq<Seq<char>>, Seq<Seq<char>>)>::empty(),
    {
        let r = RobotsManager { user_agent, cache: Vec::new() };
        assert(entry_keys(r.cache@) =~= Seq::<Seq<char>>::empty());
        r
    }

    /// The position of the entry for `key`, if any.
    fn find(&self, key: &Vec<char>) -> (r: Option<usize>)
        ensures
            match r {
                Some(i) => i < self.cache@.len() && self.cache@[i as int].0@ == key@ && self.known().contains_key(key@)
                    && self.known()[key@] == rules_of(self.cache@[i as int].1),
                None => !self.known().contains_key(key@),
            },
    {
        proof {
            use_type_invariant(self);
        }
        let mut i: usize = 0;
        while i < self.cache.len()
            invariant
                entry_keys(self.cache@).no_duplicates(),
                i <= self.cache@.len(),
                forall|j: int| 0 <= j < i ==> self.cache@[j].0@ != key@,
            decreases self.cache@.len() - i,
        {
            if chars_eq(&chars_of(self.cache[i].0.as_str()), key) {
                proof {
                    lemma_entry_lookup(self.cache@, i as int);
                }
                return Some(i);
            }
            i = i + 1;
        }
        proof {
            lemma_entry_absent(self.cache@, key@);
        }
        None
    }

    /// Checks `url` against the rules of its site: a URL without a host
    /// may be fetched; a site whose rules are known is answered from them;
    /// otherwise the site's robots.txt URL is to be fetched, unless it does
    /// not parse, and then the URL may be fetched.
    pub fn check(&self, url: &WebUrl) -> (r: RobotsDecision)
        ensures
            match robots_answer(self.known(), url@) {
                Some(b) => r matches RobotsDecision::Known(a) && a == b,
                None => match url_parse(robots_key(url@)->Some_0 + "/robots.txt"@) {
                    Err(_) => r matches RobotsDecision::Known(true),
                    Ok(ru) => r matches RobotsDecision::Fetch { key, robots_url } && key@ == robots_key(url@)->Some_0
                        && robots_url@ == ru,
                },
            },
    {
        let key = match site_key(url) {
            Some(k) => k,
            None => return RobotsDecision::Known(true),
        };
        match self.find(&key) {
            Some(i) => {
                let rules = &self.cache[i].1;
                RobotsDecision::Known(rules.is_allowed(url.path()))
            },
            None => {
                let mut target = copy_range(&key, 0, key.len());
                assert(target@ =~= key@);
                append_chars(&mut target, &chars_of("/robots.txt"));
                assert(target@ == key@ + "/robots.txt"@);
                match WebUrl::parse(string_of(&target).as_str()) {
                    Ok(robots_url) => RobotsDecision::Fetch { key: string_of(&key), robots_url },
                    Err(_) => RobotsDecision::Known(true),
                }
            },
        }
    }

    /// Learns the rules of `url`'s site from the site's robots.txt
    /// `response` and answers `url` by them. A URL without a host may be
    /// fetched, and nothing is learned; otherwise the response's rules (see
    /// [`RobotsManager::rules_from`]) are remembered under the site's key,
    /// replacing what was there, and `url` is answered by them.
    pub fn learn(&mut self, url: &WebUrl, response: &Option<(u16, String)>) -> (r: bool)
        ensures
            final(self).agent() == old(self).agent(),
            match robots_key(url@) {
                None => r && final(self).known() == old(self).known(),
                Some(k) => {
                    let rs = response_rules(old(self).agent(), *response);
                    &&& final(self).known() == old(self).known().insert(k, rs)
                    &&& r == rules_allow(rs.0, rs.1, url@.path)
                },
            },
    {
        let key = match site_key(url) {
            Some(k) => k,
            None => return true,
        };
        let rules = self.rules_from(response);
        assert(rules_of(rules) == response_rules(self.agent(), *response));
        let allowed = rules.is_allowed(url.path());
        self.remember(string_of(&key), rules);
        allowed
    }

    /// The rules a robots.txt response gives: none where the fetch failed
    /// (`None`) or the status is 404, else the file's rules for this
    /// manager's user agent.
    pub fn rules_from(&self, response: &Option<(u16, String)>) -> (r: RobotsTxt)
        ensures
            match *response {
                Some((status, body)) => if status == 404 {
                    r.allow_rules().len() == 0 && r.disallow_rules().len() == 0
                } else {
                    r.allow_rules() == selected_group(body@, self.agent()).allow
                        && r.disallow_rules() == selected_group(body@, self.agent()).disallow
                },
                None => r.allow_rules().len() == 0 && r.disallow_rules().len() == 0,
            },
    {
        match response {
            Some((status, body)) => if *status == 404 {
                RobotsTxt::empty()
            } else {
                parse_robots_txt(body.as_str(), self.user_agent.as_str())
            },
            None => RobotsTxt::empty(),
        }
    }

    /// Remembers `rules` under `key`, replacing what was there.
    pub fn remember(&mut self, key: String, rules: RobotsTxt)
        ensures
            final(self).agent() == old(self).agent(),
            final(self).known() == old(self).known().insert(key@, rules_of(rules)),
    {
        proof {
            use_type_invariant(&*self);
        }
        let k = chars_of(key.as_str());
        let found = self.find(&k);
        let ghost c = self.cache@;
        let mut cache: Vec<(String, RobotsTxt)> = Vec::new();
        std::mem::swap(&mut cache, &mut self.cache);
        match found {
            Some(i) => {
                let _replaced = cache.remove(i);
                proof {
                    lemma_entry_remove(c, i as int);
                }
                let ghost c2 = cache@;
                cache.push((key, rules));
                assert(cache@.drop_last() =~= c2);
                assert(entry_keys(cache@) =~= entry_keys(c2).push(k@));
                proof {
                    assert(c2 == c.remove(i as int));
                    assert(entry_keys(c)[i as int] == k@);
                    assert(!entry_keys(c2).contains(k@)) by {
                        if entry_keys(c2).contains(k@) {
                            let j = choose|j: int| 0 <= j < entry_keys(c2).len() && entry_keys(c2)[j] == k@;
                            if j < i {
                                assert(c2[j] == c[j]);
                                assert(entry_keys(c)[j] == k@);
                            } else {
                                assert(c2[j] == c[j + 1]);
                                assert(entry_keys(c)[j + 1] == k@);
                            }
                        }
                    }
                    lemma_push_distinct(entry_keys(c2), k@);
                }
                assert(entry_map(cache@) =~= entry_map(c).insert(key@, rules_of(rules)));
            },
            None => {
                cache.push((key, rules));
                assert(cache@.drop_last() =~= c);
                assert(entry_keys(cache@) =~= entry_keys(c).push(k@));
                proof {
                    if entry_keys(c).contains(k@) {
                        let j = choose|j: int| 0 <= j < entry_keys(c).len() && entry_keys(c)[j] == k@;
                        lemma_entry_lookup(c, j);
                    }
                    lemma_push_distinct(entry_keys(c), k@);
                }
            },
        }
        self.cache = cache;
    }
}

/// The key of `url`'s site, `scheme://host`; `None` for a URL without a
/// host.
fn site_key(url: &WebUrl) -> (r: Option<Vec<char>>)
    ensures
        match r {
            Some(k) => robots_key(url@) == Some(k@),
            None => robots_key(url@) is None,
        },
{
    let host = match url.host_str() {
        Some(h) => h,
        None => return None,
    };
    let mut key = chars_of(url.scheme());
    append_chars(&mut key, &chars_of("://"));
    append_chars(&mut key, &chars_of(host));
    Some(key)
}

/// Appends the characters of `t` to `v`.
fn append_chars(v: &mut Vec<char>, t: &Vec<char>)
    ensures
        final(v)@ == old(v)@ + t@,
{
    let mut i: usize = 0;
    while i < t.len()
        invariant
            i <= t@.len(),
            v@ == old(v)@ + t@.take(i as int),
        decreases t@.len() - i,
    {
        v.push(t[i]);
        assert(t@.take(i + 1) =~= t@.take(i as int).push(t@[i as int]));
        i = i + 1;
    }
    assert(t@.take(i as int) =~= t@);
}

/// Pushing a new element keeps a sequence free of duplicates.
proof fn lemma_push_distinct(s: Seq<Seq<char>>, x: Seq<char>)
    requires
        s.no_duplicates(),
        !s.contains(x),
    ensures
        s.push(x).no_duplicates(),
{
    assert forall|a: int, b: int| 0 <= a < b < s.push(x).len() implies s.push(x)[a] != s.push(x)[b] by {
        if b == s.len() {
            assert(s.contains(s[a]));
        }
    }
}

/// With distinct keys, the map holds the entry at `i` under its key.
proof fn lemma_entry_lookup(c: Seq<(String, RobotsTxt)>, i: int)
    requires
        entry_keys(c).no_duplicates(),
        0 <= i < c.len(),
    ensures
        entry_map(c).contains_key(c[i].0@),
        entry_map(c)[c[i].0@] == rules_of(c[i].1),
    decreases c.len(),
{
    if i < c.len() - 1 {
        assert(entry_keys(c.drop_last()) =~= entry_keys(c).drop_last());
        assert(c.drop_last()[i] == c[i]);
        lemma_entry_lookup(c.drop_last(), i);
        assert(entry_keys(c)[i] != entry_keys(c)[c.len() - 1]);
    }
}

/// A key that no entry has is not in the map.
proof fn lemma_entry_absent(c: Seq<(String, RobotsTxt)>, k: Seq<char>)
    requires
        forall|j: int| 0 <= j < c.len() ==> c[j].0@ != k,
    ensures
        !entry_map(c).contains_key(k),
    decreases c.len(),
{
    if c.len() > 0 {
        lemma_entry_absent(c.drop_last(), k);
    }
}

/// Removing the entry at `i`, of distinct keys, removes its key from the map.
proof fn lemma_entry_remove(c: Seq<(String, RobotsTxt)>, i: int)
    requires
        entry_keys(c).no_duplicates(),
        0 <= i < c.len(),
    ensures
        entry_keys(c.remove(i)).no_duplicates(),
        entry_map(c.remove(i)) == entry_map(c).remove(c[i].0@),
    decreases c.len(),
{
    let r = c.remove(i);
    assert forall|a: int, b: int| 0 <= a < b < entry_keys(r).len() implies entry_keys(r)[a] != entry_keys(r)[b] by {
        let a2 = if a < i { a } else { a + 1 };
        let b2 = if b < i { b } else { b + 1 };
        assert(entry_keys(r)[a] == entry_keys(c)[a2]);
        assert(entry_keys(r)[b] == entry_keys(c)[b2]);
    }
    if i == c.len() - 1 {
        assert(r =~= c.drop_last());
        assert forall|j: int| 0 <= j < c.drop_last().len() implies c.drop_last()[j].0@ != c[i].0@ by {
            assert(entry_keys(c)[j] != entry_keys(c)[i]);
        }
        lemma_entry_absent(c.drop_last(), c[i].0@);
        assert(entry_map(r) =~= entry_map(c).remove(c[i].0@));
    } else {
        let d = c.drop_last();
        assert(entry_keys(d) =~= entry_keys(c).drop_last());
        lemma_entry_remove(d, i);
        assert(r.drop_last() =~= d.remove(i));
        assert(r.last() == c.last());
        assert(entry_keys(c)[i] != entry_keys(c)[c.len() - 1]);
        assert(entry_map(r) =~= entry_map(c).remove(c[i].0@));
    }
}

/// What is learned for a site answers the site's next check: once rules
/// are remembered under a URL's site key, the URL is answered by them,
/// whatever was known before.
pub proof fn lemma_remembered_rules_answer(
    known: Map<Seq<char>, (Seq<Seq<char>>, Seq<Seq<char>>)>,
    u: UrlView,
    rules: (Seq<Seq<char>>, Seq<Seq<char>>),
)
    requires
        robots_key(u) is Some,
    ensures
        robots_answer(known.insert(robots_key(u)->Some_0, rules), u) == Some(rules_allow(rules.0, rules.1, u.path)),
{
}

} // verus!
