//! HTML parsing: the page title, its main text and its links.
//!
//! The `scraper` crate parses a document and answers CSS selector queries;
//! each element it selects is read into a [`DomNode`] tree, and everything
//! the crawler reads from a page is computed from those trees here.

use vstd::prelude::*;
use crate::config::str_views;
use crate::robots::chars_eq;
use crate::filter::{is_web_scheme, same_host};
use crate::bignum::{limbs_greater, product, product_limbs};
use crate::models::{Link, Page};
use crate::text::{
    ascii_lower, chars_of, collapse, collapse_chars, contains_chars, contains_sub, join_and_clean_spec,
    join_chars, string_of, to_ascii_lower_chars, trim, trim_chars, views,
};
use crate::urls::{url_join, UrlView, WebUrl};

verus! {

/// The `scraper` crate's parsed document, carried opaquely inside
/// [`HtmlDocument`].
#[verifier::external_type_specification]
#[verifier::external_body]
pub struct ExHtml(scraper::Html);

/// A reference to an element of a `scraper` document.
#[verifier::external_type_specification]
#[verifier::external_body]
pub struct ExElementRef<'a>(scraper::ElementRef<'a>);

/// A node of a parsed document: an element with what the crawler reads of
/// it and its children in order, a text node, or any other node.
#[derive(Debug)]
pub enum DomNode {
    /// An element.
    Element {
        /// The local name, such as `div`.
        name: String,
        /// The value of the `class` attribute, if present.
        class: Option<String>,
        /// The value of the `id` attribute, if present.
        id: Option<String>,
        /// The value of the `href` attribute, if present.
        href: Option<String>,
        /// The child nodes, in document order.
        children: Vec<DomNode>,
    },
    /// A text node.
    Text {
        /// The text.
        text: String,
    },
    /// A comment, a doctype or another node without text.
    Other,
}

/// Reads an element of a `scraper` document, with its whole subtree, into
/// a [`DomNode`] (`ElementRef::value`, `Element::name`, `Element::attr`,
/// `NodeRef::children`).
#[verifier::external_body]
fn dom_of(el: scraper::ElementRef) -> DomNode {
    let mut children = Vec::new();
    for child in el.children() {
        children.push(match child.value() {
            scraper::Node::Text(t) => DomNode::Text { text: t.text.to_string() },
            scraper::Node::Element(_) => scraper::ElementRef::wrap(child).map_or(DomNode::Other, dom_of),
            _ => DomNode::Other,
        });
    }
    let v = el.value();
    let attr = |a: &str| v.attr(a).map(String::from);
    DomNode::Element { name: v.name().to_string(), class: attr("class"), id: attr("id"), href: attr("href"), children }
}

/// Name for what `scraper::Html::select` yields, on the document parsed
/// from `html` by `scraper::Html::parse_document`, for the CSS selector
/// `selector`: the selected elements in the order the crate yields them,
/// each read into a [`DomNode`]; `None` where the selector does not parse.
pub uninterp spec fn html_select(html: Seq<char>, selector: Seq<char>) -> Option<Seq<DomNode>>;

/// A parsed HTML document.
pub struct HtmlDocument {
    inner: scraper::Html,
    source: Ghost<Seq<char>>,
}

impl HtmlDocument {
    /// The text the document was parsed from.
    pub closed spec fn source(&self) -> Seq<char> {
        self.source@
    }

    /// Parses `html` as a whole document (`scraper::Html::parse_document`).
    ///
    /// Trusted: the result holds the document parsed from `html`.
    #[verifier::external_body]
    pub(crate) fn parse(html: &str) -> (r: HtmlDocument)
        ensures
            r.source() == html@,
    {
        HtmlDocument { inner: scraper::Html::parse_document(html), source: Ghost(html@) }
    }

    /// The elements that match `selector` (`scraper::Selector::parse`,
    /// `scraper::Html::select`), or `None` where the selector does not parse.
    ///
    /// Trusted: the result is what `html_select` names for the document's
    /// text and the selector.
    #[verifier::external_body]
    pub(crate) fn select(&self, selector: &str) -> (r: Option<Vec<DomNode>>)
        ensures
            match r {
                Some(v) => html_select(self.source(), selector@) == Some(v@),
                None => html_select(self.source(), selector@) is None,
            },
    {
        match scraper::Selector::parse(selector) {
            Ok(s) => Some(self.inner.select(&s).map(dom_of).collect()),
            Err(_) => None,
        }
    }
}

/// The element names whose subtrees never hold main text.
pub open spec fn noise_tags() -> Seq<Seq<char>> {
    seq![
        "script"@, "style"@, "noscript"@, "iframe"@, "svg"@, "canvas"@, "nav"@, "footer"@,
        "aside"@, "header"@, "menu"@,
    ]
}

/// The pieces of a `class` or `id` value that mark an element as noise.
pub open spec fn noise_patterns() -> Seq<Seq<char>> {
    seq![
        "nav"@, "navigation"@, "navbar"@, "menu"@, "sidebar"@, "footer"@, "header"@,
        "banner"@, "ad"@, "ads"@, "advertisement"@, "advert"@, "cookie"@, "consent"@,
        "social"@, "share"@, "comment"@, "related"@, "recommend"@, "widget"@, "popup"@,
        "modal"@, "newsletter"@, "subscribe"@,
    ]
}

/// The ASCII lowercase of a string.
pub open spec fn lower(s: Seq<char>) -> Seq<char> {
    s.map_values(|c: char| ascii_lower(c))
}

/// Whether `x` holds a noise pattern.
pub open spec fn has_noise_pattern(x: Seq<char>) -> bool {
    exists|i: int| 0 <= i < noise_patterns().len() && #[trigger] contains_sub(x, noise_patterns()[i])
}

/// Whether an attribute value, ASCII-lowercased, holds a noise pattern.
pub open spec fn noisy_value(v: Option<String>) -> bool {
    match v {
        Some(s) => has_noise_pattern(lower(s@)),
        None => false,
    }
}

/// Whether a node is an element whose subtree is skipped as noise: its
/// name is a noise tag, or its `class` or `id` holds a noise pattern.
pub open spec fn is_noise(n: DomNode) -> bool {
    match n {
        DomNode::Element { name, class, id, .. } => noise_tags().contains(name@) || noisy_value(class) || noisy_value(id),
        _ => false,
    }
}

/// Which elements are noise: exactly those named `script`, `style`,
/// `noscript`, `iframe`, `svg`, `canvas`, `nav`, `footer`, `aside`,
/// `header` or `menu`, and those whose `class` or `id`, ASCII-lowercased,
/// holds one of the patterns listed in the statement; a noise element's subtree gives no
/// text, no link text and no counted element.
pub proof fn lemma_noise_elements(n: DomNode, inside: bool)
    ensures
        n matches DomNode::Element { name, class, id, .. } ==> (is_noise(n) <==> (seq![
            "script"@,
            "style"@,
            "noscript"@,
            "iframe"@,
            "svg"@,
            "canvas"@,
            "nav"@,
            "footer"@,
            "aside"@,
            "header"@,
            "menu"@,
        ].contains(name@) || (class matches Some(c) && exists|p: Seq<char>|
            seq![
                "nav"@,
                "navigation"@,
                "navbar"@,
                "menu"@,
                "sidebar"@,
                "footer"@,
                "header"@,
                "banner"@,
                "ad"@,
                "ads"@,
                "advertisement"@,
                "advert"@,
                "cookie"@,
                "consent"@,
                "social"@,
                "share"@,
                "comment"@,
                "related"@,
                "recommend"@,
                "widget"@,
                "popup"@,
                "modal"@,
                "newsletter"@,
                "subscribe"@,
            ].contains(p) && #[trigger] contains_sub(crate::config::ascii_lowered(c@), p)) || (id matches Some(v) && exists|p: Seq<char>|
            seq![
                "nav"@,
                "navigation"@,
                "navbar"@,
                "menu"@,
                "sidebar"@,
                "footer"@,
                "header"@,
                "banner"@,
                "ad"@,
                "ads"@,
                "advertisement"@,
                "advert"@,
                "cookie"@,
                "consent"@,
                "social"@,
                "share"@,
                "comment"@,
                "related"@,
                "recommend"@,
                "widget"@,
                "popup"@,
                "modal"@,
                "newsletter"@,
                "subscribe"@,
            ].contains(p) && #[trigger] contains_sub(crate::config::ascii_lowered(v@), p)))),
        is_noise(n) ==> text_parts(n) == Seq::<Seq<char>>::empty() && link_parts(n, inside) == Seq::<
            Seq<char>,
        >::empty() && tag_count(n) == 0,
{
    assert(noise_tags() =~= seq![
        "script"@,
        "style"@,
        "noscript"@,
        "iframe"@,
        "svg"@,
        "canvas"@,
        "nav"@,
        "footer"@,
        "aside"@,
        "header"@,
        "menu"@,
    ]);
    assert(noise_patterns() =~= seq![
        "nav"@,
        "navigation"@,
        "navbar"@,
        "menu"@,
        "sidebar"@,
        "footer"@,
        "header"@,
        "banner"@,
        "ad"@,
        "ads"@,
        "advertisement"@,
        "advert"@,
        "cookie"@,
        "consent"@,
        "social"@,
        "share"@,
        "comment"@,
        "related"@,
        "recommend"@,
        "widget"@,
        "popup"@,
        "modal"@,
        "newsletter"@,
        "subscribe"@,
    ]);
    match n {
        DomNode::Element { class, id, .. } => {
            lemma_noisy_value(class);
            lemma_noisy_value(id);
        },
        _ => {},
    }
}

/// An attribute value is noisy exactly when its ASCII lowercase holds one
/// of the noise patterns.
proof fn lemma_noisy_value(v: Option<String>)
    ensures
        noisy_value(v) <==> (v matches Some(c) && exists|p: Seq<char>|
            noise_patterns().contains(p) && #[trigger] contains_sub(crate::config::ascii_lowered(c@), p)),
{
    if let Some(c) = v {
        assert(lower(c@) =~= crate::config::ascii_lowered(c@));
        if has_noise_pattern(lower(c@)) {
            let i = choose|i: int| 0 <= i < noise_patterns().len() && #[trigger] contains_sub(lower(c@), noise_patterns()[i]);
            assert(noise_patterns().contains(noise_patterns()[i]));
        }
        if exists|p: Seq<char>| noise_patterns().contains(p) && #[trigger] contains_sub(crate::config::ascii_lowered(c@), p) {
            let p = choose|p: Seq<char>| noise_patterns().contains(p) && #[trigger] contains_sub(crate::config::ascii_lowered(c@), p);
            let k = choose|k: int| 0 <= k < noise_patterns().len() && noise_patterns()[k] == p;
            assert(contains_sub(lower(c@), noise_patterns()[k]));
        }
    }
}

/// The text pieces of an element's subtree, in document order: each text
/// node trimmed, empty ones left out, noise subtrees skipped.
pub open spec fn text_parts(n: DomNode) -> Seq<Seq<char>>
    decreases n,
{
    match n {
        DomNode::Element { children, .. } => if is_noise(n) {
            seq![]
        } else {
            child_text_parts(children@)
        },
        _ => seq![],
    }
}

/// The text pieces of a list of sibling nodes, in order.
pub open spec fn child_text_parts(cs: Seq<DomNode>) -> Seq<Seq<char>>
    decreases cs,
{
    if cs.len() == 0 {
        seq![]
    } else {
        child_text_parts(cs.drop_last()) + match cs.last() {
            DomNode::Text { text } => if trim(text@).len() > 0 {
                seq![trim(text@)]
            } else {
                seq![]
            },
            DomNode::Element { .. } => text_parts(cs.last()),
            DomNode::Other => seq![],
        }
    }
}

/// All text of a node's subtree, concatenated in document order
/// (`ElementRef::text`), noise included.
pub open spec fn all_text(n: DomNode) -> Seq<char>
    decreases n,
{
    match n {
        DomNode::Element { children, .. } => child_all_text(children@),
        DomNode::Text { text } => text@,
        DomNode::Other => seq![],
    }
}

/// All text of a list of sibling nodes, concatenated.
pub open spec fn child_all_text(cs: Seq<DomNode>) -> Seq<char>
    decreases cs,
{
    if cs.len() == 0 {
        seq![]
    } else {
        child_all_text(cs.drop_last()) + all_text(cs.last())
    }
}

/// The noise tag names.
fn noise_tag_list() -> (r: Vec<&'static str>)
    ensures
        r@.map_values(|s: &str| s@) == noise_tags(),
{
    let r = vec![
        "script", "style", "noscript", "iframe", "svg", "canvas", "nav", "footer", "aside",
        "header", "menu",
    ];
    assert(r@.map_values(|s: &str| s@) =~= noise_tags());
    r
}

/// The noise patterns.
fn noise_pattern_list() -> (r: Vec<&'static str>)
    ensures
        r@.map_values(|s: &str| s@) == noise_patterns(),
{
    let r = vec![
        "nav", "navigation", "navbar", "menu", "sidebar", "footer", "header", "banner", "ad",
        "ads", "advertisement", "advert", "cookie", "consent", "social", "share", "comment",
        "related", "recommend", "widget", "popup", "modal", "newsletter", "subscribe",
    ];
    assert(r@.map_values(|s: &str| s@) =~= noise_patterns());
    r
}

/// Whether `name` is a noise tag.
fn is_noise_tag(name: &str) -> (r: bool)
    ensures
        r == noise_tags().contains(name@),
{
    let tags = noise_tag_list();
    let n = chars_of(name);
    let mut i: usize = 0;
    while i < tags.len()
        invariant
            i <= tags@.len(),
            tags@.map_values(|s: &str| s@) == noise_tags(),
            n@ == name@,
            forall|j: int| 0 <= j < i ==> noise_tags()[j] != name@,
        decreases tags@.len() - i,
    {
        if chars_eq(&n, &chars_of(tags[i])) {
            assert(noise_tags()[i as int] == name@);
            return true;
        }
        i = i + 1;
    }
    false
}

/// Whether an attribute value, ASCII-lowercased, holds a noise pattern.
fn is_noisy_value(v: &Option<String>) -> (r: bool)
    ensures
        r == noisy_value(*v),
{
    match v {
        None => false,
        Some(s) => {
            let low = to_ascii_lower_chars(&chars_of(s.as_str()));
            assert(low@ == lower(s@));
            let pats = noise_pattern_list();
            let mut i: usize = 0;
            while i < pats.len()
                invariant
                    i <= pats@.len(),
                    pats@.map_values(|p: &str| p@) == noise_patterns(),
                    low@ == lower(s@),
                    *v == Some(*s),
                    forall|j: int| 0 <= j < i ==> !#[trigger] contains_sub(lower(s@), noise_patterns()[j]),
                decreases pats@.len() - i,
            {
                let p = chars_of(pats[i]);
                assert(p@ == noise_patterns()[i as int]);
                if contains_chars(&low, &p) {
                    assert(pats@.map_values(|p: &str| p@).len() == pats@.len());
                    assert(0 <= i < noise_patterns().len());
                    assert(contains_sub(lower(s@), noise_patterns()[i as int]));
                    assert(has_noise_pattern(lower(s@)));
                    return true;
                }
                i = i + 1;
            }
            false
        },
    }
}

/// Each child of an element is smaller than the element.
proof fn lemma_children_decrease(n: DomNode)
    ensures
        n matches DomNode::Element { children, .. } ==> forall|j: int|
            0 <= j < children@.len() ==> decreases_to!(n => #[trigger] children@[j]),
{
    if let DomNode::Element { children, .. } = n {
        assert forall|j: int| 0 <= j < children@.len() implies decreases_to!(n => #[trigger] children@[j]) by {
            assert(decreases_to!(n => children));
            assert(decreases_to!(children => children@));
            assert(decreases_to!(children@ => children@[j]));
        }
    }
}

/// All text of `n`'s subtree, concatenated (`ElementRef::text`).
pub fn collect_text(n: &DomNode, out: &mut Vec<char>)
    ensures
        final(out)@ == old(out)@ + all_text(*n),
    decreases n,
{
    match n {
        DomNode::Element { children, .. } => {
            let ghost start = out@;
            proof {
                lemma_children_decrease(*n);
            }
            let mut i: usize = 0;
            while i < children.len()
                invariant
                    i <= children@.len(),
                    forall|j: int| 0 <= j < children@.len() ==> decreases_to!(*n => children@[j]),
                    out@ == start + child_all_text(children@.take(i as int)),
                decreases children@.len() - i,
            {
                assert(children@.take(i + 1).drop_last() =~= children@.take(i as int));
                assert(decreases_to!(*n => children@[i as int]));
                collect_text(&children[i], out);
                assert(out@ =~= start + child_all_text(children@.take(i + 1)));
                i = i + 1;
            }
            assert(children@.take(i as int) =~= children@);
        },
        DomNode::Text { text } => {
            let cs = chars_of(text.as_str());
            let ghost start = out@;
            let mut k: usize = 0;
            while k < cs.len()
                invariant
                    k <= cs@.len(),
                    out@ == start + cs@.take(k as int),
                decreases cs@.len() - k,
            {
                out.push(cs[k]);
                assert(cs@.take(k + 1) =~= cs@.take(k as int).push(cs@[k as int]));
                k = k + 1;
            }
            assert(cs@.take(k as int) =~= text@);
        },
        DomNode::Other => {
            assert(out@ + all_text(*n) =~= out@);
        },
    }
}

/// The number of elements in a subtree that the density score counts:
/// every element but `body`, noise subtrees skipped.
pub open spec fn tag_count(n: DomNode) -> nat
    decreases n,
{
    match n {
        DomNode::Element { name, children, .. } => if is_noise(n) {
            0
        } else {
            (if name@ == "body"@ { 0nat } else { 1nat }) + child_tag_count(children@)
        },
        _ => 0,
    }
}

/// The element count of a list of sibling nodes.
pub open spec fn child_tag_count(cs: Seq<DomNode>) -> nat
    decreases cs,
{
    if cs.len() == 0 {
        0
    } else {
        child_tag_count(cs.drop_last()) + tag_count(cs.last())
    }
}

/// The link text pieces of a subtree: the trimmed, non-empty text nodes
/// inside an `a` element, at any depth below it, in document order, noise
/// skipped; `inside` says whether `n` itself stands inside an `a`.
pub open spec fn link_parts(n: DomNode, inside: bool) -> Seq<Seq<char>>
    decreases n,
{
    match n {
        DomNode::Element { name, children, .. } => if is_noise(n) {
            seq![]
        } else {
            child_link_parts(children@, inside || name@ == "a"@)
        },
        _ => seq![],
    }
}

/// The link text pieces of a list of siblings that stand inside an `a`
/// element exactly when `in_link`.
pub open spec fn child_link_parts(cs: Seq<DomNode>, in_link: bool) -> Seq<Seq<char>>
    decreases cs,
{
    if cs.len() == 0 {
        seq![]
    } else {
        child_link_parts(cs.drop_last(), in_link) + match cs.last() {
            DomNode::Text { text } => if in_link && trim(text@).len() > 0 {
                seq![trim(text@)]
            } else {
                seq![]
            },
            DomNode::Element { .. } => link_parts(cs.last(), in_link),
            DomNode::Other => seq![],
        }
    }
}

/// `n`, or `usize::MAX` where it is larger.
pub open spec fn capped(n: nat) -> nat {
    if n > usize::MAX {
        usize::MAX as nat
    } else {
        n
    }
}

/// What the density score reads of an element: its cleaned text, its
/// element count and the length of its cleaned link text.
pub struct StatsView {
    /// The cleaned text.
    pub text: Seq<char>,
    /// The number of elements counted.
    pub tags: nat,
    /// The number of characters of the cleaned link text.
    pub link_len: nat,
}

/// The statistics of an element.
pub open spec fn stats_of(n: DomNode) -> StatsView {
    StatsView {
        text: join_and_clean_spec(text_parts(n)),
        tags: capped(tag_count(n)),
        link_len: join_and_clean_spec(link_parts(n, false)).len(),
    }
}

/// Statistics of an element, for the density score.
pub struct ElementStats {
    /// The number of characters of `text`.
    pub text_len: usize,
    /// The number of elements counted, at most `usize::MAX`.
    pub tag_count: usize,
    /// The element's cleaned text.
    pub text: String,
    /// The number of characters of the cleaned link text.
    pub link_text_len: usize,
}

impl View for ElementStats {
    type V = StatsView;

    open spec fn view(&self) -> StatsView {
        StatsView { text: self.text@, tags: self.tag_count as nat, link_len: self.link_text_len as nat }
    }
}

/// The element names that can hold a block of main text.
pub open spec fn is_container(name: Seq<char>) -> bool {
    name == "div"@ || name == "section"@ || name == "td"@ || name == "li"@ || name == "blockquote"@
}

/// The fewest characters of text a density candidate has.
pub const MIN_CANDIDATE_TEXT: usize = 50;

/// The density candidates of a subtree, in document order: the container
/// elements outside noise with at least `MIN_CANDIDATE_TEXT` characters of
/// cleaned text.
pub open spec fn candidates(n: DomNode) -> Seq<DomNode>
    decreases n,
{
    match n {
        DomNode::Element { name, children, .. } => if is_noise(n) {
            seq![]
        } else {
            (if is_container(name@) && stats_of(n).text.len() >= MIN_CANDIDATE_TEXT {
                seq![n]
            } else {
                seq![]
            }) + child_candidates(children@)
        },
        _ => seq![],
    }
}

/// The density candidates of a list of siblings.
pub open spec fn child_candidates(cs: Seq<DomNode>) -> Seq<DomNode>
    decreases cs,
{
    if cs.len() == 0 {
        seq![]
    } else {
        child_candidates(cs.drop_last()) + candidates(cs.last())
    }
}

/// The statistics of a list of elements.
pub open spec fn stats_list(cs: Seq<DomNode>) -> Seq<StatsView> {
    cs.map_values(|m: DomNode| stats_of(m))
}

/// `max(c, 1)`.
pub open spec fn at_least_one(c: int) -> int {
    if c < 1 {
        1
    } else {
        c
    }
}

/// Whether `a` scores strictly higher than `b`, where an element's score
/// is `(t - l) * sqrt(t) / max(c, 1)` for `t` characters of text, `l`
/// characters of link text and `c` elements (text density, times the share
/// of text outside links, times the root of the text length). Both texts
/// are non-empty; the comparison is exact: with `x = (ta - la) * max(cb, 1)`
/// and `y = (tb - lb) * max(ca, 1)` it is `x * sqrt(ta) > y * sqrt(tb)`,
/// decided by the signs and then by the squares.
pub open spec fn scores_higher(a: StatsView, b: StatsView) -> bool {
    let ta = a.text.len() as int;
    let tb = b.text.len() as int;
    let x = (ta - a.link_len) * at_least_one(b.tags as int);
    let y = (tb - b.link_len) * at_least_one(a.tags as int);
    if x >= 0 && y < 0 {
        true
    } else if x < 0 && y >= 0 {
        false
    } else if x >= 0 {
        x * x * ta > y * y * tb
    } else {
        x * x * ta < y * y * tb
    }
}

/// How the density score ranks elements, with `t` characters of text, `l`
/// of link text and `c` elements: no element outscores itself; with the
/// same text length and element count, less link text scores higher; with
/// the same text and link text, fewer elements score higher; and four
/// times the text and link text over eight times the elements scores the
/// same, as `(t - l) * sqrt(t) / c` does (twice the root of four times the
/// text).
pub proof fn lemma_score_ranking(a: StatsView, b: StatsView)
    ensures
        !scores_higher(a, a),
        (a.text.len() == b.text.len() && a.text.len() > 0 && a.tags == b.tags && a.link_len < b.link_len)
            ==> scores_higher(a, b),
        (a.text.len() == b.text.len() && a.link_len == b.link_len && a.link_len < a.text.len() && 1 <= a.tags
            && a.tags < b.tags) ==> scores_higher(a, b),
        (b.text.len() == 4 * a.text.len() && b.link_len == 4 * a.link_len && b.tags == 8 * a.tags && a.tags >= 1)
            ==> !scores_higher(a, b) && !scores_higher(b, a),
{
    let ta = a.text.len() as int;
    let tb = b.text.len() as int;
    let ca = at_least_one(a.tags as int);
    let cb = at_least_one(b.tags as int);
    let la = a.link_len as int;
    let lb = b.link_len as int;
    let x = (ta - la) * cb;
    let y = (tb - lb) * ca;
    if ta == tb && ta > 0 && a.tags == b.tags && la < lb {
        assert(ca == cb && ca >= 1);
        assert(x > y) by (nonlinear_arith)
            requires
                x == (ta - la) * cb,
                y == (tb - lb) * ca,
                ca == cb,
                cb >= 1,
                la < lb,
                ta == tb,
        ;
        if x >= 0 && y >= 0 {
            assert(x * x * ta > y * y * tb) by (nonlinear_arith)
                requires
                    x > y,
                    y >= 0,
                    ta == tb,
                    ta > 0,
            ;
        } else if x < 0 && y < 0 {
            assert(x * x * ta < y * y * tb) by (nonlinear_arith)
                requires
                    y < x,
                    x < 0,
                    ta == tb,
                    ta > 0,
            ;
        }
    }
    if ta == tb && la == lb && la < ta && 1 <= a.tags && a.tags < b.tags {
        assert(ca == a.tags && cb == b.tags);
        assert(x > y && y > 0) by (nonlinear_arith)
            requires
                x == (ta - la) * cb,
                y == (tb - lb) * ca,
                ta == tb,
                la == lb,
                la < ta,
                1 <= ca,
                ca < cb,
        ;
        assert(x * x * ta > y * y * tb) by (nonlinear_arith)
            requires
                x > y,
                y > 0,
                ta == tb,
                ta > 0,
        ;
    }
    if tb == 4 * ta && lb == 4 * la && b.tags == 8 * a.tags && a.tags >= 1 {
        assert(ca == a.tags && cb == b.tags);
        assert(x == 2 * y) by (nonlinear_arith)
            requires
                x == (ta - la) * cb,
                y == (tb - lb) * ca,
                tb == 4 * ta,
                lb == 4 * la,
                cb == 8 * ca,
        ;
        assert(x * x * ta == y * y * tb) by (nonlinear_arith)
            requires
                x == 2 * y,
                tb == 4 * ta,
        ;
        let x2 = (tb - lb) * ca;
        let y2 = (ta - la) * cb;
        assert(x2 == y && y2 == x);
    }
}

/// The highest-scoring of a non-empty list of statistics; among equal
/// scores, the first.
pub open spec fn best_of(ss: Seq<StatsView>) -> StatsView
    decreases ss.len(),
{
    if ss.len() <= 1 {
        ss[0]
    } else {
        let b = best_of(ss.drop_last());
        if scores_higher(ss.last(), b) {
            ss.last()
        } else {
            b
        }
    }
}

/// The score of an element, squared with its sign kept, times its text
/// length, over the square of its element count: `num / den` orders
/// elements as their scores do.
pub open spec fn score_num(a: StatsView) -> int {
    let d = a.text.len() - a.link_len;
    if d >= 0 {
        d * d * a.text.len()
    } else {
        -(d * d * a.text.len())
    }
}

/// The denominator of the squared score.
pub open spec fn score_den(a: StatsView) -> int {
    at_least_one(a.tags as int) * at_least_one(a.tags as int)
}

/// For elements with text, one scores higher than another exactly when
/// its fraction `score_num / score_den` is larger.
proof fn lemma_higher_as_fraction(a: StatsView, b: StatsView)
    requires
        a.text.len() > 0,
        b.text.len() > 0,
    ensures
        scores_higher(a, b) <==> score_num(a) * score_den(b) > score_num(b) * score_den(a),
        score_den(a) > 0,
{
    let ta = a.text.len() as int;
    let tb = b.text.len() as int;
    let da = ta - a.link_len;
    let db = tb - b.link_len;
    let ca = at_least_one(a.tags as int);
    let cb = at_least_one(b.tags as int);
    let x = da * cb;
    let y = db * ca;
    assert(x * x * ta == da * da * ta * (cb * cb)) by (nonlinear_arith)
        requires
            x == da * cb,
    ;
    assert(y * y * tb == db * db * tb * (ca * ca)) by (nonlinear_arith)
        requires
            y == db * ca,
    ;
    assert(x >= 0 <==> da >= 0) by (nonlinear_arith)
        requires
            x == da * cb,
            cb >= 1,
    ;
    assert(y >= 0 <==> db >= 0) by (nonlinear_arith)
        requires
            y == db * ca,
            ca >= 1,
    ;
    assert(ca * ca > 0 && cb * cb > 0) by (nonlinear_arith)
        requires
            ca >= 1,
            cb >= 1,
    ;
    assert(da * da * ta >= 0 && db * db * tb >= 0) by (nonlinear_arith)
        requires
            ta > 0,
            tb > 0,
    ;
    assert(da < 0 ==> da * da * ta > 0) by (nonlinear_arith)
        requires
            ta > 0,
    ;
    assert(db < 0 ==> db * db * tb > 0) by (nonlinear_arith)
        requires
            tb > 0,
    ;
    let na = score_num(a);
    let nb = score_num(b);
    let wa = ca * ca;
    let wb = cb * cb;
    assert(na * wb >= 0 <==> na >= 0) by (nonlinear_arith)
        requires
            wb > 0,
    ;
    assert(nb * wa >= 0 <==> nb >= 0) by (nonlinear_arith)
        requires
            wa > 0,
    ;
    assert(na < 0 ==> na * wb < 0) by (nonlinear_arith)
        requires
            wb > 0,
    ;
    assert(nb < 0 ==> nb * wa < 0) by (nonlinear_arith)
        requires
            wa > 0,
    ;
    assert((-(da * da * ta)) * wb == -(da * da * ta * wb)) by (nonlinear_arith);
    assert((-(db * db * tb)) * wa == -(db * db * tb * wa)) by (nonlinear_arith);
}

/// Scoring higher is transitive among elements with text.
proof fn lemma_higher_transitive(a: StatsView, b: StatsView, c: StatsView)
    requires
        a.text.len() > 0,
        b.text.len() > 0,
        c.text.len() > 0,
        scores_higher(a, b),
        scores_higher(b, c),
    ensures
        scores_higher(a, c),
{
    lemma_higher_as_fraction(a, b);
    lemma_higher_as_fraction(b, c);
    lemma_higher_as_fraction(a, c);
    lemma_higher_as_fraction(c, a);
    let (na, nb, nc) = (score_num(a), score_num(b), score_num(c));
    let (wa, wb, wc) = (score_den(a), score_den(b), score_den(c));
    assert(na * wc > nc * wa) by (nonlinear_arith)
        requires
            na * wb > nb * wa,
            nb * wc > nc * wb,
            wa > 0,
            wb > 0,
            wc > 0,
    ;
}

/// The density choice takes the highest score: among elements with text,
/// the chosen one is one of them and none scores higher than it.
pub proof fn lemma_best_scores_highest(ss: Seq<StatsView>)
    requires
        ss.len() > 0,
        forall|i: int| 0 <= i < ss.len() ==> (#[trigger] ss[i]).text.len() > 0,
    ensures
        ss.contains(best_of(ss)),
        forall|j: int| 0 <= j < ss.len() ==> !scores_higher(#[trigger] ss[j], best_of(ss)),
    decreases ss.len(),
{
    if ss.len() == 1 {
        assert(ss[0] == best_of(ss));
        assert forall|j: int| 0 <= j < ss.len() implies !scores_higher(#[trigger] ss[j], best_of(ss)) by {
            lemma_higher_as_fraction(ss[0], ss[0]);
        }
    } else {
        let p = ss.drop_last();
        lemma_best_scores_highest(p);
        let b = best_of(p);
        let l = ss.last();
        let k = choose|k: int| 0 <= k < p.len() && p[k] == b;
        assert(b.text.len() > 0) by {
            assert(ss[k] == b);
        }
        if scores_higher(l, b) {
            assert(ss[ss.len() - 1] == l);
            assert forall|j: int| 0 <= j < ss.len() implies !scores_higher(#[trigger] ss[j], l) by {
                if j == ss.len() - 1 {
                    lemma_higher_as_fraction(l, l);
                } else {
                    assert(ss[j] == p[j]);
                    if scores_higher(ss[j], l) {
                        lemma_higher_transitive(ss[j], l, b);
                    }
                }
            }
        } else {
            assert(ss[k] == b);
            assert forall|j: int| 0 <= j < ss.len() implies !scores_higher(#[trigger] ss[j], b) by {
                if j < ss.len() - 1 {
                    assert(ss[j] == p[j]);
                }
            }
        }
    }
}

/// The text of the highest-scoring density candidate under `body`, if
/// there is a candidate.
pub open spec fn density_text(body: DomNode) -> Option<Seq<char>> {
    let cs = candidates(body);
    if cs.len() == 0 {
        None
    } else {
        Some(best_of(stats_list(cs)).text)
    }
}

/// Every density candidate has at least `MIN_CANDIDATE_TEXT` characters.
proof fn lemma_candidates_long(n: DomNode)
    ensures
        forall|i: int| 0 <= i < candidates(n).len() ==> stats_of(#[trigger] candidates(n)[i]).text.len() >= MIN_CANDIDATE_TEXT,
        forall|i: int| 0 <= i < candidates(n).len() ==> (#[trigger] candidates(n)[i] matches DomNode::Element { name, .. }
            && is_container(name@)),
    decreases n,
{
    if let DomNode::Element { name, children, .. } = n {
        if !is_noise(n) {
            lemma_children_decrease(n);
            lemma_child_candidates_long(children@);
            let own = if is_container(name@) && stats_of(n).text.len() >= MIN_CANDIDATE_TEXT {
                seq![n]
            } else {
                seq![]
            };
            assert(candidates(n) == own + child_candidates(children@));
            assert forall|i: int| 0 <= i < candidates(n).len() implies stats_of(#[trigger] candidates(n)[i]).text.len()
                >= MIN_CANDIDATE_TEXT && (candidates(n)[i] matches DomNode::Element { name, .. } && is_container(name@)) by {
                if i >= own.len() {
                    assert(candidates(n)[i] == child_candidates(children@)[i - own.len()]);
                }
            }
        }
    }
}

/// Every density candidate among siblings has enough text.
proof fn lemma_child_candidates_long(cs: Seq<DomNode>)
    ensures
        forall|i: int| 0 <= i < child_candidates(cs).len() ==> stats_of(#[trigger] child_candidates(cs)[i]).text.len()
            >= MIN_CANDIDATE_TEXT,
        forall|i: int| 0 <= i < child_candidates(cs).len() ==> (#[trigger] child_candidates(cs)[i] matches DomNode::Element {
            name,
            ..
        } && is_container(name@)),
    decreases cs,
{
    if cs.len() > 0 {
        lemma_child_candidates_long(cs.drop_last());
        lemma_candidates_long(cs.last());
        let a = child_candidates(cs.drop_last());
        assert forall|i: int| 0 <= i < child_candidates(cs).len() implies stats_of(#[trigger] child_candidates(cs)[i]).text.len()
            >= MIN_CANDIDATE_TEXT && (child_candidates(cs)[i] matches DomNode::Element { name, .. } && is_container(name@)) by {
            if i >= a.len() {
                assert(child_candidates(cs)[i] == candidates(cs.last())[i - a.len()]);
            } else {
                assert(child_candidates(cs)[i] == a[i]);
            }
        }
    }
}

/// Every density candidate is a `div`, `section`, `td`, `li` or
/// `blockquote` element with at least 50 characters of cleaned text.
pub proof fn lemma_candidates_are_text_blocks(n: DomNode)
    ensures
        forall|i: int|
            0 <= i < candidates(n).len() ==> (#[trigger] candidates(n)[i] matches DomNode::Element { name, .. } && (name@
                == "div"@ || name@ == "section"@ || name@ == "td"@ || name@ == "li"@ || name@ == "blockquote"@))
                && clean_text(candidates(n)[i]).len() >= 50,
{
    lemma_candidates_long(n);
}

/// The text found by density is that of the highest-scoring candidate
/// under `body`: one of the candidates, and none scores higher; with no
/// candidate there is none.
pub proof fn lemma_density_picks_highest(body: DomNode)
    ensures
        candidates(body).len() == 0 ==> density_text(body) is None,
        candidates(body).len() > 0 ==> {
            let ss = stats_list(candidates(body));
            &&& density_text(body) == Some(best_of(ss).text)
            &&& ss.contains(best_of(ss))
            &&& forall|j: int| 0 <= j < ss.len() ==> !scores_higher(#[trigger] ss[j], best_of(ss))
        },
{
    if candidates(body).len() > 0 {
        lemma_candidates_long(body);
        let ss = stats_list(candidates(body));
        assert forall|i: int| 0 <= i < ss.len() implies (#[trigger] ss[i]).text.len() > 0 by {
            assert(ss[i] == stats_of(candidates(body)[i]));
        }
        lemma_best_scores_highest(ss);
    }
}

/// The cleaned text of an element's subtree.
pub open spec fn clean_text(n: DomNode) -> Seq<char> {
    join_and_clean_spec(text_parts(n))
}

/// The main text of a page, given what the selectors `article`, `main`
/// and `body` select: the first `article`'s text if not empty, else the
/// first `main`'s, else the best density candidate's under the first
/// `body`, else that `body`'s text if not empty. `None` where a selector
/// fails or nothing is left.
pub open spec fn content_of(
    article: Option<Seq<DomNode>>,
    main: Option<Seq<DomNode>>,
    body: Option<Seq<DomNode>>,
) -> Option<Seq<char>> {
    match article {
        None => None,
        Some(a) => if a.len() > 0 && clean_text(a[0]).len() > 0 {
            Some(clean_text(a[0]))
        } else {
            match main {
                None => None,
                Some(m) => if m.len() > 0 && clean_text(m[0]).len() > 0 {
                    Some(clean_text(m[0]))
                } else {
                    match body {
                        None => None,
                        Some(b) => if b.len() == 0 {
                            None
                        } else {
                            match density_text(b[0]) {
                                Some(t) => Some(t),
                                None => if clean_text(b[0]).len() > 0 {
                                    Some(clean_text(b[0]))
                                } else {
                                    None
                                },
                            }
                        },
                    }
                },
            }
        },
    }
}

/// The order in which the main text is looked for: the first `article`'s
/// cleaned text wherever it is not empty; else the first `main`'s wherever
/// it is not empty; else, under the first `body`, the text of the density
/// candidate that no other candidate outscores; else that `body`'s text
/// where not empty. Main text, when found, is never empty.
pub proof fn lemma_content_order(
    article: Option<Seq<DomNode>>,
    main: Option<Seq<DomNode>>,
    body: Option<Seq<DomNode>>,
)
    ensures
        ({
            let a_text = article is Some && article->Some_0.len() > 0 && clean_text(article->Some_0[0]).len() > 0;
            let m_text = main is Some && main->Some_0.len() > 0 && clean_text(main->Some_0[0]).len() > 0;
            let c = content_of(article, main, body);
            &&& a_text ==> c == Some(clean_text(article->Some_0[0]))
            &&& (article is Some && !a_text && m_text) ==> c == Some(clean_text(main->Some_0[0]))
            &&& (article is Some && !a_text && main is Some && !m_text && body is Some && body->Some_0.len() > 0
                && candidates(body->Some_0[0]).len() > 0) ==> ({
                let ss = stats_list(candidates(body->Some_0[0]));
                c is Some && exists|i: int|
                    0 <= i < ss.len() && #[trigger] ss[i].text == c->Some_0 && forall|j: int|
                        0 <= j < ss.len() ==> !scores_higher(#[trigger] ss[j], ss[i])
            })
        }),
        content_of(article, main, body) matches Some(t) ==> t.len() > 0,
{
    if let (Some(a), Some(m), Some(b)) = (article, main, body) {
        if b.len() > 0 {
            lemma_density_picks_highest(b[0]);
            if candidates(b[0]).len() > 0 {
                lemma_candidates_long(b[0]);
                let ss = stats_list(candidates(b[0]));
                let best = best_of(ss);
                let i = choose|i: int| 0 <= i < ss.len() && ss[i] == best;
                assert(ss[i] == stats_of(candidates(b[0])[i]));
            }
        }
    }
}

/// The title of a page, given what the selector `title` selects: the
/// first one's text, trimmed.
pub open spec fn title_of(titles: Seq<DomNode>) -> Option<Seq<char>> {
    if titles.len() == 0 {
        None
    } else {
        Some(trim(all_text(titles[0])))
    }
}

/// The `href` of an element, or the empty string.
pub open spec fn href_of(n: DomNode) -> Seq<char> {
    match n {
        DomNode::Element { href: Some(h), .. } => h@,
        _ => seq![],
    }
}

/// The link an `a` element gives on a page at `base`: its text with
/// whitespace collapsed, its absolute URL and whether it is on the page's
/// host; `None` for an empty or `#` reference, one that does not resolve,
/// or one that is not http(s).
pub open spec fn link_of(base: UrlView, e: DomNode) -> Option<(Seq<char>, Seq<char>, bool)> {
    let href = href_of(e);
    if href.len() == 0 || href[0] == '#' {
        None
    } else {
        match url_join(base, href) {
            Err(_) => None,
            Ok(u) => if !is_web_scheme(u.scheme) {
                None
            } else {
                Some((collapse(all_text(e)), u.href, same_host(base, u)))
            },
        }
    }
}

/// Which `a` elements give links, and what they give: an element gives a
/// link exactly when its `href` is not empty, does not start with `#`,
/// resolves against the page's URL, and resolves to an `http` or `https`
/// URL. The link's URL is that resolved URL's serialization, and it is
/// internal exactly when the page and the link both have a host and the
/// hosts are equal.
pub proof fn lemma_link_rule(base: UrlView, e: DomNode)
    ensures
        ({
            let href = href_of(e);
            let target = url_join(base, href);
            &&& link_of(base, e) is Some <==> (href.len() > 0 && href[0] != '#' && target is Ok && (target->Ok_0.scheme
                == "http"@ || target->Ok_0.scheme == "https"@))
            &&& link_of(base, e) matches Some(l) ==> l.1 == target->Ok_0.href && (l.2 <==> (base.host is Some
                && target->Ok_0.host is Some && base.host->Some_0 == target->Ok_0.host->Some_0)) && l.0 == collapse(
                all_text(e),
            )
        }),
{
}

/// The links that a list of `a` elements give, in order.
pub open spec fn links_of(base: UrlView, es: Seq<DomNode>) -> Seq<(Seq<char>, Seq<char>, bool)>
    decreases es.len(),
{
    if es.len() == 0 {
        seq![]
    } else {
        links_of(base, es.drop_last()) + match link_of(base, es.last()) {
            Some(l) => seq![l],
            None => seq![],
        }
    }
}

/// The text, URL and internal flag of each link.
pub open spec fn link_views(ls: Seq<Link>) -> Seq<(Seq<char>, Seq<char>, bool)> {
    ls.map_values(|l: Link| (l.text@, l.url@, l.is_internal))
}

/// The main text of the page parsed from `html`.
pub open spec fn page_content(html: Seq<char>) -> Option<Seq<char>> {
    content_of(html_select(html, "article"@), html_select(html, "main"@), html_select(html, "body"@))
}

/// The title of the page parsed from `html`.
pub open spec fn page_title(html: Seq<char>) -> Option<Seq<char>> {
    match html_select(html, "title"@) {
        None => None,
        Some(ts) => title_of(ts),
    }
}

/// The links of the page at `base` parsed from `html`.
pub open spec fn page_links(base: UrlView, html: Seq<char>) -> Seq<(Seq<char>, Seq<char>, bool)> {
    match html_select(html, "a[href]"@) {
        None => seq![],
        Some(es) => links_of(base, es),
    }
}

/// The optional string's characters.
pub open spec fn opt_chars(o: Option<String>) -> Option<Seq<char>> {
    match o {
        Some(s) => Some(s@),
        None => None,
    }
}

/// Reads titles, main text and links out of HTML pages.
pub struct HtmlParser;

/// The statistics each entry holds.
pub open spec fn stats_views(v: Seq<ElementStats>) -> Seq<StatsView> {
    v.map_values(|e: ElementStats| e@)
}

/// Every entry's `text_len` is the length of its text.
pub open spec fn lengths_agree(v: Seq<ElementStats>) -> bool {
    forall|i: int| 0 <= i < v.len() ==> (#[trigger] v[i]).text_len == v[i].text@.len()
}

/// The elements of an optional list.
pub open spec fn opt_seq(o: Option<Vec<DomNode>>) -> Option<Seq<DomNode>> {
    match o {
        Some(v) => Some(v@),
        None => None,
    }
}

/// The product of five factors.
proof fn lemma_product5(a: u64, b: u64, c: u64, d: u64, e: u64)
    ensures
        product(seq![a, b, c, d, e]) == a * b * c * d * e,
{
    let s = seq![a, b, c, d, e];
    assert(s.drop_last() =~= seq![a, b, c, d]);
    assert(s.drop_last().drop_last() =~= seq![a, b, c]);
    assert(s.drop_last().drop_last().drop_last() =~= seq![a, b]);
    assert(s.drop_last().drop_last().drop_last().drop_last() =~= seq![a]);
    assert(seq![a].drop_last() =~= Seq::<u64>::empty());
    assert(product(Seq::<u64>::empty()) == 1);
    assert(seq![a].len() == 1);
    assert(seq![a].last() == a);
    assert(product(seq![a]) == product(seq![a].drop_last()) * (a as nat));
    assert(product(seq![a]) == a);
    assert(product(seq![a, b]) == a * b);
    assert(product(seq![a, b, c]) == a * b * c);
    assert(product(seq![a, b, c, d]) == a * b * c * d);
}

/// A square times a length, written as a product of five factors.
proof fn lemma_square_times(x: int, d: int, c: int, t: int)
    requires
        x == d * c || x == -(d * c),
    ensures
        x * x * t == d * d * c * c * t,
{
    assert(x * x == d * d * c * c) by (nonlinear_arith)
        requires
            x == d * c || x == -(d * c),
    ;
}

impl HtmlParser {
    /// Parses `html`, the page at `base_url` reached at `depth`, into a
    /// [`Page`] with its title, main text and links.
    pub fn parse(base_url: &WebUrl, html: &str, depth: u32, status_code: u16, fetch_duration_ms: u64) -> (r: Page)
        ensures
            r.url@ == base_url@.href,
            opt_chars(r.title) == page_title(html@),
            opt_chars(r.content) == page_content(html@),
            link_views(r.links@) == page_links(base_url@, html@),
            r.status_code == status_code,
            r.depth == depth,
            r.fetch_duration_ms == fetch_duration_ms,
    {
        let document = HtmlDocument::parse(html);
        let mut page = Page::new(base_url.to_string(), status_code, depth, fetch_duration_ms);
        page.title = HtmlParser::extract_title(&document);
        page.content = HtmlParser::extract_content(&document);
        page.links = HtmlParser::extract_links(base_url, &document);
        page
    }

    /// The title of a parsed document.
    fn extract_title(document: &HtmlDocument) -> (r: Option<String>)
        ensures
            opt_chars(r) == page_title(document.source()),
    {
        match document.select("title") {
            None => None,
            Some(titles) => HtmlParser::title_from(&titles),
        }
    }

    /// The title, given the elements that the selector `title` selects.
    pub fn title_from(titles: &Vec<DomNode>) -> (r: Option<String>)
        ensures
            opt_chars(r) == title_of(titles@),
    {
        if titles.len() == 0 {
            return None;
        }
        let mut text: Vec<char> = Vec::new();
        collect_text(&titles[0], &mut text);
        assert(text@ =~= all_text(titles@[0]));
        Some(string_of(&trim_chars(&text)))
    }

    /// The main text of a parsed document.
    fn extract_content(document: &HtmlDocument) -> (r: Option<String>)
        ensures
            opt_chars(r) == page_content(document.source()),
    {
        let article = document.select("article");
        let main = document.select("main");
        let body = document.select("body");
        HtmlParser::content_from(&article, &main, &body)
    }

    /// The main text, given what the selectors `article`, `main` and
    /// `body` select.
    pub fn content_from(
        article: &Option<Vec<DomNode>>,
        main: &Option<Vec<DomNode>>,
        body: &Option<Vec<DomNode>>,
    ) -> (r: Option<String>)
        ensures
            opt_chars(r) == content_of(opt_seq(*article), opt_seq(*main), opt_seq(*body)),
    {
        let a = match article {
            None => return None,
            Some(a) => a,
        };
        if a.len() > 0 {
            let t = HtmlParser::element_text(&a[0]);
            if t.len() > 0 {
                return Some(string_of(&t));
            }
        }
        let m = match main {
            None => return None,
            Some(m) => m,
        };
        if m.len() > 0 {
            let t = HtmlParser::element_text(&m[0]);
            if t.len() > 0 {
                return Some(string_of(&t));
            }
        }
        let b = match body {
            None => return None,
            Some(b) => b,
        };
        if b.len() == 0 {
            return None;
        }
        match HtmlParser::extract_by_density(&b[0]) {
            Some(t) => return Some(t),
            None => {},
        }
        let t = HtmlParser::element_text(&b[0]);
        if t.len() > 0 {
            Some(string_of(&t))
        } else {
            None
        }
    }

    /// The cleaned text of an element's subtree.
    fn element_text(n: &DomNode) -> (r: Vec<char>)
        ensures
            r@ == clean_text(*n),
    {
        let mut parts: Vec<String> = Vec::new();
        HtmlParser::extract_text_recursive(n, &mut parts);
        assert(str_views(parts@) =~= text_parts(*n));
        HtmlParser::join_and_clean_chars(&parts)
    }

    /// The text of the highest-scoring density candidate under `body`.
    pub fn extract_by_density(body: &DomNode) -> (r: Option<String>)
        ensures
            opt_chars(r) == density_text(*body),
    {
        let mut found: Vec<ElementStats> = Vec::new();
        HtmlParser::collect_density_candidates(body, &mut found);
        assert(stats_views(found@) =~= stats_list(candidates(*body)));
        if found.len() == 0 {
            return None;
        }
        let best = HtmlParser::best_index(&found);
        Some(found[best].text.clone())
    }

    /// The position of the highest-scoring entry; among equal scores, the
    /// first.
    fn best_index(cs: &Vec<ElementStats>) -> (r: usize)
        requires
            cs@.len() > 0,
            lengths_agree(cs@),
        ensures
            r < cs@.len(),
            cs@[r as int]@ == best_of(stats_views(cs@)),
    {
        let mut best: usize = 0;
        let mut i: usize = 1;
        assert(stats_views(cs@).take(1) =~= seq![cs@[0]@]);
        while i < cs.len()
            invariant
                1 <= i <= cs@.len(),
                best < i,
                lengths_agree(cs@),
                cs@[best as int]@ == best_of(stats_views(cs@).take(i as int)),
            decreases cs@.len() - i,
        {
            assert(stats_views(cs@).take(i + 1).drop_last() =~= stats_views(cs@).take(i as int));
            assert(stats_views(cs@).take(i + 1).last() == cs@[i as int]@);
            if HtmlParser::scores_higher_than(&cs[i], &cs[best]) {
                best = i;
            }
            i = i + 1;
        }
        assert(stats_views(cs@).take(i as int) =~= stats_views(cs@));
        best
    }

    /// Whether `a` scores strictly higher than `b`.
    fn scores_higher_than(a: &ElementStats, b: &ElementStats) -> (r: bool)
        requires
            a.text_len == a.text@.len(),
            b.text_len == b.text@.len(),
        ensures
            r == scores_higher(a@, b@),
    {
        let ca: u64 = if a.tag_count < 1 { 1 } else { a.tag_count as u64 };
        let cb: u64 = if b.tag_count < 1 { 1 } else { b.tag_count as u64 };
        let ta = a.text_len as u64;
        let la = a.link_text_len as u64;
        let tb = b.text_len as u64;
        let lb = b.link_text_len as u64;
        let x_nonneg = ta >= la;
        let y_nonneg = tb >= lb;
        let dx: u64 = if x_nonneg { ta - la } else { la - ta };
        let dy: u64 = if y_nonneg { tb - lb } else { lb - tb };
        let ghost x = (ta - la) * at_least_one(b.tag_count as int);
        let ghost y = (tb - lb) * at_least_one(a.tag_count as int);
        proof {
            assert(at_least_one(b.tag_count as int) == cb);
            assert(at_least_one(a.tag_count as int) == ca);
            assert(x == dx * cb || x == -(dx * cb)) by (nonlinear_arith)
                requires
                    x == (ta - la) * cb,
                    dx == (if ta >= la { ta - la } else { la - ta }),
            ;
            assert(y == dy * ca || y == -(dy * ca)) by (nonlinear_arith)
                requires
                    y == (tb - lb) * ca,
                    dy == (if tb >= lb { tb - lb } else { lb - tb }),
            ;
            assert(x >= 0 <==> x_nonneg) by (nonlinear_arith)
                requires
                    x == (ta - la) * cb,
                    cb >= 1,
                    x_nonneg == (ta >= la),
            ;
            assert(y >= 0 <==> y_nonneg) by (nonlinear_arith)
                requires
                    y == (tb - lb) * ca,
                    ca >= 1,
                    y_nonneg == (tb >= lb),
            ;
        }
        if x_nonneg && !y_nonneg {
            return true;
        }
        if !x_nonneg && y_nonneg {
            return false;
        }
        let fx = vec![dx, dx, cb, cb, ta];
        let fy = vec![dy, dy, ca, ca, tb];
        assert(fx@ =~= seq![dx, dx, cb, cb, ta]);
        assert(fy@ =~= seq![dy, dy, ca, ca, tb]);
        let xs = product_limbs(&fx);
        let ys = product_limbs(&fy);
        proof {
            lemma_product5(dx, dx, cb, cb, ta);
            lemma_product5(dy, dy, ca, ca, tb);
            lemma_square_times(x, dx as int, cb as int, ta as int);
            lemma_square_times(y, dy as int, ca as int, tb as int);
        }
        if x_nonneg {
            limbs_greater(&xs, &ys)
        } else {
            limbs_greater(&ys, &xs)
        }
    }

    /// Appends the statistics of the density candidates of `n`'s subtree
    /// to `out`.
    fn collect_density_candidates(n: &DomNode, out: &mut Vec<ElementStats>)
        requires
            lengths_agree(old(out)@),
        ensures
            lengths_agree(final(out)@),
            stats_views(final(out)@) == stats_views(old(out)@) + stats_list(candidates(*n)),
        decreases n,
    {
        if HtmlParser::is_noise_element(n) {
            assert(stats_views(out@) + stats_list(candidates(*n)) =~= stats_views(out@));
            return;
        }
        match n {
            DomNode::Element { name, children, .. } => {
                let ghost start = stats_views(out@);
                let nm = chars_of(name.as_str());
                if is_container_name(&nm) {
                    let stats = HtmlParser::calc_element_stats(n);
                    if stats.text_len >= MIN_CANDIDATE_TEXT {
                        out.push(stats);
                        assert(stats_views(out@) =~= start.push(stats_of(*n)));
                    }
                }
                let ghost own = stats_views(out@);
                assert(own =~= start + stats_list(if is_container(name@) && stats_of(*n).text.len() >= MIN_CANDIDATE_TEXT {
                    seq![*n]
                } else {
                    seq![]
                }));
                proof {
                    lemma_children_decrease(*n);
                }
                let mut i: usize = 0;
                while i < children.len()
                    invariant
                        i <= children@.len(),
                        forall|j: int| 0 <= j < children@.len() ==> decreases_to!(*n => children@[j]),
                        lengths_agree(out@),
                        stats_views(out@) == own + stats_list(child_candidates(children@.take(i as int))),
                    decreases children@.len() - i,
                {
                    assert(children@.take(i + 1).drop_last() =~= children@.take(i as int));
                    HtmlParser::collect_density_candidates(&children[i], out);
                    assert(stats_list(child_candidates(children@.take(i + 1))) =~= stats_list(
                        child_candidates(children@.take(i as int)),
                    ) + stats_list(candidates(children@[i as int])));
                    i = i + 1;
                }
                assert(children@.take(i as int) =~= children@);
                assert(stats_list(candidates(*n)) =~= stats_list(if is_container(name@) && stats_of(*n).text.len() >= MIN_CANDIDATE_TEXT {
                    seq![*n]
                } else {
                    seq![]
                }) + stats_list(child_candidates(children@)));
            },
            _ => {
                assert(stats_views(out@) + stats_list(candidates(*n)) =~= stats_views(out@));
            },
        }
    }

    /// The statistics of an element.
    fn calc_element_stats(n: &DomNode) -> (r: ElementStats)
        ensures
            r@ == stats_of(*n),
            r.text_len == r.text@.len(),
    {
        let mut parts: Vec<String> = Vec::new();
        let mut count: usize = 0;
        let mut links: Vec<String> = Vec::new();
        HtmlParser::calc_stats_recursive(n, false, &mut parts, &mut count, &mut links);
        assert(str_views(parts@) =~= text_parts(*n));
        assert(str_views(links@) =~= link_parts(*n, false));
        let text = HtmlParser::join_and_clean_chars(&parts);
        let link_text = HtmlParser::join_and_clean_chars(&links);
        ElementStats { text_len: text.len(), tag_count: count, text: string_of(&text), link_text_len: link_text.len() }
    }

    /// Appends the text pieces, the element count (capped at
    /// `usize::MAX`) and the link text pieces of `n`'s subtree, where
    /// `in_link` says whether `n` stands inside an `a` element.
    fn calc_stats_recursive(
        n: &DomNode,
        in_link: bool,
        parts: &mut Vec<String>,
        count: &mut usize,
        links: &mut Vec<String>,
    )
        ensures
            str_views(final(parts)@) == str_views(old(parts)@) + text_parts(*n),
            *final(count) == capped((*old(count) + tag_count(*n)) as nat),
            str_views(final(links)@) == str_views(old(links)@) + link_parts(*n, in_link),
        decreases n,
    {
        if HtmlParser::is_noise_element(n) {
            assert(str_views(parts@) + text_parts(*n) =~= str_views(parts@));
            assert(str_views(links@) + link_parts(*n, in_link) =~= str_views(links@));
            return;
        }
        match n {
            DomNode::Element { name, children, .. } => {
                let ghost p0 = str_views(parts@);
                let ghost l0 = str_views(links@);
                let ghost c0 = *count as nat;
                let nm = chars_of(name.as_str());
                let counted = !chars_eq(&nm, &chars_of("body"));
                if counted && *count < usize::MAX {
                    *count = *count + 1;
                }
                let ghost own: nat = if counted { 1 } else { 0 };
                let is_link = in_link || chars_eq(&nm, &chars_of("a"));
                proof {
                    lemma_children_decrease(*n);
                }
                let mut i: usize = 0;
                while i < children.len()
                    invariant
                        i <= children@.len(),
                        forall|j: int| 0 <= j < children@.len() ==> decreases_to!(*n => children@[j]),
                        str_views(parts@) == p0 + child_text_parts(children@.take(i as int)),
                        *count == capped((c0 + own + child_tag_count(children@.take(i as int))) as nat),
                        str_views(links@) == l0 + child_link_parts(children@.take(i as int), is_link),
                    decreases children@.len() - i,
                {
                    let ghost pb = str_views(parts@);
                    let ghost lb = str_views(links@);
                    let ghost so_far = c0 + own + child_tag_count(children@.take(i as int));
                    assert(children@.take(i + 1).drop_last() =~= children@.take(i as int));
                    assert(children@.take(i + 1).last() == children@[i as int]);
                    match &children[i] {
                        DomNode::Text { text } => {
                            let t = trim_chars(&chars_of(text.as_str()));
                            if t.len() > 0 {
                                parts.push(string_of(&t));
                                assert(str_views(parts@) =~= pb.push(trim(text@)));
                                if is_link {
                                    links.push(string_of(&t));
                                    assert(str_views(links@) =~= lb.push(trim(text@)));
                                }
                            }
                        },
                        DomNode::Element { .. } => {
                            HtmlParser::calc_stats_recursive(&children[i], is_link, parts, count, links);
                        },
                        DomNode::Other => {},
                    }
                    assert(child_tag_count(children@.take(i + 1)) == child_tag_count(children@.take(i as int))
                        + tag_count(children@[i as int]));
                    assert(*count == capped((so_far + tag_count(children@[i as int])) as nat));
                    assert(str_views(parts@) =~= p0 + child_text_parts(children@.take(i + 1)));
                    assert(str_views(links@) =~= l0 + child_link_parts(children@.take(i + 1), is_link));
                    i = i + 1;
                }
                assert(children@.take(i as int) =~= children@);
            },
            _ => {
                assert(str_views(parts@) + text_parts(*n) =~= str_views(parts@));
                assert(str_views(links@) + link_parts(*n, in_link) =~= str_views(links@));
            },
        }
    }

    /// Appends the text pieces of `n`'s subtree to `parts`.
    pub fn extract_text_recursive(n: &DomNode, parts: &mut Vec<String>)
        ensures
            str_views(final(parts)@) == str_views(old(parts)@) + text_parts(*n),
        decreases n,
    {
        if HtmlParser::is_noise_element(n) {
            assert(str_views(parts@) + text_parts(*n) =~= str_views(parts@));
            return;
        }
        match n {
            DomNode::Element { children, .. } => {
                let ghost start = str_views(parts@);
                proof {
                    lemma_children_decrease(*n);
                }
                let mut i: usize = 0;
                while i < children.len()
                    invariant
                        i <= children@.len(),
                        forall|j: int| 0 <= j < children@.len() ==> decreases_to!(*n => children@[j]),
                        str_views(parts@) == start + child_text_parts(children@.take(i as int)),
                    decreases children@.len() - i,
                {
                    let ghost before = str_views(parts@);
                    assert(children@.take(i + 1).drop_last() =~= children@.take(i as int));
                    assert(children@.take(i + 1).last() == children@[i as int]);
                    match &children[i] {
                        DomNode::Text { text } => {
                            let t = trim_chars(&chars_of(text.as_str()));
                            if t.len() > 0 {
                                parts.push(string_of(&t));
                                assert(str_views(parts@) =~= before.push(trim(text@)));
                            }
                        },
                        DomNode::Element { .. } => {
                            assert(decreases_to!(*n => children@[i as int]));
                            HtmlParser::extract_text_recursive(&children[i], parts);
                        },
                        DomNode::Other => {},
                    }
                    assert(str_views(parts@) =~= start + child_text_parts(children@.take(i + 1)));
                    i = i + 1;
                }
                assert(children@.take(i as int) =~= children@);
            },
            _ => {
                assert(str_views(parts@) + text_parts(*n) =~= str_views(parts@));
            },
        }
    }

    /// Whether `n` is an element skipped as noise.
    pub fn is_noise_element(n: &DomNode) -> (r: bool)
        ensures
            r == is_noise(*n),
    {
        match n {
            DomNode::Element { name, class, id, .. } => is_noise_tag(name.as_str()) || is_noisy_value(class)
                || is_noisy_value(id),
            _ => false,
        }
    }


    /// The pieces joined by spaces, with every run of whitespace then
    /// collapsed to one space and the ends trimmed.
    pub fn join_and_clean(parts: &[String]) -> (r: String)
        ensures
            r@ == join_and_clean_spec(str_views(parts@)),
    {
        let t = HtmlParser::join_and_clean_chars(parts);
        string_of(&t)
    }

    /// The characters of `join_and_clean`.
    fn join_and_clean_chars(parts: &[String]) -> (r: Vec<char>)
        ensures
            r@ == join_and_clean_spec(str_views(parts@)),
    {
        let mut vs: Vec<Vec<char>> = Vec::new();
        let mut i: usize = 0;
        while i < parts.len()
            invariant
                i <= parts@.len(),
                views(vs@) == str_views(parts@).take(i as int),
            decreases parts@.len() - i,
        {
            let ghost prev = views(vs@);
            vs.push(chars_of(parts[i].as_str()));
            assert(views(vs@) =~= prev.push(parts@[i as int]@));
            assert(str_views(parts@).take(i + 1) =~= str_views(parts@).take(i as int).push(parts@[i as int]@));
            i = i + 1;
        }
        assert(str_views(parts@).take(i as int) =~= str_views(parts@));
        let sep = vec![' '];
        assert(sep@ =~= seq![' ']);
        let joined = join_chars(&vs, &sep);
        collapse_chars(&joined)
    }

    /// The links of a parsed document at `base`.
    fn extract_links(base: &WebUrl, document: &HtmlDocument) -> (r: Vec<Link>)
        ensures
            link_views(r@) == page_links(base@, document.source()),
    {
        match document.select("a[href]") {
            None => {
                let r: Vec<Link> = Vec::new();
                assert(link_views(r@) =~= Seq::<(Seq<char>, Seq<char>, bool)>::empty());
                r
            },
            Some(elements) => HtmlParser::links_from(base, &elements),
        }
    }

    /// The links, given the elements that the selector `a[href]` selects
    /// on the page at `base`.
    pub fn links_from(base: &WebUrl, elements: &Vec<DomNode>) -> (r: Vec<Link>)
        ensures
            link_views(r@) == links_of(base@, elements@),
    {
        let mut links: Vec<Link> = Vec::new();
        let mut i: usize = 0;
        while i < elements.len()
            invariant
                i <= elements@.len(),
                link_views(links@) == links_of(base@, elements@.take(i as int)),
            decreases elements@.len() - i,
        {
            let ghost before = link_views(links@);
            assert(elements@.take(i + 1).drop_last() =~= elements@.take(i as int));
            assert(elements@.take(i + 1).last() == elements@[i as int]);
            match &elements[i] {
                DomNode::Element { href: Some(h), .. } => {
                    let hc = chars_of(h.as_str());
                    if hc.len() > 0 && hc[0] != '#' {
                        match base.join(h.as_str()) {
                            Ok(target) => {
                                let scheme = chars_of(target.scheme());
                                if chars_eq(&scheme, &chars_of("http")) || chars_eq(&scheme, &chars_of("https")) {
                                    let mut text: Vec<char> = Vec::new();
                                    collect_text(&elements[i], &mut text);
                                    assert(text@ =~= all_text(elements@[i as int]));
                                    let cleaned = collapse_chars(&text);
                                    let internal = HtmlParser::is_internal_link(base, &target);
                                    links.push(Link::new(string_of(&cleaned), target.to_string(), internal));
                                    assert(link_views(links@) =~= before.push(
                                        (collapse(all_text(elements@[i as int])), target@.href, same_host(base@, target@)),
                                    ));
                                }
                            },
                            Err(_) => {},
                        }
                    }
                },
                _ => {},
            }
            i = i + 1;
        }
        assert(elements@.take(i as int) =~= elements@);
        links
    }

    /// Whether `target` is on the same host as `base`.
    fn is_internal_link(base: &WebUrl, target: &WebUrl) -> (r: bool)
        ensures
            r == same_host(base@, target@),
    {
        match (base.host_str(), target.host_str()) {
            (Some(b), Some(t)) => chars_eq(&chars_of(b), &chars_of(t)),
            _ => false,
        }
    }
}

/// Whether `name` is a container element name.
fn is_container_name(name: &Vec<char>) -> (r: bool)
    ensures
        r == is_container(name@),
{
    chars_eq(name, &chars_of("div")) || chars_eq(name, &chars_of("section")) || chars_eq(name, &chars_of("td"))
        || chars_eq(name, &chars_of("li")) || chars_eq(name, &chars_of("blockquote"))
}

} // verus!
