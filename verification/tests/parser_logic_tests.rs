use rust_crawler::parser::{DomNode, HtmlParser};
use rust_crawler::urls::WebUrl;

fn text(t: &str) -> DomNode {
    DomNode::Text { text: t.to_string() }
}

fn el(name: &str, class: Option<&str>, children: Vec<DomNode>) -> DomNode {
    DomNode::Element {
        name: name.to_string(),
        class: class.map(|c| c.to_string()),
        id: None,
        href: None,
        children,
    }
}

fn link(href: &str, label: &str) -> DomNode {
    DomNode::Element {
        name: "a".to_string(),
        class: None,
        id: None,
        href: Some(href.to_string()),
        children: vec![text(label)],
    }
}

#[test]
fn join_and_clean_collapses_whitespace() {
    let parts = vec!["  Hello \n world ".to_string(), "".to_string(), "again\t".to_string()];
    assert_eq!(HtmlParser::join_and_clean(&parts), "Hello world again");
    assert_eq!(HtmlParser::join_and_clean(&[]), "");
}

#[test]
fn noise_by_tag_class_and_id() {
    assert!(HtmlParser::is_noise_element(&el("script", None, vec![])));
    assert!(HtmlParser::is_noise_element(&el("div", Some("Site-NAVIGATION"), vec![])));
    assert!(HtmlParser::is_noise_element(&DomNode::Element {
        name: "div".to_string(),
        class: None,
        id: Some("cookie-banner".to_string()),
        href: None,
        children: vec![],
    }));
    assert!(!HtmlParser::is_noise_element(&el("div", Some("content"), vec![])));
    assert!(!HtmlParser::is_noise_element(&text("nav")));
    // "ad" as a piece of a longer class name counts too
    assert!(HtmlParser::is_noise_element(&el("div", Some("shadow"), vec![])));
}

#[test]
fn text_pieces_skip_noise_and_blank_nodes() {
    let tree = el("body", None, vec![
        text("  first "),
        el("nav", None, vec![text("menu")]),
        text("   "),
        el("p", None, vec![text("second"), DomNode::Other]),
    ]);
    let mut parts = Vec::new();
    HtmlParser::extract_text_recursive(&tree, &mut parts);
    assert_eq!(parts, vec!["first".to_string(), "second".to_string()]);
}

#[test]
fn title_is_the_first_title_trimmed() {
    let titles = vec![el("title", None, vec![text("  A  "), text("B ")]), el("title", None, vec![text("C")])];
    assert_eq!(HtmlParser::title_from(&titles), Some("A  B".to_string()));
    assert_eq!(HtmlParser::title_from(&vec![]), None);
}

#[test]
fn links_skip_fragments_empty_and_other_schemes() {
    let base = WebUrl::parse("https://example.com/dir/page").unwrap();
    let anchors = vec![
        link("#top", "Top"),
        link("", "Empty"),
        link("mailto:a@example.com", "Mail"),
        link("next", "  Next\n page "),
        link("http://other.org/x", "Other"),
        link("https://[bad", "Bad"),
    ];
    let links = HtmlParser::links_from(&base, &anchors);
    assert_eq!(links.len(), 2);
    assert_eq!(links[0].url, "https://example.com/dir/next");
    assert_eq!(links[0].text, "Next page");
    assert!(links[0].is_internal);
    assert_eq!(links[1].url, "http://other.org/x");
    assert!(!links[1].is_internal);
}

#[test]
fn content_prefers_article_then_main_then_density_then_body() {
    let long = "word ".repeat(20);
    let article = vec![el("article", None, vec![text("From article")])];
    let empty_article = vec![el("article", None, vec![el("nav", None, vec![text("x")])])];
    let main = vec![el("main", None, vec![text("From main")])];
    let body = vec![el("body", None, vec![el("div", None, vec![text(&long)]), text("tail")])];
    let short_body = vec![el("body", None, vec![text("only body")])];

    assert_eq!(
        HtmlParser::content_from(&Some(article.clone_nodes()), &Some(main.clone_nodes()), &Some(body.clone_nodes())),
        Some("From article".to_string())
    );
    assert_eq!(
        HtmlParser::content_from(&Some(empty_article.clone_nodes()), &Some(main.clone_nodes()), &Some(body.clone_nodes())),
        Some("From main".to_string())
    );
    assert_eq!(
        HtmlParser::content_from(&Some(vec![]), &Some(vec![]), &Some(body.clone_nodes())),
        Some(long.trim().to_string())
    );
    assert_eq!(
        HtmlParser::content_from(&Some(vec![]), &Some(vec![]), &Some(short_body.clone_nodes())),
        Some("only body".to_string())
    );
    assert_eq!(HtmlParser::content_from(&None, &Some(main.clone_nodes()), &Some(body.clone_nodes())), None);
    assert_eq!(HtmlParser::content_from(&Some(vec![]), &Some(vec![]), &Some(vec![])), None);
}

trait CloneNodes {
    fn clone_nodes(&self) -> Vec<DomNode>;
}

impl CloneNodes for Vec<DomNode> {
    fn clone_nodes(&self) -> Vec<DomNode> {
        self.iter().map(copy_node).collect()
    }
}

fn copy_node(n: &DomNode) -> DomNode {
    match n {
        DomNode::Element { name, class, id, href, children } => DomNode::Element {
            name: name.clone(),
            class: class.clone(),
            id: id.clone(),
            href: href.clone(),
            children: children.iter().map(copy_node).collect(),
        },
        DomNode::Text { text } => DomNode::Text { text: text.clone() },
        DomNode::Other => DomNode::Other,
    }
}

#[test]
fn density_picks_the_highest_score_and_the_first_on_ties() {
    // score = (t - l) * sqrt(t) / tags
    let a = "a".repeat(60);
    let b = "b".repeat(60);
    let twin = el("body", None, vec![
        el("div", None, vec![text(&a)]),
        el("div", None, vec![text(&b)]),
    ]);
    assert_eq!(HtmlParser::extract_by_density(&twin), Some(a.clone()));

    let links_heavy = el("div", None, vec![link("/x", &"l".repeat(55)), text("tail")]);
    let plain = el("section", None, vec![text(&"p".repeat(52))]);
    let page = el("body", None, vec![links_heavy, plain]);
    assert_eq!(HtmlParser::extract_by_density(&page), Some("p".repeat(52)));

    let small = el("body", None, vec![el("div", None, vec![text("short")])]);
    assert_eq!(HtmlParser::extract_by_density(&small), None);
}

#[test]
fn density_divides_by_the_number_of_elements() {
    // 60 characters in one element beat 80 characters spread over four
    let dense = el("div", None, vec![text(&"d".repeat(60))]);
    let spread = el("div", None, vec![
        el("span", None, vec![text(&"s".repeat(20))]),
        el("span", None, vec![text(&"s".repeat(19))]),
        el("span", None, vec![text(&"s".repeat(19))]),
    ]);
    let page = el("body", None, vec![spread, dense]);
    assert_eq!(HtmlParser::extract_by_density(&page), Some("d".repeat(60)));
}

#[test]
fn elements_are_read_with_their_text_and_attributes() {
    let base = WebUrl::parse("https://example.com/").unwrap();
    let html = "<html><head><title> T </title></head><body><p class=\"a\" id=\"b\">x<b>y</b></p></body></html>";
    let page = HtmlParser::parse(&base, html, 2, 201, 7);
    assert_eq!(page.title, Some("T".to_string()));
    assert_eq!(page.content, Some("x y".to_string()));
    assert_eq!(page.depth, 2);
    assert_eq!(page.status_code, 201);
    assert_eq!(page.fetch_duration_ms, 7);
    assert!(page.links.is_empty());
}

#[test]
fn text_anywhere_inside_a_link_is_link_text() {
    // the first div's text sits in a span inside a link, so all of it is
    // link text and the div scores 0; the second div, equal in text and
    // elements but without a link, wins
    let wrapped = el("div", None, vec![DomNode::Element {
        name: "a".to_string(),
        class: None,
        id: None,
        href: Some("/".to_string()),
        children: vec![el("span", None, vec![text(&"h".repeat(60))])],
    }]);
    let plain = el("div", None, vec![el("b", None, vec![el("i", None, vec![text(&"p".repeat(60))])])]);
    let page = el("body", None, vec![wrapped, plain]);
    assert_eq!(HtmlParser::extract_by_density(&page), Some("p".repeat(60)));
}
