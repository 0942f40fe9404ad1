use rust_crawler::parser::HtmlParser;
use rust_crawler::urls::WebUrl;


#[test]
fn test_parse_basic() {
    let html = r#"
        <!DOCTYPE html>
        <html>
        <head><title>Test Page</title></head>
        <body>
            <h1>Hello World</h1>
            <a href="/page1">Page 1</a>
            <a href="https://other.com">External</a>
        </body>
        </html>
    "#;

    let base_url = WebUrl::parse("https://example.com").unwrap();
    let page = HtmlParser::parse(&base_url, html, 0, 200, 100);

    assert_eq!(page.url, "https://example.com/");
    assert_eq!(page.title, Some("Test Page".to_string()));
    assert_eq!(page.status_code, 200);
    assert_eq!(page.links.len(), 2);

    // 检查内部链接
    let internal = page.links.iter().find(|l| l.is_internal);
    assert!(internal.is_some());
    assert_eq!(internal.unwrap().url, "https://example.com/page1");

    // 检查外部链接
    let external = page.links.iter().find(|l| !l.is_internal);
    assert!(external.is_some());
    assert_eq!(external.unwrap().url, "https://other.com/");
}

#[test]
fn test_extract_content() {
    let html = r#"
        <html><body>
            <p>First paragraph</p>
            <script>alert('xss')</script>
            <p>Second paragraph</p>
        </body></html>
    "#;

    let base_url = WebUrl::parse("https://example.com").unwrap();
    let page = HtmlParser::parse(&base_url, html, 0, 200, 100);

    let content = page.content.expect("应该有内容");
    assert!(content.contains("First paragraph"));
    assert!(content.contains("Second paragraph"));
    assert!(!content.contains("alert")); // script 内容应该被过滤
}

#[test]
fn test_skip_anchor_links() {
    let html = r##"
        <html><body>
            <a href="#section1">Section</a>
            <a href="/page">Page</a>
        </body></html>
    "##;

    let base_url = WebUrl::parse("https://example.com").unwrap();
    let page = HtmlParser::parse(&base_url, html, 0, 200, 100);

    assert_eq!(page.links.len(), 1); // 只有 /page，#section1 被跳过
    assert_eq!(page.links[0].url, "https://example.com/page");
}

// ───────────────────────────────────────────────
//  正文噪声过滤测试
// ───────────────────────────────────────────────

#[test]
fn test_skip_nav_tag() {
    let html = r#"
        <html><body>
            <nav><a href="/">Home</a> <a href="/about">About</a></nav>
            <p>This is the real content.</p>
        </body></html>
    "#;

    let base_url = WebUrl::parse("https://example.com").unwrap();
    let page = HtmlParser::parse(&base_url, html, 0, 200, 100);

    let content = page.content.expect("应该有内容");
    assert!(content.contains("real content"));
    assert!(!content.contains("Home")); // nav 内文本被过滤
    assert!(!content.contains("About")); // nav 内文本被过滤
}

#[test]
fn test_skip_footer_tag() {
    let html = r#"
        <html><body>
            <p>Article body here.</p>
            <footer>
                <p>Copyright 2024 Example Inc.</p>
                <a href="/privacy">Privacy Policy</a>
            </footer>
        </body></html>
    "#;

    let base_url = WebUrl::parse("https://example.com").unwrap();
    let page = HtmlParser::parse(&base_url, html, 0, 200, 100);

    let content = page.content.expect("应该有内容");
    assert!(content.contains("Article body"));
    assert!(!content.contains("Copyright"));
    assert!(!content.contains("Privacy"));
}

#[test]
fn test_skip_aside_tag() {
    let html = r#"
        <html><body>
            <p>Main text.</p>
            <aside>
                <p>Related articles: Foo, Bar, Baz</p>
            </aside>
        </body></html>
    "#;

    let base_url = WebUrl::parse("https://example.com").unwrap();
    let page = HtmlParser::parse(&base_url, html, 0, 200, 100);

    let content = page.content.expect("应该有内容");
    assert!(content.contains("Main text"));
    assert!(!content.contains("Related articles"));
}

#[test]
fn test_skip_noise_by_class() {
    let html = r#"
        <html><body>
            <div class="site-navigation">
                <a href="/home">Home</a>
                <a href="/contact">Contact</a>
            </div>
            <div class="article-content">
                <p>Real article text goes here.</p>
            </div>
            <div class="advertisement-banner">
                <p>Buy our products now!</p>
            </div>
        </body></html>
    "#;

    let base_url = WebUrl::parse("https://example.com").unwrap();
    let page = HtmlParser::parse(&base_url, html, 0, 200, 100);

    let content = page.content.expect("应该有内容");
    assert!(content.contains("Real article text"));
    assert!(!content.contains("Home")); // site-navigation
    assert!(!content.contains("Contact")); // site-navigation
    assert!(!content.contains("Buy our products")); // advertisement-banner
}

#[test]
fn test_skip_noise_by_id() {
    let html = r#"
        <html><body>
            <div id="cookie-consent-banner">
                <p>We use cookies to improve your experience.</p>
            </div>
            <div id="main-content">
                <p>This is the actual content.</p>
            </div>
            <div id="sidebar-widget">
                <p>Trending topics</p>
            </div>
        </body></html>
    "#;

    let base_url = WebUrl::parse("https://example.com").unwrap();
    let page = HtmlParser::parse(&base_url, html, 0, 200, 100);

    let content = page.content.expect("应该有内容");
    assert!(content.contains("actual content"));
    assert!(!content.contains("cookies")); // cookie-consent-banner
    assert!(!content.contains("Trending")); // sidebar-widget
}

#[test]
fn test_priority_article_tag() {
    let html = r#"
        <html><body>
            <header>
                <h1>Site Title</h1>
            </header>
            <article>
                <h2>Article Heading</h2>
                <p>Article paragraph one.</p>
                <p>Article paragraph two.</p>
            </article>
            <footer>
                <p>Footer info</p>
            </footer>
        </body></html>
    "#;

    let base_url = WebUrl::parse("https://example.com").unwrap();
    let page = HtmlParser::parse(&base_url, html, 0, 200, 100);

    let content = page.content.expect("应该有内容");
    // article 优先提取，header/footer 应该被排除
    assert!(content.contains("Article Heading"));
    assert!(content.contains("paragraph one"));
    assert!(!content.contains("Site Title")); // header 被跳过
    assert!(!content.contains("Footer info")); // footer 被跳过
}

#[test]
fn test_priority_main_tag() {
    let html = r#"
        <html><body>
            <nav>Nav content</nav>
            <main>
                <h1>Main Content Title</h1>
                <p>Important information here.</p>
            </main>
            <aside>Side content</aside>
        </body></html>
    "#;

    let base_url = WebUrl::parse("https://example.com").unwrap();
    let page = HtmlParser::parse(&base_url, html, 0, 200, 100);

    let content = page.content.expect("应该有内容");
    assert!(content.contains("Main Content Title"));
    assert!(content.contains("Important information"));
    assert!(!content.contains("Nav content"));
    assert!(!content.contains("Side content"));
}

#[test]
fn test_skip_nested_noise() {
    let html = r#"
        <html><body>
            <div class="content">
                <p>Real content before.</p>
                <div class="share-buttons">
                    <span>Share on Twitter</span>
                    <span>Share on Facebook</span>
                </div>
                <p>Real content after.</p>
            </div>
        </body></html>
    "#;

    let base_url = WebUrl::parse("https://example.com").unwrap();
    let page = HtmlParser::parse(&base_url, html, 0, 200, 100);

    let content = page.content.expect("应该有内容");
    assert!(content.contains("Real content before"));
    assert!(content.contains("Real content after"));
    assert!(!content.contains("Share on Twitter"));
    assert!(!content.contains("Share on Facebook"));
}

#[test]
fn test_skip_social_and_comments() {
    let html = r#"
        <html><body>
            <article>
                <p>Interesting article text.</p>
            </article>
            <div class="social-media-links">
                <p>Follow us on Twitter</p>
            </div>
            <div id="comment-section">
                <p>User1: Great post!</p>
                <p>User2: Thanks for sharing.</p>
            </div>
        </body></html>
    "#;

    let base_url = WebUrl::parse("https://example.com").unwrap();
    let page = HtmlParser::parse(&base_url, html, 0, 200, 100);

    let content = page.content.expect("应该有内容");
    assert!(content.contains("Interesting article"));
    assert!(!content.contains("Follow us"));
    assert!(!content.contains("Great post"));
    assert!(!content.contains("Thanks for sharing"));
}

#[test]
fn test_combined_real_world_layout() {
    let html = r#"
        <!DOCTYPE html>
        <html>
        <head><title>Real World Page</title></head>
        <body>
            <header class="site-header">
                <nav class="main-nav">
                    <a href="/">Home</a>
                    <a href="/about">About</a>
                </nav>
            </header>
            <main>
                <article class="post">
                    <h1>How to Write Rust</h1>
                    <p>Rust is a systems programming language.</p>
                    <p>It guarantees memory safety.</p>
                </article>
            </main>
            <aside class="sidebar">
                <div class="widget">Popular Posts</div>
            </aside>
            <footer class="site-footer">
                <p>All rights reserved.</p>
            </footer>
            <div id="newsletter-popup">
                <p>Subscribe to our newsletter!</p>
            </div>
        </body>
        </html>
    "#;

    let base_url = WebUrl::parse("https://example.com").unwrap();
    let page = HtmlParser::parse(&base_url, html, 0, 200, 100);

    let content = page.content.expect("应该有内容");
    // main > article 优先提取
    assert!(content.contains("How to Write Rust"));
    assert!(content.contains("systems programming"));
    assert!(content.contains("memory safety"));

    // 噪声应该被过滤
    assert!(!content.contains("Home"));
    assert!(!content.contains("About"));
    assert!(!content.contains("Popular Posts"));
    assert!(!content.contains("All rights reserved"));
    assert!(!content.contains("Subscribe"));
}

#[test]
fn test_no_article_fallback_to_body() {
    let html = r#"
        <html><body>
            <div class="content">
                <p>No article or main tag here.</p>
                <p>Just plain divs with content.</p>
            </div>
            <div class="sidebar">Noise</div>
        </body></html>
    "#;

    let base_url = WebUrl::parse("https://example.com").unwrap();
    let page = HtmlParser::parse(&base_url, html, 0, 200, 100);

    let content = page.content.expect("应该有内容");
    assert!(content.contains("No article or main tag"));
    assert!(content.contains("plain divs"));
    assert!(!content.contains("Noise")); // sidebar 被过滤
}

#[test]
fn test_empty_content_returns_none() {
    let html = r#"
        <html><body>
            <nav></nav>
            <footer></footer>
        </body></html>
    "#;

    let base_url = WebUrl::parse("https://example.com").unwrap();
    let page = HtmlParser::parse(&base_url, html, 0, 200, 100);

    assert!(page.content.is_none());
}

// ───────────────────────────────────────────────
//  文本密度评分测试
// ───────────────────────────────────────────────

#[test]
fn test_density_extracts_largest_text_block() {
    // 没有 article/main 标签，正文和噪声混在一起
    let html = r#"
        <html><body>
            <div>
                <a href="/">Home</a>
                <a href="/about">About</a>
            </div>
            <div>
                <h1>Main Article</h1>
                <p>This is a long paragraph with lots of text content.</p>
                <p>It continues with more interesting information here.</p>
                <p>The third paragraph adds even more substance to the article.</p>
            </div>
            <div>
                <a href="/link1">Related</a>
                <a href="/link2">More</a>
            </div>
        </body></html>
    "#;

    let base_url = WebUrl::parse("https://example.com").unwrap();
    let page = HtmlParser::parse(&base_url, html, 0, 200, 100);

    let content = page.content.expect("应该有内容");
    // 密度提取应选中最大的文本块（中间 div）
    assert!(content.contains("Main Article"));
    assert!(content.contains("long paragraph"));
    assert!(content.contains("interesting information"));
}

#[test]
fn test_density_prefers_low_link_density() {
    // 两个文本量相近的块，但一个链接密度高（导航），一个低（正文）
    let html = r#"
        <html><body>
            <div>
                <a href="/a">Link A</a>
                <a href="/b">Link B</a>
                <a href="/c">Link C</a>
                <a href="/d">Link D</a>
                <a href="/e">Link E</a>
                <span>Some nav text</span>
            </div>
            <div>
                <h2>Real Content</h2>
                <p>This is the actual article body with substantial text.</p>
                <p>More paragraphs of real content go here.</p>
            </div>
        </body></html>
    "#;

    let base_url = WebUrl::parse("https://example.com").unwrap();
    let page = HtmlParser::parse(&base_url, html, 0, 200, 100);

    let content = page.content.expect("应该有内容");
    // 低链接密度的正文块应该胜出
    assert!(content.contains("Real Content"));
    assert!(content.contains("actual article body"));
}

#[test]
fn test_density_with_wrapper_layout() {
    // 真实网页常见结构：wrapper 包裹所有内容
    let html = r#"
        <html><body>
            <div id="wrapper">
                <div id="nav">
                    <a href="/">Home</a>
                    <a href="/products">Products</a>
                </div>
                <div id="content-area">
                    <h1>Product Review</h1>
                    <p>This product is amazing and works very well.</p>
                    <p>We tested it thoroughly and found excellent results.</p>
                    <p>The build quality is top notch and durable.</p>
                </div>
                <div id="sidebar">
                    <div class="widget">Categories</div>
                    <div class="widget">Tags</div>
                </div>
            </div>
        </body></html>
    "#;

    let base_url = WebUrl::parse("https://example.com").unwrap();
    let page = HtmlParser::parse(&base_url, html, 0, 200, 100);

    let content = page.content.expect("应该有内容");
    // 噪声 class 被过滤，正文应来自 content-area
    assert!(content.contains("Product Review"));
    assert!(content.contains("product is amazing"));
    assert!(!content.contains("Categories"));
    assert!(!content.contains("Tags"));
}

#[test]
fn test_density_table_layout() {
    // 老式 table 布局网页
    let html = r#"
        <html><body>
            <table>
                <tr><td>
                    <a href="/">Home</a> | <a href="/contact">Contact</a>
                </td></tr>
                <tr><td>
                    <h2>News Article</h2>
                    <p>Breaking news today with detailed reporting.</p>
                    <p>More details about the event unfold here.</p>
                </td></tr>
                <tr><td>
                    Copyright 2024
                </td></tr>
            </table>
        </body></html>
    "#;

    let base_url = WebUrl::parse("https://example.com").unwrap();
    let page = HtmlParser::parse(&base_url, html, 0, 200, 100);

    let content = page.content.expect("应该有内容");
    // 应提取到新闻文章区域的文本（td 是容器标签）
    assert!(content.contains("News Article"));
    assert!(content.contains("Breaking news"));
}

#[test]
fn test_density_nested_content() {
    // 嵌套结构：正文在多层 div 内
    let html = r#"
        <html><body>
            <div class="container">
                <div class="row">
                    <div class="col">
                        <h1>Deep Nested Article</h1>
                        <p>This content is buried deep in nested divs.</p>
                        <p>But it should still be found because it has high text density.</p>
                        <p>Each paragraph adds more text to make this block stand out.</p>
                    </div>
                    <div class="col sidebar">
                        <p>Side info</p>
                    </div>
                </div>
            </div>
        </body></html>
    "#;

    let base_url = WebUrl::parse("https://example.com").unwrap();
    let page = HtmlParser::parse(&base_url, html, 0, 200, 100);

    let content = page.content.expect("应该有内容");
    assert!(content.contains("Deep Nested Article"));
    assert!(content.contains("buried deep"));
    assert!(!content.contains("Side info"));
}
