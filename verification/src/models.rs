//! The data of a crawl: pages, links, tasks, results and statistics.

use vstd::prelude::*;
use crate::urls::WebUrl;

verus! {

/// A link found on a page.
#[derive(Debug, Clone)]
pub struct Link {
    /// The text inside the `a` element, whitespace collapsed.
    pub text: String,
    /// The absolute URL.
    pub url: String,
    /// Whether the URL is on the same host as the page.
    pub is_internal: bool,
}

impl Link {
    /// A link with the given text, URL and internal flag.
    pub fn new(text: String, url: String, is_internal: bool) -> (r: Link)
        ensures
            r.text == text,
            r.url == url,
            r.is_internal == is_internal,
    {
        Link { text, url, is_internal }
    }
}

/// A fetched and parsed page.
#[derive(Debug, Clone)]
pub struct Page {
    /// The page's absolute URL.
    pub url: String,
    /// The text of its `title` element, trimmed.
    pub title: Option<String>,
    /// Its main text.
    pub content: Option<String>,
    /// The HTTP status code.
    pub status_code: u16,
    /// Its depth; seeds have depth 0.
    pub depth: u32,
    /// The links on the page, in document order.
    pub links: Vec<Link>,
    /// How long the fetch took, in milliseconds.
    pub fetch_duration_ms: u64,
    /// When the page was fetched, in seconds since the Unix epoch.
    pub crawled_at: u64,
}

/// The current time in whole seconds since the Unix epoch
/// (`std::time::SystemTime::now`); 0 if the clock is before the epoch.
///
/// Trusted for nothing: the result depends on the clock.
#[verifier::external_body]
fn now_unix_secs() -> u64 {
    std::time::SystemTime::now().duration_since(std::time::UNIX_EPOCH).map(|d| d.as_secs()).unwrap_or(0)
}

/// The number of internal links in `links`.
pub open spec fn count_internal(links: Seq<Link>) -> nat
    decreases links.len(),
{
    if links.len() == 0 {
        0
    } else {
        count_internal(links.drop_last()) + if links.last().is_internal { 1nat } else { 0nat }
    }
}

/// The number of external links in `links`.
pub open spec fn count_external(links: Seq<Link>) -> nat
    decreases links.len(),
{
    if links.len() == 0 {
        0
    } else {
        count_external(links.drop_last()) + if links.last().is_internal { 0nat } else { 1nat }
    }
}

impl Page {
    /// A page with no title, content or links, stamped with the current time.
    pub fn new(url: String, status_code: u16, depth: u32, fetch_duration_ms: u64) -> (r: Page)
        ensures
            r.url == url,
            r.title is None,
            r.content is None,
            r.status_code == status_code,
            r.depth == depth,
            r.links@.len() == 0,
            r.fetch_duration_ms == fetch_duration_ms,
    {
        Page {
            url,
            title: None,
            content: None,
            status_code,
            depth,
            links: Vec::new(),
            fetch_duration_ms,
            crawled_at: now_unix_secs(),
        }
    }

    /// The number of internal links.
    pub fn internal_link_count(&self) -> (r: usize)
        ensures
            r == count_internal(self.links@),
    {
        let mut n: usize = 0;
        let mut i: usize = 0;
        while i < self.links.len()
            invariant
                i <= self.links@.len(),
                n == count_internal(self.links@.take(i as int)),
                n <= i,
            decreases self.links@.len() - i,
        {
            assert(self.links@.take(i + 1).drop_last() =~= self.links@.take(i as int));
            if self.links[i].is_internal {
                n = n + 1;
            }
            i = i + 1;
        }
        assert(self.links@.take(self.links@.len() as int) =~= self.links@);
        n
    }

    /// The number of external links.
    pub fn external_link_count(&self) -> (r: usize)
        ensures
            r == count_external(self.links@),
    {
        let mut n: usize = 0;
        let mut i: usize = 0;
        while i < self.links.len()
            invariant
                i <= self.links@.len(),
                n == count_external(self.links@.take(i as int)),
                n <= i,
            decreases self.links@.len() - i,
        {
            assert(self.links@.take(i + 1).drop_last() =~= self.links@.take(i as int));
            if !self.links[i].is_internal {
                n = n + 1;
            }
            i = i + 1;
        }
        assert(self.links@.take(self.links@.len() as int) =~= self.links@);
        n
    }
}

/// Every link is either internal or external: the two counts add up to the
/// number of links.
pub proof fn lemma_link_counts_partition(links: Seq<Link>)
    ensures
        count_internal(links) + count_external(links) == links.len(),
    decreases links.len(),
{
    if links.len() > 0 {
        lemma_link_counts_partition(links.drop_last());
    }
}

/// A URL waiting to be fetched.
pub struct CrawlTask {
    /// The URL.
    pub url: WebUrl,
    /// Its depth.
    pub depth: u32,
}

impl CrawlTask {
    /// A task for `url` at `depth`.
    pub fn new(url: WebUrl, depth: u32) -> (r: CrawlTask)
        ensures
            r.url == url,
            r.depth == depth,
    {
        CrawlTask { url, depth }
    }

    /// A duplicate of the task, with an equal URL and depth.
    pub fn clone(&self) -> (r: CrawlTask)
        ensures
            r.url@ == self.url@,
            r.depth == self.depth,
    {
        CrawlTask { url: self.url.clone(), depth: self.depth }
    }
}

/// What became of a task.
pub enum CrawlResult {
    /// The page was fetched and parsed.
    Success(Page),
    /// The page was not fetched.
    Failed {
        /// The URL.
        url: String,
        /// Why.
        error: String,
        /// The task's depth.
        depth: u32,
    },
}

/// Counts of a crawl.
#[derive(Debug, Clone, Copy)]
pub struct CrawlStats {
    /// Pages requested.
    pub pages_fetched: usize,
    /// Pages fetched and parsed.
    pub pages_parsed: usize,
    /// Requests that failed or were refused.
    pub pages_failed: usize,
    /// Links found on parsed pages, duplicates included.
    pub links_discovered: usize,
    /// Links queued for fetching, after filtering and de-duplication.
    pub links_queued: usize,
    /// How long the crawl took.
    pub total_duration: std::time::Duration,
}

/// A zero duration (`std::time::Duration::ZERO`).
#[verifier::external_body]
fn zero_duration() -> std::time::Duration {
    std::time::Duration::ZERO
}

impl Default for CrawlStats {
    fn default() -> (r: CrawlStats)
        ensures
            r.pages_fetched == 0,
            r.pages_parsed == 0,
            r.pages_failed == 0,
            r.links_discovered == 0,
            r.links_queued == 0,
    {
        CrawlStats {
            pages_fetched: 0,
            pages_parsed: 0,
            pages_failed: 0,
            links_discovered: 0,
            links_queued: 0,
            total_duration: zero_duration(),
        }
    }
}

} // verus!
