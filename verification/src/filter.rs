//! The decision whether a URL found during a crawl is fetched.

use vstd::prelude::*;
use crate::config::{str_views, url_permitted, CrawlerConfig};
use crate::robots::chars_eq;
use crate::text::{chars_of, contains_chars, contains_sub};
use crate::urls::{UrlView, WebUrl};

verus! {

/// The outcome of filtering a URL.
#[derive(Debug, Clone, Copy, PartialEq, Eq)]
pub enum FilterResult {
    /// The URL is fetched.
    Allow,
    /// The URL is not fetched, for the reason given.
    Deny(&'static str),
}

impl FilterResult {
    /// Whether the URL is fetched.
    pub fn is_allowed(&self) -> (r: bool)
        ensures
            r == (*self is Allow),
    {
        match self {
            FilterResult::Allow => true,
            FilterResult::Deny(_) => false,
        }
    }

    /// Why the URL is not fetched, if it is not.
    pub fn reason(&self) -> (r: Option<&'static str>)
        ensures
            match *self {
                FilterResult::Allow => r is None,
                FilterResult::Deny(why) => r == Some(why),
            },
    {
        match self {
            FilterResult::Allow => None,
            FilterResult::Deny(reason) => Some(*reason),
        }
    }
}

/// Whether a scheme is `http` or `https`.
pub open spec fn is_web_scheme(scheme: Seq<char>) -> bool {
    scheme == "http"@ || scheme == "https"@
}

/// Why a URL at `depth` is not fetched under `config`, or `None` when it
/// is: too deep, outside the domains or excluded, (with include patterns)
/// matching none of them, or not http(s), checked in that order; the first
/// check that fails gives the reason.
pub open spec fn deny_reason(config: CrawlerConfig, u: UrlView, depth: u32) -> Option<Seq<char>> {
    if depth > config.max_depth {
        Some("超出最大深度限制"@)
    } else if !url_permitted(str_views(config.allowed_domains@), str_views(config.exclude_patterns@), u) {
        Some("域名不在白名单中或匹配排除模式"@)
    } else if config.include_patterns@.len() > 0 && !(exists|i: int|
        0 <= i < config.include_patterns@.len() && #[trigger] contains_sub(
            u.href,
            str_views(config.include_patterns@)[i],
        )) {
        Some("URL 不匹配任何包含模式"@)
    } else if !is_web_scheme(u.scheme) {
        Some("不支持的协议"@)
    } else {
        None
    }
}

/// The filter's checks, in order, each with its reason: a URL deeper than
/// `max_depth` is refused for its depth; else one that fails the domain
/// list or matches an exclude pattern, for that; else, with include
/// patterns, one that contains none of them, for that; else one whose
/// scheme is neither `http` nor `https`, for its protocol; every other URL
/// is fetched.
pub proof fn lemma_filter_checks(config: CrawlerConfig, u: UrlView, depth: u32)
    ensures
        ({
            let permitted = url_permitted(str_views(config.allowed_domains@), str_views(config.exclude_patterns@), u);
            let included = config.include_patterns@.len() == 0 || exists|i: int|
                0 <= i < config.include_patterns@.len() && #[trigger] contains_sub(u.href, config.include_patterns@[i]@);
            let web = u.scheme == "http"@ || u.scheme == "https"@;
            &&& depth > config.max_depth ==> deny_reason(config, u, depth) == Some("超出最大深度限制"@)
            &&& (depth <= config.max_depth && !permitted) ==> deny_reason(config, u, depth) == Some(
                "域名不在白名单中或匹配排除模式"@,
            )
            &&& (depth <= config.max_depth && permitted && !included) ==> deny_reason(config, u, depth) == Some(
                "URL 不匹配任何包含模式"@,
            )
            &&& (depth <= config.max_depth && permitted && included && !web) ==> deny_reason(config, u, depth) == Some(
                "不支持的协议"@,
            )
            &&& (deny_reason(config, u, depth) is None <==> (depth <= config.max_depth && permitted && included && web))
        }),
{
    let included = config.include_patterns@.len() == 0 || exists|i: int|
        0 <= i < config.include_patterns@.len() && #[trigger] contains_sub(u.href, config.include_patterns@[i]@);
    if config.include_patterns@.len() > 0 {
        if included {
            let i = choose|i: int|
                0 <= i < config.include_patterns@.len() && #[trigger] contains_sub(u.href, config.include_patterns@[i]@);
            assert(str_views(config.include_patterns@)[i] == config.include_patterns@[i]@);
        }
        if exists|i: int|
            0 <= i < config.include_patterns@.len() && #[trigger] contains_sub(
                u.href,
                str_views(config.include_patterns@)[i],
            ) {
            let i = choose|i: int|
                0 <= i < config.include_patterns@.len() && #[trigger] contains_sub(
                    u.href,
                    str_views(config.include_patterns@)[i],
                );
            assert(str_views(config.include_patterns@)[i] == config.include_patterns@[i]@);
        }
    }
}

/// Whether two URLs both have a host and the hosts are equal.
pub open spec fn same_host(base: UrlView, target: UrlView) -> bool {
    match (base.host, target.host) {
        (Some(a), Some(b)) => a == b,
        _ => false,
    }
}

/// Decides which URLs a crawl fetches.
pub struct UrlFilter {
    config: CrawlerConfig,
}

impl UrlFilter {
    /// The configuration the filter applies.
    pub closed spec fn config(&self) -> CrawlerConfig {
        self.config
    }

    /// A filter that applies `config`.
    pub fn new(config: CrawlerConfig) -> (r: UrlFilter)
        ensures
            r.config() == config,
    {
        UrlFilter { config }
    }

    /// The configuration the filter applies.
    pub fn settings(&self) -> (r: &CrawlerConfig)
        ensures
            *r == self.config(),
    {
        &self.config
    }

    /// Whether `url`, found at `depth`, is fetched, and if not, why.
    pub fn should_crawl(&self, url: &WebUrl, depth: u32) -> (r: FilterResult)
        ensures
            match deny_reason(self.config(), url@, depth) {
                None => r is Allow,
                Some(why) => r matches FilterResult::Deny(s) && s@ == why,
            },
    {
        if depth > self.config.max_depth {
            return FilterResult::Deny("超出最大深度限制");
        }
        if !self.config.is_url_allowed(url) {
            return FilterResult::Deny("域名不在白名单中或匹配排除模式");
        }
        if self.config.include_patterns.len() > 0 {
            let href = chars_of(url.as_str());
            let ghost iv = str_views(self.config.include_patterns@);
            let mut matched = false;
            let mut i: usize = 0;
            while i < self.config.include_patterns.len()
                invariant
                    i <= self.config.include_patterns@.len(),
                    iv == str_views(self.config.include_patterns@),
                    href@ == url@.href,
                    matched ==> exists|k: int|
                        0 <= k < self.config.include_patterns@.len() && #[trigger] contains_sub(url@.href, iv[k]),
                    !matched ==> forall|k: int| 0 <= k < i ==> !#[trigger] contains_sub(url@.href, iv[k]),
                decreases self.config.include_patterns@.len() - i,
            {
                let p = chars_of(self.config.include_patterns[i].as_str());
                assert(iv[i as int] == p@);
                if contains_chars(&href, &p) {
                    matched = true;
                }
                i = i + 1;
            }
            if !matched {
                return FilterResult::Deny("URL 不匹配任何包含模式");
            }
        }
        let scheme = chars_of(url.scheme());
        if !chars_eq(&scheme, &chars_of("http")) && !chars_eq(&scheme, &chars_of("https")) {
            return FilterResult::Deny("不支持的协议");
        }
        FilterResult::Allow
    }

    /// Whether `target` is on the same host as `base`.
    pub fn is_internal(base: &WebUrl, target: &WebUrl) -> (r: bool)
        ensures
            r == same_host(base@, target@),
    {
        match (base.host_str(), target.host_str()) {
            (Some(b), Some(t)) => chars_eq(&chars_of(b), &chars_of(t)),
            _ => false,
        }
    }
}

} // verus!
