//! Crawl configuration: the output format, the settings of a crawl, their
//! validation, and the domain and pattern rules a URL must pass.

use vstd::prelude::*;
use crate::text::{
    all_ascii, ascii_lower, chars_of, contains_chars, contains_sub, ends_with_chars, lowercase, unicode_lowercase,
};
use crate::robots::chars_eq;
use crate::urls::{url_parse, UrlView, WebUrl};

verus! {

/// The format in which crawled pages are written.
#[derive(Debug, Clone, Copy, PartialEq, Eq, Structural)]
pub enum OutputFormat {
    /// JSON, one page per line.
    Json,
    /// CSV.
    Csv,
    /// An SQLite database.
    Sqlite,
}

/// The format a lowercase name stands for.
pub open spec fn format_named(name: Seq<char>) -> Option<OutputFormat> {
    if name == "json"@ {
        Some(OutputFormat::Json)
    } else if name == "csv"@ {
        Some(OutputFormat::Csv)
    } else if name == "sqlite"@ {
        Some(OutputFormat::Sqlite)
    } else {
        None
    }
}

/// The ASCII lowercase of each character of `s`.
pub open spec fn ascii_lowered(s: Seq<char>) -> Seq<char> {
    s.map_values(|c: char| ascii_lower(c))
}

/// Parsing reads back a format's name in any ASCII case: the name is
/// ASCII and its own lowercase, so it parses as its format, and so does
/// every ASCII string whose lowercase is the name (`JSON`, `Csv`, ...).
pub proof fn lemma_format_name_round_trip(f: OutputFormat, s: Seq<char>)
    ensures
        all_ascii(format_name(f)),
        ascii_lowered(format_name(f)) == format_name(f),
        format_named(ascii_lowered(format_name(f))) == Some(f),
        all_ascii(s) && ascii_lowered(s) == format_name(f) ==> format_named(ascii_lowered(s)) == Some(f),
{
    reveal_strlit("json");
    reveal_strlit("csv");
    reveal_strlit("sqlite");
    assert(ascii_lowered(format_name(f)) =~= format_name(f));
}

/// The name of a format.
pub open spec fn format_name(f: OutputFormat) -> Seq<char> {
    match f {
        OutputFormat::Json => "json"@,
        OutputFormat::Csv => "csv"@,
        OutputFormat::Sqlite => "sqlite"@,
    }
}

/// The file extension of a format.
pub open spec fn format_extension(f: OutputFormat) -> Seq<char> {
    match f {
        OutputFormat::Json => "json"@,
        OutputFormat::Csv => "csv"@,
        OutputFormat::Sqlite => "db"@,
    }
}

/// The message for a format name that names no format.
pub open spec fn unknown_format_message(s: Seq<char>) -> Seq<char> {
    "未知的输出格式: "@ + s + "，可选: json, csv, sqlite"@
}

/// A new string holding `s`.
pub fn owned(s: &str) -> (r: String)
    ensures
        r@ == s@,
{
    let mut r = String::new();
    r.append(s);
    r
}

impl OutputFormat {
    /// The format named by `s`, compared case-insensitively.
    pub fn parse_name(s: &str) -> (r: Result<OutputFormat, String>)
        ensures
            match format_named(unicode_lowercase(s@)) {
                Some(f) => r == Ok::<OutputFormat, String>(f),
                None => r is Err && r->Err_0@ == unknown_format_message(s@),
            },
            all_ascii(s@) ==> match format_named(ascii_lowered(s@)) {
                Some(f) => r == Ok::<OutputFormat, String>(f),
                None => r is Err,
            },
    {
        let lower = lowercase(s);
        let l = chars_of(lower.as_str());
        if chars_eq(&l, &chars_of("json")) {
            Ok(OutputFormat::Json)
        } else if chars_eq(&l, &chars_of("csv")) {
            Ok(OutputFormat::Csv)
        } else if chars_eq(&l, &chars_of("sqlite")) {
            Ok(OutputFormat::Sqlite)
        } else {
            let mut e = owned("未知的输出格式: ");
            e.append(s);
            e.append("，可选: json, csv, sqlite");
            Err(e)
        }
    }

    /// The format's name.
    pub fn to_string(&self) -> (r: String)
        ensures
            r@ == format_name(*self),
    {
        match self {
            OutputFormat::Json => owned("json"),
            OutputFormat::Csv => owned("csv"),
            OutputFormat::Sqlite => owned("sqlite"),
        }
    }

    /// The extension of files in this format.
    pub fn extension(&self) -> (r: String)
        ensures
            r@ == format_extension(*self),
    {
        match self {
            OutputFormat::Json => owned("json"),
            OutputFormat::Csv => owned("csv"),
            OutputFormat::Sqlite => owned("db"),
        }
    }
}

impl Default for OutputFormat {
    fn default() -> (r: OutputFormat)
        ensures
            r == OutputFormat::Json,
    {
        OutputFormat::Json
    }
}

impl std::str::FromStr for OutputFormat {
    type Err = String;

    fn from_str(s: &str) -> (r: Result<OutputFormat, String>)
        ensures
            match format_named(unicode_lowercase(s@)) {
                Some(f) => r == Ok::<OutputFormat, String>(f),
                None => r is Err && r->Err_0@ == unknown_format_message(s@),
            },
            all_ascii(s@) ==> match format_named(ascii_lowered(s@)) {
                Some(f) => r == Ok::<OutputFormat, String>(f),
                None => r is Err,
            },
    {
        OutputFormat::parse_name(s)
    }
}


/// The settings of a crawl.
pub struct CrawlerConfig {
    /// The URLs the crawl starts from.
    pub seeds: Vec<String>,
    /// The greatest depth fetched; seeds have depth 0.
    pub max_depth: u32,
    /// The greatest number of requests in flight.
    pub max_concurrency: usize,
    /// The timeout of a request, in seconds.
    pub timeout_secs: u64,
    /// The pause between requests, in milliseconds.
    pub delay_ms: u64,
    /// How often a failed request is retried.
    pub retry_count: usize,
    /// The pause before a retry, in milliseconds.
    pub retry_delay_ms: u64,
    /// The domains that may be crawled (with their subdomains); empty means all.
    pub allowed_domains: Vec<String>,
    /// URLs containing any of these pieces are not crawled.
    pub exclude_patterns: Vec<String>,
    /// When non-empty, only URLs containing one of these pieces are crawled.
    pub include_patterns: Vec<String>,
    /// A template for the URLs of numbered listing pages.
    pub page_template: Option<String>,
    /// The range of page numbers the template is filled with.
    pub page_range: Option<(u32, u32)>,
    /// The User-Agent sent with each request.
    pub user_agent: String,
    /// The greatest number of pages fetched; 0 means no limit.
    pub max_pages: usize,
    /// The output format.
    pub format: OutputFormat,
    /// The output path, without extension.
    pub output: String,
    /// Whether robots.txt is followed.
    pub respect_robots: bool,
    /// Whether detailed logging is on.
    pub verbose: bool,
}

/// Why a configuration is refused.
#[derive(Debug)]
pub enum ConfigError {
    /// No seed URL was given.
    NoSeeds,
    /// A seed is not a valid URL: the seed and the parse error's text.
    InvalidUrl(String, String),
    /// The concurrency is 0.
    InvalidConcurrency,
    /// The depth is above 10.
    DepthTooLarge(u32),
}

/// The index of the first seed that does not parse as a URL.
pub open spec fn first_unparsable(seeds: Seq<Seq<char>>) -> Option<int>
    decreases seeds.len(),
{
    if seeds.len() == 0 {
        None
    } else {
        match first_unparsable(seeds.drop_last()) {
            Some(i) => Some(i),
            None => if url_parse(seeds.last()) is Err {
                Some(seeds.len() - 1)
            } else {
                None
            },
        }
    }
}

/// Whether `host` is the domain `d` or one of its subdomains.
pub open spec fn host_in_domain(host: Seq<char>, d: Seq<char>) -> bool {
    host == d || (seq!['.'] + d).is_suffix_of(host)
}

/// The host of a URL, or the empty string.
pub open spec fn host_or_empty(u: UrlView) -> Seq<char> {
    match u.host {
        Some(h) => h,
        None => seq![],
    }
}

/// Whether a URL passes the domain list and the exclude patterns.
pub open spec fn url_permitted(allowed: Seq<Seq<char>>, exclude: Seq<Seq<char>>, u: UrlView) -> bool {
    &&& (allowed.len() == 0 || exists|i: int|
        0 <= i < allowed.len() && #[trigger] host_in_domain(host_or_empty(u), allowed[i]))
    &&& forall|j: int| 0 <= j < exclude.len() ==> !#[trigger] contains_sub(u.href, exclude[j])
}

/// A host is in a domain exactly when it is the domain, or it is longer
/// and ends with a dot followed by the domain (a subdomain).
proof fn lemma_host_in_domain(h: Seq<char>, d: Seq<char>)
    ensures
        host_in_domain(h, d) <==> (h == d || (h.len() > d.len() && h[h.len() - d.len() - 1] == '.' && h.subrange(
            h.len() - d.len(),
            h.len() as int,
        ) == d)),
{
    let dd = seq!['.'] + d;
    if dd.is_suffix_of(h) {
        let t = h.subrange(h.len() - dd.len(), h.len() as int);
        assert(t[0] == '.');
        assert(h[h.len() - d.len() - 1] == t[0]);
        assert(h.subrange(h.len() - d.len(), h.len() as int) =~= t.subrange(1, t.len() as int));
        assert(t.subrange(1, t.len() as int) =~= d);
    }
    if h.len() > d.len() && h[h.len() - d.len() - 1] == '.' && h.subrange(h.len() - d.len(), h.len() as int) == d {
        assert(h.subrange(h.len() - dd.len(), h.len() as int) =~= dd) by {
            assert forall|k: int| 0 <= k < dd.len() implies h.subrange(h.len() - dd.len(), h.len() as int)[k] == dd[k] by {
                if k > 0 {
                    assert(h.subrange(h.len() - d.len(), h.len() as int)[k - 1] == d[k - 1]);
                }
            }
        }
    }
}

/// Which URLs pass the domain list and the exclude patterns: exactly
/// those for which the list is empty or the URL's host (the empty string
/// where it has none) is one of the listed domains, any of them, or ends
/// with a dot followed by one of them (a subdomain); and whose
/// serialization contains none of the exclude patterns as a piece.
pub proof fn lemma_url_permitted(allowed: Seq<Seq<char>>, exclude: Seq<Seq<char>>, u: UrlView)
    ensures
        url_permitted(allowed, exclude, u) <==> ({
            let h = if u.host is Some {
                u.host->Some_0
            } else {
                Seq::<char>::empty()
            };
            &&& (allowed.len() == 0 || exists|i: int|
                0 <= i < allowed.len() && (h == #[trigger] allowed[i] || (h.len() > allowed[i].len() && h[h.len()
                    - allowed[i].len() - 1] == '.' && h.subrange(h.len() - allowed[i].len(), h.len() as int)
                    == allowed[i])))
            &&& forall|j: int|
                0 <= j < exclude.len() ==> !exists|k: int|
                    #![trigger u.href.subrange(k, k + exclude[j].len())]
                    0 <= k && k + (#[trigger] exclude[j]).len() <= u.href.len() && u.href.subrange(k, k + exclude[j].len())
                        == exclude[j]
        }),
{
    let h = host_or_empty(u);
    assert forall|i: int| 0 <= i < allowed.len() implies (host_in_domain(h, #[trigger] allowed[i]) <==> (h
        == allowed[i] || (h.len() > allowed[i].len() && h[h.len() - allowed[i].len() - 1] == '.' && h.subrange(
        h.len() - allowed[i].len(),
        h.len() as int,
    ) == allowed[i]))) by {
        lemma_host_in_domain(h, allowed[i]);
    }
    assert forall|j: int| 0 <= j < exclude.len() implies (contains_sub(u.href, #[trigger] exclude[j]) <==> exists|k: int|
        #![trigger u.href.subrange(k, k + exclude[j].len())]
        0 <= k && k + exclude[j].len() <= u.href.len() && u.href.subrange(k, k + exclude[j].len()) == exclude[j]) by {
        if contains_sub(u.href, exclude[j]) {
            let k = choose|k: int|
                0 <= k && k + exclude[j].len() <= u.href.len() && #[trigger] u.href.subrange(k, k + exclude[j].len())
                    == exclude[j];
            assert(u.href.subrange(k, k + exclude[j].len()) == exclude[j]);
        }
    }
}

/// The character sequences of a list of strings.
pub open spec fn str_views(v: Seq<String>) -> Seq<Seq<char>> {
    v.map_values(|s: String| s@)
}

/// Name for the path `path` with its extension set to `ext`
/// (`std::path::Path::with_extension`).
pub uninterp spec fn path_with_extension(path: Seq<char>, ext: Seq<char>) -> Seq<char>;

/// Whether `s` holds no path separator: no `/` and no backslash.
pub open spec fn no_separator(s: Seq<char>) -> bool {
    forall|i: int| 0 <= i < s.len() ==> #[trigger] s[i] != '/' && s[i] != '\\'
}

/// The path `path` with its extension set to `ext`.
///
/// Trusted: the result is what `path_with_extension` names. `Path::with_extension`
/// panics on an extension that holds a path separator, so `ext` holds none.
#[verifier::external_body]
fn with_extension(path: &str, ext: &str) -> (r: String)
    requires
        no_separator(ext@),
    ensures
        r@ == path_with_extension(path@, ext@),
{
    std::path::Path::new(path).with_extension(ext).to_string_lossy().into_owned()
}

impl CrawlerConfig {
    /// The configuration used by tests: one seed `https://example.com`,
    /// depth 1, concurrency 5, 10 s timeout, no delay, 2 retries 500 ms
    /// apart, no domain or pattern lists, at most 10 pages, JSON into
    /// `test_output`.
    pub fn default_for_test() -> (r: CrawlerConfig)
        ensures
            str_views(r.seeds@) == seq!["https://example.com"@],
            r.max_depth == 1,
            r.max_concurrency == 5,
            r.timeout_secs == 10,
            r.delay_ms == 0,
            r.retry_count == 2,
            r.retry_delay_ms == 500,
            r.allowed_domains@.len() == 0,
            r.exclude_patterns@.len() == 0,
            r.include_patterns@.len() == 0,
            r.page_template is None,
            r.page_range is None,
            r.user_agent@ == "rust-crawler/test"@,
            r.max_pages == 10,
            r.format == OutputFormat::Json,
            r.output@ == "test_output"@,
            !r.respect_robots,
            !r.verbose,
    {
        let mut seeds: Vec<String> = Vec::new();
        seeds.push(owned("https://example.com"));
        let r = CrawlerConfig {
            seeds,
            max_depth: 1,
            max_concurrency: 5,
            timeout_secs: 10,
            delay_ms: 0,
            retry_count: 2,
            retry_delay_ms: 500,
            allowed_domains: Vec::new(),
            exclude_patterns: Vec::new(),
            include_patterns: Vec::new(),
            page_template: None,
            page_range: None,
            user_agent: owned("rust-crawler/test"),
            max_pages: 10,
            format: OutputFormat::Json,
            output: owned("test_output"),
            respect_robots: false,
            verbose: false,
        };
        assert(str_views(r.seeds@) =~= seq!["https://example.com"@]);
        r
    }

    /// Checks the configuration: there is a seed, every seed is a URL, the
    /// concurrency is positive and the depth at most 10, checked in that
    /// order.
    pub fn validate(&self) -> (r: Result<(), ConfigError>)
        ensures
            r is Ok <==> (self.seeds@.len() > 0 && first_unparsable(str_views(self.seeds@)) is None
                && self.max_concurrency > 0 && self.max_depth <= 10),
            match r {
                Ok(()) => true,
                Err(ConfigError::NoSeeds) => self.seeds@.len() == 0,
                Err(ConfigError::InvalidUrl(seed, err)) => self.seeds@.len() > 0 && exists|i: int|
                    first_unparsable(str_views(self.seeds@)) == Some(i) && seed@ == self.seeds@[i]@
                        && url_parse(seed@) == Err::<UrlView, Seq<char>>(err@),
                Err(ConfigError::InvalidConcurrency) => self.seeds@.len() > 0 && first_unparsable(
                    str_views(self.seeds@),
                ) is None && self.max_concurrency == 0,
                Err(ConfigError::DepthTooLarge(d)) => self.seeds@.len() > 0 && first_unparsable(
                    str_views(self.seeds@),
                ) is None && self.max_concurrency > 0 && self.max_depth > 10 && d == self.max_depth,
            },
    {
        if self.seeds.len() == 0 {
            return Err(ConfigError::NoSeeds);
        }
        let ghost sv = str_views(self.seeds@);
        let mut i: usize = 0;
        while i < self.seeds.len()
            invariant
                i <= self.seeds@.len(),
                sv == str_views(self.seeds@),
                first_unparsable(sv.take(i as int)) is None,
            decreases self.seeds@.len() - i,
        {
            assert(sv.take(i + 1).drop_last() =~= sv.take(i as int));
            match WebUrl::parse(self.seeds[i].as_str()) {
                Ok(_) => {},
                Err(e) => {
                    proof {
                        lemma_first_unparsable_prefix(sv, i as int);
                    }
                    return Err(ConfigError::InvalidUrl(self.seeds[i].clone(), e));
                },
            }
            i = i + 1;
        }
        assert(sv.take(sv.len() as int) =~= sv);
        if self.max_concurrency == 0 {
            return Err(ConfigError::InvalidConcurrency);
        }
        if self.max_depth > 10 {
            return Err(ConfigError::DepthTooLarge(self.max_depth));
        }
        Ok(())
    }

    /// Whether `url` passes the domain list (its host is a listed domain or
    /// a subdomain of one, when the list is not empty) and contains none of
    /// the exclude patterns.
    pub fn is_url_allowed(&self, url: &WebUrl) -> (r: bool)
        ensures
            r == url_permitted(str_views(self.allowed_domains@), str_views(self.exclude_patterns@), url@),
    {
        let host = match url.host_str() {
            Some(h) => chars_of(h),
            None => Vec::new(),
        };
        assert(host@ == host_or_empty(url@));
        let ghost av = str_views(self.allowed_domains@);
        if self.allowed_domains.len() > 0 {
            let mut found = false;
            let mut i: usize = 0;
            while i < self.allowed_domains.len()
                invariant
                    i <= self.allowed_domains@.len(),
                    av == str_views(self.allowed_domains@),
                    host@ == host_or_empty(url@),
                    found ==> exists|k: int| 0 <= k < av.len() && #[trigger] host_in_domain(host@, av[k]),
                    !found ==> forall|k: int| 0 <= k < i ==> !#[trigger] host_in_domain(host@, av[k]),
                decreases self.allowed_domains@.len() - i,
            {
                let d = chars_of(self.allowed_domains[i].as_str());
                let mut dotted: Vec<char> = Vec::new();
                dotted.push('.');
                let mut k: usize = 0;
                while k < d.len()
                    invariant
                        k <= d@.len(),
                        dotted@ == seq!['.'] + d@.take(k as int),
                    decreases d@.len() - k,
                {
                    dotted.push(d[k]);
                    assert(d@.take(k + 1) =~= d@.take(k as int).push(d@[k as int]));
                    k = k + 1;
                }
                assert(d@.take(d@.len() as int) =~= d@);
                assert(av[i as int] == d@);
                if chars_eq(&host, &d) || ends_with_chars(&host, &dotted) {
                    assert(host_in_domain(host@, av[i as int]));
                    found = true;
                }
                i = i + 1;
            }
            if !found {
                return false;
            }
        }
        let href = chars_of(url.as_str());
        let ghost ev = str_views(self.exclude_patterns@);
        let mut j: usize = 0;
        while j < self.exclude_patterns.len()
            invariant
                j <= self.exclude_patterns@.len(),
                ev == str_views(self.exclude_patterns@),
                href@ == url@.href,
                forall|k: int| 0 <= k < j ==> !#[trigger] contains_sub(url@.href, ev[k]),
            decreases self.exclude_patterns@.len() - j,
        {
            let p = chars_of(self.exclude_patterns[j].as_str());
            assert(ev[j as int] == p@);
            if contains_chars(&href, &p) {
                return false;
            }
            j = j + 1;
        }
        true
    }

    /// The output path with the format's extension (`json`, `csv` or `db`).
    pub fn output_path_with_ext(&self) -> (r: String)
        ensures
            r@ == path_with_extension(self.output@, format_extension(self.format)),
    {
        let ext = self.format.extension();
        proof {
            reveal_strlit("json");
            reveal_strlit("csv");
            reveal_strlit("db");
        }
        assert(no_separator(ext@));
        with_extension(self.output.as_str(), ext.as_str())
    }
}

/// `first_unparsable` finds the first seed that does not parse: at the
/// index it gives, the seed does not parse and every seed before it does;
/// where it gives none, every seed parses.
pub proof fn lemma_first_unparsable(seeds: Seq<Seq<char>>)
    ensures
        first_unparsable(seeds) matches Some(i) ==> 0 <= i < seeds.len() && url_parse(seeds[i]) is Err && forall|j: int|
            0 <= j < i ==> url_parse(#[trigger] seeds[j]) is Ok,
        first_unparsable(seeds) is None ==> forall|j: int| 0 <= j < seeds.len() ==> url_parse(#[trigger] seeds[j]) is Ok,
    decreases seeds.len(),
{
    if seeds.len() > 0 {
        let rest = seeds.drop_last();
        lemma_first_unparsable(rest);
        assert forall|j: int| 0 <= j < rest.len() implies rest[j] == seeds[j] by {}
    }
}

/// When no seed before `i` fails to parse and seed `i` does, seed `i` is the
/// first that fails.
pub(crate) proof fn lemma_first_unparsable_prefix(sv: Seq<Seq<char>>, i: int)
    requires
        0 <= i < sv.len(),
        first_unparsable(sv.take(i)) is None,
        url_parse(sv[i]) is Err,
    ensures
        first_unparsable(sv) == Some(i),
    decreases sv.len() - i,
{
    lemma_first_unparsable_extend(sv, i + 1);
    assert(sv.take(i + 1).drop_last() =~= sv.take(i));
}

/// The first unparsable seed of a prefix that has one is the first of the
/// whole list.
proof fn lemma_first_unparsable_extend(sv: Seq<Seq<char>>, k: int)
    requires
        0 <= k <= sv.len(),
        first_unparsable(sv.take(k)) is Some,
    ensures
        first_unparsable(sv) == first_unparsable(sv.take(k)),
    decreases sv.len() - k,
{
    if k < sv.len() {
        assert(sv.take(k + 1).drop_last() =~= sv.take(k));
        lemma_first_unparsable_extend(sv, k + 1);
    } else {
        assert(sv.take(k) =~= sv);
    }
}

} // verus!
