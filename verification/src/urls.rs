//! Absolute URLs, parsed and resolved by the `url` crate and held here as
//! plain components that the crawler's rules read.

use vstd::prelude::*;

verus! {

/// The `url` crate's URL type, carried opaquely inside [`WebUrl`].
#[verifier::external_type_specification]
#[verifier::external_body]
pub struct ExOutsideUrl(url::Url);

/// The components of a parsed URL.
#[verifier::ext_equal]
pub struct UrlView {
    /// The whole serialization.
    pub href: Seq<char>,
    /// The scheme, lowercase, without the colon.
    pub scheme: Seq<char>,
    /// The host, if the URL has one.
    pub host: Option<Seq<char>>,
    /// The path.
    pub path: Seq<char>,
    /// The query, without the `?`, if any.
    pub query: Option<Seq<char>>,
    /// The fragment, without the `#`, if any.
    pub fragment: Option<Seq<char>>,
}

/// Name for what `url::Url::parse` returns: the URL's components, or the
/// text of the parse error.
pub uninterp spec fn url_parse(input: Seq<char>) -> Result<UrlView, Seq<char>>;

/// Name for what `url::Url::join` returns for a base URL and a reference.
pub uninterp spec fn url_join(base: UrlView, input: Seq<char>) -> Result<UrlView, Seq<char>>;

/// Name for a URL after `url::Url::set_fragment(None)`.
pub uninterp spec fn url_without_fragment(u: UrlView) -> UrlView;

/// Name for the decoded name/value pairs of a URL's query
/// (`url::Url::query_pairs`).
pub uninterp spec fn url_query_pairs(u: UrlView) -> Seq<(Seq<char>, Seq<char>)>;

/// Name for a URL after its query is replaced by the encoded `pairs`
/// (`query_pairs_mut().clear().extend_pairs(..)`).
pub uninterp spec fn url_with_query_pairs(u: UrlView, pairs: Seq<(Seq<char>, Seq<char>)>) -> UrlView;

/// The character sequences of a list of name/value pairs.
pub open spec fn pair_views(v: Seq<(String, String)>) -> Seq<(Seq<char>, Seq<char>)> {
    v.map_values(|p: (String, String)| (p.0@, p.1@))
}

/// An absolute URL.
pub struct WebUrl {
    inner: url::Url,
    href: String,
    scheme: String,
    host: Option<String>,
    path: String,
    query: Option<String>,
    fragment: Option<String>,
}

/// The character sequence of an optional string.
pub open spec fn opt_view(o: Option<String>) -> Option<Seq<char>> {
    match o {
        Some(s) => Some(s@),
        None => None,
    }
}

impl View for WebUrl {
    type V = UrlView;

    closed spec fn view(&self) -> UrlView {
        UrlView {
            href: self.href@,
            scheme: self.scheme@,
            host: opt_view(self.host),
            path: self.path@,
            query: opt_view(self.query),
            fragment: opt_view(self.fragment),
        }
    }
}

/// Reads the components of an outside URL.
#[verifier::external_body]
fn from_outside(u: url::Url) -> WebUrl {
    WebUrl {
        href: u.as_str().to_string(),
        scheme: u.scheme().to_string(),
        host: u.host_str().map(|h| h.to_string()),
        path: u.path().to_string(),
        query: u.query().map(|q| q.to_string()),
        fragment: u.fragment().map(|f| f.to_string()),
        inner: u,
    }
}

/// A copy of an outside URL (`url::Url::clone`).
#[verifier::external_body]
fn clone_outside(u: &url::Url) -> url::Url {
    u.clone()
}

/// A copy of an optional string.
pub fn clone_opt(o: &Option<String>) -> (r: Option<String>)
    ensures
        opt_view(r) == opt_view(*o),
{
    match o {
        Some(s) => Some(s.clone()),
        None => None,
    }
}

impl WebUrl {
    /// Parses an absolute URL.
    pub fn parse(input: &str) -> (r: Result<WebUrl, String>)
        ensures
            match r {
                Ok(u) => url_parse(input@) == Ok::<UrlView, Seq<char>>(u@),
                Err(e) => url_parse(input@) == Err::<UrlView, Seq<char>>(e@),
            },
    {
        WebUrl::outside_parse(input)
    }

    /// A copy of this URL.
    pub fn clone(&self) -> (r: WebUrl)
        ensures
            r@ == self@,
    {
        WebUrl {
            inner: clone_outside(&self.inner),
            href: self.href.clone(),
            scheme: self.scheme.clone(),
            host: clone_opt(&self.host),
            path: self.path.clone(),
            query: clone_opt(&self.query),
            fragment: clone_opt(&self.fragment),
        }
    }

    /// Parses an absolute URL (`url::Url::parse`).
    ///
    /// Trusted: the result is what `url_parse` names for the input; the
    /// error is the parse error's text.
    #[verifier::external_body]
    pub(crate) fn outside_parse(input: &str) -> (r: Result<WebUrl, String>)
        ensures
            match r {
                Ok(u) => url_parse(input@) == Ok::<UrlView, Seq<char>>(u@),
                Err(e) => url_parse(input@) == Err::<UrlView, Seq<char>>(e@),
            },
    {
        match url::Url::parse(input) {
            Ok(u) => Ok(from_outside(u)),
            Err(e) => Err(e.to_string()),
        }
    }

    /// Resolves `input` against this URL (`url::Url::join`).
    ///
    /// Trusted: the result is what `url_join` names for this URL and the input.
    #[verifier::external_body]
    pub(crate) fn join(&self, input: &str) -> (r: Result<WebUrl, String>)
        ensures
            match r {
                Ok(u) => url_join(self@, input@) == Ok::<UrlView, Seq<char>>(u@),
                Err(e) => url_join(self@, input@) == Err::<UrlView, Seq<char>>(e@),
            },
    {
        match self.inner.join(input) {
            Ok(u) => Ok(from_outside(u)),
            Err(e) => Err(e.to_string()),
        }
    }

    /// This URL without its fragment (`url::Url::set_fragment(None)`).
    ///
    /// Trusted: the result is what `url_without_fragment` names; it has no
    /// fragment, and its scheme and host are this URL's.
    #[verifier::external_body]
    pub(crate) fn without_fragment(&self) -> (r: WebUrl)
        ensures
            r@ == url_without_fragment(self@),
            r@.fragment is None,
            r@.scheme == self@.scheme,
            r@.host == self@.host,
    {
        let mut u = self.inner.clone();
        u.set_fragment(None);
        from_outside(u)
    }

    /// The decoded name/value pairs of the query (`url::Url::query_pairs`).
    ///
    /// Trusted: the result is what `url_query_pairs` names; a URL without a
    /// query has no pairs.
    #[verifier::external_body]
    pub(crate) fn query_pairs(&self) -> (r: Vec<(String, String)>)
        ensures
            pair_views(r@) == url_query_pairs(self@),
            self@.query is None ==> r@.len() == 0,
    {
        self.inner.query_pairs().map(|(k, v)| (k.into_owned(), v.into_owned())).collect()
    }

    /// This URL with its query replaced by the encoded `pairs`
    /// (`url::Url::query_pairs_mut`, `clear`, `extend_pairs`).
    ///
    /// Trusted: the result is what `url_with_query_pairs` names, and it has
    /// a query.
    #[verifier::external_body]
    pub(crate) fn with_query_pairs(&self, pairs: &Vec<(String, String)>) -> (r: WebUrl)
        ensures
            r@ == url_with_query_pairs(self@, pair_views(pairs@)),
            r@.query is Some,
    {
        let mut u = self.inner.clone();
        u.query_pairs_mut().clear().extend_pairs(pairs.iter());
        from_outside(u)
    }

    /// The whole serialization.
    pub fn as_str(&self) -> (r: &str)
        ensures
            r@ == self@.href,
    {
        self.href.as_str()
    }

    /// The serialization, as a new string.
    pub fn to_string(&self) -> (r: String)
        ensures
            r@ == self@.href,
    {
        self.href.clone()
    }

    /// The scheme.
    pub fn scheme(&self) -> (r: &str)
        ensures
            r@ == self@.scheme,
    {
        self.scheme.as_str()
    }

    /// The host, if any.
    pub fn host_str(&self) -> (r: Option<&str>)
        ensures
            match r {
                Some(h) => self@.host == Some(h@),
                None => self@.host is None,
            },
    {
        match &self.host {
            Some(h) => Some(h.as_str()),
            None => None,
        }
    }

    /// The path.
    pub fn path(&self) -> (r: &str)
        ensures
            r@ == self@.path,
    {
        self.path.as_str()
    }

    /// The query, if any.
    pub fn query(&self) -> (r: Option<&str>)
        ensures
            match r {
                Some(q) => self@.query == Some(q@),
                None => self@.query is None,
            },
    {
        match &self.query {
            Some(q) => Some(q.as_str()),
            None => None,
        }
    }
}

} // verus!
