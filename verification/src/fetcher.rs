//! What a fetch decides: which responses are accepted, how a body is
//! decoded into text, and which failures are worth another attempt.
//!
//! The HTTP exchange itself happens outside this library; it hands the
//! status, the `Content-Type` header and the body bytes to these functions.

use vstd::prelude::*;
use crate::text::{
    chars_of, contains_chars, contains_sub, copy_range, lowercase, string_of, trim, trim_chars,
    unicode_lowercase,
};

verus! {

/// A fetched page: where it ended up, its status, its decoded body, how
/// long the fetch took and its content type.
#[derive(Debug)]
pub struct FetchResult {
    /// The final URL, after redirects.
    pub url: String,
    /// The HTTP status code.
    pub status: u16,
    /// The decoded body.
    pub body: String,
    /// How long the fetch took, in milliseconds.
    pub duration_ms: u64,
    /// The `Content-Type` header, if present.
    pub content_type: Option<String>,
}

/// Why a fetch failed.
#[derive(Debug)]
pub enum FetcherError {
    /// The request failed; the text describes why.
    HttpError(String),
    /// The URL could not be parsed; the text describes why.
    UrlError(String),
    /// No answer within the timeout, in seconds.
    Timeout(u64),
    /// The status was not a success.
    BadStatus(u16),
    /// The content type was not HTML.
    NotHtml(Option<String>),
}

/// Whether a failure may go away on another attempt: a failed request, a
/// timeout, or the status 429 or a 5xx status.
pub open spec fn transient(e: FetcherError) -> bool {
    match e {
        FetcherError::HttpError(_) | FetcherError::Timeout(_) => true,
        FetcherError::BadStatus(s) => s == 429 || (500 <= s && s <= 599),
        _ => false,
    }
}

impl FetcherError {
    /// Whether another attempt may succeed.
    pub fn is_transient(&self) -> (r: bool)
        ensures
            r == transient(*self),
    {
        match self {
            FetcherError::HttpError(_) | FetcherError::Timeout(_) => true,
            FetcherError::BadStatus(status) => *status == 429 || (500 <= *status && *status <= 599),
            _ => false,
        }
    }
}

/// Whether a content type names an HTML document.
pub open spec fn is_html_type(ct: Seq<char>) -> bool {
    contains_sub(ct, "text/html"@) || contains_sub(ct, "application/xhtml+xml"@)
}

/// The optional string's characters.
pub open spec fn opt_text(o: Option<String>) -> Option<Seq<char>> {
    match o {
        Some(s) => Some(s@),
        None => None,
    }
}

/// A content type names an HTML document exactly when it contains
/// `text/html` or `application/xhtml+xml`.
pub proof fn lemma_html_type(ct: Seq<char>)
    ensures
        is_html_type(ct) <==> (exists|k: int|
            0 <= k && k + 9 <= ct.len() && #[trigger] ct.subrange(k, k + 9) == "text/html"@) || (exists|k: int|
            0 <= k && k + 21 <= ct.len() && #[trigger] ct.subrange(k, k + 21) == "application/xhtml+xml"@),
{
    reveal_strlit("text/html");
    reveal_strlit("application/xhtml+xml");
    let a = "text/html"@;
    let b = "application/xhtml+xml"@;
    assert(a.len() == 9 && b.len() == 21);
    if contains_sub(ct, a) {
        let k = choose|k: int| 0 <= k && k + a.len() <= ct.len() && #[trigger] ct.subrange(k, k + a.len()) == a;
        assert(ct.subrange(k, k + 9) == a);
    }
    if contains_sub(ct, b) {
        let k = choose|k: int| 0 <= k && k + b.len() <= ct.len() && #[trigger] ct.subrange(k, k + b.len()) == b;
        assert(ct.subrange(k, k + 21) == b);
    }
    if exists|k: int| 0 <= k && k + 9 <= ct.len() && #[trigger] ct.subrange(k, k + 9) == a {
        let k = choose|k: int| 0 <= k && k + 9 <= ct.len() && #[trigger] ct.subrange(k, k + 9) == a;
        assert(ct.subrange(k, k + a.len()) == a);
    }
    if exists|k: int| 0 <= k && k + 21 <= ct.len() && #[trigger] ct.subrange(k, k + 21) == b {
        let k = choose|k: int| 0 <= k && k + 21 <= ct.len() && #[trigger] ct.subrange(k, k + 21) == b;
        assert(ct.subrange(k, k + b.len()) == b);
    }
}

/// Accepts or refuses a response: a status outside 200..=299 is refused
/// first, then a content type that is present and not HTML; a missing
/// content type is accepted.
pub fn check_response(status: u16, content_type: &Option<String>) -> (r: Result<(), FetcherError>)
    ensures
        !(200 <= status <= 299) ==> (r matches Err(FetcherError::BadStatus(s)) && s == status),
        200 <= status <= 299 ==> match *content_type {
            Some(ct) => if is_html_type(ct@) {
                r is Ok
            } else {
                (r matches Err(FetcherError::NotHtml(Some(got))) && got@ == ct@)
            },
            None => r is Ok,
        },
{
    if !(200 <= status && status <= 299) {
        return Err(FetcherError::BadStatus(status));
    }
    match content_type {
        Some(ct) => {
            let c = chars_of(ct.as_str());
            if contains_chars(&c, &chars_of("text/html")) || contains_chars(&c, &chars_of("application/xhtml+xml")) {
                Ok(())
            } else {
                Err(FetcherError::NotHtml(Some(ct.clone())))
            }
        },
        None => Ok(()),
    }
}

/// The pieces of a prefix scan split at `c`: the pieces ended so far and
/// the piece being read.
pub open spec fn split_state(s: Seq<char>, c: char) -> (Seq<Seq<char>>, Seq<char>)
    decreases s.len(),
{
    if s.len() == 0 {
        (seq![], seq![])
    } else {
        let (done, cur) = split_state(s.drop_last(), c);
        if s.last() == c {
            (done.push(cur), seq![])
        } else {
            (done, cur.push(s.last()))
        }
    }
}

/// The pieces of `s` between occurrences of `c` (`str::split`).
pub open spec fn split_at_char(s: Seq<char>, c: char) -> Seq<Seq<char>> {
    let (done, cur) = split_state(s, c);
    done.push(cur)
}

/// `join` of pieces with one more piece at the end.
proof fn lemma_join_push(ps: Seq<Seq<char>>, y: Seq<char>, sep: Seq<char>)
    ensures
        crate::text::join(ps.push(y), sep) == if ps.len() == 0 {
            y
        } else {
            crate::text::join(ps, sep) + sep + y
        },
{
    assert(ps.push(y).drop_last() =~= ps);
    if ps.len() == 0 {
        assert(ps.push(y)[0] == y);
    }
}

/// The scan behind `split_at_char`: its pieces, joined by `c`, give back
/// what was read, and no piece holds `c`.
proof fn lemma_split_state(s: Seq<char>, c: char)
    ensures
        ({
            let (done, cur) = split_state(s, c);
            &&& crate::text::join(done.push(cur), seq![c]) == s
            &&& forall|k: int, j: int| 0 <= k < done.len() && 0 <= j < done[k].len() ==> #[trigger] done[k][j] != c
            &&& forall|j: int| 0 <= j < cur.len() ==> #[trigger] cur[j] != c
        }),
    decreases s.len(),
{
    if s.len() > 0 {
        let p = s.drop_last();
        lemma_split_state(p, c);
        let (done, cur) = split_state(p, c);
        let x = s.last();
        lemma_join_push(done, cur, seq![c]);
        if x == c {
            lemma_join_push(done.push(cur), seq![], seq![c]);
            assert(crate::text::join(done.push(cur).push(seq![]), seq![c]) =~= s);
            assert forall|k: int, j: int|
                0 <= k < done.push(cur).len() && 0 <= j < done.push(cur)[k].len() implies #[trigger] done.push(cur)[k][j]
                != c by {
                if k < done.len() {
                    assert(done.push(cur)[k] == done[k]);
                }
            }
        } else {
            lemma_join_push(done, cur.push(x), seq![c]);
            assert(s =~= p.push(x));
            if done.len() == 0 {
                assert(crate::text::join(done.push(cur.push(x)), seq![c]) =~= s);
            } else {
                let j0 = crate::text::join(done, seq![c]);
                assert(p == j0 + seq![c] + cur);
                assert(j0 + seq![c] + cur.push(x) =~= (j0 + seq![c] + cur).push(x));
            }
            assert forall|j: int| 0 <= j < cur.push(x).len() implies #[trigger] cur.push(x)[j] != c by {
                if j < cur.len() {
                    assert(cur.push(x)[j] == cur[j]);
                }
            }
        }
    }
}

/// `split_at_char` cuts `s` at every `c` and nowhere else: its pieces,
/// joined with `c` between neighbours, give back `s`, and no piece holds
/// `c`.
pub proof fn lemma_split_pieces(s: Seq<char>, c: char)
    ensures
        crate::text::join(split_at_char(s, c), seq![c]) == s,
        forall|k: int, j: int|
            0 <= k < split_at_char(s, c).len() && 0 <= j < split_at_char(s, c)[k].len() ==> #[trigger] split_at_char(
                s,
                c,
            )[k][j] != c,
{
    lemma_split_state(s, c);
    let (done, cur) = split_state(s, c);
    assert forall|k: int, j: int|
        0 <= k < split_at_char(s, c).len() && 0 <= j < split_at_char(s, c)[k].len() implies #[trigger] split_at_char(
        s,
        c,
    )[k][j] != c by {
        if k < done.len() {
            assert(split_at_char(s, c)[k] == done[k]);
        } else {
            assert(split_at_char(s, c)[k] == cur);
        }
    }
}

/// The charset a content type names comes from its first `;`-separated
/// parameter that names one: a parameter names a charset when, trimmed
/// and lowercased, it starts with `charset=`, and the charset is what
/// follows those eight characters, trimmed.
pub proof fn lemma_first_charset(parts: Seq<Seq<char>>)
    ensures
        first_charset(parts) matches Some(cs) ==> exists|i: int|
            0 <= i < parts.len() && #[trigger] charset_param(parts[i]) == Some(cs) && forall|j: int|
                0 <= j < i ==> charset_param(#[trigger] parts[j]) is None,
        first_charset(parts) is None ==> forall|i: int| 0 <= i < parts.len() ==> charset_param(#[trigger] parts[i]) is None,
        forall|x: Seq<char>|
            #[trigger] charset_param(x) is Some <==> (unicode_lowercase(trim(x)).len() >= 8 && unicode_lowercase(
                trim(x),
            ).take(8) == "charset="@ && trim(x).len() >= 8),
        forall|x: Seq<char>| #[trigger] charset_param(x) matches Some(v) ==> v == trim(trim(x).skip(8)),
    decreases parts.len(),
{
    if parts.len() > 0 {
        let rest = parts.drop_first();
        lemma_first_charset(rest);
        if charset_param(parts[0]) is None {
            if first_charset(rest) is Some {
                let cs = first_charset(rest)->Some_0;
                let i = choose|i: int|
                    0 <= i < rest.len() && #[trigger] charset_param(rest[i]) == Some(cs) && forall|j: int|
                        0 <= j < i ==> charset_param(#[trigger] rest[j]) is None;
                assert(parts[i + 1] == rest[i]);
                assert forall|j: int| 0 <= j < i + 1 implies charset_param(#[trigger] parts[j]) is None by {
                    if j > 0 {
                        assert(parts[j] == rest[j - 1]);
                    }
                }
            } else {
                assert forall|i: int| 0 <= i < parts.len() implies charset_param(#[trigger] parts[i]) is None by {
                    if i > 0 {
                        assert(parts[i] == rest[i - 1]);
                    }
                }
            }
        }
    }
}

/// The charset a `;`-separated parameter names: for a parameter that,
/// trimmed and lowercased, starts with `charset=`, what follows those
/// eight characters, trimmed.
pub open spec fn charset_param(part: Seq<char>) -> Option<Seq<char>> {
    let p = trim(part);
    let low = unicode_lowercase(p);
    if low.len() >= 8 && low.take(8) == "charset="@ && p.len() >= 8 {
        Some(trim(p.skip(8)))
    } else {
        None
    }
}

/// The first charset that the parameters name.
pub open spec fn first_charset(parts: Seq<Seq<char>>) -> Option<Seq<char>>
    decreases parts.len(),
{
    if parts.len() == 0 {
        None
    } else {
        match charset_param(parts[0]) {
            Some(c) => Some(c),
            None => first_charset(parts.drop_first()),
        }
    }
}

/// The charset a content type names, if any.
pub open spec fn charset_of(content_type: Option<Seq<char>>) -> Option<Seq<char>> {
    match content_type {
        Some(ct) => first_charset(split_at_char(ct, ';')),
        None => None,
    }
}

/// The multi-byte and legacy encodings a body may be decoded from.
#[derive(Clone, Copy)]
pub enum Codec {
    /// GBK (`encoding_rs::GBK`).
    Gbk,
    /// Big5 (`encoding_rs::BIG5`).
    Big5,
    /// Shift_JIS (`encoding_rs::SHIFT_JIS`).
    ShiftJis,
    /// EUC-KR (`encoding_rs::EUC_KR`).
    EucKr,
    /// windows-1252 (`encoding_rs::WINDOWS_1252`).
    Windows1252,
}

/// Name for what `encoding_rs::Encoding::decode` returns for the encoding
/// `codec` and the bytes `bytes`: the decoded text, a byte order mark
/// honoured and malformed sequences replaced by U+FFFD.
pub uninterp spec fn encoding_decode(codec: Codec, bytes: Seq<u8>) -> Seq<char>;

/// Name for what `String::from_utf8_lossy` returns: the bytes decoded as
/// UTF-8, malformed sequences replaced by U+FFFD.
pub uninterp spec fn utf8_lossy(bytes: Seq<u8>) -> Seq<char>;

/// Name for what `String::from_utf8` returns: the text the bytes encode in
/// UTF-8, or `None` where they are not valid UTF-8.
pub uninterp spec fn utf8_strict(bytes: Seq<u8>) -> Option<Seq<char>>;

/// The longest body the decoders take: their buffer size computations
/// stay within `usize` below it.
pub open spec fn decodable_len(n: nat) -> bool {
    n <= usize::MAX / 4
}

/// Decodes `bytes` from `codec` (`encoding_rs::Encoding::decode`).
///
/// Trusted: the result is what `encoding_decode` names. The crate panics
/// only where its buffer size computation overflows, which the bound on
/// the length rules out.
#[verifier::external_body]
fn decode_with(codec: Codec, bytes: &[u8]) -> (r: String)
    requires
        decodable_len(bytes@.len()),
    ensures
        r@ == encoding_decode(codec, bytes@),
{
    let encoding = match codec {
        Codec::Gbk => encoding_rs::GBK,
        Codec::Big5 => encoding_rs::BIG5,
        Codec::ShiftJis => encoding_rs::SHIFT_JIS,
        Codec::EucKr => encoding_rs::EUC_KR,
        Codec::Windows1252 => encoding_rs::WINDOWS_1252,
    };
    encoding.decode(bytes).0.into_owned()
}

/// Decodes `bytes` as UTF-8, replacing malformed sequences
/// (`String::from_utf8_lossy`).
///
/// Trusted: the result is what `utf8_lossy` names, and, as the function's
/// documentation gives (only invalid sequences are replaced), on valid
/// UTF-8 it is the text that `String::from_utf8` gives.
#[verifier::external_body]
fn from_utf8_lossy(bytes: &[u8]) -> (r: String)
    ensures
        r@ == utf8_lossy(bytes@),
        utf8_strict(bytes@) matches Some(t) ==> r@ == t,
{
    String::from_utf8_lossy(bytes).into_owned()
}

/// Decodes `bytes` as UTF-8, or `None` where they are not valid UTF-8
/// (`String::from_utf8`).
///
/// Trusted: the result is what `utf8_strict` names.
#[verifier::external_body]
fn from_utf8(bytes: &[u8]) -> (r: Option<String>)
    ensures
        opt_text(r) == utf8_strict(bytes@),
{
    String::from_utf8(bytes.to_vec()).ok()
}

/// The number of bytes that `c` takes in UTF-8 (`char::len_utf8`).
pub open spec fn utf8_width(c: char) -> nat {
    if (c as u32) < 0x80 {
        1
    } else if (c as u32) < 0x800 {
        2
    } else if (c as u32) < 0x10000 {
        3
    } else {
        4
    }
}

/// The number of bytes that `s` takes in UTF-8.
pub open spec fn utf8_len(s: Seq<char>) -> nat
    decreases s.len(),
{
    if s.len() == 0 {
        0
    } else {
        utf8_len(s.drop_last()) + utf8_width(s.last())
    }
}

/// The number of U+FFFD characters in `s`.
pub open spec fn replacement_count(s: Seq<char>) -> nat
    decreases s.len(),
{
    if s.len() == 0 {
        0
    } else {
        replacement_count(s.drop_last()) + if s.last() == '\u{FFFD}' { 1nat } else { 0nat }
    }
}

/// Whether more than one byte in twenty of a decoded text went to
/// replacement characters: `count / max(len, 1) > 0.05`, compared exactly.
pub open spec fn mostly_replaced(s: Seq<char>) -> bool {
    20 * replacement_count(s) > if utf8_len(s) == 0 { 1 } else { utf8_len(s) }
}

/// The text of a body, given the response's content type: decoded by the
/// charset that the content type names (UTF-8, the GBK, Big5, Shift_JIS
/// and EUC-KR families, Latin-1 as windows-1252), an unknown charset as
/// UTF-8 if valid and else as GBK; with no charset, as UTF-8 with
/// replacement, unless more than one byte in twenty was replaced, then as
/// GBK.
pub open spec fn decoded_body(content_type: Option<Seq<char>>, body: Seq<u8>) -> Seq<char> {
    match charset_of(content_type) {
        Some(cs) => {
            let l = unicode_lowercase(cs);
            if l == "utf-8"@ || l == "utf8"@ {
                utf8_lossy(body)
            } else if l == "gbk"@ || l == "gb2312"@ || l == "gb18030"@ || l == "gbk2312"@ {
                encoding_decode(Codec::Gbk, body)
            } else if l == "big5"@ || l == "big5-hkscs"@ {
                encoding_decode(Codec::Big5, body)
            } else if l == "shift_jis"@ || l == "euc-jp"@ || l == "iso-2022-jp"@ {
                encoding_decode(Codec::ShiftJis, body)
            } else if l == "euc-kr"@ || l == "iso-2022-kr"@ {
                encoding_decode(Codec::EucKr, body)
            } else if l == "iso-8859-1"@ || l == "latin1"@ {
                encoding_decode(Codec::Windows1252, body)
            } else {
                match utf8_strict(body) {
                    Some(s) => s,
                    None => encoding_decode(Codec::Gbk, body),
                }
            }
        },
        None => {
            let s = utf8_lossy(body);
            if mostly_replaced(s) {
                encoding_decode(Codec::Gbk, body)
            } else {
                s
            }
        },
    }
}

/// Which decoder a named charset selects, whatever the case it is written
/// in: `utf-8`/`utf8` decode as UTF-8 with replacement; `gbk`, `gb2312`,
/// `gb18030`, `gbk2312` as GBK; `big5`, `big5-hkscs` as Big5;
/// `shift_jis`, `euc-jp`, `iso-2022-jp` as Shift_JIS; `euc-kr`,
/// `iso-2022-kr` as EUC-KR; `iso-8859-1`, `latin1` as windows-1252; any
/// other charset as UTF-8 where the bytes are valid UTF-8, else as GBK.
pub proof fn lemma_charset_decoders(content_type: Option<Seq<char>>, body: Seq<u8>)
    ensures
        charset_of(content_type) matches Some(cs) ==> {
            let name = unicode_lowercase(cs);
            &&& (name == "utf-8"@ || name == "utf8"@) ==> decoded_body(content_type, body) == utf8_lossy(body)
            &&& (name == "gbk"@ || name == "gb2312"@ || name == "gb18030"@ || name == "gbk2312"@) ==> decoded_body(
                content_type,
                body,
            ) == encoding_decode(Codec::Gbk, body)
            &&& (name == "big5"@ || name == "big5-hkscs"@) ==> decoded_body(content_type, body) == encoding_decode(
                Codec::Big5,
                body,
            )
            &&& (name == "shift_jis"@ || name == "euc-jp"@ || name == "iso-2022-jp"@) ==> decoded_body(content_type, body)
                == encoding_decode(Codec::ShiftJis, body)
            &&& (name == "euc-kr"@ || name == "iso-2022-kr"@) ==> decoded_body(content_type, body) == encoding_decode(
                Codec::EucKr,
                body,
            )
            &&& (name == "iso-8859-1"@ || name == "latin1"@) ==> decoded_body(content_type, body) == encoding_decode(
                Codec::Windows1252,
                body,
            )
            &&& !seq![
                "utf-8"@,
                "utf8"@,
                "gbk"@,
                "gb2312"@,
                "gb18030"@,
                "gbk2312"@,
                "big5"@,
                "big5-hkscs"@,
                "shift_jis"@,
                "euc-jp"@,
                "iso-2022-jp"@,
                "euc-kr"@,
                "iso-2022-kr"@,
                "iso-8859-1"@,
                "latin1"@,
            ].contains(name) ==> decoded_body(content_type, body) == match utf8_strict(body) {
                Some(t) => t,
                None => encoding_decode(Codec::Gbk, body),
            }
        },
{
    reveal_strlit("utf-8");
    reveal_strlit("utf8");
    reveal_strlit("gbk");
    reveal_strlit("gb2312");
    reveal_strlit("gb18030");
    reveal_strlit("gbk2312");
    reveal_strlit("big5");
    reveal_strlit("big5-hkscs");
    reveal_strlit("shift_jis");
    reveal_strlit("euc-jp");
    reveal_strlit("iso-2022-jp");
    reveal_strlit("euc-kr");
    reveal_strlit("iso-2022-kr");
    reveal_strlit("iso-8859-1");
    reveal_strlit("latin1");
    if charset_of(content_type) is Some {
        let name = unicode_lowercase(charset_of(content_type)->Some_0);
        let names = seq![
            "utf-8"@,
            "utf8"@,
            "gbk"@,
            "gb2312"@,
            "gb18030"@,
            "gbk2312"@,
            "big5"@,
            "big5-hkscs"@,
            "shift_jis"@,
            "euc-jp"@,
            "iso-2022-jp"@,
            "euc-kr"@,
            "iso-2022-kr"@,
            "iso-8859-1"@,
            "latin1"@,
        ];
        let ct = content_type;
        assert("utf-8"@.len() == 5 && "utf-8"@[0] == 'u' && "utf-8"@[2] == 'f' && "utf-8"@[4] == '8');
        assert("utf8"@.len() == 4 && "utf8"@[0] == 'u' && "utf8"@[2] == 'f');
        assert("gbk"@.len() == 3 && "gbk"@[0] == 'g' && "gbk"@[2] == 'k');
        assert("gb2312"@.len() == 6 && "gb2312"@[0] == 'g' && "gb2312"@[2] == '2' && "gb2312"@[4] == '1');
        assert("gb18030"@.len() == 7 && "gb18030"@[0] == 'g' && "gb18030"@[2] == '1' && "gb18030"@[4] == '0');
        assert("gbk2312"@.len() == 7 && "gbk2312"@[0] == 'g' && "gbk2312"@[2] == 'k' && "gbk2312"@[4] == '3');
        assert("big5"@.len() == 4 && "big5"@[0] == 'b' && "big5"@[2] == 'g');
        assert("big5-hkscs"@.len() == 10 && "big5-hkscs"@[0] == 'b' && "big5-hkscs"@[2] == 'g' && "big5-hkscs"@[4] == '-' && "big5-hkscs"@[9] == 's');
        assert("shift_jis"@.len() == 9 && "shift_jis"@[0] == 's' && "shift_jis"@[2] == 'i' && "shift_jis"@[4] == 't');
        assert("euc-jp"@.len() == 6 && "euc-jp"@[0] == 'e' && "euc-jp"@[2] == 'c' && "euc-jp"@[4] == 'j');
        assert("iso-2022-jp"@.len() == 11 && "iso-2022-jp"@[0] == 'i' && "iso-2022-jp"@[2] == 'o' && "iso-2022-jp"@[4] == '2' && "iso-2022-jp"@[9] == 'j');
        assert("euc-kr"@.len() == 6 && "euc-kr"@[0] == 'e' && "euc-kr"@[2] == 'c' && "euc-kr"@[4] == 'k');
        assert("iso-2022-kr"@.len() == 11 && "iso-2022-kr"@[0] == 'i' && "iso-2022-kr"@[2] == 'o' && "iso-2022-kr"@[4] == '2' && "iso-2022-kr"@[9] == 'k');
        assert("iso-8859-1"@.len() == 10 && "iso-8859-1"@[0] == 'i' && "iso-8859-1"@[2] == 'o' && "iso-8859-1"@[4] == '8' && "iso-8859-1"@[9] == '1');
        assert("latin1"@.len() == 6 && "latin1"@[0] == 'l' && "latin1"@[2] == 't' && "latin1"@[4] == 'n');
        if !names.contains(name) {
            assert(names[0] == "utf-8"@ && name != names[0]);
            assert(names[1] == "utf8"@ && name != names[1]);
            assert(names[2] == "gbk"@ && name != names[2]);
            assert(names[3] == "gb2312"@ && name != names[3]);
            assert(names[4] == "gb18030"@ && name != names[4]);
            assert(names[5] == "gbk2312"@ && name != names[5]);
            assert(names[6] == "big5"@ && name != names[6]);
            assert(names[7] == "big5-hkscs"@ && name != names[7]);
            assert(names[8] == "shift_jis"@ && name != names[8]);
            assert(names[9] == "euc-jp"@ && name != names[9]);
            assert(names[10] == "iso-2022-jp"@ && name != names[10]);
            assert(names[11] == "euc-kr"@ && name != names[11]);
            assert(names[12] == "iso-2022-kr"@ && name != names[12]);
            assert(names[13] == "iso-8859-1"@ && name != names[13]);
            assert(names[14] == "latin1"@ && name != names[14]);
        }
    }
}

/// Splits `s` at every `c`.
pub fn split_on(s: &[char], c: char) -> (r: Vec<Vec<char>>)
    ensures
        crate::text::views(r@) == split_at_char(s@, c),
{
    let mut done: Vec<Vec<char>> = Vec::new();
    let mut cur: Vec<char> = Vec::new();
    let n = s.len();
    let mut i: usize = 0;
    while i < n
        invariant
            i <= n == s@.len(),
            (crate::text::views(done@), cur@) == split_state(s@.take(i as int), c),
        decreases n - i,
    {
        assert(s@.take(i + 1).drop_last() =~= s@.take(i as int));
        if s[i] == c {
            let ghost d = crate::text::views(done@);
            done.push(cur);
            assert(crate::text::views(done@) =~= d.push(split_state(s@.take(i as int), c).1));
            cur = Vec::new();
        } else {
            cur.push(s[i]);
        }
        i = i + 1;
    }
    assert(s@.take(n as int) =~= s@);
    let ghost d = crate::text::views(done@);
    done.push(cur);
    assert(crate::text::views(done@) =~= d.push(split_state(s@, c).1));
    done
}

/// Whether `s` equals the string literal `t`.
fn is_text(s: &Vec<char>, t: &str) -> (r: bool)
    ensures
        r == (s@ == t@),
{
    crate::robots::chars_eq(s, &chars_of(t))
}

/// The charset named by one parameter of a content type.
fn charset_param_of(part: &Vec<char>) -> (r: Option<Vec<char>>)
    ensures
        match r {
            Some(v) => charset_param(part@) == Some(v@),
            None => charset_param(part@) is None,
        },
{
    let p = trim_chars(part);
    let low = chars_of(lowercase(string_of(&p).as_str()).as_str());
    if low.len() >= 8 && p.len() >= 8 {
        let head = copy_range(&low, 0, 8);
        assert(head@ == low@.take(8));
        if is_text(&head, "charset=") {
            let rest = copy_range(&p, 8, p.len());
            assert(rest@ =~= p@.skip(8));
            return Some(trim_chars(&rest));
        }
    }
    None
}

/// The charset that a content type names, if any.
pub fn charset_from(content_type: &Option<String>) -> (r: Option<String>)
    ensures
        opt_text(r) == charset_of(opt_text(*content_type)),
{
    match content_type {
        None => None,
        Some(ct) => {
            let parts = split_on(&chars_of(ct.as_str()), ';');
            let ghost ps = crate::text::views(parts@);
            assert(ps.skip(0) =~= ps);
            let mut i: usize = 0;
            while i < parts.len()
                invariant
                    i <= parts@.len(),
                    ps == crate::text::views(parts@),
                    ps == split_at_char(ct@, ';'),
                    *content_type == Some(*ct),
                    first_charset(ps) == first_charset(ps.skip(i as int)),
                decreases parts@.len() - i,
            {
                assert(ps.skip(i as int)[0] == parts@[i as int]@);
                assert(ps.skip(i as int).drop_first() =~= ps.skip(i + 1));
                match charset_param_of(&parts[i]) {
                    Some(v) => {
                        return Some(string_of(&v));
                    },
                    None => {},
                }
                i = i + 1;
            }
            assert(ps.skip(i as int) =~= Seq::<Seq<char>>::empty());
            None
        },
    }
}

/// The text of `s` in UTF-8 bytes, and the number of U+FFFD characters.
fn replacement_stats(s: &str) -> (r: (u128, u128))
    ensures
        r.0 == utf8_len(s@),
        r.1 == replacement_count(s@),
{
    let cs = chars_of(s);
    let mut len: u128 = 0;
    let mut count: u128 = 0;
    let mut i: usize = 0;
    while i < cs.len()
        invariant
            i <= cs@.len(),
            cs@ == s@,
            len == utf8_len(cs@.take(i as int)),
            count == replacement_count(cs@.take(i as int)),
            len <= 4 * i,
            count <= i,
        decreases cs@.len() - i,
    {
        assert(cs@.take(i + 1).drop_last() =~= cs@.take(i as int));
        let c = cs[i];
        let w: u128 = if (c as u32) < 0x80 {
            1
        } else if (c as u32) < 0x800 {
            2
        } else if (c as u32) < 0x10000 {
            3
        } else {
            4
        };
        len = len + w;
        if c == '\u{FFFD}' {
            count = count + 1;
        }
        i = i + 1;
    }
    assert(cs@.take(i as int) =~= cs@);
    (len, count)
}

/// Whether a content type names UTF-8 (`utf-8` or `utf8`, in any case) as
/// its charset.
pub open spec fn names_utf8(content_type: Option<Seq<char>>) -> bool {
    charset_of(content_type) matches Some(cs) && (unicode_lowercase(cs) == "utf-8"@ || unicode_lowercase(cs)
        == "utf8"@)
}

/// Decodes a response body by the charset its content type names. Valid
/// UTF-8 decodes to the text it encodes alike under a UTF-8 charset and
/// under none (there unless that text is itself mostly U+FFFD).
pub fn decode_body(content_type: &Option<String>, body: &[u8]) -> (r: String)
    requires
        decodable_len(body@.len()),
    ensures
        r@ == decoded_body(opt_text(*content_type), body@),
        utf8_strict(body@) matches Some(t) ==> (names_utf8(opt_text(*content_type)) ==> r@ == t),
        utf8_strict(body@) matches Some(t) ==> (charset_of(opt_text(*content_type)) is None && !mostly_replaced(t)
            ==> r@ == t),
{
    match charset_from(content_type) {
        Some(cs) => {
            let l = chars_of(lowercase(cs.as_str()).as_str());
            if is_text(&l, "utf-8") || is_text(&l, "utf8") {
                from_utf8_lossy(body)
            } else if is_text(&l, "gbk") || is_text(&l, "gb2312") || is_text(&l, "gb18030") || is_text(&l, "gbk2312") {
                decode_with(Codec::Gbk, body)
            } else if is_text(&l, "big5") || is_text(&l, "big5-hkscs") {
                decode_with(Codec::Big5, body)
            } else if is_text(&l, "shift_jis") || is_text(&l, "euc-jp") || is_text(&l, "iso-2022-jp") {
                decode_with(Codec::ShiftJis, body)
            } else if is_text(&l, "euc-kr") || is_text(&l, "iso-2022-kr") {
                decode_with(Codec::EucKr, body)
            } else if is_text(&l, "iso-8859-1") || is_text(&l, "latin1") {
                decode_with(Codec::Windows1252, body)
            } else {
                match from_utf8(body) {
                    Some(s) => s,
                    None => decode_with(Codec::Gbk, body),
                }
            }
        },
        None => {
            let s = from_utf8_lossy(body);
            let (len, count) = replacement_stats(s.as_str());
            let denom: u128 = if len == 0 { 1 } else { len };
            assert((20 * count > denom) == (count > denom / 20)) by (nonlinear_arith)
                requires
                    denom >= 1,
            ;
            if count > denom / 20 {
                decode_with(Codec::Gbk, body)
            } else {
                s
            }
        },
    }
}

/// What follows a failed attempt.
#[derive(Debug)]
pub enum RetryStep {
    /// Wait this many milliseconds, then try again.
    RetryAfter(u64),
    /// Give up and report the failure.
    GiveUp,
}

/// The decision after attempt `attempt` (counting from 0) of at most
/// `retries + 1` failed with `error`: retry after `delay_ms` while attempts
/// remain and the failure is transient, else give up.
pub open spec fn retry_step(attempt: usize, retries: usize, delay_ms: u64, error: FetcherError) -> RetryStep {
    if attempt >= retries || !transient(error) {
        RetryStep::GiveUp
    } else {
        RetryStep::RetryAfter(delay_ms)
    }
}

/// When a failed attempt is retried: exactly when attempts are left
/// (`attempt < retries`) and the failure was a failed request, a timeout,
/// the status 429 or a status from 500 to 599; the retry comes after
/// `delay_ms`. Any other failure, and the last attempt, give up.
pub proof fn lemma_retry_rule(attempt: usize, retries: usize, delay_ms: u64, error: FetcherError)
    ensures
        retry_step(attempt, retries, delay_ms, error) == if attempt < retries && (error is HttpError
            || error is Timeout || (error matches FetcherError::BadStatus(s) && (s == 429 || (500 <= s && s <= 599)))) {
            RetryStep::RetryAfter(delay_ms)
        } else {
            RetryStep::GiveUp
        },
{
}

/// Decides what follows a failed attempt.
pub fn after_failure(attempt: usize, retries: usize, delay_ms: u64, error: &FetcherError) -> (r: RetryStep)
    ensures
        r == retry_step(attempt, retries, delay_ms, *error),
{
    if attempt >= retries || !error.is_transient() {
        RetryStep::GiveUp
    } else {
        RetryStep::RetryAfter(delay_ms)
    }
}

} // verus!
