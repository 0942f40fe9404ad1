//! Where crawled pages go: a storage back end takes pages one by one and
//! is closed at the end of a crawl. This module holds what goes into the
//! files: the CSV lines (RFC 4180 quoting) and the SQLite table and rows;
//! the program writes them.

use vstd::prelude::*;
use crate::models::Page;
use crate::text::{chars_of, string_of, views};

verus! {

/// Why a page could not be stored.
#[derive(Debug)]
pub enum StorageError {
    /// Reading or writing a file failed; the text says why.
    IoError(String),
    /// A page could not be written as JSON; the text says why.
    JsonError(String),
    /// A CSV record could not be written; the text says why.
    CsvError(String),
    /// The database refused an operation; the text says why.
    SqliteError(String),
    /// The output path is not usable.
    InvalidPath(String),
}

/// A storage back end.
pub trait Storage {
    /// Stores one page.
    fn save_page(&self, page: &Page) -> Result<(), StorageError>;

    /// Flushes what is buffered and closes the output.
    fn close(&self) -> Result<(), StorageError>;
}

/// The decimal digit `d`, for `d` below 10.
pub open spec fn digit_char(d: nat) -> char {
    if d == 0 {
        '0'
    } else if d == 1 {
        '1'
    } else if d == 2 {
        '2'
    } else if d == 3 {
        '3'
    } else if d == 4 {
        '4'
    } else if d == 5 {
        '5'
    } else if d == 6 {
        '6'
    } else if d == 7 {
        '7'
    } else if d == 8 {
        '8'
    } else {
        '9'
    }
}

/// The decimal numeral of `n`, without leading zeros.
pub open spec fn decimal(n: nat) -> Seq<char>
    decreases n,
{
    if n < 10 {
        seq![digit_char(n)]
    } else {
        decimal(n / 10).push(digit_char(n % 10))
    }
}

/// The number that a string of decimal digits denotes.
pub open spec fn digits_value(s: Seq<char>) -> int
    decreases s.len(),
{
    if s.len() == 0 {
        0
    } else {
        digits_value(s.drop_last()) * 10 + ((s.last() as int) - ('0' as int))
    }
}

/// `decimal(n)` is the numeral of `n`: it is made of the digits `0` to
/// `9`, starts with `0` only when it is `0` itself, and denotes `n`.
pub proof fn lemma_decimal(n: nat)
    ensures
        decimal(n).len() > 0,
        forall|i: int| 0 <= i < decimal(n).len() ==> '0' <= #[trigger] decimal(n)[i] && decimal(n)[i] <= '9',
        decimal(n)[0] == '0' ==> n == 0 && decimal(n).len() == 1,
        digits_value(decimal(n)) == n,
    decreases n,
{
    lemma_digit_char(n % 10);
    if n >= 10 {
        lemma_decimal(n / 10);
        let d = decimal(n);
        let p = decimal(n / 10);
        assert(d.drop_last() =~= p);
        assert forall|i: int| 0 <= i < d.len() implies '0' <= #[trigger] d[i] && d[i] <= '9' by {
            if i < p.len() {
                assert(d[i] == p[i]);
            }
        }
        assert(d[0] == p[0]);
        assert(d.last() == digit_char(n % 10));
        assert(digits_value(d) == digits_value(p) * 10 + ((d.last() as int) - ('0' as int)));
        assert(digits_value(d) == (n / 10) * 10 + n % 10);
        assert((n / 10) * 10 + n % 10 == n) by (nonlinear_arith);
    } else {
        let d = decimal(n);
        assert(d.drop_last() =~= Seq::<char>::empty());
        assert(n % 10 == n);
        assert(digits_value(d) == digits_value(d.drop_last()) * 10 + ((d.last() as int) - ('0' as int)));
    }
}

/// The digit of `d` is a digit character standing for `d`.
proof fn lemma_digit_char(d: nat)
    requires
        d < 10,
    ensures
        '0' <= digit_char(d) <= '9',
        (digit_char(d) as int) - ('0' as int) == d,
{
}

/// The text inside a quoted CSV field read back: each doubled double
/// quote taken as one.
pub open spec fn undoubled(t: Seq<char>) -> Seq<char>
    decreases t.len(),
{
    if t.len() == 0 {
        seq![]
    } else if t.len() >= 2 && t[0] == '"' && t[1] == '"' {
        seq!['"'] + undoubled(t.skip(2))
    } else {
        seq![t[0]] + undoubled(t.skip(1))
    }
}

/// Doubling the quotes of two pieces one after the other is doubling the
/// quotes of the whole.
proof fn lemma_doubled_concat(a: Seq<char>, b: Seq<char>)
    ensures
        doubled_quotes(a + b) == doubled_quotes(a) + doubled_quotes(b),
    decreases b.len(),
{
    if b.len() > 0 {
        lemma_doubled_concat(a, b.drop_last());
        assert((a + b).drop_last() =~= a + b.drop_last());
        assert((a + b).last() == b.last());
    } else {
        assert(a + b =~= a);
    }
}

/// Reading back the doubled quotes of `s` gives `s`.
proof fn lemma_undoubled(s: Seq<char>)
    ensures
        undoubled(doubled_quotes(s)) == s,
    decreases s.len(),
{
    if s.len() > 0 {
        let head = seq![s[0]];
        let rest = s.drop_first();
        assert(s =~= head + rest);
        lemma_doubled_concat(head, rest);
        assert(head.drop_last() =~= Seq::<char>::empty());
        assert(doubled_quotes(Seq::<char>::empty()) == Seq::<char>::empty());
        assert(head.last() == s[0]);
        lemma_undoubled(rest);
        let t = doubled_quotes(s);
        if s[0] == '"' {
            assert(doubled_quotes(head) =~= seq!['"', '"']);
            assert(t.skip(2) =~= doubled_quotes(rest));
        } else {
            assert(doubled_quotes(head) =~= seq![s[0]]);
            assert(t.skip(1) =~= doubled_quotes(rest));
        }
        assert(undoubled(t) =~= s);
    }
}

/// A CSV field reads back as its text: a text with no comma, double quote,
/// line feed or carriage return is written as it is; any other text is
/// written between double quotes, and what stands between them, its
/// doubled quotes taken as one, is the text.
pub proof fn lemma_csv_field_reads_back(s: Seq<char>)
    ensures
        (forall|i: int| 0 <= i < s.len() ==> #[trigger] s[i] != ',' && s[i] != '"' && s[i] != '\n' && s[i] != '\r')
            ==> csv_field(s) == s,
        (exists|i: int| 0 <= i < s.len() && (#[trigger] s[i] == ',' || s[i] == '"' || s[i] == '\n' || s[i] == '\r'))
            ==> {
            let f = csv_field(s);
            &&& f.len() >= 2 && f[0] == '"' && f[f.len() - 1] == '"'
            &&& undoubled(f.subrange(1, f.len() - 1)) == s
        },
{
    let f = csv_field(s);
    if needs_quotes(s) {
        lemma_undoubled(s);
        assert(f.subrange(1, f.len() - 1) =~= doubled_quotes(s));
    }
}

/// Whether a CSV field must be quoted: it holds a comma, a double quote,
/// a line feed or a carriage return.
pub open spec fn needs_quotes(s: Seq<char>) -> bool {
    exists|i: int| 0 <= i < s.len() && (#[trigger] s[i] == ',' || s[i] == '"' || s[i] == '\n' || s[i] == '\r')
}

/// `s` with every double quote doubled.
pub open spec fn doubled_quotes(s: Seq<char>) -> Seq<char>
    decreases s.len(),
{
    if s.len() == 0 {
        seq![]
    } else {
        doubled_quotes(s.drop_last()) + if s.last() == '"' {
            seq!['"', '"']
        } else {
            seq![s.last()]
        }
    }
}

/// A CSV field: as it is, or, where it must be quoted, between double
/// quotes with its double quotes doubled.
pub open spec fn csv_field(s: Seq<char>) -> Seq<char> {
    if needs_quotes(s) {
        seq!['"'] + doubled_quotes(s) + seq!['"']
    } else {
        s
    }
}

/// The fields written as CSV fields, separated by commas.
pub open spec fn csv_joined(fields: Seq<Seq<char>>) -> Seq<char>
    decreases fields.len(),
{
    if fields.len() == 0 {
        seq![]
    } else if fields.len() == 1 {
        csv_field(fields[0])
    } else {
        csv_joined(fields.drop_last()) + seq![','] + csv_field(fields.last())
    }
}

/// A CSV record: the fields, separated by commas, ended by a line feed.
pub open spec fn csv_line(fields: Seq<Seq<char>>) -> Seq<char> {
    csv_joined(fields).push('\n')
}

/// The columns of the CSV file, in order.
pub open spec fn csv_header() -> Seq<Seq<char>> {
    seq![
        "url"@,
        "title"@,
        "content"@,
        "status_code"@,
        "depth"@,
        "link_count"@,
        "fetch_duration_ms"@,
        "crawled_at"@,
    ]
}

/// The text of an optional string, empty where there is none.
pub open spec fn text_or_empty(o: Option<String>) -> Seq<char> {
    match o {
        Some(s) => s@,
        None => seq![],
    }
}

/// The fields of a page's CSV record, one per column of `csv_header`: its
/// URL, title and content (empty where there is none), status code, depth,
/// number of links, fetch time in milliseconds and fetch time in seconds
/// since the Unix epoch, numbers in decimal.
pub open spec fn page_fields(p: Page) -> Seq<Seq<char>> {
    seq![
        p.url@,
        text_or_empty(p.title),
        text_or_empty(p.content),
        decimal(p.status_code as nat),
        decimal(p.depth as nat),
        decimal(p.links@.len()),
        decimal(p.fetch_duration_ms as nat),
        decimal(p.crawled_at as nat),
    ]
}

/// The decimal digit of `d`.
fn digit(d: u64) -> (r: char)
    requires
        d < 10,
    ensures
        r == digit_char(d as nat),
{
    if d == 0 {
        '0'
    } else if d == 1 {
        '1'
    } else if d == 2 {
        '2'
    } else if d == 3 {
        '3'
    } else if d == 4 {
        '4'
    } else if d == 5 {
        '5'
    } else if d == 6 {
        '6'
    } else if d == 7 {
        '7'
    } else if d == 8 {
        '8'
    } else {
        '9'
    }
}

/// Appends the decimal numeral of `n` to `out`.
pub fn push_decimal(n: u64, out: &mut Vec<char>)
    ensures
        final(out)@ == old(out)@ + decimal(n as nat),
    decreases n,
{
    if n >= 10 {
        push_decimal(n / 10, out);
        out.push(digit(n % 10));
        assert(out@ =~= old(out)@ + decimal(n as nat));
    } else {
        out.push(digit(n));
        assert(out@ =~= old(out)@ + decimal(n as nat));
    }
}

/// The decimal numeral of `n`.
fn decimal_chars(n: u64) -> (r: Vec<char>)
    ensures
        r@ == decimal(n as nat),
{
    let mut v: Vec<char> = Vec::new();
    push_decimal(n, &mut v);
    assert(v@ =~= decimal(n as nat));
    v
}

/// Appends `f` as a CSV field to `out`.
pub fn push_csv_field(f: &Vec<char>, out: &mut Vec<char>)
    ensures
        final(out)@ == old(out)@ + csv_field(f@),
{
    let n = f.len();
    let mut quote = false;
    let mut i: usize = 0;
    while i < n
        invariant
            i <= n == f@.len(),
            quote <==> exists|j: int| 0 <= j < i && (#[trigger] f@[j] == ',' || f@[j] == '"' || f@[j] == '\n' || f@[j] == '\r'),
        decreases n - i,
    {
        let c = f[i];
        if c == ',' || c == '"' || c == '\n' || c == '\r' {
            quote = true;
        }
        i = i + 1;
    }
    assert(quote == needs_quotes(f@));
    let ghost start = out@;
    if quote {
        out.push('"');
        let mut k: usize = 0;
        assert(f@.take(0) =~= Seq::<char>::empty());
        while k < n
            invariant
                k <= n == f@.len(),
                out@ == start + seq!['"'] + doubled_quotes(f@.take(k as int)),
            decreases n - k,
        {
            let c = f[k];
            assert(f@.take(k + 1).drop_last() =~= f@.take(k as int));
            out.push(c);
            if c == '"' {
                out.push('"');
            }
            assert(out@ =~= start + seq!['"'] + doubled_quotes(f@.take(k + 1)));
            k = k + 1;
        }
        assert(f@.take(n as int) =~= f@);
        out.push('"');
        assert(out@ =~= start + csv_field(f@));
    } else {
        let mut k: usize = 0;
        while k < n
            invariant
                k <= n == f@.len(),
                out@ == start + f@.take(k as int),
            decreases n - k,
        {
            out.push(f[k]);
            assert(f@.take(k + 1) =~= f@.take(k as int).push(f@[k as int]));
            k = k + 1;
        }
        assert(f@.take(n as int) =~= f@);
    }
}

/// The CSV record of `fields`.
pub fn csv_line_of(fields: &Vec<Vec<char>>) -> (r: String)
    ensures
        r@ == csv_line(views(fields@)),
{
    let ghost vs = views(fields@);
    let mut out: Vec<char> = Vec::new();
    let mut i: usize = 0;
    assert(vs.take(0) =~= Seq::<Seq<char>>::empty());
    while i < fields.len()
        invariant
            i <= fields@.len() == vs.len(),
            vs == views(fields@),
            out@ == csv_joined(vs.take(i as int)),
        decreases fields@.len() - i,
    {
        assert(vs.take(i + 1).drop_last() =~= vs.take(i as int));
        assert(vs.take(i + 1).last() == fields@[i as int]@);
        if i > 0 {
            out.push(',');
        } else {
            assert(out@ =~= Seq::<char>::empty());
        }
        push_csv_field(&fields[i], &mut out);
        assert(out@ =~= csv_joined(vs.take(i + 1)));
        i = i + 1;
    }
    assert(vs.take(i as int) =~= vs);
    out.push('\n');
    string_of(&out)
}

/// The characters of an optional string, none where there is none.
fn chars_or_empty(o: &Option<String>) -> (r: Vec<char>)
    ensures
        r@ == text_or_empty(*o),
{
    match o {
        Some(s) => chars_of(s.as_str()),
        None => Vec::new(),
    }
}

/// Storage as CSV at a path: a header line naming the columns, then one
/// record per page stored, in the order stored.
pub struct CsvStorage {
    path: String,
}

impl CsvStorage {
    /// The output path.
    pub closed spec fn path(&self) -> Seq<char> {
        self.path@
    }

    /// A CSV storage at `path`; it always succeeds.
    pub fn new(path: &str) -> (r: Result<CsvStorage, StorageError>)
        ensures
            r matches Ok(s) && s.path() == path@,
    {
        Ok(CsvStorage { path: crate::config::owned(path) })
    }

    /// The path the file is written at.
    pub fn path_str(&self) -> (r: &str)
        ensures
            r@ == self.path(),
    {
        self.path.as_str()
    }

    /// The first line of the file: the column names.
    pub fn header_line(&self) -> (r: String)
        ensures
            r@ == csv_line(csv_header()),
    {
        let mut fields: Vec<Vec<char>> = Vec::new();
        fields.push(chars_of("url"));
        fields.push(chars_of("title"));
        fields.push(chars_of("content"));
        fields.push(chars_of("status_code"));
        fields.push(chars_of("depth"));
        fields.push(chars_of("link_count"));
        fields.push(chars_of("fetch_duration_ms"));
        fields.push(chars_of("crawled_at"));
        assert(views(fields@) =~= csv_header());
        csv_line_of(&fields)
    }

    /// The line that stores `page`.
    pub fn record_line(&self, page: &Page) -> (r: String)
        ensures
            r@ == csv_line(page_fields(*page)),
    {
        let mut fields: Vec<Vec<char>> = Vec::new();
        fields.push(chars_of(page.url.as_str()));
        fields.push(chars_or_empty(&page.title));
        fields.push(chars_or_empty(&page.content));
        fields.push(decimal_chars(page.status_code as u64));
        fields.push(decimal_chars(page.depth as u64));
        fields.push(decimal_chars(page.links.len() as u64));
        fields.push(decimal_chars(page.fetch_duration_ms));
        fields.push(decimal_chars(page.crawled_at));
        assert(views(fields@) =~= page_fields(*page));
        csv_line_of(&fields)
    }
}

/// `n` as an SQLite integer: `n`, or `i64::MAX` where it is larger.
pub open spec fn sql_int(n: nat) -> i64 {
    if n > i64::MAX {
        i64::MAX
    } else {
        n as i64
    }
}

/// `n` as an SQLite integer.
fn to_sql_int(n: u64) -> (r: i64)
    ensures
        r == sql_int(n as nat),
{
    if n > 9223372036854775807u64 {
        9223372036854775807i64
    } else {
        n as i64
    }
}

/// A page as a row of the `pages` table.
pub struct PageRow {
    /// The page's URL.
    pub url: String,
    /// Its title, if any.
    pub title: Option<String>,
    /// Its main text, if any.
    pub content: Option<String>,
    /// The HTTP status code.
    pub status_code: i64,
    /// The depth.
    pub depth: i64,
    /// The number of links.
    pub link_count: i64,
    /// The fetch time in milliseconds.
    pub fetch_duration_ms: i64,
    /// When the page was fetched, in seconds since the Unix epoch.
    pub crawled_at: i64,
}

/// Storage in an SQLite database at a path: a table `pages` with one row
/// per page stored.
pub struct SqliteStorage {
    path: String,
}

impl SqliteStorage {
    /// The database path.
    pub closed spec fn path(&self) -> Seq<char> {
        self.path@
    }

    /// An SQLite storage at `path`; it always succeeds.
    pub fn new(path: &str) -> (r: Result<SqliteStorage, StorageError>)
        ensures
            r matches Ok(s) && s.path() == path@,
    {
        Ok(SqliteStorage { path: crate::config::owned(path) })
    }

    /// The path the database is opened at.
    pub fn path_str(&self) -> (r: &str)
        ensures
            r@ == self.path(),
    {
        self.path.as_str()
    }

    /// The statement that creates the `pages` table where it is missing.
    pub fn create_table_sql(&self) -> (r: &'static str)
        ensures
            r@ == "CREATE TABLE IF NOT EXISTS pages (url TEXT NOT NULL, title TEXT, content TEXT, status_code INTEGER NOT NULL, depth INTEGER NOT NULL, link_count INTEGER NOT NULL, fetch_duration_ms INTEGER NOT NULL, crawled_at INTEGER NOT NULL)"@,
    {
        "CREATE TABLE IF NOT EXISTS pages (url TEXT NOT NULL, title TEXT, content TEXT, status_code INTEGER NOT NULL, depth INTEGER NOT NULL, link_count INTEGER NOT NULL, fetch_duration_ms INTEGER NOT NULL, crawled_at INTEGER NOT NULL)"
    }

    /// The statement that inserts a row; its eight parameters are the
    /// fields of a [`PageRow`], in order.
    pub fn insert_sql(&self) -> (r: &'static str)
        ensures
            r@ == "INSERT INTO pages (url, title, content, status_code, depth, link_count, fetch_duration_ms, crawled_at) VALUES (?1, ?2, ?3, ?4, ?5, ?6, ?7, ?8)"@,
    {
        "INSERT INTO pages (url, title, content, status_code, depth, link_count, fetch_duration_ms, crawled_at) VALUES (?1, ?2, ?3, ?4, ?5, ?6, ?7, ?8)"
    }

    /// The row that stores `page`: its URL, title, content, status code,
    /// depth, number of links, fetch time and fetch instant, each number
    /// capped at `i64::MAX`.
    pub fn row(&self, page: &Page) -> (r: PageRow)
        ensures
            r.url@ == page.url@,
            crate::parser::opt_chars(r.title) == crate::parser::opt_chars(page.title),
            crate::parser::opt_chars(r.content) == crate::parser::opt_chars(page.content),
            r.status_code == page.status_code,
            r.depth == page.depth,
            r.link_count == sql_int(page.links@.len()),
            r.fetch_duration_ms == sql_int(page.fetch_duration_ms as nat),
            r.crawled_at == sql_int(page.crawled_at as nat),
    {
        PageRow {
            url: crate::config::owned(page.url.as_str()),
            title: copy_opt(&page.title),
            content: copy_opt(&page.content),
            status_code: page.status_code as i64,
            depth: page.depth as i64,
            link_count: to_sql_int(page.links.len() as u64),
            fetch_duration_ms: to_sql_int(page.fetch_duration_ms),
            crawled_at: to_sql_int(page.crawled_at),
        }
    }
}

/// A copy of an optional string.
fn copy_opt(o: &Option<String>) -> (r: Option<String>)
    ensures
        crate::parser::opt_chars(r) == crate::parser::opt_chars(*o),
{
    match o {
        Some(s) => Some(crate::config::owned(s.as_str())),
        None => None,
    }
}

} // verus!
