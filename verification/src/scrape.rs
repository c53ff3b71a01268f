//! Turning fetched pages into scrape results: the first five articles of a
//! freeCodeCamp news page and the first five entries of an RSS feed, and the
//! table rows they are printed as.
use vstd::prelude::*;
use scraper::{Html, Selector};
use vstd::string::{StringExecFns, StrSliceExecFns};
use vstd::utf8::{encode_utf8, decode_utf8, encode_utf8_decode_utf8};
use crate::text::{pad_right, pad_right_chars, string_from_utf8_lossy, trim, trim_chars, utf8_lossy};

verus! {

/// What a page is scraped as.
#[derive(Debug, Clone, Copy, PartialEq, Eq, Structural)]
pub enum ScrapeType {
    Html,
    Rss,
}

/// A page to fetch and how to read it.
#[derive(Debug, Clone, PartialEq, Eq)]
pub struct ScrapeRequest {
    pub url: String,
    pub kind: ScrapeType,
}

/// One scraped item.
#[derive(Debug, Clone, PartialEq, Eq)]
pub struct ScrapeResult {
    pub link: String,
    pub title: String,
    pub publish_date: String,
    pub kind: ScrapeType,
}

pub struct ScrapeResultView {
    pub link: Seq<char>,
    pub title: Seq<char>,
    pub publish_date: Seq<char>,
    pub kind: ScrapeType,
}

impl View for ScrapeResult {
    type V = ScrapeResultView;

    open spec fn view(&self) -> ScrapeResultView {
        ScrapeResultView { link: self.link@, title: self.title@, publish_date: self.publish_date@, kind: self.kind }
    }
}

/// What the scraper reads of an `<article>` element: the text of its first
/// `h2`, the `href` of its first `a` and the `datetime` of its first `time`.
pub struct ArticleParts {
    pub heading: Option<String>,
    pub href: Option<String>,
    pub datetime: Option<String>,
}

pub struct ArticlePartsView {
    pub heading: Option<Seq<char>>,
    pub href: Option<Seq<char>>,
    pub datetime: Option<Seq<char>>,
}

pub open spec fn opt_text(o: Option<String>) -> Option<Seq<char>> {
    match o {
        Some(s) => Some(s@),
        None => None,
    }
}

impl View for ArticleParts {
    type V = ArticlePartsView;

    open spec fn view(&self) -> ArticlePartsView {
        ArticlePartsView { heading: opt_text(self.heading), href: opt_text(self.href), datetime: opt_text(self.datetime) }
    }
}

/// What the scraper reads of a feed entry: the address of its first link, its
/// title text and its publication time in RFC 3339 form.
pub struct FeedEntry {
    pub first_link: Option<String>,
    pub title: Option<String>,
    pub published: Option<String>,
}

pub struct FeedEntryView {
    pub first_link: Option<Seq<char>>,
    pub title: Option<Seq<char>>,
    pub published: Option<Seq<char>>,
}

impl View for FeedEntry {
    type V = FeedEntryView;

    open spec fn view(&self) -> FeedEntryView {
        FeedEntryView { first_link: opt_text(self.first_link), title: opt_text(self.title), published: opt_text(self.published) }
    }
}

/// The `<article>` elements of an HTML document, in document order, as the
/// `scraper` crate finds them.
pub uninterp spec fn page_articles(html: Seq<char>) -> Seq<ArticlePartsView>;

/// `scraper::Html::parse_document`, then `select` with the selectors
/// `article`, `h2`, `a` and `time`: for each article in document order, the
/// collected text of its first `h2`, the `href` attribute of its first `a` and
/// the `datetime` attribute of its first `time`. The result is named, not stated.
#[verifier::external_body]
fn select_articles(html: &str) -> (r: Vec<ArticleParts>)
    ensures
        r@.map_values(|a: ArticleParts| a@) == page_articles(html@),
{
    let document = Html::parse_document(html);
    let [article, h2, a, time] = ["article", "h2", "a", "time"].map(|s| Selector::parse(s).unwrap());
    document.select(&article).map(|el| ArticleParts {
        heading: el.select(&h2).next().map(|h| h.text().collect()),
        href: el.select(&a).next().and_then(|e| e.attr("href")).map(String::from),
        datetime: el.select(&time).next().and_then(|e| e.attr("datetime")).map(String::from),
    }).collect()
}

/// The entries of a feed, or nothing when `feed_rs` cannot parse the bytes.
pub uninterp spec fn feed_entries(bytes: Seq<u8>) -> Option<Seq<FeedEntryView>>;

/// `feed_rs::parser::parse`: `None` when it returns an error; else for each
/// entry in order, the `href` of its first link, the content of its title and
/// its publication time as `DateTime::to_rfc3339` writes it. The result is
/// named, not stated.
#[verifier::external_body]
fn parse_feed_entries(bytes: &[u8]) -> (r: Option<Vec<FeedEntry>>)
    ensures
        match r {
            Some(v) => feed_entries(bytes@) == Some(v@.map_values(|e: FeedEntry| e@)),
            None => feed_entries(bytes@) is None,
        },
{
    match feed_rs::parser::parse(bytes) {
        Ok(feed) => Some(feed.entries.into_iter().map(|e| FeedEntry {
            first_link: e.links.first().map(|l| l.href.clone()),
            title: e.title.map(|t| t.content),
            published: e.published.map(|d| d.to_rfc3339()),
        }).collect()),
        Err(_) => None,
    }
}

/// At most the first five items.
pub open spec fn first_five<T>(s: Seq<T>) -> Seq<T> {
    if s.len() <= 5 { s } else { s.take(5) }
}

/// Whether a link is already absolute: it starts with `http`.
pub open spec fn starts_with_http(h: Seq<char>) -> bool {
    h.len() >= 4 && h.take(4) == "http"@
}

/// The result for an article: its trimmed heading (or `No Title`), its link
/// made absolute on `https://www.freecodecamp.org` (or empty), its date (or
/// `Unknown Date`).
pub open spec fn article_result(a: ArticlePartsView) -> ScrapeResultView {
    ScrapeResultView {
        link: match a.href {
            Some(h) => if starts_with_http(h) { h } else { "https://www.freecodecamp.org"@ + h },
            None => Seq::empty(),
        },
        title: trim_chars(
            match a.heading {
                Some(t) => t,
                None => "No Title"@,
            },
        ),
        publish_date: match a.datetime {
            Some(d) => d,
            None => "Unknown Date"@,
        },
        kind: ScrapeType::Html,
    }
}

/// The result for a feed entry: its first link (or empty), its title (or
/// empty), its publication time (or `Unknown Date`).
pub open spec fn entry_result(e: FeedEntryView) -> ScrapeResultView {
    ScrapeResultView {
        link: match e.first_link {
            Some(l) => l,
            None => Seq::empty(),
        },
        title: match e.title {
            Some(t) => t,
            None => Seq::empty(),
        },
        publish_date: match e.published {
            Some(d) => d,
            None => "Unknown Date"@,
        },
        kind: ScrapeType::Rss,
    }
}

pub open spec fn results_view(v: Seq<ScrapeResult>) -> Seq<ScrapeResultView> {
    v.map_values(|r: ScrapeResult| r@)
}

fn text_or(o: Option<String>, fallback: &str) -> (r: String)
    ensures
        r@ == match o {
            Some(s) => s@,
            None => fallback@,
        },
{
    match o {
        Some(s) => s,
        None => String::from_str(fallback),
    }
}

fn has_http_prefix(h: &str) -> (r: bool)
    ensures
        r == starts_with_http(h@),
{
    let c = crate::statement::collect_chars(h);
    proof {
        reveal_strlit("http");
    }
    assert("http"@ =~= seq!['h', 't', 't', 'p']);
    if c.len() < 4 {
        return false;
    }
    let r = c[0] == 'h' && c[1] == 't' && c[2] == 't' && c[3] == 'p';
    proof {
        let p = c@.take(4);
        if r {
            assert(p =~= "http"@);
        } else {
            assert(p[0] != 'h' || p[1] != 't' || p[2] != 't' || p[3] != 'p');
            assert(p != "http"@);
        }
    }
    r
}

/// The scrape result for one article.
pub fn article_to_result(a: ArticleParts) -> (r: ScrapeResult)
    ensures
        r@ == article_result(a@),
{
    let title = trim(text_or(a.heading, "No Title").as_str());
    let link = match a.href {
        Some(h) => if has_http_prefix(h.as_str()) {
            h
        } else {
            let mut l = String::from_str("https://www.freecodecamp.org");
            l.append(h.as_str());
            l
        },
        None => String::new(),
    };
    let publish_date = text_or(a.datetime, "Unknown Date");
    ScrapeResult { link, title, publish_date, kind: ScrapeType::Html }
}

/// The scrape result for one feed entry.
pub fn entry_to_result(e: FeedEntry) -> (r: ScrapeResult)
    ensures
        r@ == entry_result(e@),
{
    let link = match e.first_link {
        Some(l) => l,
        None => String::new(),
    };
    let title = match e.title {
        Some(t) => t,
        None => String::new(),
    };
    let publish_date = text_or(e.published, "Unknown Date");
    ScrapeResult { link, title, publish_date, kind: ScrapeType::Rss }
}

/// The results for the first five articles of a page.
pub fn news_results(articles: Vec<ArticleParts>) -> (r: Vec<ScrapeResult>)
    ensures
        results_view(r@) == first_five(articles@.map_values(|a: ArticleParts| a@)).map_values(
            |a: ArticlePartsView| article_result(a),
        ),
{
    let ghost all = articles@.map_values(|a: ArticleParts| a@);
    let ghost want = first_five(all).map_values(|a: ArticlePartsView| article_result(a));
    let mut out: Vec<ScrapeResult> = Vec::new();
    let mut n: usize = 0;
    for a in it: articles.into_iter()
        invariant
            it.seq() == articles@,
            all == articles@.map_values(|a: ArticleParts| a@),
            n == out@.len(),
            n == (if it.index() <= 5 { it.index() as int } else { 5 }),
            forall|k: int| 0 <= k < n ==> (#[trigger] out@[k])@ == article_result(all[k]),
    {
        if n < 5 {
            assert(all[it.index() as int] == a@);
            out.push(article_to_result(a));
            n = n + 1;
        }
    }
    assert(results_view(out@) =~= want);
    out
}

/// The first five articles of a freeCodeCamp news page (the bytes decoded as
/// UTF-8, invalid sequences replaced).
pub fn parse_fcc_news_page(bytes: &[u8]) -> (r: Vec<ScrapeResult>)
    ensures
        results_view(r@) == first_five(page_articles(utf8_lossy(bytes@))).map_values(|a: ArticlePartsView| article_result(a)),
{
    let html = string_from_utf8_lossy(bytes);
    news_results(select_articles(html.as_str()))
}

/// The results for the first five entries of a feed; none when there is no feed.
pub fn feed_results(entries: Option<Vec<FeedEntry>>) -> (r: Vec<ScrapeResult>)
    ensures
        match entries {
            Some(v) => results_view(r@) == first_five(v@.map_values(|e: FeedEntry| e@)).map_values(
                |e: FeedEntryView| entry_result(e),
            ),
            None => r@.len() == 0,
        },
{
    match entries {
        None => Vec::new(),
        Some(entries) => {
            let ghost all = entries@.map_values(|e: FeedEntry| e@);
            let ghost want = first_five(all).map_values(|e: FeedEntryView| entry_result(e));
            let mut out: Vec<ScrapeResult> = Vec::new();
            let mut n: usize = 0;
            for e in it: entries.into_iter()
                invariant
                    it.seq() == entries@,
                    all == entries@.map_values(|e: FeedEntry| e@),
                    n == out@.len(),
                    n == (if it.index() <= 5 { it.index() as int } else { 5 }),
                    forall|k: int| 0 <= k < n ==> (#[trigger] out@[k])@ == entry_result(all[k]),
            {
                if n < 5 {
                    assert(all[it.index() as int] == e@);
                    out.push(entry_to_result(e));
                    n = n + 1;
                }
            }
            assert(results_view(out@) =~= want);
            out
        },
    }
}

/// The first five entries of an RSS feed; none when the feed does not parse.
pub fn parse_rss(bytes: &[u8]) -> (r: Vec<ScrapeResult>)
    ensures
        match feed_entries(bytes@) {
            Some(es) => results_view(r@) == first_five(es).map_values(|e: FeedEntryView| entry_result(e)),
            None => r@.len() == 0,
        },
{
    feed_results(parse_feed_entries(bytes))
}

/// The results of a fetched page, read as its request's kind says.
pub fn scrape_page(kind: ScrapeType, bytes: &[u8]) -> (r: Vec<ScrapeResult>)
    ensures
        kind == ScrapeType::Html ==> results_view(r@) == first_five(page_articles(utf8_lossy(bytes@))).map_values(
            |a: ArticlePartsView| article_result(a),
        ),
        kind == ScrapeType::Rss ==> match feed_entries(bytes@) {
            Some(es) => results_view(r@) == first_five(es).map_values(|e: FeedEntryView| entry_result(e)),
            None => r@.len() == 0,
        },
{
    match kind {
        ScrapeType::Html => parse_fcc_news_page(bytes),
        ScrapeType::Rss => parse_rss(bytes),
    }
}

/// The name a kind is printed with.
pub open spec fn kind_name(kind: ScrapeType) -> Seq<char> {
    match kind {
        ScrapeType::Html => "Html"@,
        ScrapeType::Rss => "Rss"@,
    }
}

/// A title as printed: when longer than 47 bytes, its first 47 bytes and `...`.
pub open spec fn shown_title(title: Seq<char>) -> Seq<char> {
    if encode_utf8(title).len() > 47 {
        decode_utf8(encode_utf8(title).take(47)) + "..."@
    } else {
        title
    }
}

/// A row of the results table: kind, title, date and link in columns of 10, 50
/// and 25 characters.
pub open spec fn table_line_chars(kind: Seq<char>, title: Seq<char>, date: Seq<char>, link: Seq<char>) -> Seq<char> {
    pad_right_chars(kind, 10) + " | "@ + pad_right_chars(title, 50) + " | "@ + pad_right_chars(date, 25) + " | "@ + link
}

/// A row of the results table, as the header and every result are printed.
pub fn table_line(kind: &str, title: &str, date: &str, link: &str) -> (r: String)
    ensures
        r@ == table_line_chars(kind@, title@, date@, link@),
{
    let mut r = pad_right(kind, 10);
    r.append(" | ");
    let t = pad_right(title, 50);
    r.append(t.as_str());
    r.append(" | ");
    let d = pad_right(date, 25);
    r.append(d.as_str());
    r.append(" | ");
    r.append(link);
    r
}

/// The row printed for a result. A title longer than 47 bytes is cut at byte
/// 47, which must fall between characters.
pub fn result_row(result: &ScrapeResult) -> (r: String)
    requires
        encode_utf8(result.title@).len() <= 47 || vstd::utf8::is_char_boundary(encode_utf8(result.title@), 47),
    ensures
        r@ == table_line_chars(kind_name(result.kind), shown_title(result.title@), result.publish_date@, result.link@),
{
    let kind = match result.kind {
        ScrapeType::Html => "Html",
        ScrapeType::Rss => "Rss",
    };
    let ghost bytes = encode_utf8(result.title@);
    let title = if result.title.as_str().as_bytes().len() > 47 {
        let (head, _) = result.title.as_str().split_at(47);
        proof {
            encode_utf8_decode_utf8(head@);
            assert(head@ == decode_utf8(bytes.take(47)));
        }
        let mut t = String::from_str(head);
        t.append("...");
        assert(bytes.len() > 47);
        assert(t@ == decode_utf8(bytes.take(47)) + "..."@);
        t
    } else {
        let t = String::from_str(result.title.as_str());
        assert(bytes.len() <= 47);
        assert(t@ == result.title@);
        t
    };
    assert(title@ == shown_title(result.title@));
    assert(kind@ == kind_name(result.kind));
    table_line(kind, title.as_str(), result.publish_date.as_str(), result.link.as_str())
}

} // verus!
