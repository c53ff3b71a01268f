use systems_lab::scrape::{
    feed_results, news_results, parse_fcc_news_page, parse_rss, result_row, scrape_page, table_line, ArticleParts,
    FeedEntry, ScrapeResult, ScrapeType,
};

const PAGE: &str = r#"<html><body>
<article><h2>  First Title  </h2><a href="/news/first/">read</a><time datetime="2024-01-01T00:00:00Z">Jan 1</time></article>
<article><h2>Second</h2><a href="https://example.com/second">read</a></article>
<article><a href="/news/third/">read</a><time datetime="2024-01-03">Jan 3</time></article>
<article><h2>Fourth</h2></article>
<article><h2>Fifth</h2></article>
<article><h2>Sixth</h2></article>
</body></html>"#;

const FEED: &str = r#"<?xml version="1.0"?>
<rss version="2.0"><channel><title>Blog</title><link>https://www.cncf.io/blog/</link><description>posts</description>
<item><title>First post</title><link>https://www.cncf.io/blog/first/</link><pubDate>Tue, 02 Jan 2024 03:04:05 +0000</pubDate></item>
<item><title>Second post</title><link>https://www.cncf.io/blog/second/</link></item>
</channel></rss>"#;

fn result(link: &str, title: &str, date: &str, kind: ScrapeType) -> ScrapeResult {
    ScrapeResult { link: link.to_string(), title: title.to_string(), publish_date: date.to_string(), kind }
}

#[test]
fn reads_first_five_articles_of_a_news_page() {
    let results = parse_fcc_news_page(PAGE.as_bytes());
    assert_eq!(
        results,
        vec![
            result("https://www.freecodecamp.org/news/first/", "First Title", "2024-01-01T00:00:00Z", ScrapeType::Html),
            result("https://example.com/second", "Second", "Unknown Date", ScrapeType::Html),
            result("https://www.freecodecamp.org/news/third/", "No Title", "2024-01-03", ScrapeType::Html),
            result("", "Fourth", "Unknown Date", ScrapeType::Html),
            result("", "Fifth", "Unknown Date", ScrapeType::Html),
        ]
    );
}

#[test]
fn reads_rss_entries() {
    let results = parse_rss(FEED.as_bytes());
    assert_eq!(
        results,
        vec![
            result("https://www.cncf.io/blog/first/", "First post", "2024-01-02T03:04:05+00:00", ScrapeType::Rss),
            result("https://www.cncf.io/blog/second/", "Second post", "Unknown Date", ScrapeType::Rss),
        ]
    );
    assert_eq!(scrape_page(ScrapeType::Rss, FEED.as_bytes()), results);
    assert!(parse_rss(b"not a feed").is_empty());
}

#[test]
fn page_without_articles_gives_nothing() {
    assert!(parse_fcc_news_page(b"<html><body><p>none</p></body></html>").is_empty());
    assert_eq!(scrape_page(ScrapeType::Html, PAGE.as_bytes()).len(), 5);
}

#[test]
fn rows_cut_long_titles() {
    assert_eq!(
        table_line("KIND", "TITLE", "DATE", "LINK"),
        format!("{:<10} | {:<50} | {:<25} | {}", "KIND", "TITLE", "DATE", "LINK")
    );
    let short = result("https://a", "Short", "2024", ScrapeType::Rss);
    assert_eq!(result_row(&short), format!("{:<10} | {:<50} | {:<25} | {}", "Rss", "Short", "2024", "https://a"));
    let long_title = "abcdefghij".repeat(5);
    let long = result("https://b", &long_title, "2024", ScrapeType::Html);
    let row = result_row(&long);
    assert_eq!(row, format!("{:<10} | {:<50} | {:<25} | {}", "Html", format!("{}...", &long_title[..47]), "2024", "https://b"));
}

#[test]
fn invalid_utf8_in_a_page_is_replaced() {
    let page: &[u8] = b"<article><h2>Caf\xff</h2><a href=\"http://x\">x</a></article>";
    let results = parse_fcc_news_page(page);
    assert_eq!(results, vec![result("http://x", "Caf\u{FFFD}", "Unknown Date", ScrapeType::Html)]);
}

#[test]
fn builds_results_from_extracted_parts() {
    let part = |heading: Option<&str>, href: Option<&str>, datetime: Option<&str>| ArticleParts {
        heading: heading.map(String::from),
        href: href.map(String::from),
        datetime: datetime.map(String::from),
    };
    let articles = vec![
        part(Some("\n  Spaced  \t"), Some("/a"), Some("2024")),
        part(None, Some("https://x/b"), None),
        part(Some("c"), None, None),
        part(Some("d"), Some("httpish"), None),
        part(Some("e"), None, None),
        part(Some("f"), None, None),
    ];
    assert_eq!(
        news_results(articles),
        vec![
            result("https://www.freecodecamp.org/a", "Spaced", "2024", ScrapeType::Html),
            result("https://x/b", "No Title", "Unknown Date", ScrapeType::Html),
            result("", "c", "Unknown Date", ScrapeType::Html),
            result("httpish", "d", "Unknown Date", ScrapeType::Html),
            result("", "e", "Unknown Date", ScrapeType::Html),
        ]
    );

    let entry = |link: Option<&str>, title: Option<&str>, published: Option<&str>| FeedEntry {
        first_link: link.map(String::from),
        title: title.map(String::from),
        published: published.map(String::from),
    };
    assert!(feed_results(None).is_empty());
    assert_eq!(
        feed_results(Some(vec![entry(None, None, None), entry(Some("l"), Some(" t "), Some("d"))])),
        vec![
            result("", "", "Unknown Date", ScrapeType::Rss),
            result("l", " t ", "d", ScrapeType::Rss),
        ]
    );
}
