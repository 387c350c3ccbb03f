use daily_feed::ai_client::is_retryable_status;
use daily_feed::ast::ContentBlock;
use daily_feed::parser::{parse_feeds_to_document, ChannelData, ItemData};
use daily_feed::sources::{ArsTechnicaSource, HackerNewsSource, HnItem, RssSource};

#[test]
fn test_extract_parent_title() {
    let source = HackerNewsSource::new();

    assert_eq!(
        source.extract_parent_title("New comment by alice in \"A Grand Article\""),
        "A Grand Article"
    );
    // the whole headline when the shape is not found
    assert_eq!(
        source.extract_parent_title("A headline without the usual shape"),
        "A headline without the usual shape"
    );
    // an empty quote falls back too
    assert_eq!(source.extract_parent_title("x in \"\""), "x in \"\"");
}

#[test]
fn test_source_constructors() {
    let rss = RssSource::new("https://r.example".to_string(), "about".to_string());
    assert_eq!(rss.url, "https://r.example");
    assert_eq!(rss.description, "about");

    let plain = ArsTechnicaSource::new(None);
    assert_eq!(plain.rss_source.url, "https://arstechnica.com/feed/");

    let keyed = ArsTechnicaSource::new(Some("SECRET-REDACTED".to_string()));
    assert_eq!(keyed.rss_source.url, "https://arstechnica.com/feed/?t=SECRET-REDACTED");
}

#[test]
fn test_hn_grouping_by_parent_title() {
    let source = HackerNewsSource::new();
    let items = vec![
        HnItem {
            title: "New comment by a in \"First Story\"".to_string(),
            content_html: "<p>one</p>".to_string(),
            url: "https://news.example/item?id=1#c1".to_string(),
            date_published: "2025-01-01T10:00:00Z".to_string(),
            author_name: "a".to_string(),
        },
        HnItem {
            title: "New comment by b in \"Second Story\"".to_string(),
            content_html: "<p>two</p>".to_string(),
            url: "https://news.example/item?id=2#c2".to_string(),
            date_published: "2025-01-01T11:00:00Z".to_string(),
            author_name: "b".to_string(),
        },
        HnItem {
            title: "New comment by c in \"First Story\"".to_string(),
            content_html: "<p>three</p>".to_string(),
            url: "https://news.example/item?id=1#c3".to_string(),
            date_published: "2025-01-01T12:00:00Z".to_string(),
            author_name: "c".to_string(),
        },
    ];

    let document = source.build_document(
        &items,
        &"Hacker News".to_string(),
        "Digest".to_string(),
        "Aggregator".to_string(),
    );

    assert_eq!(document.metadata.title, "Digest");
    assert_eq!(document.feeds.len(), 1);
    let feed = &document.feeds[0];
    assert_eq!(feed.name, "Hacker News");
    assert_eq!(feed.articles.len(), 2);

    let first = &feed.articles[0];
    assert_eq!(first.title, "First Story");
    assert_eq!(first.metadata.url, Some("https://news.example/item?id=1".to_string()));
    assert_eq!(first.metadata.published_date, Some("2025-01-01T10:00:00Z".to_string()));
    assert_eq!(first.comments.len(), 2);
    assert_eq!(first.comments[0].author, "a");
    assert_eq!(first.comments[1].author, "c");
    assert!(first.content.is_empty());

    let second = &feed.articles[1];
    assert_eq!(second.title, "Second Story");
    assert_eq!(second.comments.len(), 1);
    assert_eq!(second.comments[0].author, "b");
}

#[test]
fn test_parse_feeds_to_document() {
    let channel = ChannelData {
        description: "chan about".to_string(),
        link: "https://chan.example".to_string(),
        items: vec![
            ItemData {
                title: Some("Item One".to_string()),
                pub_date: Some("2025-01-01".to_string()),
                link: Some("https://chan.example/1".to_string()),
                content: Some("<p>body</p>".to_string()),
                description: None,
            },
            ItemData {
                title: None,
                pub_date: None,
                link: None,
                content: None,
                description: Some("plain words".to_string()),
            },
        ],
    };

    let document = parse_feeds_to_document(
        &vec![("Chan".to_string(), channel)],
        "Digest".to_string(),
        "Aggregator".to_string(),
    );

    assert_eq!(document.metadata.title, "Digest");
    assert_eq!(document.metadata.author, "Aggregator");
    assert_eq!(document.metadata.description, Some("Aggregated RSS feeds".to_string()));
    assert_eq!(document.feeds.len(), 1);

    let feed = &document.feeds[0];
    assert_eq!(feed.name, "Chan");
    assert_eq!(feed.description, Some("chan about".to_string()));
    assert_eq!(feed.url, Some("https://chan.example".to_string()));
    assert_eq!(feed.articles.len(), 2);

    assert_eq!(feed.articles[0].title, "Item One");
    assert_eq!(
        feed.articles[0].content,
        vec![ContentBlock::Paragraph(daily_feed::ast::TextContent::plain("body".to_string()))]
    );

    assert_eq!(feed.articles[1].title, "Untitled");
    assert_eq!(
        feed.articles[1].content,
        vec![ContentBlock::Paragraph(daily_feed::ast::TextContent::plain(
            "plain words".to_string(),
        ))]
    );
}

#[test]
fn test_retryable_error_codes() {
    assert!(is_retryable_status(429));
    assert!(is_retryable_status(500));
    assert!(is_retryable_status(502));
    assert!(is_retryable_status(503));
    assert!(is_retryable_status(504));
    assert!(is_retryable_status(529));

    assert!(!is_retryable_status(400));
    assert!(!is_retryable_status(401));
    assert!(!is_retryable_status(403));
    assert!(!is_retryable_status(404));
    assert!(!is_retryable_status(422));
}
