use daily_feed::ast::{Article, Comment, Document, Feed, Headline, TextContent, TextSpan};

#[test]
fn test_text_content_plain_text() {
    let content = TextContent::from_spans(vec![
        TextSpan::plain("Hello ".to_string()),
        TextSpan::bold("world".to_string()),
        TextSpan::plain("!".to_string()),
    ]);

    let plain_text = content.to_plain_text();
    assert_eq!(plain_text, "Hello world!");
}

#[test]
fn test_text_content_structure() {
    let content = TextContent::from_spans(vec![
        TextSpan::plain("Hello ".to_string()),
        TextSpan::bold("world".to_string()),
        TextSpan::plain("!".to_string()),
    ]);

    assert_eq!(content.spans.len(), 3);
    assert_eq!(content.spans[0].text, "Hello ");
    assert!(!content.spans[0].formatting.bold);
    assert_eq!(content.spans[1].text, "world");
    assert!(content.spans[1].formatting.bold);
    assert!(!content.spans[1].formatting.italic);
    assert_eq!(content.spans[2].text, "!");
}

#[test]
fn test_text_content_is_empty() {
    let blank = TextContent::from_spans(vec![
        TextSpan::plain("   ".to_string()),
        TextSpan::plain("\n\t".to_string()),
    ]);
    assert!(blank.is_empty());
    assert!(TextContent::from_spans(vec![]).is_empty());

    let full = TextContent::plain("  x ".to_string());
    assert!(!full.is_empty());
}

#[test]
fn test_document_builders_and_counts() {
    let mut document = Document::new("T".to_string(), "A".to_string());
    assert_eq!(document.metadata.title, "T");
    assert_eq!(document.metadata.author, "A");
    assert!(document.front_page.is_none());
    assert_eq!(document.total_articles(), 0);

    let mut feed = Feed::new("F".to_string())
        .with_description("D".to_string())
        .with_url("https://f.example".to_string());
    let mut article = Article::new("Art".to_string(), "F".to_string())
        .with_published_date("2025-01-01".to_string())
        .with_url("https://a.example".to_string());
    article.add_comment(Comment {
        author: "c".to_string(),
        content: vec![],
        upvotes: 1,
        downvotes: 0,
        timestamp: None,
    });
    feed.add_article(article);
    document.add_feed(feed);

    assert_eq!(document.total_articles(), 1);

    let headlines = document.extract_headlines();
    assert_eq!(
        headlines,
        vec![Headline {
            title: "Art".to_string(),
            published_date: Some("2025-01-01".to_string()),
            source_name: "F".to_string(),
            url: Some("https://a.example".to_string()),
        }]
    );
}
