use daily_feed::ast::{Article, ArticleMetadata, Comment, ContentBlock, Document,
    DocumentMetadata, Feed, TextContent, TextSpan};
use daily_feed::codec::{deserialize_document, serialize_document, SerializationError};

fn sample_document() -> Document {
    let blocks = vec![
        ContentBlock::Paragraph(TextContent::from_spans(vec![
            TextSpan::plain("Hello ".to_string()),
            TextSpan::bold("world".to_string()),
            TextSpan::italic("now".to_string()),
            TextSpan::code("x".to_string()),
            TextSpan::link("here".to_string(), "https://a.example".to_string()),
        ])),
        ContentBlock::Heading { level: 2, content: TextContent::plain("Head".to_string()) },
        ContentBlock::List {
            ordered: true,
            items: vec![
                TextContent::plain("one".to_string()),
                TextContent::plain("two".to_string()),
            ],
        },
        ContentBlock::Quote(TextContent::plain("said".to_string())),
        ContentBlock::Code { language: Some("rust".to_string()), content: "fn f() {}".to_string() },
        ContentBlock::Link { url: "https://b.example".to_string(), text: "b".to_string() },
        ContentBlock::Image { url: "https://c.example/i.png".to_string(), alt: None },
        ContentBlock::Raw("<video></video>".to_string()),
    ];
    let comment = Comment {
        author: "reader".to_string(),
        content: vec![ContentBlock::Paragraph(TextContent::plain("nice".to_string()))],
        upvotes: 12,
        downvotes: 3,
        timestamp: Some("2025-01-01T12:00:00Z".to_string()),
    };
    let article = Article {
        title: "Title; with 7 separators".to_string(),
        metadata: ArticleMetadata {
            published_date: Some("2025-01-01".to_string()),
            author: None,
            url: Some("https://d.example".to_string()),
            feed_name: "Feed One".to_string(),
        },
        comments: vec![comment],
        content: blocks,
    };
    let feed = Feed {
        name: "Feed One".to_string(),
        description: None,
        url: Some("https://feed.example".to_string()),
        articles: vec![article],
    };
    Document {
        metadata: DocumentMetadata {
            title: "A Digest".to_string(),
            author: "The Aggregator".to_string(),
            description: Some("all the news".to_string()),
            generated_at: "2025-01-01T00:00:00Z".to_string(),
        },
        front_page: Some(vec![ContentBlock::Paragraph(TextContent::plain(
            "front matter".to_string(),
        ))]),
        feeds: vec![feed],
    }
}

// Round trip: reading back a serialized document yields the same value.
#[test]
fn test_serialize_deserialize_round_trip() {
    let document = sample_document();
    let text = serialize_document(&document);
    let back = deserialize_document(text.as_str());
    assert_eq!(back, Ok(document));
}

#[test]
fn test_round_trip_empty_document() {
    let document = Document {
        metadata: DocumentMetadata {
            title: String::new(),
            author: String::new(),
            description: None,
            generated_at: String::new(),
        },
        front_page: None,
        feeds: vec![],
    };
    let text = serialize_document(&document);
    let back = deserialize_document(text.as_str());
    assert_eq!(back, Ok(document));
}

// Malformed text is a hard error.
#[test]
fn test_deserialize_malformed() {
    assert_eq!(deserialize_document(""), Err(SerializationError::Malformed));
    assert_eq!(deserialize_document("not a document"), Err(SerializationError::Malformed));
    let err = deserialize_document("zzz").unwrap_err();
    assert_eq!(err.message(), "malformed document encoding");
}

// Text after a complete document is a hard error too.
#[test]
fn test_deserialize_trailing_data() {
    let document = sample_document();
    let mut text = serialize_document(&document);
    text.push('x');
    let got = deserialize_document(text.as_str());
    assert_eq!(got, Err(SerializationError::TrailingData));
    assert_eq!(
        SerializationError::TrailingData.message(),
        "unexpected data after document encoding"
    );
}

// A truncated encoding is malformed.
#[test]
fn test_deserialize_truncated() {
    let document = sample_document();
    let text = serialize_document(&document);
    let cut = &text[0..text.len() / 2];
    assert_eq!(deserialize_document(cut), Err(SerializationError::Malformed));
}
