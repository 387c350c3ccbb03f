use daily_feed::ast::{Article, ArticleMetadata, Comment, ContentBlock, TextContent, TextSpan};
use daily_feed::epub_outputter::EpubOutputter;

#[test]
fn epub_outputter_tests_test_render_text_content() {
    let outputter = EpubOutputter::new();

    let content = TextContent::from_spans(vec![
        TextSpan::plain("Hello ".to_string()),
        TextSpan::bold("world".to_string()),
        TextSpan::plain("!".to_string()),
    ]);

    let html = outputter.render_text_content_to_html(&content);
    assert_eq!(html, "Hello <strong>world</strong>!");
}

#[test]
fn epub_outputter_tests_test_render_paragraph() {
    let outputter = EpubOutputter::new();

    let block = ContentBlock::Paragraph(TextContent::plain("Test paragraph".to_string()));
    let html = outputter.render_content_block_to_html(&block);
    assert_eq!(html, "<p>Test paragraph</p>");
}

#[test]
fn epub_outputter_tests_test_render_heading() {
    let outputter = EpubOutputter::new();

    let block = ContentBlock::Heading {
        level: 2,
        content: TextContent::plain("Test Heading".to_string()),
    };
    let html = outputter.render_content_block_to_html(&block);
    assert_eq!(html, "<h2>Test Heading</h2>");
}

// Every span's text is escaped before formatting tags wrap it.
#[test]
fn test_render_escapes_text() {
    let outputter = EpubOutputter::new();

    let block = ContentBlock::Paragraph(TextContent::plain("a < b & c > \"d\"".to_string()));
    let html = outputter.render_content_block_to_html(&block);
    assert_eq!(html, "<p>a &lt; b &amp; c &gt; &quot;d&quot;</p>");
}

// Formatting tags nest in a fixed order: code innermost, then bold, then
// italic, then the link outermost.
#[test]
fn test_render_span_nesting_order() {
    let outputter = EpubOutputter::new();

    let span = TextSpan {
        text: "text".to_string(),
        formatting: daily_feed::ast::TextFormatting {
            bold: true,
            italic: true,
            code: true,
            link: Some("https://x.example".to_string()),
        },
    };
    let html = outputter.render_text_content_to_html(&TextContent::from_spans(vec![span]));
    assert_eq!(
        html,
        "<a href=\"https://x.example\"><em><strong><code>text</code></strong></em></a>"
    );
}

// Raw blocks pass through byte for byte, unescaped.
#[test]
fn test_render_raw_passthrough() {
    let outputter = EpubOutputter::new();

    let block = ContentBlock::Raw("<video controls></video>".to_string());
    let html = outputter.render_content_block_to_html(&block);
    assert_eq!(html, "<video controls></video>");
}

// Lists, code, links and images render as self-contained fragments.
#[test]
fn test_render_remaining_blocks() {
    let outputter = EpubOutputter::new();

    let list = ContentBlock::List {
        ordered: true,
        items: vec![
            TextContent::plain("one".to_string()),
            TextContent::plain("two".to_string()),
        ],
    };
    assert_eq!(
        outputter.render_content_block_to_html(&list),
        "<ol><li>one</li><li>two</li></ol>"
    );

    let code = ContentBlock::Code {
        language: Some("rust".to_string()),
        content: "if a < b {}".to_string(),
    };
    assert_eq!(
        outputter.render_content_block_to_html(&code),
        "<pre><code>if a &lt; b {}</code></pre>"
    );

    let link = ContentBlock::Link {
        url: "https://x.example?a=1&b=2".to_string(),
        text: "go".to_string(),
    };
    assert_eq!(
        outputter.render_content_block_to_html(&link),
        "<a href=\"https://x.example?a=1&amp;b=2\">go</a>"
    );

    let image = ContentBlock::Image {
        url: "https://x.example/i.png".to_string(),
        alt: Some("a \"pic\"".to_string()),
    };
    assert_eq!(
        outputter.render_content_block_to_html(&image),
        "<img src=\"https://x.example/i.png\" alt=\"a &quot;pic&quot;\" />"
    );

    let quote = ContentBlock::Quote(TextContent::plain("said".to_string()));
    assert_eq!(
        outputter.render_content_block_to_html(&quote),
        "<blockquote>said</blockquote>"
    );
}

// A whole article page with its comments section.
#[test]
fn test_render_article_page() {
    let outputter = EpubOutputter::new();

    let article = Article {
        title: "A Story".to_string(),
        metadata: ArticleMetadata {
            published_date: Some("2025-01-01".to_string()),
            author: None,
            url: Some("https://d.example".to_string()),
            feed_name: "Feed One".to_string(),
        },
        comments: vec![Comment {
            author: "reader".to_string(),
            content: vec![ContentBlock::Paragraph(TextContent::plain("nice".to_string()))],
            upvotes: 2,
            downvotes: 5,
            timestamp: None,
        }],
        content: vec![ContentBlock::Paragraph(TextContent::plain("Body".to_string()))],
    };
    let html = outputter.render_article_to_html(&article);
    let expected = "<html>\n<head><title>A Story</title></head>\n<body>\n<h1>A Story</h1>\n\
<div class=\"pub-date\">2025-01-01 - <strong>Source:</strong> Feed One</div>\n\
<div class=\"content\"><p>Body</p></div>\n\
<div class=\"link\"><a href=\"https://d.example\">Read original article</a></div>\n\
<div class=\"comments-section\">\n<h2>Top Comments</h2>\
<div class=\"comment\"><div class=\"comment-author\">reader\
<span class=\"comment-score\">Score: -3</span></div>\
<div class=\"comment-content\"><p>nice</p></div></div></div></body>\n</html>\n";
    assert_eq!(html, expected);
}

// Rendering the same block twice is byte-identical.
#[test]
fn test_render_html_idempotent() {
    let outputter = EpubOutputter::new();

    let block = ContentBlock::Paragraph(TextContent::plain("same twice".to_string()));
    let first = outputter.render_content_block_to_html(&block);
    let second = outputter.render_content_block_to_html(&block);
    assert_eq!(first, second);
}

// The container pages: feed page, title page and numbered contents page.
#[test]
fn test_render_container_pages() {
    let outputter = EpubOutputter::new();

    let make_article = |t: &str| Article {
        title: t.to_string(),
        metadata: ArticleMetadata {
            published_date: None,
            author: None,
            url: None,
            feed_name: "F1".to_string(),
        },
        comments: vec![],
        content: vec![],
    };
    let feed1 = daily_feed::ast::Feed {
        name: "F1".to_string(),
        description: Some("first".to_string()),
        url: None,
        articles: vec![make_article("A"), make_article("B")],
    };
    let feed2 = daily_feed::ast::Feed {
        name: "F2".to_string(),
        description: None,
        url: None,
        articles: vec![make_article("C")],
    };
    let document = daily_feed::ast::Document {
        metadata: daily_feed::ast::DocumentMetadata {
            title: "Digest".to_string(),
            author: "Agg".to_string(),
            description: Some("all of it".to_string()),
            generated_at: "2025-01-01".to_string(),
        },
        front_page: None,
        feeds: vec![feed1.clone(), feed2],
    };

    let feed_page = outputter.render_feed_page(&feed1);
    assert!(feed_page.contains("<h1>F1</h1>"));
    assert!(feed_page.contains("<strong>Total Articles:</strong> 2"));

    let title_page = outputter.render_title_page(&document);
    assert!(title_page.contains("<h1>Digest</h1>"));
    assert!(title_page.contains("<strong>Total Articles:</strong> 3"));
    assert!(title_page.contains("<li><strong>F2:</strong> No description (1 articles)</li>"));

    // chapters number in reading order: feed 1, articles 2 and 3, feed 4,
    // article 5
    let toc = outputter.render_toc_page(&document);
    assert!(toc.contains("<a href=\"feed_1.xhtml\">F1</a>"));
    assert!(toc.contains("<a href=\"article_2.xhtml\">A</a>"));
    assert!(toc.contains("<a href=\"article_3.xhtml\">B</a>"));
    assert!(toc.contains("<a href=\"feed_4.xhtml\">F2</a>"));
    assert!(toc.contains("<a href=\"article_5.xhtml\">C</a>"));
    assert!(!toc.contains("front_page.xhtml"));
}
