use daily_feed::ast::{Article, ArticleMetadata, ContentBlock, Document, DocumentMetadata, Feed,
    TextContent, TextSpan};
use daily_feed::markdown_outputter::MarkdownOutputter;

#[test]
fn markdown_outputter_test_render_text_content() {
    let outputter = MarkdownOutputter::new();

    let content = TextContent::from_spans(vec![
        TextSpan::plain("Hello ".to_string()),
        TextSpan::bold("world".to_string()),
        TextSpan::plain("!".to_string()),
    ]);

    let markdown = outputter.render_text_content_to_markdown(&content);
    assert_eq!(markdown, "Hello **world**!");
}

#[test]
fn markdown_outputter_test_render_paragraph() {
    let outputter = MarkdownOutputter::new();

    let block = ContentBlock::Paragraph(TextContent::plain("Test paragraph".to_string()));
    let markdown = outputter.render_content_block_to_markdown(&block);
    assert_eq!(markdown, "Test paragraph\n\n");
}

#[test]
fn markdown_outputter_test_render_heading() {
    let outputter = MarkdownOutputter::new();

    let block = ContentBlock::Heading {
        level: 1,
        content: TextContent::plain("Test Heading".to_string()),
    };
    let markdown = outputter.render_content_block_to_markdown(&block);
    assert_eq!(markdown, "#### Test Heading\n\n");
}

#[test]
fn markdown_outputter_test_to_anchor() {
    let outputter = MarkdownOutputter::new();

    assert_eq!(outputter.to_anchor("Hello World"), "hello-world");
    assert_eq!(outputter.to_anchor("Test & More"), "test--more");
    assert_eq!(outputter.to_anchor("Complex (Test) [Case]!"), "complex-test-case");
}

#[test]
fn markdown_outputter_test_render_code_block() {
    let outputter = MarkdownOutputter::new();

    let block = ContentBlock::Code {
        language: Some("rust".to_string()),
        content: "fn main() {\n    println!(\"Hello\");\n}".to_string(),
    };
    let markdown = outputter.render_content_block_to_markdown(&block);
    assert_eq!(markdown, "```rust\nfn main() {\n    println!(\"Hello\");\n}\n```\n\n");
}

#[test]
fn markdown_outputter_test_render_list() {
    let outputter = MarkdownOutputter::new();

    let block = ContentBlock::List {
        ordered: false,
        items: vec![
            TextContent::plain("Item 1".to_string()),
            TextContent::plain("Item 2".to_string()),
        ],
    };
    let markdown = outputter.render_content_block_to_markdown(&block);
    assert_eq!(markdown, "- Item 1\n- Item 2\n\n");
}

#[test]
fn markdown_outputter_tests_test_render_text_content() {
    let outputter = MarkdownOutputter::new();

    let content = TextContent::from_spans(vec![
        TextSpan::plain("Hello ".to_string()),
        TextSpan::bold("world".to_string()),
        TextSpan::plain("!".to_string()),
    ]);

    let markdown = outputter.render_text_content_to_markdown(&content);
    assert_eq!(markdown, "Hello **world**!");
}

#[test]
fn markdown_outputter_tests_test_render_paragraph() {
    let outputter = MarkdownOutputter::new();

    let block = ContentBlock::Paragraph(TextContent::plain("Test paragraph".to_string()));
    let markdown = outputter.render_content_block_to_markdown(&block);
    assert_eq!(markdown, "Test paragraph\n\n");
}

#[test]
fn markdown_outputter_tests_test_render_heading() {
    let outputter = MarkdownOutputter::new();

    let block = ContentBlock::Heading {
        level: 1,
        content: TextContent::plain("Test Heading".to_string()),
    };
    let markdown = outputter.render_content_block_to_markdown(&block);
    assert_eq!(markdown, "#### Test Heading\n\n");
}

#[test]
fn markdown_outputter_tests_test_to_anchor() {
    let outputter = MarkdownOutputter::new();

    let result1 = outputter.to_anchor("Hello World");
    assert_eq!(result1, "hello-world");
}

#[test]
fn test_to_anchor_special_chars() {
    let outputter = MarkdownOutputter::new();

    let result = outputter.to_anchor("Test & More");
    assert_eq!(result, "test--more");
}

#[test]
fn test_to_anchor_complex() {
    let outputter = MarkdownOutputter::new();

    let result = outputter.to_anchor("Complex (Test) [Case]!");
    assert_eq!(result, "complex-test-case");
}

#[test]
fn markdown_outputter_tests_test_render_code_block() {
    let outputter = MarkdownOutputter::new();

    let block = ContentBlock::Code {
        language: Some("rust".to_string()),
        content: "fn main() {\n    println!(\"Hello\");\n}".to_string(),
    };
    let markdown = outputter.render_content_block_to_markdown(&block);
    assert_eq!(markdown, "```rust\nfn main() {\n    println!(\"Hello\");\n}\n```\n\n");
}

#[test]
fn markdown_outputter_tests_test_render_list() {
    let outputter = MarkdownOutputter::new();

    let block = ContentBlock::List {
        ordered: false,
        items: vec![
            TextContent::plain("Item 1".to_string()),
            TextContent::plain("Item 2".to_string()),
        ],
    };
    let markdown = outputter.render_content_block_to_markdown(&block);
    assert_eq!(markdown, "- Item 1\n- Item 2\n\n");
}

#[test]
fn test_render_document_without_front_page() {
    let outputter = MarkdownOutputter::new();

    let article = Article {
        title: "Test Article".to_string(),
        content: vec![ContentBlock::Paragraph(TextContent::plain("Article content".to_string()))],
        metadata: ArticleMetadata {
            published_date: Some("2025-01-01T00:00:00.000000Z".to_string()),
            author: Some("Test Author".to_string()),
            url: Some("https://example.com/article".to_string()),
            feed_name: "Test Feed".to_string(),
        },
        comments: vec![],
    };

    let feed = Feed {
        name: "Test Feed".to_string(),
        description: Some("A test feed".to_string()),
        url: Some("https://example.com/feed".to_string()),
        articles: vec![article],
    };

    let document = Document {
        metadata: DocumentMetadata {
            title: "Test Document".to_string(),
            author: "Test Author".to_string(),
            description: Some("Test description".to_string()),
            generated_at: "2025-01-01T00:00:00.000000Z".to_string(),
        },
        front_page: None,
        feeds: vec![feed],
    };

    let markdown = outputter.render_document_to_markdown(&document);
    let expected = "# Test Document\n\nTest description\n\n**Author:** Test Author\n\
**Generated:** 2025-01-01T00:00:00.000000Z\n**Total Articles:** 1\n\n\
## Table of Contents\n\n- [Test Feed](#test-feed)\n  - [Test Article](#test-article)\n\n\
---\n\n## Test Feed\n\nA test feed\n\n**Total Articles:** 1\n\n### Test Article\n\n\
**Published:** 2025-01-01T00:00:00.000000Z\n**Author:** Test Author\n**Source:** Test Feed\n\
**Link:** [Read original article](https://example.com/article)\n\nArticle content\n\n\n---\n\n";
    assert_eq!(markdown, expected);
}

#[test]
fn test_render_comment_quoting() {
    let outputter = MarkdownOutputter::new();

    let comment = daily_feed::ast::Comment {
        author: "reader".to_string(),
        content: vec![ContentBlock::Paragraph(TextContent::plain("Nice article".to_string()))],
        upvotes: 7,
        downvotes: 2,
        timestamp: Some("2025-01-01T12:00:00Z".to_string()),
    };
    let markdown = outputter.render_comment_to_markdown(&comment);
    assert_eq!(
        markdown,
        "> **reader** (Score: 5)\n> *2025-01-01T12:00:00Z*\n>\n> Nice article\n>\n\n"
    );
}

#[test]
fn test_render_ordered_list_numbering() {
    let outputter = MarkdownOutputter::new();

    let block = ContentBlock::List {
        ordered: true,
        items: vec![
            TextContent::plain("alpha".to_string()),
            TextContent::plain("beta".to_string()),
            TextContent::plain("gamma".to_string()),
        ],
    };
    let markdown = outputter.render_content_block_to_markdown(&block);
    assert_eq!(markdown, "1. alpha\n2. beta\n3. gamma\n\n");
}

#[test]
fn test_render_document_idempotent() {
    let outputter = MarkdownOutputter::new();

    let document = Document {
        metadata: DocumentMetadata {
            title: "Same Twice".to_string(),
            author: "A".to_string(),
            description: None,
            generated_at: "now".to_string(),
        },
        front_page: None,
        feeds: vec![],
    };
    let first = outputter.render_document_to_markdown(&document);
    let second = outputter.render_document_to_markdown(&document);
    assert_eq!(first, second);
}
