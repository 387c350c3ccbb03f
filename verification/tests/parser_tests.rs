use daily_feed::ast::{ContentBlock, TextContent, TextSpan};
use daily_feed::parser::{parse_html_to_content_blocks, strip_html_tags};

fn paragraph(spans: Vec<TextSpan>) -> ContentBlock {
    ContentBlock::Paragraph(TextContent::from_spans(spans))
}

#[test]
fn parser_test_parse_simple_html() {
    let html = "<p>Hello <strong>world</strong>!</p>";
    let blocks = parse_html_to_content_blocks(html);
    assert_eq!(
        blocks,
        vec![paragraph(vec![
            TextSpan::plain("Hello ".to_string()),
            TextSpan::bold("world".to_string()),
            TextSpan::plain("!".to_string()),
        ])]
    );
}

#[test]
fn parser_test_parse_heading() {
    let html = "<h2>Important News</h2>";
    let blocks = parse_html_to_content_blocks(html);
    assert_eq!(
        blocks,
        vec![ContentBlock::Heading {
            level: 2,
            content: TextContent::plain("Important News".to_string()),
        }]
    );
}

#[test]
fn parser_test_parse_list() {
    let html = "<ul><li>First item</li><li>Second item</li></ul>";
    let blocks = parse_html_to_content_blocks(html);
    assert_eq!(
        blocks,
        vec![ContentBlock::List {
            ordered: false,
            items: vec![
                TextContent::plain("First item".to_string()),
                TextContent::plain("Second item".to_string()),
            ],
        }]
    );
}

#[test]
fn parser_test_strip_html_tags() {
    let html = "<p>Hello <strong>world</strong>! <em>This</em> is a <a href=\"#\">test</a>.</p>";
    let result = strip_html_tags(html);
    assert_eq!(result, "Hello world ! This is a test .");
}

#[test]
fn parser_tests_test_parse_simple_html() {
    let html = "<p>Hello <strong>world</strong>!</p>";
    let blocks = parse_html_to_content_blocks(html);
    assert_eq!(
        blocks,
        vec![paragraph(vec![
            TextSpan::plain("Hello ".to_string()),
            TextSpan::bold("world".to_string()),
            TextSpan::plain("!".to_string()),
        ])]
    );
}

#[test]
fn parser_tests_test_parse_heading() {
    let html = "<h2>Important News</h2>";
    let blocks = parse_html_to_content_blocks(html);
    assert_eq!(
        blocks,
        vec![ContentBlock::Heading {
            level: 2,
            content: TextContent::plain("Important News".to_string()),
        }]
    );
}

#[test]
fn parser_tests_test_parse_list() {
    let html = "<ul><li>First item</li><li>Second item</li></ul>";
    let blocks = parse_html_to_content_blocks(html);
    assert_eq!(blocks.len(), 1);
    match &blocks[0] {
        ContentBlock::List { ordered, items } => {
            assert!(!ordered);
            assert_eq!(items.len(), 2);
            assert_eq!(items[0].to_plain_text(), "First item");
            assert_eq!(items[1].to_plain_text(), "Second item");
        },
        other => panic!("expected a list, got {:?}", other),
    }
}

#[test]
fn parser_tests_test_strip_html_tags() {
    let html = "<p>Hello <strong>world</strong>! <em>This</em> is a <a href=\"#\">test</a>.</p>";
    let result = strip_html_tags(html);
    assert_eq!(result, "Hello world ! This is a test .");
}

// Blank input parses to nothing.
#[test]
fn test_parse_blank_input() {
    assert_eq!(parse_html_to_content_blocks(""), vec![]);
    assert_eq!(parse_html_to_content_blocks("   \n\t "), vec![]);
}

// Non-blank input with non-empty stripped text never parses to nothing.
#[test]
fn test_parse_non_loss_fallback() {
    let blocks = parse_html_to_content_blocks("just some loose text");
    assert_eq!(
        blocks,
        vec![ContentBlock::Paragraph(TextContent::plain("just some loose text".to_string()))]
    );
}

// A heading keeps the digit of its tag.
#[test]
fn test_parse_heading_level_fidelity() {
    let blocks = parse_html_to_content_blocks("<h3>X</h3>");
    assert_eq!(
        blocks,
        vec![ContentBlock::Heading { level: 3, content: TextContent::plain("X".to_string()) }]
    );
    // a tag without a usable digit degrades to a paragraph
    let degraded = parse_html_to_content_blocks("<h9>X</h9>");
    assert_eq!(
        degraded,
        vec![ContentBlock::Paragraph(TextContent::plain("X".to_string()))]
    );
}

// An empty list is dropped, not kept as an empty block.
#[test]
fn test_parse_empty_list_dropped() {
    assert_eq!(parse_html_to_content_blocks("<ul></ul>"), vec![]);
}

// Nested inline formatting collapses to the outermost style.
#[test]
fn test_parse_inline_flattening() {
    let blocks = parse_html_to_content_blocks("<p><strong><em>x</em></strong></p>");
    assert_eq!(blocks, vec![paragraph(vec![TextSpan::bold("x".to_string())])]);
}

// The full scenario: text, bold, italic and link spans in reading order.
#[test]
fn test_parse_end_to_end_spans() {
    let html = "<p>Hello <strong>world</strong>! <em>This</em> is a <a href=\"#\">test</a>.</p>";
    let blocks = parse_html_to_content_blocks(html);
    assert_eq!(
        blocks,
        vec![paragraph(vec![
            TextSpan::plain("Hello ".to_string()),
            TextSpan::bold("world".to_string()),
            TextSpan::plain("! ".to_string()),
            TextSpan::italic("This".to_string()),
            TextSpan::plain(" is a ".to_string()),
            TextSpan::link("test".to_string(), "#".to_string()),
            TextSpan::plain(".".to_string()),
        ])]
    );
}

// Other block kinds: quotes, code with a language class, links and images.
#[test]
fn test_parse_other_blocks() {
    assert_eq!(
        parse_html_to_content_blocks("<blockquote>quoted words</blockquote>"),
        vec![ContentBlock::Quote(TextContent::plain("quoted words".to_string()))]
    );
    assert_eq!(
        parse_html_to_content_blocks("<pre class=\"language-rust\">let x = 1;</pre>"),
        vec![ContentBlock::Code {
            language: Some("rust".to_string()),
            content: "let x = 1;".to_string(),
        }]
    );
    assert_eq!(
        parse_html_to_content_blocks("<a href=\"https://a.example\">read</a>"),
        vec![ContentBlock::Link {
            url: "https://a.example".to_string(),
            text: "read".to_string(),
        }]
    );
    assert_eq!(
        parse_html_to_content_blocks("<img src=\"https://a.example/i.png\" alt=\"pic\">"),
        vec![ContentBlock::Image {
            url: "https://a.example/i.png".to_string(),
            alt: Some("pic".to_string()),
        }]
    );
    // an image without a source is dropped
    assert_eq!(parse_html_to_content_blocks("<img alt=\"pic\">"), vec![]);
}

// Entity references decode in the stripped-text fallback.
#[test]
fn test_strip_decodes_entities() {
    assert_eq!(strip_html_tags("a &amp; b"), "a & b");
    assert_eq!(strip_html_tags("&lt;tag&gt; &quot;q&quot; &apos;a&apos;"), "<tag> \"q\" 'a'");
    assert_eq!(strip_html_tags("digit &#65; and hex &#x42;"), "digit A and hex B");
    // an unrecognized name becomes a space
    assert_eq!(strip_html_tags("x &copy; y"), "x y");
    // an unterminated reference stays as it is
    assert_eq!(strip_html_tags("fish &chips"), "fish &chips");
}

// A lone empty inline tag is non-blank input that still parses to nothing.
#[test]
fn test_parse_empty_inline_tag_yields_nothing() {
    assert_eq!(parse_html_to_content_blocks("<b></b>"), vec![]);
}
