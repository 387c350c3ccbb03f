use daily_feed::ai_client::AiProvider;
use daily_feed::ast::{Article, ArticleMetadata, ContentBlock, Document, DocumentMetadata, Feed,
    TextContent};
use daily_feed::front_page::{FrontPageGenerator, SourceSummary, StructuredFrontPage};

fn create_test_document() -> Document {
    let breaking_article = Article {
        title: "Major Tech Company Announces Revolutionary AI Breakthrough".to_string(),
        content: vec![
            ContentBlock::Paragraph(TextContent::plain(
                "A major technology company today announced a significant breakthrough in artificial intelligence that could revolutionize healthcare, transportation, and manufacturing industries.".to_string()
            )),
            ContentBlock::Paragraph(TextContent::plain(
                "The new AI system demonstrates unprecedented capabilities in complex reasoning and problem-solving, potentially affecting millions of jobs worldwide.".to_string()
            )),
        ],
        metadata: ArticleMetadata {
            published_date: Some("2025-01-01T00:00:00.000000Z".to_string()),
            author: Some("Tech Reporter".to_string()),
            url: Some("https://techexample.com/ai-breakthrough".to_string()),
            feed_name: "Technology News".to_string(),
        },
        comments: vec![],
    };

    let political_article = Article {
        title: "International Trade Agreement Faces Opposition".to_string(),
        content: vec![
            ContentBlock::Paragraph(TextContent::plain(
                "A proposed international trade agreement has generated significant opposition from labor unions and environmental groups across three continents.".to_string()
            )),
        ],
        metadata: ArticleMetadata {
            published_date: Some("2025-01-01T00:00:00.000000Z".to_string()),
            author: Some("Political Reporter".to_string()),
            url: Some("https://newsexample.com/trade-agreement".to_string()),
            feed_name: "Political News".to_string(),
        },
        comments: vec![],
    };

    let health_article = Article {
        title: "Global Health Organization Issues New Guidelines".to_string(),
        content: vec![
            ContentBlock::Paragraph(TextContent::plain(
                "The World Health Organization has released updated vaccination guidelines that will impact public health policies in over 100 countries.".to_string()
            )),
        ],
        metadata: ArticleMetadata {
            published_date: Some("2025-01-01T00:00:00.000000Z".to_string()),
            author: Some("Health Reporter".to_string()),
            url: Some("https://healthexample.com/guidelines".to_string()),
            feed_name: "Health News".to_string(),
        },
        comments: vec![],
    };

    let tech_feed = Feed {
        name: "Technology News".to_string(),
        description: Some("Latest technology developments".to_string()),
        url: Some("https://techexample.com".to_string()),
        articles: vec![breaking_article],
    };

    let politics_feed = Feed {
        name: "Political News".to_string(),
        description: Some("Global political developments".to_string()),
        url: Some("https://newsexample.com".to_string()),
        articles: vec![political_article],
    };

    let health_feed = Feed {
        name: "Health News".to_string(),
        description: Some("Health and medical news".to_string()),
        url: Some("https://healthexample.com".to_string()),
        articles: vec![health_article],
    };

    Document {
        metadata: DocumentMetadata {
            title: "Daily News Digest".to_string(),
            author: "News Aggregator".to_string(),
            description: Some("Today's most important stories".to_string()),
            generated_at: "2025-01-01T00:00:00.000000Z".to_string(),
        },
        front_page: None,
        feeds: vec![tech_feed, politics_feed, health_feed],
    }
}

#[test]
fn test_content_preparation() {
    let provider = AiProvider::Ollama {
        base_url: "http://127.0.0.1:1234".to_string(),
        model: "llama2".to_string(),
    };

    let generator = FrontPageGenerator::new(provider).unwrap();
    let document = create_test_document();

    let content = generator.prepare_content_by_source(&document).unwrap();

    let expected = "# Source: Technology News\n\
**Description:** Latest technology developments\n\
**URL:** https://techexample.com\n\
\n**Articles:**\n\
- Major Tech Company Announces Revolutionary AI Breakthrough (2025-01-01T00:00:00.000000Z)\n\
\n\
# Source: Political News\n\
**Description:** Global political developments\n\
**URL:** https://newsexample.com\n\
\n**Articles:**\n\
- International Trade Agreement Faces Opposition (2025-01-01T00:00:00.000000Z)\n\
\n\
# Source: Health News\n\
**Description:** Health and medical news\n\
**URL:** https://healthexample.com\n\
\n**Articles:**\n\
- Global Health Organization Issues New Guidelines (2025-01-01T00:00:00.000000Z)\n\
\n";
    assert_eq!(content, expected);
}

#[test]
fn test_prompt_construction() {
    let provider = AiProvider::Ollama {
        base_url: "http://127.0.0.1:1234".to_string(),
        model: "llama2".to_string(),
    };

    let generator = FrontPageGenerator::new(provider).unwrap();
    let test_content = "Sample news content for testing prompt construction";

    let prompt = generator.build_structured_prompt_by_source(test_content);

    assert!(prompt.starts_with("You are a senior news editor"));
    assert!(prompt.contains("Daily feed content organized by source:\nSample news content for testing prompt construction\n\n"));
    assert!(prompt.ends_with("Return only valid JSON with the structure above."));
}

#[test]
fn test_structured_prompt_construction() {
    let provider = AiProvider::Ollama {
        base_url: "http://127.0.0.1:1234".to_string(),
        model: "llama2".to_string(),
    };

    let generator = FrontPageGenerator::new(provider).unwrap();
    let test_content = "Sample news content for structured prompt testing";

    let prompt = generator.build_structured_prompt_by_source(test_content);

    assert!(prompt.contains("JSON response"));
    assert!(prompt.contains("theme"));
    assert!(prompt.contains("sources"));
    assert!(prompt.contains("summary"));
    assert!(prompt.contains("context"));
    assert!(prompt.contains(test_content));
}

#[test]
fn test_ast_conversion() {
    let provider = AiProvider::Ollama {
        base_url: "http://127.0.0.1:1234".to_string(),
        model: "llama2".to_string(),
    };

    let generator = FrontPageGenerator::new(provider).unwrap();

    let test_front_page = StructuredFrontPage {
        theme: "Technology and global health developments dominate today's news landscape".to_string(),
        sources: vec![
            SourceSummary {
                name: "Technology News".to_string(),
                summary: "Major tech company reveals revolutionary AI system with unprecedented capabilities that could affect millions of jobs across multiple industries.".to_string(),
                key_stories: vec!["AI Breakthrough Announced".to_string()],
            },
            SourceSummary {
                name: "Political News".to_string(),
                summary: "International trade deal faces resistance from unions and environmental groups with policy decisions that may impact three continents.".to_string(),
                key_stories: vec!["Trade Agreement Opposition".to_string()],
            },
        ],
        context: Some("These developments reflect broader tensions between technological advancement and social stability".to_string()),
    };

    let content_blocks = generator.convert_to_ast(&test_front_page);

    assert!(!content_blocks.is_empty());

    // theme paragraph, two sources of four blocks each, context heading and paragraph
    assert_eq!(content_blocks.len(), 11);

    match &content_blocks[0] {
        ContentBlock::Paragraph(content) => {
            let text = content.to_plain_text();
            assert!(text.contains("Today's World"));
            assert!(text.contains("Technology and global health"));
        }
        _ => panic!("First block should be a paragraph with theme"),
    }

    assert!(content_blocks.iter().any(|block| matches!(
        block,
        ContentBlock::Heading { level: 2, content } if content.to_plain_text() == "Technology News"
    )));
    assert!(content_blocks.iter().any(|block| matches!(
        block,
        ContentBlock::Heading { level: 2, content } if content.to_plain_text() == "Political News"
    )));

    let story_lists: Vec<_> = content_blocks
        .iter()
        .filter(|block| {
            matches!(
                block,
                ContentBlock::List { ordered: false, items } if !items.is_empty()
            )
        })
        .collect();
    assert_eq!(story_lists.len(), 2);
}

#[test]
fn test_json_response_parsing() {
    let provider = AiProvider::Ollama {
        base_url: "http://127.0.0.1:1234".to_string(),
        model: "llama2".to_string(),
    };

    let generator = FrontPageGenerator::new(provider).unwrap();

    let json_response = r#"{
        "theme": "Global tensions rise amid technological breakthroughs",
        "sources": [
            {
                "name": "Technology News",
                "summary": "Multiple companies unveil groundbreaking technologies this week with market disruption expected across sectors.",
                "key_stories": ["Tech Innovation Surge"]
            },
            {
                "name": "Climate News",
                "summary": "New international agreements target emissions reduction with industries adapting within two years.",
                "key_stories": ["Climate Policy Changes"]
            }
        ],
        "context": "These changes signal a shift toward sustainable technology adoption"
    }"#;

    let result = generator
        .parse_structured_response_by_source(json_response)
        .unwrap();

    assert_eq!(
        result.theme,
        "Global tensions rise amid technological breakthroughs"
    );
    assert_eq!(result.sources.len(), 2);
    assert_eq!(result.sources[0].name, "Technology News");
    assert_eq!(result.sources[1].key_stories[0], "Climate Policy Changes");
    assert_eq!(
        result.context,
        Some("These changes signal a shift toward sustainable technology adoption".to_string())
    );
}

#[test]
fn test_json_extraction_from_markdown_code_blocks() {
    let provider = AiProvider::Ollama {
        base_url: "http://127.0.0.1:1234".to_string(),
        model: "llama2".to_string(),
    };

    let generator = FrontPageGenerator::new(provider).unwrap();

    let wrapped_json_response = r#"```json
{
  "theme": "Technology regulation and AI advancement dominate headlines as governments impose new controls while companies push boundaries.",
  "sources": [
    {
      "name": "Health News",
      "summary": "The Trump administration is reportedly limiting the CDC's flagship health journal, raising concerns about scientific communication during public health crises.",
      "key_stories": ["Trump Administration Restricts CDC Health Publications"]
    },
    {
      "name": "Technology Policy News",
      "summary": "Around 6,000 porn sites in the UK have begun requiring age verification, with VPNs topping download charts as users seek to bypass restrictions.",
      "key_stories": ["UK Implements Age Verification for Pornography Sites"]
    }
  ],
  "context": "These developments reflect growing tensions between technological innovation and regulatory control, with governments worldwide struggling to balance innovation with public safety and democratic values."
}
```"#;

    let result = generator
        .parse_structured_response_by_source(wrapped_json_response)
        .unwrap();

    assert!(result.theme.contains("Technology regulation"));
    assert_eq!(result.sources.len(), 2);
    assert_eq!(
        result.sources[0].key_stories[0],
        "Trump Administration Restricts CDC Health Publications"
    );
    assert!(result.context.is_some());
    assert!(result
        .context
        .as_ref()
        .unwrap()
        .contains("technological innovation"));
}

#[test]
fn test_json_extraction_methods() {
    let provider = AiProvider::Ollama {
        base_url: "http://127.0.0.1:1234".to_string(),
        model: "llama2".to_string(),
    };

    let generator = FrontPageGenerator::new(provider).unwrap();

    let markdown_wrapped = r#"```json
{"theme": "test theme", "stories": [], "context": null}
```"#;

    let extracted = generator.extract_json_from_response(markdown_wrapped);
    assert_eq!(
        extracted.trim(),
        r#"{"theme": "test theme", "stories": [], "context": null}"#
    );

    let generic_wrapped = r#"```
{"theme": "another test", "stories": [], "context": null}
```"#;

    let extracted2 = generator.extract_json_from_response(generic_wrapped);
    assert_eq!(
        extracted2.trim(),
        r#"{"theme": "another test", "stories": [], "context": null}"#
    );

    let standalone = r#"Here is the JSON:
{
  "theme": "standalone test",
  "stories": [],
  "context": null
}
That's the response."#;

    let extracted3 = generator.extract_json_from_response(standalone);
    assert!(extracted3.contains("standalone test"));
}

// The markdown fallback: a parseable response without JSON.
#[test]
fn test_markdown_fallback_parsing() {
    let provider = AiProvider::Ollama {
        base_url: "http://127.0.0.1:1234".to_string(),
        model: "llama2".to_string(),
    };
    let generator = FrontPageGenerator::new(provider).unwrap();

    let response = "Today's World: Markets wobble.\n\n## Business Desk\nStocks fell sharply.\n- Market Drop Deepens\n\nLooking Ahead\nMore volatility expected.";
    let result = generator.parse_structured_response_by_source(response).unwrap();
    assert_eq!(result.theme, "Markets wobble.");
    assert_eq!(result.sources.len(), 1);
    assert_eq!(result.sources[0].name, "Business Desk");
    assert_eq!(result.sources[0].summary, "Stocks fell sharply.");
    assert_eq!(result.sources[0].key_stories, vec!["Market Drop Deepens".to_string()]);
    assert_eq!(result.context, Some("More volatility expected.".to_string()));
}

// A response with nothing recognizable is the parse error.
#[test]
fn test_unparseable_response_is_error() {
    let provider = AiProvider::Ollama {
        base_url: "http://127.0.0.1:1234".to_string(),
        model: "llama2".to_string(),
    };
    let generator = FrontPageGenerator::new(provider).unwrap();

    let result = generator.parse_structured_response_by_source("   \n   \n");
    assert!(result.is_err());
    assert_eq!(result.unwrap_err().kind(), "Parse error");
}
