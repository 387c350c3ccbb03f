use daily_feed::config::{Config, Feed, OutputFormat};
use daily_feed::sources::SourceConfig;

#[test]
fn test_config_default() {
    let config = Config::default();

    assert_eq!(config.sources.len(), 0);
    assert_eq!(config.feeds, vec![Feed::ArsTechnica { api_token: None }]);
    assert_eq!(config.output.filename, "daily-feed.epub");
    assert_eq!(config.output.title, "Daily Feed Digest");
    assert_eq!(config.output.author, "RSS Aggregator");
    assert_eq!(config.output.format, OutputFormat::Epub);
    assert!(config.front_page.is_none());
}

#[test]
fn test_feed_urls_and_names() {
    let rss = Feed::Rss {
        name: "N".to_string(),
        url: "https://r.example/feed.xml".to_string(),
        description: "D".to_string(),
    };
    assert_eq!(rss.name(), "N");
    assert_eq!(rss.url(), "https://r.example/feed.xml");
    assert_eq!(rss.description(), "D");
    assert_eq!(rss.api_token(), None);

    let plain = Feed::ArsTechnica { api_token: None };
    assert_eq!(plain.name(), "Ars Technica");
    assert_eq!(plain.url(), "https://arstechnica.com/feed/");
    assert_eq!(plain.description(), "Technology news and insights");

    let with_token = Feed::ArsTechnica { api_token: Some("SECRET-REDACTED".to_string()) };
    assert_eq!(with_token.url(), "https://arstechnica.com/feed/?t=SECRET-REDACTED");
    assert_eq!(with_token.api_token(), Some("SECRET-REDACTED"));
}

#[test]
fn test_get_all_sources_appends_feeds() {
    let mut config = Config::default();
    config.sources.push(daily_feed::config::SourceEntry {
        name: "Hand-made".to_string(),
        config: SourceConfig::HackerNews,
    });

    let all = config.get_all_sources();
    assert_eq!(all.len(), 2);
    assert_eq!(all[0].name(), "Hand-made");
    assert_eq!(all[0].config, SourceConfig::HackerNews);
    assert_eq!(all[1].name(), "Ars Technica");
    assert_eq!(all[1].config, SourceConfig::ArsTechnica { api_token: None });
}
