//! Configuration types: where feeds come from and how output is written.
//! Loading them from disk is the caller's concern; the types and the rules
//! that combine them are verified here.

use crate::ai_client::AiProvider;
use crate::sources::{SourceConfig, SourceConfigV};
use crate::strs::{chars_to_string, push_str_chars, str_to_chars};
use vstd::prelude::*;

verus! {

/// View of `SourceEntry`.
pub struct SourceEntryV {
    pub name: Seq<char>,
    pub config: SourceConfigV,
}

/// One named source entry.
#[derive(Debug, Clone, PartialEq)]
pub struct SourceEntry {
    pub name: String,
    pub config: SourceConfig,
}

impl View for SourceEntry {
    type V = SourceEntryV;

    open spec fn view(&self) -> SourceEntryV {
        SourceEntryV { name: self.name@, config: self.config@ }
    }
}

impl DeepView for SourceEntry {
    type V = SourceEntryV;

    open spec fn deep_view(&self) -> SourceEntryV {
        self.view()
    }
}

impl SourceEntry {
    /// The entry's name.
    pub fn name(&self) -> (r: &str)
        ensures
            r@ == self.name@,
    {
        self.name.as_str()
    }

    /// A field-for-field copy.
    pub fn duplicate(&self) -> (r: SourceEntry)
        ensures
            r@ == self@,
    {
        SourceEntry { name: self.name.clone(), config: self.config.duplicate() }
    }
}

/// A feed in the older configuration shape.
#[derive(Debug, Clone, PartialEq)]
pub enum Feed {
    Rss { name: String, url: String, description: String },
    ArsTechnica { api_token: Option<String> },
}

/// The url a feed is fetched from.
pub open spec fn spec_feed_url(f: Feed) -> Seq<char> {
    match f {
        Feed::Rss { url, .. } => url@,
        Feed::ArsTechnica { api_token } => match api_token {
            Some(t) => "https://arstechnica.com/feed/?t="@ + t@,
            None => "https://arstechnica.com/feed/"@,
        },
    }
}

/// The name a feed reports.
pub open spec fn spec_feed_name(f: Feed) -> Seq<char> {
    match f {
        Feed::Rss { name, .. } => name@,
        Feed::ArsTechnica { .. } => "Ars Technica"@,
    }
}

/// The source entry equivalent to a feed.
pub open spec fn spec_feed_entry(f: Feed) -> SourceEntryV {
    SourceEntryV {
        name: spec_feed_name(f),
        config: match f {
            Feed::Rss { name, url, description } => SourceConfigV::Rss {
                url: url@,
                description: description@,
            },
            Feed::ArsTechnica { api_token } => SourceConfigV::ArsTechnica {
                api_token: crate::ast::opt_str_view(api_token),
            },
        },
    }
}

impl Feed {
    /// The feed's display name.
    pub fn name(&self) -> (r: &str)
        ensures
            r@ == spec_feed_name(*self),
    {
        match self {
            Feed::Rss { name, .. } => name.as_str(),
            Feed::ArsTechnica { .. } => "Ars Technica",
        }
    }

    /// The feed's fetch url; a token, when set, is passed as a query.
    pub fn url(&self) -> (r: String)
        ensures
            r@ == spec_feed_url(*self),
    {
        match self {
            Feed::Rss { url, .. } => {
                let mut out: Vec<char> = Vec::new();
                push_str_chars(&mut out, url.as_str());
                proof {
                    assert(out@ =~= url@);
                }
                chars_to_string(out)
            },
            Feed::ArsTechnica { api_token } => match api_token {
                Some(t) => {
                    let mut out: Vec<char> = Vec::new();
                    push_str_chars(&mut out, "https://arstechnica.com/feed/?t=");
                    push_str_chars(&mut out, t.as_str());
                    chars_to_string(out)
                },
                None => chars_to_string(str_to_chars("https://arstechnica.com/feed/")),
            },
        }
    }

    /// The feed's description.
    pub fn description(&self) -> (r: &str)
        ensures
            r@ == match *self {
                Feed::Rss { description, .. } => description@,
                Feed::ArsTechnica { .. } => "Technology news and insights"@,
            },
    {
        match self {
            Feed::Rss { description, .. } => description.as_str(),
            Feed::ArsTechnica { .. } => "Technology news and insights",
        }
    }

    /// The API token, for sources that carry one.
    pub fn api_token(&self) -> (r: Option<&str>)
        ensures
            match *self {
                Feed::Rss { .. } => r is None,
                Feed::ArsTechnica { api_token } => match api_token {
                    Some(t) => r is Some && r->0@ == t@,
                    None => r is None,
                },
            },
    {
        match self {
            Feed::Rss { .. } => None,
            Feed::ArsTechnica { api_token } => match api_token {
                Some(t) => Some(t.as_str()),
                None => None,
            },
        }
    }

    /// The equivalent source entry.
    pub fn to_source_entry(self) -> (r: SourceEntry)
        ensures
            r@ == spec_feed_entry(self),
    {
        match self {
            Feed::Rss { name, url, description } => SourceEntry {
                name,
                config: SourceConfig::Rss { url, description },
            },
            Feed::ArsTechnica { api_token } => SourceEntry {
                name: chars_to_string(str_to_chars("Ars Technica")),
                config: SourceConfig::ArsTechnica { api_token },
            },
        }
    }

    /// A field-for-field copy.
    pub fn duplicate(&self) -> (r: Feed)
        ensures
            spec_feed_entry(r) == spec_feed_entry(*self),
            spec_feed_url(r) == spec_feed_url(*self),
            spec_feed_name(r) == spec_feed_name(*self),
    {
        match self {
            Feed::Rss { name, url, description } => Feed::Rss {
                name: name.clone(),
                url: url.clone(),
                description: description.clone(),
            },
            Feed::ArsTechnica { api_token } => Feed::ArsTechnica {
                api_token: crate::ast::clone_opt_string(api_token),
            },
        }
    }
}

/// The output dialect.
#[derive(Debug, Clone, PartialEq)]
pub enum OutputFormat {
    Epub,
    Markdown,
}

impl Default for OutputFormat {
    /// The default output dialect.
    fn default() -> (r: OutputFormat)
        ensures
            r == OutputFormat::Epub,
    {
        OutputFormat::Epub
    }
}

/// The front page section of the configuration.
#[derive(Debug, Clone, PartialEq)]
pub struct FrontPageConfig {
    pub enabled: bool,
    pub provider: AiProviderConfig,
}

/// Which text-generation backend the front page uses.
#[derive(Debug, Clone, PartialEq)]
pub enum AiProviderConfig {
    Ollama { base_url: String, model: String },
    Anthropic { api_key: String, model: String },
}

impl AiProviderConfig {
    /// The equivalent provider value.
    pub fn to_provider(self) -> (r: AiProvider)
        ensures
            r == match self {
                AiProviderConfig::Ollama { base_url, model } => AiProvider::Ollama {
                    base_url,
                    model,
                },
                AiProviderConfig::Anthropic { api_key, model } => AiProvider::Anthropic {
                    api_key,
                    model,
                },
            },
    {
        match self {
            AiProviderConfig::Ollama { base_url, model } => AiProvider::Ollama { base_url, model },
            AiProviderConfig::Anthropic { api_key, model } => AiProvider::Anthropic {
                api_key,
                model,
            },
        }
    }
}

/// Where and how output is written.
#[derive(Debug, Clone, PartialEq)]
pub struct OutputConfig {
    pub filename: String,
    pub title: String,
    pub author: String,
    pub format: OutputFormat,
}

/// The whole configuration.
#[derive(Debug, Clone, PartialEq)]
pub struct Config {
    pub sources: Vec<SourceEntry>,
    pub feeds: Vec<Feed>,
    pub output: OutputConfig,
    pub front_page: Option<FrontPageConfig>,
}

impl Config {
    /// All sources: the explicit entries first, then one entry per feed.
    pub fn get_all_sources(&self) -> (r: Vec<SourceEntry>)
        ensures
            r.deep_view() == self.sources.deep_view() + self.feeds@.map_values(
                |f: Feed| spec_feed_entry(f),
            ),
    {
        let mut all: Vec<SourceEntry> = Vec::new();
        let mut i: usize = 0;
        proof {
            assert(all.deep_view() =~= self.sources.deep_view().take(0));
        }
        while i < self.sources.len()
            invariant
                i <= self.sources@.len(),
                all.deep_view() == self.sources.deep_view().take(i as int),
            decreases self.sources.len() - i,
        {
            let ghost pre = all.deep_view();
            let e = self.sources[i].duplicate();
            all.push(e);
            proof {
                assert(all.deep_view() =~= pre.push(self.sources@[i as int].deep_view()));
                assert(all.deep_view() =~= self.sources.deep_view().take(i + 1));
            }
            i = i + 1;
        }
        proof {
            assert(self.sources.deep_view().take(self.sources@.len() as int)
                =~= self.sources.deep_view());
        }
        let ghost entries = self.feeds@.map_values(|f: Feed| spec_feed_entry(f));
        let mut j: usize = 0;
        proof {
            assert(all.deep_view() =~= self.sources.deep_view() + entries.take(0));
        }
        while j < self.feeds.len()
            invariant
                j <= self.feeds@.len(),
                entries == self.feeds@.map_values(|f: Feed| spec_feed_entry(f)),
                entries.len() == self.feeds@.len(),
                all.deep_view() == self.sources.deep_view() + entries.take(j as int),
            decreases self.feeds.len() - j,
        {
            let ghost pre = all.deep_view();
            let feed = self.feeds[j].duplicate();
            all.push(feed.to_source_entry());
            proof {
                assert(entries[j as int] == spec_feed_entry(self.feeds@[j as int]));
                assert(all.deep_view() =~= pre.push(spec_feed_entry(self.feeds@[j as int])));
                assert(entries.take(j + 1).drop_last() =~= entries.take(j as int));
                assert(all.deep_view() =~= self.sources.deep_view() + entries.take(j + 1));
            }
            j = j + 1;
        }
        proof {
            assert(entries.take(self.feeds@.len() as int) =~= entries);
        }
        all
    }

    /// The built-in default configuration: one token-less Ars Technica
    /// feed, EPUB output.
    pub fn default() -> (r: Config)
        ensures
            r.sources@.len() == 0,
            r.feeds@.len() == 1,
            r.feeds@[0] == (Feed::ArsTechnica { api_token: None }),
            r.output.filename@ == "daily-feed.epub"@,
            r.output.title@ == "Daily Feed Digest"@,
            r.output.author@ == "RSS Aggregator"@,
            r.output.format == OutputFormat::Epub,
            r.front_page is None,
    {
        let mut feeds: Vec<Feed> = Vec::new();
        feeds.push(Feed::ArsTechnica { api_token: None });
        Config {
            sources: Vec::new(),
            feeds,
            output: OutputConfig {
                filename: chars_to_string(str_to_chars("daily-feed.epub")),
                title: chars_to_string(str_to_chars("Daily Feed Digest")),
                author: chars_to_string(str_to_chars("RSS Aggregator")),
                format: OutputFormat::Epub,
            },
            front_page: None,
        }
    }
}

} // verus!
