//! The front page: a structured day summary that a text-generation backend
//! produces.  Everything around the generation call is verified: content
//! preparation, the prompt, response parsing and the conversion into the
//! block model.  The call itself happens outside the library.

use crate::ai_client::{AiClientError, AiProvider};
use crate::ast::{
    opt_str_view, BlockV, ContentBlock, Document, DocumentV, FormattingV, SpanV, TextContent,
    TextSpan, TextV,
};
use crate::markdown_outputter::split_lines;
use crate::strs::{
    chars_to_string, find_sub, is_unicode_ws, push_chars, push_str_chars, remove_sub_all,
    seq_blank, str_to_chars, trim_chars, trim_seq,
};
use vstd::prelude::*;

verus! {

// ===== Types =====

/// What can go wrong while producing a front page.
#[derive(Debug, Clone, PartialEq)]
pub enum FrontPageError {
    AiError(AiClientError),
    GenerationError(String),
    ParseError(String),
}

impl FrontPageError {
    /// A short label naming the error kind, for reporting.
    pub fn kind(&self) -> (r: &'static str)
        ensures
            match self {
                FrontPageError::AiError(_) => r@ == "AI error"@,
                FrontPageError::GenerationError(_) => r@ == "Generation error"@,
                FrontPageError::ParseError(_) => r@ == "Parse error"@,
            },
    {
        match self {
            FrontPageError::AiError(_) => "AI error",
            FrontPageError::GenerationError(_) => "Generation error",
            FrontPageError::ParseError(_) => "Parse error",
        }
    }
}

/// View of `SourceSummary`.
pub struct SummaryV {
    pub name: Seq<char>,
    pub summary: Seq<char>,
    pub key_stories: Seq<Seq<char>>,
}

/// One source's slice of the front page.
#[derive(Debug, Clone, PartialEq)]
pub struct SourceSummary {
    pub name: String,
    pub summary: String,
    pub key_stories: Vec<String>,
}

impl View for SourceSummary {
    type V = SummaryV;

    open spec fn view(&self) -> SummaryV {
        SummaryV {
            name: self.name@,
            summary: self.summary@,
            key_stories: self.key_stories.deep_view(),
        }
    }
}

impl DeepView for SourceSummary {
    type V = SummaryV;

    open spec fn deep_view(&self) -> SummaryV {
        self.view()
    }
}

/// View of `StructuredFrontPage`.
pub struct FrontPageV {
    pub theme: Seq<char>,
    pub sources: Seq<SummaryV>,
    pub context: Option<Seq<char>>,
}

/// The structured front page: a theme, per-source summaries, an optional
/// outlook.
#[derive(Debug, Clone, PartialEq)]
pub struct StructuredFrontPage {
    pub theme: String,
    pub sources: Vec<SourceSummary>,
    pub context: Option<String>,
}

impl View for StructuredFrontPage {
    type V = FrontPageV;

    open spec fn view(&self) -> FrontPageV {
        FrontPageV {
            theme: self.theme@,
            sources: self.sources.deep_view(),
            context: opt_str_view(self.context),
        }
    }
}

impl DeepView for StructuredFrontPage {
    type V = FrontPageV;

    open spec fn deep_view(&self) -> FrontPageV {
        self.view()
    }
}

/// The front page generator's decisions; the generation call itself is the
/// caller's concern.
pub struct FrontPageGenerator {
    pub provider: AiProvider,
}

// ===== Conversion into the block model =====

/// A single plain span holding the given text.
pub open spec fn plain_tv(s: Seq<char>) -> TextV {
    TextV { spans: seq![SpanV { text: s, formatting: FormattingV::plain() }] }
}

/// The blocks of one source summary: heading, summary paragraph, and a
/// key-stories section when stories exist.
pub open spec fn summary_blocks(s: SummaryV) -> Seq<BlockV> {
    seq![
        BlockV::Heading { level: 2, content: plain_tv(s.name) },
        BlockV::Paragraph(plain_tv(s.summary)),
    ] + if s.key_stories.len() > 0 {
        seq![
            BlockV::Heading { level: 3, content: plain_tv("Key Stories"@) },
            BlockV::List {
                ordered: false,
                items: s.key_stories.map_values(|t: Seq<char>| plain_tv(t)),
            },
        ]
    } else {
        Seq::empty()
    }
}

/// The blocks of a sequence of source summaries.
pub open spec fn summaries_blocks(ss: Seq<SummaryV>) -> Seq<BlockV>
    decreases ss.len(),
{
    if ss.len() == 0 {
        Seq::empty()
    } else {
        summaries_blocks(ss.drop_last()) + summary_blocks(ss.last())
    }
}

/// The whole front page as blocks: the theme paragraph, each source's
/// section, and a closing outlook when present.
pub open spec fn front_page_blocks(f: FrontPageV) -> Seq<BlockV> {
    seq![
        BlockV::Paragraph(
            TextV {
                spans: seq![
                    SpanV {
                        text: "Today's World: "@,
                        formatting: FormattingV { bold: true, ..FormattingV::plain() },
                    },
                    SpanV { text: f.theme, formatting: FormattingV::plain() },
                ],
            },
        ),
    ] + summaries_blocks(f.sources) + (match f.context {
        Some(c) => seq![
            BlockV::Heading { level: 2, content: plain_tv("Looking Ahead"@) },
            BlockV::Paragraph(plain_tv(c)),
        ],
        None => Seq::empty(),
    })
}

impl FrontPageGenerator {
    /// A generator for the given provider.
    pub fn new(provider: AiProvider) -> (r: Result<FrontPageGenerator, FrontPageError>)
        ensures
            r is Ok,
            match r {
                Ok(g) => g.provider == provider,
                Err(_) => false,
            },
    {
        Ok(FrontPageGenerator { provider })
    }

    /// Converts a structured front page into content blocks.
    pub fn convert_to_ast(&self, front_page: &StructuredFrontPage) -> (r: Vec<ContentBlock>)
        ensures
            r.deep_view() == front_page_blocks(front_page@),
    {
        let mut blocks: Vec<ContentBlock> = Vec::new();
        let mut spans: Vec<TextSpan> = Vec::new();
        spans.push(TextSpan::bold(chars_to_string(str_to_chars("Today's World: "))));
        spans.push(TextSpan::plain(front_page.theme.clone()));
        proof {
            assert(spans.deep_view() =~= seq![
                SpanV {
                    text: "Today's World: "@,
                    formatting: FormattingV { bold: true, ..FormattingV::plain() },
                },
                SpanV { text: front_page.theme@, formatting: FormattingV::plain() },
            ]);
        }
        blocks.push(ContentBlock::Paragraph(TextContent::from_spans(spans)));
        let ghost head = seq![
            BlockV::Paragraph(
                TextV {
                    spans: seq![
                        SpanV {
                            text: "Today's World: "@,
                            formatting: FormattingV { bold: true, ..FormattingV::plain() },
                        },
                        SpanV { text: front_page.theme@, formatting: FormattingV::plain() },
                    ],
                },
            ),
        ];
        proof {
            assert(blocks.deep_view() =~= head);
        }
        let ghost srcs = front_page.sources.deep_view();
        let mut i: usize = 0;
        proof {
            assert(srcs.take(0) =~= Seq::<SummaryV>::empty());
            assert(blocks.deep_view() =~= head + summaries_blocks(srcs.take(0)));
        }
        while i < front_page.sources.len()
            invariant
                i <= front_page.sources@.len(),
                srcs == front_page.sources.deep_view(),
                srcs.len() == front_page.sources@.len(),
                head == seq![
                    BlockV::Paragraph(
                        TextV {
                            spans: seq![
                                SpanV {
                                    text: "Today's World: "@,
                                    formatting: FormattingV { bold: true, ..FormattingV::plain() },
                                },
                                SpanV {
                                    text: front_page.theme@,
                                    formatting: FormattingV::plain(),
                                },
                            ],
                        },
                    ),
                ],
                blocks.deep_view() == head + summaries_blocks(srcs.take(i as int)),
            decreases front_page.sources.len() - i,
        {
            let source = &front_page.sources[i];
            proof {
                assert(srcs[i as int] == front_page.sources@[i as int].deep_view());
            }
            let ghost pre = blocks.deep_view();
            blocks.push(
                ContentBlock::Heading { level: 2, content: TextContent::plain(source.name.clone()) },
            );
            blocks.push(ContentBlock::Paragraph(TextContent::plain(source.summary.clone())));
            if source.key_stories.len() > 0 {
                blocks.push(
                    ContentBlock::Heading {
                        level: 3,
                        content: TextContent::plain(chars_to_string(str_to_chars("Key Stories"))),
                    },
                );
                let mut story_items: Vec<TextContent> = Vec::new();
                let ghost stories = source.key_stories.deep_view();
                let mut j: usize = 0;
                proof {
                    assert(stories.take(0) =~= Seq::<Seq<char>>::empty());
                    assert(story_items.deep_view() =~= stories.take(0).map_values(
                        |t: Seq<char>| plain_tv(t),
                    ));
                }
                while j < source.key_stories.len()
                    invariant
                        j <= source.key_stories@.len(),
                        i < front_page.sources@.len(),
                        source == &front_page.sources@[i as int],
                        stories == source.key_stories.deep_view(),
                        stories.len() == source.key_stories@.len(),
                        story_items.deep_view() == stories.take(j as int).map_values(
                            |t: Seq<char>| plain_tv(t),
                        ),
                    decreases source.key_stories.len() - j,
                {
                    let ghost pre_items = story_items.deep_view();
                    story_items.push(TextContent::plain(source.key_stories[j].clone()));
                    proof {
                        assert(stories[j as int] == source.key_stories@[j as int].deep_view());
                        assert(story_items.deep_view() =~= pre_items.push(
                            plain_tv(stories[j as int]),
                        ));
                        assert(stories.take(j + 1).map_values(|t: Seq<char>| plain_tv(t))
                            =~= stories.take(j as int).map_values(
                            |t: Seq<char>| plain_tv(t),
                        ).push(plain_tv(stories[j as int])));
                    }
                    j = j + 1;
                }
                proof {
                    assert(stories.take(source.key_stories@.len() as int) =~= stories);
                }
                blocks.push(ContentBlock::List { ordered: false, items: story_items });
            }
            proof {
                assert(blocks.deep_view() =~= pre + summary_blocks(srcs[i as int]));
                assert(srcs.take(i + 1).drop_last() =~= srcs.take(i as int));
                assert(srcs.take(i + 1).last() == srcs[i as int]);
                assert(blocks.deep_view() =~= head + summaries_blocks(srcs.take(i + 1)));
            }
            i = i + 1;
        }
        proof {
            assert(srcs.take(front_page.sources@.len() as int) =~= srcs);
        }
        match &front_page.context {
            Some(context) => {
                let ghost pre = blocks.deep_view();
                blocks.push(
                    ContentBlock::Heading {
                        level: 2,
                        content: TextContent::plain(chars_to_string(str_to_chars("Looking Ahead"))),
                    },
                );
                blocks.push(ContentBlock::Paragraph(TextContent::plain(context.clone())));
                proof {
                    assert(blocks.deep_view() =~= front_page_blocks(front_page@));
                }
            },
            None => {
                proof {
                    assert(blocks.deep_view() =~= front_page_blocks(front_page@));
                }
            },
        }
        blocks
    }
}

// ===== Content preparation and the prompt =====

/// One article's line in the prepared content.
pub open spec fn article_line(a: crate::ast::ArticleV) -> Seq<char> {
    "- "@ + a.title + (match a.metadata.published_date {
        Some(d) => " ("@ + d + ")"@,
        None => Seq::empty(),
    }) + "\n"@
}

/// The article lines of one feed.
pub open spec fn articles_lines(arts: Seq<crate::ast::ArticleV>) -> Seq<char>
    decreases arts.len(),
{
    if arts.len() == 0 {
        Seq::empty()
    } else {
        articles_lines(arts.drop_last()) + article_line(arts.last())
    }
}

/// One feed's section in the prepared content.
pub open spec fn feed_content(f: crate::ast::FeedV) -> Seq<char> {
    "# Source: "@ + f.name + "\n"@ + (match f.description {
        Some(d) => "**Description:** "@ + d + "\n"@,
        None => Seq::empty(),
    }) + (match f.url {
        Some(u) => "**URL:** "@ + u + "\n"@,
        None => Seq::empty(),
    }) + "\n**Articles:**\n"@ + articles_lines(f.articles) + "\n"@
}

/// The whole prepared content: one section per feed.
pub open spec fn content_spec(feeds: Seq<crate::ast::FeedV>) -> Seq<char>
    decreases feeds.len(),
{
    if feeds.len() == 0 {
        Seq::empty()
    } else {
        content_spec(feeds.drop_last()) + feed_content(feeds.last())
    }
}

impl FrontPageGenerator {
    /// Prepares the per-source content handed to the text generator: each
    /// feed's name, description, url and article titles with dates.
    #[verifier::rlimit(100)]
    pub fn prepare_content_by_source(&self, document: &Document) -> (r: Result<
        String,
        FrontPageError,
    >)
        ensures
            match r {
                Ok(s) => s@ == content_spec(document@.feeds),
                Err(_) => false,
            },
    {
        let mut out: Vec<char> = Vec::new();
        let ghost feeds = document@.feeds;
        let mut i: usize = 0;
        proof {
            assert(feeds.take(0) =~= Seq::<crate::ast::FeedV>::empty());
            assert(out@ =~= content_spec(feeds.take(0)));
        }
        while i < document.feeds.len()
            invariant
                i <= document.feeds@.len(),
                feeds == document@.feeds,
                feeds.len() == document.feeds@.len(),
                out@ == content_spec(feeds.take(i as int)),
            decreases document.feeds.len() - i,
        {
            let feed = &document.feeds[i];
            proof {
                assert(feeds[i as int] == document.feeds@[i as int].deep_view());
            }
            let ghost pre = out@;
            push_str_chars(&mut out, "# Source: ");
            push_str_chars(&mut out, feed.name.as_str());
            push_str_chars(&mut out, "\n");
            match &feed.description {
                Some(d) => {
                    push_str_chars(&mut out, "**Description:** ");
                    push_str_chars(&mut out, d.as_str());
                    push_str_chars(&mut out, "\n");
                },
                None => {},
            }
            match &feed.url {
                Some(u) => {
                    push_str_chars(&mut out, "**URL:** ");
                    push_str_chars(&mut out, u.as_str());
                    push_str_chars(&mut out, "\n");
                },
                None => {},
            }
            push_str_chars(&mut out, "\n**Articles:**\n");
            let ghost arts = feed@.articles;
            let ghost base = out@;
            let mut j: usize = 0;
            proof {
                assert(arts.take(0) =~= Seq::<crate::ast::ArticleV>::empty());
                assert(base + articles_lines(arts.take(0)) =~= base);
            }
            while j < feed.articles.len()
                invariant
                    j <= feed.articles@.len(),
                    i < document.feeds@.len(),
                    feed == &document.feeds@[i as int],
                    arts == feed@.articles,
                    arts.len() == feed.articles@.len(),
                    out@ == base + articles_lines(arts.take(j as int)),
                decreases feed.articles.len() - j,
            {
                let article = &feed.articles[j];
                proof {
                    assert(arts[j as int] == feed.articles@[j as int].deep_view());
                }
                push_str_chars(&mut out, "- ");
                push_str_chars(&mut out, article.title.as_str());
                match &article.metadata.published_date {
                    Some(d) => {
                        push_str_chars(&mut out, " (");
                        push_str_chars(&mut out, d.as_str());
                        push_str_chars(&mut out, ")");
                    },
                    None => {},
                }
                push_str_chars(&mut out, "\n");
                proof {
                    assert(arts.take(j + 1).drop_last() =~= arts.take(j as int));
                    assert(arts.take(j + 1).last() == arts[j as int]);
                    assert(out@ =~= base + articles_lines(arts.take(j + 1)));
                }
                j = j + 1;
            }
            proof {
                assert(arts.take(feed.articles@.len() as int) =~= arts);
            }
            push_str_chars(&mut out, "\n");
            proof {
                assert(feeds.take(i + 1).drop_last() =~= feeds.take(i as int));
                assert(feeds.take(i + 1).last() == feeds[i as int]);
                assert(out@ =~= pre + feed_content(feeds[i as int]));
                assert(out@ =~= content_spec(feeds.take(i + 1)));
            }
            i = i + 1;
        }
        proof {
            assert(feeds.take(document.feeds@.len() as int) =~= feeds);
        }
        Ok(chars_to_string(out))
    }

    /// Builds the structured prompt around prepared content.
    pub fn build_structured_prompt_by_source(&self, content: &str) -> (r: String)
        ensures
            r@ == prompt_head_text() + content@ + prompt_tail_text(),
    {
        let mut out: Vec<char> = Vec::new();
        push_str_chars(&mut out, "You are a senior news editor creating a structured \"Front Page\" summary organized by news sources. \n\nAnalyze the provided content and return a JSON response with this exact structure:\n\n{\n  \"theme\": \"One sentence capturing the day's most significant theme or development across all sources\",\n  \"sources\": [\n    {\n      \"name\": \"Source name\",\n      \"summary\": \"2-3 sentences summarizing the main themes and developments from this source\",\n      \"key_stories\": [\"Key story title 1\", \"Key story title 2\", \"Key story title 3\"]\n    }\n  ],\n  \"context\": \"Optional sentence connecting stories across sources to broader trends\"\n}\n\nGuidelines:\n- For each source, provide a thematic summary of their coverage\n- Include 2-4 most important story titles from each source\n- Maintain neutral tone\n- Focus on what each source is emphasizing or covering uniquely\n- Keep source summaries concise but informative\n- The overall theme should reflect patterns across all sources\n\nDaily feed content organized by source:\n");
        push_str_chars(&mut out, content);
        push_str_chars(&mut out, "\n\nReturn only valid JSON with the structure above.");
        let r = chars_to_string(out);
        proof {
            assert(r@ =~= prompt_head_text() + content@ + prompt_tail_text());
        }
        r
    }
}

/// The fixed first part of the structured prompt.
pub open spec fn prompt_head_text() -> Seq<char> {
    "You are a senior news editor creating a structured \"Front Page\" summary organized by news sources. \n\nAnalyze the provided content and return a JSON response with this exact structure:\n\n{\n  \"theme\": \"One sentence capturing the day's most significant theme or development across all sources\",\n  \"sources\": [\n    {\n      \"name\": \"Source name\",\n      \"summary\": \"2-3 sentences summarizing the main themes and developments from this source\",\n      \"key_stories\": [\"Key story title 1\", \"Key story title 2\", \"Key story title 3\"]\n    }\n  ],\n  \"context\": \"Optional sentence connecting stories across sources to broader trends\"\n}\n\nGuidelines:\n- For each source, provide a thematic summary of their coverage\n- Include 2-4 most important story titles from each source\n- Maintain neutral tone\n- Focus on what each source is emphasizing or covering uniquely\n- Keep source summaries concise but informative\n- The overall theme should reflect patterns across all sources\n\nDaily feed content organized by source:\n"@
}

/// The fixed last part of the structured prompt.
pub open spec fn prompt_tail_text() -> Seq<char> {
    "\n\nReturn only valid JSON with the structure above."@
}

// ===== JSON extraction =====

/// Count of opening minus closing braces.
pub open spec fn brace_delta(s: Seq<char>) -> int
    decreases s.len(),
{
    if s.len() == 0 {
        0
    } else {
        brace_delta(s.drop_last()) + (if s.last() == '{' {
            1int
        } else if s.last() == '}' {
            -1int
        } else {
            0int
        })
    }
}

/// Whether a trimmed line opens a standalone object.
pub open spec fn line_opens(l: Seq<char>) -> bool {
    trim_seq(l).len() > 0 && trim_seq(l)[0] == '{'
}

/// The first line whose trimmed form starts with `{`.
pub open spec fn first_open_line(lines: Seq<Seq<char>>) -> Option<int>
    decreases lines.len(),
{
    if lines.len() == 0 {
        None
    } else if line_opens(lines[0]) {
        Some(0)
    } else {
        match first_open_line(lines.drop_first()) {
            Some(i) => Some(i + 1),
            None => None,
        }
    }
}

/// Scans forward accumulating brace depth until it closes; a depth that
/// falls below zero never closes.
pub open spec fn scan_close(lines: Seq<Seq<char>>, i: int, depth: int) -> Option<int>
    decreases lines.len() - i,
{
    if i < 0 || i >= lines.len() {
        None
    } else {
        let d = depth + brace_delta(trim_seq(lines[i]));
        if d == 0 {
            Some(i)
        } else if d < 0 {
            None
        } else {
            scan_close(lines, i + 1, d)
        }
    }
}

/// The standalone-object line range of the response, if one completes.
pub open spec fn json_line_range(lines: Seq<Seq<char>>) -> Option<(int, int)> {
    match first_open_line(lines) {
        Some(st) => match scan_close(lines, st, 0) {
            Some(en) => Some((st, en)),
            None => None,
        },
        None => None,
    }
}

/// Lines joined with newlines.
pub open spec fn join_nl(lines: Seq<Seq<char>>) -> Seq<char>
    decreases lines.len(),
{
    if lines.len() == 0 {
        Seq::empty()
    } else if lines.len() == 1 {
        lines[0]
    } else {
        join_nl(lines.drop_last()) + "\n"@ + lines.last()
    }
}

/// What JSON extraction yields: the fenced `json` block when present and
/// closed; else a fenced block that looks like an object; else the first
/// standalone brace-balanced line range; else the whole response.
pub open spec fn extract_spec(s: Seq<char>) -> Seq<char> {
    let viajson = match find_sub(s, "```json"@) {
        Some(st) => {
            let after = s.skip(st + 7);
            match find_sub(after, "```"@) {
                Some(en) => Some(trim_seq(after.take(en))),
                None => None,
            }
        },
        None => None,
    };
    match viajson {
        Some(t) => t,
        None => {
            let viafence = match find_sub(s, "```"@) {
                Some(st) => {
                    let after = s.skip(st + 3);
                    match find_sub(after, "```"@) {
                        Some(en) => {
                            let content = trim_seq(after.take(en));
                            if content.len() > 0 && content[0] == '{' && content.last() == '}' {
                                Some(content)
                            } else {
                                None
                            }
                        },
                        None => None,
                    }
                },
                None => None,
            };
            match viafence {
                Some(t) => t,
                None => match json_line_range(split_lines(s)) {
                    Some(r) => join_nl(split_lines(s).subrange(r.0, r.1 + 1)),
                    None => s,
                },
            }
        },
    }
}

/// Splits a character vector into its lines.
fn split_into_lines(v: &Vec<char>) -> (r: Vec<Vec<char>>)
    ensures
        r.deep_view() == split_lines(v@),
{
    let n = v.len();
    let mut out: Vec<Vec<char>> = Vec::new();
    let mut pos: usize = 0;
    proof {
        assert(v@.skip(0) =~= v@);
        assert(out.deep_view() =~= Seq::<Seq<char>>::empty());
    }
    while pos < n
        invariant
            n == v@.len(),
            pos <= n,
            split_lines(v@) == out.deep_view() + split_lines(v@.skip(pos as int)),
        decreases n - pos,
    {
        let ghost rest = v@.skip(pos as int);
        // scan to the end of the line
        let mut j: usize = pos;
        while j < n && v[j] != '\n'
            invariant
                n == v@.len(),
                pos <= j <= n,
                forall|t: int| pos <= t < j ==> v@[t] != '\n',
            decreases n - j,
        {
            j = j + 1;
        }
        proof {
            crate::markdown_outputter::lemma_not_nl_run(rest);
            assert forall|t: int| 0 <= t < j - pos implies rest[t] != '\n' by {
                assert(rest[t] == v@[pos + t]);
            }
            if crate::markdown_outputter::not_nl_run(rest) < j - pos {
                assert(rest[crate::markdown_outputter::not_nl_run(rest) as int] == '\n');
                assert(v@[pos + crate::markdown_outputter::not_nl_run(rest)] != '\n');
            }
            if j < n {
                assert(rest[j - pos] == v@[j as int]);
                assert(crate::markdown_outputter::not_nl_run(rest) == j - pos);
            } else {
                assert(crate::markdown_outputter::not_nl_run(rest) == rest.len());
            }
        }
        let line_end = if j > pos && v[j - 1] == '\r' {
            j - 1
        } else {
            j
        };
        let mut line: Vec<char> = Vec::new();
        let mut t: usize = pos;
        while t < line_end
            invariant
                n == v@.len(),
                pos <= t <= line_end <= n,
                line@ == v@.subrange(pos as int, t as int),
            decreases line_end - t,
        {
            line.push(v[t]);
            proof {
                assert(v@.subrange(pos as int, t + 1) =~= v@.subrange(pos as int, t as int).push(
                    v@[t as int],
                ));
            }
            t = t + 1;
        }
        let ghost pre = out.deep_view();
        let ghost raw_line = v@.subrange(pos as int, j as int);
        proof {
            if j > pos && v@[j - 1] == '\r' {
                assert(raw_line.last() == v@[j - 1]);
                assert(line@ =~= crate::markdown_outputter::strip_cr(raw_line));
            } else {
                if raw_line.len() > 0 {
                    assert(raw_line.last() == v@[j - 1]);
                }
                assert(line@ =~= crate::markdown_outputter::strip_cr(raw_line));
            }
        }
        out.push(line);
        proof {
            let k = crate::markdown_outputter::not_nl_run(rest) as int;
            assert(k == j - pos);
            assert(rest.subrange(0, k) =~= raw_line);
            let tail_lines = if j < n {
                split_lines(rest.skip(k + 1))
            } else {
                split_lines(Seq::<char>::empty())
            };
            if j < n {
                assert(split_lines(rest) == seq![crate::markdown_outputter::strip_cr(
                    rest.subrange(0, k),
                )] + split_lines(rest.skip(k + 1)));
                assert(rest.skip(k + 1) =~= v@.skip(j + 1));
            } else {
                assert(k == rest.len());
                assert(split_lines(rest) == seq![crate::markdown_outputter::strip_cr(rest)]);
                assert(rest.subrange(0, k) =~= rest);
                assert(split_lines(rest) =~= seq![crate::markdown_outputter::strip_cr(
                    rest.subrange(0, k),
                )] + split_lines(Seq::<char>::empty()));
                assert(v@.skip(n as int) =~= Seq::<char>::empty());
            }
            assert(out.deep_view() =~~= pre.push(crate::markdown_outputter::strip_cr(raw_line)));
            assert(out.deep_view() + tail_lines =~~= pre + split_lines(rest));
        }
        if j < n {
            pos = j + 1;
        } else {
            pos = n;
        }
    }
    proof {
        assert(v@.skip(n as int) =~= Seq::<char>::empty());
    }
    out
}

// ===== JSON extraction: executable =====

/// The total length of a line list.
pub open spec fn sum_lens(lines: Seq<Seq<char>>) -> int
    decreases lines.len(),
{
    if lines.len() == 0 {
        0
    } else {
        sum_lens(lines.drop_last()) + lines.last().len()
    }
}

proof fn lemma_delta_bound(l: Seq<char>)
    ensures
        -(l.len() as int) <= brace_delta(l) <= l.len(),
    decreases l.len(),
{
    if l.len() > 0 {
        lemma_delta_bound(l.drop_last());
    }
}

proof fn lemma_sum_lens_parts(lines: Seq<Seq<char>>)
    ensures
        sum_lens(lines) >= 0,
        forall|i: int| 0 <= i < lines.len() ==> (#[trigger] lines[i]).len() <= sum_lens(lines),
    decreases lines.len(),
{
    if lines.len() > 0 {
        lemma_sum_lens_parts(lines.drop_last());
        assert forall|i: int| 0 <= i < lines.len() implies (#[trigger] lines[i]).len()
            <= sum_lens(lines) by {
            if i < lines.len() - 1 {
                assert(lines.drop_last()[i] == lines[i]);
            }
        }
    }
}

/// The sum over a prepended line.
proof fn lemma_sum_prepend(line: Seq<char>, rest: Seq<Seq<char>>)
    ensures
        sum_lens(seq![line] + rest) == line.len() + sum_lens(rest),
    decreases rest.len(),
{
    if rest.len() == 0 {
        let all = seq![line] + rest;
        assert(all.drop_last() =~= Seq::<Seq<char>>::empty());
        assert(all.last() == line);
        assert(sum_lens(all) == sum_lens(all.drop_last()) + line.len());
        assert(sum_lens(all.drop_last()) == 0);
        assert(sum_lens(rest) == 0);
    } else {
        let all = seq![line] + rest;
        assert(all.drop_last() =~= seq![line] + rest.drop_last());
        assert(all.last() == rest.last());
        lemma_sum_prepend(line, rest.drop_last());
        assert(sum_lens(all) == sum_lens(all.drop_last()) + all.last().len());
        assert(sum_lens(rest) == sum_lens(rest.drop_last()) + rest.last().len());
        assert(sum_lens(all.drop_last()) == line.len() + sum_lens(rest.drop_last()));
    }
}

/// The total line length is at most the split text's length.
proof fn lemma_split_total(s: Seq<char>)
    ensures
        sum_lens(split_lines(s)) <= s.len(),
    decreases s.len(),
{
    if s.len() > 0 {
        crate::markdown_outputter::lemma_not_nl_run(s);
        let k = crate::markdown_outputter::not_nl_run(s) as int;
        if k == s.len() {
            assert(split_lines(s) == seq![crate::markdown_outputter::strip_cr(s)]);
            assert(split_lines(s).drop_last() =~= Seq::<Seq<char>>::empty());
            assert(split_lines(s).last() == crate::markdown_outputter::strip_cr(s));
            assert(sum_lens(split_lines(s)) == sum_lens(split_lines(s).drop_last())
                + crate::markdown_outputter::strip_cr(s).len());
            assert(sum_lens(split_lines(s).drop_last()) == 0);
            assert(crate::markdown_outputter::strip_cr(s).len() <= s.len());
        } else {
            lemma_split_total(s.skip(k + 1));
            let line = crate::markdown_outputter::strip_cr(s.subrange(0, k));
            assert(split_lines(s) == seq![line] + split_lines(s.skip(k + 1)));
            lemma_sum_prepend(line, split_lines(s.skip(k + 1)));
            assert(line.len() <= k);
            assert(s.skip(k + 1).len() == s.len() - k - 1);
            assert(sum_lens(split_lines(s)) == line.len() + sum_lens(split_lines(s.skip(k + 1))));
            assert(sum_lens(split_lines(s)) <= k + (s.len() - k - 1));
        }
    }
}

/// The partial sums grow by one line's length.
proof fn lemma_sum_step(lines: Seq<Seq<char>>, a: int, i: int)
    requires
        0 <= a <= i < lines.len(),
    ensures
        sum_lens(lines.subrange(a, i + 1)) == sum_lens(lines.subrange(a, i)) + lines[i].len(),
        sum_lens(lines.subrange(a, i)) >= 0,
{
    assert(lines.subrange(a, i + 1).drop_last() =~= lines.subrange(a, i));
    assert(lines.subrange(a, i + 1).last() == lines[i]);
    lemma_sum_lens_parts(lines.subrange(a, i));
}

/// Partial sums never exceed the whole.
proof fn lemma_sum_part_le(lines: Seq<Seq<char>>, a: int, i: int)
    requires
        0 <= a <= i <= lines.len(),
    ensures
        sum_lens(lines.subrange(a, i)) <= sum_lens(lines),
    decreases lines.len() - i + a,
{
    if a == 0 && i == lines.len() {
        assert(lines.subrange(0, lines.len() as int) =~= lines);
    } else if i < lines.len() {
        lemma_sum_part_le(lines, a, i + 1);
        lemma_sum_step(lines, a, i);
    } else {
        // a > 0, i == lines.len(): peel from the front
        lemma_sum_part_le(lines, a - 1, i);
        assert(lines.subrange(a - 1, i) =~= seq![lines[a - 1]] + lines.subrange(a, i));
        lemma_sum_prepend(lines[a - 1], lines.subrange(a, i));
    }
}

/// No line up to the length opens an object: no first open line exists.
proof fn lemma_first_open_none(lines: Seq<Seq<char>>, upto: int)
    requires
        upto == lines.len(),
        forall|j: int| 0 <= j < upto ==> !line_opens(#[trigger] lines[j]),
    ensures
        first_open_line(lines) is None,
    decreases lines.len(),
{
    if lines.len() > 0 {
        assert(!line_opens(lines[0]));
        assert forall|j: int| 0 <= j < lines.drop_first().len() implies !line_opens(
            #[trigger] lines.drop_first()[j],
        ) by {
            assert(lines.drop_first()[j] == lines[j + 1]);
        }
        lemma_first_open_none(lines.drop_first(), upto - 1);
    }
}

/// The first index that opens is the first open line.
proof fn lemma_first_open_at(lines: Seq<Seq<char>>, at: int)
    requires
        0 <= at < lines.len(),
        line_opens(lines[at]),
        forall|j: int| 0 <= j < at ==> !line_opens(#[trigger] lines[j]),
    ensures
        first_open_line(lines) == Some(at),
    decreases lines.len(),
{
    if at == 0 {
    } else {
        assert(!line_opens(lines[0]));
        assert forall|j: int| 0 <= j < at - 1 implies !line_opens(
            #[trigger] lines.drop_first()[j],
        ) by {
            assert(lines.drop_first()[j] == lines[j + 1]);
        }
        assert(lines.drop_first()[at - 1] == lines[at]);
        lemma_first_open_at(lines.drop_first(), at - 1);
    }
}

impl FrontPageGenerator {
    /// Pulls the JSON out of a generated response: a fenced `json` block,
    /// else a fenced block shaped like an object, else the first
    /// standalone brace-balanced line range, else the whole response.
    #[verifier::rlimit(100)]
    pub fn extract_json_from_response(&self, response: &str) -> (r: String)
        ensures
            r@ == extract_spec(response@),
    {
        let v = str_to_chars(response);
        let n = v.len();
        proof {
            reveal_strlit("```json");
            reveal_strlit("```");
        }
        match crate::strs::find_first_sub(&v, "```json") {
            Some(st) => {
                proof {
                    crate::strs::lemma_find_sub(v@, "```json"@);
                    reveal_strlit("```json");
                    assert(st + 7 <= v@.len());
                }
                let mut after: Vec<char> = Vec::new();
                let mut t: usize = st + 7;
                while t < n
                    invariant
                        n == v@.len(),
                        st + 7 <= t <= n,
                        after@ == v@.subrange(st + 7, t as int),
                    decreases n - t,
                {
                    after.push(v[t]);
                    proof {
                        assert(v@.subrange(st + 7, t + 1) =~= v@.subrange(st + 7, t as int).push(
                            v@[t as int],
                        ));
                    }
                    t = t + 1;
                }
                proof {
                    assert(after@ =~= v@.skip(st + 7));
                }
                match crate::strs::find_first_sub(&after, "```") {
                    Some(en) => {
                        proof {
                            reveal_strlit("```");
                            crate::strs::lemma_find_sub(after@, "```"@);
                        }
                        let mut inner: Vec<char> = Vec::new();
                        let mut u: usize = 0;
                        while u < en
                            invariant
                                en <= after@.len(),
                                u <= en,
                                inner@ == after@.subrange(0, u as int),
                            decreases en - u,
                        {
                            inner.push(after[u]);
                            proof {
                                assert(after@.subrange(0, u + 1) =~= after@.subrange(
                                    0,
                                    u as int,
                                ).push(after@[u as int]));
                            }
                            u = u + 1;
                        }
                        proof {
                            assert(inner@ =~= after@.take(en as int));
                        }
                        let trimmed = trim_chars(&inner);
                        let r = chars_to_string(trimmed);
                        proof {
                            assert(r@ =~= extract_spec(response@));
                        }
                        return r;
                    },
                    None => {},
                }
            },
            None => {},
        }
        proof {
            reveal_strlit("```");
        }
        match crate::strs::find_first_sub(&v, "```") {
            Some(st) => {
                proof {
                    crate::strs::lemma_find_sub(v@, "```"@);
                    reveal_strlit("```");
                    assert(st + 3 <= v@.len());
                }
                let mut after: Vec<char> = Vec::new();
                let mut t: usize = st + 3;
                while t < n
                    invariant
                        n == v@.len(),
                        st + 3 <= t <= n,
                        after@ == v@.subrange(st + 3, t as int),
                    decreases n - t,
                {
                    after.push(v[t]);
                    proof {
                        assert(v@.subrange(st + 3, t + 1) =~= v@.subrange(st + 3, t as int).push(
                            v@[t as int],
                        ));
                    }
                    t = t + 1;
                }
                proof {
                    assert(after@ =~= v@.skip(st + 3));
                }
                match crate::strs::find_first_sub(&after, "```") {
                    Some(en) => {
                        proof {
                            reveal_strlit("```");
                            crate::strs::lemma_find_sub(after@, "```"@);
                        }
                        let mut inner: Vec<char> = Vec::new();
                        let mut u: usize = 0;
                        while u < en
                            invariant
                                en <= after@.len(),
                                u <= en,
                                inner@ == after@.subrange(0, u as int),
                            decreases en - u,
                        {
                            inner.push(after[u]);
                            proof {
                                assert(after@.subrange(0, u + 1) =~= after@.subrange(
                                    0,
                                    u as int,
                                ).push(after@[u as int]));
                            }
                            u = u + 1;
                        }
                        proof {
                            assert(inner@ =~= after@.take(en as int));
                        }
                        let content = trim_chars(&inner);
                        if content.len() > 0 && content[0] == '{' && content[content.len() - 1]
                            == '}' {
                            let r = chars_to_string(content);
                            proof {
                                assert(r@ =~= extract_spec(response@));
                            }
                            return r;
                        }
                    },
                    None => {},
                }
            },
            None => {},
        }
        // standalone brace-balanced line range
        let lines = split_into_lines(&v);
        let ghost lv = split_lines(v@);
        proof {
            assert(lines.deep_view() == lv);
            lemma_sum_lens_parts(lv);
            lemma_split_total(v@);
        }
        let mut start: usize = 0;
        let mut have_start: bool = false;
        while !have_start && start < lines.len()
            invariant
                lines.deep_view() == lv,
                lv.len() == lines@.len(),
                forall|j: int| 0 <= j < lines@.len() ==> lv[j] == (
                #[trigger] lines@[j]).deep_view(),
                start <= lines@.len(),
                !have_start ==> forall|j: int| 0 <= j < start ==> !line_opens(#[trigger] lv[j]),
                have_start ==> start < lines@.len() && line_opens(lv[start as int]) && forall|
                    j: int,
                | 0 <= j < start ==> !line_opens(#[trigger] lv[j]),
            decreases lines.len() - start + (if have_start {
                0int
            } else {
                1int
            }),
        {
            proof {
                assert(lines@[start as int].deep_view() =~= lines@[start as int]@);
                assert(lv[start as int] == lines@[start as int]@);
            }
            let tl = trim_chars(&lines[start]);
            if tl.len() > 0 && tl[0] == '{' {
                have_start = true;
            } else {
                start = start + 1;
            }
        }
        if !have_start {
            proof {
                lemma_first_open_none(lv, start as int);
                assert(json_line_range(lv) is None);
            }
            let r = chars_to_string(v);
            proof {
                assert(r@ =~= extract_spec(response@));
            }
            return r;
        }
        proof {
            lemma_first_open_at(lv, start as int);
        }
        // scan for the closing line
        let mut i: usize = start;
        let mut depth: i128 = 0;
        let mut outcome: u8 = 0;
        let mut end_ix: usize = 0;
        proof {
            assert(lv.subrange(start as int, start as int) =~= Seq::<Seq<char>>::empty());
        }
        while outcome == 0
            invariant
                lines.deep_view() == lv,
                lv.len() == lines@.len(),
                forall|j: int| 0 <= j < lines@.len() ==> lv[j] == (
                #[trigger] lines@[j]).deep_view(),
                start < lines@.len(),
                first_open_line(lv) == Some(start as int),
                sum_lens(lv) <= v@.len(),
                v@.len() <= usize::MAX,
                forall|j: int| 0 <= j < lv.len() ==> (#[trigger] lv[j]).len() <= sum_lens(lv),
                outcome == 0 ==> start <= i <= lines@.len() && scan_close(lv, start as int, 0)
                    == scan_close(lv, i as int, depth as int) && (depth as int) >= 0 && (
                depth as int) <= sum_lens(lv.subrange(start as int, i as int)) && sum_lens(
                    lv.subrange(start as int, i as int),
                ) <= sum_lens(lv),
                outcome == 0 || outcome == 1 || outcome == 2,
                outcome == 1 ==> scan_close(lv, start as int, 0) == Some(end_ix as int) && start
                    <= end_ix < lines@.len(),
                outcome == 2 ==> scan_close(lv, start as int, 0) is None,
            decreases lines@.len() - i + (if outcome == 0 {
                1int
            } else {
                0int
            }),
        {
            if i >= lines.len() {
                proof {
                    assert(scan_close(lv, i as int, depth as int) is None);
                }
                outcome = 2;
            } else {
                proof {
                    assert(lines@[i as int].deep_view() =~= lines@[i as int]@);
                    assert(lv[i as int] == lines@[i as int]@);
                    crate::strs::lemma_trim_le(lv[i as int]);
                }
                let tl = trim_chars(&lines[i]);
                // the line's brace delta
                let mut d: i128 = 0;
                let mut u: usize = 0;
                proof {
                    assert(tl@.take(0) =~= Seq::<char>::empty());
                }
                while u < tl.len()
                    invariant
                        u <= tl@.len(),
                        tl@.len() <= usize::MAX,
                        d as int == brace_delta(tl@.take(u as int)),
                        -(u as int) <= d as int <= u as int,
                    decreases tl@.len() - u,
                {
                    proof {
                        assert(tl@.take(u + 1).drop_last() =~= tl@.take(u as int));
                        assert(tl@.take(u + 1).last() == tl@[u as int]);
                    }
                    if tl[u] == '{' {
                        d = d + 1;
                    } else if tl[u] == '}' {
                        d = d - 1;
                    }
                    u = u + 1;
                }
                proof {
                    assert(tl@.take(tl@.len() as int) =~= tl@);
                    assert(d as int == brace_delta(trim_seq(lv[i as int])));
                    lemma_delta_bound(trim_seq(lv[i as int]));
                    lemma_sum_step(lv, start as int, i as int);
                    lemma_sum_part_le(lv, start as int, i + 1);
                }
                let nd = depth + d;
                if nd == 0 {
                    proof {
                        assert(scan_close(lv, i as int, depth as int) == Some(i as int));
                    }
                    end_ix = i;
                    outcome = 1;
                } else if nd < 0 {
                    proof {
                        assert(scan_close(lv, i as int, depth as int) is None);
                    }
                    outcome = 2;
                } else {
                    proof {
                        assert(scan_close(lv, i as int, depth as int) == scan_close(
                            lv,
                            i + 1,
                            nd as int,
                        ));
                    }
                    depth = nd;
                    i = i + 1;
                }
            }
        }
        if outcome == 1 {
            // join the raw lines of the range with newlines
            let en = end_ix;
            let _line_count = lines.len();
            proof {
                assert(lines@.len() <= usize::MAX);
            }
            let mut out: Vec<char> = Vec::new();
            let ghost range = lv.subrange(start as int, en + 1);
            let mut t: usize = start;
            proof {
                assert(range.take(0) =~= Seq::<Seq<char>>::empty());
                assert(out@ =~= join_nl(range.take(0)));
            }
            while t <= en
                invariant
                    lines.deep_view() == lv,
                    lv.len() == lines@.len(),
                    forall|j: int| 0 <= j < lines@.len() ==> lv[j] == (
                    #[trigger] lines@[j]).deep_view(),
                    start <= t <= en + 1,
                    en < lines@.len(),
                    lines@.len() <= usize::MAX,
                    range == lv.subrange(start as int, en + 1),
                    out@ == join_nl(range.take(t - start)),
                decreases en + 1 - t,
            {
                if t > start {
                    push_str_chars(&mut out, "\n");
                }
                push_chars(&mut out, &lines[t]);
                proof {
                    assert(lines@[t as int].deep_view() =~= lines@[t as int]@);
                    assert(lv[t as int] == lines@[t as int]@);
                    assert(range[t - start] == lv[t as int]);
                    assert(range.take(t - start + 1).drop_last() =~= range.take(t - start));
                    assert(range.take(t - start + 1).last() == range[t - start]);
                    assert(out@ =~= join_nl(range.take(t - start + 1)));
                }
                t = t + 1;
            }
            proof {
                assert(range.take(en + 1 - start) =~= range);
            }
            let r = chars_to_string(out);
            proof {
                assert(json_line_range(lv) == Some((start as int, en as int)));
                assert(r@ =~= extract_spec(response@));
            }
            r
        } else {
            let r = chars_to_string(v);
            proof {
                assert(json_line_range(lv) is None);
                assert(r@ =~= extract_spec(response@));
            }
            r
        }
    }
}

// ===== The markdown fallback parser =====

/// The scan state of the markdown fallback: which section is open, the
/// theme and context accumulators, the finished sources and the open one.
pub struct MdScanV {
    pub section: int,
    pub theme: Seq<char>,
    pub sources: Seq<SummaryV>,
    pub cur: Option<SummaryV>,
    pub context: Option<Seq<char>>,
}

/// A singleton or empty sequence from an optional summary.
pub open spec fn opt_summary(o: Option<SummaryV>) -> Seq<SummaryV> {
    match o {
        Some(s) => seq![s],
        None => Seq::empty(),
    }
}

/// Whether the pattern occurs anywhere in the text.
pub open spec fn contains_sub(s: Seq<char>, pat: Seq<char>) -> bool {
    find_sub(s, pat) is Some
}

/// A theme line with its markers removed and the ends trimmed.
pub open spec fn md_clean(line: Seq<char>) -> Seq<char> {
    trim_seq(
        remove_sub_all(
            remove_sub_all(
                remove_sub_all(remove_sub_all(line, "**Today's World**:"@), "**Today's World**: "@),
                "Today's World:"@,
            ),
            "Today's World: "@,
        ),
    )
}

/// A source heading with its markers removed and the ends trimmed.
pub open spec fn md_src_name(line: Seq<char>) -> Seq<char> {
    trim_seq(remove_sub_all(remove_sub_all(remove_sub_all(line, "##"@), "**"@), ":"@))
}

/// Whether a character marks a list bullet.
pub open spec fn is_bullet_char(c: char) -> bool {
    c == '\u{2022}' || c == '-' || c == '*' || c == ' '
}

/// Length of the prefix of bullet characters.
pub open spec fn bullet_run(s: Seq<char>) -> nat
    decreases s.len(),
{
    if s.len() == 0 {
        0
    } else if is_bullet_char(s[0]) {
        (1 + bullet_run(s.drop_first())) as nat
    } else {
        0
    }
}

/// A story line with its bullet and spacing removed.
pub open spec fn md_story(line: Seq<char>) -> Seq<char> {
    trim_seq(line.skip(bullet_run(line) as int))
}

/// Whether a line opens a story bullet.
pub open spec fn is_story_line(line: Seq<char>) -> bool {
    line.len() >= 2 && (line[0] == '\u{2022}' || line[0] == '-' || line[0] == '*') && line[1]
        == ' '
}

/// One line of the markdown fallback scan.
pub open spec fn md_step(st: MdScanV, raw: Seq<char>) -> MdScanV {
    let line = trim_seq(raw);
    if line.len() == 0 {
        st
    } else if contains_sub(line, "Today's World"@) {
        let c = md_clean(line);
        MdScanV {
            section: 0,
            theme: if c.len() > 0 {
                c
            } else {
                st.theme
            },
            ..st
        }
    } else if crate::strs::sub_at(line, "##"@, 0) || (contains_sub(line, "**"@) && !contains_sub(
        line,
        "Looking Ahead"@,
    )) {
        MdScanV {
            section: 1,
            sources: st.sources + opt_summary(st.cur),
            cur: Some(
                SummaryV {
                    name: md_src_name(line),
                    summary: Seq::empty(),
                    key_stories: Seq::empty(),
                },
            ),
            ..st
        }
    } else if contains_sub(line, "Looking Ahead"@) {
        MdScanV { section: 2, sources: st.sources + opt_summary(st.cur), cur: None, ..st }
    } else if st.section == 0 {
        let c = md_clean(line);
        MdScanV {
            theme: (if st.theme.len() > 0 {
                st.theme + " "@
            } else {
                st.theme
            }) + (if c.len() > 0 {
                c
            } else {
                Seq::empty()
            }),
            ..st
        }
    } else if st.section == 1 {
        match st.cur {
            Some(cur) => if is_story_line(line) {
                MdScanV {
                    cur: Some(
                        SummaryV { key_stories: cur.key_stories.push(md_story(line)), ..cur },
                    ),
                    ..st
                }
            } else {
                MdScanV {
                    cur: Some(
                        SummaryV {
                            summary: (if cur.summary.len() > 0 {
                                cur.summary + " "@
                            } else {
                                cur.summary
                            }) + line,
                            ..cur
                        },
                    ),
                    ..st
                }
            },
            None => st,
        }
    } else if st.section == 2 {
        let prev = match st.context {
            Some(c) => c,
            None => Seq::empty(),
        };
        MdScanV {
            context: Some(
                (if prev.len() > 0 {
                    prev + " "@
                } else {
                    prev
                }) + line,
            ),
            ..st
        }
    } else {
        st
    }
}

/// The scan over all lines.
pub open spec fn md_scan(lines: Seq<Seq<char>>) -> MdScanV
    decreases lines.len(),
{
    if lines.len() == 0 {
        MdScanV {
            section: 0,
            theme: Seq::empty(),
            sources: Seq::empty(),
            cur: None,
            context: None,
        }
    } else {
        md_step(md_scan(lines.drop_last()), lines.last())
    }
}

/// The default theme when a response yields sources but no theme line.
pub open spec fn default_theme() -> Seq<char> {
    "Multiple developing stories shape today's landscape"@
}

/// What the markdown fallback yields: nothing when neither a theme nor any
/// source was found, else the scanned front page.
pub open spec fn md_parse(s: Seq<char>) -> Option<FrontPageV> {
    let st = md_scan(split_lines(s));
    let sources = st.sources + opt_summary(st.cur);
    if st.theme.len() == 0 && sources.len() == 0 {
        None
    } else {
        Some(
            FrontPageV {
                theme: if st.theme.len() == 0 {
                    default_theme()
                } else {
                    st.theme
                },
                sources,
                context: st.context,
            },
        )
    }
}

/// Removes a theme line's markers and trims it.
fn md_clean_exec(line: &Vec<char>) -> (r: Vec<char>)
    ensures
        r@ == md_clean(line@),
{
    proof {
        reveal_strlit("**Today's World**:");
        reveal_strlit("**Today's World**: ");
        reveal_strlit("Today's World:");
        reveal_strlit("Today's World: ");
    }
    let r1 = crate::strs::remove_sub_chars(line, "**Today's World**:");
    let r2 = crate::strs::remove_sub_chars(&r1, "**Today's World**: ");
    let r3 = crate::strs::remove_sub_chars(&r2, "Today's World:");
    let r4 = crate::strs::remove_sub_chars(&r3, "Today's World: ");
    trim_chars(&r4)
}

/// Removes a source heading's markers and trims it.
fn md_src_name_exec(line: &Vec<char>) -> (r: Vec<char>)
    ensures
        r@ == md_src_name(line@),
{
    proof {
        reveal_strlit("##");
        reveal_strlit("**");
        reveal_strlit(":");
    }
    let r1 = crate::strs::remove_sub_chars(line, "##");
    let r2 = crate::strs::remove_sub_chars(&r1, "**");
    let r3 = crate::strs::remove_sub_chars(&r2, ":");
    trim_chars(&r3)
}

/// Strips a story line's bullet and trims it.
fn md_story_exec(line: &Vec<char>) -> (r: Vec<char>)
    ensures
        r@ == md_story(line@),
{
    let n = line.len();
    let mut k: usize = 0;
    while k < n && (line[k] == '\u{2022}' || line[k] == '-' || line[k] == '*' || line[k] == ' ')
        invariant
            n == line@.len(),
            k <= n,
            forall|j: int| 0 <= j < k ==> is_bullet_char(line@[j]),
        decreases n - k,
    {
        k = k + 1;
    }
    proof {
        lemma_bullet_run(line@);
        if bullet_run(line@) < k {
            assert(is_bullet_char(line@[bullet_run(line@) as int]));
        }
        if k < n {
            assert(!is_bullet_char(line@[k as int]));
            assert(bullet_run(line@) == k);
        } else {
            assert(bullet_run(line@) == line@.len());
        }
    }
    let mut rest: Vec<char> = Vec::new();
    let mut t: usize = k;
    while t < n
        invariant
            n == line@.len(),
            k <= t <= n,
            rest@ == line@.subrange(k as int, t as int),
        decreases n - t,
    {
        rest.push(line[t]);
        proof {
            assert(line@.subrange(k as int, t + 1) =~= line@.subrange(k as int, t as int).push(
                line@[t as int],
            ));
        }
        t = t + 1;
    }
    proof {
        assert(rest@ =~= line@.skip(k as int));
    }
    trim_chars(&rest)
}

proof fn lemma_bullet_run(s: Seq<char>)
    ensures
        bullet_run(s) <= s.len(),
        forall|j: int| 0 <= j < bullet_run(s) ==> is_bullet_char(s[j]),
        bullet_run(s) < s.len() ==> !is_bullet_char(s[bullet_run(s) as int]),
    decreases s.len(),
{
    if s.len() > 0 && is_bullet_char(s[0]) {
        lemma_bullet_run(s.drop_first());
        assert forall|j: int| 0 <= j < bullet_run(s) implies is_bullet_char(s[j]) by {
            if j > 0 {
                assert(s.drop_first()[j - 1] == s[j]);
            }
        }
        if bullet_run(s) < s.len() {
            assert(s.drop_first()[bullet_run(s) - 1] == s[bullet_run(s) as int]);
        }
    }
}

impl FrontPageGenerator {
    /// The markdown fallback: scans the response line by line for a theme,
    /// source headings with summaries and bullet stories, and an outlook.
    #[verifier::rlimit(100)]
    fn parse_markdown_response_by_source(&self, response: &str) -> (r: Result<
        StructuredFrontPage,
        FrontPageError,
    >)
        ensures
            match r {
                Ok(fp) => md_parse(response@) == Some(fp@),
                Err(_) => md_parse(response@) is None,
            },
    {
        let v = str_to_chars(response);
        let lines = split_into_lines(&v);
        let ghost lv = split_lines(v@);
        proof {
            assert(lines.deep_view() == lv);
        }
        let mut section: u8 = 0;
        let mut theme: Vec<char> = Vec::new();
        let mut sources: Vec<SourceSummary> = Vec::new();
        let mut cur: Option<SourceSummary> = None;
        let mut context: Option<Vec<char>> = None;
        let mut i: usize = 0;
        proof {
            assert(lv.take(0) =~= Seq::<Seq<char>>::empty());
            assert(sources.deep_view() =~= Seq::<SummaryV>::empty());
        }
        while i < lines.len()
            invariant
                lines.deep_view() == lv,
                lv.len() == lines@.len(),
                forall|j: int| 0 <= j < lines@.len() ==> lv[j] == (
                #[trigger] lines@[j]).deep_view(),
                i <= lines@.len(),
                ({
                    let st = md_scan(lv.take(i as int));
                    &&& section as int == st.section
                    &&& theme@ == st.theme
                    &&& sources.deep_view() == st.sources
                    &&& (match (cur, st.cur) {
                        (Some(c), Some(cv)) => c.deep_view() == cv,
                        (None, None) => true,
                        _ => false,
                    })
                    &&& (match (context, st.context) {
                        (Some(c), Some(cv)) => c@ == cv,
                        (None, None) => true,
                        _ => false,
                    })
                }),
            decreases lines.len() - i,
        {
            let ghost st_pre = md_scan(lv.take(i as int));
            proof {
                assert(lv.take(i + 1).drop_last() =~= lv.take(i as int));
                assert(lv.take(i + 1).last() == lv[i as int]);
                assert(md_scan(lv.take(i + 1)) == md_step(st_pre, lv[i as int]));
                assert(lines@[i as int].deep_view() =~= lines@[i as int]@);
                assert(lv[i as int] == lines@[i as int]@);
                reveal_strlit("Today's World");
                reveal_strlit("##");
                reveal_strlit("**");
                reveal_strlit("Looking Ahead");
                reveal_strlit(" ");
            }
            let ghost stepped = md_step(st_pre, lv[i as int]);
            let line = trim_chars(&lines[i]);
            if line.len() == 0 {
                proof {
                    assert(stepped == st_pre);
                }
            } else if crate::strs::find_first_sub(&line, "Today's World").is_some() {
                proof {
                    crate::strs::lemma_find_sub(line@, "Today's World"@);
                }
                section = 0;
                let clean = md_clean_exec(&line);
                if clean.len() > 0 {
                    theme = clean;
                }
            } else if crate::strs::starts_with_at(&line, 0, "##") || (crate::strs::find_first_sub(
                &line,
                "**",
            ).is_some() && !crate::strs::find_first_sub(&line, "Looking Ahead").is_some()) {
                let taken = cur;
                cur = None;
                match taken {
                    Some(c) => {
                        let ghost pre_sources = sources.deep_view();
                        let ghost cv = c.deep_view();
                        sources.push(c);
                        proof {
                            assert(sources.deep_view() =~= pre_sources + opt_summary(Some(cv)));
                        }
                    },
                    None => {
                        proof {
                            assert(sources.deep_view() =~= st_pre.sources + opt_summary(
                                st_pre.cur,
                            ));
                        }
                    },
                }
                let name = md_src_name_exec(&line);
                cur = Some(
                    SourceSummary {
                        name: chars_to_string(name),
                        summary: chars_to_string(Vec::new()),
                        key_stories: Vec::new(),
                    },
                );
                section = 1;
                proof {
                    match &cur {
                        Some(c) => {
                            assert(c.key_stories.deep_view() =~= Seq::<Seq<char>>::empty());
                            assert(c.summary@ =~= Seq::<char>::empty());
                            assert(c.name@ == md_src_name(trim_seq(lv[i as int])));
                            assert(c.deep_view() == SummaryV {
                                name: md_src_name(trim_seq(lv[i as int])),
                                summary: Seq::empty(),
                                key_stories: Seq::empty(),
                            });
                        },
                        None => {},
                    }
                }
            } else if crate::strs::find_first_sub(&line, "Looking Ahead").is_some() {
                let taken = cur;
                cur = None;
                match taken {
                    Some(c) => {
                        let ghost pre_sources = sources.deep_view();
                        let ghost cv = c.deep_view();
                        sources.push(c);
                        proof {
                            assert(sources.deep_view() =~= pre_sources + opt_summary(Some(cv)));
                        }
                    },
                    None => {
                        proof {
                            assert(sources.deep_view() =~= st_pre.sources + opt_summary(
                                st_pre.cur,
                            ));
                        }
                    },
                }
                cur = None;
                section = 2;
            } else if section == 0 {
                if theme.len() > 0 {
                    theme.push(' ');
                    proof {
                        assert(theme@ =~= st_pre.theme + " "@);
                    }
                }
                let clean = md_clean_exec(&line);
                if clean.len() > 0 {
                    crate::strs::push_chars(&mut theme, &clean);
                }
                proof {
                    assert(theme@ =~= stepped.theme);
                }
            } else if section == 1 {
                let taken = cur;
                cur = None;
                match taken {
                    Some(c) => {
                        let mut c = c;
                        let ghost cv = c.deep_view();
                        if line.len() >= 2 && (line[0] == '\u{2022}' || line[0] == '-' || line[0]
                            == '*') && line[1] == ' ' {
                            let story = md_story_exec(&line);
                            let ghost pre_stories = c.key_stories.deep_view();
                            c.key_stories.push(chars_to_string(story));
                            proof {
                                assert(c.key_stories.deep_view() =~= pre_stories.push(
                                    md_story(trim_seq(lv[i as int])),
                                ));
                            }
                        } else {
                            let mut sv = str_to_chars(c.summary.as_str());
                            if sv.len() > 0 {
                                sv.push(' ');
                                proof {
                                    assert(sv@ =~= cv.summary + " "@);
                                }
                            }
                            crate::strs::push_chars(&mut sv, &line);
                            c.summary = chars_to_string(sv);
                        }
                        cur = Some(c);
                    },
                    None => {},
                }
            } else if section == 2 {
                let ghost prevv = match st_pre.context {
                    Some(c) => c,
                    None => Seq::<char>::empty(),
                };
                let mut cv: Vec<char> = match context {
                    Some(c) => c,
                    None => Vec::new(),
                };
                proof {
                    assert(cv@ =~= prevv);
                }
                if cv.len() > 0 {
                    cv.push(' ');
                    proof {
                        assert(cv@ =~= prevv + " "@);
                    }
                }
                crate::strs::push_chars(&mut cv, &line);
                proof {
                    assert(cv@ =~= (if prevv.len() > 0 {
                        prevv + " "@
                    } else {
                        prevv
                    }) + trim_seq(lv[i as int]));
                }
                context = Some(cv);
            }
            proof {
                match (&cur, stepped.cur) {
                    (Some(c), Some(scv)) => {
                        assert(c.deep_view() =~~= scv);
                    },
                    _ => {},
                }
                match (&context, stepped.context) {
                    (Some(c), Some(scv)) => {
                        assert(c@ =~= scv);
                    },
                    _ => {},
                }
                assert(theme@ =~= stepped.theme);
                assert(sources.deep_view() =~= stepped.sources);
            }
            i = i + 1;
        }
        proof {
            assert(lv.take(lines@.len() as int) =~= lv);
        }
        let ghost st = md_scan(lv);
        let taken = cur;
        match taken {
            Some(c) => {
                let ghost pre_sources = sources.deep_view();
                let ghost cv = c.deep_view();
                sources.push(c);
                proof {
                    assert(sources.deep_view() =~= pre_sources + opt_summary(Some(cv)));
                }
            },
            None => {
                proof {
                    assert(sources.deep_view() =~= st.sources + opt_summary(st.cur));
                }
            },
        }
        if theme.len() == 0 && sources.len() == 0 {
            proof {
                assert(sources.deep_view().len() == 0);
                assert(md_parse(response@) is None);
            }
            return Err(
                FrontPageError::ParseError(
                    chars_to_string(
                        str_to_chars("Could not parse structured front page from AI response"),
                    ),
                ),
            );
        }
        let final_theme: String = if theme.len() == 0 {
            proof {
                reveal_strlit("Multiple developing stories shape today's landscape");
            }
            chars_to_string(
                str_to_chars("Multiple developing stories shape today's landscape"),
            )
        } else {
            chars_to_string(theme)
        };
        let final_context: Option<String> = match context {
            Some(c) => Some(chars_to_string(c)),
            None => None,
        };
        let fp = StructuredFrontPage { theme: final_theme, sources, context: final_context };
        proof {
            assert(md_parse(response@) == Some(fp@));
        }
        Ok(fp)
    }
}

// ===== The JSON bridge =====

#[verifier::external_type_specification]
#[verifier::external_body]
pub struct ExJsonValue(serde_json::Value);

/// Relies on serde_json::from_str::<Value>: parses text as a JSON value,
/// or refuses it.  Nothing more is assumed of the parsed value, which
/// stays opaque.
#[verifier::external_body]
fn json_value_of(s: &str) -> Option<serde_json::Value> {
    serde_json::from_str(s).ok()
}

/// Relies on serde_json::Value::get: the member of an object under a key,
/// when the value is an object with that member.
#[verifier::external_body]
fn json_get<'a>(v: &'a serde_json::Value, key: &str) -> Option<&'a serde_json::Value> {
    v.get(key)
}

/// Relies on serde_json::Value::as_str: the text of a JSON string value.
#[verifier::external_body]
fn json_str(v: &serde_json::Value) -> Option<String> {
    v.as_str().map(|s| s.to_string())
}

/// Relies on serde_json::Value::as_array: the elements of a JSON array.
#[verifier::external_body]
fn json_array<'a>(v: &'a serde_json::Value) -> Option<&'a Vec<serde_json::Value>> {
    v.as_array()
}

/// Reads an array of strings out of a JSON value; any non-string element
/// refuses the whole array.
fn json_string_list(v: &serde_json::Value) -> Option<Vec<String>> {
    match json_array(v) {
        Some(items) => {
            let mut out: Vec<String> = Vec::new();
            let mut i: usize = 0;
            while i < items.len()
                decreases items.len() - i,
            {
                match json_str(&items[i]) {
                    Some(s) => {
                        out.push(s);
                    },
                    None => {
                        return None;
                    },
                }
                i = i + 1;
            }
            Some(out)
        },
        None => None,
    }
}

/// Builds a structured front page from a parsed JSON value: a `theme`
/// string, a `sources` array of objects with `name`, `summary` and
/// `key_stories`, and an optional `context` string.
fn front_page_from_json(v: &serde_json::Value) -> Option<StructuredFrontPage> {
    let theme = match json_get(v, "theme") {
        Some(t) => match json_str(t) {
            Some(s) => s,
            None => {
                return None;
            },
        },
        None => {
            return None;
        },
    };
    let mut sources: Vec<SourceSummary> = Vec::new();
    match json_get(v, "sources") {
        Some(srcs) => match json_array(srcs) {
            Some(items) => {
                let mut i: usize = 0;
                while i < items.len()
                    decreases items.len() - i,
                {
                    let item = &items[i];
                    let name = match json_get(item, "name") {
                        Some(n) => match json_str(n) {
                            Some(s) => s,
                            None => {
                                return None;
                            },
                        },
                        None => {
                            return None;
                        },
                    };
                    let summary = match json_get(item, "summary") {
                        Some(n) => match json_str(n) {
                            Some(s) => s,
                            None => {
                                return None;
                            },
                        },
                        None => {
                            return None;
                        },
                    };
                    let key_stories = match json_get(item, "key_stories") {
                        Some(n) => match json_string_list(n) {
                            Some(s) => s,
                            None => {
                                return None;
                            },
                        },
                        None => {
                            return None;
                        },
                    };
                    sources.push(SourceSummary { name, summary, key_stories });
                    i = i + 1;
                }
            },
            None => {
                return None;
            },
        },
        None => {
            return None;
        },
    }
    let context = match json_get(v, "context") {
        Some(c) => json_str(c),
        None => None,
    };
    Some(StructuredFrontPage { theme, sources, context })
}

impl FrontPageGenerator {
    /// Parses a generated response: first the extracted JSON, and when
    /// that does not decode, the markdown fallback.  An error comes back
    /// exactly when both fail.
    pub fn parse_structured_response_by_source(&self, response: &str) -> (r: Result<
        StructuredFrontPage,
        FrontPageError,
    >)
        ensures
            r is Err ==> md_parse(response@) is None,
            md_parse(response@) is Some ==> r is Ok,
    {
        let json_content = self.extract_json_from_response(response);
        match json_value_of(json_content.as_str()) {
            Some(v) => match front_page_from_json(&v) {
                Some(fp) => Ok(fp),
                None => self.parse_markdown_response_by_source(response),
            },
            None => self.parse_markdown_response_by_source(response),
        }
    }
}

} // verus!
