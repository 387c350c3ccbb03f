//! The document model: blocks, inline spans, articles, feeds and the
//! top-level document, together with the mathematical views that the
//! contracts of the parser, the renderers and the codec speak about.

use crate::strs::{chars_to_string, char_is_ws, push_str_chars, seq_blank};
use vstd::prelude::*;

verus! {

// ===== Views =====

/// View of `TextFormatting`.
pub struct FormattingV {
    pub bold: bool,
    pub italic: bool,
    pub code: bool,
    pub link: Option<Seq<char>>,
}

impl FormattingV {
    /// The formatting of an unstyled span.
    pub open spec fn plain() -> FormattingV {
        FormattingV { bold: false, italic: false, code: false, link: None }
    }
}

/// View of `TextSpan`.
pub struct SpanV {
    pub text: Seq<char>,
    pub formatting: FormattingV,
}

/// View of `TextContent`.
pub struct TextV {
    pub spans: Seq<SpanV>,
}

impl TextV {
    /// Every span's text is all-whitespace.
    pub open spec fn is_blank(self) -> bool {
        forall|i: int| 0 <= i < self.spans.len() ==> seq_blank(#[trigger] self.spans[i].text)
    }

    /// The concatenated text of all spans, without formatting.
    pub open spec fn plain_text(self) -> Seq<char> {
        cat_span_texts(self.spans)
    }
}

/// The concatenation of the texts of a sequence of spans.
pub open spec fn cat_span_texts(spans: Seq<SpanV>) -> Seq<char>
    decreases spans.len(),
{
    if spans.len() == 0 {
        Seq::empty()
    } else {
        cat_span_texts(spans.drop_last()) + spans.last().text
    }
}

/// View of `ContentBlock`.
pub enum BlockV {
    Paragraph(TextV),
    Heading { level: u8, content: TextV },
    List { ordered: bool, items: Seq<TextV> },
    Quote(TextV),
    Code { language: Option<Seq<char>>, content: Seq<char> },
    Link { url: Seq<char>, text: Seq<char> },
    Image { url: Seq<char>, alt: Option<Seq<char>> },
    Raw(Seq<char>),
}

/// View of `Comment`.
pub struct CommentV {
    pub author: Seq<char>,
    pub content: Seq<BlockV>,
    pub upvotes: u32,
    pub downvotes: u32,
    pub timestamp: Option<Seq<char>>,
}

/// View of `ArticleMetadata`.
pub struct ArticleMetaV {
    pub published_date: Option<Seq<char>>,
    pub author: Option<Seq<char>>,
    pub url: Option<Seq<char>>,
    pub feed_name: Seq<char>,
}

/// View of `Article`.
pub struct ArticleV {
    pub title: Seq<char>,
    pub metadata: ArticleMetaV,
    pub comments: Seq<CommentV>,
    pub content: Seq<BlockV>,
}

/// View of `Feed`.
pub struct FeedV {
    pub name: Seq<char>,
    pub description: Option<Seq<char>>,
    pub url: Option<Seq<char>>,
    pub articles: Seq<ArticleV>,
}

/// View of `DocumentMetadata`.
pub struct DocMetaV {
    pub title: Seq<char>,
    pub author: Seq<char>,
    pub description: Option<Seq<char>>,
    pub generated_at: Seq<char>,
}

/// View of `Document`.
pub struct DocumentV {
    pub metadata: DocMetaV,
    pub front_page: Option<Seq<BlockV>>,
    pub feeds: Seq<FeedV>,
}

/// View of `Headline`.
pub struct HeadlineV {
    pub title: Seq<char>,
    pub published_date: Option<Seq<char>>,
    pub source_name: Seq<char>,
    pub url: Option<Seq<char>>,
}

/// View of an `Option<String>`.
pub open spec fn opt_str_view(o: Option<String>) -> Option<Seq<char>> {
    match o {
        Some(s) => Some(s@),
        None => None,
    }
}

// ===== The model types =====

/// Inline formatting flags of one span.  At most the attributes of a single
/// enclosing tag are set: formatting is not compositional.
#[derive(Debug, Clone, PartialEq)]
pub struct TextFormatting {
    pub bold: bool,
    pub italic: bool,
    pub code: bool,
    pub link: Option<String>,
}

impl View for TextFormatting {
    type V = FormattingV;

    open spec fn view(&self) -> FormattingV {
        FormattingV {
            bold: self.bold,
            italic: self.italic,
            code: self.code,
            link: opt_str_view(self.link),
        }
    }
}

impl DeepView for TextFormatting {
    type V = FormattingV;

    open spec fn deep_view(&self) -> FormattingV {
        self.view()
    }
}

impl Default for TextFormatting {
    /// All flags cleared, no link.
    fn default() -> (r: TextFormatting)
        ensures
            r@ == FormattingV::plain(),
    {
        TextFormatting { bold: false, italic: false, code: false, link: None }
    }
}

/// One inline run of text with its formatting.
#[derive(Debug, Clone, PartialEq)]
pub struct TextSpan {
    pub text: String,
    pub formatting: TextFormatting,
}

impl View for TextSpan {
    type V = SpanV;

    open spec fn view(&self) -> SpanV {
        SpanV { text: self.text@, formatting: self.formatting@ }
    }
}

impl DeepView for TextSpan {
    type V = SpanV;

    open spec fn deep_view(&self) -> SpanV {
        self.view()
    }
}

/// The ordered inline content of a block; span order is reading order.
#[derive(Debug, Clone, PartialEq)]
pub struct TextContent {
    pub spans: Vec<TextSpan>,
}

impl View for TextContent {
    type V = TextV;

    open spec fn view(&self) -> TextV {
        TextV { spans: self.spans.deep_view() }
    }
}

impl DeepView for TextContent {
    type V = TextV;

    open spec fn deep_view(&self) -> TextV {
        self.view()
    }
}

/// One structural unit of content.
#[derive(Debug, Clone, PartialEq)]
pub enum ContentBlock {
    Paragraph(TextContent),
    Heading { level: u8, content: TextContent },
    List { ordered: bool, items: Vec<TextContent> },
    Quote(TextContent),
    Code { language: Option<String>, content: String },
    Link { url: String, text: String },
    Image { url: String, alt: Option<String> },
    Raw(String),
}

impl View for ContentBlock {
    type V = BlockV;

    open spec fn view(&self) -> BlockV {
        match self {
            ContentBlock::Paragraph(c) => BlockV::Paragraph(c@),
            ContentBlock::Heading { level, content } => BlockV::Heading {
                level: *level,
                content: content@,
            },
            ContentBlock::List { ordered, items } => BlockV::List {
                ordered: *ordered,
                items: items.deep_view(),
            },
            ContentBlock::Quote(c) => BlockV::Quote(c@),
            ContentBlock::Code { language, content } => BlockV::Code {
                language: opt_str_view(*language),
                content: content@,
            },
            ContentBlock::Link { url, text } => BlockV::Link { url: url@, text: text@ },
            ContentBlock::Image { url, alt } => BlockV::Image {
                url: url@,
                alt: opt_str_view(*alt),
            },
            ContentBlock::Raw(s) => BlockV::Raw(s@),
        }
    }
}

impl DeepView for ContentBlock {
    type V = BlockV;

    open spec fn deep_view(&self) -> BlockV {
        self.view()
    }
}

/// A reader comment attached to an article.
#[derive(Debug, Clone, PartialEq)]
pub struct Comment {
    pub author: String,
    pub content: Vec<ContentBlock>,
    pub upvotes: u32,
    pub downvotes: u32,
    pub timestamp: Option<String>,
}

impl View for Comment {
    type V = CommentV;

    open spec fn view(&self) -> CommentV {
        CommentV {
            author: self.author@,
            content: self.content.deep_view(),
            upvotes: self.upvotes,
            downvotes: self.downvotes,
            timestamp: opt_str_view(self.timestamp),
        }
    }
}

impl DeepView for Comment {
    type V = CommentV;

    open spec fn deep_view(&self) -> CommentV {
        self.view()
    }
}

/// Source metadata of one article.
#[derive(Debug, Clone, PartialEq)]
pub struct ArticleMetadata {
    pub published_date: Option<String>,
    pub author: Option<String>,
    pub url: Option<String>,
    pub feed_name: String,
}

impl View for ArticleMetadata {
    type V = ArticleMetaV;

    open spec fn view(&self) -> ArticleMetaV {
        ArticleMetaV {
            published_date: opt_str_view(self.published_date),
            author: opt_str_view(self.author),
            url: opt_str_view(self.url),
            feed_name: self.feed_name@,
        }
    }
}

impl DeepView for ArticleMetadata {
    type V = ArticleMetaV;

    open spec fn deep_view(&self) -> ArticleMetaV {
        self.view()
    }
}

/// One article: title, metadata, body blocks and comments.
#[derive(Debug, Clone, PartialEq)]
pub struct Article {
    pub title: String,
    pub metadata: ArticleMetadata,
    pub comments: Vec<Comment>,
    pub content: Vec<ContentBlock>,
}

impl View for Article {
    type V = ArticleV;

    open spec fn view(&self) -> ArticleV {
        ArticleV {
            title: self.title@,
            metadata: self.metadata@,
            comments: self.comments.deep_view(),
            content: self.content.deep_view(),
        }
    }
}

impl DeepView for Article {
    type V = ArticleV;

    open spec fn deep_view(&self) -> ArticleV {
        self.view()
    }
}

/// One feed with its articles.
#[derive(Debug, Clone, PartialEq)]
pub struct Feed {
    pub name: String,
    pub description: Option<String>,
    pub url: Option<String>,
    pub articles: Vec<Article>,
}

impl View for Feed {
    type V = FeedV;

    open spec fn view(&self) -> FeedV {
        FeedV {
            name: self.name@,
            description: opt_str_view(self.description),
            url: opt_str_view(self.url),
            articles: self.articles.deep_view(),
        }
    }
}

impl DeepView for Feed {
    type V = FeedV;

    open spec fn deep_view(&self) -> FeedV {
        self.view()
    }
}

/// Document-level metadata.
#[derive(Debug, Clone, PartialEq)]
pub struct DocumentMetadata {
    pub title: String,
    pub author: String,
    pub description: Option<String>,
    pub generated_at: String,
}

impl View for DocumentMetadata {
    type V = DocMetaV;

    open spec fn view(&self) -> DocMetaV {
        DocMetaV {
            title: self.title@,
            author: self.author@,
            description: opt_str_view(self.description),
            generated_at: self.generated_at@,
        }
    }
}

impl DeepView for DocumentMetadata {
    type V = DocMetaV;

    open spec fn deep_view(&self) -> DocMetaV {
        self.view()
    }
}

/// The top-level document: metadata, an optional front page and the feeds.
#[derive(Debug, Clone, PartialEq)]
pub struct Document {
    pub metadata: DocumentMetadata,
    pub front_page: Option<Vec<ContentBlock>>,
    pub feeds: Vec<Feed>,
}

impl View for Document {
    type V = DocumentV;

    open spec fn view(&self) -> DocumentV {
        DocumentV {
            metadata: self.metadata@,
            front_page: match self.front_page {
                Some(blocks) => Some(blocks.deep_view()),
                None => None,
            },
            feeds: self.feeds.deep_view(),
        }
    }
}

impl DeepView for Document {
    type V = DocumentV;

    open spec fn deep_view(&self) -> DocumentV {
        self.view()
    }
}

/// A headline extracted from an article, for summaries.
#[derive(Debug, Clone, PartialEq)]
pub struct Headline {
    pub title: String,
    pub published_date: Option<String>,
    pub source_name: String,
    pub url: Option<String>,
}

impl View for Headline {
    type V = HeadlineV;

    open spec fn view(&self) -> HeadlineV {
        HeadlineV {
            title: self.title@,
            published_date: opt_str_view(self.published_date),
            source_name: self.source_name@,
            url: opt_str_view(self.url),
        }
    }
}

impl DeepView for Headline {
    type V = HeadlineV;

    open spec fn deep_view(&self) -> HeadlineV {
        self.view()
    }
}

// ===== Helpers =====

/// Clones an optional string, field for field.
pub(crate) fn clone_opt_string(o: &Option<String>) -> (r: Option<String>)
    ensures
        opt_str_view(r) == opt_str_view(*o),
{
    match o {
        Some(s) => Some(s.clone()),
        None => None,
    }
}


/// Moves all elements of `src` onto the end of `dst`.
pub(crate) fn append_all<T: DeepView>(dst: &mut Vec<T>, src: Vec<T>)
    ensures
        final(dst).deep_view() == old(dst).deep_view() + src.deep_view(),
{
    let ghost d0 = dst.deep_view();
    let ghost s0 = src.deep_view();
    let mut src = src;
    dst.append(&mut src);
    proof {
        assert(dst.deep_view() =~= d0 + s0);
    }
}

/// The number of articles over a sequence of feeds.
pub open spec fn count_articles(feeds: Seq<FeedV>) -> nat
    decreases feeds.len(),
{
    if feeds.len() == 0 {
        0
    } else {
        count_articles(feeds.drop_last()) + feeds.last().articles.len()
    }
}


/// A prefix of the feeds holds at most as many articles as the whole.
pub proof fn lemma_count_articles_prefix(feeds: Seq<FeedV>, i: int)
    requires
        0 <= i <= feeds.len(),
    ensures
        count_articles(feeds.take(i)) <= count_articles(feeds),
    decreases feeds.len() - i,
{
    if i == feeds.len() {
        assert(feeds.take(i) =~= feeds);
    } else {
        lemma_count_articles_prefix(feeds, i + 1);
        assert(feeds.take(i + 1).drop_last() =~= feeds.take(i));
        assert(feeds.take(i + 1).last() == feeds[i]);
        assert(count_articles(feeds.take(i + 1)) == count_articles(feeds.take(i))
            + feeds[i].articles.len());
    }
}

/// The headlines of a sequence of feeds, one per article, in order.
pub open spec fn headlines_of(feeds: Seq<FeedV>) -> Seq<HeadlineV>
    decreases feeds.len(),
{
    if feeds.len() == 0 {
        Seq::empty()
    } else {
        headlines_of(feeds.drop_last()) + feeds.last().articles.map_values(
            |a: ArticleV| headline_of_article(a),
        )
    }
}

/// The headline of one article.
pub open spec fn headline_of_article(a: ArticleV) -> HeadlineV {
    HeadlineV {
        title: a.title,
        published_date: a.metadata.published_date,
        source_name: a.metadata.feed_name,
        url: a.metadata.url,
    }
}

// ===== Constructors and methods =====

/// Relies on chrono's Utc::now().to_rfc3339(): the current time formatted as
/// RFC 3339.  The result depends on the clock, so nothing is promised of it.
#[verifier::external_body]
fn now_rfc3339() -> String {
    chrono::Utc::now().to_rfc3339()
}

impl TextContent {
    /// A single unstyled span holding the given text.
    pub fn plain(text: String) -> (r: TextContent)
        ensures
            r@.spans == seq![SpanV { text: text@, formatting: FormattingV::plain() }],
    {
        let spans = vec![TextSpan { text, formatting: TextFormatting::default() }];
        let r = TextContent { spans };
        proof {
            assert(r@.spans =~= seq![
                SpanV { text: text@, formatting: FormattingV::plain() },
            ]);
        }
        r
    }

    /// Content made of exactly the given spans.
    pub fn from_spans(spans: Vec<TextSpan>) -> (r: TextContent)
        ensures
            r@.spans == spans.deep_view(),
    {
        TextContent { spans }
    }

    /// True iff every span's text is all-whitespace.  Renderers skip blocks
    /// whose content is empty in this sense.
    pub fn is_empty(&self) -> (r: bool)
        ensures
            r == self@.is_blank(),
    {
        let mut i: usize = 0;
        while i < self.spans.len()
            invariant
                i <= self.spans.len(),
                forall|j: int| 0 <= j < i ==> seq_blank(#[trigger] self@.spans[j].text),
        decreases self.spans.len() - i,
        {
            let s: &String = &self.spans[i].text;
            proof {
                assert(self@.spans[i as int] == self.spans@[i as int].deep_view());
            }
            let n = s.as_str().unicode_len();
            let mut k: usize = 0;
            while k < n
                invariant
                    i < self.spans.len(),
                    s@ == self@.spans[i as int].text,
                    n == s@.len(),
                    k <= n,
                    forall|j: int| 0 <= j < k ==> is_unicode_ws_at(s@, j),
                decreases n - k,
            {
                if !char_is_ws(s.as_str().get_char(k)) {
                    proof {
                        assert(!seq_blank(self@.spans[i as int].text));
                    }
                    return false;
                }
                k = k + 1;
            }
            proof {
                assert forall|j: int| 0 <= j < s@.len() implies crate::strs::is_unicode_ws(
                    s@[j],
                ) by {
                    assert(is_unicode_ws_at(s@, j));
                }
                assert(seq_blank(self@.spans[i as int].text));
            }
            i = i + 1;
        }
        true
    }

    /// The concatenated raw text of all spans.
    pub fn to_plain_text(&self) -> (r: String)
        ensures
            r@ == self@.plain_text(),
    {
        let mut out: Vec<char> = Vec::new();
        let mut i: usize = 0;
        while i < self.spans.len()
            invariant
                i <= self.spans.len(),
                out@ == cat_span_texts(self@.spans.take(i as int)),
            decreases self.spans.len() - i,
        {
            push_str_chars(&mut out, self.spans[i].text.as_str());
            proof {
                let taken = self@.spans.take(i + 1);
                assert(taken.drop_last() =~= self@.spans.take(i as int));
                assert(taken.last() == self@.spans[i as int]);
            }
            i = i + 1;
        }
        proof {
            assert(self@.spans.take(self.spans@.len() as int) =~= self@.spans);
        }
        chars_to_string(out)
    }
}

/// Whether the character at one index of a sequence is whitespace.
pub open spec fn is_unicode_ws_at(s: Seq<char>, j: int) -> bool {
    crate::strs::is_unicode_ws(s[j])
}

impl TextSpan {
    /// An unstyled span.
    pub fn plain(text: String) -> (r: TextSpan)
        ensures
            r@ == (SpanV { text: text@, formatting: FormattingV::plain() }),
    {
        TextSpan { text, formatting: TextFormatting::default() }
    }

    /// A bold span.
    pub fn bold(text: String) -> (r: TextSpan)
        ensures
            r@ == (SpanV {
                text: text@,
                formatting: FormattingV { bold: true, ..FormattingV::plain() },
            }),
    {
        TextSpan {
            text,
            formatting: TextFormatting { bold: true, ..TextFormatting::default() },
        }
    }

    /// An italic span.
    pub fn italic(text: String) -> (r: TextSpan)
        ensures
            r@ == (SpanV {
                text: text@,
                formatting: FormattingV { italic: true, ..FormattingV::plain() },
            }),
    {
        TextSpan {
            text,
            formatting: TextFormatting { italic: true, ..TextFormatting::default() },
        }
    }

    /// A code span.
    pub fn code(text: String) -> (r: TextSpan)
        ensures
            r@ == (SpanV {
                text: text@,
                formatting: FormattingV { code: true, ..FormattingV::plain() },
            }),
    {
        TextSpan {
            text,
            formatting: TextFormatting { code: true, ..TextFormatting::default() },
        }
    }

    /// A link span carrying its target.
    pub fn link(text: String, url: String) -> (r: TextSpan)
        ensures
            r@ == (SpanV {
                text: text@,
                formatting: FormattingV { link: Some(url@), ..FormattingV::plain() },
            }),
    {
        TextSpan {
            text,
            formatting: TextFormatting { link: Some(url), ..TextFormatting::default() },
        }
    }
}

impl Document {
    /// A fresh document with the given title and author; the generation
    /// timestamp is taken from the clock.
    pub fn new(title: String, author: String) -> (r: Document)
        ensures
            r@.metadata.title == title@,
            r@.metadata.author == author@,
            r@.metadata.description is None,
            r@.front_page is None,
            r@.feeds == Seq::<FeedV>::empty(),
    {
        let r = Document {
            metadata: DocumentMetadata {
                title,
                author,
                description: None,
                generated_at: now_rfc3339(),
            },
            front_page: None,
            feeds: Vec::new(),
        };
        proof {
            assert(r@.feeds =~= Seq::<FeedV>::empty());
        }
        r
    }

    /// Installs the front page blocks.
    pub fn set_front_page(&mut self, front_page: Vec<ContentBlock>)
        ensures
            final(self)@ == (DocumentV {
                front_page: Some(front_page.deep_view()),
                ..old(self)@
            }),
    {
        self.front_page = Some(front_page);
    }

    /// Appends one feed.
    pub fn add_feed(&mut self, feed: Feed)
        ensures
            final(self)@ == (DocumentV {
                feeds: old(self)@.feeds.push(feed@),
                ..old(self)@
            }),
    {
        self.feeds.push(feed);
        proof {
            assert(self@.feeds =~= old(self)@.feeds.push(feed@));
        }
    }

    /// The number of articles over all feeds, saturating at `usize::MAX`.
    pub fn total_articles(&self) -> (r: usize)
        ensures
            r == if count_articles(self@.feeds) <= usize::MAX {
                count_articles(self@.feeds) as int
            } else {
                usize::MAX as int
            },
    {
        let mut total: usize = 0;
        let mut i: usize = 0;
        while i < self.feeds.len()
            invariant
                i <= self.feeds.len(),
                total == if count_articles(self@.feeds.take(i as int)) <= usize::MAX {
                    count_articles(self@.feeds.take(i as int)) as int
                } else {
                    usize::MAX as int
                },
            decreases self.feeds.len() - i,
        {
            let n = self.feeds[i].articles.len();
            proof {
                let taken = self@.feeds.take(i + 1);
                assert(taken.drop_last() =~= self@.feeds.take(i as int));
                assert(taken.last() == self@.feeds[i as int]);
            }
            if total <= usize::MAX - n {
                total = total + n;
            } else {
                total = usize::MAX;
            }
            i = i + 1;
        }
        proof {
            assert(self@.feeds.take(self.feeds@.len() as int) =~= self@.feeds);
        }
        total
    }

    /// One headline per article, over all feeds, in order.
    pub fn extract_headlines(&self) -> (r: Vec<Headline>)
        ensures
            r.deep_view() == headlines_of(self@.feeds),
    {
        let mut r: Vec<Headline> = Vec::new();
        let mut i: usize = 0;
        while i < self.feeds.len()
            invariant
                i <= self.feeds.len(),
                r.deep_view() == headlines_of(self@.feeds.take(i as int)),
            decreases self.feeds.len() - i,
        {
            let feed = &self.feeds[i];
            let mut j: usize = 0;
            while j < feed.articles.len()
                invariant
                    i < self.feeds.len(),
                    j <= feed.articles.len(),
                    feed == &self.feeds[i as int],
                    r.deep_view() == headlines_of(self@.feeds.take(i as int)) + feed@
                        .articles.take(j as int).map_values(
                        |a: ArticleV| headline_of_article(a),
                    ),
                decreases feed.articles.len() - j,
            {
                let article = &feed.articles[j];
                proof {
                    assert(feed@.articles[j as int] == feed.articles@[j as int].deep_view());
                }
                let h = Headline {
                    title: article.title.clone(),
                    published_date: clone_opt_string(&article.metadata.published_date),
                    source_name: article.metadata.feed_name.clone(),
                    url: clone_opt_string(&article.metadata.url),
                };
                let ghost pre = r.deep_view();
                proof {
                    assert(h@ == headline_of_article(feed@.articles[j as int]));
                }
                r.push(h);
                proof {
                    let f = feed@;
                    assert(r.deep_view() =~= pre.push(h.deep_view()));
                    assert(f.articles.take(j + 1).map_values(
                        |a: ArticleV| headline_of_article(a),
                    ) =~= f.articles.take(j as int).map_values(
                        |a: ArticleV| headline_of_article(a),
                    ).push(headline_of_article(f.articles[j as int])));
                    assert(r.deep_view() =~= headlines_of(self@.feeds.take(i as int)) + f
                        .articles.take(j + 1).map_values(
                        |a: ArticleV| headline_of_article(a),
                    ));
                }
                j = j + 1;
            }
            proof {
                let f = feed@;
                assert(f.articles.take(feed.articles@.len() as int) =~= f.articles);
                let taken = self@.feeds.take(i + 1);
                assert(taken.drop_last() =~= self@.feeds.take(i as int));
                assert(taken.last() == f);
                assert(r.deep_view() =~= headlines_of(self@.feeds.take(i + 1)));
            }
            i = i + 1;
        }
        proof {
            assert(self@.feeds.take(self.feeds@.len() as int) =~= self@.feeds);
        }
        r
    }
}

impl Feed {
    /// A feed with the given name and nothing else.
    pub fn new(name: String) -> (r: Feed)
        ensures
            r@ == (FeedV {
                name: name@,
                description: None,
                url: None,
                articles: Seq::<ArticleV>::empty(),
            }),
    {
        let r = Feed { name, description: None, url: None, articles: Vec::new() };
        proof {
            assert(r@.articles =~= Seq::<ArticleV>::empty());
        }
        r
    }

    /// The same feed with a description.
    pub fn with_description(self, description: String) -> (r: Feed)
        ensures
            r@ == (FeedV { description: Some(description@), ..self@ }),
    {
        Feed { description: Some(description), ..self }
    }

    /// The same feed with a url.
    pub fn with_url(self, url: String) -> (r: Feed)
        ensures
            r@ == (FeedV { url: Some(url@), ..self@ }),
    {
        Feed { url: Some(url), ..self }
    }

    /// Appends one article.
    pub fn add_article(&mut self, article: Article)
        ensures
            final(self)@ == (FeedV {
                articles: old(self)@.articles.push(article@),
                ..old(self)@
            }),
    {
        self.articles.push(article);
        proof {
            assert(self@.articles =~= old(self)@.articles.push(article@));
        }
    }
}

impl Article {
    /// An article with the given title, attributed to a feed, and no
    /// content yet.
    pub fn new(title: String, feed_name: String) -> (r: Article)
        ensures
            r@ == (ArticleV {
                title: title@,
                metadata: ArticleMetaV {
                    published_date: None,
                    author: None,
                    url: None,
                    feed_name: feed_name@,
                },
                comments: Seq::<CommentV>::empty(),
                content: Seq::<BlockV>::empty(),
            }),
    {
        let r = Article {
            title,
            metadata: ArticleMetadata {
                published_date: None,
                author: None,
                url: None,
                feed_name,
            },
            comments: Vec::new(),
            content: Vec::new(),
        };
        proof {
            assert(r@.comments =~= Seq::<CommentV>::empty());
            assert(r@.content =~= Seq::<BlockV>::empty());
        }
        r
    }

    /// The same article with its body blocks.
    pub fn with_content(self, content: Vec<ContentBlock>) -> (r: Article)
        ensures
            r@ == (ArticleV { content: content.deep_view(), ..self@ }),
    {
        Article { content, ..self }
    }

    /// The same article with a publication date.
    pub fn with_published_date(self, date: String) -> (r: Article)
        ensures
            r@ == (ArticleV {
                metadata: ArticleMetaV { published_date: Some(date@), ..self@.metadata },
                ..self@
            }),
    {
        let Article { title, metadata, comments, content } = self;
        Article {
            title,
            metadata: ArticleMetadata { published_date: Some(date), ..metadata },
            comments,
            content,
        }
    }

    /// The same article with a url.
    pub fn with_url(self, url: String) -> (r: Article)
        ensures
            r@ == (ArticleV {
                metadata: ArticleMetaV { url: Some(url@), ..self@.metadata },
                ..self@
            }),
    {
        let Article { title, metadata, comments, content } = self;
        Article {
            title,
            metadata: ArticleMetadata { url: Some(url), ..metadata },
            comments,
            content,
        }
    }

    /// Appends one comment.
    pub fn add_comment(&mut self, comment: Comment)
        ensures
            final(self)@ == (ArticleV {
                comments: old(self)@.comments.push(comment@),
                ..old(self)@
            }),
    {
        self.comments.push(comment);
        proof {
            assert(self@.comments =~= old(self)@.comments.push(comment@));
        }
    }
}

} // verus!
