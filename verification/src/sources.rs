//! Source kinds and the logic that turns their fetched payloads into
//! documents.  Fetching itself happens outside the library; everything
//! from received data to the document model is verified.

use crate::ast::{
    opt_str_view, Article, ArticleMetaV, ArticleV, Comment, CommentV, Document, DocumentMetadata,
    Feed,
};
use crate::strs::{chars_to_string, push_str_chars, str_eq_str, str_to_chars};
use vstd::prelude::*;

verus! {

// ===== Source configuration =====

/// View of `SourceConfig`.
pub enum SourceConfigV {
    Rss { url: Seq<char>, description: Seq<char> },
    ArsTechnica { api_token: Option<Seq<char>> },
    HackerNews,
}

/// How one source is reached.
#[derive(Debug, Clone, PartialEq)]
pub enum SourceConfig {
    Rss { url: String, description: String },
    ArsTechnica { api_token: Option<String> },
    HackerNews,
}

impl View for SourceConfig {
    type V = SourceConfigV;

    open spec fn view(&self) -> SourceConfigV {
        match self {
            SourceConfig::Rss { url, description } => SourceConfigV::Rss {
                url: url@,
                description: description@,
            },
            SourceConfig::ArsTechnica { api_token } => SourceConfigV::ArsTechnica {
                api_token: opt_str_view(*api_token),
            },
            SourceConfig::HackerNews => SourceConfigV::HackerNews,
        }
    }
}

impl DeepView for SourceConfig {
    type V = SourceConfigV;

    open spec fn deep_view(&self) -> SourceConfigV {
        self.view()
    }
}

impl SourceConfig {
    /// The kind's display name.
    pub fn name(&self) -> (r: &str)
        ensures
            r@ == match *self {
                SourceConfig::Rss { .. } => "RSS Feed"@,
                SourceConfig::ArsTechnica { .. } => "Ars Technica"@,
                SourceConfig::HackerNews => "Hacker News"@,
            },
    {
        match self {
            SourceConfig::Rss { .. } => "RSS Feed",
            SourceConfig::ArsTechnica { .. } => "Ars Technica",
            SourceConfig::HackerNews => "Hacker News",
        }
    }

    /// A field-for-field copy.
    pub fn duplicate(&self) -> (r: SourceConfig)
        ensures
            r@ == self@,
    {
        match self {
            SourceConfig::Rss { url, description } => SourceConfig::Rss {
                url: url.clone(),
                description: description.clone(),
            },
            SourceConfig::ArsTechnica { api_token } => SourceConfig::ArsTechnica {
                api_token: crate::ast::clone_opt_string(api_token),
            },
            SourceConfig::HackerNews => SourceConfig::HackerNews,
        }
    }
}

/// A plain RSS source.
#[derive(Debug, PartialEq)]
pub struct RssSource {
    pub url: String,
    pub description: String,
}

impl RssSource {
    /// A source at the given url.
    pub fn new(url: String, description: String) -> (r: RssSource)
        ensures
            r.url@ == url@,
            r.description@ == description@,
    {
        RssSource { url, description }
    }
}

/// The Ars Technica source: its RSS feed, with an optional token.
#[derive(Debug, PartialEq)]
pub struct ArsTechnicaSource {
    pub rss_source: RssSource,
}

impl ArsTechnicaSource {
    /// The source, with the token passed as a query when given.
    pub fn new(api_token: Option<String>) -> (r: ArsTechnicaSource)
        ensures
            r.rss_source.url@ == match opt_str_view(api_token) {
                Some(t) => "https://arstechnica.com/feed/?t="@ + t,
                None => "https://arstechnica.com/feed/"@,
            },
            r.rss_source.description@ == "Technology news and insights"@,
    {
        let url = match &api_token {
            Some(t) => {
                let mut out: Vec<char> = Vec::new();
                push_str_chars(&mut out, "https://arstechnica.com/feed/?t=");
                push_str_chars(&mut out, t.as_str());
                chars_to_string(out)
            },
            None => chars_to_string(str_to_chars("https://arstechnica.com/feed/")),
        };
        ArsTechnicaSource {
            rss_source: RssSource::new(
                url,
                chars_to_string(str_to_chars("Technology news and insights")),
            ),
        }
    }
}

/// The Hacker News best-comments source.
#[derive(Debug, PartialEq)]
pub struct HackerNewsSource;

// ===== Parent-title extraction =====

/// The pattern between a commenter's name and the quoted parent title.
pub open spec fn in_quote_pat() -> Seq<char> {
    seq![' ', 'i', 'n', ' ', '"']
}

/// The last index of a double quote, if any.
pub open spec fn last_quote(s: Seq<char>) -> Option<int>
    decreases s.len(),
{
    if s.len() == 0 {
        None
    } else if s.last() == '"' {
        Some(s.len() - 1)
    } else {
        last_quote(s.drop_last())
    }
}

proof fn lemma_last_quote(s: Seq<char>)
    ensures
        match last_quote(s) {
            Some(i) => 0 <= i < s.len() && s[i] == '"' && forall|j: int| i < j < s.len()
                ==> s[j] != '"',
            None => forall|j: int| 0 <= j < s.len() ==> s[j] != '"',
        },
    decreases s.len(),
{
    if s.len() > 0 && s.last() != '"' {
        lemma_last_quote(s.drop_last());
        match last_quote(s.drop_last()) {
            Some(i) => {
                assert(s.drop_last()[i] == s[i]);
                assert forall|j: int| i < j < s.len() implies s[j] != '"' by {
                    if j < s.len() - 1 {
                        assert(s.drop_last()[j] == s[j]);
                    }
                }
            },
            None => {
                assert forall|j: int| 0 <= j < s.len() implies s[j] != '"' by {
                    if j < s.len() - 1 {
                        assert(s.drop_last()[j] == s[j]);
                    }
                }
            },
        }
    }
}

/// The parent article title of a comment headline shaped like
/// `New comment by user in "Title"`; the whole headline when the shape is
/// not found.
pub open spec fn spec_parent_title(t: Seq<char>) -> Seq<char> {
    match crate::strs::find_sub(t, in_quote_pat()) {
        Some(start) => match last_quote(t) {
            Some(end) => if end > start + 5 {
                t.subrange(start + 5, end)
            } else {
                t
            },
            None => t,
        },
        None => t,
    }
}

impl HackerNewsSource {
    /// A fresh source.
    pub fn new() -> HackerNewsSource {
        HackerNewsSource
    }

    /// Extracts the quoted parent title from a comment headline, falling
    /// back to the whole headline.
    pub fn extract_parent_title(&self, title: &str) -> (r: String)
        ensures
            r@ == spec_parent_title(title@),
    {
        let v = str_to_chars(title);
        let n = v.len();
        proof {
            crate::strs::lemma_find_sub(v@, in_quote_pat());
        }
        // find the first " in \"" occurrence
        let mut start: usize = 0;
        let mut found: bool = false;
        while !found && n - start >= 5
            invariant
                n == v@.len(),
                start <= n,
                !found ==> forall|j: int| 0 <= j < start ==> !crate::strs::sub_at(
                    v@,
                    in_quote_pat(),
                    j,
                ),
                found ==> start + 5 <= n && crate::strs::sub_at(v@, in_quote_pat(), start as int)
                    && forall|j: int| 0 <= j < start ==> !crate::strs::sub_at(
                    v@,
                    in_quote_pat(),
                    j,
                ),
            decreases n - start + (if found {
                0int
            } else {
                1int
            }),
        {
            if v[start] == ' ' && v[start + 1] == 'i' && v[start + 2] == 'n' && v[start + 3] == ' '
                && v[start + 4] == '"' {
                found = true;
                proof {
                    assert(v@.subrange(start as int, start + 5) =~= in_quote_pat());
                    assert(crate::strs::sub_at(v@, in_quote_pat(), start as int));
                }
            } else {
                proof {
                    assert(!(v@.subrange(start as int, start + 5) =~= in_quote_pat()));
                    assert(!crate::strs::sub_at(v@, in_quote_pat(), start as int));
                }
                start = start + 1;
            }
        }
        if !found {
            proof {
                assert forall|j: int| 0 <= j < v@.len() implies !crate::strs::sub_at(
                    v@,
                    in_quote_pat(),
                    j,
                ) by {
                    if j < start {
                    } else {
                        assert(j + 5 > v@.len());
                    }
                }
                assert(crate::strs::find_sub(v@, in_quote_pat()) is None);
            }
            return chars_to_string(v);
        }
        proof {
            assert(crate::strs::find_sub(v@, in_quote_pat()) == Some(start as int));
            lemma_last_quote(v@);
        }
        // find the last '"'
        let mut end: usize = n;
        let mut have_end: bool = false;
        while !have_end && end > 0
            invariant
                n == v@.len(),
                end <= n,
                !have_end ==> forall|j: int| end <= j < n ==> v@[j] != '"',
                have_end ==> end < n && v@[end as int] == '"' && forall|j: int| end < j < n
                    ==> v@[j] != '"',
            decreases end + (if have_end {
                0int
            } else {
                1int
            }),
        {
            if v[end - 1] == '"' {
                end = end - 1;
                have_end = true;
            } else {
                end = end - 1;
            }
        }
        if !have_end {
            proof {
                assert(last_quote(v@) is None);
            }
            return chars_to_string(v);
        }
        proof {
            assert(last_quote(v@) == Some(end as int));
        }
        if end > start + 5 {
            let mut out: Vec<char> = Vec::new();
            let mut t: usize = start + 5;
            while t < end
                invariant
                    start + 5 <= t <= end <= n,
                    n == v@.len(),
                    out@ == v@.subrange(start + 5, t as int),
                decreases end - t,
            {
                out.push(v[t]);
                proof {
                    assert(v@.subrange(start + 5, t + 1) =~= v@.subrange(start + 5, t as int).push(
                        v@[t as int],
                    ));
                }
                t = t + 1;
            }
            chars_to_string(out)
        } else {
            chars_to_string(v)
        }
    }
}

// ===== Hacker News best-comments grouping =====

/// View of `HnItem`.
pub struct HnItemV {
    pub title: Seq<char>,
    pub content_html: Seq<char>,
    pub url: Seq<char>,
    pub date_published: Seq<char>,
    pub author_name: Seq<char>,
}

/// One fetched best-comments feed item, as plain values.
#[derive(Debug, Clone, PartialEq)]
pub struct HnItem {
    pub title: String,
    pub content_html: String,
    pub url: String,
    pub date_published: String,
    pub author_name: String,
}

impl View for HnItem {
    type V = HnItemV;

    open spec fn view(&self) -> HnItemV {
        HnItemV {
            title: self.title@,
            content_html: self.content_html@,
            url: self.url@,
            date_published: self.date_published@,
            author_name: self.author_name@,
        }
    }
}

impl DeepView for HnItem {
    type V = HnItemV;

    open spec fn deep_view(&self) -> HnItemV {
        self.view()
    }
}

/// The part of a comment's url before the first `#`.
pub open spec fn before_hash(u: Seq<char>) -> Seq<char> {
    match crate::strs::find_sub(u, seq!['#']) {
        Some(i) => u.take(i),
        None => u,
    }
}

/// The comment one feed item yields; the best-comments feed carries no
/// scores.
pub open spec fn hn_comment(it: HnItemV) -> CommentV {
    CommentV {
        author: it.author_name,
        content: crate::parser::parse_result(it.content_html),
        upvotes: 0,
        downvotes: 0,
        timestamp: Some(it.date_published),
    }
}

/// The article opened by the first comment on a parent title.
pub open spec fn hn_new_article(it: HnItemV, feed_name: Seq<char>) -> ArticleV {
    ArticleV {
        title: spec_parent_title(it.title),
        metadata: ArticleMetaV {
            published_date: Some(it.date_published),
            author: None,
            url: Some(before_hash(it.url)),
            feed_name,
        },
        comments: seq![hn_comment(it)],
        content: Seq::empty(),
    }
}

/// The first article with the given title, if any.
pub open spec fn idx_of_title(arts: Seq<ArticleV>, t: Seq<char>) -> Option<int>
    decreases arts.len(),
{
    if arts.len() == 0 {
        None
    } else if arts.first().title == t {
        Some(0)
    } else {
        match idx_of_title(arts.drop_first(), t) {
            Some(i) => Some(i + 1),
            None => None,
        }
    }
}

proof fn lemma_idx_of_title(arts: Seq<ArticleV>, t: Seq<char>)
    ensures
        match idx_of_title(arts, t) {
            Some(i) => 0 <= i < arts.len() && arts[i].title == t && forall|j: int| 0 <= j < i
                ==> (#[trigger] arts[j]).title != t,
            None => forall|j: int| 0 <= j < arts.len() ==> (#[trigger] arts[j]).title != t,
        },
    decreases arts.len(),
{
    if arts.len() > 0 && arts.first().title != t {
        lemma_idx_of_title(arts.drop_first(), t);
        match idx_of_title(arts.drop_first(), t) {
            Some(i) => {
                assert(arts.drop_first()[i] == arts[i + 1]);
                assert forall|j: int| 0 <= j < i + 1 implies (#[trigger] arts[j]).title != t by {
                    if j > 0 {
                        assert(arts.drop_first()[j - 1] == arts[j]);
                    }
                }
            },
            None => {
                assert forall|j: int| 0 <= j < arts.len() implies (#[trigger] arts[j]).title
                    != t by {
                    if j > 0 {
                        assert(arts.drop_first()[j - 1] == arts[j]);
                    }
                }
            },
        }
    }
}

/// The articles grouped from the items, in first-seen parent-title order:
/// each item's comment lands on the first article carrying its parent
/// title, opening a new article when none does.
pub open spec fn hn_articles(items: Seq<HnItemV>, feed_name: Seq<char>) -> Seq<ArticleV>
    decreases items.len(),
{
    if items.len() == 0 {
        Seq::empty()
    } else {
        let pre = hn_articles(items.drop_last(), feed_name);
        let it = items.last();
        match idx_of_title(pre, spec_parent_title(it.title)) {
            Some(ix) => pre.update(
                ix,
                ArticleV { comments: pre[ix].comments.push(hn_comment(it)), ..pre[ix] },
            ),
            None => pre.push(hn_new_article(it, feed_name)),
        }
    }
}

impl HackerNewsSource {
    /// Groups fetched best-comments items into one feed of articles, each
    /// holding its comments, inside a fresh document.
    pub fn build_document(
        &self,
        items: &Vec<HnItem>,
        name: &String,
        title: String,
        author: String,
    ) -> (r: Document)
        ensures
            r@.metadata.title == title@,
            r@.metadata.author == author@,
            r@.metadata.description == Some("Hacker News digest with best comments"@),
            r@.front_page is None,
            r@.feeds.len() == 1,
            r@.feeds[0].name == name@,
            r@.feeds[0].description == Some("Hacker News best comments and parent articles"@),
            r@.feeds[0].url == Some("https://hnrss.org/bestcomments.jsonfeed"@),
            r@.feeds[0].articles == hn_articles(items.deep_view(), name@),
    {
        let ghost iv = items.deep_view();
        let mut articles: Vec<Article> = Vec::new();
        let mut i: usize = 0;
        proof {
            assert(iv.take(0) =~= Seq::<HnItemV>::empty());
            assert(articles.deep_view() =~= hn_articles(iv.take(0), name@));
        }
        while i < items.len()
            invariant
                i <= items@.len(),
                iv == items.deep_view(),
                iv.len() == items@.len(),
                forall|j: int| 0 <= j < items@.len() ==> iv[j] == (
                #[trigger] items@[j]).deep_view(),
                articles.deep_view() == hn_articles(iv.take(i as int), name@),
            decreases items.len() - i,
        {
            let it = &items[i];
            let parent = self.extract_parent_title(it.title.as_str());
            let comment = Comment {
                author: it.author_name.clone(),
                content: crate::parser::parse_html_to_content_blocks(it.content_html.as_str()),
                upvotes: 0,
                downvotes: 0,
                timestamp: Some(it.date_published.clone()),
            };
            proof {
                assert(comment@ =~= hn_comment(iv[i as int]));
                lemma_idx_of_title(articles.deep_view(), parent@);
            }
            // find the first article with this parent title
            let ghost pre = articles.deep_view();
            let mut ix: usize = 0;
            let mut found: bool = false;
            while !found && ix < articles.len()
                invariant
                    pre == articles.deep_view(),
                    pre.len() == articles@.len(),
                    ix <= articles@.len(),
                    forall|j: int| 0 <= j < articles@.len() ==> pre[j] == (
                    #[trigger] articles@[j]).deep_view(),
                    !found ==> forall|j: int| 0 <= j < ix ==> (#[trigger] pre[j]).title
                        != parent@,
                    found ==> ix < articles@.len() && pre[ix as int].title == parent@ && forall|
                        j: int,
                    | 0 <= j < ix ==> (#[trigger] pre[j]).title != parent@,
                decreases articles.len() - ix + (if found {
                    0int
                } else {
                    1int
                }),
            {
                if crate::strs::str_eq_str(articles[ix].title.as_str(), parent.as_str()) {
                    found = true;
                } else {
                    ix = ix + 1;
                }
            }
            if found {
                proof {
                    assert(idx_of_title(pre, parent@) == Some(ix as int));
                }
                let mut a = articles.remove(ix);
                a.add_comment(comment);
                articles.insert(ix, a);
                proof {
                    assert(articles.deep_view() =~= pre.update(
                        ix as int,
                        ArticleV {
                            comments: pre[ix as int].comments.push(hn_comment(iv[i as int])),
                            ..pre[ix as int]
                        },
                    ));
                }
            } else {
                proof {
                    assert(idx_of_title(pre, parent@) is None);
                }
                let url = before_hash_exec(&it.url);
                let mut a = Article::new(parent, name.clone());
                a.metadata.published_date = Some(it.date_published.clone());
                a.metadata.url = Some(url);
                a.add_comment(comment);
                articles.push(a);
                proof {
                    assert(a@ =~= hn_new_article(iv[i as int], name@));
                    assert(articles.deep_view() =~= pre.push(hn_new_article(iv[i as int], name@)));
                }
            }
            proof {
                assert(iv.take(i + 1).drop_last() =~= iv.take(i as int));
                assert(iv.take(i + 1).last() == iv[i as int]);
                assert(articles.deep_view() =~= hn_articles(iv.take(i + 1), name@));
            }
            i = i + 1;
        }
        proof {
            assert(iv.take(items@.len() as int) =~= iv);
        }
        let feed = Feed {
            name: name.clone(),
            description: Some(
                chars_to_string(str_to_chars("Hacker News best comments and parent articles")),
            ),
            url: Some(chars_to_string(str_to_chars("https://hnrss.org/bestcomments.jsonfeed"))),
            articles,
        };
        let mut document = Document::new(title, author);
        document.metadata.description = Some(
            chars_to_string(str_to_chars("Hacker News digest with best comments")),
        );
        document.add_feed(feed);
        proof {
            assert(document@.feeds =~= Seq::<crate::ast::FeedV>::empty().push(
                document@.feeds.last(),
            ));
        }
        document
    }
}

/// The url up to (but not including) its first `#`.
fn before_hash_exec(u: &String) -> (r: String)
    ensures
        r@ == before_hash(u@),
{
    let v = str_to_chars(u.as_str());
    let n = v.len();
    proof {
        crate::strs::lemma_find_sub(v@, seq!['#']);
    }
    let mut i: usize = 0;
    while i < n && v[i] != '#'
        invariant
            n == v@.len(),
            i <= n,
            forall|j: int| 0 <= j < i ==> v@[j] != '#',
        decreases n - i,
    {
        i = i + 1;
    }
    proof {
        assert forall|j: int| 0 <= j < i implies !crate::strs::sub_at(v@, seq!['#'], j) by {
            assert(v@.subrange(j, j + 1)[0] == v@[j]);
            if v@.subrange(j, j + 1) == seq!['#'] {
                assert(v@[j] == '#');
            }
        }
        if i < n {
            assert(v@.subrange(i as int, i + 1) =~= seq!['#']);
            assert(crate::strs::sub_at(v@, seq!['#'], i as int));
            assert(crate::strs::find_sub(v@, seq!['#']) == Some(i as int));
        } else {
            assert forall|j: int| !crate::strs::sub_at(v@, seq!['#'], j) by {
                if 0 <= j && j + 1 <= v@.len() {
                    assert(v@.subrange(j, j + 1)[0] == v@[j]);
                    if v@.subrange(j, j + 1) == seq!['#'] {
                        assert(v@[j] == '#');
                    }
                }
            }
            assert(crate::strs::find_sub(v@, seq!['#']) is None);
        }
    }
    let mut out: Vec<char> = Vec::new();
    let mut t: usize = 0;
    while t < i
        invariant
            i <= n,
            n == v@.len(),
            t <= i,
            out@ == v@.take(t as int),
        decreases i - t,
    {
        out.push(v[t]);
        proof {
            assert(v@.take(t + 1) =~= v@.take(t as int).push(v@[t as int]));
        }
        t = t + 1;
    }
    proof {
        if i == n {
            assert(v@.take(n as int) =~= v@);
        }
    }
    chars_to_string(out)
}

} // verus!
