//! The model-to-HTML renderer: blocks and spans become a sanitized HTML
//! dialect for e-book packaging, with every piece of text escaped before
//! formatting tags are wrapped around it.  `Raw` blocks alone pass through
//! unescaped.

use crate::ast::{
    ArticleV, BlockV, CommentV, ContentBlock, DocumentV, FeedV, SpanV, TextContent, TextV,
};
use crate::strs::{chars_to_string, dec_rep, push_chars, push_str_chars};
use vstd::prelude::*;

verus! {

// ===== Escaping =====

/// The escape of one character: `&`, `<`, `>` and `"` become entities.
pub open spec fn esc_char(c: char) -> Seq<char> {
    if c == '&' {
        seq!['&', 'a', 'm', 'p', ';']
    } else if c == '<' {
        seq!['&', 'l', 't', ';']
    } else if c == '>' {
        seq!['&', 'g', 't', ';']
    } else if c == '"' {
        seq!['&', 'q', 'u', 'o', 't', ';']
    } else {
        seq![c]
    }
}

/// The escape of a character sequence.
pub open spec fn esc_seq(s: Seq<char>) -> Seq<char>
    decreases s.len(),
{
    if s.len() == 0 {
        Seq::empty()
    } else {
        esc_seq(s.drop_last()) + esc_char(s.last())
    }
}

/// Appends the escape of a string.
fn esc_push(out: &mut Vec<char>, s: &str)
    ensures
        final(out)@ == old(out)@ + esc_seq(s@),
{
    let n = s.unicode_len();
    let mut i: usize = 0;
    proof {
        assert(s@.take(0) =~= Seq::<char>::empty());
        assert(old(out)@ + esc_seq(s@.take(0)) =~= old(out)@);
    }
    while i < n
        invariant
            n == s@.len(),
            i <= n,
            out@ == old(out)@ + esc_seq(s@.take(i as int)),
        decreases n - i,
    {
        let c = s.get_char(i);
        if c == '&' {
            push_str_chars(out, "&amp;");
            proof {
                assert("&amp;"@ =~= seq!['&', 'a', 'm', 'p', ';']) by {
                    reveal_strlit("&amp;");
                }
            }
        } else if c == '<' {
            push_str_chars(out, "&lt;");
            proof {
                assert("&lt;"@ =~= seq!['&', 'l', 't', ';']) by {
                    reveal_strlit("&lt;");
                }
            }
        } else if c == '>' {
            push_str_chars(out, "&gt;");
            proof {
                assert("&gt;"@ =~= seq!['&', 'g', 't', ';']) by {
                    reveal_strlit("&gt;");
                }
            }
        } else if c == '"' {
            push_str_chars(out, "&quot;");
            proof {
                assert("&quot;"@ =~= seq!['&', 'q', 'u', 'o', 't', ';']) by {
                    reveal_strlit("&quot;");
                }
            }
        } else {
            out.push(c);
        }
        proof {
            assert(s@.take(i + 1).drop_last() =~= s@.take(i as int));
            assert(s@.take(i + 1).last() == s@[i as int]);
            assert(out@ =~= old(out)@ + esc_seq(s@.take(i + 1)));
        }
        i = i + 1;
    }
    proof {
        assert(s@.take(n as int) =~= s@);
    }
}

// ===== Spans and text =====

/// One span rendered to HTML: the escaped text wrapped, innermost first,
/// in `<code>`, `<strong>`, `<em>` and an `<a href>` for each flag set.
pub open spec fn html_span(s: SpanV) -> Seq<char> {
    let t0 = esc_seq(s.text);
    let t1 = if s.formatting.code {
        "<code>"@ + t0 + "</code>"@
    } else {
        t0
    };
    let t2 = if s.formatting.bold {
        "<strong>"@ + t1 + "</strong>"@
    } else {
        t1
    };
    let t3 = if s.formatting.italic {
        "<em>"@ + t2 + "</em>"@
    } else {
        t2
    };
    match s.formatting.link {
        Some(u) => "<a href=\""@ + esc_seq(u) + "\">"@ + t3 + "</a>"@,
        None => t3,
    }
}

/// The concatenated HTML of a sequence of spans.
pub open spec fn html_spans(spans: Seq<SpanV>) -> Seq<char>
    decreases spans.len(),
{
    if spans.len() == 0 {
        Seq::empty()
    } else {
        html_spans(spans.drop_last()) + html_span(spans.last())
    }
}

/// The inline HTML of a text content value.
pub open spec fn html_text(t: TextV) -> Seq<char> {
    html_spans(t.spans)
}

/// Appends the HTML of one span.
fn push_span_html(out: &mut Vec<char>, s: &crate::ast::TextSpan)
    ensures
        final(out)@ == old(out)@ + html_span(s@),
{
    let mut t: Vec<char> = Vec::new();
    esc_push(&mut t, s.text.as_str());
    if s.formatting.code {
        let mut w: Vec<char> = Vec::new();
        push_str_chars(&mut w, "<code>");
        push_chars(&mut w, &t);
        push_str_chars(&mut w, "</code>");
        t = w;
    }
    if s.formatting.bold {
        let mut w: Vec<char> = Vec::new();
        push_str_chars(&mut w, "<strong>");
        push_chars(&mut w, &t);
        push_str_chars(&mut w, "</strong>");
        t = w;
    }
    if s.formatting.italic {
        let mut w: Vec<char> = Vec::new();
        push_str_chars(&mut w, "<em>");
        push_chars(&mut w, &t);
        push_str_chars(&mut w, "</em>");
        t = w;
    }
    match &s.formatting.link {
        Some(u) => {
            let mut w: Vec<char> = Vec::new();
            push_str_chars(&mut w, "<a href=\"");
            esc_push(&mut w, u.as_str());
            push_str_chars(&mut w, "\">");
            push_chars(&mut w, &t);
            push_str_chars(&mut w, "</a>");
            t = w;
        },
        None => {},
    }
    push_chars(out, &t);
}

/// Appends the inline HTML of a text content value.
fn push_text_html(out: &mut Vec<char>, c: &TextContent)
    ensures
        final(out)@ == old(out)@ + html_text(c@),
{
    let mut i: usize = 0;
    proof {
        assert(c@.spans.take(0) =~= Seq::<SpanV>::empty());
        assert(old(out)@ + html_spans(c@.spans.take(0)) =~= old(out)@);
    }
    while i < c.spans.len()
        invariant
            i <= c.spans.len(),
            c@.spans.len() == c.spans@.len(),
            forall|j: int| 0 <= j < c.spans@.len() ==> c@.spans[j] == (
            #[trigger] c.spans@[j]).deep_view(),
            out@ == old(out)@ + html_spans(c@.spans.take(i as int)),
        decreases c.spans.len() - i,
    {
        push_span_html(out, &c.spans[i]);
        proof {
            assert(c@.spans.take(i + 1).drop_last() =~= c@.spans.take(i as int));
            assert(c@.spans.take(i + 1).last() == c@.spans[i as int]);
        }
        i = i + 1;
    }
    proof {
        assert(c@.spans.take(c.spans@.len() as int) =~= c@.spans);
    }
}

// ===== Blocks =====

/// The HTML items of a list.
pub open spec fn html_list_items(items: Seq<TextV>) -> Seq<char>
    decreases items.len(),
{
    if items.len() == 0 {
        Seq::empty()
    } else {
        html_list_items(items.drop_last()) + "<li>"@ + html_text(items.last()) + "</li>"@
    }
}

/// One block rendered to the HTML dialect.
pub open spec fn html_block(b: BlockV) -> Seq<char> {
    match b {
        BlockV::Paragraph(c) => "<p>"@ + html_text(c) + "</p>"@,
        BlockV::Heading { level, content } => "<h"@ + dec_rep(level as nat) + ">"@ + html_text(
            content,
        ) + "</h"@ + dec_rep(level as nat) + ">"@,
        BlockV::List { ordered, items } => if ordered {
            "<ol>"@ + html_list_items(items) + "</ol>"@
        } else {
            "<ul>"@ + html_list_items(items) + "</ul>"@
        },
        BlockV::Quote(c) => "<blockquote>"@ + html_text(c) + "</blockquote>"@,
        BlockV::Code { language, content } => "<pre><code>"@ + esc_seq(content)
            + "</code></pre>"@,
        BlockV::Link { url, text } => "<a href=\""@ + esc_seq(url) + "\">"@ + esc_seq(text)
            + "</a>"@,
        BlockV::Image { url, alt } => "<img src=\""@ + esc_seq(url) + "\""@ + (match alt {
            Some(a) => " alt=\""@ + esc_seq(a) + "\""@,
            None => Seq::empty(),
        }) + " />"@,
        BlockV::Raw(s) => s,
    }
}

/// The concatenated HTML of a sequence of blocks.
pub open spec fn html_blocks(bs: Seq<BlockV>) -> Seq<char>
    decreases bs.len(),
{
    if bs.len() == 0 {
        Seq::empty()
    } else {
        html_blocks(bs.drop_last()) + html_block(bs.last())
    }
}

/// Appends the HTML of one block.
fn push_block_html(out: &mut Vec<char>, b: &ContentBlock)
    ensures
        final(out)@ == old(out)@ + html_block(b.deep_view()),
{
    match b {
        ContentBlock::Paragraph(c) => {
            push_str_chars(out, "<p>");
            push_text_html(out, c);
            push_str_chars(out, "</p>");
        },
        ContentBlock::Heading { level, content } => {
            push_str_chars(out, "<h");
            let d = crate::strs::u64_dec_chars(*level as u64);
            push_chars(out, &d);
            push_str_chars(out, ">");
            push_text_html(out, content);
            push_str_chars(out, "</h");
            push_chars(out, &d);
            push_str_chars(out, ">");
        },
        ContentBlock::List { ordered, items } => {
            if *ordered {
                push_str_chars(out, "<ol>");
            } else {
                push_str_chars(out, "<ul>");
            }
            let ghost base = out@;
            let mut i: usize = 0;
            proof {
                assert(items.deep_view().take(0) =~= Seq::<TextV>::empty());
                assert(base + html_list_items(items.deep_view().take(0)) =~= base);
            }
            while i < items.len()
                invariant
                    i <= items.len(),
                    items.deep_view().len() == items@.len(),
                    forall|j: int| 0 <= j < items@.len() ==> items.deep_view()[j] == (
                    #[trigger] items@[j]).deep_view(),
                    out@ == base + html_list_items(items.deep_view().take(i as int)),
                decreases items.len() - i,
            {
                push_str_chars(out, "<li>");
                push_text_html(out, &items[i]);
                push_str_chars(out, "</li>");
                proof {
                    let iv = items.deep_view();
                    assert(iv.take(i + 1).drop_last() =~= iv.take(i as int));
                    assert(iv.take(i + 1).last() == iv[i as int]);
                }
                i = i + 1;
            }
            proof {
                assert(items.deep_view().take(items@.len() as int) =~= items.deep_view());
            }
            if *ordered {
                push_str_chars(out, "</ol>");
            } else {
                push_str_chars(out, "</ul>");
            }
        },
        ContentBlock::Quote(c) => {
            push_str_chars(out, "<blockquote>");
            push_text_html(out, c);
            push_str_chars(out, "</blockquote>");
        },
        ContentBlock::Code { language, content } => {
            push_str_chars(out, "<pre><code>");
            esc_push(out, content.as_str());
            push_str_chars(out, "</code></pre>");
        },
        ContentBlock::Link { url, text } => {
            push_str_chars(out, "<a href=\"");
            esc_push(out, url.as_str());
            push_str_chars(out, "\">");
            esc_push(out, text.as_str());
            push_str_chars(out, "</a>");
        },
        ContentBlock::Image { url, alt } => {
            push_str_chars(out, "<img src=\"");
            esc_push(out, url.as_str());
            push_str_chars(out, "\"");
            match alt {
                Some(a) => {
                    push_str_chars(out, " alt=\"");
                    esc_push(out, a.as_str());
                    push_str_chars(out, "\"");
                },
                None => {},
            }
            push_str_chars(out, " />");
        },
        ContentBlock::Raw(s) => {
            push_str_chars(out, s.as_str());
        },
    }
}

/// Appends the HTML of a sequence of blocks.
fn push_blocks_html(out: &mut Vec<char>, bs: &Vec<ContentBlock>)
    ensures
        final(out)@ == old(out)@ + html_blocks(bs.deep_view()),
{
    let mut i: usize = 0;
    proof {
        assert(bs.deep_view().take(0) =~= Seq::<BlockV>::empty());
        assert(old(out)@ + html_blocks(bs.deep_view().take(0)) =~= old(out)@);
    }
    while i < bs.len()
        invariant
            i <= bs.len(),
            bs.deep_view().len() == bs@.len(),
            forall|j: int| 0 <= j < bs@.len() ==> bs.deep_view()[j] == (
            #[trigger] bs@[j]).deep_view(),
            out@ == old(out)@ + html_blocks(bs.deep_view().take(i as int)),
        decreases bs.len() - i,
    {
        push_block_html(out, &bs[i]);
        proof {
            let bv = bs.deep_view();
            assert(bv.take(i + 1).drop_last() =~= bv.take(i as int));
            assert(bv.take(i + 1).last() == bv[i as int]);
        }
        i = i + 1;
    }
    proof {
        assert(bs.deep_view().take(bs@.len() as int) =~= bs.deep_view());
    }
}

// ===== Article pages =====

/// A possibly negative net score, in decimal.
pub open spec fn int_dec(n: int) -> Seq<char> {
    if n < 0 {
        seq!['-'] + dec_rep((-n) as nat)
    } else {
        dec_rep(n as nat)
    }
}

/// One comment rendered for an article page.
pub open spec fn html_comment(c: CommentV) -> Seq<char> {
    "<div class=\"comment\"><div class=\"comment-author\">"@ + esc_seq(c.author)
        + "<span class=\"comment-score\">Score: "@ + int_dec(c.upvotes - c.downvotes)
        + "</span></div><div class=\"comment-content\">"@ + html_blocks(c.content)
        + "</div></div>"@
}

/// The concatenated HTML of a sequence of comments.
pub open spec fn html_comments(cs: Seq<CommentV>) -> Seq<char>
    decreases cs.len(),
{
    if cs.len() == 0 {
        Seq::empty()
    } else {
        html_comments(cs.drop_last()) + html_comment(cs.last())
    }
}

/// The comments section of an article page: empty without comments.
pub open spec fn html_comments_section(cs: Seq<CommentV>) -> Seq<char> {
    if cs.len() == 0 {
        Seq::empty()
    } else {
        "<div class=\"comments-section\">\n<h2>Top Comments</h2>"@ + html_comments(cs)
            + "</div>"@
    }
}

/// The whole XHTML page of one article: title, date and source line, the
/// body blocks, a link to the original when the url is known, and the
/// comments section.
pub open spec fn html_article_page(a: ArticleV) -> Seq<char> {
    "<html>\n<head><title>"@ + esc_seq(a.title) + "</title></head>\n<body>\n<h1>"@ + esc_seq(
        a.title,
    ) + "</h1>\n<div class=\"pub-date\">"@ + (match a.metadata.published_date {
        Some(d) => esc_seq(d),
        None => Seq::empty(),
    }) + " - <strong>Source:</strong> "@ + esc_seq(a.metadata.feed_name)
        + "</div>\n<div class=\"content\">"@ + html_blocks(a.content) + "</div>\n"@ + (
    match a.metadata.url {
        Some(u) => "<div class=\"link\"><a href=\""@ + esc_seq(u)
            + "\">Read original article</a></div>\n"@,
        None => Seq::empty(),
    }) + html_comments_section(a.comments) + "</body>\n</html>\n"@
}

/// Appends one comment's HTML.
fn push_comment_html(out: &mut Vec<char>, c: &crate::ast::Comment)
    ensures
        final(out)@ == old(out)@ + html_comment(c@),
{
    push_str_chars(out, "<div class=\"comment\"><div class=\"comment-author\">");
    esc_push(out, c.author.as_str());
    push_str_chars(out, "<span class=\"comment-score\">Score: ");
    let up = c.upvotes;
    let down = c.downvotes;
    if up >= down {
        let d = crate::strs::u64_dec_chars((up - down) as u64);
        push_chars(out, &d);
        proof {
            assert(int_dec(c@.upvotes - c@.downvotes) == dec_rep((up - down) as nat));
        }
    } else {
        out.push('-');
        let d = crate::strs::u64_dec_chars((down - up) as u64);
        push_chars(out, &d);
        proof {
            assert(int_dec(c@.upvotes - c@.downvotes) =~= seq!['-'] + dec_rep((down - up) as nat));
        }
    }
    push_str_chars(out, "</span></div><div class=\"comment-content\">");
    push_blocks_html(out, &c.content);
    push_str_chars(out, "</div></div>");
}

// ===== The renderer type =====

/// The HTML renderer.  It carries no state: rendering is a pure function
/// of the model value.
pub struct EpubOutputter;

impl EpubOutputter {
    /// A fresh renderer.
    pub fn new() -> EpubOutputter {
        EpubOutputter
    }

    /// Renders inline text content to an HTML fragment.
    pub fn render_text_content_to_html(&self, content: &TextContent) -> (r: String)
        ensures
            r@ == html_text(content@),
    {
        let mut out: Vec<char> = Vec::new();
        push_text_html(&mut out, content);
        chars_to_string(out)
    }

    /// Renders one block to an HTML fragment.
    pub fn render_content_block_to_html(&self, block: &ContentBlock) -> (r: String)
        ensures
            r@ == html_block(block.deep_view()),
    {
        let mut out: Vec<char> = Vec::new();
        push_block_html(&mut out, block);
        chars_to_string(out)
    }

    /// Renders a whole article page, comments included.
    pub fn render_article_to_html(&self, article: &crate::ast::Article) -> (r: String)
        ensures
            r@ == html_article_page(article@),
    {
        let mut out: Vec<char> = Vec::new();
        push_str_chars(&mut out, "<html>\n<head><title>");
        esc_push(&mut out, article.title.as_str());
        push_str_chars(&mut out, "</title></head>\n<body>\n<h1>");
        esc_push(&mut out, article.title.as_str());
        push_str_chars(&mut out, "</h1>\n<div class=\"pub-date\">");
        match &article.metadata.published_date {
            Some(d) => esc_push(&mut out, d.as_str()),
            None => {},
        }
        push_str_chars(&mut out, " - <strong>Source:</strong> ");
        esc_push(&mut out, article.metadata.feed_name.as_str());
        push_str_chars(&mut out, "</div>\n<div class=\"content\">");
        push_blocks_html(&mut out, &article.content);
        push_str_chars(&mut out, "</div>\n");
        match &article.metadata.url {
            Some(u) => {
                push_str_chars(&mut out, "<div class=\"link\"><a href=\"");
                esc_push(&mut out, u.as_str());
                push_str_chars(&mut out, "\">Read original article</a></div>\n");
            },
            None => {},
        }
        if article.comments.len() > 0 {
            push_str_chars(&mut out, "<div class=\"comments-section\">\n<h2>Top Comments</h2>");
            let ghost base = out@;
            let mut i: usize = 0;
            proof {
                let cv = article.comments.deep_view();
                assert(cv.take(0) =~= Seq::<CommentV>::empty());
                assert(base + html_comments(cv.take(0)) =~= base);
            }
            while i < article.comments.len()
                invariant
                    i <= article.comments.len(),
                    article.comments.deep_view().len() == article.comments@.len(),
                    forall|j: int| 0 <= j < article.comments@.len()
                        ==> article.comments.deep_view()[j] == (
                    #[trigger] article.comments@[j]).deep_view(),
                    out@ == base + html_comments(article.comments.deep_view().take(i as int)),
                decreases article.comments.len() - i,
            {
                push_comment_html(&mut out, &article.comments[i]);
                proof {
                    let cv = article.comments.deep_view();
                    assert(cv.take(i + 1).drop_last() =~= cv.take(i as int));
                    assert(cv.take(i + 1).last() == cv[i as int]);
                }
                i = i + 1;
            }
            proof {
                let cv = article.comments.deep_view();
                assert(cv.take(article.comments@.len() as int) =~= cv);
            }
            push_str_chars(&mut out, "</div>");
        } else {
            proof {
                assert(html_comments_section(article@.comments) =~= Seq::<char>::empty());
            }
        }
        push_str_chars(&mut out, "</body>\n</html>\n");
        chars_to_string(out)
    }
}

// ===== Container pages =====

/// One feed's line on the title page.
pub open spec fn xhtml_feed_line(f: FeedV) -> Seq<char> {
    "<li><strong>"@ + esc_seq(f.name) + ":</strong> "@ + (match f.description {
        Some(d) => esc_seq(d),
        None => "No description"@,
    }) + " ("@ + dec_rep(f.articles.len() as nat) + " articles)</li>\n"@
}

/// The feed lines of the title page.
pub open spec fn xhtml_feed_lines(feeds: Seq<FeedV>) -> Seq<char>
    decreases feeds.len(),
{
    if feeds.len() == 0 {
        Seq::empty()
    } else {
        xhtml_feed_lines(feeds.drop_last()) + xhtml_feed_line(feeds.last())
    }
}

/// The title page: document metadata and the feed list.
pub open spec fn xhtml_title_page(d: DocumentV) -> Seq<char> {
    "<html>\n<head><title>"@ + esc_seq(d.metadata.title) + "</title></head>\n<body>\n<h1>"@
        + esc_seq(d.metadata.title) + "</h1>\n<p>"@ + (match d.metadata.description {
        Some(de) => esc_seq(de),
        None => Seq::empty(),
    }) + "</p>\n<p><strong>Generated:</strong> "@ + esc_seq(d.metadata.generated_at)
        + "</p>\n<p><strong>Total Articles:</strong> "@ + dec_rep(
        crate::markdown_outputter::sat_count(d.feeds),
    ) + "</p>\n<h2>Feeds</h2>\n<ul>\n"@ + xhtml_feed_lines(d.feeds) + "</ul>\n</body>\n</html>\n"@
}

/// One feed's section page, standing before its articles.
pub open spec fn xhtml_feed_page(f: FeedV) -> Seq<char> {
    "<html>\n<head><title>"@ + esc_seq(f.name) + " - Feed</title></head>\n<body>\n<h1>"@
        + esc_seq(f.name) + "</h1>\n<p><strong>Description:</strong> "@ + (match f.description {
        Some(d) => esc_seq(d),
        None => "No description"@,
    }) + "</p>\n<p><strong>Total Articles:</strong> "@ + dec_rep(f.articles.len() as nat)
        + "</p>\n<hr/>\n</body>\n</html>\n"@
}

/// The front page wrapped as its own page.
pub open spec fn xhtml_front_page(bs: Seq<BlockV>) -> Seq<char> {
    "<html>\n<head><title>Front Page Summary</title></head>\n<body>\n<h1>Front Page Summary</h1>\n<div class=\"content\">"@
        + html_blocks(bs) + "</div>\n</body>\n</html>\n"@
}

/// The contents entries of a feed's articles, numbered from just past the
/// feed's own chapter number.
pub open spec fn xhtml_toc_articles(arts: Seq<ArticleV>, idx: int) -> Seq<char>
    decreases arts.len(),
{
    if arts.len() == 0 {
        Seq::empty()
    } else {
        "<li class=\"article-item\"><a href=\"article_"@ + int_dec(idx + 1) + ".xhtml\">"@
            + esc_seq(arts.first().title) + "</a></li>\n"@ + xhtml_toc_articles(
            arts.drop_first(),
            idx + 1,
        )
    }
}

/// The contents entries of the feeds from a chapter number on.
pub open spec fn xhtml_toc_feeds(feeds: Seq<FeedV>, idx: int) -> Seq<char>
    decreases feeds.len(),
{
    if feeds.len() == 0 {
        Seq::empty()
    } else {
        "<li class=\"feed-section\"><a href=\"feed_"@ + int_dec(idx + 1) + ".xhtml\">"@
            + esc_seq(feeds.first().name) + "</a>\n<ul>\n"@ + xhtml_toc_articles(
            feeds.first().articles,
            idx + 1,
        ) + "</ul>\n</li>\n"@ + xhtml_toc_feeds(
            feeds.drop_first(),
            idx + 1 + feeds.first().articles.len(),
        )
    }
}

/// The contents page: the front page when present, then every feed with
/// its articles, numbered in reading order.
pub open spec fn xhtml_toc_page(d: DocumentV) -> Seq<char> {
    "<html>\n<head><title>Table of Contents</title></head>\n<body>\n<div class=\"toc\">\n<h1>Table of Contents</h1>\n<ul>\n"@
        + (match d.front_page {
        Some(_) => "<li class=\"feed-section\"><a href=\"front_page.xhtml\">Front Page Summary</a></li>\n"@,
        None => Seq::empty(),
    }) + xhtml_toc_feeds(d.feeds, 0) + "</ul>\n</div>\n</body>\n</html>\n"@
}

impl EpubOutputter {
    /// Renders the title page.
    #[verifier::rlimit(100)]
    pub fn render_title_page(&self, document: &crate::ast::Document) -> (r: String)
        ensures
            r@ == xhtml_title_page(document@),
    {
        let mut out: Vec<char> = Vec::new();
        push_str_chars(&mut out, "<html>\n<head><title>");
        esc_push(&mut out, document.metadata.title.as_str());
        push_str_chars(&mut out, "</title></head>\n<body>\n<h1>");
        esc_push(&mut out, document.metadata.title.as_str());
        push_str_chars(&mut out, "</h1>\n<p>");
        match &document.metadata.description {
            Some(de) => esc_push(&mut out, de.as_str()),
            None => {},
        }
        push_str_chars(&mut out, "</p>\n<p><strong>Generated:</strong> ");
        esc_push(&mut out, document.metadata.generated_at.as_str());
        push_str_chars(&mut out, "</p>\n<p><strong>Total Articles:</strong> ");
        let total = document.total_articles();
        let d = crate::strs::u64_dec_chars(total as u64);
        push_chars(&mut out, &d);
        proof {
            assert(total as nat == crate::markdown_outputter::sat_count(document@.feeds));
        }
        push_str_chars(&mut out, "</p>\n<h2>Feeds</h2>\n<ul>\n");
        let ghost base = out@;
        let mut i: usize = 0;
        proof {
            assert(document@.feeds.take(0) =~= Seq::<FeedV>::empty());
            assert(base + xhtml_feed_lines(document@.feeds.take(0)) =~= base);
        }
        while i < document.feeds.len()
            invariant
                i <= document.feeds@.len(),
                document@.feeds.len() == document.feeds@.len(),
                forall|j: int| 0 <= j < document.feeds@.len() ==> document@.feeds[j] == (
                #[trigger] document.feeds@[j]).deep_view(),
                out@ == base + xhtml_feed_lines(document@.feeds.take(i as int)),
            decreases document.feeds.len() - i,
        {
            let feed = &document.feeds[i];
            push_str_chars(&mut out, "<li><strong>");
            esc_push(&mut out, feed.name.as_str());
            push_str_chars(&mut out, ":</strong> ");
            match &feed.description {
                Some(de) => esc_push(&mut out, de.as_str()),
                None => push_str_chars(&mut out, "No description"),
            }
            push_str_chars(&mut out, " (");
            let c = crate::strs::u64_dec_chars(feed.articles.len() as u64);
            push_chars(&mut out, &c);
            push_str_chars(&mut out, " articles)</li>\n");
            proof {
                assert(document@.feeds.take(i + 1).drop_last() =~= document@.feeds.take(i as int));
                assert(document@.feeds.take(i + 1).last() == document@.feeds[i as int]);
                assert(out@ =~= base + xhtml_feed_lines(document@.feeds.take(i + 1)));
            }
            i = i + 1;
        }
        proof {
            assert(document@.feeds.take(document.feeds@.len() as int) =~= document@.feeds);
        }
        push_str_chars(&mut out, "</ul>\n</body>\n</html>\n");
        chars_to_string(out)
    }

    /// Renders one feed's section page.
    pub fn render_feed_page(&self, feed: &crate::ast::Feed) -> (r: String)
        ensures
            r@ == xhtml_feed_page(feed@),
    {
        let mut out: Vec<char> = Vec::new();
        push_str_chars(&mut out, "<html>\n<head><title>");
        esc_push(&mut out, feed.name.as_str());
        push_str_chars(&mut out, " - Feed</title></head>\n<body>\n<h1>");
        esc_push(&mut out, feed.name.as_str());
        push_str_chars(&mut out, "</h1>\n<p><strong>Description:</strong> ");
        match &feed.description {
            Some(d) => esc_push(&mut out, d.as_str()),
            None => push_str_chars(&mut out, "No description"),
        }
        push_str_chars(&mut out, "</p>\n<p><strong>Total Articles:</strong> ");
        let c = crate::strs::u64_dec_chars(feed.articles.len() as u64);
        push_chars(&mut out, &c);
        push_str_chars(&mut out, "</p>\n<hr/>\n</body>\n</html>\n");
        chars_to_string(out)
    }

    /// Renders the front page blocks as their own page.
    pub fn render_front_page(&self, blocks: &Vec<ContentBlock>) -> (r: String)
        ensures
            r@ == xhtml_front_page(blocks.deep_view()),
    {
        let mut out: Vec<char> = Vec::new();
        push_str_chars(
            &mut out,
            "<html>\n<head><title>Front Page Summary</title></head>\n<body>\n<h1>Front Page Summary</h1>\n<div class=\"content\">",
        );
        push_blocks_html(&mut out, blocks);
        push_str_chars(&mut out, "</div>\n</body>\n</html>\n");
        chars_to_string(out)
    }

    /// Renders the contents page, numbering feed and article chapters in
    /// reading order.  The chapter count must fit the machine's indices.
    #[verifier::rlimit(100)]
    pub fn render_toc_page(&self, document: &crate::ast::Document) -> (r: String)
        requires
            crate::ast::count_articles(document@.feeds) + document@.feeds.len() < usize::MAX,
        ensures
            r@ == xhtml_toc_page(document@),
    {
        let mut out: Vec<char> = Vec::new();
        push_str_chars(
            &mut out,
            "<html>\n<head><title>Table of Contents</title></head>\n<body>\n<div class=\"toc\">\n<h1>Table of Contents</h1>\n<ul>\n",
        );
        match &document.front_page {
            Some(_) => {
                push_str_chars(
                    &mut out,
                    "<li class=\"feed-section\"><a href=\"front_page.xhtml\">Front Page Summary</a></li>\n",
                );
            },
            None => {},
        }
        let ghost fv = document@.feeds;
        let mut idx: usize = 0;
        let mut i: usize = 0;
        proof {
            assert(fv.skip(0) =~= fv);
            assert(fv.take(0) =~= Seq::<FeedV>::empty());
        }
        while i < document.feeds.len()
            invariant
                i <= document.feeds@.len(),
                fv == document@.feeds,
                fv.len() == document.feeds@.len(),
                forall|j: int| 0 <= j < document.feeds@.len() ==> fv[j] == (
                #[trigger] document.feeds@[j]).deep_view(),
                crate::ast::count_articles(fv) + fv.len() < usize::MAX,
                idx as int == i + crate::ast::count_articles(fv.take(i as int)),
                xhtml_toc_page(document@) == out@ + xhtml_toc_feeds(fv.skip(i as int), idx as int)
                    + "</ul>\n</div>\n</body>\n</html>\n"@,
            decreases document.feeds.len() - i,
        {
            let feed = &document.feeds[i];
            let ghost rest = fv.skip(i as int);
            proof {
                assert(rest[0] == fv[i as int]);
                assert(rest.drop_first() =~= fv.skip(i + 1));
                assert(fv.take(i + 1).drop_last() =~= fv.take(i as int));
                assert(fv.take(i + 1).last() == fv[i as int]);
                crate::ast::lemma_count_articles_prefix(fv, i + 1);
                assert(crate::ast::count_articles(fv.take(i + 1)) == crate::ast::count_articles(
                    fv.take(i as int),
                ) + fv[i as int].articles.len());
                assert(idx + 1 + fv[i as int].articles.len() <= fv.len()
                    + crate::ast::count_articles(fv));
            }
            push_str_chars(&mut out, "<li class=\"feed-section\"><a href=\"feed_");
            let d1 = crate::strs::u64_dec_chars((idx + 1) as u64);
            push_chars(&mut out, &d1);
            push_str_chars(&mut out, ".xhtml\">");
            esc_push(&mut out, feed.name.as_str());
            push_str_chars(&mut out, "</a>\n<ul>\n");
            proof {
                assert(int_dec(idx + 1) == dec_rep((idx + 1) as nat));
            }
            let ghost art_base = out@;
            let ghost arts = feed@.articles;
            let mut j: usize = 0;
            proof {
                assert(arts.skip(0) =~= arts);
            }
            while j < feed.articles.len()
                invariant
                    i < document.feeds@.len(),
                    feed == &document.feeds@[i as int],
                    fv == document@.feeds,
                    arts == feed@.articles,
                    arts == fv[i as int].articles,
                    arts.len() == feed.articles@.len(),
                    j <= feed.articles@.len(),
                    idx + 1 + feed.articles@.len() < usize::MAX,
                    art_base + xhtml_toc_articles(arts, idx + 1) == out@ + xhtml_toc_articles(
                        arts.skip(j as int),
                        idx + 1 + j,
                    ),
                decreases feed.articles.len() - j,
            {
                let ghost arest = arts.skip(j as int);
                proof {
                    assert(arest[0] == arts[j as int]);
                    assert(arest.drop_first() =~= arts.skip(j + 1));
                }
                push_str_chars(&mut out, "<li class=\"article-item\"><a href=\"article_");
                let d2 = crate::strs::u64_dec_chars((idx + j + 2) as u64);
                push_chars(&mut out, &d2);
                push_str_chars(&mut out, ".xhtml\">");
                esc_push(&mut out, feed.articles[j].title.as_str());
                push_str_chars(&mut out, "</a></li>\n");
                proof {
                    assert(int_dec(idx + 1 + j + 1) == dec_rep((idx + j + 2) as nat));
                    assert(arts[j as int] == feed.articles@[j as int].deep_view());
                    assert(art_base + xhtml_toc_articles(arts, idx + 1) =~= out@
                        + xhtml_toc_articles(arts.skip(j + 1), idx + 1 + j + 1));
                }
                j = j + 1;
            }
            proof {
                assert(arts.skip(feed.articles@.len() as int) =~= Seq::<ArticleV>::empty());
            }
            push_str_chars(&mut out, "</ul>\n</li>\n");
            idx = idx + 1 + feed.articles.len();
            proof {
                assert(xhtml_toc_feeds(rest, (i + crate::ast::count_articles(
                    fv.take(i as int),
                )) as int) == "<li class=\"feed-section\"><a href=\"feed_"@ + int_dec(
                    i + crate::ast::count_articles(fv.take(i as int)) + 1,
                ) + ".xhtml\">"@ + esc_seq(rest.first().name) + "</a>\n<ul>\n"@
                    + xhtml_toc_articles(rest.first().articles, i + crate::ast::count_articles(
                    fv.take(i as int),
                ) + 1) + "</ul>\n</li>\n"@ + xhtml_toc_feeds(rest.drop_first(), i
                    + crate::ast::count_articles(fv.take(i as int)) + 1
                    + rest.first().articles.len()));
                assert(xhtml_toc_page(document@) == out@ + xhtml_toc_feeds(
                    fv.skip(i + 1),
                    idx as int,
                ) + "</ul>\n</div>\n</body>\n</html>\n"@);
            }
            i = i + 1;
        }
        proof {
            assert(fv.skip(document.feeds@.len() as int) =~= Seq::<FeedV>::empty());
        }
        push_str_chars(&mut out, "</ul>\n</div>\n</body>\n</html>\n");
        proof {
            assert(out@ =~= xhtml_toc_page(document@));
        }
        chars_to_string(out)
    }
}

} // verus!
