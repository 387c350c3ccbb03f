//! The model-to-Markdown renderer: blocks, articles, feeds and the whole
//! document with its table of contents.  Plain text passes through without
//! escaping of Markdown metacharacters, as the dialect defines it.

use crate::ast::{
    count_articles, ArticleV, BlockV, CommentV, ContentBlock, Document, DocumentV, FeedV, SpanV,
    TextContent, TextV,
};
use crate::epub_outputter::int_dec;
use crate::strs::{
    chars_to_string, dec_rep, is_unicode_ws, push_chars, push_str_chars, seq_blank, str_to_chars,
};
use vstd::prelude::*;

verus! {

// ===== Anchor slugs =====

/// Whether a character is alphanumeric in the Unicode sense, as
/// `char::is_alphanumeric` decides it.
pub uninterp spec fn is_unicode_alnum(c: char) -> bool;

/// Relies on char::is_alphanumeric: the Unicode Alphabetic and Number
/// categories.  ASCII letters and digits are in; ASCII punctuation,
/// `-`, `_` and whitespace are not.
#[verifier::external_body]
fn char_is_alnum(c: char) -> (r: bool)
    ensures
        r == is_unicode_alnum(c),
        'a' <= c <= 'z' || 'A' <= c <= 'Z' || '0' <= c <= '9' ==> r,
        c == '-' || c == '_' || c == ' ' ==> !r,
{
    c.is_alphanumeric()
}

/// What lower-casing a string yields; the result depends on the characters
/// alone.
pub uninterp spec fn lower_of(s: Seq<char>) -> Seq<char>;

/// Relies on str::to_lowercase: Unicode lower-casing, a function of the
/// characters alone.
#[verifier::external_body]
fn lowercase(s: &str) -> (r: String)
    ensures
        r@ == lower_of(s@),
{
    s.to_lowercase()
}

/// The punctuation set that anchor slugs strip.
pub open spec fn is_slug_punct(c: char) -> bool {
    c == '(' || c == ')' || c == '[' || c == ']' || c == '{' || c == '}' || c == '<' || c == '>'
        || c == '"' || c == '\'' || c == '/' || c == '\\' || c == '|' || c == '?' || c == '*'
        || c == '&' || c == '%' || c == '$' || c == '#' || c == '@' || c == '!' || c == '^'
        || c == '~' || c == '`' || c == '+' || c == '=' || c == ',' || c == '.' || c == ';'
        || c == ':'
}

/// Spaces become hyphens.
pub open spec fn sp_to_dash(s: Seq<char>) -> Seq<char>
    decreases s.len(),
{
    if s.len() == 0 {
        Seq::empty()
    } else {
        sp_to_dash(s.drop_last()) + (if s.last() == ' ' {
            seq!['-']
        } else {
            seq![s.last()]
        })
    }
}

/// The stripped-punctuation form.
pub open spec fn drop_punct(s: Seq<char>) -> Seq<char>
    decreases s.len(),
{
    if s.len() == 0 {
        Seq::empty()
    } else {
        drop_punct(s.drop_last()) + (if is_slug_punct(s.last()) {
            Seq::empty()
        } else {
            seq![s.last()]
        })
    }
}

/// Only alphanumerics, hyphens and underscores stay.
pub open spec fn keep_slug_chars(s: Seq<char>) -> Seq<char>
    decreases s.len(),
{
    if s.len() == 0 {
        Seq::empty()
    } else {
        keep_slug_chars(s.drop_last()) + (if is_unicode_alnum(s.last()) || s.last() == '-'
            || s.last() == '_' {
            seq![s.last()]
        } else {
            Seq::empty()
        })
    }
}

/// The anchor slug of a title: lower-cased, spaces as hyphens, the fixed
/// punctuation set stripped, and only alphanumerics, `-` and `_` kept.
pub open spec fn slug_of(s: Seq<char>) -> Seq<char> {
    keep_slug_chars(drop_punct(sp_to_dash(lower_of(s))))
}

// ===== Line splitting =====

/// Length of the prefix without a newline.
pub open spec fn not_nl_run(s: Seq<char>) -> nat
    decreases s.len(),
{
    if s.len() == 0 {
        0
    } else if s[0] == '\n' {
        0
    } else {
        (1 + not_nl_run(s.drop_first())) as nat
    }
}

pub(crate) proof fn lemma_not_nl_run(s: Seq<char>)
    ensures
        not_nl_run(s) <= s.len(),
        forall|j: int| 0 <= j < not_nl_run(s) ==> s[j] != '\n',
        not_nl_run(s) < s.len() ==> s[not_nl_run(s) as int] == '\n',
    decreases s.len(),
{
    if s.len() > 0 && s[0] != '\n' {
        lemma_not_nl_run(s.drop_first());
        assert forall|j: int| 0 <= j < not_nl_run(s) implies s[j] != '\n' by {
            if j > 0 {
                assert(s.drop_first()[j - 1] == s[j]);
            }
        }
        if not_nl_run(s) < s.len() {
            assert(s.drop_first()[not_nl_run(s) - 1] == s[not_nl_run(s) as int]);
        }
    }
}

/// A line with a trailing carriage return removed.
pub open spec fn strip_cr(line: Seq<char>) -> Seq<char> {
    if line.len() > 0 && line.last() == '\r' {
        line.drop_last()
    } else {
        line
    }
}

/// The lines of a string, split at newlines; a final newline ends the last
/// line rather than opening an empty one, and a `\r` before each split is
/// removed.
pub open spec fn split_lines(s: Seq<char>) -> Seq<Seq<char>>
    decreases s.len(),
    via split_lines_dec
{
    if s.len() == 0 {
        Seq::empty()
    } else {
        let k = not_nl_run(s) as int;
        if k == s.len() {
            seq![strip_cr(s)]
        } else {
            seq![strip_cr(s.subrange(0, k))] + split_lines(s.skip(k + 1))
        }
    }
}

#[via_fn]
proof fn split_lines_dec(s: Seq<char>) {
    if s.len() > 0 {
        lemma_not_nl_run(s);
    }
}

/// Each line prefixed with `"> "` and ended with a newline.
pub open spec fn quote_all_lines(lines: Seq<Seq<char>>) -> Seq<char>
    decreases lines.len(),
{
    if lines.len() == 0 {
        Seq::empty()
    } else {
        quote_all_lines(lines.drop_last()) + "> "@ + lines.last() + "\n"@
    }
}

/// Each line quoted; blank lines become a bare `">"`.
pub open spec fn quote_content_lines(lines: Seq<Seq<char>>) -> Seq<char>
    decreases lines.len(),
{
    if lines.len() == 0 {
        Seq::empty()
    } else {
        quote_content_lines(lines.drop_last()) + (if seq_blank(lines.last()) {
            ">\n"@
        } else {
            "> "@ + lines.last() + "\n"@
        })
    }
}

// ===== Spans and text =====

/// One span rendered to Markdown: backticks innermost, then `**`, then
/// `*`, then a link wrap, for each attribute set.  No text escaping.
pub open spec fn md_span(s: SpanV) -> Seq<char> {
    let t0 = s.text;
    let t1 = if s.formatting.code {
        "`"@ + t0 + "`"@
    } else {
        t0
    };
    let t2 = if s.formatting.bold {
        "**"@ + t1 + "**"@
    } else {
        t1
    };
    let t3 = if s.formatting.italic {
        "*"@ + t2 + "*"@
    } else {
        t2
    };
    match s.formatting.link {
        Some(u) => "["@ + t3 + "]("@ + u + ")"@,
        None => t3,
    }
}

/// The concatenated Markdown of a sequence of spans.
pub open spec fn md_spans(spans: Seq<SpanV>) -> Seq<char>
    decreases spans.len(),
{
    if spans.len() == 0 {
        Seq::empty()
    } else {
        md_spans(spans.drop_last()) + md_span(spans.last())
    }
}

/// The inline Markdown of a text content value.
pub open spec fn md_text(t: TextV) -> Seq<char> {
    md_spans(t.spans)
}

// ===== Blocks =====

/// A run of `n` hash marks.
pub open spec fn hashes(n: nat) -> Seq<char>
    decreases n,
{
    if n == 0 {
        Seq::empty()
    } else {
        hashes((n - 1) as nat) + "#"@
    }
}

/// The rendered items of a list: `- ` bullets, or `1. `, `2. `, ...
/// strict sequential numbering.
pub open spec fn md_list_items(items: Seq<TextV>, ordered: bool) -> Seq<char>
    decreases items.len(),
{
    if items.len() == 0 {
        Seq::empty()
    } else {
        md_list_items(items.drop_last(), ordered) + (if ordered {
            dec_rep(items.len() as nat) + ". "@
        } else {
            "- "@
        }) + md_text(items.last()) + "\n"@
    }
}

/// One block rendered to Markdown.  A `Heading` renders at its level plus
/// three, preserving relative nesting below the document, feed and article
/// headings.
pub open spec fn md_block(b: BlockV) -> Seq<char> {
    match b {
        BlockV::Paragraph(c) => md_text(c) + "\n\n"@,
        BlockV::Heading { level, content } => hashes((level + 3) as nat) + " "@ + md_text(content)
            + "\n\n"@,
        BlockV::List { ordered, items } => md_list_items(items, ordered) + "\n"@,
        BlockV::Quote(c) => quote_all_lines(split_lines(md_text(c))) + "\n"@,
        BlockV::Code { language, content } => "```"@ + (match language {
            Some(l) => l,
            None => Seq::empty(),
        }) + "\n"@ + content + "\n```\n\n"@,
        BlockV::Link { url, text } => "["@ + text + "]("@ + url + ")\n\n"@,
        BlockV::Image { url, alt } => "!["@ + (match alt {
            Some(a) => a,
            None => Seq::empty(),
        }) + "]("@ + url + ")\n\n"@,
        BlockV::Raw(s) => "```html\n"@ + s + "\n```\n\n"@,
    }
}

/// The concatenated Markdown of a sequence of blocks.
pub open spec fn md_blocks(bs: Seq<BlockV>) -> Seq<char>
    decreases bs.len(),
{
    if bs.len() == 0 {
        Seq::empty()
    } else {
        md_blocks(bs.drop_last()) + md_block(bs.last())
    }
}

// ===== Comments, articles, feeds, the document =====

/// The quoted rendering of a comment's blocks: every line of every block
/// prefixed as quoted content.
pub open spec fn md_comment_body(bs: Seq<BlockV>) -> Seq<char>
    decreases bs.len(),
{
    if bs.len() == 0 {
        Seq::empty()
    } else {
        md_comment_body(bs.drop_last()) + quote_content_lines(split_lines(md_block(bs.last())))
    }
}

/// One comment rendered to Markdown: a quoted header with author and net
/// score, an optional quoted timestamp, and the quoted body blocks.
pub open spec fn md_comment(c: CommentV) -> Seq<char> {
    "> **"@ + c.author + "** (Score: "@ + int_dec(c.upvotes - c.downvotes) + ")\n"@ + (
    match c.timestamp {
        Some(t) => "> *"@ + t + "*\n"@,
        None => Seq::empty(),
    }) + ">\n"@ + md_comment_body(c.content) + "\n"@
}

/// The concatenated Markdown of a sequence of comments.
pub open spec fn md_comments(cs: Seq<CommentV>) -> Seq<char>
    decreases cs.len(),
{
    if cs.len() == 0 {
        Seq::empty()
    } else {
        md_comments(cs.drop_last()) + md_comments_one(cs.last())
    }
}

/// One comment of the sequence.
pub open spec fn md_comments_one(c: CommentV) -> Seq<char> {
    md_comment(c)
}

/// The header of an article: an `###` title and the metadata lines.
pub open spec fn md_article_header(a: ArticleV) -> Seq<char> {
    "### "@ + a.title + "\n\n"@ + (match a.metadata.published_date {
        Some(d) => "**Published:** "@ + d + "\n"@,
        None => Seq::empty(),
    }) + (match a.metadata.author {
        Some(au) => "**Author:** "@ + au + "\n"@,
        None => Seq::empty(),
    }) + "**Source:** "@ + a.metadata.feed_name + "\n"@ + (match a.metadata.url {
        Some(u) => "**Link:** [Read original article]("@ + u + ")\n"@,
        None => Seq::empty(),
    }) + "\n"@
}

/// One article rendered to Markdown: the header, the body blocks, and a
/// comments section when comments exist.
pub open spec fn md_article(a: ArticleV) -> Seq<char> {
    md_article_header(a) + md_blocks(a.content) + (if a.comments.len() > 0 {
        "\n#### Top Comments\n\n"@ + md_comments(a.comments)
    } else {
        Seq::empty()
    })
}

/// The articles of a feed, each followed by a rule.
pub open spec fn md_feed_articles(arts: Seq<ArticleV>) -> Seq<char>
    decreases arts.len(),
{
    if arts.len() == 0 {
        Seq::empty()
    } else {
        md_feed_articles(arts.drop_last()) + md_article(arts.last()) + "\n---\n\n"@
    }
}

/// One feed rendered to Markdown: an `##` title, the description, an
/// article count, and the articles.
pub open spec fn md_feed(f: FeedV) -> Seq<char> {
    "## "@ + f.name + "\n\n"@ + (match f.description {
        Some(d) => d + "\n\n"@,
        None => Seq::empty(),
    }) + "**Total Articles:** "@ + dec_rep(f.articles.len() as nat) + "\n\n"@ + md_feed_articles(
        f.articles,
    )
}

/// The table-of-contents entries of one feed's articles.
pub open spec fn md_toc_articles(arts: Seq<ArticleV>) -> Seq<char>
    decreases arts.len(),
{
    if arts.len() == 0 {
        Seq::empty()
    } else {
        md_toc_articles(arts.drop_last()) + "  - ["@ + arts.last().title + "](#"@ + slug_of(
            arts.last().title,
        ) + ")\n"@
    }
}

/// The table-of-contents entries: one per feed, nested ones per article.
pub open spec fn md_toc(feeds: Seq<FeedV>) -> Seq<char>
    decreases feeds.len(),
{
    if feeds.len() == 0 {
        Seq::empty()
    } else {
        md_toc(feeds.drop_last()) + "- ["@ + feeds.last().name + "](#"@ + slug_of(
            feeds.last().name,
        ) + ")\n"@ + md_toc_articles(feeds.last().articles)
    }
}

/// The concatenated sections of all feeds.
pub open spec fn md_feeds(feeds: Seq<FeedV>) -> Seq<char>
    decreases feeds.len(),
{
    if feeds.len() == 0 {
        Seq::empty()
    } else {
        md_feeds(feeds.drop_last()) + md_feed(feeds.last())
    }
}

/// The article count as rendered: saturating at the machine limit.
pub open spec fn sat_count(feeds: Seq<FeedV>) -> nat {
    if count_articles(feeds) <= usize::MAX as nat {
        count_articles(feeds)
    } else {
        usize::MAX as nat
    }
}

/// The whole document rendered to Markdown: an `#` title, metadata lines,
/// the table of contents, a rule, then one section per feed.
pub open spec fn md_document(d: DocumentV) -> Seq<char> {
    "# "@ + d.metadata.title + "\n\n"@ + (match d.metadata.description {
        Some(de) => de + "\n\n"@,
        None => Seq::empty(),
    }) + "**Author:** "@ + d.metadata.author + "\n**Generated:** "@ + d.metadata.generated_at
        + "\n**Total Articles:** "@ + dec_rep(sat_count(d.feeds))
        + "\n\n## Table of Contents\n\n"@ + md_toc(d.feeds) + "\n---\n\n"@ + md_feeds(d.feeds)
}

// ===== Executable rendering =====

/// Appends one span's Markdown.
fn push_span_md(out: &mut Vec<char>, s: &crate::ast::TextSpan)
    ensures
        final(out)@ == old(out)@ + md_span(s@),
{
    let mut t: Vec<char> = str_to_chars(s.text.as_str());
    if s.formatting.code {
        let mut w: Vec<char> = Vec::new();
        push_str_chars(&mut w, "`");
        push_chars(&mut w, &t);
        push_str_chars(&mut w, "`");
        t = w;
    }
    if s.formatting.bold {
        let mut w: Vec<char> = Vec::new();
        push_str_chars(&mut w, "**");
        push_chars(&mut w, &t);
        push_str_chars(&mut w, "**");
        t = w;
    }
    if s.formatting.italic {
        let mut w: Vec<char> = Vec::new();
        push_str_chars(&mut w, "*");
        push_chars(&mut w, &t);
        push_str_chars(&mut w, "*");
        t = w;
    }
    match &s.formatting.link {
        Some(u) => {
            let mut w: Vec<char> = Vec::new();
            push_str_chars(&mut w, "[");
            push_chars(&mut w, &t);
            push_str_chars(&mut w, "](");
            push_str_chars(&mut w, u.as_str());
            push_str_chars(&mut w, ")");
            t = w;
        },
        None => {},
    }
    push_chars(out, &t);
}

/// Appends the inline Markdown of a text content value.
fn push_text_md(out: &mut Vec<char>, c: &TextContent)
    ensures
        final(out)@ == old(out)@ + md_text(c@),
{
    let mut i: usize = 0;
    proof {
        assert(c@.spans.take(0) =~= Seq::<SpanV>::empty());
        assert(old(out)@ + md_spans(c@.spans.take(0)) =~= old(out)@);
    }
    while i < c.spans.len()
        invariant
            i <= c.spans.len(),
            c@.spans.len() == c.spans@.len(),
            forall|j: int| 0 <= j < c.spans@.len() ==> c@.spans[j] == (
            #[trigger] c.spans@[j]).deep_view(),
            out@ == old(out)@ + md_spans(c@.spans.take(i as int)),
        decreases c.spans.len() - i,
    {
        push_span_md(out, &c.spans[i]);
        proof {
            assert(c@.spans.take(i + 1).drop_last() =~= c@.spans.take(i as int));
            assert(c@.spans.take(i + 1).last() == c@.spans[i as int]);
        }
        i = i + 1;
    }
    proof {
        assert(c@.spans.take(c.spans@.len() as int) =~= c@.spans);
    }
}

/// Appends each line of `text`, quoted.  With `content_style`, blank lines
/// become a bare `">"`; without it every line gets the full `"> "` prefix.
#[verifier::rlimit(100)]
fn push_quoted_lines(out: &mut Vec<char>, text: &Vec<char>, content_style: bool)
    ensures
        final(out)@ == old(out)@ + if content_style {
            quote_content_lines(split_lines(text@))
        } else {
            quote_all_lines(split_lines(text@))
        },
{
    let n = text.len();
    let ghost whole = if content_style {
        quote_content_lines(split_lines(text@))
    } else {
        quote_all_lines(split_lines(text@))
    };
    let mut pos: usize = 0;
    proof {
        assert(text@.skip(0) =~= text@);
    }
    while pos < n
        invariant
            n == text@.len(),
            pos <= n,
            whole == if content_style {
                quote_content_lines(split_lines(text@))
            } else {
                quote_all_lines(split_lines(text@))
            },
            out@ + (if content_style {
                quote_content_lines(split_lines(text@.skip(pos as int)))
            } else {
                quote_all_lines(split_lines(text@.skip(pos as int)))
            }) == old(out)@ + whole,
        decreases n - pos,
    {
        let ghost rest = text@.skip(pos as int);
        // scan to the end of the line
        let mut j: usize = pos;
        while j < n && text[j] != '\n'
            invariant
                n == text@.len(),
                pos <= j <= n,
                forall|t: int| pos <= t < j ==> text@[t] != '\n',
            decreases n - j,
        {
            j = j + 1;
        }
        proof {
            lemma_not_nl_run(rest);
            assert forall|t: int| 0 <= t < j - pos implies rest[t] != '\n' by {
                assert(rest[t] == text@[pos + t]);
            }
            if not_nl_run(rest) < j - pos {
                assert(rest[not_nl_run(rest) as int] == '\n');
                assert(text@[pos + not_nl_run(rest)] != '\n');
            }
            if j < n {
                assert(rest[j - pos] == text@[j as int]);
                assert(not_nl_run(rest) == j - pos);
            } else {
                assert(not_nl_run(rest) == rest.len());
            }
        }
        // the line, with a trailing '\r' removed
        let line_end = if j > pos && text[j - 1] == '\r' {
            j - 1
        } else {
            j
        };
        let ghost raw_line = text@.subrange(pos as int, j as int);
        let ghost line = strip_cr(raw_line);
        proof {
            if j > pos && text@[j - 1] == '\r' {
                assert(raw_line.last() == text@[j - 1]);
                assert(line =~= text@.subrange(pos as int, line_end as int));
            } else {
                if raw_line.len() > 0 {
                    assert(raw_line.last() == text@[j - 1]);
                }
                assert(line =~= text@.subrange(pos as int, line_end as int));
            }
        }
        // decide the prefix
        let mut is_blank = true;
        let mut t: usize = pos;
        while t < line_end
            invariant
                n == text@.len(),
                pos <= t <= line_end <= n,
                is_blank == (forall|u: int| pos <= u < t ==> is_unicode_ws(#[trigger] text@[u])),
            decreases line_end - t,
        {
            if !crate::strs::char_is_ws(text[t]) {
                is_blank = false;
                let ghost tt = t as int;
                proof {
                    assert(!is_unicode_ws(text@[tt]));
                }
                t = line_end;
            } else {
                t = t + 1;
            }
        }
        proof {
            assert(is_blank == seq_blank(line)) by {
                if is_blank {
                    assert forall|u: int| 0 <= u < line.len() implies is_unicode_ws(
                        line[u],
                    ) by {
                        assert(line[u] == text@[pos + u]);
                    }
                } else {
                    assert(!seq_blank(line)) by {
                        let w = choose|w: int| pos <= w < line_end && !is_unicode_ws(
                            #[trigger] text@[w],
                        );
                        assert(line[w - pos] == text@[w]);
                    }
                }
            }
        }
        let ghost pre = out@;
        if content_style && is_blank {
            push_str_chars(out, ">\n");
        } else {
            push_str_chars(out, "> ");
            let mut t2: usize = pos;
            let ghost base2 = out@;
            while t2 < line_end
                invariant
                    n == text@.len(),
                    pos <= t2 <= line_end <= n,
                    out@ == base2 + text@.subrange(pos as int, t2 as int),
                decreases line_end - t2,
            {
                out.push(text[t2]);
                proof {
                    assert(text@.subrange(pos as int, t2 + 1) =~= text@.subrange(
                        pos as int,
                        t2 as int,
                    ).push(text@[t2 as int]));
                }
                t2 = t2 + 1;
            }
            push_str_chars(out, "\n");
        }
        proof {
            // one line of the spec was emitted
            let k = not_nl_run(rest) as int;
            assert(k == j - pos);
            if j < n {
                assert(split_lines(rest) == seq![strip_cr(rest.subrange(0, k))] + split_lines(
                    rest.skip(k + 1),
                ));
            } else {
                assert(k == rest.len());
                assert(split_lines(rest) == seq![strip_cr(rest)]);
                assert(rest.subrange(0, k) =~= rest);
                assert(split_lines(rest) =~= seq![strip_cr(rest.subrange(0, k))] + split_lines(
                    Seq::<char>::empty(),
                ));
            }
            assert(rest.subrange(0, k) =~= raw_line);
            let tail_lines = if j < n {
                split_lines(rest.skip(k + 1))
            } else {
                split_lines(Seq::<char>::empty())
            };
            assert(split_lines(rest) =~= seq![line] + tail_lines);
            if content_style {
                lemma_quote_content_prepend(line, tail_lines);
                assert(quote_content_lines(split_lines(rest)) =~= (if seq_blank(line) {
                    ">\n"@
                } else {
                    "> "@ + line + "\n"@
                }) + quote_content_lines(tail_lines));
                assert(out@ =~= pre + (if seq_blank(line) {
                    ">\n"@
                } else {
                    "> "@ + line + "\n"@
                }));
            } else {
                lemma_quote_all_prepend(line, tail_lines);
                assert(quote_all_lines(split_lines(rest)) =~= ("> "@ + line + "\n"@)
                    + quote_all_lines(tail_lines));
                assert(out@ =~= pre + ("> "@ + line + "\n"@));
            }
            if j < n {
                assert(rest.skip(k + 1) =~= text@.skip(j + 1));
            } else {
                assert(text@.skip(n as int) =~= Seq::<char>::empty());
            }
        }
        if j < n {
            pos = j + 1;
        } else {
            pos = n;
        }
    }
    proof {
        assert(text@.skip(n as int) =~= Seq::<char>::empty());
    }
}

proof fn lemma_quote_all_prepend(line: Seq<char>, rest: Seq<Seq<char>>)
    ensures
        quote_all_lines(seq![line] + rest) == ("> "@ + line + "\n"@) + quote_all_lines(rest),
    decreases rest.len(),
{
    if rest.len() == 0 {
        assert(seq![line] + rest =~= seq![line]);
        assert(seq![line].drop_last() =~= Seq::<Seq<char>>::empty());
        assert(seq![line].last() == line);
        assert(quote_all_lines(seq![line]) == quote_all_lines(Seq::<Seq<char>>::empty()) + "> "@
            + line + "\n"@);
        assert(quote_all_lines(seq![line] + rest) =~= ("> "@ + line + "\n"@) + quote_all_lines(
            rest,
        ));
    } else {
        let all = seq![line] + rest;
        assert(all.drop_last() =~= seq![line] + rest.drop_last());
        assert(all.last() == rest.last());
        lemma_quote_all_prepend(line, rest.drop_last());
        assert(quote_all_lines(all) =~= ("> "@ + line + "\n"@) + quote_all_lines(rest));
    }
}

proof fn lemma_quote_content_prepend(line: Seq<char>, rest: Seq<Seq<char>>)
    ensures
        quote_content_lines(seq![line] + rest) == (if seq_blank(line) {
            ">\n"@
        } else {
            "> "@ + line + "\n"@
        }) + quote_content_lines(rest),
    decreases rest.len(),
{
    if rest.len() == 0 {
        assert(seq![line] + rest =~= seq![line]);
        assert(seq![line].drop_last() =~= Seq::<Seq<char>>::empty());
        assert(seq![line].last() == line);
        assert(quote_content_lines(seq![line]) == quote_content_lines(Seq::<Seq<char>>::empty())
            + (if seq_blank(line) {
            ">\n"@
        } else {
            "> "@ + line + "\n"@
        }));
        assert(quote_content_lines(seq![line] + rest) =~= (if seq_blank(line) {
            ">\n"@
        } else {
            "> "@ + line + "\n"@
        }) + quote_content_lines(rest));
    } else {
        let all = seq![line] + rest;
        assert(all.drop_last() =~= seq![line] + rest.drop_last());
        assert(all.last() == rest.last());
        lemma_quote_content_prepend(line, rest.drop_last());
        assert(quote_content_lines(all) =~= (if seq_blank(line) {
            ">\n"@
        } else {
            "> "@ + line + "\n"@
        }) + quote_content_lines(rest));
    }
}

/// Appends one block's Markdown.
fn push_block_md(out: &mut Vec<char>, b: &ContentBlock)
    ensures
        final(out)@ == old(out)@ + md_block(b.deep_view()),
{
    match b {
        ContentBlock::Paragraph(c) => {
            push_text_md(out, c);
            push_str_chars(out, "\n\n");
        },
        ContentBlock::Heading { level, content } => {
            let mut h: usize = 0;
            let lv = *level as usize;
            proof {
                assert(hashes(0) =~= Seq::<char>::empty());
                assert(out@ + hashes(0) =~= out@);
            }
            let ghost base = out@;
            while h < lv + 3
                invariant
                    h <= lv + 3,
                    lv == *level as usize,
                    out@ == base + hashes(h as nat),
                decreases lv + 3 - h,
            {
                push_str_chars(out, "#");
                h = h + 1;
            }
            push_str_chars(out, " ");
            push_text_md(out, content);
            push_str_chars(out, "\n\n");
        },
        ContentBlock::List { ordered, items } => {
            let ghost base = out@;
            let mut i: usize = 0;
            proof {
                assert(items.deep_view().take(0) =~= Seq::<TextV>::empty());
                assert(base + md_list_items(items.deep_view().take(0), *ordered) =~= base);
            }
            while i < items.len()
                invariant
                    i <= items.len(),
                    items.deep_view().len() == items@.len(),
                    forall|j: int| 0 <= j < items@.len() ==> items.deep_view()[j] == (
                    #[trigger] items@[j]).deep_view(),
                    out@ == base + md_list_items(items.deep_view().take(i as int), *ordered),
                decreases items.len() - i,
            {
                if *ordered {
                    let d = crate::strs::u64_dec_chars((i + 1) as u64);
                    push_chars(out, &d);
                    push_str_chars(out, ". ");
                } else {
                    push_str_chars(out, "- ");
                }
                push_text_md(out, &items[i]);
                push_str_chars(out, "\n");
                proof {
                    let iv = items.deep_view();
                    assert(iv.take(i + 1).drop_last() =~= iv.take(i as int));
                    assert(iv.take(i + 1).last() == iv[i as int]);
                    assert(iv.take(i + 1).len() == i + 1);
                }
                i = i + 1;
            }
            proof {
                assert(items.deep_view().take(items@.len() as int) =~= items.deep_view());
            }
            push_str_chars(out, "\n");
        },
        ContentBlock::Quote(c) => {
            let mut inner: Vec<char> = Vec::new();
            push_text_md(&mut inner, c);
            push_quoted_lines(out, &inner, false);
            push_str_chars(out, "\n");
        },
        ContentBlock::Code { language, content } => {
            push_str_chars(out, "```");
            match language {
                Some(l) => push_str_chars(out, l.as_str()),
                None => {},
            }
            push_str_chars(out, "\n");
            push_str_chars(out, content.as_str());
            push_str_chars(out, "\n```\n\n");
        },
        ContentBlock::Link { url, text } => {
            push_str_chars(out, "[");
            push_str_chars(out, text.as_str());
            push_str_chars(out, "](");
            push_str_chars(out, url.as_str());
            push_str_chars(out, ")\n\n");
        },
        ContentBlock::Image { url, alt } => {
            push_str_chars(out, "![");
            match alt {
                Some(a) => push_str_chars(out, a.as_str()),
                None => {},
            }
            push_str_chars(out, "](");
            push_str_chars(out, url.as_str());
            push_str_chars(out, ")\n\n");
        },
        ContentBlock::Raw(s) => {
            push_str_chars(out, "```html\n");
            push_str_chars(out, s.as_str());
            push_str_chars(out, "\n```\n\n");
        },
    }
}

/// Appends the Markdown of a sequence of blocks.
fn push_blocks_md(out: &mut Vec<char>, bs: &Vec<ContentBlock>)
    ensures
        final(out)@ == old(out)@ + md_blocks(bs.deep_view()),
{
    let mut i: usize = 0;
    proof {
        assert(bs.deep_view().take(0) =~= Seq::<BlockV>::empty());
        assert(old(out)@ + md_blocks(bs.deep_view().take(0)) =~= old(out)@);
    }
    while i < bs.len()
        invariant
            i <= bs.len(),
            bs.deep_view().len() == bs@.len(),
            forall|j: int| 0 <= j < bs@.len() ==> bs.deep_view()[j] == (
            #[trigger] bs@[j]).deep_view(),
            out@ == old(out)@ + md_blocks(bs.deep_view().take(i as int)),
        decreases bs.len() - i,
    {
        push_block_md(out, &bs[i]);
        proof {
            let bv = bs.deep_view();
            assert(bv.take(i + 1).drop_last() =~= bv.take(i as int));
            assert(bv.take(i + 1).last() == bv[i as int]);
        }
        i = i + 1;
    }
    proof {
        assert(bs.deep_view().take(bs@.len() as int) =~= bs.deep_view());
    }
}

/// Appends one comment's Markdown.
fn push_comment_md(out: &mut Vec<char>, c: &crate::ast::Comment)
    ensures
        final(out)@ == old(out)@ + md_comment(c@),
{
    push_str_chars(out, "> **");
    push_str_chars(out, c.author.as_str());
    push_str_chars(out, "** (Score: ");
    let up = c.upvotes;
    let down = c.downvotes;
    if up >= down {
        let d = crate::strs::u64_dec_chars((up - down) as u64);
        push_chars(out, &d);
        proof {
            assert(int_dec(c@.upvotes - c@.downvotes) == dec_rep((up - down) as nat));
        }
    } else {
        out.push('-');
        let d = crate::strs::u64_dec_chars((down - up) as u64);
        push_chars(out, &d);
        proof {
            assert(int_dec(c@.upvotes - c@.downvotes) =~= seq!['-'] + dec_rep((down - up) as nat));
        }
    }
    push_str_chars(out, ")\n");
    match &c.timestamp {
        Some(t) => {
            push_str_chars(out, "> *");
            push_str_chars(out, t.as_str());
            push_str_chars(out, "*\n");
        },
        None => {},
    }
    push_str_chars(out, ">\n");
    let ghost base = out@;
    let mut i: usize = 0;
    proof {
        assert(c@.content.take(0) =~= Seq::<BlockV>::empty());
        assert(base + md_comment_body(c@.content.take(0)) =~= base);
    }
    while i < c.content.len()
        invariant
            i <= c.content.len(),
            c@.content.len() == c.content@.len(),
            forall|j: int| 0 <= j < c.content@.len() ==> c@.content[j] == (
            #[trigger] c.content@[j]).deep_view(),
            out@ == base + md_comment_body(c@.content.take(i as int)),
        decreases c.content.len() - i,
    {
        let mut inner: Vec<char> = Vec::new();
        push_block_md(&mut inner, &c.content[i]);
        push_quoted_lines(out, &inner, true);
        proof {
            assert(c@.content.take(i + 1).drop_last() =~= c@.content.take(i as int));
            assert(c@.content.take(i + 1).last() == c@.content[i as int]);
        }
        i = i + 1;
    }
    proof {
        assert(c@.content.take(c.content@.len() as int) =~= c@.content);
    }
    push_str_chars(out, "\n");
}

/// Appends an article's header lines.
#[verifier::rlimit(100)]
fn push_article_header_md(out: &mut Vec<char>, a: &crate::ast::Article)
    ensures
        final(out)@ == old(out)@ + md_article_header(a@),
{
    push_str_chars(out, "### ");
    push_str_chars(out, a.title.as_str());
    push_str_chars(out, "\n\n");
    match &a.metadata.published_date {
        Some(d) => {
            push_str_chars(out, "**Published:** ");
            push_str_chars(out, d.as_str());
            push_str_chars(out, "\n");
        },
        None => {},
    }
    match &a.metadata.author {
        Some(au) => {
            push_str_chars(out, "**Author:** ");
            push_str_chars(out, au.as_str());
            push_str_chars(out, "\n");
        },
        None => {},
    }
    push_str_chars(out, "**Source:** ");
    push_str_chars(out, a.metadata.feed_name.as_str());
    push_str_chars(out, "\n");
    match &a.metadata.url {
        Some(u) => {
            push_str_chars(out, "**Link:** [Read original article](");
            push_str_chars(out, u.as_str());
            push_str_chars(out, ")\n");
        },
        None => {},
    }
    push_str_chars(out, "\n");
    proof {
        assert(out@ =~= old(out)@ + md_article_header(a@));
    }
}

/// Appends one article's Markdown.
fn push_article_md(out: &mut Vec<char>, a: &crate::ast::Article)
    ensures
        final(out)@ == old(out)@ + md_article(a@),
{
    push_article_header_md(out, a);
    push_blocks_md(out, &a.content);
    if a.comments.len() > 0 {
        push_str_chars(out, "\n#### Top Comments\n\n");
        let ghost base = out@;
        let mut i: usize = 0;
        proof {
            assert(a@.comments.take(0) =~= Seq::<CommentV>::empty());
            assert(base + md_comments(a@.comments.take(0)) =~= base);
        }
        while i < a.comments.len()
            invariant
                i <= a.comments.len(),
                a@.comments.len() == a.comments@.len(),
                forall|j: int| 0 <= j < a.comments@.len() ==> a@.comments[j] == (
                #[trigger] a.comments@[j]).deep_view(),
                out@ == base + md_comments(a@.comments.take(i as int)),
            decreases a.comments.len() - i,
        {
            push_comment_md(out, &a.comments[i]);
            proof {
                assert(a@.comments.take(i + 1).drop_last() =~= a@.comments.take(i as int));
                assert(a@.comments.take(i + 1).last() == a@.comments[i as int]);
            }
            i = i + 1;
        }
        proof {
            assert(a@.comments.take(a.comments@.len() as int) =~= a@.comments);
        }
    }
}

/// Appends one feed's Markdown section.
#[verifier::rlimit(100)]
#[verifier::spinoff_prover]
fn push_feed_md(out: &mut Vec<char>, f: &crate::ast::Feed)
    ensures
        final(out)@ == old(out)@ + md_feed(f@),
{
    push_str_chars(out, "## ");
    push_str_chars(out, f.name.as_str());
    push_str_chars(out, "\n\n");
    match &f.description {
        Some(d) => {
            push_str_chars(out, d.as_str());
            push_str_chars(out, "\n\n");
        },
        None => {},
    }
    push_str_chars(out, "**Total Articles:** ");
    let d = crate::strs::u64_dec_chars(f.articles.len() as u64);
    push_chars(out, &d);
    push_str_chars(out, "\n\n");
    let ghost base = out@;
    let mut i: usize = 0;
    proof {
        assert(f@.articles.take(0) =~= Seq::<ArticleV>::empty());
        assert(base + md_feed_articles(f@.articles.take(0)) =~= base);
    }
    while i < f.articles.len()
        invariant
            i <= f.articles.len(),
            f@.articles.len() == f.articles@.len(),
            forall|j: int| 0 <= j < f.articles@.len() ==> f@.articles[j] == (
            #[trigger] f.articles@[j]).deep_view(),
            out@ == base + md_feed_articles(f@.articles.take(i as int)),
        decreases f.articles.len() - i,
    {
        push_article_md(out, &f.articles[i]);
        push_str_chars(out, "\n---\n\n");
        proof {
            assert(f@.articles.take(i + 1).drop_last() =~= f@.articles.take(i as int));
            assert(f@.articles.take(i + 1).last() == f@.articles[i as int]);
        }
        i = i + 1;
    }
    proof {
        assert(f@.articles.take(f.articles@.len() as int) =~= f@.articles);
    }
}

// ===== The renderer type =====

/// The Markdown renderer.  It carries no state: rendering is a pure
/// function of the model value.
pub struct MarkdownOutputter;

impl MarkdownOutputter {
    /// A fresh renderer.
    pub fn new() -> MarkdownOutputter {
        MarkdownOutputter
    }

    /// The anchor slug of a title, for table-of-contents links.
    pub fn to_anchor(&self, text: &str) -> (r: String)
        ensures
            r@ == slug_of(text@),
    {
        let low = lowercase(text);
        let v = str_to_chars(low.as_str());
        let mut out: Vec<char> = Vec::new();
        let mut i: usize = 0;
        proof {
            assert(v@.take(0) =~= Seq::<char>::empty());
            assert(out@ =~= keep_slug_chars(drop_punct(sp_to_dash(v@.take(0)))));
        }
        while i < v.len()
            invariant
                i <= v.len(),
                v@ == lower_of(text@),
                out@ == keep_slug_chars(drop_punct(sp_to_dash(v@.take(i as int)))),
            decreases v.len() - i,
        {
            let c0 = v[i];
            let c = if c0 == ' ' {
                '-'
            } else {
                c0
            };
            if !slug_punct_exec(c) {
                if char_is_alnum(c) || c == '-' || c == '_' {
                    out.push(c);
                }
            }
            proof {
                let pre = v@.take(i as int);
                let cur = v@.take(i + 1);
                assert(cur.drop_last() =~= pre);
                assert(cur.last() == v@[i as int]);
                assert(sp_to_dash(cur) =~= sp_to_dash(pre).push(c));
                lemma_drop_punct_snoc(sp_to_dash(pre), c);
                if is_slug_punct(c) {
                    assert(drop_punct(sp_to_dash(cur)) =~= drop_punct(sp_to_dash(pre)));
                } else {
                    assert(drop_punct(sp_to_dash(cur)) =~= drop_punct(sp_to_dash(pre)).push(c));
                    lemma_keep_slug_snoc(drop_punct(sp_to_dash(pre)), c);
                }
                assert(out@ =~= keep_slug_chars(drop_punct(sp_to_dash(cur))));
            }
            i = i + 1;
        }
        proof {
            assert(v@.take(v@.len() as int) =~= v@);
        }
        chars_to_string(out)
    }

    /// Renders inline text content to Markdown.
    pub fn render_text_content_to_markdown(&self, content: &TextContent) -> (r: String)
        ensures
            r@ == md_text(content@),
    {
        let mut out: Vec<char> = Vec::new();
        push_text_md(&mut out, content);
        chars_to_string(out)
    }

    /// Renders one block to Markdown.
    pub fn render_content_block_to_markdown(&self, block: &ContentBlock) -> (r: String)
        ensures
            r@ == md_block(block.deep_view()),
    {
        let mut out: Vec<char> = Vec::new();
        push_block_md(&mut out, block);
        chars_to_string(out)
    }

    /// Renders one comment, fully quoted.
    pub fn render_comment_to_markdown(&self, comment: &crate::ast::Comment) -> (r: String)
        ensures
            r@ == md_comment(comment@),
    {
        let mut out: Vec<char> = Vec::new();
        push_comment_md(&mut out, comment);
        chars_to_string(out)
    }

    /// Renders one article with its comments.
    pub fn render_article_to_markdown(&self, article: &crate::ast::Article) -> (r: String)
        ensures
            r@ == md_article(article@),
    {
        let mut out: Vec<char> = Vec::new();
        push_article_md(&mut out, article);
        chars_to_string(out)
    }

    /// Renders one feed section.
    pub fn render_feed_to_markdown(&self, feed: &crate::ast::Feed) -> (r: String)
        ensures
            r@ == md_feed(feed@),
    {
        let mut out: Vec<char> = Vec::new();
        push_feed_md(&mut out, feed);
        chars_to_string(out)
    }

    /// Renders the whole document: title, metadata, the table of contents
    /// and every feed section.
    pub fn render_document_to_markdown(&self, document: &Document) -> (r: String)
        ensures
            r@ == md_document(document@),
    {
        let mut out: Vec<char> = Vec::new();
        push_str_chars(&mut out, "# ");
        push_str_chars(&mut out, document.metadata.title.as_str());
        push_str_chars(&mut out, "\n\n");
        match &document.metadata.description {
            Some(de) => {
                push_str_chars(&mut out, de.as_str());
                push_str_chars(&mut out, "\n\n");
            },
            None => {},
        }
        push_str_chars(&mut out, "**Author:** ");
        push_str_chars(&mut out, document.metadata.author.as_str());
        push_str_chars(&mut out, "\n**Generated:** ");
        push_str_chars(&mut out, document.metadata.generated_at.as_str());
        push_str_chars(&mut out, "\n**Total Articles:** ");
        let total = document.total_articles();
        let d = crate::strs::u64_dec_chars(total as u64);
        push_chars(&mut out, &d);
        proof {
            assert(total as nat == sat_count(document@.feeds));
        }
        push_str_chars(&mut out, "\n\n## Table of Contents\n\n");
        let ghost base = out@;
        let mut i: usize = 0;
        proof {
            assert(document@.feeds.take(0) =~= Seq::<FeedV>::empty());
            assert(base + md_toc(document@.feeds.take(0)) =~= base);
        }
        while i < document.feeds.len()
            invariant
                i <= document.feeds.len(),
                document@.feeds.len() == document.feeds@.len(),
                forall|j: int| 0 <= j < document.feeds@.len() ==> document@.feeds[j] == (
                #[trigger] document.feeds@[j]).deep_view(),
                out@ == base + md_toc(document@.feeds.take(i as int)),
            decreases document.feeds.len() - i,
        {
            let feed = &document.feeds[i];
            push_str_chars(&mut out, "- [");
            push_str_chars(&mut out, feed.name.as_str());
            push_str_chars(&mut out, "](#");
            let anchor = self.to_anchor(feed.name.as_str());
            push_str_chars(&mut out, anchor.as_str());
            push_str_chars(&mut out, ")\n");
            let ghost base2 = out@;
            let mut j: usize = 0;
            proof {
                let fv = feed@;
                assert(fv.articles.take(0) =~= Seq::<ArticleV>::empty());
                assert(base2 + md_toc_articles(fv.articles.take(0)) =~= base2);
            }
            while j < feed.articles.len()
                invariant
                    i < document.feeds.len(),
                    j <= feed.articles.len(),
                    feed == &document.feeds[i as int],
                    feed@.articles.len() == feed.articles@.len(),
                    forall|t: int| 0 <= t < feed.articles@.len() ==> feed@.articles[t] == (
                    #[trigger] feed.articles@[t]).deep_view(),
                    out@ == base2 + md_toc_articles(feed@.articles.take(j as int)),
                decreases feed.articles.len() - j,
            {
                let article = &feed.articles[j];
                push_str_chars(&mut out, "  - [");
                push_str_chars(&mut out, article.title.as_str());
                push_str_chars(&mut out, "](#");
                let anchor2 = self.to_anchor(article.title.as_str());
                push_str_chars(&mut out, anchor2.as_str());
                push_str_chars(&mut out, ")\n");
                proof {
                    let av = feed@.articles;
                    assert(av.take(j + 1).drop_last() =~= av.take(j as int));
                    assert(av.take(j + 1).last() == av[j as int]);
                }
                j = j + 1;
            }
            proof {
                let fv = feed@;
                assert(fv.articles.take(feed.articles@.len() as int) =~= fv.articles);
                assert(document@.feeds.take(i + 1).drop_last() =~= document@.feeds.take(i as int));
                assert(document@.feeds.take(i + 1).last() == document@.feeds[i as int]);
                assert(out@ =~= base + md_toc(document@.feeds.take(i + 1)));
            }
            i = i + 1;
        }
        proof {
            assert(document@.feeds.take(document.feeds@.len() as int) =~= document@.feeds);
        }
        push_str_chars(&mut out, "\n---\n\n");
        let ghost base3 = out@;
        let mut k: usize = 0;
        proof {
            assert(document@.feeds.take(0) =~= Seq::<FeedV>::empty());
            assert(base3 + md_feeds(document@.feeds.take(0)) =~= base3);
        }
        while k < document.feeds.len()
            invariant
                k <= document.feeds.len(),
                document@.feeds.len() == document.feeds@.len(),
                forall|j: int| 0 <= j < document.feeds@.len() ==> document@.feeds[j] == (
                #[trigger] document.feeds@[j]).deep_view(),
                out@ == base3 + md_feeds(document@.feeds.take(k as int)),
            decreases document.feeds.len() - k,
        {
            push_feed_md(&mut out, &document.feeds[k]);
            proof {
                assert(document@.feeds.take(k + 1).drop_last() =~= document@.feeds.take(k as int));
                assert(document@.feeds.take(k + 1).last() == document@.feeds[k as int]);
            }
            k = k + 1;
        }
        proof {
            assert(document@.feeds.take(document.feeds@.len() as int) =~= document@.feeds);
        }
        chars_to_string(out)
    }
}

/// Whether a character is in the slug punctuation set.
fn slug_punct_exec(c: char) -> (r: bool)
    ensures
        r == is_slug_punct(c),
{
    c == '(' || c == ')' || c == '[' || c == ']' || c == '{' || c == '}' || c == '<' || c == '>'
        || c == '"' || c == '\'' || c == '/' || c == '\\' || c == '|' || c == '?' || c == '*'
        || c == '&' || c == '%' || c == '$' || c == '#' || c == '@' || c == '!' || c == '^'
        || c == '~' || c == '`' || c == '+' || c == '=' || c == ',' || c == '.' || c == ';'
        || c == ':'
}

proof fn lemma_drop_punct_snoc(s: Seq<char>, c: char)
    ensures
        drop_punct(s.push(c)) == drop_punct(s) + (if is_slug_punct(c) {
            Seq::<char>::empty()
        } else {
            seq![c]
        }),
{
    assert(s.push(c).drop_last() =~= s);
    assert(s.push(c).last() == c);
}

proof fn lemma_keep_slug_snoc(s: Seq<char>, c: char)
    ensures
        keep_slug_chars(s.push(c)) == keep_slug_chars(s) + (if is_unicode_alnum(c) || c == '-'
            || c == '_' {
            seq![c]
        } else {
            Seq::<char>::empty()
        }),
{
    assert(s.push(c).drop_last() =~= s);
    assert(s.push(c).last() == c);
}

} // verus!
