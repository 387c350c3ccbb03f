//! Library-wide laws: statements that relate several functions, proved
//! over the same spec functions and views their contracts use.

use crate::ast::{BlockV, DocumentV, TextV};
use crate::epub_outputter::html_block;
use crate::markdown_outputter::{hashes, md_block, md_document, md_text};
use crate::parser::{parse_result, strip_spec};
use crate::strs::seq_blank;
use vstd::prelude::*;

verus! {

/// Non-loss on fallback: a non-blank input whose stripped text is
/// non-empty never parses to an empty block sequence.  (A non-blank input
/// whose markup carries no text at all, such as a lone empty inline tag,
/// can still yield nothing.)
pub proof fn lemma_parse_non_loss(html: Seq<char>)
    requires
        !seq_blank(html),
        strip_spec(html).len() > 0,
    ensures
        parse_result(html).len() > 0,
{
}

/// Idempotent rendering, HTML: the rendered text of a block is a function
/// of the block value alone, so two renderings are byte-identical.
pub proof fn lemma_html_rendering_deterministic(b: BlockV, r1: Seq<char>, r2: Seq<char>)
    requires
        r1 == html_block(b),
        r2 == html_block(b),
    ensures
        r1 == r2,
{
}

/// Idempotent rendering, Markdown: the rendered text of a document is a
/// function of the document value alone, so two renderings are
/// byte-identical.
pub proof fn lemma_markdown_rendering_deterministic(d: DocumentV, r1: Seq<char>, r2: Seq<char>)
    requires
        r1 == md_document(d),
        r2 == md_document(d),
    ensures
        r1 == r2,
{
}

/// Markdown heading offset: a level-one heading block renders at four hash
/// marks, because the document title, feed names and article titles occupy
/// the first three heading levels.
pub proof fn lemma_markdown_heading_offset(content: TextV)
    ensures
        md_block(BlockV::Heading { level: 1, content }) == seq!['#', '#', '#', '#', ' ']
            + md_text(content) + "\n\n"@,
{
    reveal_strlit("#");
    reveal_strlit(" ");
    assert(hashes(0) =~= Seq::<char>::empty());
    assert(hashes(1) =~= seq!['#']);
    assert(hashes(2) =~= seq!['#', '#']);
    assert(hashes(3) =~= seq!['#', '#', '#']);
    assert(hashes(4) =~= seq!['#', '#', '#', '#']);
    assert(md_block(BlockV::Heading { level: 1, content }) == hashes(4) + " "@ + md_text(content)
        + "\n\n"@);
    assert(hashes(4) + " "@ =~= seq!['#', '#', '#', '#', ' ']);
    assert(md_block(BlockV::Heading { level: 1, content }) =~= seq!['#', '#', '#', '#', ' ']
        + md_text(content) + "\n\n"@);
}

} // verus!
