//! Forum comment extraction: finds comment blocks in a scraped thread page
//! and reads author, content, votes and timestamp out of each, then ranks
//! them by net score.  Fetching the pages happens outside the library.

use crate::ast::opt_str_view;
use crate::dom::{attr_of, elem_view, flat_text_of_children, flat_text_seq, node_view, nodes_view,
    ElemV, HtmlElement, HtmlNode, NodeV};
use crate::strs::{
    chars_to_string, chars_are_blank, is_unicode_ws, push_str_chars, remove_sub_all, seq_blank,
    str_to_chars, trim_chars, trim_seq,
};
use crate::parser::{dec_run, dec_val, is_dec_digit, lemma_dec_run};
use vstd::multiset::Multiset;
use vstd::prelude::*;

verus! {

broadcast use vstd::seq_lib::group_to_multiset_ensures;

// ===== The comment record =====

/// View of a forum comment.
pub struct ArsCommentV {
    pub content: Seq<char>,
    pub author: Seq<char>,
    pub upvotes: u32,
    pub downvotes: u32,
    pub timestamp: Option<Seq<char>>,
}

/// One extracted forum comment.
#[derive(Debug, Clone, PartialEq)]
pub struct Comment {
    pub content: String,
    pub author: String,
    pub upvotes: u32,
    pub downvotes: u32,
    pub timestamp: Option<String>,
}

impl View for Comment {
    type V = ArsCommentV;

    open spec fn view(&self) -> ArsCommentV {
        ArsCommentV {
            content: self.content@,
            author: self.author@,
            upvotes: self.upvotes,
            downvotes: self.downvotes,
            timestamp: opt_str_view(self.timestamp),
        }
    }
}

impl DeepView for Comment {
    type V = ArsCommentV;

    open spec fn deep_view(&self) -> ArsCommentV {
        self.view()
    }
}

/// A comment's net score.
pub open spec fn net_score(c: ArsCommentV) -> int {
    c.upvotes - c.downvotes
}

// ===== Class matching =====

/// Whether a token list holds the given token.
pub open spec fn token_in(ts: Seq<Seq<char>>, t: Seq<char>) -> bool
    decreases ts.len(),
{
    if ts.len() == 0 {
        false
    } else {
        ts[0] == t || token_in(ts.drop_first(), t)
    }
}

/// Whether an element's `class` attribute holds the given class token.
pub open spec fn has_cls(e: ElemV, t: Seq<char>) -> bool {
    match attr_of(e.attrs, "class"@) {
        Some(c) => token_in(crate::parser::ws_tokens(c), t),
        None => false,
    }
}

/// Whether an element has the given class token.
fn elem_has_class(e: &HtmlElement, t: &str) -> (r: bool)
    ensures
        r == has_cls(elem_view(*e), t@),
{
    proof {
        assert(elem_view(*e).attrs == e.attrs.deep_view());
    }
    match e.find_attr("class") {
        Some(cls) => {
            proof {
                reveal_strlit("class");
                assert(attr_of(elem_view(*e).attrs, "class"@) == Some(cls@));
            }
            let v = str_to_chars(cls.as_str());
            let n = v.len();
            let mut pos: usize = 0;
            proof {
                assert(v@.skip(0) =~= v@);
            }
            while pos < n
                invariant
                    n == v@.len(),
                    v@ == cls@,
                    pos <= n,
                    attr_of(elem_view(*e).attrs, "class"@) == Some(cls@),
                    token_in(crate::parser::ws_tokens(cls@), t@) == token_in(
                        crate::parser::ws_tokens(v@.skip(pos as int)),
                        t@,
                    ),
                decreases n - pos,
            {
                let ghost rest = v@.skip(pos as int);
                proof {
                    assert(rest[0] == v@[pos as int]);
                    assert(rest.drop_first() =~= v@.skip(pos + 1));
                }
                let c = v[pos];
                if crate::strs::char_is_ws(c) {
                    proof {
                        assert(crate::parser::ws_tokens(rest) == crate::parser::ws_tokens(
                            rest.drop_first(),
                        ));
                    }
                    pos = pos + 1;
                } else {
                    // scan the token
                    let mut j: usize = pos + 1;
                    while j < n && !crate::strs::char_is_ws(v[j])
                        invariant
                            n == v@.len(),
                            pos + 1 <= j <= n,
                            forall|u: int| pos + 1 <= u < j ==> !is_unicode_ws(v@[u]),
                        decreases n - j,
                    {
                        j = j + 1;
                    }
                    proof {
                        let tail = rest.skip(1);
                        assert(tail =~= v@.skip(pos + 1));
                        crate::parser::lemma_non_ws_run(tail);
                        assert forall|u: int| 0 <= u < j - pos - 1 implies !is_unicode_ws(
                            tail[u],
                        ) by {
                            assert(tail[u] == v@[pos + 1 + u]);
                        }
                        if crate::parser::non_ws_run(tail) < j - pos - 1 {
                            assert(is_unicode_ws(tail[crate::parser::non_ws_run(tail) as int]));
                        }
                        if j < n {
                            assert(tail[j - pos - 1] == v@[j as int]);
                            assert(crate::parser::non_ws_run(tail) == j - pos - 1);
                        } else {
                            assert(crate::parser::non_ws_run(tail) == tail.len());
                        }
                    }
                    let ghost token = v@.subrange(pos as int, j as int);
                    proof {
                        let k = 1 + crate::parser::non_ws_run(rest.skip(1)) as int;
                        assert(k == j - pos);
                        assert(crate::parser::ws_tokens(rest) == seq![rest.subrange(0, k)]
                            + crate::parser::ws_tokens(rest.skip(k)));
                        assert(rest.subrange(0, k) =~= token);
                        assert(rest.skip(k) =~= v@.skip(j as int));
                        assert(crate::parser::ws_tokens(rest)[0] == token);
                        assert(crate::parser::ws_tokens(rest).drop_first()
                            =~= crate::parser::ws_tokens(v@.skip(j as int)));
                    }
                    // compare the token with the wanted class
                    let tn = t.unicode_len();
                    let mut same: bool = j - pos == tn;
                    let mut u: usize = 0;
                    while same && u < j - pos
                        invariant
                            n == v@.len(),
                            pos < j <= n,
                            tn == t@.len(),
                            u <= j - pos,
                            same ==> j - pos == tn,
                            same ==> forall|w: int| 0 <= w < u ==> v@[pos + w] == t@[w],
                            !same ==> v@.subrange(pos as int, j as int) != t@,
                        decreases j - pos - u + (if same {
                            1int
                        } else {
                            0int
                        }),
                    {
                        if v[pos + u] != t.get_char(u) {
                            proof {
                                assert(v@.subrange(pos as int, j as int)[u as int] == v@[pos + u]);
                            }
                            same = false;
                        } else {
                            u = u + 1;
                        }
                    }
                    proof {
                        if same {
                            assert(token =~= t@);
                        }
                    }
                    if same {
                        proof {
                            assert(crate::parser::ws_tokens(rest).len() > 0);
                            assert(token_in(crate::parser::ws_tokens(rest), t@));
                            assert(token_in(crate::parser::ws_tokens(cls@), t@));
                            reveal_strlit("class");
                            assert(has_cls(elem_view(*e), t@));
                        }
                        return true;
                    }
                    proof {
                        assert(token != t@);
                        assert(crate::parser::ws_tokens(rest).len() > 0);
                        assert(token_in(crate::parser::ws_tokens(rest), t@) == token_in(
                            crate::parser::ws_tokens(v@.skip(j as int)),
                            t@,
                        ));
                    }
                    pos = j;
                }
            }
            proof {
                assert(v@.skip(n as int) =~= Seq::<char>::empty());
                reveal_strlit("class");
                assert(!has_cls(elem_view(*e), t@));
            }
            false
        },
        None => {
            proof {
                reveal_strlit("class");
                assert(attr_of(elem_view(*e).attrs, "class"@) is None);
                assert(!has_cls(elem_view(*e), t@));
            }
            false
        },
    }
}

// ===== First-match searches over the tree =====

/// The first descendant element with the given class, inside one node.
pub open spec fn fwc_node(n: NodeV, t: Seq<char>) -> Option<ElemV>
    decreases n,
{
    match n {
        NodeV::Element(e) => if has_cls(e, t) {
            Some(e)
        } else {
            fwc_seq(e.children, t)
        },
        _ => None,
    }
}

/// The first element with the given class among nodes and their
/// descendants, in document order.
pub open spec fn fwc_seq(ns: Seq<NodeV>, t: Seq<char>) -> Option<ElemV>
    decreases ns,
{
    if ns.len() == 0 {
        None
    } else {
        match fwc_seq(ns.drop_last(), t) {
            Some(e) => Some(e),
            None => fwc_node(ns.last(), t),
        }
    }
}

/// The flat text of the first element with the given class, if any.
fn class_elem_text(ns: &Vec<HtmlNode>, t: &str) -> (r: Option<Vec<char>>)
    ensures
        match r {
            Some(v) => fwc_seq(nodes_view(ns@), t@) is Some && v@ == flat_text_seq(
                fwc_seq(nodes_view(ns@), t@)->0.children,
            ),
            None => fwc_seq(nodes_view(ns@), t@) is None,
        },
    decreases *ns,
{
    let ghost views = nodes_view(ns@);
    proof {
        crate::dom::lemma_nodes_view_index(ns@);
    }
    let mut i: usize = 0;
    proof {
        assert(views.take(0) =~= Seq::<NodeV>::empty());
    }
    while i < ns.len()
        invariant
            views == nodes_view(ns@),
            views.len() == ns@.len(),
            forall|j: int| 0 <= j < ns@.len() ==> views[j] == node_view(#[trigger] ns@[j]),
            i <= ns.len(),
            fwc_seq(views.take(i as int), t@) is None,
        decreases ns.len() - i,
    {
        match &ns[i] {
            HtmlNode::Element(e) => {
                proof {
                    assert(ns@[i as int] == HtmlNode::Element(*e));
                    assert(views[i as int] == NodeV::Element(elem_view(*e)));
                    assert(elem_view(*e).children == nodes_view(e.children@));
                }
                if elem_has_class(e, t) {
                    let txt = flat_text_of_children(&e.children);
                    proof {
                        assert(fwc_node(views[i as int], t@) == Some(elem_view(*e)));
                        assert(views.take(i + 1).drop_last() =~= views.take(i as int));
                        assert(views.take(i + 1).last() == views[i as int]);
                        assert(fwc_seq(views.take(i + 1), t@) == Some(elem_view(*e)));
                        lemma_fwc_extend(views, i as int, t@);
                    }
                    return Some(txt);
                }
                match class_elem_text(&e.children, t) {
                    Some(txt) => {
                        proof {
                            assert(fwc_node(views[i as int], t@) == fwc_seq(
                                nodes_view(e.children@),
                                t@,
                            ));
                            assert(views.take(i + 1).drop_last() =~= views.take(i as int));
                            assert(views.take(i + 1).last() == views[i as int]);
                            assert(fwc_seq(views.take(i + 1), t@) == fwc_seq(
                                nodes_view(e.children@),
                                t@,
                            ));
                            lemma_fwc_extend(views, i as int, t@);
                        }
                        return Some(txt);
                    },
                    None => {
                        proof {
                            assert(fwc_node(views[i as int], t@) is None);
                            assert(views.take(i + 1).drop_last() =~= views.take(i as int));
                            assert(views.take(i + 1).last() == views[i as int]);
                        }
                    },
                }
            },
            _ => {
                proof {
                    assert(views.take(i + 1).drop_last() =~= views.take(i as int));
                    assert(views.take(i + 1).last() == views[i as int]);
                }
            },
        }
        i = i + 1;
    }
    proof {
        assert(views.take(ns@.len() as int) =~= views);
    }
    None
}

/// Once a prefix found its match, the whole sequence yields that match.
proof fn lemma_fwc_extend(views: Seq<NodeV>, i: int, t: Seq<char>)
    requires
        0 <= i < views.len(),
        fwc_seq(views.take(i + 1), t) is Some,
    ensures
        fwc_seq(views, t) == fwc_seq(views.take(i + 1), t),
    decreases views.len() - i,
{
    if i + 1 == views.len() {
        assert(views.take(i + 1) =~= views);
    } else {
        assert(views.take(i + 2).drop_last() =~= views.take(i + 1));
        lemma_fwc_extend(views, i + 1, t);
    }
}

// ===== Content and timestamp searches =====

/// The first `bbWrapper`-classed element lying inside a
/// `message-content`-classed element, inside one node.
pub open spec fn fbb_node(n: NodeV, inside: bool) -> Option<ElemV>
    decreases n,
{
    match n {
        NodeV::Element(e) => if inside && has_cls(e, "bbWrapper"@) {
            Some(e)
        } else {
            fbb_seq(e.children, inside || has_cls(e, "message-content"@))
        },
        _ => None,
    }
}

/// The same search over a node list, in document order.
pub open spec fn fbb_seq(ns: Seq<NodeV>, inside: bool) -> Option<ElemV>
    decreases ns,
{
    if ns.len() == 0 {
        None
    } else {
        match fbb_seq(ns.drop_last(), inside) {
            Some(e) => Some(e),
            None => fbb_node(ns.last(), inside),
        }
    }
}

/// The flat text of the first content wrapper, if any.
fn bb_text(ns: &Vec<HtmlNode>, inside: bool) -> (r: Option<Vec<char>>)
    ensures
        match r {
            Some(v) => fbb_seq(nodes_view(ns@), inside) is Some && v@ == flat_text_seq(
                fbb_seq(nodes_view(ns@), inside)->0.children,
            ),
            None => fbb_seq(nodes_view(ns@), inside) is None,
        },
    decreases *ns,
{
    let ghost views = nodes_view(ns@);
    proof {
        crate::dom::lemma_nodes_view_index(ns@);
    }
    let mut i: usize = 0;
    proof {
        assert(views.take(0) =~= Seq::<NodeV>::empty());
    }
    while i < ns.len()
        invariant
            views == nodes_view(ns@),
            views.len() == ns@.len(),
            forall|j: int| 0 <= j < ns@.len() ==> views[j] == node_view(#[trigger] ns@[j]),
            i <= ns.len(),
            fbb_seq(views.take(i as int), inside) is None,
        decreases ns.len() - i,
    {
        match &ns[i] {
            HtmlNode::Element(e) => {
                proof {
                    assert(ns@[i as int] == HtmlNode::Element(*e));
                    assert(views[i as int] == NodeV::Element(elem_view(*e)));
                    assert(elem_view(*e).children == nodes_view(e.children@));
                }
                if inside && elem_has_class(e, "bbWrapper") {
                    let txt = flat_text_of_children(&e.children);
                    proof {
                        assert(fbb_node(views[i as int], inside) == Some(elem_view(*e)));
                        assert(views.take(i + 1).drop_last() =~= views.take(i as int));
                        assert(views.take(i + 1).last() == views[i as int]);
                        assert(fbb_seq(views.take(i + 1), inside) == Some(elem_view(*e)));
                        lemma_fbb_extend(views, i as int, inside);
                    }
                    return Some(txt);
                }
                let inner = inside || elem_has_class(e, "message-content");
                match bb_text(&e.children, inner) {
                    Some(txt) => {
                        proof {
                            assert(fbb_node(views[i as int], inside) == fbb_seq(
                                nodes_view(e.children@),
                                inner,
                            ));
                            assert(views.take(i + 1).drop_last() =~= views.take(i as int));
                            assert(views.take(i + 1).last() == views[i as int]);
                            assert(fbb_seq(views.take(i + 1), inside) == fbb_seq(
                                nodes_view(e.children@),
                                inner,
                            ));
                            lemma_fbb_extend(views, i as int, inside);
                        }
                        return Some(txt);
                    },
                    None => {
                        proof {
                            assert(fbb_node(views[i as int], inside) is None);
                            assert(views.take(i + 1).drop_last() =~= views.take(i as int));
                            assert(views.take(i + 1).last() == views[i as int]);
                        }
                    },
                }
            },
            _ => {
                proof {
                    assert(views.take(i + 1).drop_last() =~= views.take(i as int));
                    assert(views.take(i + 1).last() == views[i as int]);
                }
            },
        }
        i = i + 1;
    }
    proof {
        assert(views.take(ns@.len() as int) =~= views);
    }
    None
}

proof fn lemma_fbb_extend(views: Seq<NodeV>, i: int, inside: bool)
    requires
        0 <= i < views.len(),
        fbb_seq(views.take(i + 1), inside) is Some,
    ensures
        fbb_seq(views, inside) == fbb_seq(views.take(i + 1), inside),
    decreases views.len() - i,
{
    if i + 1 == views.len() {
        assert(views.take(i + 1) =~= views);
    } else {
        assert(views.take(i + 2).drop_last() =~= views.take(i + 1));
        lemma_fbb_extend(views, i + 1, inside);
    }
}

/// Whether an element carries one of the timestamp container classes.
pub open spec fn is_time_holder(e: ElemV) -> bool {
    has_cls(e, "message-meta"@) || has_cls(e, "message-attribution"@) || has_cls(
        e,
        "message-date"@,
    )
}

/// The first `time` element inside a timestamp container, inside one node.
pub open spec fn ftime_node(n: NodeV, inside: bool) -> Option<ElemV>
    decreases n,
{
    match n {
        NodeV::Element(e) => if inside && e.tag == "time"@ {
            Some(e)
        } else {
            ftime_seq(e.children, inside || is_time_holder(e))
        },
        _ => None,
    }
}

/// The same search over a node list, in document order.
pub open spec fn ftime_seq(ns: Seq<NodeV>, inside: bool) -> Option<ElemV>
    decreases ns,
{
    if ns.len() == 0 {
        None
    } else {
        match ftime_seq(ns.drop_last(), inside) {
            Some(e) => Some(e),
            None => ftime_node(ns.last(), inside),
        }
    }
}

/// The first `time` element anywhere, inside one node.
pub open spec fn anytime_node(n: NodeV) -> Option<ElemV>
    decreases n,
{
    match n {
        NodeV::Element(e) => if e.tag == "time"@ {
            Some(e)
        } else {
            anytime_seq(e.children)
        },
        _ => None,
    }
}

/// The same search over a node list.
pub open spec fn anytime_seq(ns: Seq<NodeV>) -> Option<ElemV>
    decreases ns,
{
    if ns.len() == 0 {
        None
    } else {
        match anytime_seq(ns.drop_last()) {
            Some(e) => Some(e),
            None => anytime_node(ns.last()),
        }
    }
}

/// The `datetime` attribute of the first matching `time` element, for both
/// search shapes.
fn time_datetime(ns: &Vec<HtmlNode>, inside: bool, any: bool) -> (r: Option<Option<String>>)
    ensures
        ({
            let hit = if any {
                anytime_seq(nodes_view(ns@))
            } else {
                ftime_seq(nodes_view(ns@), inside)
            };
            match r {
                Some(dt) => hit is Some && opt_str_view(dt) == attr_of(
                    hit->0.attrs,
                    "datetime"@,
                ),
                None => hit is None,
            }
        }),
    decreases *ns,
{
    let ghost views = nodes_view(ns@);
    proof {
        crate::dom::lemma_nodes_view_index(ns@);
    }
    let mut i: usize = 0;
    proof {
        assert(views.take(0) =~= Seq::<NodeV>::empty());
    }
    while i < ns.len()
        invariant
            views == nodes_view(ns@),
            views.len() == ns@.len(),
            forall|j: int| 0 <= j < ns@.len() ==> views[j] == node_view(#[trigger] ns@[j]),
            i <= ns.len(),
            any ==> anytime_seq(views.take(i as int)) is None,
            !any ==> ftime_seq(views.take(i as int), inside) is None,
        decreases ns.len() - i,
    {
        match &ns[i] {
            HtmlNode::Element(e) => {
                proof {
                    assert(ns@[i as int] == HtmlNode::Element(*e));
                    assert(views[i as int] == NodeV::Element(elem_view(*e)));
                    assert(elem_view(*e).children == nodes_view(e.children@));
                    assert(elem_view(*e).tag == e.tag@);
                }
                let is_time = crate::strs::string_is(&e.tag, "time");
                if (any && is_time) || (!any && inside && is_time) {
                    let dt = e.find_attr("datetime");
                    proof {
                        if any {
                            assert(anytime_node(views[i as int]) == Some(elem_view(*e)));
                            assert(views.take(i + 1).drop_last() =~= views.take(i as int));
                            assert(views.take(i + 1).last() == views[i as int]);
                            assert(anytime_seq(views.take(i + 1)) == Some(elem_view(*e)));
                            lemma_anytime_extend(views, i as int);
                        } else {
                            assert(ftime_node(views[i as int], inside) == Some(elem_view(*e)));
                            assert(views.take(i + 1).drop_last() =~= views.take(i as int));
                            assert(views.take(i + 1).last() == views[i as int]);
                            assert(ftime_seq(views.take(i + 1), inside) == Some(elem_view(*e)));
                            lemma_ftime_extend(views, i as int, inside);
                        }
                        reveal_strlit("datetime");
                    }
                    return Some(dt);
                }
                let inner = if any {
                    false
                } else {
                    inside || elem_has_class(e, "message-meta") || elem_has_class(
                        e,
                        "message-attribution",
                    ) || elem_has_class(e, "message-date")
                };
                match time_datetime(&e.children, inner, any) {
                    Some(dt) => {
                        proof {
                            if any {
                                assert(anytime_node(views[i as int]) == anytime_seq(
                                    nodes_view(e.children@),
                                ));
                                assert(views.take(i + 1).drop_last() =~= views.take(i as int));
                                assert(views.take(i + 1).last() == views[i as int]);
                                assert(anytime_seq(views.take(i + 1)) == anytime_seq(
                                    nodes_view(e.children@),
                                ));
                                lemma_anytime_extend(views, i as int);
                            } else {
                                assert(ftime_node(views[i as int], inside) == ftime_seq(
                                    nodes_view(e.children@),
                                    inner,
                                ));
                                assert(views.take(i + 1).drop_last() =~= views.take(i as int));
                                assert(views.take(i + 1).last() == views[i as int]);
                                assert(ftime_seq(views.take(i + 1), inside) == ftime_seq(
                                    nodes_view(e.children@),
                                    inner,
                                ));
                                lemma_ftime_extend(views, i as int, inside);
                            }
                        }
                        return Some(dt);
                    },
                    None => {
                        proof {
                            if any {
                                assert(anytime_node(views[i as int]) is None);
                            } else {
                                assert(ftime_node(views[i as int], inside) is None);
                            }
                            assert(views.take(i + 1).drop_last() =~= views.take(i as int));
                            assert(views.take(i + 1).last() == views[i as int]);
                        }
                    },
                }
            },
            _ => {
                proof {
                    assert(views.take(i + 1).drop_last() =~= views.take(i as int));
                    assert(views.take(i + 1).last() == views[i as int]);
                }
            },
        }
        i = i + 1;
    }
    proof {
        assert(views.take(ns@.len() as int) =~= views);
    }
    None
}

proof fn lemma_ftime_extend(views: Seq<NodeV>, i: int, inside: bool)
    requires
        0 <= i < views.len(),
        ftime_seq(views.take(i + 1), inside) is Some,
    ensures
        ftime_seq(views, inside) == ftime_seq(views.take(i + 1), inside),
    decreases views.len() - i,
{
    if i + 1 == views.len() {
        assert(views.take(i + 1) =~= views);
    } else {
        assert(views.take(i + 2).drop_last() =~= views.take(i + 1));
        lemma_ftime_extend(views, i + 1, inside);
    }
}

proof fn lemma_anytime_extend(views: Seq<NodeV>, i: int)
    requires
        0 <= i < views.len(),
        anytime_seq(views.take(i + 1)) is Some,
    ensures
        anytime_seq(views) == anytime_seq(views.take(i + 1)),
    decreases views.len() - i,
{
    if i + 1 == views.len() {
        assert(views.take(i + 1) =~= views);
    } else {
        assert(views.take(i + 2).drop_last() =~= views.take(i + 1));
        lemma_anytime_extend(views, i + 1);
    }
}

// ===== Vote parsing =====

/// Parses a whole string as a decimal count, allowing one leading `+`.
pub open spec fn parse_u32_spec(s: Seq<char>) -> Option<u32> {
    let body = if s.len() > 0 && s[0] == '+' {
        s.drop_first()
    } else {
        s
    };
    if body.len() >= 1 && dec_run(body) == body.len() && dec_val(body) <= u32::MAX {
        Some(dec_val(body) as u32)
    } else {
        None
    }
}

/// Parses a down-vote count, whose source may carry a leading minus.
pub open spec fn parse_downs_spec(s: Seq<char>) -> Option<u32> {
    if s.len() > 0 && s[0] == '-' {
        parse_u32_spec(s.drop_first())
    } else {
        parse_u32_spec(s)
    }
}

/// Parses all of `v[from..]` as a decimal count with optional `+`.
fn parse_u32_chars(v: &Vec<char>) -> (r: Option<u32>)
    ensures
        r == parse_u32_spec(v@),
{
    let start: usize = if v.len() > 0 && v[0] == '+' {
        1
    } else {
        0
    };
    let ghost body = if v@.len() > 0 && v@[0] == '+' {
        v@.drop_first()
    } else {
        v@
    };
    proof {
        assert(body =~= v@.skip(start as int));
        lemma_dec_run(body);
    }
    let n = v.len();
    if n == start {
        return None;
    }
    // every character must be a digit
    let mut j: usize = start;
    while j < n && crate::parser::is_dec_digit_exec(v[j])
        invariant
            n == v@.len(),
            start <= j <= n,
            forall|t: int| start <= t < j ==> is_dec_digit(v@[t]),
        decreases n - j,
    {
        j = j + 1;
    }
    proof {
        assert forall|t: int| 0 <= t < j - start implies is_dec_digit(body[t]) by {
            assert(body[t] == v@[start + t]);
        }
        if dec_run(body) < j - start {
            assert(is_dec_digit(body[dec_run(body) as int]));
        }
        if j < n {
            assert(body[j - start] == v@[j as int]);
            assert(dec_run(body) == j - start);
        } else {
            assert(dec_run(body) == body.len());
        }
    }
    if j < n {
        return None;
    }
    // compute the value, watching for overflow
    let mut val: u32 = 0;
    let mut over: bool = false;
    let mut t: usize = start;
    while t < n
        invariant
            n == v@.len(),
            start <= t <= n,
            body == v@.skip(start as int),
            forall|u: int| start <= u < n ==> is_dec_digit(v@[u]),
            !over ==> val as nat == dec_val(body.subrange(0, t - start)),
            over ==> dec_val(body.subrange(0, t - start)) > u32::MAX,
        decreases n - t,
    {
        let c = v[t];
        let d: u32 = c as u32 - 48;
        proof {
            assert(body.subrange(0, t + 1 - start).drop_last() =~= body.subrange(0, t - start));
            assert(body.subrange(0, t + 1 - start).last() == v@[t as int]);
            assert(d < 10);
            let prev = dec_val(body.subrange(0, t - start));
            assert(dec_val(body.subrange(0, t + 1 - start)) == prev * 10
                + crate::parser::dec_digit_val(v@[t as int]));
            if over {
                assert(prev * 10 + crate::parser::dec_digit_val(v@[t as int]) >= prev) by (
                nonlinear_arith)
                    requires prev >= 0;
            }
        }
        if !over {
            if val > (u32::MAX - d) / 10 {
                over = true;
                proof {
                    let prev = val as nat;
                    assert(prev * 10 + d as nat > u32::MAX) by (nonlinear_arith)
                        requires
                            prev > ((u32::MAX - d) as nat) / 10,
                            d < 10,
                    ;
                }
            } else {
                proof {
                    let prev = val as nat;
                    assert(prev * 10 + d as nat <= u32::MAX) by (nonlinear_arith)
                        requires
                            prev <= ((u32::MAX - d) as nat) / 10,
                            d < 10,
                    ;
                }
                val = val * 10 + d;
            }
        }
        t = t + 1;
    }
    proof {
        assert(body.subrange(0, n - start) =~= body);
    }
    if over {
        return None;
    }
    Some(val)
}

/// Length of the prefix of whitespace.
pub open spec fn ws_run(s: Seq<char>) -> nat
    decreases s.len(),
{
    if s.len() == 0 {
        0
    } else if is_unicode_ws(s[0]) {
        (1 + ws_run(s.drop_first())) as nat
    } else {
        0
    }
}

proof fn lemma_ws_run(s: Seq<char>)
    ensures
        ws_run(s) <= s.len(),
        forall|j: int| 0 <= j < ws_run(s) ==> is_unicode_ws(s[j]),
        ws_run(s) < s.len() ==> !is_unicode_ws(s[ws_run(s) as int]),
    decreases s.len(),
{
    if s.len() > 0 && is_unicode_ws(s[0]) {
        lemma_ws_run(s.drop_first());
        assert forall|j: int| 0 <= j < ws_run(s) implies is_unicode_ws(s[j]) by {
            if j > 0 {
                assert(s.drop_first()[j - 1] == s[j]);
            }
        }
        if ws_run(s) < s.len() {
            assert(s.drop_first()[ws_run(s) - 1] == s[ws_run(s) as int]);
        }
    }
}

/// Whether a character separates the two counts of a combined vote field.
pub open spec fn is_vote_sep(c: char) -> bool {
    is_unicode_ws(c) || c == '/'
}

/// Length of the prefix of separators.
pub open spec fn sep_run(s: Seq<char>) -> nat
    decreases s.len(),
{
    if s.len() == 0 {
        0
    } else if is_vote_sep(s[0]) {
        (1 + sep_run(s.drop_first())) as nat
    } else {
        0
    }
}

proof fn lemma_sep_run(s: Seq<char>)
    ensures
        sep_run(s) <= s.len(),
        forall|j: int| 0 <= j < sep_run(s) ==> is_vote_sep(s[j]),
        sep_run(s) < s.len() ==> !is_vote_sep(s[sep_run(s) as int]),
    decreases s.len(),
{
    if s.len() > 0 && is_vote_sep(s[0]) {
        lemma_sep_run(s.drop_first());
        assert forall|j: int| 0 <= j < sep_run(s) implies is_vote_sep(s[j]) by {
            if j > 0 {
                assert(s.drop_first()[j - 1] == s[j]);
            }
        }
        if sep_run(s) < s.len() {
            assert(s.drop_first()[sep_run(s) - 1] == s[sep_run(s) as int]);
        }
    }
}

/// A combined vote field starting here: `(`, spacing, the up count,
/// separators, the down count, spacing, `)`.
pub open spec fn vote_pair_at(s: Seq<char>) -> Option<(nat, nat)> {
    if s.len() >= 1 && s[0] == '(' {
        let a = 1 + ws_run(s.skip(1)) as int;
        let d1 = dec_run(s.skip(a)) as int;
        if d1 >= 1 {
            let b = a + d1;
            let c0 = b + sep_run(s.skip(b)) as int;
            let d2 = dec_run(s.skip(c0)) as int;
            if d2 >= 1 {
                let e0 = c0 + d2;
                let f = e0 + ws_run(s.skip(e0)) as int;
                if f < s.len() && s[f] == ')' {
                    Some((dec_val(s.subrange(a, b)), dec_val(s.subrange(c0, e0))))
                } else {
                    None
                }
            } else {
                None
            }
        } else {
            None
        }
    } else {
        None
    }
}

/// The first combined vote field in the text, if any.
pub open spec fn first_votes(s: Seq<char>) -> Option<(nat, nat)>
    decreases s.len(),
{
    if s.len() == 0 {
        None
    } else {
        match vote_pair_at(s) {
            Some(p) => Some(p),
            None => first_votes(s.drop_first()),
        }
    }
}

/// A combined vote field with both counts in range, if the text has one.
pub open spec fn combined_u32(s: Seq<char>) -> Option<(u32, u32)> {
    match first_votes(s) {
        Some(p) => if p.0 <= u32::MAX && p.1 <= u32::MAX {
            Some((p.0 as u32, p.1 as u32))
        } else {
            None
        },
        None => None,
    }
}

/// Reads the decimal value of `v[from..to]`, all digits, watching for
/// overflow past `u32::MAX`.
fn digits_value(v: &Vec<char>, from: usize, to: usize) -> (r: Option<u32>)
    requires
        from <= to <= v@.len(),
        forall|t: int| from <= t < to ==> is_dec_digit(v@[t]),
    ensures
        ({
            let ds = v@.subrange(from as int, to as int);
            match r {
                Some(x) => x as nat == dec_val(ds),
                None => dec_val(ds) > u32::MAX,
            }
        }),
{
    let mut val: u32 = 0;
    let mut over: bool = false;
    let mut t: usize = from;
    while t < to
        invariant
            from <= t <= to <= v@.len(),
            forall|u: int| from <= u < to ==> is_dec_digit(v@[u]),
            !over ==> val as nat == dec_val(v@.subrange(from as int, t as int)),
            over ==> dec_val(v@.subrange(from as int, t as int)) > u32::MAX,
        decreases to - t,
    {
        let c = v[t];
        let d: u32 = c as u32 - 48;
        proof {
            assert(v@.subrange(from as int, t + 1).drop_last() =~= v@.subrange(
                from as int,
                t as int,
            ));
            assert(v@.subrange(from as int, t + 1).last() == v@[t as int]);
            assert(d < 10);
            let prev = dec_val(v@.subrange(from as int, t as int));
            assert(dec_val(v@.subrange(from as int, t + 1)) == prev * 10
                + crate::parser::dec_digit_val(v@[t as int]));
            if over {
                assert(prev * 10 + crate::parser::dec_digit_val(v@[t as int]) >= prev) by (
                nonlinear_arith)
                    requires prev >= 0;
            }
        }
        if !over {
            if val > (u32::MAX - d) / 10 {
                over = true;
                proof {
                    let prev = val as nat;
                    assert(prev * 10 + d as nat > u32::MAX) by (nonlinear_arith)
                        requires
                            prev > ((u32::MAX - d) as nat) / 10,
                            d < 10,
                    ;
                }
            } else {
                proof {
                    let prev = val as nat;
                    assert(prev * 10 + d as nat <= u32::MAX) by (nonlinear_arith)
                        requires
                            prev <= ((u32::MAX - d) as nat) / 10,
                            d < 10,
                    ;
                }
                val = val * 10 + d;
            }
        }
        t = t + 1;
    }
    if over {
        None
    } else {
        Some(val)
    }
}

/// Finds the first combined vote field in the text.
#[verifier::rlimit(100)]
fn combined_votes(v: &Vec<char>) -> (r: Option<(u32, u32)>)
    ensures
        r == combined_u32(v@),
{
    let n = v.len();
    let mut pos: usize = 0;
    proof {
        assert(v@.skip(0) =~= v@);
    }
    while pos < n
        invariant
            n == v@.len(),
            pos <= n,
            first_votes(v@) == first_votes(v@.skip(pos as int)),
        decreases n - pos,
    {
        let ghost rest = v@.skip(pos as int);
        proof {
            assert(rest[0] == v@[pos as int]);
            assert(rest.drop_first() =~= v@.skip(pos + 1));
        }
        let mut matched: bool = false;
        if v[pos] == '(' {
            // spacing
            let mut j1: usize = pos + 1;
            while j1 < n && crate::strs::char_is_ws(v[j1])
                invariant
                    n == v@.len(),
                    pos + 1 <= j1 <= n,
                    forall|t: int| pos + 1 <= t < j1 ==> is_unicode_ws(v@[t]),
                decreases n - j1,
            {
                j1 = j1 + 1;
            }
            proof {
                let tail = rest.skip(1);
                assert(tail =~= v@.skip(pos + 1));
                lemma_ws_run(tail);
                assert forall|t: int| 0 <= t < j1 - pos - 1 implies is_unicode_ws(tail[t]) by {
                    assert(tail[t] == v@[pos + 1 + t]);
                }
                if ws_run(tail) < j1 - pos - 1 {
                    assert(!is_unicode_ws(tail[ws_run(tail) as int]));
                }
                if j1 < n {
                    assert(tail[j1 - pos - 1] == v@[j1 as int]);
                    assert(ws_run(tail) == j1 - pos - 1);
                } else {
                    assert(ws_run(tail) == tail.len());
                }
            }
            // first digit group
            let mut j2: usize = j1;
            while j2 < n && crate::parser::is_dec_digit_exec(v[j2])
                invariant
                    n == v@.len(),
                    j1 <= j2 <= n,
                    forall|t: int| j1 <= t < j2 ==> is_dec_digit(v@[t]),
                decreases n - j2,
            {
                j2 = j2 + 1;
            }
            proof {
                let tail = rest.skip(j1 - pos);
                assert(tail =~= v@.skip(j1 as int));
                lemma_dec_run(tail);
                assert forall|t: int| 0 <= t < j2 - j1 implies is_dec_digit(tail[t]) by {
                    assert(tail[t] == v@[j1 + t]);
                }
                if dec_run(tail) < j2 - j1 {
                    assert(is_dec_digit(tail[dec_run(tail) as int]));
                }
                if j2 < n {
                    assert(tail[j2 - j1] == v@[j2 as int]);
                    assert(dec_run(tail) == j2 - j1);
                } else {
                    assert(dec_run(tail) == tail.len());
                }
            }
            if j2 > j1 {
                // separators
                let mut j3: usize = j2;
                while j3 < n && (crate::strs::char_is_ws(v[j3]) || v[j3] == '/')
                    invariant
                        n == v@.len(),
                        j2 <= j3 <= n,
                        forall|t: int| j2 <= t < j3 ==> is_vote_sep(v@[t]),
                    decreases n - j3,
                {
                    j3 = j3 + 1;
                }
                proof {
                    let tail = rest.skip(j2 - pos);
                    assert(tail =~= v@.skip(j2 as int));
                    lemma_sep_run(tail);
                    assert forall|t: int| 0 <= t < j3 - j2 implies is_vote_sep(tail[t]) by {
                        assert(tail[t] == v@[j2 + t]);
                    }
                    if sep_run(tail) < j3 - j2 {
                        assert(!is_vote_sep(tail[sep_run(tail) as int]));
                    }
                    if j3 < n {
                        assert(tail[j3 - j2] == v@[j3 as int]);
                        assert(sep_run(tail) == j3 - j2);
                    } else {
                        assert(sep_run(tail) == tail.len());
                    }
                }
                // second digit group
                let mut j4: usize = j3;
                while j4 < n && crate::parser::is_dec_digit_exec(v[j4])
                    invariant
                        n == v@.len(),
                        j3 <= j4 <= n,
                        forall|t: int| j3 <= t < j4 ==> is_dec_digit(v@[t]),
                    decreases n - j4,
                {
                    j4 = j4 + 1;
                }
                proof {
                    let tail = rest.skip(j3 - pos);
                    assert(tail =~= v@.skip(j3 as int));
                    lemma_dec_run(tail);
                    assert forall|t: int| 0 <= t < j4 - j3 implies is_dec_digit(tail[t]) by {
                        assert(tail[t] == v@[j3 + t]);
                    }
                    if dec_run(tail) < j4 - j3 {
                        assert(is_dec_digit(tail[dec_run(tail) as int]));
                    }
                    if j4 < n {
                        assert(tail[j4 - j3] == v@[j4 as int]);
                        assert(dec_run(tail) == j4 - j3);
                    } else {
                        assert(dec_run(tail) == tail.len());
                    }
                }
                if j4 > j3 {
                    // trailing spacing and the closing paren
                    let mut j5: usize = j4;
                    while j5 < n && crate::strs::char_is_ws(v[j5])
                        invariant
                            n == v@.len(),
                            j4 <= j5 <= n,
                            forall|t: int| j4 <= t < j5 ==> is_unicode_ws(v@[t]),
                        decreases n - j5,
                    {
                        j5 = j5 + 1;
                    }
                    proof {
                        let tail = rest.skip(j4 - pos);
                        assert(tail =~= v@.skip(j4 as int));
                        lemma_ws_run(tail);
                        assert forall|t: int| 0 <= t < j5 - j4 implies is_unicode_ws(
                            tail[t],
                        ) by {
                            assert(tail[t] == v@[j4 + t]);
                        }
                        if ws_run(tail) < j5 - j4 {
                            assert(!is_unicode_ws(tail[ws_run(tail) as int]));
                        }
                        if j5 < n {
                            assert(tail[j5 - j4] == v@[j5 as int]);
                            assert(ws_run(tail) == j5 - j4);
                        } else {
                            assert(ws_run(tail) == tail.len());
                        }
                    }
                    if j5 < n && v[j5] == ')' {
                        matched = true;
                        proof {
                            assert(rest.subrange(j1 - pos, j2 - pos) =~= v@.subrange(
                                j1 as int,
                                j2 as int,
                            ));
                            assert(rest.subrange(j3 - pos, j4 - pos) =~= v@.subrange(
                                j3 as int,
                                j4 as int,
                            ));
                            assert(rest[j5 - pos] == v@[j5 as int]);
                            assert(vote_pair_at(rest) == Some(
                                (
                                    dec_val(v@.subrange(j1 as int, j2 as int)),
                                    dec_val(v@.subrange(j3 as int, j4 as int)),
                                ),
                            ));
                            assert(first_votes(rest) == vote_pair_at(rest));
                        }
                        let up = digits_value(v, j1, j2);
                        let down = digits_value(v, j3, j4);
                        match (up, down) {
                            (Some(u), Some(d)) => {
                                return Some((u, d));
                            },
                            _ => {
                                return None;
                            },
                        }
                    }
                }
            }
        }
        if !matched {
            proof {
                if rest[0] == '(' {
                    assert(vote_pair_at(rest) is None);
                } else {
                    assert(vote_pair_at(rest) is None);
                }
                assert(first_votes(rest) == first_votes(rest.drop_first()));
            }
            pos = pos + 1;
        }
    }
    proof {
        assert(v@.skip(n as int) =~= Seq::<char>::empty());
    }
    None
}

// ===== Content cleanup =====

/// The collapsed-quote marker that is stripped from comment text.
pub open spec fn click_pat() -> Seq<char> {
    seq!['C', 'l', 'i', 'c', 'k', ' ', 't', 'o', ' ', 'e', 'x', 'p', 'a', 'n', 'd', '.', '.', '.']
}

/// Removes every occurrence of the collapsed-quote marker.
fn remove_click_marker(v: &Vec<char>) -> (r: Vec<char>)
    ensures
        r@ == remove_sub_all(v@, click_pat()),
{
    let n = v.len();
    let mut out: Vec<char> = Vec::new();
    let mut pos: usize = 0;
    proof {
        assert(v@.skip(0) =~= v@);
        reveal_strlit("Click to expand...");
        assert("Click to expand..."@ =~= click_pat());
    }
    while pos < n
        invariant
            n == v@.len(),
            pos <= n,
            "Click to expand..."@ == click_pat(),
            remove_sub_all(v@, click_pat()) == out@ + remove_sub_all(
                v@.skip(pos as int),
                click_pat(),
            ),
        decreases n - pos,
    {
        let ghost rest = v@.skip(pos as int);
        proof {
            assert(rest[0] == v@[pos as int]);
            assert(rest.drop_first() =~= v@.skip(pos + 1));
        }
        if crate::strs::starts_with_at(v, pos, "Click to expand...") {
            proof {
                assert(rest.subrange(0, 18) =~= v@.subrange(pos as int, pos + 18));
                assert(rest.skip(18) =~= v@.skip(pos + 18));
                assert(remove_sub_all(rest, click_pat()) == remove_sub_all(
                    v@.skip(pos + 18),
                    click_pat(),
                ));
            }
            pos = pos + 18;
        } else {
            out.push(v[pos]);
            proof {
                if rest.len() >= 18 {
                    assert(rest.subrange(0, 18) =~= v@.subrange(pos as int, pos + 18));
                }
                assert(remove_sub_all(rest, click_pat()) == seq![rest[0]] + remove_sub_all(
                    rest.drop_first(),
                    click_pat(),
                ));
                assert(out@ + remove_sub_all(v@.skip(pos + 1), click_pat()) =~= out@.drop_last()
                    + remove_sub_all(rest, click_pat()));
            }
            pos = pos + 1;
        }
    }
    proof {
        assert(v@.skip(n as int) =~= Seq::<char>::empty());
        assert(out@ + remove_sub_all(Seq::<char>::empty(), click_pat()) =~= out@);
    }
    out
}

// ===== One message block to one comment =====

/// The larger of two counts.
pub open spec fn max32(a: u32, b: u32) -> u32 {
    if a >= b {
        a
    } else {
        b
    }
}

/// The comment extracted from one `message`-classed element, or nothing
/// when its cleaned content is empty.
pub open spec fn msg_comment(e: ElemV) -> Option<ArsCommentV> {
    let author = match fwc_seq(e.children, "username"@) {
        Some(u) => trim_seq(flat_text_seq(u.children)),
        None => "Anonymous"@,
    };
    let raw = match fbb_seq(e.children, false) {
        Some(b) => trim_seq(flat_text_seq(b.children)),
        None => Seq::empty(),
    };
    let content = trim_seq(remove_sub_all(raw, click_pat()));
    if content.len() == 0 {
        None
    } else {
        let up0 = match fwc_seq(e.children, "contentVote-score--positive"@) {
            Some(p) => match parse_u32_spec(trim_seq(flat_text_seq(p.children))) {
                Some(x) => x,
                None => 0,
            },
            None => 0,
        };
        let down0 = match fwc_seq(e.children, "contentVote-score--negative"@) {
            Some(p) => match parse_downs_spec(trim_seq(flat_text_seq(p.children))) {
                Some(x) => x,
                None => 0,
            },
            None => 0,
        };
        let votes = match fwc_seq(e.children, "contentVote-scores"@) {
            Some(c) => match combined_u32(flat_text_seq(c.children)) {
                Some(p) => (max32(up0, p.0), max32(down0, p.1)),
                None => (up0, down0),
            },
            None => (up0, down0),
        };
        let ts0 = match ftime_seq(e.children, false) {
            Some(t) => crate::dom::attr_of(t.attrs, "datetime"@),
            None => None,
        };
        let ts = match ts0 {
            Some(x) => Some(x),
            None => match anytime_seq(e.children) {
                Some(t) => crate::dom::attr_of(t.attrs, "datetime"@),
                None => None,
            },
        };
        Some(
            ArsCommentV {
                content,
                author,
                upvotes: votes.0,
                downvotes: votes.1,
                timestamp: ts,
            },
        )
    }
}

/// Extracts the comment of one message element.
#[verifier::rlimit(100)]
fn message_to_comment(e: &HtmlElement) -> (r: Option<Comment>)
    ensures
        match r {
            Some(c) => msg_comment(elem_view(*e)) == Some(c@),
            None => msg_comment(elem_view(*e)) is None,
        },
{
    proof {
        assert(elem_view(*e).children == nodes_view(e.children@));
    }
    let author: String = match class_elem_text(&e.children, "username") {
        Some(t) => chars_to_string(trim_chars(&t)),
        None => chars_to_string(str_to_chars("Anonymous")),
    };
    let raw: Vec<char> = match bb_text(&e.children, false) {
        Some(t) => trim_chars(&t),
        None => Vec::new(),
    };
    proof {
        if fbb_seq(nodes_view(e.children@), false) is None {
            assert(trim_seq(Seq::<char>::empty()) =~= Seq::<char>::empty());
        }
    }
    let cleaned = remove_click_marker(&raw);
    let content = trim_chars(&cleaned);
    if content.len() == 0 {
        return None;
    }
    let up0: u32 = match class_elem_text(&e.children, "contentVote-score--positive") {
        Some(t) => {
            let tt = trim_chars(&t);
            match parse_u32_chars(&tt) {
                Some(x) => x,
                None => 0,
            }
        },
        None => 0,
    };
    let down0: u32 = match class_elem_text(&e.children, "contentVote-score--negative") {
        Some(t) => {
            let tt = trim_chars(&t);
            let parsed = if tt.len() > 0 && tt[0] == '-' {
                let mut rest_chars: Vec<char> = Vec::new();
                let mut k: usize = 1;
                while k < tt.len()
                    invariant
                        1 <= k <= tt@.len(),
                        rest_chars@ == tt@.subrange(1, k as int),
                    decreases tt@.len() - k,
                {
                    rest_chars.push(tt[k]);
                    proof {
                        assert(tt@.subrange(1, k + 1) =~= tt@.subrange(1, k as int).push(
                            tt@[k as int],
                        ));
                    }
                    k = k + 1;
                }
                proof {
                    assert(rest_chars@ =~= tt@.drop_first());
                }
                parse_u32_chars(&rest_chars)
            } else {
                parse_u32_chars(&tt)
            };
            match parsed {
                Some(x) => x,
                None => 0,
            }
        },
        None => 0,
    };
    let (up, down): (u32, u32) = match class_elem_text(&e.children, "contentVote-scores") {
        Some(t) => match combined_votes(&t) {
            Some(p) => {
                let u = if up0 >= p.0 {
                    up0
                } else {
                    p.0
                };
                let d = if down0 >= p.1 {
                    down0
                } else {
                    p.1
                };
                (u, d)
            },
            None => (up0, down0),
        },
        None => (up0, down0),
    };
    let ts0 = time_datetime(&e.children, false, false);
    let ts: Option<String> = match ts0 {
        Some(dt) => match dt {
            Some(x) => Some(x),
            None => match time_datetime(&e.children, false, true) {
                Some(dt2) => dt2,
                None => None,
            },
        },
        None => match time_datetime(&e.children, false, true) {
            Some(dt2) => dt2,
            None => None,
        },
    };
    Some(
        Comment {
            content: chars_to_string(content),
            author,
            upvotes: up,
            downvotes: down,
            timestamp: ts,
        },
    )
}

// ===== Collecting all message blocks =====

/// A singleton or empty sequence from an optional value.
pub open spec fn opt_items(o: Option<ArsCommentV>) -> Seq<ArsCommentV> {
    match o {
        Some(c) => seq![c],
        None => Seq::empty(),
    }
}

/// The comments of all `message`-classed elements inside one node, in
/// document order.
pub open spec fn comments_in_node(n: NodeV) -> Seq<ArsCommentV>
    decreases n,
{
    match n {
        NodeV::Element(e) => (if has_cls(e, "message"@) {
            opt_items(msg_comment(e))
        } else {
            Seq::empty()
        }) + comments_in_seq(e.children),
        _ => Seq::empty(),
    }
}

/// The same over a node list.
pub open spec fn comments_in_seq(ns: Seq<NodeV>) -> Seq<ArsCommentV>
    decreases ns,
{
    if ns.len() == 0 {
        Seq::empty()
    } else {
        comments_in_seq(ns.drop_last()) + comments_in_node(ns.last())
    }
}

/// Collects the comments of every message element under the given nodes.
fn collect_comments(ns: &Vec<HtmlNode>) -> (r: Vec<Comment>)
    ensures
        r.deep_view() == comments_in_seq(nodes_view(ns@)),
    decreases *ns,
{
    let ghost views = nodes_view(ns@);
    proof {
        crate::dom::lemma_nodes_view_index(ns@);
    }
    let mut r: Vec<Comment> = Vec::new();
    let mut i: usize = 0;
    proof {
        assert(views.take(0) =~= Seq::<NodeV>::empty());
        assert(r.deep_view() =~= comments_in_seq(views.take(0)));
    }
    while i < ns.len()
        invariant
            views == nodes_view(ns@),
            views.len() == ns@.len(),
            forall|j: int| 0 <= j < ns@.len() ==> views[j] == node_view(#[trigger] ns@[j]),
            i <= ns.len(),
            r.deep_view() == comments_in_seq(views.take(i as int)),
        decreases ns.len() - i,
    {
        let ghost pre = r.deep_view();
        match &ns[i] {
            HtmlNode::Element(e) => {
                proof {
                    assert(ns@[i as int] == HtmlNode::Element(*e));
                    assert(views[i as int] == NodeV::Element(elem_view(*e)));
                    assert(elem_view(*e).children == nodes_view(e.children@));
                }
                let ghost mid_expected = if has_cls(elem_view(*e), "message"@) {
                    opt_items(msg_comment(elem_view(*e)))
                } else {
                    Seq::<ArsCommentV>::empty()
                };
                if elem_has_class(e, "message") {
                    match message_to_comment(e) {
                        Some(c) => {
                            let ghost cv = c.deep_view();
                            r.push(c);
                            proof {
                                assert(r.deep_view() =~= pre + seq![cv]);
                            }
                        },
                        None => {
                            proof {
                                assert(r.deep_view() =~= pre + mid_expected);
                            }
                        },
                    }
                }
                proof {
                    assert(r.deep_view() =~= pre + mid_expected);
                }
                let sub = collect_comments(&e.children);
                crate::ast::append_all(&mut r, sub);
                proof {
                    assert(comments_in_node(views[i as int]) == mid_expected + comments_in_seq(
                        nodes_view(e.children@),
                    ));
                    assert(r.deep_view() =~= pre + comments_in_node(views[i as int]));
                }
            },
            _ => {},
        }
        proof {
            assert(views.take(i + 1).drop_last() =~= views.take(i as int));
            assert(views.take(i + 1).last() == views[i as int]);
            assert(r.deep_view() =~= comments_in_seq(views.take(i + 1)));
        }
        i = i + 1;
    }
    proof {
        assert(views.take(ns@.len() as int) =~= views);
    }
    r
}

/// Extracts the comments of a scraped forum thread page, in document
/// order.
pub fn parse_comments_from_html(html: &str) -> (r: Vec<Comment>)
    ensures
        r.deep_view() == comments_in_node(crate::dom::parsed_document(html@)),
{
    let root = crate::dom::parse_html_document(html);
    match &root {
        HtmlNode::Element(e) => {
            proof {
                assert(node_view(root) == NodeV::Element(elem_view(*e)));
                assert(elem_view(*e).children == nodes_view(e.children@));
            }
            let ghost head = if has_cls(elem_view(*e), "message"@) {
                opt_items(msg_comment(elem_view(*e)))
            } else {
                Seq::<ArsCommentV>::empty()
            };
            let mut out: Vec<Comment> = Vec::new();
            if elem_has_class(e, "message") {
                match message_to_comment(e) {
                    Some(c) => {
                        let ghost cv = c.deep_view();
                        out.push(c);
                        proof {
                            assert(out.deep_view() =~= Seq::<ArsCommentV>::empty() + seq![cv]);
                        }
                    },
                    None => {},
                }
            }
            proof {
                assert(out.deep_view() =~= head);
            }
            let sub = collect_comments(&e.children);
            crate::ast::append_all(&mut out, sub);
            proof {
                assert(out.deep_view() =~= comments_in_node(node_view(root)));
            }
            out
        },
        _ => {
            let out: Vec<Comment> = Vec::new();
            proof {
                assert(out.deep_view() =~= comments_in_node(node_view(root)));
            }
            out
        },
    }
}

// ===== Ranking =====

/// Sorted by net score, best first.
pub open spec fn sorted_desc(s: Seq<ArsCommentV>) -> bool {
    forall|i: int, j: int| 0 <= i < j < s.len() ==> net_score(#[trigger] s[i]) >= net_score(
        #[trigger] s[j],
    )
}

/// Sorts comments by net score, best first.  The result holds exactly the
/// input comments.
pub fn sort_comments_by_score(comments: Vec<Comment>) -> (r: Vec<Comment>)
    ensures
        sorted_desc(r.deep_view()),
        r.deep_view().to_multiset() == comments.deep_view().to_multiset(),
        r@.len() == comments@.len(),
{
    let ghost orig = comments.deep_view();
    let mut src = comments;
    let mut out: Vec<Comment> = Vec::new();
    proof {
        assert(out.deep_view() =~= Seq::<ArsCommentV>::empty());
        assert(out.deep_view().to_multiset().add(src.deep_view().to_multiset())
            =~= orig.to_multiset());
    }
    while src.len() > 0
        invariant
            sorted_desc(out.deep_view()),
            out.deep_view().to_multiset().add(src.deep_view().to_multiset())
                == orig.to_multiset(),
            out@.len() + src@.len() == orig.len(),
            orig.len() == orig.to_multiset().len(),
        decreases src.len(),
    {
        let ghost src_pre = src.deep_view();
        let ghost out_pre = out.deep_view();
        let c = src.remove(0);
        let ghost cv = c.deep_view();
        proof {
            assert(src_pre[0] == cv);
            assert(src.deep_view() =~= src_pre.drop_first());
            assert(src_pre.drop_first() =~= src_pre.remove(0));
            assert(src.deep_view().to_multiset() =~= src_pre.to_multiset().remove(cv));
            assert(src_pre.to_multiset().contains(cv));
        }
        // find the first position with a smaller net score
        let cn_up = c.upvotes;
        let cn_down = c.downvotes;
        let mut ix: usize = 0;
        while ix < out.len() && out[ix].upvotes as i64 - out[ix].downvotes as i64 >= cn_up as i64
            - cn_down as i64
            invariant
                out_pre == out.deep_view(),
                out_pre.len() == out@.len(),
                cv == c.deep_view(),
                cn_up == c.upvotes,
                cn_down == c.downvotes,
                ix <= out@.len(),
                forall|j: int| 0 <= j < ix ==> net_score(#[trigger] out_pre[j]) >= net_score(cv),
            decreases out@.len() - ix,
        {
            proof {
                assert(out_pre[ix as int] == out@[ix as int].deep_view());
            }
            ix = ix + 1;
        }
        proof {
            if ix < out@.len() {
                assert(out_pre[ix as int] == out@[ix as int].deep_view());
                assert(net_score(out_pre[ix as int]) < net_score(cv));
            }
        }
        out.insert(ix, c);
        proof {
            let now = out.deep_view();
            assert(now =~= out_pre.insert(ix as int, cv));
            // the new order is still sorted
            assert forall|a: int, b: int| 0 <= a < b < now.len() implies net_score(
                #[trigger] now[a],
            ) >= net_score(#[trigger] now[b]) by {
                if a < ix && b == ix {
                } else if a == ix && b > ix {
                    assert(now[b] == out_pre[b - 1]);
                    assert(net_score(out_pre[ix as int]) < net_score(cv));
                    assert(net_score(out_pre[b - 1]) <= net_score(out_pre[ix as int]));
                } else if a < ix && b > ix {
                    assert(now[a] == out_pre[a]);
                    assert(now[b] == out_pre[b - 1]);
                } else if a > ix && b > ix {
                    assert(now[a] == out_pre[a - 1]);
                    assert(now[b] == out_pre[b - 1]);
                } else if a < ix && b < ix {
                    assert(now[a] == out_pre[a]);
                    assert(now[b] == out_pre[b]);
                }
            }
            // the new contents are the old plus the inserted comment
            assert(now.remove(ix as int) =~= out_pre);
            assert(now[ix as int] == cv);
            assert(now.remove(ix as int).to_multiset() =~= now.to_multiset().remove(cv));
            assert(now.to_multiset().contains(cv)) by {
                assert(now[ix as int] == cv);
            }
            assert(now.to_multiset() =~= out_pre.to_multiset().insert(cv));
            assert(now.to_multiset().add(src.deep_view().to_multiset()) =~= orig.to_multiset());
        }
    }
    proof {
        assert(src.deep_view() =~= Seq::<ArsCommentV>::empty());
        assert(out.deep_view().to_multiset().add(Multiset::<ArsCommentV>::empty())
            =~= out.deep_view().to_multiset());
        assert(out@.len() == out.deep_view().to_multiset().len());
    }
    out
}

/// The best comments: sorted by net score and cut to the given count.
pub fn top_comments(comments: Vec<Comment>, limit: usize) -> (r: Vec<Comment>)
    ensures
        exists|full: Seq<ArsCommentV>|
            sorted_desc(full) && full.to_multiset() == comments.deep_view().to_multiset()
                && r.deep_view() == full.take(
                if limit <= full.len() {
                    limit as int
                } else {
                    full.len() as int
                },
            ),
{
    let ghost orig = comments.deep_view();
    let mut sorted = sort_comments_by_score(comments);
    let ghost full = sorted.deep_view();
    sorted.truncate(limit);
    proof {
        let cut = if limit <= full.len() {
            limit as int
        } else {
            full.len() as int
        };
        assert(sorted.deep_view() =~= full.take(cut));
    }
    sorted
}

} // verus!
