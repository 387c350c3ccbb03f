//! A plain-value model of a parsed HTML tree.  The lenient HTML parsing
//! itself is done by the scraper crate behind trusted wrappers; everything
//! that reads the tree afterwards is verified code over these types.

use crate::ast::opt_str_view;
use vstd::prelude::*;

verus! {

broadcast use vstd::std_specs::vec::group_vec_axioms;

// ===== Views =====

/// View of one parsed node.
pub enum NodeV {
    /// A text node's contents (entities already decoded by the parser).
    Text(Seq<char>),
    /// An element with its tag, attributes and children.
    Element(ElemV),
    /// Anything else (a comment, a doctype, a processing instruction).
    Other,
}

/// View of an element node.
pub struct ElemV {
    pub tag: Seq<char>,
    pub attrs: Seq<(Seq<char>, Seq<char>)>,
    pub children: Seq<NodeV>,
}

// ===== The model types =====

/// An element of the parsed tree: lower-case tag name, attributes as
/// name/value pairs, and child nodes in document order.
#[derive(Debug, PartialEq)]
pub struct HtmlElement {
    pub tag: String,
    pub attrs: Vec<(String, String)>,
    pub children: Vec<HtmlNode>,
}

/// One node of the parsed tree.
#[derive(Debug, PartialEq)]
pub enum HtmlNode {
    Text(String),
    Element(HtmlElement),
    Other,
}

/// The view of one node.
pub open spec fn node_view(n: HtmlNode) -> NodeV
    decreases n,
{
    match n {
        HtmlNode::Text(s) => NodeV::Text(s@),
        HtmlNode::Element(e) => NodeV::Element(elem_view(e)),
        HtmlNode::Other => NodeV::Other,
    }
}

/// The view of one element.
pub open spec fn elem_view(e: HtmlElement) -> ElemV
    decreases e,
{
    ElemV { tag: e.tag@, attrs: e.attrs.deep_view(), children: nodes_view(e.children@) }
}

/// The views of a sequence of nodes.
pub open spec fn nodes_view(ns: Seq<HtmlNode>) -> Seq<NodeV>
    decreases ns,
{
    if ns.len() == 0 {
        Seq::empty()
    } else {
        nodes_view(ns.drop_last()).push(node_view(ns.last()))
    }
}

pub proof fn lemma_nodes_view_index(ns: Seq<HtmlNode>)
    ensures
        nodes_view(ns).len() == ns.len(),
        forall|i: int| 0 <= i < ns.len() ==> nodes_view(ns)[i] == node_view(#[trigger] ns[i]),
    decreases ns.len(),
{
    if ns.len() > 0 {
        lemma_nodes_view_index(ns.drop_last());
        assert forall|i: int| 0 <= i < ns.len() implies nodes_view(ns)[i] == node_view(
            #[trigger] ns[i],
        ) by {
            if i < ns.len() - 1 {
                assert(ns.drop_last()[i] == ns[i]);
            }
        }
    }
}

// ===== Trusted wrappers around scraper =====

#[verifier::external_type_specification]
#[verifier::external_body]
#[verifier::reject_recursive_types(T)]
pub struct ExNodeRef<'a, T: 'a>(ego_tree::NodeRef<'a, T>);

#[verifier::external_type_specification]
#[verifier::external_body]
pub struct ExScraperNode(scraper::Node);

/// What lenient HTML5 fragment parsing yields for a string: the fragment's
/// top-level node list.  The parse is a function of the input alone.
pub uninterp spec fn parsed_fragment(html: Seq<char>) -> Seq<NodeV>;

/// What lenient HTML5 document parsing yields for a string: the document's
/// root element.  The parse is a function of the input alone.
pub uninterp spec fn parsed_document(html: Seq<char>) -> NodeV;

/// Relies on scraper's node model (through ego_tree's tree references):
/// converts one parsed node and its subtree into plain values, one for one.
/// Tag and attribute names come out ASCII-lower-cased, as html5ever stores
/// them; text nodes carry decoded character data.
#[verifier::external_body]
fn convert_node(node: ego_tree::NodeRef<'_, scraper::Node>) -> HtmlNode {
    match node.value() {
        scraper::Node::Text(t) => HtmlNode::Text(t.to_string()),
        scraper::Node::Element(e) => HtmlNode::Element(HtmlElement {
            tag: e.name().to_string(),
            attrs: e.attrs().map(|(k, v)| (k.to_string(), v.to_string())).collect(),
            children: node.children().map(convert_node).collect(),
        }),
        _ => HtmlNode::Other,
    }
}

/// Relies on scraper::Html::parse_fragment (html5ever): forgiving HTML5
/// fragment parsing, deterministic in the input string.  Returns the
/// fragment's top-level nodes, converted by `convert_node`.
#[verifier::external_body]
pub(crate) fn parse_html_fragment(html: &str) -> (r: Vec<HtmlNode>)
    ensures
        nodes_view(r@) == parsed_fragment(html@),
{
    let doc = scraper::Html::parse_fragment(html);
    doc.root_element().children().map(convert_node).collect()
}

/// Relies on scraper::Html::parse_document (html5ever): forgiving HTML5
/// document parsing, deterministic in the input string.  Returns the
/// document's root element, converted by `convert_node`.
#[verifier::external_body]
pub(crate) fn parse_html_document(html: &str) -> (r: HtmlNode)
    ensures
        node_view(r) == parsed_document(html@),
{
    let doc = scraper::Html::parse_document(html);
    convert_node(*doc.root_element())
}

// ===== Verified helpers over the model =====

/// The value of the first attribute with the given name, if any.
pub open spec fn attr_of(attrs: Seq<(Seq<char>, Seq<char>)>, name: Seq<char>) -> Option<
    Seq<char>,
>
    decreases attrs.len(),
{
    if attrs.len() == 0 {
        None
    } else if attrs[0].0 == name {
        Some(attrs[0].1)
    } else {
        attr_of(attrs.drop_first(), name)
    }
}

impl HtmlElement {
    /// Looks up an attribute by name.
    pub(crate) fn find_attr(&self, name: &str) -> (r: Option<String>)
        ensures
            opt_str_view(r) == attr_of(elem_view(*self).attrs, name@),
    {
        let ghost all = self.attrs.deep_view();
        proof {
            assert(all.skip(0) =~= all);
        }
        let mut i: usize = 0;
        while i < self.attrs.len()
            invariant
                all == self.attrs.deep_view(),
                i <= self.attrs.len(),
                attr_of(all, name@) == attr_of(all.skip(i as int), name@),
            decreases self.attrs.len() - i,
        {
            proof {
                assert(all[i as int] == self.attrs@[i as int].deep_view());
                assert(all.skip(i as int)[0] == all[i as int]);
            }
            let hit = crate::strs::string_is(&self.attrs[i].0, name);
            if hit {
                return Some(self.attrs[i].1.clone());
            }
            proof {
                assert(all.skip(i as int).drop_first() =~= all.skip(i + 1));
            }
            i = i + 1;
        }
        proof {
            assert(all.skip(self.attrs@.len() as int) =~= Seq::<(Seq<char>, Seq<char>)>::empty());
        }
        None
    }
}

/// The concatenated text of a node's text descendants, in document order.
pub open spec fn flat_text(n: NodeV) -> Seq<char>
    decreases n,
{
    match n {
        NodeV::Text(t) => t,
        NodeV::Element(e) => flat_text_seq(e.children),
        NodeV::Other => Seq::empty(),
    }
}

/// The concatenated flat text of a sequence of nodes.
pub open spec fn flat_text_seq(ns: Seq<NodeV>) -> Seq<char>
    decreases ns,
{
    if ns.len() == 0 {
        Seq::empty()
    } else {
        flat_text_seq(ns.drop_last()) + flat_text(ns.last())
    }
}

impl HtmlNode {
    /// Collects the flattened descendant text of this node.
    pub(crate) fn flat_text_chars(&self) -> (r: Vec<char>)
        ensures
            r@ == flat_text(node_view(*self)),
        decreases *self,
    {
        match self {
            HtmlNode::Text(s) => crate::strs::str_to_chars(s.as_str()),
            HtmlNode::Element(e) => flat_text_of_children(&e.children),
            HtmlNode::Other => Vec::new(),
        }
    }
}

/// Collects the concatenated flat text of a node list.
pub(crate) fn flat_text_of_children(children: &Vec<HtmlNode>) -> (r: Vec<char>)
    ensures
        r@ == flat_text_seq(nodes_view(children@)),
    decreases *children,
{
    let ghost views = nodes_view(children@);
    proof {
        lemma_nodes_view_index(children@);
    }
    let mut out: Vec<char> = Vec::new();
    let mut i: usize = 0;
    while i < children.len()
        invariant
            views == nodes_view(children@),
            views.len() == children@.len(),
            forall|j: int| 0 <= j < children@.len() ==> views[j] == node_view(
                #[trigger] children@[j],
            ),
            i <= children.len(),
            out@ == flat_text_seq(views.take(i as int)),
        decreases children.len() - i,
    {
        let piece = children[i].flat_text_chars();
        crate::strs::push_chars(&mut out, &piece);
        proof {
            assert(views.take(i + 1).drop_last() =~= views.take(i as int));
            assert(views.take(i + 1).last() == views[i as int]);
        }
        i = i + 1;
    }
    proof {
        assert(views.take(children@.len() as int) =~= views);
    }
    out
}

} // verus!
