//! Trusted access to the HTML tree of the `scraper` crate.
//!
//! Parsing and navigation are deterministic functions of their arguments (the
//! parser takes no seed, clock or environment), so each result is given an
//! uninterpreted name, and every wrapper's contract equates its result with
//! that name. The verified traversal in `crate::extract` is thereby pinned,
//! end to end, to a spec-level function of the input text.

use vstd::prelude::*;
use crate::spans;

verus! {

#[verifier::external_type_specification]
#[verifier::external_body]
pub struct ExHtml(scraper::Html);

#[verifier::external_type_specification]
#[verifier::external_body]
pub struct ExElementRef<'a>(scraper::ElementRef<'a>);

#[verifier::external_type_specification]
#[verifier::external_body]
pub struct ExNode(scraper::Node);

#[verifier::external_type_specification]
#[verifier::external_body]
#[verifier::reject_recursive_types(T)]
pub struct ExNodeRef<'a, T: 'a>(ego_tree::NodeRef<'a, T>);

/// What a tree node is, as far as the table traversal cares.
pub enum NodeClass<'a> {
    /// An element, together with its tag name.
    Elem(scraper::ElementRef<'a>, String),
    /// A text node's text.
    Text(String),
    /// Any other kind of node: comment, doctype, processing instruction.
    Other,
}

/// The tree that parsing the HTML text yields.
pub uninterp spec fn parse_of(html: Seq<char>) -> scraper::Html;

/// The children of the document root of `doc`, in document order.
pub uninterp spec fn root_nodes_of(doc: &scraper::Html) -> Seq<ego_tree::NodeRef<scraper::Node>>;

/// The children of node `n`, in document order.
pub uninterp spec fn children_of(n: ego_tree::NodeRef<scraper::Node>) -> Seq<
    ego_tree::NodeRef<scraper::Node>,
>;

/// What node `n` is: an element with its tag, a text node, or anything else.
pub uninterp spec fn class_of(n: ego_tree::NodeRef<scraper::Node>) -> NodeClass;

/// The value of attribute `name` on element `el`, if present.
pub uninterp spec fn attr_of(el: scraper::ElementRef, name: Seq<char>) -> Option<Seq<char>>;

/// The tree node that element `el` wraps.
pub uninterp spec fn node_of(el: scraper::ElementRef) -> ego_tree::NodeRef<scraper::Node>;

/// Relies on scraper::Html::parse_document: parses HTML text into a tree,
/// error-tolerantly and deterministically — a function of the text alone.
#[verifier::external_body]
pub(crate) fn parse_document(html: &str) -> (doc: scraper::Html)
    ensures
        doc == parse_of(html@),
{
    scraper::Html::parse_document(html)
}

/// Relies on ego_tree::Tree::root and ego_tree::NodeRef::children: the
/// children of the document root, in document order.
#[verifier::external_body]
pub(crate) fn root_children(doc: &scraper::Html) -> (r: Vec<
    ego_tree::NodeRef<'_, scraper::Node>,
>)
    ensures
        r@ == root_nodes_of(doc),
{
    doc.tree.root().children().collect()
}

/// Relies on ego_tree::NodeRef::children: a node's children in document order.
#[verifier::external_body]
pub(crate) fn child_nodes<'a>(n: &ego_tree::NodeRef<'a, scraper::Node>) -> (r: Vec<
    ego_tree::NodeRef<'a, scraper::Node>,
>)
    ensures
        r@ == children_of(*n),
{
    n.children().collect()
}

/// Relies on the variants of scraper::Node and on scraper::ElementRef::wrap:
/// tells an element (with its tag name) or a text node from every other kind
/// of node, moving the fields the traversal reads.
#[verifier::external_body]
pub(crate) fn classify<'a>(n: &ego_tree::NodeRef<'a, scraper::Node>) -> (r: NodeClass<'a>)
    ensures
        r == class_of(*n),
{
    match n.value() {
        scraper::Node::Text(t) => NodeClass::Text(t.to_string()),
        scraper::Node::Element(e) => match scraper::ElementRef::wrap(*n) {
            Some(el) => NodeClass::Elem(el, e.name().to_string()),
            None => NodeClass::Other,
        },
        _ => NodeClass::Other,
    }
}

/// Relies on scraper::Element::attr: the value of an attribute, if present.
#[verifier::external_body]
pub(crate) fn attr_value(el: &scraper::ElementRef<'_>, name: &str) -> (r: Option<String>)
    ensures
        spans::opt_view(r) == attr_of(*el, name@),
{
    el.value().attr(name).map(|v| v.to_string())
}

/// Relies on the Deref of scraper::ElementRef to the tree node it wraps.
#[verifier::external_body]
pub(crate) fn element_node<'a>(el: &scraper::ElementRef<'a>) -> (r: ego_tree::NodeRef<
    'a,
    scraper::Node,
>)
    ensures
        r == node_of(*el),
{
    **el
}

} // verus!
