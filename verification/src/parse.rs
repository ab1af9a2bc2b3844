//! Construction of a [`crate::dom::HtmlDocument`] from HTML text.
//!
//! Parsing is the `select` crate's work (html5ever underneath).  This module
//! reads the parsed node arena through a few trusted declarations and
//! rebuilds it, in verified code, as the library's own tree of plain values.
//! What the parser produces for a given text is outside this library's
//! contracts: the extractors' contracts all speak of the finished tree.

use vstd::prelude::*;
use vstd::string::*;
use crate::dom::{Attr, Dom, Elem};

verus! {

/// The `select` crate's document type, declared so that values of it can pass
/// through signatures; the library never looks inside one directly.
#[verifier::external_type_specification]
#[verifier::external_body]
pub struct ExSelectDocument(select::document::Document);

/// How many nodes the parsed document's arena holds.
pub uninterp spec fn arena_len(d: select::document::Document) -> nat;

/// One node of the parsed arena, as plain values.
enum RawNode {
    Text(String),
    Comment,
    Element { name: String, attrs: Vec<(String, String)> },
}

/// Relies on `select::document::Document::from(&str)`: parses HTML text,
/// browser-leniently, into a node arena.  The parser's text buffers index
/// bytes with 32 bits: it asserts that bound on its input, and a contiguous
/// text run is merged into one such buffer after character references are
/// expanded, which can lengthen text by at most six output bytes for five
/// input bytes (`&nGt;` becomes two three-byte code points).  Texts under
/// 2^31 bytes therefore stay within the buffers even at worst-case
/// expansion, and longer ones are excluded here.
#[verifier::external_body]
fn parse_html(html: &str) -> select::document::Document
    requires
        html.spec_bytes().len() < 0x8000_0000,
{
    select::document::Document::from(html)
}

/// Relies on the `nodes` vector of `select::document::Document`: its length
/// is the number of parsed nodes.
#[verifier::external_body]
fn doc_len(doc: &select::document::Document) -> (r: usize)
    ensures
        r as nat == arena_len(*doc),
{
    doc.nodes.len()
}

/// Relies on the `parent` field of `select::node::Raw`: the index of the
/// node's parent, or none for a top-level node.
#[verifier::external_body]
fn node_parent(doc: &select::document::Document, i: usize) -> (r: Option<usize>)
    requires
        (i as nat) < arena_len(*doc),
{
    doc.nodes[i].parent
}

/// Relies on the `data` field of `select::node::Raw`, which distinguishes
/// text, element and comment nodes and carries an element's tag name and
/// attributes (as their local names).
#[verifier::external_body]
fn node_raw(doc: &select::document::Document, i: usize) -> (r: RawNode)
    requires
        (i as nat) < arena_len(*doc),
{
    match &doc.nodes[i].data {
        select::node::Data::Text(t) => RawNode::Text(t.to_string()),
        select::node::Data::Comment(_) => RawNode::Comment,
        select::node::Data::Element(name, attrs) => RawNode::Element {
            name: name.local.to_string(),
            attrs: attrs.iter().map(|(k, v)| (k.local.to_string(), v.to_string())).collect(),
        },
    }
}

/// Relies on `select::node::Node::children`: the indices of the node's
/// children in document order.  `Document::from` appends nodes in pre-order,
/// so in every arena it builds — and [`parse_html`] is the only source of one
/// here — a child's index lies beyond its parent's and inside the arena.
#[verifier::external_body]
fn node_children(doc: &select::document::Document, i: usize) -> (r: Vec<usize>)
    requires
        (i as nat) < arena_len(*doc),
    ensures
        forall|k: int| 0 <= k < r@.len() ==> i < #[trigger] r@[k] && (r@[k] as nat) < arena_len(
            *doc,
        ),
{
    match select::node::Node::new(doc, i) {
        Some(n) => n.children().map(|c| c.index()).collect(),
        None => Vec::new(),
    }
}

/// Rebuilds the node at index `i` as a tree of plain values; comment nodes
/// are dropped, since neither matching nor text extraction sees them.
fn build_node(doc: &select::document::Document, i: usize) -> (r: Option<Dom>)
    requires
        (i as nat) < arena_len(*doc),
    decreases arena_len(*doc) - i,
{
    match node_raw(doc, i) {
        RawNode::Text(s) => Some(Dom::Text(s)),
        RawNode::Comment => None,
        RawNode::Element { name, attrs } => {
            let mut ats: Vec<Attr> = Vec::new();
            let mut a: usize = 0;
            while a < attrs.len()
                decreases attrs@.len() - a,
            {
                ats.push(
                    Attr { name: attrs[a].0.clone(), value: attrs[a].1.clone() },
                );
                a += 1;
            }
            let kids = node_children(doc, i);
            let mut children: Vec<Dom> = Vec::new();
            let mut j: usize = 0;
            while j < kids.len()
                invariant
                    (i as nat) < arena_len(*doc),
                    forall|k: int| 0 <= k < kids@.len() ==> i < #[trigger] kids@[k] && (kids@[k] as nat)
                        < arena_len(*doc),
                decreases kids@.len() - j,
            {
                if let Some(d) = build_node(doc, kids[j]) {
                    children.push(d);
                }
                j += 1;
            }
            Some(Dom::Element(Elem { name, attrs: ats, children }))
        },
    }
}

/// Rebuilds the whole arena: the top-level nodes, in document order, each
/// with its subtree.
fn build_document(doc: &select::document::Document) -> crate::dom::HtmlDocument {
    let n = doc_len(doc);
    let mut roots: Vec<Dom> = Vec::new();
    let mut i: usize = 0;
    while i < n
        invariant
            n as nat == arena_len(*doc),
        decreases n - i,
    {
        if node_parent(doc, i).is_none() {
            if let Some(d) = build_node(doc, i) {
                roots.push(d);
            }
        }
        i += 1;
    }
    crate::dom::HtmlDocument { roots }
}

/// Parses HTML text, browser-leniently, into the library's document tree.
/// The text must stay under 2^31 bytes: the parser holds text in 32-bit
/// indexed buffers, and expanding character references can lengthen text by
/// up to six output bytes for five input bytes, which this bound absorbs.
/// What the parser produces for a given text is not part of this library's
/// contracts; every extractor's contract speaks of the returned tree.
pub fn parse_document(html: &str) -> crate::dom::HtmlDocument
    requires
        html.spec_bytes().len() < 0x8000_0000,
{
    let sdoc = parse_html(html);
    build_document(&sdoc)
}

} // verus!
