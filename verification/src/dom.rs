//! The document model: a parsed HTML tree held as plain values.
//!
//! A [`HtmlDocument`] owns a forest of [`Dom`] nodes.  An element node carries its
//! tag name (as the parser produced it, i.e. lower case for ordinary HTML),
//! its attributes in source order, and its child nodes in document order.

use vstd::prelude::*;

verus! {

/// One attribute of an element: a name and a value, both as the parser
/// produced them.
pub struct Attr {
    pub name: String,
    pub value: String,
}

/// A node of the document tree: either a run of text or an element.
pub enum Dom {
    /// A text node and its contents.
    Text(String),
    /// An element node.
    Element(Elem),
}

/// An element: tag name, attributes in source order, children in document
/// order.
pub struct Elem {
    pub name: String,
    pub attrs: Vec<Attr>,
    pub children: Vec<Dom>,
}

/// A parsed document: its top-level nodes in document order.
pub struct HtmlDocument {
    pub roots: Vec<Dom>,
}

/// The views of a sequence of strings.
pub open spec fn views_of(s: Seq<String>) -> Seq<Seq<char>> {
    s.map_values(|x: String| x@)
}

/// The concatenated descendant text of a node: the in-order concatenation of
/// all text nodes under it, with no added separators.
pub open spec fn text_of(n: Dom) -> Seq<char>
    decreases n,
{
    match n {
        Dom::Text(s) => s@,
        Dom::Element(e) => text_of_nodes(e.children@),
    }
}

/// The concatenated text of a forest, in document order.
pub open spec fn text_of_nodes(ns: Seq<Dom>) -> Seq<char>
    decreases ns,
{
    if ns.len() == 0 {
        Seq::empty()
    } else {
        text_of(ns[0]) + text_of_nodes(ns.drop_first())
    }
}

/// The concatenated descendant text of an element.
pub open spec fn text_of_elem(e: Elem) -> Seq<char> {
    text_of_nodes(e.children@)
}

fn push_text_node(n: &Dom, out: &mut String)
    ensures
        final(out)@ == old(out)@ + text_of(*n),
    decreases *n, 0int,
{
    match n {
        Dom::Text(t) => {
            proof {
                assert(text_of(*n) == t@);
            }
            out.append(t.as_str());
        },
        Dom::Element(e) => {
            push_text_nodes(&e.children, 0, out);
            proof {
                assert(e.children@.skip(0) =~= e.children@);
            }
        },
    }
}

fn push_text_nodes(ns: &Vec<Dom>, i: usize, out: &mut String)
    requires
        i <= ns@.len(),
    ensures
        final(out)@ == old(out)@ + text_of_nodes(ns@.skip(i as int)),
    decreases ns@, ns@.len() - i,
{
    if i < ns.len() {
        push_text_node(&ns[i], out);
        push_text_nodes(ns, i + 1, out);
        proof {
            assert(ns@.skip(i as int)[0] == ns@[i as int]);
            assert(ns@.skip(i as int).drop_first() =~= ns@.skip(i as int + 1));
            assert(old(out)@ + text_of(ns@[i as int]) + text_of_nodes(ns@.skip(i as int + 1))
                == old(out)@ + text_of_nodes(ns@.skip(i as int)));
        }
    } else {
        proof {
            assert(ns@.skip(i as int) =~= Seq::<Dom>::empty());
            assert(out@ =~= out@ + Seq::<char>::empty());
        }
    }
}

/// The concatenated descendant text of an element, as an owned string.
pub fn elem_text(e: &Elem) -> (r: String)
    ensures
        r@ == text_of_elem(*e),
{
    let mut s = String::new();
    push_text_nodes(&e.children, 0, &mut s);
    proof {
        assert(e.children@.skip(0) =~= e.children@);
    }
    s
}

} // verus!
