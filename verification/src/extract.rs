//! The five extractors: selector-driven walks over a document, each returning
//! the matched strings in document order.
//!
//! Matching elements are always gathered by a depth-first pre-order walk, so
//! every result sequence follows the document order of its anchor elements.
//! Two extractors are strict: when an expected child node or attribute is
//! missing under a matched element the whole call fails and already gathered
//! results are discarded.  The other three skip silently.

use vstd::prelude::*;
use crate::dom::{Dom, Elem, HtmlDocument, text_of_elem, views_of};
use crate::dom::elem_text;
use crate::matching::{attr_of, elem_has_attr_value, has_class};
use crate::matching::{attr_value_of, elem_has_attr_value_exec, elem_has_class, str_eq};

verus! {

/// Why a strict extractor failed.
#[derive(Clone, Copy, Debug, PartialEq, Eq, Structural)]
pub enum ExtractError {
    /// A matched element had no descendant with the required tag.
    MissingExpectedNode,
    /// A matched node lacked the required attribute.
    MissingExpectedAttribute,
}

/// The elements under `n` (including `n` itself) whose class attribute
/// contains the token `tok`, in document order.
pub open spec fn class_elems(n: Dom, tok: Seq<char>) -> Seq<Elem>
    decreases n,
{
    match n {
        Dom::Text(_) => Seq::empty(),
        Dom::Element(e) => (if has_class(e, tok) {
            seq![e]
        } else {
            Seq::empty()
        }) + class_elems_in(e.children@, tok),
    }
}

/// The elements of the forest `ns` whose class attribute contains `tok`, in
/// document order.
pub open spec fn class_elems_in(ns: Seq<Dom>, tok: Seq<char>) -> Seq<Elem>
    decreases ns,
{
    if ns.len() == 0 {
        Seq::empty()
    } else {
        class_elems(ns[0], tok) + class_elems_in(ns.drop_first(), tok)
    }
}

/// The elements under `n` (including `n` itself) whose tag equals `name`, in
/// document order.
pub open spec fn tag_elems(n: Dom, name: Seq<char>) -> Seq<Elem>
    decreases n,
{
    match n {
        Dom::Text(_) => Seq::empty(),
        Dom::Element(e) => (if e.name@ == name {
            seq![e]
        } else {
            Seq::empty()
        }) + tag_elems_in(e.children@, name),
    }
}

/// The elements of the forest `ns` whose tag equals `name`, in document order.
pub open spec fn tag_elems_in(ns: Seq<Dom>, name: Seq<char>) -> Seq<Elem>
    decreases ns,
{
    if ns.len() == 0 {
        Seq::empty()
    } else {
        tag_elems(ns[0], name) + tag_elems_in(ns.drop_first(), name)
    }
}

/// The first element of the forest `ns`, in a depth-first pre-order walk,
/// whose tag equals `name`.
pub open spec fn first_tag_in(ns: Seq<Dom>, name: Seq<char>) -> Option<Elem>
    decreases ns,
{
    if ns.len() == 0 {
        Option::None
    } else {
        match ns[0] {
            Dom::Text(_) => first_tag_in(ns.drop_first(), name),
            Dom::Element(e) => if e.name@ == name {
                Option::Some(e)
            } else {
                match first_tag_in(e.children@, name) {
                    Option::Some(c) => Option::Some(c),
                    Option::None => first_tag_in(ns.drop_first(), name),
                }
            },
        }
    }
}

/// The concatenated text of each element, kept in order.
pub open spec fn texts_of_elems(es: Seq<Elem>) -> Seq<Seq<char>> {
    es.map_values(|e: Elem| text_of_elem(e))
}

/// For each parent in order: the text of its first descendant with tag
/// `c_tag`, skipping parents that have none.
pub open spec fn first_child_tag_texts(parents: Seq<Elem>, c_tag: Seq<char>) -> Seq<Seq<char>>
    decreases parents.len(),
{
    if parents.len() == 0 {
        Seq::empty()
    } else {
        (match first_tag_in(parents[0].children@, c_tag) {
            Option::Some(c) => seq![text_of_elem(c)],
            Option::None => Seq::empty(),
        }) + first_child_tag_texts(parents.drop_first(), c_tag)
    }
}

/// A node that marks its parent: an element one of whose attribute values
/// equals `v`.
pub open spec fn child_is_marked(n: Dom, v: Seq<char>) -> bool {
    match n {
        Dom::Text(_) => false,
        Dom::Element(e) => elem_has_attr_value(e, v),
    }
}

/// How many nodes of `children` mark their parent.
pub open spec fn marked_child_count(children: Seq<Dom>, v: Seq<char>) -> nat
    decreases children.len(),
{
    if children.len() == 0 {
        0
    } else {
        (if child_is_marked(children[0], v) {
            1nat
        } else {
            0
        }) + marked_child_count(children.drop_first(), v)
    }
}

/// For each parent in order: its own concatenated text, once per direct child
/// that carries an attribute whose value equals `v`.
pub open spec fn parent_texts(parents: Seq<Elem>, v: Seq<char>) -> Seq<Seq<char>>
    decreases parents.len(),
{
    if parents.len() == 0 {
        Seq::empty()
    } else {
        Seq::new(marked_child_count(parents[0].children@, v), |q: int| text_of_elem(parents[0]))
            + parent_texts(parents.drop_first(), v)
    }
}

/// The strict per-parent step of [`child_attrs_of`]: the value of `c_attr` on
/// the parent's first descendant with tag `c_tag`, or the error that the
/// parent causes.
pub open spec fn child_attr_of(p: Elem, c_tag: Seq<char>, c_attr: Seq<char>) -> Result<
    Seq<char>,
    ExtractError,
> {
    match first_tag_in(p.children@, c_tag) {
        Option::None => Result::Err(ExtractError::MissingExpectedNode),
        Option::Some(c) => match attr_of(c, c_attr) {
            Option::None => Result::Err(ExtractError::MissingExpectedAttribute),
            Option::Some(v) => Result::Ok(v),
        },
    }
}

/// For each parent in order, the value that [`child_attr_of`] yields; the
/// first failing parent aborts the whole walk.
pub open spec fn child_attrs_of(parents: Seq<Elem>, c_tag: Seq<char>, c_attr: Seq<char>) -> Result<
    Seq<Seq<char>>,
    ExtractError,
>
    decreases parents.len(),
{
    if parents.len() == 0 {
        Result::Ok(Seq::empty())
    } else {
        match child_attr_of(parents[0], c_tag, c_attr) {
            Result::Err(e) => Result::Err(e),
            Result::Ok(v) => match child_attrs_of(parents.drop_first(), c_tag, c_attr) {
                Result::Err(e) => Result::Err(e),
                Result::Ok(rest) => Result::Ok(seq![v] + rest),
            },
        }
    }
}

/// How many attributes of `attrs` have exactly the value `v`.
pub open spec fn marked_attr_count(attrs: Seq<crate::dom::Attr>, v: Seq<char>) -> nat
    decreases attrs.len(),
{
    if attrs.len() == 0 {
        0
    } else {
        (if attrs[0].value@ == v {
            1nat
        } else {
            0
        }) + marked_attr_count(attrs.drop_first(), v)
    }
}

/// The strict per-child step of [`children_attrs_by_value`]: the value of `a`
/// on the child, once per attribute of the child whose value equals `v`; a
/// child with a matching attribute but no attribute `a` fails.
pub open spec fn child_marked_attrs(c: Elem, v: Seq<char>, a: Seq<char>) -> Result<
    Seq<Seq<char>>,
    ExtractError,
> {
    let m = marked_attr_count(c.attrs@, v);
    if m == 0 {
        Result::Ok(Seq::empty())
    } else {
        match attr_of(c, a) {
            Option::None => Result::Err(ExtractError::MissingExpectedAttribute),
            Option::Some(val) => Result::Ok(Seq::new(m, |q: int| val)),
        }
    }
}

/// The contributions of a parent's direct children under the strict
/// attribute-by-value walk, in order; the first failing child aborts.
pub open spec fn children_attrs_by_value(
    children: Seq<Dom>,
    v: Seq<char>,
    a: Seq<char>,
) -> Result<Seq<Seq<char>>, ExtractError>
    decreases children.len(),
{
    if children.len() == 0 {
        Result::Ok(Seq::empty())
    } else {
        let head = match children[0] {
            Dom::Text(_) => Result::Ok(Seq::empty()),
            Dom::Element(c) => child_marked_attrs(c, v, a),
        };
        match head {
            Result::Err(e) => Result::Err(e),
            Result::Ok(h) => match children_attrs_by_value(children.drop_first(), v, a) {
                Result::Err(e) => Result::Err(e),
                Result::Ok(rest) => Result::Ok(h + rest),
            },
        }
    }
}

/// For each parent in order, the contributions of its direct children under
/// the strict attribute-by-value walk; the first failing parent aborts.
pub open spec fn parents_attrs_by_value(
    parents: Seq<Elem>,
    v: Seq<char>,
    a: Seq<char>,
) -> Result<Seq<Seq<char>>, ExtractError>
    decreases parents.len(),
{
    if parents.len() == 0 {
        Result::Ok(Seq::empty())
    } else {
        match children_attrs_by_value(parents[0].children@, v, a) {
            Result::Err(e) => Result::Err(e),
            Result::Ok(h) => match parents_attrs_by_value(parents.drop_first(), v, a) {
                Result::Err(e) => Result::Err(e),
                Result::Ok(rest) => Result::Ok(h + rest),
            },
        }
    }
}

proof fn lemma_views_of_push(s: Seq<String>, x: String)
    ensures
        views_of(s.push(x)) == views_of(s).push(x@),
{
    assert(views_of(s.push(x)) =~= views_of(s).push(x@));
}

/// Splitting the matched elements splits the texts accordingly: results for
/// earlier anchors stand before results for later ones.
pub proof fn lemma_texts_of_elems_add(a: Seq<Elem>, b: Seq<Elem>)
    ensures
        texts_of_elems(a + b) == texts_of_elems(a) + texts_of_elems(b),
{
    assert(texts_of_elems(a + b) =~= texts_of_elems(a) + texts_of_elems(b));
}

fn class_texts_node(n: &Dom, tok: &str, out: &mut Vec<String>)
    ensures
        views_of(final(out)@) == views_of(old(out)@) + texts_of_elems(class_elems(*n, tok@)),
    decreases *n, 0int,
{
    match n {
        Dom::Text(_) => {
            proof {
                assert(views_of(out@) =~= views_of(out@) + texts_of_elems(Seq::<Elem>::empty()));
            }
        },
        Dom::Element(e) => {
            let ghost lead: Seq<Elem> = if has_class(*e, tok@) {
                seq![*e]
            } else {
                Seq::<Elem>::empty()
            };
            if elem_has_class(e, tok) {
                let t = elem_text(e);
                out.push(t);
                proof {
                    lemma_views_of_push(old(out)@, t);
                    assert(views_of(out@) =~= views_of(old(out)@) + texts_of_elems(lead));
                }
            } else {
                proof {
                    assert(views_of(out@) =~= views_of(old(out)@) + texts_of_elems(lead));
                }
            }
            class_texts_nodes(&e.children, 0, tok, out);
            proof {
                assert(e.children@.skip(0) =~= e.children@);
                lemma_texts_of_elems_add(lead, class_elems_in(e.children@, tok@));
                assert(views_of(out@) =~= views_of(old(out)@) + texts_of_elems(
                    lead + class_elems_in(e.children@, tok@),
                ));
                assert(class_elems(*n, tok@) == lead + class_elems_in(e.children@, tok@));
            }
        },
    }
}

fn class_texts_nodes(ns: &Vec<Dom>, i: usize, tok: &str, out: &mut Vec<String>)
    requires
        i <= ns@.len(),
    ensures
        views_of(final(out)@) == views_of(old(out)@) + texts_of_elems(
            class_elems_in(ns@.skip(i as int), tok@),
        ),
    decreases ns@, ns@.len() - i,
{
    if i < ns.len() {
        class_texts_node(&ns[i], tok, out);
        class_texts_nodes(ns, i + 1, tok, out);
        proof {
            assert(ns@.skip(i as int)[0] == ns@[i as int]);
            assert(ns@.skip(i as int).drop_first() =~= ns@.skip(i as int + 1));
            lemma_texts_of_elems_add(
                class_elems(ns@[i as int], tok@),
                class_elems_in(ns@.skip(i as int + 1), tok@),
            );
            assert(views_of(out@) =~= views_of(old(out)@) + texts_of_elems(
                class_elems_in(ns@.skip(i as int), tok@),
            ));
        }
    } else {
        proof {
            assert(ns@.skip(i as int) =~= Seq::<Dom>::empty());
            assert(views_of(out@) =~= views_of(out@) + texts_of_elems(Seq::<Elem>::empty()));
        }
    }
}

fn first_tag_in_exec<'a>(ns: &'a Vec<Dom>, i: usize, name: &str) -> (r: Option<&'a Elem>)
    requires
        i <= ns@.len(),
    ensures
        match first_tag_in(ns@.skip(i as int), name@) {
            Option::None => r is None,
            Option::Some(c) => r is Some && *r->0 == c,
        },
    decreases ns@, ns@.len() - i,
{
    proof {
        if i < ns@.len() {
            assert(ns@.skip(i as int)[0] == ns@[i as int]);
            assert(ns@.skip(i as int).drop_first() =~= ns@.skip(i as int + 1));
        } else {
            assert(ns@.skip(i as int) =~= Seq::<Dom>::empty());
        }
    }
    if i < ns.len() {
        match &ns[i] {
            Dom::Text(_) => first_tag_in_exec(ns, i + 1, name),
            Dom::Element(e) => {
                if str_eq(e.name.as_str(), name) {
                    Some(e)
                } else {
                    proof {
                        assert(e.children@.skip(0) =~= e.children@);
                    }
                    match first_tag_in_exec(&e.children, 0, name) {
                        Some(c) => Some(c),
                        None => first_tag_in_exec(ns, i + 1, name),
                    }
                }
            },
        }
    } else {
        None
    }
}

/// Splitting the matched parents splits the first-descendant texts
/// accordingly: results for earlier anchors stand before results for later
/// ones.
pub proof fn lemma_fct_add(a: Seq<Elem>, b: Seq<Elem>, c_tag: Seq<char>)
    ensures
        first_child_tag_texts(a + b, c_tag) == first_child_tag_texts(a, c_tag)
            + first_child_tag_texts(b, c_tag),
    decreases a.len(),
{
    if a.len() == 0 {
        assert(a + b =~= b);
        assert(first_child_tag_texts(a, c_tag) + first_child_tag_texts(b, c_tag)
            =~= first_child_tag_texts(b, c_tag));
    } else {
        assert((a + b)[0] == a[0]);
        assert((a + b).drop_first() =~= a.drop_first() + b);
        lemma_fct_add(a.drop_first(), b, c_tag);
        assert(first_child_tag_texts(a + b, c_tag) =~= first_child_tag_texts(a, c_tag)
            + first_child_tag_texts(b, c_tag));
    }
}

fn tag_texts_node(n: &Dom, p_tag: &str, c_tag: &str, out: &mut Vec<String>)
    ensures
        views_of(final(out)@) == views_of(old(out)@) + first_child_tag_texts(
            tag_elems(*n, p_tag@),
            c_tag@,
        ),
    decreases *n, 0int,
{
    match n {
        Dom::Text(_) => {
            proof {
                assert(views_of(out@) =~= views_of(out@) + first_child_tag_texts(
                    Seq::<Elem>::empty(),
                    c_tag@,
                ));
            }
        },
        Dom::Element(e) => {
            let ghost lead: Seq<Elem> = if e.name@ == p_tag@ {
                seq![*e]
            } else {
                Seq::<Elem>::empty()
            };
            if str_eq(e.name.as_str(), p_tag) {
                proof {
                    assert(e.children@.skip(0) =~= e.children@);
                }
                match first_tag_in_exec(&e.children, 0, c_tag) {
                    Some(c) => {
                        let t = elem_text(c);
                        out.push(t);
                        proof {
                            lemma_views_of_push(old(out)@, t);
                            assert(first_child_tag_texts(Seq::<Elem>::empty(), c_tag@)
                                =~= Seq::<Seq<char>>::empty());
                            assert(seq![*e].drop_first() =~= Seq::<Elem>::empty());
                            assert(lead[0] == *e);
                            assert(first_child_tag_texts(lead, c_tag@)
                                =~= seq![text_of_elem(*c)]);
                            assert(views_of(out@) =~= views_of(old(out)@)
                                + first_child_tag_texts(lead, c_tag@));
                        }
                    },
                    None => {
                        proof {
                            assert(first_child_tag_texts(Seq::<Elem>::empty(), c_tag@)
                                =~= Seq::<Seq<char>>::empty());
                            assert(seq![*e].drop_first() =~= Seq::<Elem>::empty());
                            assert(lead[0] == *e);
                            assert(first_child_tag_texts(lead, c_tag@)
                                =~= Seq::<Seq<char>>::empty());
                            assert(views_of(out@) =~= views_of(old(out)@)
                                + first_child_tag_texts(lead, c_tag@));
                        }
                    },
                }
            } else {
                proof {
                    assert(views_of(out@) =~= views_of(old(out)@) + first_child_tag_texts(
                        lead,
                        c_tag@,
                    ));
                }
            }
            tag_texts_nodes(&e.children, 0, p_tag, c_tag, out);
            proof {
                assert(e.children@.skip(0) =~= e.children@);
                lemma_fct_add(lead, tag_elems_in(e.children@, p_tag@), c_tag@);
                assert(views_of(out@) =~= views_of(old(out)@) + first_child_tag_texts(
                    lead + tag_elems_in(e.children@, p_tag@),
                    c_tag@,
                ));
                assert(tag_elems(*n, p_tag@) == lead + tag_elems_in(e.children@, p_tag@));
            }
        },
    }
}

fn tag_texts_nodes(ns: &Vec<Dom>, i: usize, p_tag: &str, c_tag: &str, out: &mut Vec<String>)
    requires
        i <= ns@.len(),
    ensures
        views_of(final(out)@) == views_of(old(out)@) + first_child_tag_texts(
            tag_elems_in(ns@.skip(i as int), p_tag@),
            c_tag@,
        ),
    decreases ns@, ns@.len() - i,
{
    if i < ns.len() {
        tag_texts_node(&ns[i], p_tag, c_tag, out);
        tag_texts_nodes(ns, i + 1, p_tag, c_tag, out);
        proof {
            assert(ns@.skip(i as int)[0] == ns@[i as int]);
            assert(ns@.skip(i as int).drop_first() =~= ns@.skip(i as int + 1));
            lemma_fct_add(
                tag_elems(ns@[i as int], p_tag@),
                tag_elems_in(ns@.skip(i as int + 1), p_tag@),
                c_tag@,
            );
            assert(views_of(out@) =~= views_of(old(out)@) + first_child_tag_texts(
                tag_elems_in(ns@.skip(i as int), p_tag@),
                c_tag@,
            ));
        }
    } else {
        proof {
            assert(ns@.skip(i as int) =~= Seq::<Dom>::empty());
            assert(views_of(out@) =~= views_of(out@) + first_child_tag_texts(
                Seq::<Elem>::empty(),
                c_tag@,
            ));
        }
    }
}

/// For every element with tag `p_tag_name`, in document order: collects the
/// concatenated text of its first descendant (pre-order) with tag
/// `c_tag_name`; a parent without such a descendant is skipped silently.
pub fn find_all_text_by_tag(doc: &HtmlDocument, p_tag_name: &str, c_tag_name: &str) -> (r: Vec<
    String,
>)
    ensures
        views_of(r@) == first_child_tag_texts(tag_elems_in(doc.roots@, p_tag_name@), c_tag_name@),
{
    let mut out: Vec<String> = Vec::new();
    tag_texts_nodes(&doc.roots, 0, p_tag_name, c_tag_name, &mut out);
    proof {
        assert(doc.roots@.skip(0) =~= doc.roots@);
        assert(views_of(Seq::<String>::empty()) =~= Seq::<Seq<char>>::empty());
        assert(Seq::<Seq<char>>::empty() + first_child_tag_texts(
            tag_elems_in(doc.roots@, p_tag_name@),
            c_tag_name@,
        ) =~= first_child_tag_texts(tag_elems_in(doc.roots@, p_tag_name@), c_tag_name@));
    }
    out
}

/// Splitting the matched parents splits the strict child-attribute walk
/// accordingly: an early failure wins, and on success results for earlier
/// anchors stand before results for later ones.
pub proof fn lemma_child_attrs_add(a: Seq<Elem>, b: Seq<Elem>, t: Seq<char>, at: Seq<char>)
    ensures
        child_attrs_of(a + b, t, at) == (match child_attrs_of(a, t, at) {
            Result::Err(e) => Result::<Seq<Seq<char>>, ExtractError>::Err(e),
            Result::Ok(va) => match child_attrs_of(b, t, at) {
                Result::Err(e) => Result::<Seq<Seq<char>>, ExtractError>::Err(e),
                Result::Ok(vb) => Result::<Seq<Seq<char>>, ExtractError>::Ok(va + vb),
            },
        }),
    decreases a.len(),
{
    if a.len() == 0 {
        assert(a + b =~= b);
        match child_attrs_of(b, t, at) {
            Result::Ok(vb) => {
                assert(Seq::<Seq<char>>::empty() + vb =~= vb);
            },
            Result::Err(_) => {},
        }
    } else {
        assert((a + b)[0] == a[0]);
        assert((a + b).drop_first() =~= a.drop_first() + b);
        lemma_child_attrs_add(a.drop_first(), b, t, at);
        match child_attr_of(a[0], t, at) {
            Result::Err(_) => {},
            Result::Ok(v) => {
                match child_attrs_of(a.drop_first(), t, at) {
                    Result::Err(_) => {},
                    Result::Ok(va) => {
                        match child_attrs_of(b, t, at) {
                            Result::Err(_) => {},
                            Result::Ok(vb) => {
                                assert(seq![v] + (va + vb) =~= (seq![v] + va) + vb);
                            },
                        }
                    },
                }
            },
        }
    }
}

fn child_attrs_node(
    n: &Dom,
    tok: &str,
    c_tag: &str,
    c_attr: &str,
    out: &mut Vec<String>,
) -> (res: Result<(), ExtractError>)
    ensures
        match res {
            Result::Ok(_) => child_attrs_of(class_elems(*n, tok@), c_tag@, c_attr@) is Ok
                && views_of(final(out)@) == views_of(old(out)@) + child_attrs_of(
                class_elems(*n, tok@),
                c_tag@,
                c_attr@,
            )->Ok_0,
            Result::Err(e) => child_attrs_of(class_elems(*n, tok@), c_tag@, c_attr@)
                == Result::<Seq<Seq<char>>, ExtractError>::Err(e),
        },
    decreases *n, 0int,
{
    match n {
        Dom::Text(_) => {
            proof {
                assert(views_of(out@) =~= views_of(out@) + Seq::<Seq<char>>::empty());
            }
            Ok(())
        },
        Dom::Element(e) => {
            let ghost lead: Seq<Elem> = if has_class(*e, tok@) {
                seq![*e]
            } else {
                Seq::<Elem>::empty()
            };
            let ghost rest: Seq<Elem> = class_elems_in(e.children@, tok@);
            proof {
                assert(class_elems(*n, tok@) == lead + rest);
            }
            if elem_has_class(e, tok) {
                proof {
                    assert(e.children@.skip(0) =~= e.children@);
                    assert((lead + rest)[0] == *e);
                    assert((lead + rest).len() > 0);
                }
                match first_tag_in_exec(&e.children, 0, c_tag) {
                    None => {
                        proof {
                            assert(child_attr_of(*e, c_tag@, c_attr@)
                                == Result::<Seq<char>, ExtractError>::Err(
                                ExtractError::MissingExpectedNode,
                            ));
                        }
                        return Err(ExtractError::MissingExpectedNode);
                    },
                    Some(c) => {
                        match attr_value_of(c, c_attr) {
                            None => {
                                proof {
                                    assert(child_attr_of(*e, c_tag@, c_attr@)
                                        == Result::<Seq<char>, ExtractError>::Err(
                                        ExtractError::MissingExpectedAttribute,
                                    ));
                                }
                                return Err(ExtractError::MissingExpectedAttribute);
                            },
                            Some(v) => {
                                proof {
                                    assert(child_attr_of(*e, c_tag@, c_attr@)
                                        == Result::<Seq<char>, ExtractError>::Ok(v@));
                                }
                                out.push(v);
                                proof {
                                    assert(lead[0] == *e);
                                    assert(lead.drop_first() =~= Seq::<Elem>::empty());
                                    assert(child_attrs_of(Seq::<Elem>::empty(), c_tag@, c_attr@)
                                        == Result::<Seq<Seq<char>>, ExtractError>::Ok(
                                        Seq::empty(),
                                    ));
                                    assert(seq![v@] + Seq::<Seq<char>>::empty() =~= seq![v@]);
                                    assert(child_attrs_of(lead, c_tag@, c_attr@)
                                        == Result::<Seq<Seq<char>>, ExtractError>::Ok(seq![v@]));
                                    lemma_views_of_push(old(out)@, v);
                                    assert(views_of(old(out)@).push(v@) =~= views_of(old(out)@)
                                        + seq![v@]);
                                }
                            },
                        }
                    },
                }
            }
            let ghost mid: Seq<String> = out@;
            proof {
                if has_class(*e, tok@) {
                    assert(child_attrs_of(lead, c_tag@, c_attr@) is Ok);
                    assert(views_of(mid) == views_of(old(out)@) + child_attrs_of(
                        lead,
                        c_tag@,
                        c_attr@,
                    )->Ok_0);
                } else {
                    assert(child_attrs_of(lead, c_tag@, c_attr@)
                        == Result::<Seq<Seq<char>>, ExtractError>::Ok(Seq::empty()));
                    assert(views_of(mid) =~= views_of(old(out)@) + Seq::<Seq<char>>::empty());
                }
            }
            let res = child_attrs_nodes(&e.children, 0, tok, c_tag, c_attr, out);
            proof {
                assert(e.children@.skip(0) =~= e.children@);
                lemma_child_attrs_add(lead, rest, c_tag@, c_attr@);
                match res {
                    Result::Ok(_) => {
                        assert((views_of(old(out)@) + child_attrs_of(lead, c_tag@, c_attr@)->Ok_0)
                            + child_attrs_of(rest, c_tag@, c_attr@)->Ok_0 =~= views_of(old(out)@)
                            + (child_attrs_of(lead, c_tag@, c_attr@)->Ok_0 + child_attrs_of(
                            rest,
                            c_tag@,
                            c_attr@,
                        )->Ok_0));
                    },
                    Result::Err(_) => {},
                }
            }
            res
        },
    }
}

fn child_attrs_nodes(
    ns: &Vec<Dom>,
    i: usize,
    tok: &str,
    c_tag: &str,
    c_attr: &str,
    out: &mut Vec<String>,
) -> (res: Result<(), ExtractError>)
    requires
        i <= ns@.len(),
    ensures
        match res {
            Result::Ok(_) => child_attrs_of(class_elems_in(ns@.skip(i as int), tok@), c_tag@, c_attr@)
                is Ok && views_of(final(out)@) == views_of(old(out)@) + child_attrs_of(
                class_elems_in(ns@.skip(i as int), tok@),
                c_tag@,
                c_attr@,
            )->Ok_0,
            Result::Err(e) => child_attrs_of(class_elems_in(ns@.skip(i as int), tok@), c_tag@, c_attr@)
                == Result::<Seq<Seq<char>>, ExtractError>::Err(e),
        },
    decreases ns@, ns@.len() - i,
{
    if i < ns.len() {
        proof {
            assert(ns@.skip(i as int)[0] == ns@[i as int]);
            assert(ns@.skip(i as int).drop_first() =~= ns@.skip(i as int + 1));
        }
        let ghost head: Seq<Elem> = class_elems(ns@[i as int], tok@);
        let ghost tail: Seq<Elem> = class_elems_in(ns@.skip(i as int + 1), tok@);
        proof {
            assert(class_elems_in(ns@.skip(i as int), tok@) == head + tail);
            lemma_child_attrs_add(head, tail, c_tag@, c_attr@);
        }
        match child_attrs_node(&ns[i], tok, c_tag, c_attr, out) {
            Err(e) => {
                return Err(e);
            },
            Ok(_) => {},
        }
        let res = child_attrs_nodes(ns, i + 1, tok, c_tag, c_attr, out);
        proof {
            match res {
                Result::Ok(_) => {
                    assert((views_of(old(out)@) + child_attrs_of(head, c_tag@, c_attr@)->Ok_0)
                        + child_attrs_of(tail, c_tag@, c_attr@)->Ok_0 =~= views_of(old(out)@) + (
                    child_attrs_of(head, c_tag@, c_attr@)->Ok_0 + child_attrs_of(
                        tail,
                        c_tag@,
                        c_attr@,
                    )->Ok_0));
                },
                Result::Err(_) => {},
            }
        }
        res
    } else {
        proof {
            assert(ns@.skip(i as int) =~= Seq::<Dom>::empty());
            assert(views_of(out@) =~= views_of(out@) + Seq::<Seq<char>>::empty());
        }
        Ok(())
    }
}

proof fn lemma_marked_count_push(a: Seq<Dom>, x: Dom, v: Seq<char>)
    ensures
        marked_child_count(a.push(x), v) == marked_child_count(a, v) + (if child_is_marked(x, v) {
            1nat
        } else {
            0nat
        }),
    decreases a.len(),
{
    if a.len() == 0 {
        assert(a.push(x)[0] == x);
        assert(a.push(x).drop_first() =~= Seq::<Dom>::empty());
        assert(marked_child_count(Seq::<Dom>::empty(), v) == 0);
        assert(marked_child_count(a, v) == 0);
    } else {
        assert(a.push(x)[0] == a[0]);
        assert(a.push(x).drop_first() =~= a.drop_first().push(x));
        lemma_marked_count_push(a.drop_first(), x, v);
    }
}

/// Splitting the matched parents splits the parent texts accordingly:
/// results for earlier anchors stand before results for later ones.
pub proof fn lemma_parent_texts_add(a: Seq<Elem>, b: Seq<Elem>, v: Seq<char>)
    ensures
        parent_texts(a + b, v) == parent_texts(a, v) + parent_texts(b, v),
    decreases a.len(),
{
    if a.len() == 0 {
        assert(a + b =~= b);
        assert(parent_texts(a, v) + parent_texts(b, v) =~= parent_texts(b, v));
    } else {
        assert((a + b)[0] == a[0]);
        assert((a + b).drop_first() =~= a.drop_first() + b);
        lemma_parent_texts_add(a.drop_first(), b, v);
        assert(parent_texts(a + b, v) =~= parent_texts(a, v) + parent_texts(b, v));
    }
}

fn dom_child_is_marked(n: &Dom, v: &str) -> (r: bool)
    ensures
        r == child_is_marked(*n, v@),
{
    match n {
        Dom::Text(_) => false,
        Dom::Element(c) => elem_has_attr_value_exec(c, v),
    }
}

fn parent_texts_node(n: &Dom, p_tag: &str, c_class: &str, out: &mut Vec<String>)
    ensures
        views_of(final(out)@) == views_of(old(out)@) + parent_texts(
            tag_elems(*n, p_tag@),
            c_class@,
        ),
    decreases *n, 0int,
{
    match n {
        Dom::Text(_) => {
            proof {
                assert(views_of(out@) =~= views_of(out@) + parent_texts(
                    Seq::<Elem>::empty(),
                    c_class@,
                ));
            }
        },
        Dom::Element(e) => {
            let ghost lead: Seq<Elem> = if e.name@ == p_tag@ {
                seq![*e]
            } else {
                Seq::<Elem>::empty()
            };
            if str_eq(e.name.as_str(), p_tag) {
                let t = elem_text(e);
                let mut j: usize = 0;
                proof {
                    assert(e.children@.take(0) =~= Seq::<Dom>::empty());
                    assert(views_of(out@) =~= views_of(old(out)@) + Seq::new(
                        marked_child_count(e.children@.take(0), c_class@),
                        |q: int| text_of_elem(*e),
                    ));
                }
                while j < e.children.len()
                    invariant
                        j <= e.children@.len(),
                        t@ == text_of_elem(*e),
                        views_of(out@) == views_of(old(out)@) + Seq::new(
                            marked_child_count(e.children@.take(j as int), c_class@),
                            |q: int| text_of_elem(*e),
                        ),
                    decreases e.children@.len() - j,
                {
                    proof {
                        assert(e.children@.take(j as int + 1) =~= e.children@.take(
                            j as int,
                        ).push(e.children@[j as int]));
                        lemma_marked_count_push(
                            e.children@.take(j as int),
                            e.children@[j as int],
                            c_class@,
                        );
                    }
                    if dom_child_is_marked(&e.children[j], c_class) {
                        let ghost pre: Seq<String> = out@;
                        let tc = t.clone();
                        out.push(tc);
                        proof {
                            lemma_views_of_push(pre, tc);
                            assert(Seq::new(
                                marked_child_count(e.children@.take(j as int + 1), c_class@),
                                |q: int| text_of_elem(*e),
                            ) =~= Seq::new(
                                marked_child_count(e.children@.take(j as int), c_class@),
                                |q: int| text_of_elem(*e),
                            ).push(text_of_elem(*e)));
                            assert(views_of(out@) =~= views_of(old(out)@) + Seq::new(
                                marked_child_count(e.children@.take(j as int + 1), c_class@),
                                |q: int| text_of_elem(*e),
                            ));
                        }
                    } else {
                        proof {
                            assert(views_of(out@) =~= views_of(old(out)@) + Seq::new(
                                marked_child_count(e.children@.take(j as int + 1), c_class@),
                                |q: int| text_of_elem(*e),
                            ));
                        }
                    }
                    j += 1;
                }
                proof {
                    assert(e.children@.take(e.children@.len() as int) =~= e.children@);
                    assert(lead[0] == *e);
                    assert(lead.drop_first() =~= Seq::<Elem>::empty());
                    assert(parent_texts(Seq::<Elem>::empty(), c_class@)
                        =~= Seq::<Seq<char>>::empty());
                    assert(parent_texts(lead, c_class@) =~= Seq::new(
                        marked_child_count(e.children@, c_class@),
                        |q: int| text_of_elem(*e),
                    ));
                    assert(views_of(out@) =~= views_of(old(out)@) + parent_texts(lead, c_class@));
                }
            } else {
                proof {
                    assert(views_of(out@) =~= views_of(old(out)@) + parent_texts(lead, c_class@));
                }
            }
            parent_texts_nodes(&e.children, 0, p_tag, c_class, out);
            proof {
                assert(e.children@.skip(0) =~= e.children@);
                lemma_parent_texts_add(lead, tag_elems_in(e.children@, p_tag@), c_class@);
                assert(views_of(out@) =~= views_of(old(out)@) + parent_texts(
                    lead + tag_elems_in(e.children@, p_tag@),
                    c_class@,
                ));
                assert(tag_elems(*n, p_tag@) == lead + tag_elems_in(e.children@, p_tag@));
            }
        },
    }
}

fn parent_texts_nodes(ns: &Vec<Dom>, i: usize, p_tag: &str, c_class: &str, out: &mut Vec<String>)
    requires
        i <= ns@.len(),
    ensures
        views_of(final(out)@) == views_of(old(out)@) + parent_texts(
            tag_elems_in(ns@.skip(i as int), p_tag@),
            c_class@,
        ),
    decreases ns@, ns@.len() - i,
{
    if i < ns.len() {
        parent_texts_node(&ns[i], p_tag, c_class, out);
        parent_texts_nodes(ns, i + 1, p_tag, c_class, out);
        proof {
            assert(ns@.skip(i as int)[0] == ns@[i as int]);
            assert(ns@.skip(i as int).drop_first() =~= ns@.skip(i as int + 1));
            lemma_parent_texts_add(
                tag_elems(ns@[i as int], p_tag@),
                tag_elems_in(ns@.skip(i as int + 1), p_tag@),
                c_class@,
            );
            assert(views_of(out@) =~= views_of(old(out)@) + parent_texts(
                tag_elems_in(ns@.skip(i as int), p_tag@),
                c_class@,
            ));
        }
    } else {
        proof {
            assert(ns@.skip(i as int) =~= Seq::<Dom>::empty());
            assert(views_of(out@) =~= views_of(out@) + parent_texts(
                Seq::<Elem>::empty(),
                c_class@,
            ));
        }
    }
}

/// For every element with tag `p_tag_name`, in document order: appends the
/// element's own concatenated text once per direct child that carries an
/// attribute whose value equals `c_class_name` — value equality against any
/// attribute, not only `class`, and duplicates are intentional.
pub fn find_parent_text(doc: &HtmlDocument, p_tag_name: &str, c_class_name: &str) -> (r: Vec<String>)
    ensures
        views_of(r@) == parent_texts(tag_elems_in(doc.roots@, p_tag_name@), c_class_name@),
{
    let mut out: Vec<String> = Vec::new();
    parent_texts_nodes(&doc.roots, 0, p_tag_name, c_class_name, &mut out);
    proof {
        assert(doc.roots@.skip(0) =~= doc.roots@);
        assert(views_of(Seq::<String>::empty()) =~= Seq::<Seq<char>>::empty());
        assert(Seq::<Seq<char>>::empty() + parent_texts(
            tag_elems_in(doc.roots@, p_tag_name@),
            c_class_name@,
        ) =~= parent_texts(tag_elems_in(doc.roots@, p_tag_name@), c_class_name@));
    }
    out
}

/// For every element whose class attribute contains the token `p_class_name`,
/// in document order: reads the attribute `c_attr_name` of its first
/// descendant (pre-order) with tag `c_tag_name`.  Strict: a matched element
/// without such a descendant fails the whole call with
/// [`ExtractError::MissingExpectedNode`], a descendant without the attribute
/// with [`ExtractError::MissingExpectedAttribute`], and already gathered
/// results are discarded.
pub fn find_child_attr_by_tag(
    doc: &HtmlDocument,
    p_class_name: &str,
    c_tag_name: &str,
    c_attr_name: &str,
) -> (r: Result<Vec<String>, ExtractError>)
    ensures
        match r {
            Result::Ok(v) => child_attrs_of(
                class_elems_in(doc.roots@, p_class_name@),
                c_tag_name@,
                c_attr_name@,
            ) == Result::<Seq<Seq<char>>, ExtractError>::Ok(views_of(v@)),
            Result::Err(e) => child_attrs_of(
                class_elems_in(doc.roots@, p_class_name@),
                c_tag_name@,
                c_attr_name@,
            ) == Result::<Seq<Seq<char>>, ExtractError>::Err(e),
        },
{
    let mut out: Vec<String> = Vec::new();
    let res = child_attrs_nodes(&doc.roots, 0, p_class_name, c_tag_name, c_attr_name, &mut out);
    proof {
        assert(doc.roots@.skip(0) =~= doc.roots@);
        assert(views_of(Seq::<String>::empty()) =~= Seq::<Seq<char>>::empty());
        match res {
            Result::Ok(_) => {
                assert(Seq::<Seq<char>>::empty() + child_attrs_of(
                    class_elems_in(doc.roots@, p_class_name@),
                    c_tag_name@,
                    c_attr_name@,
                )->Ok_0 =~= child_attrs_of(
                    class_elems_in(doc.roots@, p_class_name@),
                    c_tag_name@,
                    c_attr_name@,
                )->Ok_0);
            },
            Result::Err(_) => {},
        }
    }
    match res {
        Ok(_) => Ok(out),
        Err(e) => Err(e),
    }
}

/// Collects the concatenated text of every element whose class attribute
/// contains the token `class_name`, in document order: one string per matched
/// element, untrimmed, duplicates preserved.
pub fn find_all_text_by_class(doc: &HtmlDocument, class_name: &str) -> (r: Vec<String>)
    ensures
        views_of(r@) == texts_of_elems(class_elems_in(doc.roots@, class_name@)),
{
    let mut out: Vec<String> = Vec::new();
    class_texts_nodes(&doc.roots, 0, class_name, &mut out);
    proof {
        assert(doc.roots@.skip(0) =~= doc.roots@);
        assert(views_of(Seq::<String>::empty()) =~= Seq::<Seq<char>>::empty());
        assert(Seq::<Seq<char>>::empty() + texts_of_elems(class_elems_in(doc.roots@, class_name@))
            =~= texts_of_elems(class_elems_in(doc.roots@, class_name@)));
    }
    out
}

proof fn lemma_marked_attr_count_push(a: Seq<crate::dom::Attr>, x: crate::dom::Attr, v: Seq<char>)
    ensures
        marked_attr_count(a.push(x), v) == marked_attr_count(a, v) + (if x.value@ == v {
            1nat
        } else {
            0nat
        }),
    decreases a.len(),
{
    if a.len() == 0 {
        assert(a.push(x)[0] == x);
        assert(a.push(x).drop_first() =~= Seq::<crate::dom::Attr>::empty());
        assert(marked_attr_count(Seq::<crate::dom::Attr>::empty(), v) == 0);
        assert(marked_attr_count(a, v) == 0);
    } else {
        assert(a.push(x)[0] == a[0]);
        assert(a.push(x).drop_first() =~= a.drop_first().push(x));
        lemma_marked_attr_count_push(a.drop_first(), x, v);
    }
}

proof fn lemma_marked_attr_pos(attrs: Seq<crate::dom::Attr>, k: int, v: Seq<char>)
    requires
        0 <= k < attrs.len(),
        attrs[k].value@ == v,
    ensures
        marked_attr_count(attrs, v) > 0,
    decreases k,
{
    if k > 0 {
        assert(attrs.drop_first()[k - 1] == attrs[k]);
        lemma_marked_attr_pos(attrs.drop_first(), k - 1, v);
    }
}

/// Splitting the matched parents splits the strict attribute-by-value walk
/// accordingly: an early failure wins, and on success results for earlier
/// anchors stand before results for later ones.
pub proof fn lemma_parents_attrs_add(a: Seq<Elem>, b: Seq<Elem>, v: Seq<char>, at: Seq<char>)
    ensures
        parents_attrs_by_value(a + b, v, at) == (match parents_attrs_by_value(a, v, at) {
            Result::Err(e) => Result::<Seq<Seq<char>>, ExtractError>::Err(e),
            Result::Ok(va) => match parents_attrs_by_value(b, v, at) {
                Result::Err(e) => Result::<Seq<Seq<char>>, ExtractError>::Err(e),
                Result::Ok(vb) => Result::<Seq<Seq<char>>, ExtractError>::Ok(va + vb),
            },
        }),
    decreases a.len(),
{
    if a.len() == 0 {
        assert(a + b =~= b);
        match parents_attrs_by_value(b, v, at) {
            Result::Ok(vb) => {
                assert(Seq::<Seq<char>>::empty() + vb =~= vb);
            },
            Result::Err(_) => {},
        }
    } else {
        assert((a + b)[0] == a[0]);
        assert((a + b).drop_first() =~= a.drop_first() + b);
        lemma_parents_attrs_add(a.drop_first(), b, v, at);
        match children_attrs_by_value(a[0].children@, v, at) {
            Result::Err(_) => {},
            Result::Ok(h) => {
                match parents_attrs_by_value(a.drop_first(), v, at) {
                    Result::Err(_) => {},
                    Result::Ok(va) => {
                        match parents_attrs_by_value(b, v, at) {
                            Result::Err(_) => {},
                            Result::Ok(vb) => {
                                assert(h + (va + vb) =~= (h + va) + vb);
                            },
                        }
                    },
                }
            },
        }
    }
}

fn child_marked_attrs_exec(c: &Elem, v: &str, a: &str, out: &mut Vec<String>) -> (res: Result<
    (),
    ExtractError,
>)
    ensures
        match res {
            Result::Ok(_) => child_marked_attrs(*c, v@, a@) is Ok && views_of(final(out)@)
                == views_of(old(out)@) + child_marked_attrs(*c, v@, a@)->Ok_0,
            Result::Err(e) => child_marked_attrs(*c, v@, a@) == Result::<
                Seq<Seq<char>>,
                ExtractError,
            >::Err(e),
        },
{
    let mut k: usize = 0;
    proof {
        assert(c.attrs@.take(0) =~= Seq::<crate::dom::Attr>::empty());
        assert(marked_attr_count(Seq::<crate::dom::Attr>::empty(), v@) == 0);
    }
    while k < c.attrs.len()
        invariant
            k <= c.attrs@.len(),
            (match attr_of(*c, a@) {
                Option::None => marked_attr_count(c.attrs@.take(k as int), v@) == 0 && out@
                    == old(out)@,
                Option::Some(val) => views_of(out@) == views_of(old(out)@) + Seq::new(
                    marked_attr_count(c.attrs@.take(k as int), v@),
                    |q: int| (val),
                ),
            }),
        decreases c.attrs@.len() - k,
    {
        proof {
            assert(c.attrs@.take(k as int + 1) =~= c.attrs@.take(k as int).push(
                c.attrs@[k as int],
            ));
            lemma_marked_attr_count_push(c.attrs@.take(k as int), c.attrs@[k as int], v@);
        }
        if str_eq(c.attrs[k].value.as_str(), v) {
            match attr_value_of(c, a) {
                None => {
                    proof {
                        lemma_marked_attr_pos(c.attrs@, k as int, v@);
                    }
                    return Err(ExtractError::MissingExpectedAttribute);
                },
                Some(val) => {
                    let ghost pre: Seq<String> = out@;
                    out.push(val);
                    proof {
                        lemma_views_of_push(pre, val);
                        assert(Seq::new(
                            marked_attr_count(c.attrs@.take(k as int + 1), v@),
                            |q: int| (attr_of(*c, a@)->0),
                        ) =~= Seq::new(
                            marked_attr_count(c.attrs@.take(k as int), v@),
                            |q: int| (attr_of(*c, a@)->0),
                        ).push(attr_of(*c, a@)->0));
                        assert(views_of(out@) =~= views_of(old(out)@) + Seq::new(
                            marked_attr_count(c.attrs@.take(k as int + 1), v@),
                            |q: int| (attr_of(*c, a@)->0),
                        ));
                    }
                },
            }
        } else {
            proof {
                match attr_of(*c, a@) {
                    Option::None => {},
                    Option::Some(val) => {
                        assert(views_of(out@) =~= views_of(old(out)@) + Seq::new(
                            marked_attr_count(c.attrs@.take(k as int + 1), v@),
                            |q: int| (val),
                        ));
                    },
                }
            }
        }
        k += 1;
    }
    proof {
        assert(c.attrs@.take(c.attrs@.len() as int) =~= c.attrs@);
        match attr_of(*c, a@) {
            Option::None => {
                assert(child_marked_attrs(*c, v@, a@) == Result::<
                    Seq<Seq<char>>,
                    ExtractError,
                >::Ok(Seq::empty()));
                assert(views_of(out@) =~= views_of(old(out)@) + Seq::<Seq<char>>::empty());
            },
            Option::Some(val) => {
                if marked_attr_count(c.attrs@, v@) == 0 {
                    assert(Seq::new(0nat, |q: int| (val)) =~= Seq::<Seq<char>>::empty());
                }
            },
        }
    }
    Ok(())
}

fn children_attrs_exec(children: &Vec<Dom>, j: usize, v: &str, a: &str, out: &mut Vec<String>) -> (res:
    Result<(), ExtractError>)
    requires
        j <= children@.len(),
    ensures
        match res {
            Result::Ok(_) => children_attrs_by_value(children@.skip(j as int), v@, a@) is Ok
                && views_of(final(out)@) == views_of(old(out)@) + children_attrs_by_value(
                children@.skip(j as int),
                v@,
                a@,
            )->Ok_0,
            Result::Err(e) => children_attrs_by_value(children@.skip(j as int), v@, a@) == Result::<
                Seq<Seq<char>>,
                ExtractError,
            >::Err(e),
        },
    decreases children@.len() - j,
{
    if j < children.len() {
        proof {
            assert(children@.skip(j as int)[0] == children@[j as int]);
            assert(children@.skip(j as int).drop_first() =~= children@.skip(j as int + 1));
        }
        match &children[j] {
            Dom::Text(_) => {},
            Dom::Element(c) => {
                match child_marked_attrs_exec(c, v, a, out) {
                    Err(e) => {
                        return Err(e);
                    },
                    Ok(_) => {},
                }
            },
        }
        let res = children_attrs_exec(children, j + 1, v, a, out);
        proof {
            match res {
                Result::Ok(_) => {
                    let h = match children@[j as int] {
                        Dom::Text(_) => Seq::<Seq<char>>::empty(),
                        Dom::Element(c) => child_marked_attrs(c, v@, a@)->Ok_0,
                    };
                    let rest = children_attrs_by_value(children@.skip(j as int + 1), v@, a@)->Ok_0;
                    assert((views_of(old(out)@) + h) + rest =~= views_of(old(out)@) + (h + rest));
                    if children@[j as int] is Text {
                        assert(views_of(old(out)@) + Seq::<Seq<char>>::empty() =~= views_of(
                            old(out)@,
                        ));
                    }
                },
                Result::Err(_) => {},
            }
        }
        res
    } else {
        proof {
            assert(children@.skip(j as int) =~= Seq::<Dom>::empty());
            assert(views_of(out@) =~= views_of(out@) + Seq::<Seq<char>>::empty());
        }
        Ok(())
    }
}

fn by_value_node(n: &Dom, p_tag: &str, v: &str, a: &str, out: &mut Vec<String>) -> (res: Result<
    (),
    ExtractError,
>)
    ensures
        match res {
            Result::Ok(_) => parents_attrs_by_value(tag_elems(*n, p_tag@), v@, a@) is Ok
                && views_of(final(out)@) == views_of(old(out)@) + parents_attrs_by_value(
                tag_elems(*n, p_tag@),
                v@,
                a@,
            )->Ok_0,
            Result::Err(e) => parents_attrs_by_value(tag_elems(*n, p_tag@), v@, a@) == Result::<
                Seq<Seq<char>>,
                ExtractError,
            >::Err(e),
        },
    decreases *n, 0int,
{
    match n {
        Dom::Text(_) => {
            proof {
                assert(views_of(out@) =~= views_of(out@) + Seq::<Seq<char>>::empty());
            }
            Ok(())
        },
        Dom::Element(e) => {
            let ghost lead: Seq<Elem> = if e.name@ == p_tag@ {
                seq![*e]
            } else {
                Seq::<Elem>::empty()
            };
            let ghost rest: Seq<Elem> = tag_elems_in(e.children@, p_tag@);
            proof {
                assert(tag_elems(*n, p_tag@) == lead + rest);
            }
            if str_eq(e.name.as_str(), p_tag) {
                proof {
                    assert(e.children@.skip(0) =~= e.children@);
                    assert((lead + rest)[0] == *e);
                }
                match children_attrs_exec(&e.children, 0, v, a, out) {
                    Err(e2) => {
                        return Err(e2);
                    },
                    Ok(_) => {
                        proof {
                            assert(lead.drop_first() =~= Seq::<Elem>::empty());
                            assert(parents_attrs_by_value(Seq::<Elem>::empty(), v@, a@)
                                == Result::<Seq<Seq<char>>, ExtractError>::Ok(Seq::empty()));
                            assert(children_attrs_by_value(e.children@, v@, a@)->Ok_0
                                + Seq::<Seq<char>>::empty() =~= children_attrs_by_value(
                                e.children@,
                                v@,
                                a@,
                            )->Ok_0);
                            assert(parents_attrs_by_value(lead, v@, a@) == Result::<
                                Seq<Seq<char>>,
                                ExtractError,
                            >::Ok(children_attrs_by_value(e.children@, v@, a@)->Ok_0));
                        }
                    },
                }
            }
            let ghost mid: Seq<String> = out@;
            proof {
                if e.name@ == p_tag@ {
                    assert(parents_attrs_by_value(lead, v@, a@) is Ok);
                    assert(views_of(mid) == views_of(old(out)@) + parents_attrs_by_value(
                        lead,
                        v@,
                        a@,
                    )->Ok_0);
                } else {
                    assert(parents_attrs_by_value(lead, v@, a@) == Result::<
                        Seq<Seq<char>>,
                        ExtractError,
                    >::Ok(Seq::empty()));
                    assert(views_of(mid) =~= views_of(old(out)@) + Seq::<Seq<char>>::empty());
                }
            }
            let res = by_value_nodes(&e.children, 0, p_tag, v, a, out);
            proof {
                assert(e.children@.skip(0) =~= e.children@);
                lemma_parents_attrs_add(lead, rest, v@, a@);
                match res {
                    Result::Ok(_) => {
                        assert((views_of(old(out)@) + parents_attrs_by_value(lead, v@, a@)->Ok_0)
                            + parents_attrs_by_value(rest, v@, a@)->Ok_0 =~= views_of(old(out)@) + (
                        parents_attrs_by_value(lead, v@, a@)->Ok_0 + parents_attrs_by_value(
                            rest,
                            v@,
                            a@,
                        )->Ok_0));
                    },
                    Result::Err(_) => {},
                }
            }
            res
        },
    }
}

fn by_value_nodes(
    ns: &Vec<Dom>,
    i: usize,
    p_tag: &str,
    v: &str,
    a: &str,
    out: &mut Vec<String>,
) -> (res: Result<(), ExtractError>)
    requires
        i <= ns@.len(),
    ensures
        match res {
            Result::Ok(_) => parents_attrs_by_value(tag_elems_in(ns@.skip(i as int), p_tag@), v@, a@)
                is Ok && views_of(final(out)@) == views_of(old(out)@) + parents_attrs_by_value(
                tag_elems_in(ns@.skip(i as int), p_tag@),
                v@,
                a@,
            )->Ok_0,
            Result::Err(e) => parents_attrs_by_value(
                tag_elems_in(ns@.skip(i as int), p_tag@),
                v@,
                a@,
            ) == Result::<Seq<Seq<char>>, ExtractError>::Err(e),
        },
    decreases ns@, ns@.len() - i,
{
    if i < ns.len() {
        proof {
            assert(ns@.skip(i as int)[0] == ns@[i as int]);
            assert(ns@.skip(i as int).drop_first() =~= ns@.skip(i as int + 1));
        }
        let ghost head: Seq<Elem> = tag_elems(ns@[i as int], p_tag@);
        let ghost tail: Seq<Elem> = tag_elems_in(ns@.skip(i as int + 1), p_tag@);
        proof {
            assert(tag_elems_in(ns@.skip(i as int), p_tag@) == head + tail);
            lemma_parents_attrs_add(head, tail, v@, a@);
        }
        match by_value_node(&ns[i], p_tag, v, a, out) {
            Err(e) => {
                return Err(e);
            },
            Ok(_) => {},
        }
        let res = by_value_nodes(ns, i + 1, p_tag, v, a, out);
        proof {
            match res {
                Result::Ok(_) => {
                    assert((views_of(old(out)@) + parents_attrs_by_value(head, v@, a@)->Ok_0)
                        + parents_attrs_by_value(tail, v@, a@)->Ok_0 =~= views_of(old(out)@) + (
                    parents_attrs_by_value(head, v@, a@)->Ok_0 + parents_attrs_by_value(
                        tail,
                        v@,
                        a@,
                    )->Ok_0));
                },
                Result::Err(_) => {},
            }
        }
        res
    } else {
        proof {
            assert(ns@.skip(i as int) =~= Seq::<Dom>::empty());
            assert(views_of(out@) =~= views_of(out@) + Seq::<Seq<char>>::empty());
        }
        Ok(())
    }
}

/// For every element with tag `p_tag_name`, in document order: examines each
/// direct child, and for each attribute of the child whose value equals
/// `c_class_name` (value equality against any attribute, not only `class`)
/// reads the child's attribute `c_attr_name` and appends it, once per
/// matching attribute.  Strict: a matching child without the attribute fails
/// the whole call with [`ExtractError::MissingExpectedAttribute`], and
/// already gathered results are discarded.
pub fn find_child_attr_by_class(
    doc: &HtmlDocument,
    p_tag_name: &str,
    c_class_name: &str,
    c_attr_name: &str,
) -> (r: Result<Vec<String>, ExtractError>)
    ensures
        match r {
            Result::Ok(v) => parents_attrs_by_value(
                tag_elems_in(doc.roots@, p_tag_name@),
                c_class_name@,
                c_attr_name@,
            ) == Result::<Seq<Seq<char>>, ExtractError>::Ok(views_of(v@)),
            Result::Err(e) => parents_attrs_by_value(
                tag_elems_in(doc.roots@, p_tag_name@),
                c_class_name@,
                c_attr_name@,
            ) == Result::<Seq<Seq<char>>, ExtractError>::Err(e),
        },
{
    let mut out: Vec<String> = Vec::new();
    let res = by_value_nodes(&doc.roots, 0, p_tag_name, c_class_name, c_attr_name, &mut out);
    proof {
        assert(doc.roots@.skip(0) =~= doc.roots@);
        assert(views_of(Seq::<String>::empty()) =~= Seq::<Seq<char>>::empty());
        match res {
            Result::Ok(_) => {
                assert(Seq::<Seq<char>>::empty() + parents_attrs_by_value(
                    tag_elems_in(doc.roots@, p_tag_name@),
                    c_class_name@,
                    c_attr_name@,
                )->Ok_0 =~= parents_attrs_by_value(
                    tag_elems_in(doc.roots@, p_tag_name@),
                    c_class_name@,
                    c_attr_name@,
                )->Ok_0);
            },
            Result::Err(_) => {},
        }
    }
    match res {
        Ok(_) => Ok(out),
        Err(e) => Err(e),
    }
}

} // verus!
