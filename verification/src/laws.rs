//! Library-wide laws, each proved from the spec functions that the
//! extractors' contracts speak of: determinism, results in document order of
//! their anchor parents, count agreement, and empty-document behaviour.

use vstd::prelude::*;
use vstd::seq_lib::*;
use crate::dom::{Dom, Elem, HtmlDocument, text_of_elem};
use crate::extract::{
    child_attr_of, child_attrs_of, class_elems, class_elems_in, first_child_tag_texts,
    parent_texts, parents_attrs_by_value, tag_elems, tag_elems_in, texts_of_elems, ExtractError,
};
use crate::matching::has_class;

verus! {

/// All elements under `n` (including `n` itself), in document order.
pub open spec fn all_elems(n: Dom) -> Seq<Elem>
    decreases n,
{
    match n {
        Dom::Text(_) => Seq::empty(),
        Dom::Element(e) => seq![e] + all_elems_in(e.children@),
    }
}

/// All elements of the forest `ns`, in document order.
pub open spec fn all_elems_in(ns: Seq<Dom>) -> Seq<Elem>
    decreases ns,
{
    if ns.len() == 0 {
        Seq::empty()
    } else {
        all_elems(ns[0]) + all_elems_in(ns.drop_first())
    }
}

proof fn lemma_filter_singleton(e: Elem, pred: spec_fn(Elem) -> bool)
    ensures
        seq![e].filter(pred) == (if pred(e) {
            seq![e]
        } else {
            Seq::<Elem>::empty()
        }),
{
    reveal(Seq::filter);
    assert(seq![e].len() == 1);
    assert(seq![e].last() == e);
    assert(seq![e].drop_last() =~= Seq::<Elem>::empty());
    assert(seq![e].drop_last().filter(pred) =~= Seq::<Elem>::empty());
    if pred(e) {
        assert(Seq::<Elem>::empty().push(e) =~= seq![e]);
    }
}

/// The anchors of the class walk are exactly the elements whose class
/// attribute contains the token, kept in document order.
pub proof fn lemma_class_elems_are_filtered(n: Dom, tok: Seq<char>)
    ensures
        class_elems(n, tok) == all_elems(n).filter(|e: Elem| has_class(e, tok)),
    decreases n, 0int,
{
    reveal(Seq::filter);
    let pred = |e: Elem| has_class(e, tok);
    match n {
        Dom::Text(_) => {
            assert(Seq::<Elem>::empty().filter(pred) =~= Seq::<Elem>::empty());
        },
        Dom::Element(e) => {
            lemma_class_elems_in_are_filtered(e.children@, tok);
            Seq::<Elem>::filter_distributes_over_add(seq![e], all_elems_in(e.children@), pred);
            lemma_filter_singleton(e, pred);
        },
    }
}

/// The anchors of the class walk over a forest are exactly the elements whose
/// class attribute contains the token, kept in document order.
pub proof fn lemma_class_elems_in_are_filtered(ns: Seq<Dom>, tok: Seq<char>)
    ensures
        class_elems_in(ns, tok) == all_elems_in(ns).filter(|e: Elem| has_class(e, tok)),
    decreases ns, 0int,
{
    reveal(Seq::filter);
    let pred = |e: Elem| has_class(e, tok);
    if ns.len() == 0 {
        assert(Seq::<Elem>::empty().filter(pred) =~= Seq::<Elem>::empty());
    } else {
        lemma_class_elems_are_filtered(ns[0], tok);
        lemma_class_elems_in_are_filtered(ns.drop_first(), tok);
        Seq::<Elem>::filter_distributes_over_add(
            all_elems(ns[0]),
            all_elems_in(ns.drop_first()),
            pred,
        );
    }
}

/// The anchors of the tag walk are exactly the elements with that tag, kept
/// in document order.
pub proof fn lemma_tag_elems_are_filtered(n: Dom, name: Seq<char>)
    ensures
        tag_elems(n, name) == all_elems(n).filter(|e: Elem| e.name@ == name),
    decreases n, 0int,
{
    reveal(Seq::filter);
    let pred = |e: Elem| e.name@ == name;
    match n {
        Dom::Text(_) => {
            assert(Seq::<Elem>::empty().filter(pred) =~= Seq::<Elem>::empty());
        },
        Dom::Element(e) => {
            lemma_tag_elems_in_are_filtered(e.children@, name);
            Seq::<Elem>::filter_distributes_over_add(seq![e], all_elems_in(e.children@), pred);
            lemma_filter_singleton(e, pred);
        },
    }
}

/// The anchors of the tag walk over a forest are exactly the elements with
/// that tag, kept in document order.
pub proof fn lemma_tag_elems_in_are_filtered(ns: Seq<Dom>, name: Seq<char>)
    ensures
        tag_elems_in(ns, name) == all_elems_in(ns).filter(|e: Elem| e.name@ == name),
    decreases ns, 0int,
{
    reveal(Seq::filter);
    let pred = |e: Elem| e.name@ == name;
    if ns.len() == 0 {
        assert(Seq::<Elem>::empty().filter(pred) =~= Seq::<Elem>::empty());
    } else {
        lemma_tag_elems_are_filtered(ns[0], name);
        lemma_tag_elems_in_are_filtered(ns.drop_first(), name);
        Seq::<Elem>::filter_distributes_over_add(
            all_elems(ns[0]),
            all_elems_in(ns.drop_first()),
            pred,
        );
    }
}

/// Determinism of the strict child-attribute-by-tag extractor: any two
/// results its contract admits for one document and selector are equal.
pub proof fn lemma_find_child_attr_by_tag_deterministic(
    doc: HtmlDocument,
    p_class: Seq<char>,
    c_tag: Seq<char>,
    c_attr: Seq<char>,
    r1: Result<Seq<Seq<char>>, ExtractError>,
    r2: Result<Seq<Seq<char>>, ExtractError>,
)
    requires
        r1 == child_attrs_of(class_elems_in(doc.roots@, p_class), c_tag, c_attr),
        r2 == child_attrs_of(class_elems_in(doc.roots@, p_class), c_tag, c_attr),
    ensures
        r1 == r2,
{
}

/// Determinism of the parent-text extractor.
pub proof fn lemma_find_parent_text_deterministic(
    doc: HtmlDocument,
    p_tag: Seq<char>,
    c_class: Seq<char>,
    r1: Seq<Seq<char>>,
    r2: Seq<Seq<char>>,
)
    requires
        r1 == parent_texts(tag_elems_in(doc.roots@, p_tag), c_class),
        r2 == parent_texts(tag_elems_in(doc.roots@, p_tag), c_class),
    ensures
        r1 == r2,
{
}

/// Determinism of the text-by-class extractor.
pub proof fn lemma_find_all_text_by_class_deterministic(
    doc: HtmlDocument,
    class_name: Seq<char>,
    r1: Seq<Seq<char>>,
    r2: Seq<Seq<char>>,
)
    requires
        r1 == texts_of_elems(class_elems_in(doc.roots@, class_name)),
        r2 == texts_of_elems(class_elems_in(doc.roots@, class_name)),
    ensures
        r1 == r2,
{
}

/// Determinism of the text-by-tag extractor.
pub proof fn lemma_find_all_text_by_tag_deterministic(
    doc: HtmlDocument,
    p_tag: Seq<char>,
    c_tag: Seq<char>,
    r1: Seq<Seq<char>>,
    r2: Seq<Seq<char>>,
)
    requires
        r1 == first_child_tag_texts(tag_elems_in(doc.roots@, p_tag), c_tag),
        r2 == first_child_tag_texts(tag_elems_in(doc.roots@, p_tag), c_tag),
    ensures
        r1 == r2,
{
}

/// Determinism of the strict child-attribute-by-class-value extractor.
pub proof fn lemma_find_child_attr_by_class_deterministic(
    doc: HtmlDocument,
    p_tag: Seq<char>,
    c_class: Seq<char>,
    c_attr: Seq<char>,
    r1: Result<Seq<Seq<char>>, ExtractError>,
    r2: Result<Seq<Seq<char>>, ExtractError>,
)
    requires
        r1 == parents_attrs_by_value(tag_elems_in(doc.roots@, p_tag), c_class, c_attr),
        r2 == parents_attrs_by_value(tag_elems_in(doc.roots@, p_tag), c_class, c_attr),
    ensures
        r1 == r2,
{
}

/// Empty document: with no nodes at all, every extractor returns the empty
/// sequence (the strict ones, success with the empty sequence).
pub proof fn lemma_empty_document(
    doc: HtmlDocument,
    p_class: Seq<char>,
    p_tag: Seq<char>,
    c_tag: Seq<char>,
    c_class: Seq<char>,
    c_attr: Seq<char>,
)
    requires
        doc.roots@.len() == 0,
    ensures
        child_attrs_of(class_elems_in(doc.roots@, p_class), c_tag, c_attr) == Result::<
            Seq<Seq<char>>,
            ExtractError,
        >::Ok(Seq::empty()),
        parent_texts(tag_elems_in(doc.roots@, p_tag), c_class) == Seq::<Seq<char>>::empty(),
        texts_of_elems(class_elems_in(doc.roots@, p_class)) == Seq::<Seq<char>>::empty(),
        first_child_tag_texts(tag_elems_in(doc.roots@, p_tag), c_tag) == Seq::<Seq<char>>::empty(),
        parents_attrs_by_value(tag_elems_in(doc.roots@, p_tag), c_class, c_attr) == Result::<
            Seq<Seq<char>>,
            ExtractError,
        >::Ok(Seq::empty()),
{
    assert(class_elems_in(doc.roots@, p_class) =~= Seq::<Elem>::empty());
    assert(tag_elems_in(doc.roots@, p_tag) =~= Seq::<Elem>::empty());
    assert(texts_of_elems(Seq::<Elem>::empty()) =~= Seq::<Seq<char>>::empty());
}

/// Order and count for the text-by-class extractor: one result per matched
/// element, the i-th result being the text of the i-th matched element in
/// document order.
pub proof fn lemma_texts_in_parent_order(es: Seq<Elem>)
    ensures
        texts_of_elems(es).len() == es.len(),
        forall|i: int| 0 <= i < es.len() ==> texts_of_elems(es)[i] == text_of_elem(es[i]),
{
}

/// Order and count for the strict child-attribute-by-tag extractor: when it
/// succeeds it yields exactly one value per matched parent, in parent order,
/// each being what that parent's own strict step yields.
pub proof fn lemma_child_attrs_in_parent_order(
    parents: Seq<Elem>,
    c_tag: Seq<char>,
    c_attr: Seq<char>,
)
    requires
        child_attrs_of(parents, c_tag, c_attr) is Ok,
    ensures
        child_attrs_of(parents, c_tag, c_attr)->Ok_0.len() == parents.len(),
        forall|i: int|
            0 <= i < parents.len() ==> child_attr_of(parents[i], c_tag, c_attr) == Result::<
                Seq<char>,
                ExtractError,
            >::Ok(child_attrs_of(parents, c_tag, c_attr)->Ok_0[i]),
    decreases parents.len(),
{
    if parents.len() > 0 {
        lemma_child_attrs_in_parent_order(parents.drop_first(), c_tag, c_attr);
        let v = child_attr_of(parents[0], c_tag, c_attr)->Ok_0;
        let rest = child_attrs_of(parents.drop_first(), c_tag, c_attr)->Ok_0;
        assert(child_attrs_of(parents, c_tag, c_attr)->Ok_0 == seq![v] + rest);
        assert forall|i: int| 0 <= i < parents.len() implies child_attr_of(
            parents[i],
            c_tag,
            c_attr,
        ) == Result::<Seq<char>, ExtractError>::Ok((seq![v] + rest)[i]) by {
            if i == 0 {
                assert((seq![v] + rest)[0] == v);
            } else {
                assert(parents.drop_first()[i - 1] == parents[i]);
                assert((seq![v] + rest)[i] == rest[i - 1]);
            }
        }
    }
}

/// Strictness of the child-attribute-by-tag walk: if some matched parent has
/// no descendant with the wanted tag, and every parent before it yields a
/// value, the whole walk fails with [`ExtractError::MissingExpectedNode`]
/// rather than returning a shorter sequence.  (When an earlier parent fails
/// first, the walk fails with that parent's error instead.)
pub proof fn lemma_strict_missing_node(
    parents: Seq<Elem>,
    k: int,
    c_tag: Seq<char>,
    c_attr: Seq<char>,
)
    requires
        0 <= k < parents.len(),
        crate::extract::first_tag_in(parents[k].children@, c_tag) is None,
        forall|i: int| 0 <= i < k ==> child_attr_of(#[trigger] parents[i], c_tag, c_attr) is Ok,
    ensures
        child_attrs_of(parents, c_tag, c_attr) == Result::<Seq<Seq<char>>, ExtractError>::Err(
            ExtractError::MissingExpectedNode,
        ),
    decreases k,
{
    if k == 0 {
        assert(child_attr_of(parents[0], c_tag, c_attr) == Result::<Seq<char>, ExtractError>::Err(
            ExtractError::MissingExpectedNode,
        ));
    } else {
        assert(child_attr_of(parents[0], c_tag, c_attr) is Ok);
        assert(parents.drop_first()[k - 1] == parents[k]);
        assert forall|i: int| 0 <= i < k - 1 implies child_attr_of(
            #[trigger] parents.drop_first()[i],
            c_tag,
            c_attr,
        ) is Ok by {
            assert(parents.drop_first()[i] == parents[i + 1]);
        }
        lemma_strict_missing_node(parents.drop_first(), k - 1, c_tag, c_attr);
    }
}

} // verus!
