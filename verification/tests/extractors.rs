//! End-to-end tests: small HTML fragments parsed with the real parser, plus
//! documents built directly as trees, run through the five extractors.

use ktorrent::{
    find_all_text_by_class, find_all_text_by_tag, find_child_attr_by_class, find_child_attr_by_tag,
    find_parent_text, parse_document, Attr, Dom, Elem, ExtractError, HtmlDocument,
};

fn elem(name: &str, attrs: Vec<(&str, &str)>, children: Vec<Dom>) -> Dom {
    Dom::Element(Elem {
        name: name.to_string(),
        attrs: attrs
            .into_iter()
            .map(|(n, v)| Attr { name: n.to_string(), value: v.to_string() })
            .collect(),
        children,
    })
}

fn text(s: &str) -> Dom {
    Dom::Text(s.to_string())
}

const MAGNET: &str = "magnet:?xt=urn:btih:27646d3df274ed51b6386bd6aa40da849a73b341";

#[test]
fn magnet_from_second_list_group() {
    let html = "<div class=\"list-group\"><a href=\"./x\">d</a></div>\
                <div class=\"list-group\"><a href=\"magnet:?xt=urn:btih:27646d3df274ed51b6386bd6aa40da849a73b341\">m</a></div>";
    let doc = parse_document(html);
    let data = find_child_attr_by_tag(&doc, "list-group", "a", "href").unwrap();
    assert_eq!(data.len(), 2);
    assert_eq!(MAGNET, data[1]);
}

#[test]
fn parent_text_by_child_class() {
    let html = "<b><b class=\"sch_word\">동상이몽2</b> 너는 내운명.E182.210201.720p-NEXT</b>";
    let doc = parse_document(html);
    let data = find_parent_text(&doc, "b", "sch_word");
    assert_eq!("동상이몽2 너는 내운명.E182.210201.720p-NEXT", data[0]);
}

#[test]
fn bbs_url_from_media_heading() {
    let html = "<div class=\"media-heading\"><a href=\"./board.php?bo_table=entertain&wr_id=18170\">t</a></div>";
    let doc = parse_document(html);
    let data = find_child_attr_by_tag(&doc, "media-heading", "a", "href").unwrap();
    assert_eq!("./board.php?bo_table=entertain&wr_id=18170", data[0]);
}

#[test]
fn all_text_by_class_trims_to_title() {
    let html = "<div class=\"tit\">first</div>\
                <div class=\"tit\">  동상이몽2너는내운명.E138.200323.720p-NEXT  </div>";
    let doc = parse_document(html);
    let data = find_all_text_by_class(&doc, "tit");
    assert_eq!(data.len(), 2);
    assert_eq!("동상이몽2너는내운명.E138.200323.720p-NEXT", data[1].trim());
}

#[test]
fn child_attr_by_class_value_equality() {
    let html = "<table><tr><td><a class=\"btn btn-blue\" onclick=\"file_download('magnet:?xt=urn:btih:27646d3df274ed51b6386bd6aa40da849a73b341')\">x</a></td></tr></table>";
    let doc = parse_document(html);
    let data = find_child_attr_by_class(&doc, "td", "btn btn-blue", "onclick").unwrap();
    assert_eq!(
        "file_download('magnet:?xt=urn:btih:27646d3df274ed51b6386bd6aa40da849a73b341')",
        data[0]
    );
}

#[test]
fn strict_extractor_fails_on_missing_node() {
    let html = "<div class=\"foo\"><a href=\"h\">ok</a></div>\
                <div class=\"foo\"><span>no anchor</span></div>";
    let doc = parse_document(html);
    let res = find_child_attr_by_tag(&doc, "foo", "a", "href");
    assert_eq!(res, Err(ExtractError::MissingExpectedNode));
}

#[test]
fn strict_extractor_fails_on_missing_attribute() {
    let html = "<div class=\"foo\"><a>no href</a></div>";
    let doc = parse_document(html);
    let res = find_child_attr_by_tag(&doc, "foo", "a", "href");
    assert_eq!(res, Err(ExtractError::MissingExpectedAttribute));
}

#[test]
fn by_class_value_fails_on_missing_attribute() {
    let html = "<table><tr><td><a class=\"btn\">x</a></td></tr></table>";
    let doc = parse_document(html);
    let res = find_child_attr_by_class(&doc, "td", "btn", "onclick");
    assert_eq!(res, Err(ExtractError::MissingExpectedAttribute));
}

#[test]
fn first_descendant_is_preorder_not_first_child() {
    let html = "<div class=\"box\"><span><a href=\"inner\">i</a></span><a href=\"direct\">d</a></div>";
    let doc = parse_document(html);
    let data = find_child_attr_by_tag(&doc, "box", "a", "href").unwrap();
    assert_eq!(vec!["inner".to_string()], data);
}

#[test]
fn class_token_match_is_exact_not_substring() {
    let html = "<div class=\"list-group-item\">x</div><div class=\"a list-group b\">y</div>";
    let doc = parse_document(html);
    let data = find_all_text_by_class(&doc, "list-group");
    assert_eq!(vec!["y".to_string()], data);
}

#[test]
fn tag_names_come_out_lower_case() {
    let html = "<DIV CLASS=\"tit\">x</DIV>";
    let doc = parse_document(html);
    assert_eq!(vec!["x".to_string()], find_all_text_by_class(&doc, "tit"));
    let by_tag = find_all_text_by_tag(&doc, "div", "div");
    assert!(by_tag.is_empty());
}

#[test]
fn text_by_tag_skips_parents_without_child() {
    let html = "<ul><li><strong>first</strong> tail</li><li>no strong</li></ul>";
    let doc = parse_document(html);
    let data = find_all_text_by_tag(&doc, "li", "strong");
    assert_eq!(vec!["first".to_string()], data);
}

#[test]
fn parent_text_appended_once_per_marked_child() {
    let html = "<b><i class=\"w\">x</i><span class=\"w\">y</span></b>";
    let doc = parse_document(html);
    let data = find_parent_text(&doc, "b", "w");
    assert_eq!(vec!["xy".to_string(), "xy".to_string()], data);
}

#[test]
fn parent_text_matches_any_attribute_value() {
    let html = "<b><i id=\"w\">x</i></b>";
    let doc = parse_document(html);
    let data = find_parent_text(&doc, "b", "w");
    assert_eq!(vec!["x".to_string()], data);
}

#[test]
fn by_class_value_appends_once_per_matching_attribute() {
    let doc = HtmlDocument {
        roots: vec![elem(
            "td",
            vec![],
            vec![elem("a", vec![("class", "z"), ("id", "z"), ("href", "H")], vec![text("x")])],
        )],
    };
    let data = find_child_attr_by_class(&doc, "td", "z", "href").unwrap();
    assert_eq!(vec!["H".to_string(), "H".to_string()], data);
}

#[test]
fn empty_document_yields_empty_results() {
    let doc = HtmlDocument { roots: vec![] };
    assert_eq!(find_child_attr_by_tag(&doc, "c", "a", "href"), Ok(vec![]));
    assert!(find_parent_text(&doc, "b", "c").is_empty());
    assert!(find_all_text_by_class(&doc, "c").is_empty());
    assert!(find_all_text_by_tag(&doc, "p", "a").is_empty());
    assert_eq!(find_child_attr_by_class(&doc, "td", "c", "href"), Ok(vec![]));
}

#[test]
fn empty_input_parses_to_unmatched_page() {
    let doc = parse_document("");
    assert!(find_all_text_by_class(&doc, "tit").is_empty());
    assert_eq!(find_child_attr_by_tag(&doc, "tit", "a", "href"), Ok(vec![]));
    assert!(find_all_text_by_tag(&doc, "li", "strong").is_empty());
}

#[test]
fn extractors_are_deterministic() {
    let html = "<div class=\"tit\">a</div><div class=\"tit\">b</div>";
    let doc = parse_document(html);
    let r1 = find_all_text_by_class(&doc, "tit");
    let r2 = find_all_text_by_class(&doc, "tit");
    assert_eq!(r1, r2);
}

#[test]
fn document_is_unchanged_between_calls() {
    let html = "<div class=\"list-group\"><a href=\"h\">x</a></div><b><i class=\"w\">t</i></b>";
    let doc = parse_document(html);
    let before = find_child_attr_by_tag(&doc, "list-group", "a", "href").unwrap();
    let _ = find_parent_text(&doc, "b", "w");
    let _ = find_all_text_by_class(&doc, "w");
    let after = find_child_attr_by_tag(&doc, "list-group", "a", "href").unwrap();
    assert_eq!(before, after);
}

#[test]
fn result_count_agrees_with_matched_elements() {
    let html = "<p class=\"tit\">1</p><p class=\"tit other\">2</p><p class=\"x\">3</p><p class=\"tit\">4</p>";
    let doc = parse_document(html);
    assert_eq!(3, find_all_text_by_class(&doc, "tit").len());
    let html2 = "<div class=\"g\"><a href=\"1\">x</a></div><div class=\"g\"><a href=\"2\">y</a></div>";
    let doc2 = parse_document(html2);
    assert_eq!(2, find_child_attr_by_tag(&doc2, "g", "a", "href").unwrap().len());
}

#[test]
fn results_follow_document_order() {
    let html = "<div class=\"m\">first</div><section><div class=\"m\">second</div></section><div class=\"m\">third</div>";
    let doc = parse_document(html);
    let data = find_all_text_by_class(&doc, "m");
    assert_eq!(
        vec!["first".to_string(), "second".to_string(), "third".to_string()],
        data
    );
}

#[test]
fn text_concatenates_descendants_without_separators() {
    let doc = HtmlDocument {
        roots: vec![elem(
            "div",
            vec![("class", "t")],
            vec![text("a"), elem("span", vec![], vec![text("b")]), text("c")],
        )],
    };
    assert_eq!(vec!["abc".to_string()], find_all_text_by_class(&doc, "t"));
}

#[test]
fn strict_error_discards_earlier_matches() {
    let doc = HtmlDocument {
        roots: vec![
            elem("div", vec![("class", "g")], vec![elem("a", vec![("href", "one")], vec![])]),
            elem("div", vec![("class", "g")], vec![text("bare")]),
        ],
    };
    assert_eq!(
        Err(ExtractError::MissingExpectedNode),
        find_child_attr_by_tag(&doc, "g", "a", "href")
    );
}

#[test]
fn attribute_lookup_takes_first_of_name() {
    let doc = HtmlDocument {
        roots: vec![elem(
            "div",
            vec![("class", "g")],
            vec![elem("a", vec![("href", "first"), ("href", "second")], vec![])],
        )],
    };
    let data = find_child_attr_by_tag(&doc, "g", "a", "href").unwrap();
    assert_eq!(vec!["first".to_string()], data);
}

#[test]
fn nested_parents_each_count() {
    let doc = HtmlDocument {
        roots: vec![elem(
            "li",
            vec![],
            vec![elem("strong", vec![], vec![text("outer")]), elem(
                "li",
                vec![],
                vec![elem("strong", vec![], vec![text("inner")])],
            )],
        )],
    };
    let data = find_all_text_by_tag(&doc, "li", "strong");
    assert_eq!(vec!["outer".to_string(), "inner".to_string()], data);
}
