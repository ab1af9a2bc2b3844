//! Selector-driven extraction of strings from parsed HTML documents.
//!
//! The library models a parsed HTML document as a tree of plain values
//! ([`dom::HtmlDocument`]) and offers five extractors over it, each driven by
//! a small selector (class tokens, tag names, attribute names).  Every
//! extractor's result is pinned down by its contract.

pub mod dom;
pub mod extract;
pub mod laws;
pub mod matching;
pub mod parse;

pub use dom::{Attr, Dom, Elem, HtmlDocument};
pub use extract::{
    find_all_text_by_class, find_all_text_by_tag, find_child_attr_by_class, find_child_attr_by_tag,
    find_parent_text, ExtractError,
};
pub use parse::parse_document;
