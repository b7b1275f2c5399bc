//! The performing artist, as the infobox names it.

use crate::document::{
    Node, NodeModel, attribute_of, find_classed, first_classed, first_element,
    first_element_child, subtree,
};
use crate::error::{ErrorModel, ExtractError, found_view};
use crate::text::{chars_of, remove_all, string_of, without};
use vstd::prelude::*;

verus! {

/// The artist that `document` names.
///
/// The first element in document order with the class `contributor` decides:
/// the artist is the `title` of its first child element, without the marks
/// ` (band)` in it. Without such an element there is no artist. With one
/// that has no child element, or whose first child element has no `title`,
/// the document is malformed.
pub open spec fn artist_in(document: NodeModel) -> Result<Option<Seq<char>>, ErrorModel> {
    match first_classed(subtree(document), "contributor"@) {
        None => Ok(None),
        Some(holder) => match first_element(holder.children) {
            None => Err(ErrorModel::MalformedDocument),
            Some(child) => match attribute_of(child, "title"@) {
                None => Err(ErrorModel::MalformedDocument),
                Some(title) => Ok(Some(remove_all(title, " (band)"@))),
            },
        },
    }
}

/// The artist that `document` names.
pub fn find_artist(document: &Node) -> (artist: Result<Option<String>, ExtractError>)
    ensures
        found_view(artist) == artist_in(document@),
{
    let nodes = document.descendants();
    match find_classed(&nodes, "contributor") {
        None => Ok(None),
        Some(holder) => match first_element_child(holder) {
            None => Err(ExtractError::MalformedDocument),
            Some(child) => match child.as_element() {
                None => Err(ExtractError::MalformedDocument),
                Some(element) => match element.attribute("title") {
                    None => Err(ExtractError::MalformedDocument),
                    Some(title) => {
                        let mark = chars_of(" (band)");
                        let name = without(&chars_of(title.as_str()), &mark);
                        Ok(Some(string_of(&name)))
                    },
                },
            },
        },
    }
}

} // verus!
