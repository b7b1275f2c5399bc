//! The reference to the cover art, and the address that belongs to it.

use crate::document::{Node, NodeModel, attribute_of, find_classed, first_classed, subtree};
use crate::error::{ErrorModel, ExtractError, found_view, string_views};
use crate::text::{chars_of, contains, has_occurrence, split, split_fields, string_of, views};
use vstd::prelude::*;

verus! {

/// The reference to the cover art that `document` holds.
///
/// The first element in document order with the class `infobox-image`
/// decides, and in its subtree the first element with the class
/// `mw-file-description`: the reference is the `href` of that element.
/// Without either element there is no cover. With both, and no `href`, the
/// document is malformed.
pub open spec fn cover_in(document: NodeModel) -> Result<Option<Seq<char>>, ErrorModel> {
    match first_classed(subtree(document), "infobox-image"@) {
        None => Ok(None),
        Some(frame) => match first_classed(subtree(frame), "mw-file-description"@) {
            None => Ok(None),
            Some(link) => match attribute_of(link, "href"@) {
                None => Err(ErrorModel::MalformedDocument),
                Some(reference) => Ok(Some(reference)),
            },
        },
    }
}

/// The name of the file that `reference` points to: what follows the first
/// `File:` in it, up to the next one. `None` where `reference` holds no `File:`.
pub open spec fn file_name_in(reference: Seq<char>) -> Option<Seq<char>> {
    let fields = split(reference, "File:"@);
    if fields.len() >= 2 {
        Some(fields[1])
    } else {
        None
    }
}

/// The last of `addresses` that holds `file_name`.
pub open spec fn last_holding(addresses: Seq<Seq<char>>, file_name: Seq<char>) -> Option<
    Seq<char>,
>
    decreases addresses.len(),
{
    if addresses.len() == 0 {
        None
    } else if contains(addresses.last(), file_name) {
        Some(addresses.last())
    } else {
        last_holding(addresses.drop_last(), file_name)
    }
}

/// The reference to the cover art that `document` holds.
pub fn find_cover(document: &Node) -> (cover: Result<Option<String>, ExtractError>)
    ensures
        found_view(cover) == cover_in(document@),
{
    let nodes = document.descendants();
    match find_classed(&nodes, "infobox-image") {
        None => Ok(None),
        Some(frame) => {
            let inner = frame.descendants();
            match find_classed(&inner, "mw-file-description") {
                None => Ok(None),
                Some(link) => match link.as_element() {
                    None => Err(ExtractError::MalformedDocument),
                    Some(element) => match element.attribute("href") {
                        None => Err(ExtractError::MalformedDocument),
                        Some(reference) => Ok(Some(reference.clone())),
                    },
                },
            }
        },
    }
}

/// The name of the file that `reference` points to.
pub fn cover_file_name(reference: &str) -> (name: Option<String>)
    ensures
        match name {
            Some(n) => file_name_in(reference@) == Some(n@),
            None => file_name_in(reference@) is None,
        },
{
    let fields = split_fields(&chars_of(reference), &chars_of("File:"));
    if fields.len() >= 2 {
        assert(views(fields@)[1] == fields@[1]@);
        Some(string_of(&fields[1]))
    } else {
        None
    }
}

/// The address of the cover: the last of `addresses` that holds `file_name`.
pub fn select_cover_url(addresses: Vec<String>, file_name: &str) -> (address: Option<String>)
    ensures
        match address {
            Some(a) => last_holding(string_views(addresses@), file_name@) == Some(a@),
            None => last_holding(string_views(addresses@), file_name@) is None,
        },
{
    let ghost all = string_views(addresses@);
    let wanted = chars_of(file_name);
    let mut pool = addresses;
    let mut at: usize = pool.len();
    assert(all.take(at as int) == all);
    while at > 0
        invariant
            at <= pool.len(),
            all == string_views(pool@),
            all == string_views(addresses@),
            wanted@ == file_name@,
            last_holding(all, file_name@) == last_holding(all.take(at as int), file_name@),
        decreases at,
    {
        assert(all.take(at as int).last() == pool@[at - 1]@);
        assert(all.take(at as int).drop_last() == all.take(at - 1));
        if has_occurrence(&chars_of(pool[at - 1].as_str()), &wanted) {
            let ghost held = pool@[at - 1];
            let address = pool.swap_remove(at - 1);
            assert(address == held);
            return Some(address);
        }
        at -= 1;
    }
    None
}

} // verus!
