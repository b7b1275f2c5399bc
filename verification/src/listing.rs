//! The track listings of a document: for each, the raw text of its rows.

use crate::document::{
    Content, ContentModel, Node, NodeModel, classed_among, find_named, find_text_run,
    first_named, first_text_run, lookup, named_among, node_views, ref_views, select_classed,
    select_named, subtree,
};
use crate::error::{ErrorModel, ExtractError, TrackListing, listing_views, string_views};
use crate::text::{chars_of, push_all, string_of};
use vstd::prelude::*;

verus! {

/// What `node` adds to the text of a cell: a text node its text, an element
/// its `title`, any other node nothing. `None` for an element without a `title`.
pub open spec fn piece(node: NodeModel) -> Option<Seq<char>> {
    match node.content {
        ContentModel::Text(text) => Some(text),
        ContentModel::Element(element) => lookup(element.attributes, "title"@),
        ContentModel::Other => Some(Seq::empty()),
    }
}

/// What the nodes of `run` add to the text of a cell, one after the other:
/// `None` where one of them is an element without a `title`.
pub open spec fn joined(run: Seq<NodeModel>) -> Option<Seq<char>>
    decreases run.len(),
{
    if run.len() == 0 {
        Some(Seq::empty())
    } else {
        match (piece(run[0]), joined(run.drop_first())) {
            (Some(first), Some(rest)) => Some(first + rest),
            _ => None,
        }
    }
}

/// The text of `cell`: that of the first text node in it, in document order,
/// followed by what the siblings after that node add. A cell without text
/// reads as the empty text. `None` where one of the siblings is an element
/// without a `title`.
pub open spec fn cell_text(cell: NodeModel) -> Option<Seq<char>> {
    match first_text_run(cell.children, 0) {
        None => Some(Seq::empty()),
        Some(run) => joined(run),
    }
}

/// The cell that stands for `row`: the first element called `td` in its subtree.
pub open spec fn row_cell(row: NodeModel) -> Option<NodeModel> {
    first_named(subtree(row), "td"@)
}

/// The cells of those of `rows` that have one, in the order of the rows.
pub open spec fn cells_of(rows: Seq<NodeModel>) -> Seq<NodeModel>
    decreases rows.len(),
{
    if rows.len() == 0 {
        Seq::empty()
    } else {
        match row_cell(rows.last()) {
            Some(cell) => cells_of(rows.drop_last()).push(cell),
            None => cells_of(rows.drop_last()),
        }
    }
}

/// The texts of `cells`, in the same order: `None` where one of them has none.
pub open spec fn cell_texts(cells: Seq<NodeModel>) -> Option<Seq<Seq<char>>>
    decreases cells.len(),
{
    if cells.len() == 0 {
        Some(Seq::empty())
    } else {
        match (cell_text(cells[0]), cell_texts(cells.drop_first())) {
            (Some(first), Some(rest)) => Some(seq![first] + rest),
            _ => None,
        }
    }
}

/// The rows of `listing`: the elements called `tr` in its subtree, in document order.
pub open spec fn rows_of(listing: NodeModel) -> Seq<NodeModel> {
    named_among(subtree(listing), "tr"@)
}

/// The cells of the rows of `listing` that have one: one for each row that counts.
pub open spec fn row_cells(listing: NodeModel) -> Seq<NodeModel> {
    cells_of(rows_of(listing))
}

/// What the element `listing` lists: the texts of its rows that have a cell,
/// but for the last of them, which sums the others up.
///
/// Malformed where a cell has no text to give; empty, and an error, where no row has a cell.
pub open spec fn listing_of(listing: NodeModel) -> Result<Seq<Seq<char>>, ErrorModel> {
    match cell_texts(row_cells(listing)) {
        None => Err(ErrorModel::MalformedDocument),
        Some(texts) => if texts.len() == 0 {
            Err(ErrorModel::EmptyListing)
        } else {
            Ok(texts.drop_last())
        },
    }
}

/// The elements of `document` that hold a track listing, in document order.
pub open spec fn listing_elements(document: NodeModel) -> Seq<NodeModel> {
    classed_among(subtree(document), "track-listing"@)
}

/// What the elements `listings` list, in the same order: the error of the
/// first of them that has one.
pub open spec fn read_all(listings: Seq<NodeModel>) -> Result<Seq<Seq<Seq<char>>>, ErrorModel>
    decreases listings.len(),
{
    if listings.len() == 0 {
        Ok(Seq::empty())
    } else {
        match listing_of(listings[0]) {
            Err(e) => Err(e),
            Ok(first) => match read_all(listings.drop_first()) {
                Err(e) => Err(e),
                Ok(rest) => Ok(seq![first] + rest),
            },
        }
    }
}

/// The track listings of `document`, in document order.
pub open spec fn listings_in(document: NodeModel) -> Result<Seq<Seq<Seq<char>>>, ErrorModel> {
    read_all(listing_elements(document))
}

/// There are as many texts as cells.
pub proof fn lemma_cell_texts_len(cells: Seq<NodeModel>)
    requires
        cell_texts(cells) is Some,
    ensures
        cell_texts(cells).unwrap().len() == cells.len(),
    decreases cells.len(),
{
    if cells.len() > 0 {
        lemma_cell_texts_len(cells.drop_first());
    }
}

/// There are as many listings as elements that hold one.
pub proof fn lemma_read_all_len(listings: Seq<NodeModel>)
    requires
        read_all(listings) is Ok,
    ensures
        read_all(listings)->Ok_0.len() == listings.len(),
    decreases listings.len(),
{
    if listings.len() > 0 {
        lemma_read_all_len(listings.drop_first());
    }
}

/// A listing has one title less than it has rows with a cell, and it is
/// empty, which is an error, exactly where no row has a cell.
pub proof fn lemma_listing_length(listing: NodeModel)
    ensures
        listing_of(listing) == Err::<Seq<Seq<char>>, ErrorModel>(ErrorModel::EmptyListing)
            <==> row_cells(listing).len() == 0,
        listing_of(listing) matches Ok(titles) ==> titles.len() == row_cells(listing).len() - 1,
{
    if cell_texts(row_cells(listing)) is Some {
        lemma_cell_texts_len(row_cells(listing));
    }
}

/// The text of `cell`.
pub fn read_cell(cell: &Node) -> (text: Option<String>)
    ensures
        match text {
            Some(t) => cell_text(cell@) == Some(t@),
            None => cell_text(cell@) is None,
        },
{
    assert(cell@.children =~= node_views(cell.children@));
    match find_text_run(&cell.children, 0) {
        None => Some(String::new()),
        Some((siblings, at)) => {
            let ghost run = node_views(siblings@).skip(at as int);
            let mut text: Vec<char> = Vec::new();
            let mut i: usize = at;
            assert(run.skip(0) == run);
            proof {
                if joined(run) is Some {
                    assert(Seq::<char>::empty() + joined(run).unwrap() == joined(run).unwrap());
                }
            }
            while i < siblings.len()
                invariant
                    at <= i <= siblings.len(),
                    run == node_views(siblings@).skip(at as int),
                    cell_text(cell@) == joined(run),
                    joined(run) == match joined(run.skip(i - at)) {
                        Some(rest) => Some(text@ + rest),
                        None => None,
                    },
                decreases siblings.len() - i,
            {
                let node = &siblings[i];
                let ghost rest = run.skip(i - at);
                let ghost before = text@;
                assert(rest[0] == node@);
                assert(node@.content == node.content@);
                assert(rest.drop_first() == run.skip(i + 1 - at));
                match &node.content {
                    Content::Text(more) => {
                        let chars = chars_of(more.as_str());
                        push_all(&mut text, &chars, 0, chars.len());
                        assert(chars@.subrange(0, chars@.len() as int) == chars@);
                    },
                    Content::Element(element) => match element.attribute("title") {
                        None => {
                            return None;
                        },
                        Some(title) => {
                            let chars = chars_of(title.as_str());
                            push_all(&mut text, &chars, 0, chars.len());
                            assert(chars@.subrange(0, chars@.len() as int) == chars@);
                        },
                    },
                    Content::Other => {
                        assert(text@ == before + Seq::<char>::empty());
                    },
                }
                proof {
                    if joined(rest.drop_first()) is Some {
                        let tail = joined(rest.drop_first()).unwrap();
                        let head = piece(rest[0]).unwrap();
                        assert(before + (head + tail) == (before + head) + tail);
                    }
                }
                i += 1;
            }
            assert(text@ + Seq::<char>::empty() == text@);
            Some(string_of(&text))
        },
    }
}

/// The cells of those of `rows` that have one.
pub fn find_cells<'a>(rows: &Vec<&'a Node>) -> (cells: Vec<&'a Node>)
    ensures
        ref_views(cells@) == cells_of(ref_views(rows@)),
{
    let ghost all = ref_views(rows@);
    let mut cells: Vec<&'a Node> = Vec::new();
    assert(all.take(0) =~= Seq::empty());
    assert(ref_views(cells@) =~= Seq::empty());
    let mut i: usize = 0;
    while i < rows.len()
        invariant
            i <= rows.len(),
            all == ref_views(rows@),
            ref_views(cells@) == cells_of(all.take(i as int)),
        decreases rows.len() - i,
    {
        let row: &'a Node = rows[i];
        let ghost before = cells@;
        assert(all.take(i + 1).drop_last() == all.take(i as int));
        assert(all.take(i + 1).last() == row@);
        let inner = row.descendants();
        match find_named(&inner, "td") {
            Some(cell) => {
                cells.push(cell);
                assert(ref_views(cells@) =~= ref_views(before).push(cell@));
            },
            None => {},
        }
        i += 1;
    }
    assert(all.take(rows.len() as int) == all);
    cells
}

/// What the element `listing` lists.
pub fn read_listing(listing: &Node) -> (titles: Result<TrackListing, ExtractError>)
    ensures
        match titles {
            Ok(t) => listing_of(listing@) == Ok::<Seq<Seq<char>>, ErrorModel>(string_views(t@)),
            Err(e) => listing_of(listing@) == Err::<Seq<Seq<char>>, ErrorModel>(e@),
        },
{
    let nodes = listing.descendants();
    let rows = select_named(&nodes, "tr");
    let cells = find_cells(&rows);
    let ghost all = ref_views(cells@);
    let mut texts: Vec<String> = Vec::new();
    let mut i: usize = 0;
    assert(all.skip(0) == all);
    assert(string_views(texts@) =~= Seq::empty());
    proof {
        if cell_texts(all) is Some {
            assert(Seq::<Seq<char>>::empty() + cell_texts(all).unwrap() == cell_texts(
                all,
            ).unwrap());
        }
    }
    while i < cells.len()
        invariant
            i <= cells.len(),
            all == ref_views(cells@),
            all == row_cells(listing@),
            cell_texts(all) == match cell_texts(all.skip(i as int)) {
                Some(rest) => Some(string_views(texts@) + rest),
                None => None,
            },
        decreases cells.len() - i,
    {
        let cell: &Node = cells[i];
        let ghost rest = all.skip(i as int);
        let ghost before = string_views(texts@);
        assert(rest[0] == cell@);
        assert(rest.drop_first() == all.skip(i + 1));
        match read_cell(cell) {
            None => {
                return Err(ExtractError::MalformedDocument);
            },
            Some(text) => {
                texts.push(text);
                proof {
                    assert(string_views(texts@) =~= before + seq![text@]);
                    if cell_texts(rest.drop_first()) is Some {
                        let tail = cell_texts(rest.drop_first()).unwrap();
                        assert(before + (seq![text@] + tail) == (before + seq![text@]) + tail);
                    }
                }
            },
        }
        i += 1;
    }
    assert(string_views(texts@) + Seq::<Seq<char>>::empty() == string_views(texts@));
    if texts.len() == 0 {
        Err(ExtractError::EmptyListing)
    } else {
        let ghost full = string_views(texts@);
        texts.pop();
        assert(string_views(texts@) =~= full.drop_last());
        Ok(texts)
    }
}

/// The track listings of `document`, in document order.
pub fn find_listings(document: &Node) -> (listings: Result<Vec<TrackListing>, ExtractError>)
    ensures
        match listings {
            Ok(l) => listings_in(document@) == Ok::<Seq<Seq<Seq<char>>>, ErrorModel>(
                listing_views(l@),
            ),
            Err(e) => listings_in(document@) == Err::<Seq<Seq<Seq<char>>>, ErrorModel>(e@),
        },
{
    let nodes = document.descendants();
    let elements = select_classed(&nodes, "track-listing");
    let ghost all = ref_views(elements@);
    let mut listings: Vec<TrackListing> = Vec::new();
    let mut i: usize = 0;
    assert(all.skip(0) == all);
    assert(listing_views(listings@) =~= Seq::empty());
    proof {
        if read_all(all) is Ok {
            assert(Seq::<Seq<Seq<char>>>::empty() + read_all(all)->Ok_0 == read_all(all)->Ok_0);
        }
    }
    while i < elements.len()
        invariant
            i <= elements.len(),
            all == ref_views(elements@),
            all == listing_elements(document@),
            read_all(all) == match read_all(all.skip(i as int)) {
                Ok(rest) => Ok::<Seq<Seq<Seq<char>>>, ErrorModel>(listing_views(listings@) + rest),
                Err(e) => Err(e),
            },
        decreases elements.len() - i,
    {
        let element: &Node = elements[i];
        let ghost rest = all.skip(i as int);
        let ghost before = listing_views(listings@);
        assert(rest[0] == element@);
        assert(rest.drop_first() == all.skip(i + 1));
        match read_listing(element) {
            Err(e) => {
                return Err(e);
            },
            Ok(listing) => {
                listings.push(listing);
                proof {
                    let read = string_views(listing@);
                    assert(listing_views(listings@) =~= before + seq![read]);
                    if read_all(rest.drop_first()) is Ok {
                        let tail = read_all(rest.drop_first())->Ok_0;
                        assert(before + (seq![read] + tail) == (before + seq![read]) + tail);
                    }
                }
            },
        }
        i += 1;
    }
    assert(listing_views(listings@) + Seq::<Seq<Seq<char>>>::empty() == listing_views(
        listings@,
    ));
    Ok(listings)
}

} // verus!
