//! The ways in which an extraction fails.

use vstd::prelude::*;

verus! {

/// The raw titles of one track listing, one per row, in the order of the rows.
pub type TrackListing = Vec<String>;

/// Why an extraction failed.
#[derive(Debug, PartialEq, Eq)]
pub enum ExtractError {
    /// A part of the document that the extraction relies on is missing.
    MalformedDocument,
    /// A track listing holds no row with a cell.
    EmptyListing,
    /// The text of a row holds no quoted title.
    MalformedTrackTitle,
    /// Several listings were found and none was selected: these are the listings.
    AmbiguousSelection(Vec<TrackListing>),
    /// A selected index names no listing.
    IndexOutOfRange,
}

/// What a failure stands for in contracts.
pub enum ErrorModel {
    MalformedDocument,
    EmptyListing,
    MalformedTrackTitle,
    AmbiguousSelection(Seq<Seq<Seq<char>>>),
    IndexOutOfRange,
}

/// The views of `strings`, in the same order.
pub open spec fn string_views(strings: Seq<String>) -> Seq<Seq<char>> {
    strings.map_values(|s: String| s@)
}

/// The views of `listings`, in the same order.
pub open spec fn listing_views(listings: Seq<TrackListing>) -> Seq<Seq<Seq<char>>> {
    listings.map_values(|listing: TrackListing| string_views(listing@))
}

impl View for ExtractError {
    type V = ErrorModel;

    open spec fn view(&self) -> ErrorModel {
        match self {
            ExtractError::MalformedDocument => ErrorModel::MalformedDocument,
            ExtractError::EmptyListing => ErrorModel::EmptyListing,
            ExtractError::MalformedTrackTitle => ErrorModel::MalformedTrackTitle,
            ExtractError::AmbiguousSelection(listings) => ErrorModel::AmbiguousSelection(
                listing_views(listings@),
            ),
            ExtractError::IndexOutOfRange => ErrorModel::IndexOutOfRange,
        }
    }
}

/// What a search for a text that may be absent, and may fail, stands for.
pub open spec fn found_view(found: Result<Option<String>, ExtractError>) -> Result<
    Option<Seq<char>>,
    ErrorModel,
> {
    match found {
        Ok(Some(text)) => Ok(Some(text@)),
        Ok(None) => Ok(None),
        Err(e) => Err(e@),
    }
}

} // verus!
