//! What is known of an album once its article has been read.

use crate::artist::{artist_in, find_artist};
use crate::cover::{cover_in, find_cover};
use crate::document::{Node, NodeModel};
use crate::error::{ErrorModel, ExtractError, TrackListing, listing_views, string_views};
use crate::listing::{
    find_listings, lemma_listing_length, lemma_read_all_len, listing_elements, listing_of,
    listings_in, read_all, row_cells,
};
use crate::markup::{document_edges, parse_document, tree_of};
use crate::text::{decimal, decimal_of, push_all, push_str, string_of};
use crate::title::{lemma_normalized_all_len, normalize_all, normalized_all, optional_view};
use vstd::prelude::*;

verus! {

/// A decoded cover: its size in pixels, and its picture as the bytes of a
/// JPEG file, where it can be written as one.
#[derive(Debug, PartialEq, Eq)]
pub struct CoverImage {
    pub width: u32,
    pub height: u32,
    pub jpeg: Option<Vec<u8>>,
}

/// An album: its name, its artist where the article names one, the titles of
/// its tracks in order, the reference to its cover where the article holds
/// one, and the cover itself once it has been fetched.
#[derive(Debug, PartialEq, Eq)]
pub struct AlbumInfo {
    pub name: String,
    pub artist: Option<String>,
    pub track_names: Vec<String>,
    pub cover_reference: Option<String>,
    pub cover: Option<CoverImage>,
}

/// What a cover stands for in contracts.
pub struct CoverModel {
    pub width: nat,
    pub height: nat,
    pub jpeg: Option<Seq<u8>>,
}

/// What an album stands for in contracts.
pub struct AlbumModel {
    pub name: Seq<char>,
    pub artist: Option<Seq<char>>,
    pub track_names: Seq<Seq<char>>,
    pub cover_reference: Option<Seq<char>>,
    pub cover: Option<CoverModel>,
}

impl View for CoverImage {
    type V = CoverModel;

    open spec fn view(&self) -> CoverModel {
        CoverModel {
            width: self.width as nat,
            height: self.height as nat,
            jpeg: match self.jpeg {
                Some(bytes) => Some(bytes@),
                None => None,
            },
        }
    }
}

/// The view of a string that may be absent.
pub open spec fn owned_view(text: Option<String>) -> Option<Seq<char>> {
    match text {
        Some(t) => Some(t@),
        None => None,
    }
}

impl View for AlbumInfo {
    type V = AlbumModel;

    open spec fn view(&self) -> AlbumModel {
        AlbumModel {
            name: self.name@,
            artist: owned_view(self.artist),
            track_names: string_views(self.track_names@),
            cover_reference: owned_view(self.cover_reference),
            cover: match self.cover {
                Some(cover) => Some(cover@),
                None => None,
            },
        }
    }
}

/// What an extraction stands for.
pub open spec fn album_view(album: Result<AlbumInfo, ExtractError>) -> Result<
    AlbumModel,
    ErrorModel,
> {
    match album {
        Ok(a) => Ok(a@),
        Err(e) => Err(e@),
    }
}

/// The listings to take the titles from, given what the caller selected.
///
/// An empty selection stands for the only listing where there is exactly one,
/// and is refused where there are several.
pub open spec fn selected(listings: Seq<Seq<Seq<char>>>, selection: Seq<usize>) -> Result<
    Seq<usize>,
    ErrorModel,
> {
    if selection.len() > 0 {
        Ok(selection)
    } else if listings.len() > 1 {
        Err(ErrorModel::AmbiguousSelection(listings))
    } else if listings.len() == 1 {
        Ok(seq![0usize])
    } else {
        Ok(Seq::empty())
    }
}

/// Each of `indices` names one of `count` listings.
pub open spec fn in_range(indices: Seq<usize>, count: nat) -> bool {
    forall|i: int| 0 <= i < indices.len() ==> #[trigger] indices[i] < count
}

/// The titles of the listings that `indices` name, listing after listing in
/// the order of `indices`, and within a listing in the order of its rows:
/// `None` where a row holds no quoted title.
pub open spec fn gathered(
    listings: Seq<Seq<Seq<char>>>,
    artist: Option<Seq<char>>,
    indices: Seq<usize>,
) -> Option<Seq<Seq<char>>>
    decreases indices.len(),
{
    if indices.len() == 0 {
        Some(Seq::empty())
    } else {
        match (
            normalized_all(listings[indices[0] as int], artist),
            gathered(listings, artist, indices.drop_first()),
        ) {
            (Some(first), Some(rest)) => Some(first + rest),
            _ => None,
        }
    }
}

/// What the extraction from `document` gives for the album called `name`
/// when the caller selected the listings `selection`.
///
/// The artist, the cover and the listings are looked for in this order, and
/// the first failure is the result. Then the selection is settled, each of
/// its indices is held against the number of listings, and the titles are
/// gathered.
pub open spec fn extracted(name: Seq<char>, document: NodeModel, selection: Seq<usize>) -> Result<
    AlbumModel,
    ErrorModel,
> {
    match artist_in(document) {
        Err(e) => Err(e),
        Ok(artist) => match cover_in(document) {
            Err(e) => Err(e),
            Ok(cover_reference) => match listings_in(document) {
                Err(e) => Err(e),
                Ok(listings) => match selected(listings, selection) {
                    Err(e) => Err(e),
                    Ok(indices) => if !in_range(indices, listings.len()) {
                        Err(ErrorModel::IndexOutOfRange)
                    } else {
                        match gathered(listings, artist, indices) {
                            None => Err(ErrorModel::MalformedTrackTitle),
                            Some(track_names) => Ok(
                                AlbumModel {
                                    name,
                                    artist,
                                    track_names,
                                    cover_reference,
                                    cover: None,
                                },
                            ),
                        }
                    },
                },
            },
        },
    }
}

/// The lines that list the first `count` of `names`, each with its place in the list.
pub open spec fn track_lines(names: Seq<Seq<char>>, count: int) -> Seq<char>
    decreases count,
{
    if count <= 0 {
        Seq::empty()
    } else {
        track_lines(names, count - 1) + decimal((count - 1) as nat) + ": "@ + names[count - 1]
            + "\n"@
    }
}

/// The line that gives the size of `cover`, after an empty line.
pub open spec fn cover_lines(cover: Option<CoverModel>) -> Seq<char> {
    match cover {
        Some(c) => "\nCover Dimensions: "@ + decimal(c.width) + " x "@ + decimal(c.height) + "\n"@,
        None => Seq::empty(),
    }
}

/// The artist to show and to write: `Unknown` where the album names none.
pub open spec fn artist_label(album: AlbumModel) -> Seq<char> {
    match album.artist {
        Some(artist) => artist,
        None => "Unknown"@,
    }
}

/// What is shown of `album`: its name; its artist; its tracks, numbered
/// from zero; the size of its cover where it has one.
pub open spec fn summary_of(album: AlbumModel) -> Seq<char> {
    "Album Name: "@ + album.name + "\n\n"@ + "Artist: "@ + artist_label(album) + "\n\n"@
        + "Track Listing:\n"@ + track_lines(album.track_names, album.track_names.len() as int)
        + cover_lines(album.cover)
}

/// Nothing in `document` is malformed, and every row of its listings holds a quoted title.
pub open spec fn readable(document: NodeModel) -> bool {
    &&& artist_in(document) is Ok
    &&& cover_in(document) is Ok
    &&& listings_in(document) matches Ok(listings) && forall|i: int|
        0 <= i < listings.len() ==> normalized_all(
            #[trigger] listings[i],
            artist_in(document)->Ok_0,
        ) is Some
}

/// The listing that `read_all` gives for an element is what the element lists.
pub proof fn lemma_read_all_index(elements: Seq<NodeModel>, i: int)
    requires
        read_all(elements) is Ok,
        0 <= i < elements.len(),
    ensures
        read_all(elements)->Ok_0.len() == elements.len(),
        listing_of(elements[i]) == Ok::<Seq<Seq<char>>, ErrorModel>(read_all(elements)->Ok_0[i]),
    decreases elements.len(),
{
    lemma_read_all_len(elements);
    if i > 0 {
        lemma_read_all_index(elements.drop_first(), i - 1);
    }
}

/// A document with exactly one track listing needs no selection: the
/// extraction with an empty selection gives what it gives when that listing
/// is selected, and it succeeds where the document is readable.
pub proof fn lemma_single_listing_is_implied(name: Seq<char>, document: NodeModel)
    requires
        listing_elements(document).len() == 1,
    ensures
        extracted(name, document, Seq::empty()) == extracted(name, document, seq![0usize]),
        readable(document) ==> extracted(name, document, Seq::empty()) is Ok,
        readable(document) ==> extracted(name, document, Seq::empty())->Ok_0.track_names
            == normalized_all(listings_in(document)->Ok_0[0], artist_in(document)->Ok_0).unwrap(),
{
    if listings_in(document) is Ok {
        let listings = listings_in(document)->Ok_0;
        lemma_read_all_len(listing_elements(document));
        let only = seq![0usize];
        assert(in_range(only, listings.len()));
        if readable(document) {
            let artist = artist_in(document)->Ok_0;
            let titles = normalized_all(listings[0], artist).unwrap();
            assert(only.drop_first() =~= Seq::<usize>::empty());
            assert(gathered(listings, artist, only.drop_first()) == Some(
                Seq::<Seq<char>>::empty(),
            ));
            assert(titles + Seq::<Seq<char>>::empty() == titles);
        }
    }
}

/// A document with two track listings or more, of which nothing is
/// malformed, is refused without a selection, and the refusal carries its
/// listings.
pub proof fn lemma_several_listings_are_ambiguous(name: Seq<char>, document: NodeModel)
    requires
        listing_elements(document).len() >= 2,
        artist_in(document) is Ok,
        cover_in(document) is Ok,
        listings_in(document) is Ok,
    ensures
        extracted(name, document, Seq::empty()) == Err::<AlbumModel, ErrorModel>(
            ErrorModel::AmbiguousSelection(listings_in(document)->Ok_0),
        ),
{
    lemma_read_all_len(listing_elements(document));
}

/// An album read from one listing has one title less than that listing has
/// rows with a cell.
pub proof fn lemma_track_count(name: Seq<char>, document: NodeModel, index: usize)
    requires
        extracted(name, document, seq![index]) is Ok,
    ensures
        index < listing_elements(document).len(),
        extracted(name, document, seq![index])->Ok_0.track_names.len() == row_cells(
            listing_elements(document)[index as int],
        ).len() - 1,
{
    let elements = listing_elements(document);
    let listings = listings_in(document)->Ok_0;
    let artist = artist_in(document)->Ok_0;
    let one = seq![index];
    lemma_read_all_len(elements);
    assert(one[0] < listings.len());
    lemma_read_all_index(elements, index as int);
    lemma_listing_length(elements[index as int]);
    assert(one.drop_first() =~= Seq::<usize>::empty());
    assert(gathered(listings, artist, one.drop_first()) == Some(Seq::<Seq<char>>::empty()));
    lemma_normalized_all_len(listings[index as int], artist);
    let titles = normalized_all(listings[index as int], artist).unwrap();
    assert(titles + Seq::<Seq<char>>::empty() == titles);
}

impl AlbumInfo {
    /// The same album with `cover` as its cover.
    pub fn with_cover(self, cover: CoverImage) -> (album: AlbumInfo)
        ensures
            album@ == (AlbumModel { cover: Some(cover@), ..self@ }),
    {
        AlbumInfo {
            name: self.name,
            artist: self.artist,
            track_names: self.track_names,
            cover_reference: self.cover_reference,
            cover: Some(cover),
        }
    }

    /// What is shown of the album before its files are tagged.
    pub fn summary(&self) -> (shown: String)
        ensures
            shown@ == summary_of(self@),
    {
        let mut out: Vec<char> = Vec::new();
        push_str(&mut out, "Album Name: ");
        push_str(&mut out, self.name.as_str());
        push_str(&mut out, "\n\n");
        push_str(&mut out, "Artist: ");
        match &self.artist {
            Some(artist) => push_str(&mut out, artist.as_str()),
            None => push_str(&mut out, "Unknown"),
        }
        push_str(&mut out, "\n\n");
        push_str(&mut out, "Track Listing:\n");
        let ghost head = out@;
        let ghost names = string_views(self.track_names@);
        assert(head =~= "Album Name: "@ + self@.name + "\n\n"@ + "Artist: "@ + artist_label(self@) + "\n\n"@
            + "Track Listing:\n"@);
        assert(out@ =~= head + track_lines(names, 0));
        let mut i: usize = 0;
        while i < self.track_names.len()
            invariant
                i <= self.track_names.len(),
                names == string_views(self.track_names@),
                out@ == head + track_lines(names, i as int),
            decreases self.track_names.len() - i,
        {
            let ghost before = out@;
            let digits = decimal_of(i);
            push_all(&mut out, &digits, 0, digits.len());
            assert(digits@.subrange(0, digits@.len() as int) == digits@);
            push_str(&mut out, ": ");
            push_str(&mut out, self.track_names[i].as_str());
            push_str(&mut out, "\n");
            assert(out@ =~= head + (track_lines(names, i as int) + decimal(i as nat) + ": "@
                + names[i as int] + "\n"@));
            i += 1;
        }
        let ghost body = out@;
        match &self.cover {
            Some(cover) => {
                push_str(&mut out, "\nCover Dimensions: ");
                let wide = decimal_of(cover.width as usize);
                push_all(&mut out, &wide, 0, wide.len());
                assert(wide@.subrange(0, wide@.len() as int) == wide@);
                push_str(&mut out, " x ");
                let high = decimal_of(cover.height as usize);
                push_all(&mut out, &high, 0, high.len());
                assert(high@.subrange(0, high@.len() as int) == high@);
                push_str(&mut out, "\n");
                assert(out@ =~= body + cover_lines(self@.cover));
            },
            None => {
                assert(out@ =~= body + cover_lines(self@.cover));
            },
        }
        string_of(&out)
    }
}

/// Whether each of `indices` names one of `count` listings.
pub fn all_in_range(indices: &[usize], count: usize) -> (fine: bool)
    ensures
        fine == in_range(indices@, count as nat),
{
    let mut i: usize = 0;
    while i < indices.len()
        invariant
            i <= indices.len(),
            forall|k: int| 0 <= k < i ==> #[trigger] indices@[k] < count,
        decreases indices.len() - i,
    {
        if indices[i] >= count {
            return false;
        }
        i += 1;
    }
    true
}

/// The titles of the listings that `indices` name.
pub fn gather(listings: &Vec<TrackListing>, artist: Option<&str>, indices: &[usize]) -> (titles:
    Option<Vec<String>>)
    requires
        in_range(indices@, listings@.len()),
    ensures
        match titles {
            Some(t) => gathered(
                listing_views(listings@),
                optional_view(artist),
                indices@,
            ) == Some(string_views(t@)),
            None => gathered(
                listing_views(listings@),
                optional_view(artist),
                indices@,
            ) is None,
        },
{
    let ghost all = listing_views(listings@);
    let ghost known = optional_view(artist);
    let mut titles: Vec<String> = Vec::new();
    let mut i: usize = 0;
    assert(indices@.skip(0) == indices@);
    assert(string_views(titles@) =~= Seq::empty());
    proof {
        if gathered(all, known, indices@) is Some {
            assert(Seq::<Seq<char>>::empty() + gathered(all, known, indices@).unwrap() == gathered(
                all,
                known,
                indices@,
            ).unwrap());
        }
    }
    while i < indices.len()
        invariant
            i <= indices.len(),
            all == listing_views(listings@),
            known == optional_view(artist),
            in_range(indices@, listings@.len()),
            gathered(all, known, indices@) == match gathered(all, known, indices@.skip(i as int)) {
                Some(rest) => Some(string_views(titles@) + rest),
                None => None,
            },
        decreases indices.len() - i,
    {
        let ghost rest = indices@.skip(i as int);
        let ghost before = string_views(titles@);
        let index = indices[i];
        assert(rest[0] == index);
        assert(rest.drop_first() == indices@.skip(i + 1));
        assert(indices@[i as int] < listings@.len());
        assert(all[index as int] == string_views(listings@[index as int]@));
        match normalize_all(&listings[index], artist) {
            None => {
                return None;
            },
            Some(mut more) => {
                let ghost added = string_views(more@);
                titles.append(&mut more);
                proof {
                    assert(string_views(titles@) =~= before + added);
                    if gathered(all, known, rest.drop_first()) is Some {
                        let tail = gathered(all, known, rest.drop_first()).unwrap();
                        assert(before + (added + tail) == (before + added) + tail);
                    }
                }
            },
        }
        i += 1;
    }
    assert(string_views(titles@) + Seq::<Seq<char>>::empty() == string_views(titles@));
    Some(titles)
}

/// Reads the album called `album_name` from `document`, taking the titles
/// from the listings that `selection` names, in the order in which it names
/// them.
pub fn extract(album_name: &str, document: &Node, selection: &[usize]) -> (album: Result<
    AlbumInfo,
    ExtractError,
>)
    ensures
        album_view(album) == extracted(album_name@, document@, selection@),
{
    let artist = match find_artist(document) {
        Err(e) => {
            return Err(e);
        },
        Ok(artist) => artist,
    };
    let cover_reference = match find_cover(document) {
        Err(e) => {
            return Err(e);
        },
        Ok(cover) => cover,
    };
    let listings = match find_listings(document) {
        Err(e) => {
            return Err(e);
        },
        Ok(listings) => listings,
    };
    let known: Option<&str> = match &artist {
        Some(a) => Some(a.as_str()),
        None => None,
    };
    let only: [usize; 1] = [0];
    let none: [usize; 0] = [];
    let indices: &[usize] = if selection.len() > 0 {
        selection
    } else if listings.len() > 1 {
        return Err(ExtractError::AmbiguousSelection(listings));
    } else if listings.len() == 1 {
        assert(only@ =~= seq![0usize]);
        only.as_slice()
    } else {
        assert(none@ =~= Seq::<usize>::empty());
        none.as_slice()
    };
    if !all_in_range(indices, listings.len()) {
        return Err(ExtractError::IndexOutOfRange);
    }
    match gather(&listings, known, indices) {
        None => Err(ExtractError::MalformedTrackTitle),
        Some(track_names) => Ok(
            AlbumInfo {
                name: album_name.to_owned(),
                artist,
                track_names,
                cover_reference,
                cover: None,
            },
        ),
    }
}

/// Reads the album called `album_name` from the article written in
/// `content`.
///
/// The result is that of `extract` on the tree of the parsed article.
pub fn scrape_wikipedia(album_name: &str, content: &str, track_list_nums: &[usize]) -> (album:
    Result<AlbumInfo, ExtractError>)
    ensures
        tree_of(document_edges(content@)) is Some,
        album_view(album) == extracted(
            album_name@,
            tree_of(document_edges(content@)).unwrap(),
            track_list_nums@,
        ),
{
    let document = parse_document(content);
    extract(album_name, &document, track_list_nums)
}

} // verus!
