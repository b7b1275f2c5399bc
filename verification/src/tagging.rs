//! What is written into the files of an album, file by file.

use crate::album::{AlbumInfo, AlbumModel, artist_label};
use vstd::prelude::*;

verus! {

/// A comment written into a file.
#[derive(Debug, PartialEq, Eq)]
pub struct Comment {
    pub lang: String,
    pub description: String,
    pub text: String,
}

/// What a picture written into a file shows.
#[derive(Debug, PartialEq, Eq)]
pub enum PictureKind {
    /// The front of the cover.
    CoverFront,
}

/// A picture written into a file: the kind of its data, what it shows, a
/// description, and the data.
#[derive(Debug, PartialEq, Eq)]
pub struct Picture {
    pub mime_type: String,
    pub kind: PictureKind,
    pub description: String,
    pub data: Vec<u8>,
}

/// The tag of one file: the album and its artist, the title of the track,
/// its number counted from one, a comment, and the picture of the cover.
#[derive(Debug, PartialEq, Eq)]
pub struct TrackTag {
    pub album: String,
    pub artist: String,
    pub title: String,
    pub track: usize,
    pub comment: Comment,
    pub picture: Option<Picture>,
}

/// What a comment stands for in contracts.
pub struct CommentModel {
    pub lang: Seq<char>,
    pub description: Seq<char>,
    pub text: Seq<char>,
}

/// What a picture stands for in contracts.
pub struct PictureModel {
    pub mime_type: Seq<char>,
    pub kind: PictureKind,
    pub description: Seq<char>,
    pub data: Seq<u8>,
}

/// What a tag stands for in contracts.
pub struct TagModel {
    pub album: Seq<char>,
    pub artist: Seq<char>,
    pub title: Seq<char>,
    pub track: nat,
    pub comment: CommentModel,
    pub picture: Option<PictureModel>,
}

impl View for Comment {
    type V = CommentModel;

    open spec fn view(&self) -> CommentModel {
        CommentModel { lang: self.lang@, description: self.description@, text: self.text@ }
    }
}

impl View for Picture {
    type V = PictureModel;

    open spec fn view(&self) -> PictureModel {
        PictureModel {
            mime_type: self.mime_type@,
            kind: self.kind,
            description: self.description@,
            data: self.data@,
        }
    }
}

impl View for TrackTag {
    type V = TagModel;

    open spec fn view(&self) -> TagModel {
        TagModel {
            album: self.album@,
            artist: self.artist@,
            title: self.title@,
            track: self.track as nat,
            comment: self.comment@,
            picture: match self.picture {
                Some(picture) => Some(picture@),
                None => None,
            },
        }
    }
}

/// The comment to write into every file: in English, described as `tool`,
/// naming the program that tagged the file.
pub open spec fn comment_written() -> CommentModel {
    CommentModel {
        lang: "eng"@,
        description: "tool"@,
        text: "Created using Russel's Album Manager"@,
    }
}

/// Why the files of an album cannot be tagged.
#[derive(Debug, PartialEq, Eq)]
pub enum TagError {
    /// The album has a cover that could not be written as a JPEG file.
    UnwritableCover,
}

/// The album has a cover, and the cover could not be written as a JPEG file.
pub open spec fn cover_unwritable(album: AlbumModel) -> bool {
    album.cover matches Some(cover) && cover.jpeg is None
}

/// The picture to write: the JPEG file of the album's cover, as the front of
/// the cover and without a description, where the album has a cover.
pub open spec fn picture_of(album: AlbumModel) -> Option<PictureModel> {
    match album.cover {
        Some(cover) => match cover.jpeg {
            Some(data) => Some(
                PictureModel {
                    mime_type: "image/jpeg"@,
                    kind: PictureKind::CoverFront,
                    description: Seq::empty(),
                    data,
                },
            ),
            None => None,
        },
        None => None,
    }
}

/// The tag of the file that holds the track at `place` in `album`.
pub open spec fn tag_for(album: AlbumModel, place: int) -> TagModel {
    TagModel {
        album: album.name,
        artist: artist_label(album),
        title: album.track_names[place],
        track: (place + 1) as nat,
        comment: comment_written(),
        picture: picture_of(album),
    }
}

/// How many files are tagged: as many as there are files, and no more than
/// there are tracks.
pub open spec fn tagged_count(files: nat, album: AlbumModel) -> nat {
    if files <= album.track_names.len() {
        files
    } else {
        album.track_names.len()
    }
}

/// The tag of the file that holds the track at `place` in `metadata`.
///
/// Fails exactly where the album has a cover that could not be written as a
/// JPEG file.
pub fn tag_at(metadata: &AlbumInfo, place: usize) -> (tag: Result<TrackTag, TagError>)
    requires
        place < metadata.track_names.len(),
    ensures
        match tag {
            Ok(t) => !cover_unwritable(metadata@) && t@ == tag_for(metadata@, place as int),
            Err(TagError::UnwritableCover) => cover_unwritable(metadata@),
        },
{
    let artist = match &metadata.artist {
        Some(artist) => artist.clone(),
        None => "Unknown".to_owned(),
    };
    let picture = match &metadata.cover {
        Some(cover) => match &cover.jpeg {
            Some(jpeg) => {
                let data = jpeg.clone();
                assert(data@ =~= jpeg@);
                Some(
                    Picture {
                        mime_type: "image/jpeg".to_owned(),
                        kind: PictureKind::CoverFront,
                        description: String::new(),
                        data,
                    },
                )
            },
            None => {
                return Err(TagError::UnwritableCover);
            },
        },
        None => None,
    };
    Ok(
        TrackTag {
            album: metadata.name.clone(),
            artist,
            title: metadata.track_names[place].clone(),
            track: place + 1,
            comment: Comment {
                lang: "eng".to_owned(),
                description: "tool".to_owned(),
                text: "Created using Russel's Album Manager".to_owned(),
            },
            picture,
        },
    )
}

/// Pairs each of `songs` with the tag to write into it.
///
/// The files are taken in the order given, the tracks in the order of the
/// album, and the shorter of the two lists decides how many pairs there are.
/// Fails exactly where there is a file to tag and the album has a cover that
/// could not be written as a JPEG file.
pub fn update_album_metadata<S>(songs: Vec<S>, metadata: &AlbumInfo) -> (tagged: Result<
    Vec<(S, TrackTag)>,
    TagError,
>)
    ensures
        match tagged {
            Ok(pairs) => {
                &&& !(cover_unwritable(metadata@) && tagged_count(songs@.len(), metadata@) > 0)
                &&& pairs@.len() == tagged_count(songs@.len(), metadata@)
                &&& forall|i: int|
                    0 <= i < pairs@.len() ==> {
                        &&& (#[trigger] pairs@[i]).0 == songs@[i]
                        &&& pairs@[i].1@ == tag_for(metadata@, i)
                    }
            },
            Err(TagError::UnwritableCover) => {
                &&& cover_unwritable(metadata@)
                &&& tagged_count(songs@.len(), metadata@) > 0
            },
        },
{
    let ghost all = songs@;
    let mut tagged: Vec<(S, TrackTag)> = Vec::new();
    let mut place: usize = 0;
    for song in it: songs
        invariant
            it.seq() == all,
            all == songs@,
            place == tagged_count(it.index() as nat, metadata@),
            place > 0 ==> !cover_unwritable(metadata@),
            tagged@.len() == place,
            forall|i: int|
                0 <= i < tagged@.len() ==> {
                    &&& (#[trigger] tagged@[i]).0 == all[i]
                    &&& tagged@[i].1@ == tag_for(metadata@, i)
                },
    {
        if place < metadata.track_names.len() {
            match tag_at(metadata, place) {
                Err(e) => {
                    return Err(e);
                },
                Ok(tag) => {
                    tagged.push((song, tag));
                    place += 1;
                },
            }
        }
    }
    Ok(tagged)
}

} // verus!
