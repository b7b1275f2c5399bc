//! Album metadata extracted from the markup of an encyclopedia article.
//!
//! `scrape_wikipedia` reads an album from the text of its article: the artist
//! and the reference to the cover from the infobox, the titles of the tracks
//! from the track listings. `update_album_metadata` says what to write into
//! the files of the album. The modules hold the steps, each with its contract.

pub mod album;
pub mod artist;
pub mod cover;
pub mod document;
pub mod error;
pub mod listing;
pub mod markup;
pub mod picture;
pub mod tagging;
pub mod text;
pub mod title;

pub use album::{extract, scrape_wikipedia, AlbumInfo, CoverImage};
pub use error::ExtractError;
pub use tagging::{update_album_metadata, TagError, TrackTag};
