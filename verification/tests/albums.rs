use album_metadata::album::{extract, scrape_wikipedia, AlbumInfo, CoverImage};
use album_metadata::document::{Attribute, Element, Node};
use album_metadata::error::ExtractError;
use album_metadata::markup::{build_tree, parse_document, Edge};
use album_metadata::document::Content;
use album_metadata::tagging::{
    tag_at, update_album_metadata, Comment, Picture, PictureKind, TagError, TrackTag,
};

fn el(name: &str, classes: &[&str], attributes: &[(&str, &str)], children: Vec<Node>) -> Node {
    Node::element(
        Element {
            name: name.to_string(),
            classes: classes.iter().map(|c| c.to_string()).collect(),
            attributes: attributes
                .iter()
                .map(|(n, v)| Attribute {
                    namespace: String::new(),
                    name: n.to_string(),
                    value: v.to_string(),
                })
                .collect(),
        },
        children,
    )
}

fn track_row(raw: &str) -> Node {
    el("tr", &[], &[], vec![el("td", &[], &[], vec![Node::text(raw)])])
}

fn table(rows: &[&str]) -> Node {
    let mut all: Vec<Node> = rows.iter().map(|r| track_row(r)).collect();
    all.push(track_row("Total length: 40:00"));
    el("table", &["track-listing"], &[], all)
}

fn artist_box(title: &str) -> Node {
    el("td", &["contributor"], &[], vec![el("a", &[], &[("title", title)], vec![])])
}

fn cover_box(href: &str) -> Node {
    el(
        "td",
        &["infobox-image"],
        &[],
        vec![el("a", &["mw-file-description"], &[("href", href)], vec![])],
    )
}

fn names(list: &[&str]) -> Vec<String> {
    list.iter().map(|s| s.to_string()).collect()
}

const ARTICLE: &str = r#"<!DOCTYPE html>
<html><head><title>Album</title></head><body>
<!-- infobox -->
<table class="infobox">
<tr><td class="infobox-image"><span><a href="/wiki/File:Album_Cover.jpg" class="mw-file-description"><img src="//upload.example/Album_Cover.jpg"></a></span></td></tr>
<tr><th>by</th><td><div class="Contributor"><a href="/wiki/Band_(band)" title="Band (band)">Band</a></div></td></tr>
</table>
<table class="tracklist track-listing">
<tbody>
<tr><th>No.</th><th>Title</th><th>Length</th></tr>
<tr><th>1.</th><td>"<a href="/wiki/Intro" title="Intro (Band song)">Intro</a>"</td><td>1:00</td></tr>
<tr><th>2.</th><td>"Second" (featuring Someone)</td><td>2:00</td></tr>
<tr><th>3.</th><td>"<a href="/wiki/Third" title="Third (song)">Third</a>"<span title=" (live)">*</span></td><td>2:30</td></tr>
<tr><th colspan="2">Total length:</th><td>5:30</td></tr>
</tbody></table>
</body></html>"#;

const BONUS: &str = r#"<table class="track-listing"><tbody>
<tr><td>"Bonus (Band EP)"</td></tr>
<tr><td>1:00</td></tr>
</tbody></table>"#;

#[test]
fn single_listing_needs_no_selection() {
    let document = Node::other(vec![artist_box("Band (band)"), table(&["\"One\"", "\"Two (Band song)\""])]);
    let album = extract("Album", &document, &[]).unwrap();
    assert_eq!(album.name, "Album");
    assert_eq!(album.artist, Some("Band".to_string()));
    assert_eq!(album.track_names, names(&["One", "Two"]));
    assert_eq!(album.cover_reference, None);
    assert_eq!(album.cover, None);
    assert_eq!(extract("Album", &document, &[0]), Ok(album));
}

#[test]
fn several_listings_need_a_selection() {
    let document = Node::other(vec![table(&["\"One\""]), table(&["\"Two\"", "\"Three\""])]);
    assert_eq!(
        extract("Album", &document, &[]),
        Err(ExtractError::AmbiguousSelection(vec![
            names(&["\"One\""]),
            names(&["\"Two\"", "\"Three\""]),
        ]))
    );
}

#[test]
fn ambiguity_is_reported_before_titles_are_read() {
    let document = Node::other(vec![table(&["no quotes"]), table(&["\"Two\""])]);
    assert!(matches!(
        extract("Album", &document, &[]),
        Err(ExtractError::AmbiguousSelection(_))
    ));
}

#[test]
fn selected_listings_are_joined_in_the_order_selected() {
    let document = Node::other(vec![
        table(&["\"A1\"", "\"A2\""]),
        table(&["\"B1\""]),
        table(&["\"C1\"", "\"C2\""]),
    ]);
    let album = extract("Album", &document, &[2, 0, 2]).unwrap();
    assert_eq!(album.track_names, names(&["C1", "C2", "A1", "A2", "C1", "C2"]));
    assert_eq!(album.artist, None);
}

#[test]
fn index_beyond_the_listings_is_refused() {
    let document = Node::other(vec![table(&["\"One\""]), table(&["\"Two\""])]);
    assert_eq!(extract("Album", &document, &[2]), Err(ExtractError::IndexOutOfRange));
    assert_eq!(extract("Album", &document, &[1, 5]), Err(ExtractError::IndexOutOfRange));
    assert_eq!(extract("Album", &Node::other(vec![]), &[0]), Err(ExtractError::IndexOutOfRange));
}

#[test]
fn index_is_checked_before_titles_are_read() {
    let document = Node::other(vec![table(&["no quotes"])]);
    assert_eq!(extract("Album", &document, &[0, 1]), Err(ExtractError::IndexOutOfRange));
}

#[test]
fn bare_row_in_a_selected_listing_is_refused() {
    let document = Node::other(vec![table(&["\"One\"", "Two"]), table(&["\"Three\""])]);
    assert_eq!(extract("Album", &document, &[0]), Err(ExtractError::MalformedTrackTitle));
    assert_eq!(extract("Album", &document, &[1]).unwrap().track_names, names(&["Three"]));
}

#[test]
fn document_without_listing_gives_an_album_without_tracks() {
    let document = Node::other(vec![artist_box("Band"), cover_box("/wiki/File:C.png")]);
    let album = extract("Album", &document, &[]).unwrap();
    assert_eq!(album.track_names, Vec::<String>::new());
    assert_eq!(album.cover_reference, Some("/wiki/File:C.png".to_string()));
}

#[test]
fn empty_listing_fails_the_extraction() {
    let empty = el("table", &["track-listing"], &[], vec![]);
    let document = Node::other(vec![table(&["\"One\""]), empty]);
    assert_eq!(extract("Album", &document, &[0]), Err(ExtractError::EmptyListing));
}

#[test]
fn malformed_artist_fails_before_an_empty_listing() {
    let document = Node::other(vec![
        el("table", &["track-listing"], &[], vec![]),
        el("td", &["contributor"], &[], vec![]),
    ]);
    assert_eq!(extract("Album", &document, &[]), Err(ExtractError::MalformedDocument));
}

#[test]
fn track_count_is_one_less_than_rows_with_a_cell() {
    let document = Node::other(vec![table(&["\"1\"", "\"2\"", "\"3\"", "\"4\""])]);
    assert_eq!(extract("Album", &document, &[]).unwrap().track_names.len(), 4);
    let single = Node::other(vec![table(&[])]);
    assert_eq!(extract("Album", &single, &[]).unwrap().track_names.len(), 0);
}

#[test]
fn element_with_several_classes_is_read_for_each() {
    let both = el(
        "div",
        &["contributor", "track-listing"],
        &[],
        vec![el("a", &[], &[("title", "Band")], vec![]), track_row("\"One\""), track_row("x")],
    );
    let album = extract("Album", &Node::other(vec![both]), &[]).unwrap();
    assert_eq!(album.artist, Some("Band".to_string()));
    assert_eq!(album.track_names, names(&["One"]));
}

#[test]
fn article_is_parsed_and_read() {
    let album = scrape_wikipedia("Album", ARTICLE, &[]).unwrap();
    assert_eq!(album.name, "Album");
    assert_eq!(album.artist, Some("Band".to_string()));
    assert_eq!(album.cover_reference, Some("/wiki/File:Album_Cover.jpg".to_string()));
    assert_eq!(album.track_names, names(&["Intro", "Second", "Third"]));
    assert_eq!(album.cover, None);
}

#[test]
fn article_with_two_listings_needs_a_selection() {
    let content = format!("{}{}", ARTICLE, BONUS);
    match scrape_wikipedia("Album", &content, &[]) {
        Err(ExtractError::AmbiguousSelection(listings)) => {
            assert_eq!(
                listings,
                vec![
                    names(&["\"Intro (Band song)\"", "\"Second\" (featuring Someone)", "\"Third (song)\" (live)"]),
                    names(&["\"Bonus (Band EP)\""]),
                ]
            );
        }
        other => panic!("unexpected: {:?}", other),
    }
    let album = scrape_wikipedia("Album", &content, &[1, 0]).unwrap();
    assert_eq!(album.track_names, names(&["Bonus", "Intro", "Second", "Third"]));
    assert_eq!(scrape_wikipedia("Album", &content, &[2]), Err(ExtractError::IndexOutOfRange));
}

#[test]
fn empty_article_gives_an_album_without_tracks() {
    let album = scrape_wikipedia("Nothing", "", &[]).unwrap();
    assert_eq!(album.name, "Nothing");
    assert_eq!(album.artist, None);
    assert_eq!(album.track_names, Vec::<String>::new());
}

#[test]
fn parsed_document_holds_elements_text_and_comments() {
    let root = parse_document("<p class=\"b a\" id=\"x\">Hi<!-- c --><br></p>");
    assert_eq!(root.content, Content::Other);
    let nodes = root.descendants();
    let p = nodes.iter().find(|n| n.is_named("p")).unwrap();
    let element = p.as_element().unwrap();
    assert_eq!(element.classes, names(&["a", "b"]));
    assert_eq!(element.attribute("id"), Some(&"x".to_string()));
    assert_eq!(p.children.len(), 3);
    assert_eq!(p.children[0], Node::text("Hi"));
    assert_eq!(p.children[1].content, Content::Other);
    assert!(p.children[2].is_named("br"));
    assert!(nodes.iter().any(|n| n.is_named("html")));
    assert!(nodes.iter().any(|n| n.is_named("body")));
}

#[test]
fn walk_is_put_together_as_a_tree() {
    let edges = vec![
        Edge::Open(Content::Other),
        Edge::Open(Content::Text("a".to_string())),
        Edge::Close,
        Edge::Open(Content::Other),
        Edge::Open(Content::Text("b".to_string())),
        Edge::Close,
        Edge::Close,
        Edge::Close,
    ];
    assert_eq!(
        build_tree(edges),
        Some(Node::other(vec![Node::text("a"), Node::other(vec![Node::text("b")])]))
    );
}

#[test]
fn walk_that_is_no_tree_is_refused() {
    assert_eq!(build_tree(vec![]), None);
    assert_eq!(build_tree(vec![Edge::Close]), None);
    assert_eq!(build_tree(vec![Edge::Open(Content::Other)]), None);
    assert_eq!(build_tree(vec![Edge::Open(Content::Other), Edge::Close, Edge::Close]), None);
    assert_eq!(
        build_tree(vec![
            Edge::Open(Content::Other),
            Edge::Close,
            Edge::Open(Content::Other),
            Edge::Close,
        ]),
        None
    );
    assert_eq!(
        build_tree(vec![Edge::Open(Content::Other), Edge::Open(Content::Other), Edge::Close]),
        None
    );
}

fn album(artist: Option<&str>, tracks: &[&str], cover: Option<CoverImage>) -> AlbumInfo {
    AlbumInfo {
        name: "Album".to_string(),
        artist: artist.map(|a| a.to_string()),
        track_names: names(tracks),
        cover_reference: None,
        cover,
    }
}

#[test]
fn summary_lists_the_tracks_from_zero() {
    let info = album(Some("Band"), &["One", "Two"], None);
    assert_eq!(
        info.summary(),
        "Album Name: Album\n\nArtist: Band\n\nTrack Listing:\n0: One\n1: Two\n"
    );
}

#[test]
fn summary_of_an_album_without_tracks() {
    let info = album(None, &[], None);
    assert_eq!(info.summary(), "Album Name: Album\n\nArtist: Unknown\n\nTrack Listing:\n");
}

#[test]
fn summary_gives_the_size_of_the_cover() {
    let cover = CoverImage { width: 1200, height: 630, jpeg: Some(vec![1, 2, 3]) };
    let info = album(None, &["One"], None).with_cover(cover);
    assert_eq!(
        info.summary(),
        "Album Name: Album\n\nArtist: Unknown\n\nTrack Listing:\n0: One\n\nCover Dimensions: 1200 x 630\n"
    );
}

#[test]
fn summary_numbers_beyond_nine() {
    let tracks: Vec<String> = (0..12).map(|i| format!("T{}", i)).collect();
    let info = AlbumInfo {
        name: "N".to_string(),
        artist: None,
        track_names: tracks,
        cover_reference: None,
        cover: None,
    };
    let shown = info.summary();
    assert!(shown.ends_with("9: T9\n10: T10\n11: T11\n"));
}

#[test]
fn with_cover_keeps_the_rest() {
    let before = album(Some("Band"), &["One"], None);
    let cover = CoverImage { width: 2, height: 3, jpeg: Some(vec![9]) };
    let after = before.with_cover(CoverImage { width: 2, height: 3, jpeg: Some(vec![9]) });
    assert_eq!(after.cover, Some(cover));
    assert_eq!(after.name, "Album");
    assert_eq!(after.artist, Some("Band".to_string()));
    assert_eq!(after.track_names, names(&["One"]));
}

#[test]
fn tags_number_the_tracks_from_one() {
    let info = album(Some("Band"), &["One", "Two", "Three"], None);
    let tagged = update_album_metadata(vec!["a.mp3", "b.mp3", "c.mp3"], &info).unwrap();
    assert_eq!(tagged.len(), 3);
    assert_eq!(
        tagged[1],
        (
            "b.mp3",
            TrackTag {
                album: "Album".to_string(),
                artist: "Band".to_string(),
                title: "Two".to_string(),
                track: 2,
                comment: Comment {
                    lang: "eng".to_string(),
                    description: "tool".to_string(),
                    text: "Created using Russel's Album Manager".to_string(),
                },
                picture: None,
            }
        )
    );
    assert_eq!(tagged[0].1.track, 1);
    assert_eq!(tagged[2].0, "c.mp3");
    assert_eq!(tagged[2].1.title, "Three");
}

#[test]
fn shorter_list_decides_how_many_files_are_tagged() {
    let info = album(None, &["One", "Two"], None);
    assert_eq!(update_album_metadata(vec![1, 2, 3, 4], &info).unwrap().len(), 2);
    assert_eq!(update_album_metadata(vec![7], &info).unwrap().len(), 1);
    assert_eq!(update_album_metadata(Vec::<u8>::new(), &info).unwrap().len(), 0);
    assert_eq!(update_album_metadata(vec![1, 2], &album(None, &[], None)).unwrap().len(), 0);
}

#[test]
fn unknown_artist_and_cover_picture_are_written() {
    let cover = CoverImage { width: 1, height: 1, jpeg: Some(vec![0xff, 0xd8, 0xff]) };
    let info = album(None, &["One"], Some(cover));
    let tag = tag_at(&info, 0).unwrap();
    assert_eq!(tag.artist, "Unknown");
    assert_eq!(
        tag.picture,
        Some(Picture {
            mime_type: "image/jpeg".to_string(),
            kind: PictureKind::CoverFront,
            description: String::new(),
            data: vec![0xff, 0xd8, 0xff],
        })
    );
    assert_eq!(tag.comment.lang, "eng");
    assert_eq!(tag.comment.description, "tool");
    assert_eq!(tag.album, "Album");
    assert_eq!(tag.track, 1);
}

#[test]
fn every_file_of_an_album_with_a_cover_gets_its_picture() {
    let cover = CoverImage { width: 4, height: 4, jpeg: Some(vec![0xff, 0xd8, 1, 2]) };
    let info = album(Some("Band"), &["One", "Two"], Some(cover));
    let tagged = update_album_metadata(vec!["a.mp3", "b.mp3"], &info).unwrap();
    assert_eq!(tagged.len(), 2);
    for (_, tag) in &tagged {
        let picture = tag.picture.as_ref().unwrap();
        assert_eq!(picture.mime_type, "image/jpeg");
        assert_eq!(picture.kind, PictureKind::CoverFront);
        assert_eq!(picture.description, "");
        assert_eq!(picture.data, vec![0xff, 0xd8, 1, 2]);
        assert_eq!(tag.comment.text, "Created using Russel's Album Manager");
    }
    let bare = album(Some("Band"), &["One"], None);
    assert!(update_album_metadata(vec!["a.mp3"], &bare).unwrap()[0].1.picture.is_none());
}

#[test]
fn summary_shows_the_artist_and_not_the_album_on_its_line() {
    let info = AlbumInfo {
        name: "Record".to_string(),
        artist: Some("Singer".to_string()),
        track_names: Vec::new(),
        cover_reference: None,
        cover: None,
    };
    assert_eq!(info.summary(), "Album Name: Record\n\nArtist: Singer\n\nTrack Listing:\n");
}

#[test]
fn prefixed_attribute_is_not_read_as_a_plain_one() {
    let root = parse_document(
        "<svg><a xlink:href=\"/wiki/File:X.svg\" href=\"/plain\" xlink:title=\"T\">t</a></svg>",
    );
    let nodes = root.descendants();
    let link = nodes.iter().find(|n| n.is_named("a")).unwrap();
    let element = link.as_element().unwrap();
    assert_eq!(element.attribute("href"), Some(&"/plain".to_string()));
    assert_eq!(element.attribute("title"), None);
    let foreign: Vec<&Attribute> =
        element.attributes.iter().filter(|a| !a.namespace.is_empty()).collect();
    assert_eq!(foreign.len(), 2);
    for attribute in foreign {
        assert_eq!(attribute.namespace, "http://www.w3.org/1999/xlink");
    }
    let plain: Vec<&Attribute> =
        element.attributes.iter().filter(|a| a.namespace.is_empty()).collect();
    assert_eq!(plain.len(), 1);
    assert_eq!(plain[0].name, "href");
}

#[test]
fn cover_link_with_only_a_prefixed_reference_is_malformed() {
    let content = "<table><tr><td class=\"infobox-image\"><svg>\
        <a class=\"mw-file-description\" xlink:href=\"/wiki/File:X.svg\">x</a>\
        </svg></td></tr></table>";
    assert_eq!(scrape_wikipedia("Album", content, &[]), Err(ExtractError::MalformedDocument));
}

#[test]
fn cover_without_jpeg_fails_the_tagging_of_a_file() {
    let cover = CoverImage { width: 2, height: 2, jpeg: None };
    let info = album(Some("Band"), &["One", "Two"], Some(cover));
    assert_eq!(update_album_metadata(vec!["a.mp3"], &info), Err(TagError::UnwritableCover));
    assert_eq!(tag_at(&info, 1), Err(TagError::UnwritableCover));
}

#[test]
fn cover_without_jpeg_is_no_failure_where_nothing_is_tagged() {
    let info = album(None, &["One"], Some(CoverImage { width: 2, height: 2, jpeg: None }));
    assert_eq!(update_album_metadata(Vec::<u8>::new(), &info), Ok(Vec::new()));
    let empty = album(None, &[], Some(CoverImage { width: 2, height: 2, jpeg: None }));
    assert_eq!(update_album_metadata(vec![1, 2], &empty), Ok(Vec::new()));
}

#[test]
fn summary_gives_the_size_of_a_cover_without_jpeg() {
    let info = album(None, &[], Some(CoverImage { width: 7, height: 5, jpeg: None }));
    assert!(info.summary().ends_with("\nCover Dimensions: 7 x 5\n"));
}
