use album_metadata::cover::{cover_file_name, select_cover_url};
use album_metadata::error::ExtractError;
use album_metadata::text::{
    chars_of, decimal_of, find, has_occurrence, same_ignoring_ascii_case, split_fields,
    string_of, without,
};
use album_metadata::title::{normalize_all, normalize_title};

fn chars(s: &str) -> Vec<char> {
    s.chars().collect()
}

#[test]
fn title_with_artist_song_suffix_is_stripped() {
    assert_eq!(
        normalize_title("\"Song Title (Artist song)\"", Some("Artist")),
        Ok("Song Title".to_string())
    );
}

#[test]
fn title_with_song_suffix_is_stripped_without_artist() {
    assert_eq!(normalize_title("\"Hello (song)\"", None), Ok("Hello".to_string()));
}

#[test]
fn title_with_artist_ep_suffix_is_stripped() {
    assert_eq!(
        normalize_title("\"Four Tracks (Band EP)\"", Some("Band")),
        Ok("Four Tracks".to_string())
    );
}

#[test]
fn artist_suffix_stays_when_artist_is_unknown() {
    assert_eq!(
        normalize_title("\"Song Title (Artist song)\"", None),
        Ok("Song Title (Artist song)".to_string())
    );
}

#[test]
fn artist_suffix_of_another_artist_stays() {
    assert_eq!(
        normalize_title("\"Song (Other song)\"", Some("Band")),
        Ok("Song (Other song)".to_string())
    );
}

#[test]
fn suffix_is_removed_wherever_it_stands() {
    assert_eq!(
        normalize_title("\"One (song) Two (song)\"", None),
        Ok("One Two".to_string())
    );
}

#[test]
fn text_after_the_second_quote_is_dropped() {
    assert_eq!(
        normalize_title("\"Second\" (featuring Someone)", None),
        Ok("Second".to_string())
    );
}

#[test]
fn text_before_the_first_quote_is_dropped() {
    assert_eq!(normalize_title("1. \"First\" 3:40", None), Ok("First".to_string()));
}

#[test]
fn empty_quoted_title_is_a_title() {
    assert_eq!(normalize_title("\"\"", None), Ok(String::new()));
}

#[test]
fn bare_title_is_refused() {
    assert_eq!(normalize_title("Song Title", None), Err(ExtractError::MalformedTrackTitle));
}

#[test]
fn empty_text_is_refused() {
    assert_eq!(normalize_title("", Some("Band")), Err(ExtractError::MalformedTrackTitle));
}

#[test]
fn single_quote_is_refused() {
    assert_eq!(normalize_title("\"Unfinished", None), Err(ExtractError::MalformedTrackTitle));
}

#[test]
fn normalized_title_cannot_be_normalized_again() {
    let once = normalize_title("\"Song Title (Artist song)\"", Some("Artist")).unwrap();
    assert_eq!(normalize_title(&once, Some("Artist")), Err(ExtractError::MalformedTrackTitle));
}

#[test]
fn all_rows_are_normalized_in_order() {
    let rows = vec!["\"A (song)\"".to_string(), "\"B\" (live)".to_string()];
    assert_eq!(normalize_all(&rows, None), Some(vec!["A".to_string(), "B".to_string()]));
}

#[test]
fn one_bare_row_refuses_the_listing() {
    let rows = vec!["\"A\"".to_string(), "B".to_string(), "\"C\"".to_string()];
    assert_eq!(normalize_all(&rows, None), None);
}

#[test]
fn no_rows_give_no_titles() {
    assert_eq!(normalize_all(&Vec::new(), Some("Band")), Some(Vec::new()));
}

#[test]
fn cover_reference_gives_file_name() {
    assert_eq!(
        cover_file_name("https://en.wikipedia.org/wiki/File:Album_Cover.jpg"),
        Some("Album_Cover.jpg".to_string())
    );
}

#[test]
fn cover_reference_without_file_mark_gives_nothing() {
    assert_eq!(cover_file_name("/wiki/Album_Cover.jpg"), None);
}

#[test]
fn cover_file_name_ends_at_the_next_file_mark() {
    assert_eq!(cover_file_name("/wiki/File:A.jpgFile:B.jpg"), Some("A.jpg".to_string()));
}

#[test]
fn cover_file_name_may_be_empty() {
    assert_eq!(cover_file_name("/wiki/File:"), Some(String::new()));
}

#[test]
fn last_address_with_the_file_name_is_chosen() {
    let addresses = vec![
        "https://upload.example/a/Album_Cover.jpg".to_string(),
        "https://upload.example/b/Other.png".to_string(),
        "https://upload.example/c/thumb/Album_Cover.jpg/220px".to_string(),
        "https://upload.example/d/Logo.svg".to_string(),
    ];
    assert_eq!(
        select_cover_url(addresses, "Album_Cover.jpg"),
        Some("https://upload.example/c/thumb/Album_Cover.jpg/220px".to_string())
    );
}

#[test]
fn no_address_with_the_file_name_gives_nothing() {
    let addresses = vec!["https://upload.example/b/Other.png".to_string()];
    assert_eq!(select_cover_url(addresses, "Album_Cover.jpg"), None);
    assert_eq!(select_cover_url(Vec::new(), "Album_Cover.jpg"), None);
}

#[test]
fn characters_and_strings_convert_both_ways() {
    assert_eq!(chars_of("añb"), vec!['a', 'ñ', 'b']);
    assert_eq!(string_of(&vec!['a', 'ñ', 'b']), "añb".to_string());
    assert_eq!(string_of(&Vec::new()), String::new());
}

#[test]
fn find_gives_the_leftmost_occurrence() {
    let text = chars("abcabc");
    assert_eq!(find(&text, &chars("bc"), 0), Some(1));
    assert_eq!(find(&text, &chars("bc"), 2), Some(4));
    assert_eq!(find(&text, &chars("bc"), 5), None);
    assert_eq!(find(&text, &chars("abcabcd"), 0), None);
    assert_eq!(find(&text, &chars(""), 6), Some(6));
    assert_eq!(find(&text, &chars(""), 7), None);
}

#[test]
fn occurrence_is_found_anywhere() {
    assert!(has_occurrence(&chars("xxFile:yy"), &chars("File:")));
    assert!(!has_occurrence(&chars("xxFile yy"), &chars("File:")));
    assert!(has_occurrence(&chars(""), &chars("")));
}

#[test]
fn occurrences_are_removed_from_left_to_right() {
    assert_eq!(without(&chars("aaa"), &chars("aa")), chars("a"));
    assert_eq!(without(&chars("abab"), &chars("ab")), chars(""));
    assert_eq!(without(&chars("aabb"), &chars("ab")), chars("ab"));
    assert_eq!(without(&chars("abc"), &chars("")), chars("abc"));
    assert_eq!(without(&chars("abc"), &chars("abcd")), chars("abc"));
}

#[test]
fn text_is_cut_at_each_separator() {
    assert_eq!(
        split_fields(&chars("a\"b\"c"), &chars("\"")),
        vec![chars("a"), chars("b"), chars("c")]
    );
    assert_eq!(split_fields(&chars("abc"), &chars("\"")), vec![chars("abc")]);
    assert_eq!(split_fields(&chars("\""), &chars("\"")), vec![chars(""), chars("")]);
    assert_eq!(split_fields(&chars(""), &chars("\"")), vec![chars("")]);
    assert_eq!(split_fields(&chars("abc"), &chars("")), vec![chars("abc")]);
}

#[test]
fn ascii_case_is_ignored_and_nothing_else() {
    assert!(same_ignoring_ascii_case(&chars("Track-Listing"), &chars("track-listing")));
    assert!(!same_ignoring_ascii_case(&chars("track_listing"), &chars("track-listing")));
    assert!(!same_ignoring_ascii_case(&chars("track"), &chars("tracks")));
    assert!(!same_ignoring_ascii_case(&chars("É"), &chars("é")));
    assert!(!same_ignoring_ascii_case(&chars("@"), &chars("`")));
    assert!(!same_ignoring_ascii_case(&chars("["), &chars("{")));
}

#[test]
fn numbers_are_written_in_decimal() {
    assert_eq!(decimal_of(0), chars("0"));
    assert_eq!(decimal_of(9), chars("9"));
    assert_eq!(decimal_of(10), chars("10"));
    assert_eq!(decimal_of(1203), chars("1203"));
}
