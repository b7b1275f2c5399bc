//! From the raw text of a row to the title of a track.

use crate::error::{ErrorModel, ExtractError, string_views};
use crate::text::{
    chars_of, fields_from, find_from, lemma_find_from, lemma_remove_all_keeps, occurs_at,
    push_all, remove_all, split, split_fields, string_of, views, without,
};
use vstd::prelude::*;

verus! {

/// The character that stands before and after a title.
pub open spec fn quote() -> Seq<char> {
    seq!['"']
}

/// What stands between the first and the second quote of `raw`: `None` where
/// `raw` holds fewer than two quotes.
pub open spec fn quoted(raw: Seq<char>) -> Option<Seq<char>> {
    let fields = split(raw, quote());
    if fields.len() >= 3 {
        Some(fields[1])
    } else {
        None
    }
}

/// The suffix that tells a song from other articles of the same name.
pub open spec fn song_suffix() -> Seq<char> {
    " (song)"@
}

/// The suffix that tells a song of `artist` from other articles of the same name.
pub open spec fn artist_song_suffix(artist: Seq<char>) -> Seq<char> {
    " ("@ + artist + " song)"@
}

/// The suffix that tells an EP of `artist` from other articles of the same name.
pub open spec fn artist_ep_suffix(artist: Seq<char>) -> Seq<char> {
    " ("@ + artist + " EP)"@
}

/// `title` without the suffixes, taken out one kind after the other wherever
/// they stand: first that of a song, then, where the artist is known, that of
/// a song of the artist, then that of an EP of the artist.
pub open spec fn stripped(title: Seq<char>, artist: Option<Seq<char>>) -> Seq<char> {
    let bare = remove_all(title, song_suffix());
    match artist {
        None => bare,
        Some(a) => remove_all(remove_all(bare, artist_song_suffix(a)), artist_ep_suffix(a)),
    }
}

/// The title of the track whose row reads `raw`: `None` where `raw` holds no
/// quoted title.
pub open spec fn normalized(raw: Seq<char>, artist: Option<Seq<char>>) -> Option<Seq<char>> {
    match quoted(raw) {
        Some(title) => Some(stripped(title, artist)),
        None => None,
    }
}

/// The titles of the tracks whose rows read `rows`, in the same order:
/// `None` where a row holds no quoted title.
pub open spec fn normalized_all(rows: Seq<Seq<char>>, artist: Option<Seq<char>>) -> Option<
    Seq<Seq<char>>,
>
    decreases rows.len(),
{
    if rows.len() == 0 {
        Some(Seq::empty())
    } else {
        match (normalized(rows[0], artist), normalized_all(rows.drop_first(), artist)) {
            (Some(first), Some(rest)) => Some(seq![first] + rest),
            _ => None,
        }
    }
}

/// The view of a text that may be absent.
pub open spec fn optional_view(text: Option<&str>) -> Option<Seq<char>> {
    match text {
        Some(t) => Some(t@),
        None => None,
    }
}

/// `raw` holds two quotes or more.
pub open spec fn has_two_quotes(raw: Seq<char>) -> bool {
    exists|i: int, j: int|
        #![trigger raw[i], raw[j]]
        0 <= i < j < raw.len() && raw[i] == '"' && raw[j] == '"'
}

/// A quote stands at `at` exactly where the one-character pattern of a quote does.
proof fn lemma_quote_at(raw: Seq<char>, at: int)
    ensures
        occurs_at(raw, quote(), at) <==> (0 <= at < raw.len() && raw[at] == '"'),
{
    if 0 <= at < raw.len() {
        if raw[at] == '"' {
            assert(raw.subrange(at, at + 1) =~= quote());
        } else {
            assert(raw.subrange(at, at + 1)[0] == raw[at]);
        }
    }
}

/// Cutting a text gives at least one field.
pub proof fn lemma_fields_nonempty(text: Seq<char>, separator: Seq<char>, from: int)
    requires
        0 <= from,
    ensures
        fields_from(text, separator, from).len() >= 1,
    decreases text.len() - from,
{
    if separator.len() > 0 {
        lemma_find_from(text, separator, from);
        match find_from(text, separator, from) {
            None => {},
            Some(at) => {
                lemma_fields_nonempty(text, separator, at + separator.len());
            },
        }
    }
}

/// A text holds a quoted title exactly where it holds two quotes or more.
pub proof fn lemma_quoted_iff_two_quotes(raw: Seq<char>)
    ensures
        quoted(raw) is Some <==> has_two_quotes(raw),
{
    let q = quote();
    assert(q.len() == 1);
    lemma_find_from(raw, q, 0);
    match find_from(raw, q, 0) {
        None => {
            assert(split(raw, q).len() == 1);
            if has_two_quotes(raw) {
                let (i, j) = choose|i: int, j: int|
                    #![trigger raw[i], raw[j]]
                    0 <= i < j < raw.len() && raw[i] == '"' && raw[j] == '"';
                lemma_quote_at(raw, i);
            }
        },
        Some(first) => {
            let after = fields_from(raw, q, first + 1);
            assert(split(raw, q) == seq![raw.subrange(0, first)] + after);
            lemma_quote_at(raw, first);
            lemma_find_from(raw, q, first + 1);
            match find_from(raw, q, first + 1) {
                None => {
                    assert(after.len() == 1);
                    if has_two_quotes(raw) {
                        let (i, j) = choose|i: int, j: int|
                            #![trigger raw[i], raw[j]]
                            0 <= i < j < raw.len() && raw[i] == '"' && raw[j] == '"';
                        lemma_quote_at(raw, i);
                        lemma_quote_at(raw, j);
                    }
                },
                Some(second) => {
                    lemma_quote_at(raw, second);
                    lemma_fields_nonempty(raw, q, second + 1);
                    assert(after == seq![raw.subrange(first + 1, second)] + fields_from(
                        raw,
                        q,
                        second + 1,
                    ));
                    assert(raw[first] == '"' && raw[second] == '"');
                },
            }
        },
    }
}

/// A quoted title holds no quote.
pub proof fn lemma_quoted_has_no_quote(raw: Seq<char>)
    requires
        quoted(raw) is Some,
    ensures
        !quoted(raw).unwrap().contains('"'),
{
    let q = quote();
    lemma_find_from(raw, q, 0);
    let first = find_from(raw, q, 0).unwrap();
    lemma_find_from(raw, q, first + 1);
    let second = find_from(raw, q, first + 1).unwrap();
    let title = raw.subrange(first + 1, second);
    assert(fields_from(raw, q, first + 1)[0] == title);
    assert(quoted(raw).unwrap() == title);
    if title.contains('"') {
        let i = choose|i: int| 0 <= i < title.len() && title[i] == '"';
        assert(raw.subrange(first + 1 + i, first + 1 + i + 1) =~= q);
        assert(occurs_at(raw, q, first + 1 + i));
    }
}

/// A text without a quote holds no quoted title.
pub proof fn lemma_no_quote_no_title(raw: Seq<char>)
    requires
        !raw.contains('"'),
    ensures
        quoted(raw) is None,
{
    let q = quote();
    lemma_find_from(raw, q, 0);
    if find_from(raw, q, 0) is Some {
        let at = find_from(raw, q, 0).unwrap();
        assert(raw.subrange(at, at + 1)[0] == '"');
        assert(raw[at] == '"');
    }
}

/// A title that was normalized cannot be normalized again: it holds no quote.
pub proof fn lemma_normalized_once(
    raw: Seq<char>,
    artist: Option<Seq<char>>,
    again: Option<Seq<char>>,
)
    requires
        normalized(raw, artist) is Some,
    ensures
        !normalized(raw, artist).unwrap().contains('"'),
        normalized(normalized(raw, artist).unwrap(), again) is None,
{
    let title = quoted(raw).unwrap();
    let done = stripped(title, artist);
    lemma_quoted_has_no_quote(raw);
    if done.contains('"') {
        let bare = remove_all(title, song_suffix());
        match artist {
            None => {
                lemma_remove_all_keeps(title, song_suffix(), '"');
            },
            Some(a) => {
                let middle = remove_all(bare, artist_song_suffix(a));
                lemma_remove_all_keeps(middle, artist_ep_suffix(a), '"');
                lemma_remove_all_keeps(bare, artist_song_suffix(a), '"');
                lemma_remove_all_keeps(title, song_suffix(), '"');
            },
        }
    }
    lemma_no_quote_no_title(done);
}

/// What stands between the first and the second quote of `raw`.
pub fn quoted_title(raw: &Vec<char>) -> (title: Option<Vec<char>>)
    ensures
        match title {
            Some(t) => quoted(raw@) == Some(t@),
            None => quoted(raw@) is None,
        },
{
    let mut mark: Vec<char> = Vec::new();
    mark.push('"');
    assert(mark@ =~= quote());
    let mut fields = split_fields(raw, &mark);
    if fields.len() >= 3 {
        assert(views(fields@)[1] == fields@[1]@);
        Some(fields.swap_remove(1))
    } else {
        None
    }
}

/// The text made of `head`, `middle` and `tail`, in this order.
fn joined(head: &str, middle: &Vec<char>, tail: &str) -> (all: Vec<char>)
    ensures
        all@ == head@ + middle@ + tail@,
{
    let mut all = chars_of(head);
    push_all(&mut all, middle, 0, middle.len());
    assert(middle@.subrange(0, middle@.len() as int) == middle@);
    let last = chars_of(tail);
    push_all(&mut all, &last, 0, last.len());
    assert(last@.subrange(0, last@.len() as int) == last@);
    all
}

/// `title` without the suffixes that tell it from other articles.
pub fn strip_suffixes(title: &Vec<char>, artist: Option<&Vec<char>>) -> (bare: Vec<char>)
    ensures
        bare@ == stripped(
            title@,
            match artist {
                Some(a) => Some(a@),
                None => None,
            },
        ),
{
    let song = chars_of(" (song)");
    let bare = without(title, &song);
    match artist {
        None => bare,
        Some(a) => {
            let own_song = joined(" (", a, " song)");
            let own_ep = joined(" (", a, " EP)");
            let middle = without(&bare, &own_song);
            without(&middle, &own_ep)
        },
    }
}

/// There are as many titles as rows.
pub proof fn lemma_normalized_all_len(rows: Seq<Seq<char>>, artist: Option<Seq<char>>)
    requires
        normalized_all(rows, artist) is Some,
    ensures
        normalized_all(rows, artist).unwrap().len() == rows.len(),
    decreases rows.len(),
{
    if rows.len() > 0 {
        lemma_normalized_all_len(rows.drop_first(), artist);
    }
}

/// The title of the track whose row reads `raw`.
///
/// Fails with `MalformedTrackTitle` exactly where `raw` holds fewer than two quotes.
pub fn normalize_title(raw: &str, artist: Option<&str>) -> (title: Result<String, ExtractError>)
    ensures
        match title {
            Ok(t) => normalized(raw@, optional_view(artist)) == Some(t@),
            Err(e) => {
                &&& e@ == ErrorModel::MalformedTrackTitle
                &&& normalized(raw@, optional_view(artist)) is None
            },
        },
        title is Ok <==> has_two_quotes(raw@),
{
    proof {
        lemma_quoted_iff_two_quotes(raw@);
    }
    let text = chars_of(raw);
    match quoted_title(&text) {
        None => Err(ExtractError::MalformedTrackTitle),
        Some(title) => {
            let bare = match artist {
                None => strip_suffixes(&title, None),
                Some(a) => {
                    let known = chars_of(a);
                    strip_suffixes(&title, Some(&known))
                },
            };
            Ok(string_of(&bare))
        },
    }
}

/// The titles of the tracks whose rows read `rows`: `None` where a row holds
/// no quoted title.
pub fn normalize_all(rows: &Vec<String>, artist: Option<&str>) -> (titles: Option<Vec<String>>)
    ensures
        match titles {
            Some(t) => normalized_all(string_views(rows@), optional_view(artist)) == Some(
                string_views(t@),
            ),
            None => normalized_all(string_views(rows@), optional_view(artist)) is None,
        },
{
    let ghost all = string_views(rows@);
    let ghost known = optional_view(artist);
    let mut titles: Vec<String> = Vec::new();
    let mut i: usize = 0;
    assert(all.skip(0) == all);
    assert(string_views(titles@) =~= Seq::empty());
    proof {
        if normalized_all(all, known) is Some {
            assert(Seq::<Seq<char>>::empty() + normalized_all(all, known).unwrap()
                == normalized_all(all, known).unwrap());
        }
    }
    while i < rows.len()
        invariant
            i <= rows.len(),
            all == string_views(rows@),
            known == optional_view(artist),
            normalized_all(all, known) == match normalized_all(all.skip(i as int), known) {
                Some(rest) => Some(string_views(titles@) + rest),
                None => None,
            },
        decreases rows.len() - i,
    {
        let ghost rest = all.skip(i as int);
        let ghost before = string_views(titles@);
        assert(rest[0] == rows@[i as int]@);
        assert(rest.drop_first() == all.skip(i + 1));
        match normalize_title(rows[i].as_str(), artist) {
            Err(_) => {
                return None;
            },
            Ok(title) => {
                titles.push(title);
                proof {
                    assert(string_views(titles@) =~= before + seq![title@]);
                    if normalized_all(rest.drop_first(), known) is Some {
                        let tail = normalized_all(rest.drop_first(), known).unwrap();
                        assert(before + (seq![title@] + tail) == (before + seq![title@]) + tail);
                    }
                }
            },
        }
        i += 1;
    }
    assert(string_views(titles@) + Seq::<Seq<char>>::empty() == string_views(titles@));
    Some(titles)
}

} // verus!
