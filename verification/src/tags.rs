//! Reading and rewriting the tags of a file.

use metaflac::block::VorbisComment;
use vstd::prelude::*;

use crate::audio;
use crate::audio::{
    track_from_fields, LyricsView, TagUpdates, TrackMetadata, TrackView, UpdatesView,
};
use crate::chars;
use crate::comments;
use crate::comments::{comment_list, comment_remove, comment_set};
use crate::lyric_tags;
use crate::path;
use crate::path::FilePath;
use crate::strings;
use crate::strings::{same_text, to_upper_text, trimmed, CharSet};

verus! {

/// The first of `values` that is not blank, without white space at its ends; an
/// empty text if there is none.
pub open spec fn first_filled(values: Seq<Seq<char>>) -> Seq<char>
    decreases values.len(),
{
    if values.len() == 0 {
        Seq::empty()
    } else if strings::trim_both(values[0], CharSet::Space).len() > 0 {
        strings::trim_both(values[0], CharSet::Space)
    } else {
        first_filled(values.skip(1))
    }
}

/// The text filed under `key`, whose ASCII letters are read as capitals.
pub open spec fn tag_text(
    values: Map<Seq<char>, Seq<Seq<char>>>,
    key: Seq<char>,
) -> Seq<char> {
    let filed = strings::upper_text(key);
    if values.contains_key(filed) {
        first_filled(values[filed])
    } else {
        Seq::empty()
    }
}

/// The text filed under a key of a comment block, in capital or small letters.
pub fn first_text(comments: Option<&VorbisComment>, key: &str) -> (res: String)
    ensures
        res@ == tag_text(comments::block_values(comments), key@),
{
    let block = match comments {
        Some(block) => block,
        None => {
            return String::new();
        },
    };
    let values = match comment_list(block, &to_upper_text(key)) {
        Some(values) => values,
        None => {
            return String::new();
        },
    };
    let count = values.len();
    let ghost views = strings::text_views(values@);
    assert(views.skip(0) == views);
    for i in 0..count
        invariant
            count == values.len(),
            views == strings::text_views(values@),
            tag_text(comments::block_values(comments), key@) == first_filled(views.skip(i as int)),
    {
        assert(views.skip(i as int)[0] == values@[i as int]@);
        assert(views.skip(i as int).skip(1) == views.skip(i + 1));
        let text = trimmed(&values[i], CharSet::Space);
        if !text.as_str().is_empty() {
            return text;
        }
    }
    String::new()
}

/// The metadata that the comment block of the file at `path` gives.
pub open spec fn tagged_track(
    path: Seq<path::PartView>,
    values: Map<Seq<char>, Seq<Seq<char>>>,
) -> TrackView {
    audio::filled_track(
        path,
        tag_text(values, "ALBUMARTIST"@),
        tag_text(values, "ARTIST"@),
        tag_text(values, "ALBUM"@),
        tag_text(values, "TITLE"@),
        Some(tag_text(values, "TRACKNUMBER"@)),
    )
}

/// The metadata that the comment block of the file at `path` gives.
pub fn read_track(path: &FilePath, comments: Option<&VorbisComment>) -> (res: TrackMetadata)
    ensures
        res@ == tagged_track(path@, comments::block_values(comments)),
{
    track_from_fields(
        path,
        first_text(comments, "ALBUMARTIST"),
        first_text(comments, "ARTIST"),
        first_text(comments, "ALBUM"),
        first_text(comments, "TITLE"),
        Some(first_text(comments, "TRACKNUMBER")),
    )
}

/// The genre that a comment block gives, if any.
pub open spec fn tagged_genre(values: Map<Seq<char>, Seq<Seq<char>>>) -> Option<Seq<char>> {
    let genre = tag_text(values, "GENRE"@);
    if genre.len() == 0 {
        None
    } else {
        Some(genre)
    }
}

/// The genre that a comment block gives, if any.
pub fn read_genre(comments: Option<&VorbisComment>) -> (res: Option<String>)
    ensures
        strings::text_opt(res) == tagged_genre(comments::block_values(comments)),
{
    let genre = first_text(comments, "GENRE");
    if genre.as_str().is_empty() {
        None
    } else {
        Some(genre)
    }
}

/// Whether giving `key` the value `value`, if any, changes what is filed: the
/// first value under the key is another one.
pub open spec fn field_changes(
    values: Map<Seq<char>, Seq<Seq<char>>>,
    key: Seq<char>,
    value: Option<Seq<char>>,
) -> bool {
    match value {
        Some(value) => !(values.contains_key(key) && values[key].len() > 0 && values[key][0]
            == value),
        None => false,
    }
}

/// `values` with `value`, if it is a change, as the one value under `key`.
pub open spec fn field_set(
    values: Map<Seq<char>, Seq<Seq<char>>>,
    key: Seq<char>,
    value: Option<Seq<char>>,
) -> Map<Seq<char>, Seq<Seq<char>>> {
    if field_changes(values, key, value) {
        values.insert(key, seq![value->Some_0])
    } else {
        values
    }
}

/// Gives a key a value, and tells whether that was a change.
pub fn set_field(comments: &mut VorbisComment, key: &str, value: Option<&str>) -> (res: bool)
    ensures
        comments::comment_values(*final(comments)) == field_set(
            comments::comment_values(*old(comments)),
            key@,
            strings::str_opt(value),
        ),
        res == field_changes(
            comments::comment_values(*old(comments)),
            key@,
            strings::str_opt(value),
        ),
{
    let value = match value {
        Some(value) => value,
        None => {
            return false;
        },
    };
    let ghost before = comments::comment_values(*comments);
    let current = match comment_list(comments, key) {
        Some(values) => {
            assert(before[key@].len() == values@.len());
            if values.len() > 0 {
                assert(before[key@][0] == values@[0]@);
                same_text(&values[0], value)
            } else {
                false
            }
        },
        None => false,
    };
    if current {
        return false;
    }
    comment_remove(comments, key);
    let mut values: Vec<String> = Vec::new();
    values.push(value.to_string());
    assert(strings::text_views(values@) =~= seq![value@]);
    comment_set(comments, key.to_string(), values);
    assert(comments::comment_values(*comments) =~= before.insert(key@, seq![value@]));
    true
}

/// Writes the genre of a file, and tells whether that was a change.
pub fn write_genre(comments: &mut VorbisComment, genre: &str) -> (res: bool)
    ensures
        comments::comment_values(*final(comments)) == field_set(
            comments::comment_values(*old(comments)),
            "GENRE"@,
            Some(genre@),
        ),
        res == field_changes(comments::comment_values(*old(comments)), "GENRE"@, Some(genre@)),
{
    set_field(comments, "GENRE", Some(genre))
}

/// `values` after the updates.
pub open spec fn updated_values(
    values: Map<Seq<char>, Seq<Seq<char>>>,
    updates: UpdatesView,
) -> Map<Seq<char>, Seq<Seq<char>>> {
    let values = field_set(values, "ALBUMARTIST"@, updates.albumartist);
    let values = field_set(values, "ARTIST"@, updates.artist);
    let values = field_set(values, "ALBUM"@, updates.album);
    let values = field_set(values, "GENRE"@, updates.genre);
    field_set(values, "TITLE"@, updates.title)
}

/// Whether any of the updates changes what is filed.
pub open spec fn updates_change(
    values: Map<Seq<char>, Seq<Seq<char>>>,
    updates: UpdatesView,
) -> bool {
    ||| field_changes(values, "ALBUMARTIST"@, updates.albumartist)
    ||| field_changes(values, "ARTIST"@, updates.artist)
    ||| field_changes(values, "ALBUM"@, updates.album)
    ||| field_changes(values, "GENRE"@, updates.genre)
    ||| field_changes(values, "TITLE"@, updates.title)
}

/// The keys that updates write to.
pub open spec fn is_updated_key(key: Seq<char>) -> bool {
    ||| key == "ALBUMARTIST"@
    ||| key == "ARTIST"@
    ||| key == "ALBUM"@
    ||| key == "GENRE"@
    ||| key == "TITLE"@
}

proof fn lemma_updated_keys_differ()
    ensures
        "ALBUMARTIST"@ != "ARTIST"@,
        "ALBUMARTIST"@ != "ALBUM"@,
        "ALBUMARTIST"@ != "GENRE"@,
        "ALBUMARTIST"@ != "TITLE"@,
        "ARTIST"@ != "ALBUM"@,
        "ARTIST"@ != "GENRE"@,
        "ARTIST"@ != "TITLE"@,
        "ALBUM"@ != "GENRE"@,
        "ALBUM"@ != "TITLE"@,
        "GENRE"@ != "TITLE"@,
{
    reveal_strlit("ALBUMARTIST");
    reveal_strlit("ARTIST");
    reveal_strlit("ALBUM");
    reveal_strlit("GENRE");
    reveal_strlit("TITLE");
    assert("ALBUMARTIST"@.len() == 11 && "ARTIST"@.len() == 6 && "ALBUM"@.len() == 5);
    assert("GENRE"@.len() == 5 && "TITLE"@.len() == 5);
    assert("ALBUM"@[0] == 'A' && "GENRE"@[0] == 'G' && "TITLE"@[0] == 'T');
}

fn as_text(value: &Option<String>) -> (res: Option<&str>)
    ensures
        strings::str_opt(res) == strings::text_opt(*value),
{
    match value {
        Some(text) => Some(text.as_str()),
        None => None,
    }
}

/// Rewrites the tags that the updates name, and tells whether that was a change.
pub fn apply_updates(comments: &mut VorbisComment, updates: &TagUpdates) -> (res: bool)
    ensures
        comments::comment_values(*final(comments)) == updated_values(
            comments::comment_values(*old(comments)),
            updates@,
        ),
        res == updates_change(comments::comment_values(*old(comments)), updates@),
{
    proof {
        lemma_updated_keys_differ();
    }
    let albumartist = set_field(comments, "ALBUMARTIST", as_text(&updates.albumartist));
    let artist = set_field(comments, "ARTIST", as_text(&updates.artist));
    let album = set_field(comments, "ALBUM", as_text(&updates.album));
    let genre = set_field(comments, "GENRE", as_text(&updates.genre));
    let title = set_field(comments, "TITLE", as_text(&updates.title));
    albumartist || artist || album || genre || title
}

/// Rewrites the tags that the updates name, drops the given keys, and tells
/// whether that was a change.
pub fn apply_updates_and_remove_lyrics(
    comments: &mut VorbisComment,
    updates: &TagUpdates,
    keys: &Vec<String>,
) -> (res: bool)
    ensures
        ({
            let before = comments::comment_values(*old(comments));
            let updated = updated_values(before, updates@);
            let dropped = strings::text_views(keys@);
            &&& comments::comment_values(*final(comments)) == updated.remove_keys(dropped.to_set())
            &&& res == (updates_change(before, updates@) || exists|i: int|
                0 <= i < dropped.len() && updated.contains_key(#[trigger] dropped[i]))
        }),
{
    let mut changed = apply_updates(comments, updates);
    let ghost updated = comments::comment_values(*comments);
    let ghost rewritten = changed;
    let ghost dropped = strings::text_views(keys@);
    let count = keys.len();
    assert(updated.remove_keys(dropped.take(0).to_set()) =~= updated);
    for k in 0..count
        invariant
            count == keys.len(),
            dropped == strings::text_views(keys@),
            comments::comment_values(*comments) == updated.remove_keys(
                dropped.take(k as int).to_set(),
            ),
            changed == (rewritten || exists|i: int|
                0 <= i < k && updated.contains_key(#[trigger] dropped[i])),
    {
        let ghost before = comments::comment_values(*comments);
        let ghost gone = dropped.take(k as int);
        let ghost key = dropped[k as int];
        proof {
            assert(dropped.take(k + 1) =~= gone.push(key));
            assert forall|x: Seq<char>| dropped.take(k + 1).to_set().contains(x)
                == gone.to_set().insert(key).contains(x) by {
                if gone.contains(x) {
                    let m = choose|m: int| 0 <= m < gone.len() && gone[m] == x;
                    assert(dropped.take(k + 1)[m] == x);
                }
                assert(dropped.take(k + 1)[k as int] == key);
            }
            assert(dropped.take(k + 1).to_set() =~= gone.to_set().insert(key));
            assert(updated.remove_keys(gone.to_set().insert(key)) =~= before.remove(key));
            if gone.contains(key) {
                let m = choose|m: int| 0 <= m < gone.len() && gone[m] == key;
                assert(dropped[m] == key);
            }
        }
        if comment_list(comments, &keys[k]).is_some() {
            comment_remove(comments, &keys[k]);
            changed = true;
            assert(updated.contains_key(dropped[k as int]));
        } else {
            assert(before.remove(key) =~= before);
        }
    }
    assert(dropped.take(count as int) == dropped);
    changed
}

/// A genre that was written, unless it is blank, is read back without the white
/// space at its ends.
pub proof fn law_written_genre_is_read(values: Map<Seq<char>, Seq<Seq<char>>>, genre: Seq<char>)
    requires
        strings::trim_both(genre, CharSet::Space).len() > 0,
    ensures
        tagged_genre(field_set(values, "GENRE"@, Some(genre))) == Some(
            strings::trim_both(genre, CharSet::Space),
        ),
{
    reveal_strlit("GENRE");
    assert(strings::upper_text("GENRE"@) =~= "GENRE"@);
}

/// The same updates made a second time change nothing.
pub proof fn law_updates_settle(
    values: Map<Seq<char>, Seq<Seq<char>>>,
    updates: UpdatesView,
)
    ensures
        !updates_change(updated_values(values, updates), updates),
        updated_values(updated_values(values, updates), updates) == updated_values(values, updates),
{
    lemma_updated_keys_differ();
}

/// Updates that are empty change nothing.
pub proof fn law_no_updates_change_nothing(values: Map<Seq<char>, Seq<Seq<char>>>)
    ensures
        !updates_change(values, audio::no_updates()),
        updated_values(values, audio::no_updates()) == values,
{
}

/// Updates touch no key but those that they write to.
pub proof fn law_updates_touch_only_their_keys(
    values: Map<Seq<char>, Seq<Seq<char>>>,
    updates: UpdatesView,
    key: Seq<char>,
)
    requires
        !is_updated_key(key),
    ensures
        updated_values(values, updates).contains_key(key) == values.contains_key(key),
        values.contains_key(key) ==> updated_values(values, updates)[key] == values[key],
{
}

proof fn lemma_capitals_keep_form(key: Seq<char>)
    requires
        forall|i: int| 0 <= i < key.len() ==> chars::is_ascii_upper_char(#[trigger] key[i]),
    ensures
        lyric_tags::key_form(key) == key,
    decreases key.len(),
{
    reveal(Seq::filter);
    if key.len() > 0 {
        let rest = key.drop_last();
        assert forall|i: int| 0 <= i < rest.len() implies chars::is_ascii_upper_char(
            #[trigger] rest[i],
        ) by {
            assert(chars::is_ascii_upper_char(key[i]));
        }
        lemma_capitals_keep_form(rest);
        assert(chars::is_ascii_upper_char(key[key.len() - 1]));
        let word = |c: char| chars::is_ascii_word_char(c);
        assert(key.filter(word) == rest.filter(word).push(key.last()));
        assert(lyric_tags::key_form(key) =~= lyric_tags::key_form(rest).push(key.last()));
        assert(rest.push(key.last()) == key);
    } else {
        assert(lyric_tags::key_form(key) =~= key);
    }
}

proof fn lemma_updated_keys_are_no_lyric_keys(key: Seq<char>)
    requires
        is_updated_key(key),
    ensures
        !lyric_tags::is_lyric_key(key),
{
    reveal_strlit("ALBUMARTIST");
    reveal_strlit("ARTIST");
    reveal_strlit("ALBUM");
    reveal_strlit("GENRE");
    reveal_strlit("TITLE");
    reveal_strlit("LYRIC");
    reveal_strlit("LYRICS");
    reveal_strlit("SYNCEDLYRIC");
    reveal_strlit("SYNCEDLYRICS");
    reveal_strlit("UNSYNCEDLYRIC");
    reveal_strlit("UNSYNCEDLYRICS");
    reveal_strlit("WMLYRICS");
    assert forall|i: int| 0 <= i < key.len() implies chars::is_ascii_upper_char(
        #[trigger] key[i],
    ) by {}
    lemma_capitals_keep_form(key);
    assert(key[0] == 'A' || key[0] == 'G' || key[0] == 'T');
    assert("LYRIC"@[0] == 'L' && "LYRICS"@[0] == 'L' && "SYNCEDLYRIC"@[0] == 'S');
    assert("SYNCEDLYRICS"@[0] == 'S' && "UNSYNCEDLYRIC"@[0] == 'U');
    assert("UNSYNCEDLYRICS"@[0] == 'U' && "WMLYRICS"@[0] == 'W');
}

/// When the lyric keys found in a comment block are dropped after the updates,
/// no lyric tag is left, and every other tag that the updates do not name is as
/// it was.
pub proof fn law_lyric_tags_are_removed(
    values: Map<Seq<char>, Seq<Seq<char>>>,
    updates: UpdatesView,
    lyrics: LyricsView,
    key: Seq<char>,
)
    requires
        lyric_tags::are_lyrics_of(lyrics, values),
    ensures
        ({
            let after = updated_values(values, updates).remove_keys(lyrics.tag_keys.to_set());
            &&& lyric_tags::is_lyric_key(key) ==> !after.contains_key(key)
            &&& !lyric_tags::is_lyric_key(key) && !is_updated_key(key) ==> after.contains_key(key)
                == values.contains_key(key) && (values.contains_key(key) ==> after[key]
                == values[key])
        }),
{
    let updated = updated_values(values, updates);
    if is_updated_key(key) {
        lemma_updated_keys_are_no_lyric_keys(key);
    } else {
        law_updates_touch_only_their_keys(values, updates, key);
    }
    assert(lyrics.tag_keys.contains(key) <==> values.contains_key(key) && lyric_tags::is_lyric_key(key));
    assert(lyrics.tag_keys.to_set().contains(key) == lyrics.tag_keys.contains(key));
}

/// Of the values under a key the first that is not blank counts, without the white
/// space at its ends; if all are blank, none does.
pub proof fn law_first_filled_value(values: Seq<Seq<char>>, k: int)
    requires
        0 <= k <= values.len(),
        forall|i: int| 0 <= i < k ==> !audio::has_text(#[trigger] values[i]),
    ensures
        k < values.len() && audio::has_text(values[k]) ==> first_filled(values)
            == strings::trim_both(values[k], CharSet::Space),
        k == values.len() ==> first_filled(values) == Seq::<char>::empty(),
    decreases k,
{
    if values.len() > 0 {
        strings::law_blank_text(values[0]);
    }
    if k > 0 {
        assert(!audio::has_text(values[0]));
        let rest = values.skip(1);
        assert forall|i: int| 0 <= i < k - 1 implies !audio::has_text(#[trigger] rest[i]) by {
            assert(rest[i] == values[i + 1]);
        }
        law_first_filled_value(rest, k - 1);
    }
}

/// Each field of a track comes from the tag of its name; the album artist, artist,
/// title and track number as far as their tags are not blank.
pub proof fn law_fields_come_from_their_tags(
    path: Seq<path::PartView>,
    values: Map<Seq<char>, Seq<Seq<char>>>,
)
    ensures
        ({
            let track = tagged_track(path, values);
            let text = |key: Seq<char>|
                if values.contains_key(key) {
                    first_filled(values[key])
                } else {
                    Seq::empty()
                };
            &&& audio::has_text(text("ALBUMARTIST"@)) ==> track.albumartist == text(
                "ALBUMARTIST"@,
            )
            &&& audio::has_text(text("ARTIST"@)) ==> track.artist == text("ARTIST"@)
            &&& audio::has_text(text("TITLE"@)) ==> track.title == text("TITLE"@)
            &&& track.album == text("ALBUM"@)
            &&& track.tracknumber == if audio::has_text(text("TRACKNUMBER"@)) {
                Some(text("TRACKNUMBER"@))
            } else {
                None
            }
            &&& tagged_genre(values) == if text("GENRE"@).len() > 0 {
                Some(text("GENRE"@))
            } else {
                None
            }
        }),
{
    lemma_capitals("ALBUMARTIST"@);
    lemma_capitals("ARTIST"@);
    lemma_capitals("TITLE"@);
    lemma_capitals("ALBUM"@);
    lemma_capitals("TRACKNUMBER"@);
    lemma_capitals("GENRE"@);
    reveal_strlit("ALBUMARTIST");
    reveal_strlit("ARTIST");
    reveal_strlit("TITLE");
    reveal_strlit("ALBUM");
    reveal_strlit("TRACKNUMBER");
    reveal_strlit("GENRE");
    audio::law_given_fields_are_kept(
        path,
        tag_text(values, "ALBUMARTIST"@),
        tag_text(values, "ARTIST"@),
        tag_text(values, "ALBUM"@),
        tag_text(values, "TITLE"@),
        Some(tag_text(values, "TRACKNUMBER"@)),
    );
}

proof fn lemma_capitals(key: Seq<char>)
    ensures
        (forall|i: int| 0 <= i < key.len() ==> 'A' <= #[trigger] key[i] <= 'Z')
            ==> strings::upper_text(key) == key,
{
    if forall|i: int| 0 <= i < key.len() ==> 'A' <= #[trigger] key[i] <= 'Z' {
        assert forall|i: int| 0 <= i < key.len() implies strings::upper_text(key)[i] == key[i] by {
            chars::law_ascii_classes(key[i]);
        }
        assert(strings::upper_text(key) =~= key);
    }
}

/// Whether `value` is filed first under `key`.
pub open spec fn is_filed(
    values: Map<Seq<char>, Seq<Seq<char>>>,
    key: Seq<char>,
    value: Seq<char>,
) -> bool {
    values.contains_key(key) && values[key].len() > 0 && values[key][0] == value
}

/// Every update that has a value writes it to the tag of its name: it is filed
/// first there afterwards, and alone unless it was filed first before. An update
/// without a value leaves its tag alone. Something changes exactly if one of the
/// values was not filed first before.
pub proof fn law_updates_are_written(
    values: Map<Seq<char>, Seq<Seq<char>>>,
    updates: UpdatesView,
    key: Seq<char>,
    value: Option<Seq<char>>,
)
    requires
        (key == "ALBUMARTIST"@ && value == updates.albumartist) || (key == "ARTIST"@ && value
            == updates.artist) || (key == "ALBUM"@ && value == updates.album) || (key == "GENRE"@
            && value == updates.genre) || (key == "TITLE"@ && value == updates.title),
    ensures
        ({
            let after = updated_values(values, updates);
            match value {
                Some(value) => {
                    &&& is_filed(after, key, value)
                    &&& !is_filed(values, key, value) ==> after[key] == seq![value]
                    &&& is_filed(values, key, value) ==> after[key] == values[key]
                    &&& !is_filed(values, key, value) ==> updates_change(values, updates)
                },
                None => after.contains_key(key) == values.contains_key(key) && (
                values.contains_key(key) ==> after[key] == values[key]),
            }
        }),
        updates_change(values, updates) ==> {
            ||| updates.albumartist matches Some(v) && !is_filed(values, "ALBUMARTIST"@, v)
            ||| updates.artist matches Some(v) && !is_filed(values, "ARTIST"@, v)
            ||| updates.album matches Some(v) && !is_filed(values, "ALBUM"@, v)
            ||| updates.genre matches Some(v) && !is_filed(values, "GENRE"@, v)
            ||| updates.title matches Some(v) && !is_filed(values, "TITLE"@, v)
        },
{
    lemma_updated_keys_differ();
}

/// Whether a key is written in capital or small letters makes no difference to what
/// is read under it: the value is filed under capital letters.
pub proof fn law_keys_are_read_in_capitals(
    values: Map<Seq<char>, Seq<Seq<char>>>,
    key: Seq<char>,
)
    ensures
        tag_text(values, key) == tag_text(values, strings::upper_text(key)),
        tag_text(values, key) == tag_text(values, strings::lower_text(key)),
{
    let upper = strings::upper_text(key);
    let lower = strings::lower_text(key);
    assert forall|i: int| 0 <= i < key.len() implies strings::upper_text(upper)[i] == upper[i]
        && strings::upper_text(lower)[i] == upper[i] by {
        let c = key[i];
        if chars::is_ascii_lower_char(c) {
            assert(!chars::is_ascii_lower_char((c as u32 - 32) as char));
        }
        if chars::is_ascii_upper_char(c) {
            assert(chars::is_ascii_lower_char((c as u32 + 32) as char));
            assert(((c as u32 + 32) as char) as u32 == c as u32 + 32);
            assert(((c as u32) as char) == c);
        }
    }
    assert(strings::upper_text(upper) =~= upper);
    assert(strings::upper_text(lower) =~= upper);
}

} // verus!
