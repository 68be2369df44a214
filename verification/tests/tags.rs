use metaflac::block::VorbisComment;
use musee::audio::{
    canonical_destination, canonicalize, track_from_fields, EmbeddedLyrics, TagUpdates,
    TrackMetadata,
};
use musee::lyric_tags::{extract_embedded_lyrics, is_lyric_tag, normalize_lrc_text};
use musee::path::FilePath;
use musee::tags::{
    apply_updates, apply_updates_and_remove_lyrics, first_text, read_genre, read_track, set_field,
    write_genre,
};

fn path(text: &str) -> FilePath {
    FilePath::from_text(text)
}

fn updates(albumartist: Option<&str>, genre: Option<&str>) -> TagUpdates {
    TagUpdates {
        albumartist: albumartist.map(str::to_string),
        genre: genre.map(str::to_string),
        ..TagUpdates::default()
    }
}

fn values(comments: &VorbisComment, key: &str) -> Vec<String> {
    comments.get(key).cloned().unwrap_or_default()
}

#[test]
fn recognizes_common_lyric_tag_names_only() {
    assert!(is_lyric_tag("LYRICS"));
    assert!(is_lyric_tag("unsynced lyrics"));
    assert!(is_lyric_tag("WM/LYRICS"));
    assert!(!is_lyric_tag("LYRICIST"));
    assert!(!is_lyric_tag("LYRICS_LANGUAGE"));
}

#[test]
fn extracts_every_lyric_value_deterministically() {
    let mut comments = VorbisComment::new();
    comments.set("UNSYNCEDLYRICS", vec!["plain\r\nlyrics"]);
    comments.set("LYRICS", vec!["[00:01.00]timed", "plain\r\nlyrics"]);
    comments.set("ARTIST", vec!["Artist"]);

    let lyrics = extract_embedded_lyrics(Some(&comments));

    assert_eq!(lyrics.tag_keys, vec!["LYRICS", "UNSYNCEDLYRICS"]);
    assert_eq!(lyrics.content, "[00:01.00]timed\n\nplain\nlyrics\n");
}

#[test]
fn every_documented_lyric_key_is_extracted() {
    let mut comments = VorbisComment::new();
    comments.set("SYNCEDLYRICS", vec!["c"]);
    comments.set("LYRIC", vec!["a", " \r\n"]);
    comments.set("LYRICS", vec!["b"]);
    comments.set("UNSYNCEDLYRICS", vec!["d\n", "a"]);
    let lyrics = extract_embedded_lyrics(Some(&comments));
    assert_eq!(lyrics.tag_keys, vec!["LYRIC", "LYRICS", "SYNCEDLYRICS", "UNSYNCEDLYRICS"]);
    assert_eq!(lyrics.content, "a\n\nb\n\nc\n\nd\n");
    assert!(lyrics.has_tags());
}

#[test]
fn blank_lyrics_leave_keys_without_content() {
    let mut comments = VorbisComment::new();
    comments.set("LYRICS", vec![" \r\n "]);
    let lyrics = extract_embedded_lyrics(Some(&comments));
    assert_eq!(lyrics.tag_keys, vec!["LYRICS"]);
    assert_eq!(lyrics.content, "");
    let none = extract_embedded_lyrics(None);
    assert!(!none.has_tags());
    assert_eq!(none.content, "");
    assert!(!EmbeddedLyrics::default().has_tags());
}

#[test]
fn lyric_text_has_unified_lines() {
    assert_eq!(normalize_lrc_text("\r\n a\rb\r\nc \n\n"), " a\nb\nc ");
    assert_eq!(normalize_lrc_text("\r\r\n"), "");
    let once = normalize_lrc_text("\r\n a\rb\r\nc \n\n");
    assert_eq!(normalize_lrc_text(&once), once);
}

#[test]
fn the_first_filled_value_counts() {
    let mut comments = VorbisComment::new();
    comments.set("TITLE", vec![" ", " Song ", "Other"]);
    assert_eq!(first_text(Some(&comments), "TITLE"), "Song");
    assert_eq!(first_text(Some(&comments), "title"), "Song");
    assert_eq!(first_text(Some(&comments), "artist"), "");
    assert_eq!(first_text(None, "TITLE"), "");
}

#[test]
fn missing_fields_are_filled_in() {
    let mut comments = VorbisComment::new();
    comments.set("ALBUMARTIST", vec!["Band"]);
    comments.set("TRACKNUMBER", vec![" 3 "]);
    let track = read_track(&path("/music/Dir/07 Song.flac"), Some(&comments));
    assert_eq!(track.albumartist, "Band");
    assert_eq!(track.artist, "Band");
    assert_eq!(track.album, "");
    assert_eq!(track.title, "07 Song");
    assert_eq!(track.tracknumber.as_deref(), Some("3"));

    let bare = read_track(&path("/music/Dir/07 Song.flac"), None);
    assert_eq!(bare.albumartist, "Dir");
    assert_eq!(bare.artist, "Dir");
    assert_eq!(bare.tracknumber, None);

    let lost = track_from_fields(
        &path("/"),
        String::new(),
        String::new(),
        String::new(),
        " ".to_string(),
        Some(" ".to_string()),
    );
    assert_eq!(lost.artist, "Unknown");
    assert_eq!(lost.title, "Unknown");
    assert_eq!(lost.tracknumber, None);
}

#[test]
fn genres_are_read_and_written() {
    let mut comments = VorbisComment::new();
    assert_eq!(read_genre(Some(&comments)), None);
    assert_eq!(read_genre(None), None);
    assert!(write_genre(&mut comments, "Jazz"));
    assert!(!write_genre(&mut comments, "Jazz"));
    assert_eq!(read_genre(Some(&comments)).as_deref(), Some("Jazz"));
    assert_eq!(values(&comments, "GENRE"), vec!["Jazz"]);
    assert!(write_genre(&mut comments, "Rock"));
    assert_eq!(values(&comments, "GENRE"), vec!["Rock"]);
    assert!(write_genre(&mut comments, " Folk "));
    assert_eq!(read_genre(Some(&comments)).as_deref(), Some("Folk"));
}

#[test]
fn setting_a_field_drops_further_values() {
    let mut comments = VorbisComment::new();
    comments.set("ARTIST", vec!["One", "Two"]);
    assert!(!set_field(&mut comments, "ARTIST", Some("One")));
    assert_eq!(values(&comments, "ARTIST"), vec!["One", "Two"]);
    assert!(set_field(&mut comments, "ARTIST", Some("Two")));
    assert_eq!(values(&comments, "ARTIST"), vec!["Two"]);
    assert!(!set_field(&mut comments, "ARTIST", None));
}

#[test]
fn updates_settle_and_touch_only_their_keys() {
    let mut comments = VorbisComment::new();
    comments.set("ALBUMARTIST", vec!["A & B"]);
    comments.set("COMMENT", vec!["kept"]);
    let change = updates(Some("A"), Some("Soul"));
    assert!(!change.is_empty());
    assert!(apply_updates(&mut comments, &change));
    assert!(!apply_updates(&mut comments, &change));
    assert_eq!(values(&comments, "ALBUMARTIST"), vec!["A"]);
    assert_eq!(values(&comments, "GENRE"), vec!["Soul"]);
    assert_eq!(values(&comments, "COMMENT"), vec!["kept"]);
    let none = TagUpdates::default();
    assert!(none.is_empty());
    assert!(!apply_updates(&mut comments, &none));
}

#[test]
fn every_update_writes_its_own_tag() {
    let mut comments = VorbisComment::new();
    let all = TagUpdates {
        albumartist: Some("1".to_string()),
        artist: Some("2".to_string()),
        album: Some("3".to_string()),
        genre: Some("4".to_string()),
        title: Some("5".to_string()),
    };
    assert!(apply_updates(&mut comments, &all));
    assert_eq!(values(&comments, "ALBUMARTIST"), vec!["1"]);
    assert_eq!(values(&comments, "ARTIST"), vec!["2"]);
    assert_eq!(values(&comments, "ALBUM"), vec!["3"]);
    assert_eq!(values(&comments, "GENRE"), vec!["4"]);
    assert_eq!(values(&comments, "TITLE"), vec!["5"]);
}

#[test]
fn lyric_tags_are_removed_and_others_kept() {
    let mut comments = VorbisComment::new();
    comments.set("LYRICS", vec!["la"]);
    comments.set("WM/LYRICS", vec!["la la"]);
    comments.set("LYRICIST", vec!["Someone"]);
    let lyrics = extract_embedded_lyrics(Some(&comments));
    let none = TagUpdates::default();
    assert!(apply_updates_and_remove_lyrics(&mut comments, &none, &lyrics.tag_keys));
    assert!(comments.get("LYRICS").is_none());
    assert!(comments.get("WM/LYRICS").is_none());
    assert_eq!(values(&comments, "LYRICIST"), vec!["Someone"]);
    assert!(!apply_updates_and_remove_lyrics(&mut comments, &none, &lyrics.tag_keys));
    assert!(!extract_embedded_lyrics(Some(&comments)).has_tags());
}

#[test]
fn tracks_are_filed_by_artist_and_album() {
    let track = TrackMetadata {
        albumartist: "Kanye West feat. Guest".to_string(),
        artist: "Kanye West".to_string(),
        album: "AC/DC: Live.".to_string(),
        title: "Intro/Outro".to_string(),
        tracknumber: Some("1/12".to_string()),
    };
    let filed = canonicalize(&track);
    assert_eq!(filed.albumartist, "Ye");
    assert_eq!(filed.album, "AC/DC: Live");
    assert_eq!(filed.track_prefix.as_deref(), Some("112"));
    assert_eq!(filed.tag_updates.albumartist.as_deref(), Some("Ye"));
    assert_eq!(filed.tag_updates.artist, None);
    assert!(canonical_destination(&path("/srv"), &filed, ".flac")
        .is_same(&path("/srv/Ye/AC-DC: Live/112 - Intro-Outro.flac")));
}

#[test]
fn tracks_without_an_album_are_kept_together() {
    let track = TrackMetadata {
        albumartist: "Artist".to_string(),
        artist: "Artist".to_string(),
        album: String::new(),
        title: "Song".to_string(),
        tracknumber: Some("4".to_string()),
    };
    let filed = canonicalize(&track);
    assert!(filed.tag_updates.is_empty());
    assert_eq!(filed.track_prefix.as_deref(), Some("04"));
    assert!(canonical_destination(&path("Music"), &filed, ".mp3")
        .is_same(&path("Music/Non-Album/Artist/Song.mp3")));
}
