//! Track metadata, and the names that follow from it.

use vstd::prelude::*;

use crate::chars;
use crate::numbers;
use crate::path;
use crate::path::FilePath;
use crate::strings;
use crate::strings::{concat, is_blank_text, same_text};
use crate::text;
use crate::text::{canonical_primary_artist, normalize_text, safe_name, track_prefix};

verus! {

/// What the tags of a track say.
#[derive(Debug)]
pub struct TrackMetadata {
    pub albumartist: String,
    pub artist: String,
    pub album: String,
    pub title: String,
    pub tracknumber: Option<String>,
}

/// What the tags of a track say, as text.
pub struct TrackView {
    pub albumartist: Seq<char>,
    pub artist: Seq<char>,
    pub album: Seq<char>,
    pub title: Seq<char>,
    pub tracknumber: Option<Seq<char>>,
}

impl View for TrackMetadata {
    type V = TrackView;

    open spec fn view(&self) -> TrackView {
        TrackView {
            albumartist: self.albumartist@,
            artist: self.artist@,
            album: self.album@,
            title: self.title@,
            tracknumber: strings::text_opt(self.tracknumber),
        }
    }
}

impl Clone for TrackMetadata {
    fn clone(&self) -> (res: Self)
        ensures
            res@ == self@,
    {
        TrackMetadata {
            albumartist: self.albumartist.clone(),
            artist: self.artist.clone(),
            album: self.album.clone(),
            title: self.title.clone(),
            tracknumber: strings::clone_opt(&self.tracknumber),
        }
    }
}

/// Lyrics found in the tags of a file.
#[derive(Debug)]
pub struct EmbeddedLyrics {
    /// The keys that the lyrics are filed under.
    pub tag_keys: Vec<String>,
    /// What a lyrics file made of them holds.
    pub content: String,
}

/// Lyrics found in the tags of a file, as text.
pub struct LyricsView {
    pub tag_keys: Seq<Seq<char>>,
    pub content: Seq<char>,
}

impl View for EmbeddedLyrics {
    type V = LyricsView;

    open spec fn view(&self) -> LyricsView {
        LyricsView { tag_keys: strings::text_views(self.tag_keys@), content: self.content@ }
    }
}

impl Clone for EmbeddedLyrics {
    fn clone(&self) -> (res: Self)
        ensures
            res@ == self@,
    {
        EmbeddedLyrics {
            tag_keys: strings::clone_texts(&self.tag_keys),
            content: self.content.clone(),
        }
    }
}

impl Default for EmbeddedLyrics {
    fn default() -> (res: Self)
        ensures
            res@.tag_keys == Seq::<Seq<char>>::empty(),
            res@.content == Seq::<char>::empty(),
    {
        let res = EmbeddedLyrics { tag_keys: Vec::new(), content: String::new() };
        assert(res@.tag_keys =~= Seq::empty());
        res
    }
}

impl EmbeddedLyrics {
    /// Whether any tag holds lyrics.
    pub fn has_tags(&self) -> (res: bool)
        ensures
            res == (self@.tag_keys.len() > 0),
    {
        self.tag_keys.len() > 0
    }
}

/// New values for some of the tags of a file.
#[derive(Debug)]
pub struct TagUpdates {
    pub albumartist: Option<String>,
    pub artist: Option<String>,
    pub album: Option<String>,
    pub genre: Option<String>,
    pub title: Option<String>,
}

/// New values for some of the tags of a file, as text.
pub struct UpdatesView {
    pub albumartist: Option<Seq<char>>,
    pub artist: Option<Seq<char>>,
    pub album: Option<Seq<char>>,
    pub genre: Option<Seq<char>>,
    pub title: Option<Seq<char>>,
}

impl View for TagUpdates {
    type V = UpdatesView;

    open spec fn view(&self) -> UpdatesView {
        UpdatesView {
            albumartist: strings::text_opt(self.albumartist),
            artist: strings::text_opt(self.artist),
            album: strings::text_opt(self.album),
            genre: strings::text_opt(self.genre),
            title: strings::text_opt(self.title),
        }
    }
}

/// No tag changes.
pub open spec fn no_updates() -> UpdatesView {
    UpdatesView { albumartist: None, artist: None, album: None, genre: None, title: None }
}

impl Clone for TagUpdates {
    fn clone(&self) -> (res: Self)
        ensures
            res@ == self@,
    {
        TagUpdates {
            albumartist: strings::clone_opt(&self.albumartist),
            artist: strings::clone_opt(&self.artist),
            album: strings::clone_opt(&self.album),
            genre: strings::clone_opt(&self.genre),
            title: strings::clone_opt(&self.title),
        }
    }
}

impl Default for TagUpdates {
    fn default() -> (res: Self)
        ensures
            res@ == no_updates(),
    {
        TagUpdates { albumartist: None, artist: None, album: None, genre: None, title: None }
    }
}

impl TagUpdates {
    /// Whether no tag changes.
    pub fn is_empty(&self) -> (res: bool)
        ensures
            res == (self@ == no_updates()),
    {
        self.albumartist.is_none() && self.artist.is_none() && self.album.is_none()
            && self.genre.is_none() && self.title.is_none()
    }
}

/// A track under the names by which it is filed.
#[derive(Debug)]
pub struct CanonicalTrack {
    pub albumartist: String,
    pub album: String,
    pub title: String,
    pub track_prefix: Option<String>,
    pub tag_updates: TagUpdates,
}

/// A track under the names by which it is filed, as text.
pub struct CanonicalView {
    pub albumartist: Seq<char>,
    pub album: Seq<char>,
    pub title: Seq<char>,
    pub track_prefix: Option<Seq<char>>,
    pub tag_updates: UpdatesView,
}

impl View for CanonicalTrack {
    type V = CanonicalView;

    open spec fn view(&self) -> CanonicalView {
        CanonicalView {
            albumartist: self.albumartist@,
            album: self.album@,
            title: self.title@,
            track_prefix: strings::text_opt(self.track_prefix),
            tag_updates: self.tag_updates@,
        }
    }
}

impl Clone for CanonicalTrack {
    fn clone(&self) -> (res: Self)
        ensures
            res@ == self@,
    {
        CanonicalTrack {
            albumartist: self.albumartist.clone(),
            album: self.album.clone(),
            title: self.title.clone(),
            track_prefix: strings::clone_opt(&self.track_prefix),
            tag_updates: self.tag_updates.clone(),
        }
    }
}

/// A text, or `Unknown` where there is none.
pub open spec fn or_unknown(name: Option<Seq<char>>) -> Seq<char> {
    match name {
        Some(name) => name,
        None => "Unknown"@,
    }
}

/// The name of the directory that a path lies in, if it is text.
pub open spec fn directory_name(path: Seq<path::PartView>) -> Option<Seq<char>> {
    match path::parent_of(path) {
        Some(parent) => path::bytes_opt_text(path::name_of(parent)),
        None => None,
    }
}

/// The metadata of a track with missing fields filled in: a title from the file
/// name, an artist from the album artist or else the directory, an album artist
/// from the artist, and no blank track number.
pub open spec fn filled_track(
    path: Seq<path::PartView>,
    albumartist: Seq<char>,
    artist: Seq<char>,
    album: Seq<char>,
    title: Seq<char>,
    tracknumber: Option<Seq<char>>,
) -> TrackView {
    let filled_artist = if !strings::is_blank(artist) {
        artist
    } else if !strings::is_blank(albumartist) {
        albumartist
    } else {
        or_unknown(directory_name(path))
    };
    TrackView {
        albumartist: if strings::is_blank(albumartist) {
            filled_artist
        } else {
            albumartist
        },
        artist: filled_artist,
        album,
        title: if strings::is_blank(title) {
            or_unknown(path::bytes_opt_text(path::stem_of(path)))
        } else {
            title
        },
        tracknumber: match tracknumber {
            Some(value) => if strings::is_blank(value) {
                None
            } else {
                Some(value)
            },
            None => None,
        },
    }
}

fn text_or_unknown(name: Option<String>) -> (res: String)
    ensures
        res@ == or_unknown(strings::text_opt(name)),
{
    match name {
        Some(name) => name,
        None => "Unknown".to_string(),
    }
}

/// The metadata of a track, with missing fields filled in from its path.
pub fn track_from_fields(
    path: &FilePath,
    albumartist: String,
    artist: String,
    album: String,
    title: String,
    tracknumber: Option<String>,
) -> (res: TrackMetadata)
    ensures
        res@ == filled_track(
            path@,
            albumartist@,
            artist@,
            album@,
            title@,
            strings::text_opt(tracknumber),
        ),
{
    let title = if is_blank_text(&title) {
        text_or_unknown(path.file_stem_text())
    } else {
        title
    };

    let artist = if is_blank_text(&artist) {
        if is_blank_text(&albumartist) {
            text_or_unknown(
                match path.parent() {
                    Some(parent) => parent.file_name_text(),
                    None => None,
                },
            )
        } else {
            albumartist.clone()
        }
    } else {
        artist
    };

    let albumartist = if is_blank_text(&albumartist) {
        artist.clone()
    } else {
        albumartist
    };

    let tracknumber = match tracknumber {
        Some(value) => if is_blank_text(&value) {
            None
        } else {
            Some(value)
        },
        None => None,
    };

    TrackMetadata { albumartist, artist, album, title, tracknumber }
}

/// A track under the names by which it is filed. The one tag that filing asks to
/// rewrite is an album artist whose normal form is not the artist's name.
pub open spec fn canonical_track(track: TrackView) -> CanonicalView {
    let albumartist = text::artist_name(track.albumartist);
    CanonicalView {
        albumartist,
        album: text::normal_text(track.album, false),
        title: text::normal_text(track.title, false),
        track_prefix: text::track_label(track.tracknumber),
        tag_updates: UpdatesView {
            albumartist: if text::normal_text(track.albumartist, false) == albumartist {
                None
            } else {
                Some(albumartist)
            },
            ..no_updates()
        },
    }
}

/// The names by which a track is filed.
pub fn canonicalize(track: &TrackMetadata) -> (res: CanonicalTrack)
    ensures
        res@ == canonical_track(track@),
{
    let albumartist = canonical_primary_artist(&track.albumartist);
    let renamed = !same_text(&normalize_text(&track.albumartist, false), &albumartist);
    let tag_updates = TagUpdates {
        albumartist: if renamed {
            Some(albumartist.clone())
        } else {
            None
        },
        artist: None,
        album: None,
        genre: None,
        title: None,
    };
    let tracknumber: Option<&str> = match &track.tracknumber {
        Some(value) => Some(value.as_str()),
        None => None,
    };
    CanonicalTrack {
        albumartist,
        album: normalize_text(&track.album, false),
        title: normalize_text(&track.title, false),
        track_prefix: track_prefix(tracknumber),
        tag_updates,
    }
}

/// The file name of a track: its label, if it has one, and its title.
pub open spec fn track_file_name(
    prefix: Option<Seq<char>>,
    title: Seq<char>,
    ext: Seq<char>,
) -> Seq<char> {
    let name = text::normal_text(title, true) + ext;
    match prefix {
        Some(prefix) => prefix + " - "@ + name,
        None => name,
    }
}

/// Where a track is filed below `root`: by artist and album, or, without an
/// album, by artist among the tracks without one.
pub open spec fn track_destination(
    root: Seq<path::PartView>,
    track: CanonicalView,
    ext: Seq<char>,
) -> Seq<path::PartView> {
    let artist = text::normal_text(track.albumartist, true);
    if track.album != "Unknown"@ {
        let album = text::normal_text(track.album, true);
        path::joined(
            path::joined(path::joined(root, artist), album),
            track_file_name(track.track_prefix, track.title, ext),
        )
    } else {
        path::joined(
            path::joined(path::joined(root, "Non-Album"@), artist),
            track_file_name(None, track.title, ext),
        )
    }
}

/// Where a track is filed below `root`.
pub fn canonical_destination(root: &FilePath, track: &CanonicalTrack, ext: &str) -> (res: FilePath)
    ensures
        res@ == track_destination(root@, track@, ext@),
        path::is_valid(root@) ==> path::is_valid(res@),
{
    let title = concat(&safe_name(&track.title), ext);
    if !same_text(&track.album, "Unknown") {
        let dir = root.join(&safe_name(&track.albumartist)).join(&safe_name(&track.album));
        let filename = match &track.track_prefix {
            Some(prefix) => concat(&concat(prefix, " - "), &title),
            None => title,
        };
        dir.join(&filename)
    } else {
        root.join("Non-Album").join(&safe_name(&track.albumartist)).join(&title)
    }
}

/// Whether a text is the name of one component of a path.
pub open spec fn is_plain_name(name: Seq<char>) -> bool {
    &&& name.len() > 0
    &&& !name.contains('/')
    &&& name != seq!['.']
    &&& name != seq!['.', '.']
}

/// A name that is safe for file names, with an ending, is a plain name.
pub(crate) proof fn lemma_safe_component(name: Seq<char>, ext: Seq<char>)
    requires
        !ext.contains('/'),
    ensures
        is_plain_name(text::normal_text(name, true) + ext),
{
    text::law_normal_text(name, true);
    let safe = text::normal_text(name, true);
    let file = safe + ext;
    assert(!file.contains('/')) by {
        if file.contains('/') {
            let i = choose|i: int| 0 <= i < file.len() && file[i] == '/';
            if i < safe.len() {
                assert(safe[i] == '/');
            } else {
                assert(ext[i - safe.len()] == '/');
            }
        }
    }
    let k = safe.len() - 1;
    assert(file[k] == safe.last());
    assert(file != seq!['.']) by {
        if file == seq!['.'] {
            assert(file.len() == 1 && file[0] == '.');
            assert(k == 0);
        }
    }
    assert(file != seq!['.', '.']) by {
        if file == seq!['.', '.'] {
            assert(file.len() == 2 && file[0] == '.' && file[1] == '.');
            assert(k == 0 || k == 1);
        }
    }
}

/// The file name of a track is a plain one.
pub(crate) proof fn lemma_track_file_name(track: TrackView, ext: Seq<char>)
    requires
        !ext.contains('/'),
    ensures
        ({
            let canonical = canonical_track(track);
            &&& is_plain_name(track_file_name(canonical.track_prefix, canonical.title, ext))
            &&& is_plain_name(track_file_name(None, canonical.title, ext))
        }),
{
    let canonical = canonical_track(track);
    let name = text::normal_text(canonical.title, true) + ext;
    lemma_safe_component(canonical.title, ext);
    if let Some(label) = canonical.track_prefix {
        let file = track_file_name(canonical.track_prefix, canonical.title, ext);
        lemma_label_is_digits(track.tracknumber);
        reveal_strlit(" - ");
        assert(file == label + " - "@ + name);
        assert(file[label.len() as int] == ' ');
        assert(!file.contains('/')) by {
            if file.contains('/') {
                let i = choose|i: int| 0 <= i < file.len() && file[i] == '/';
                if i < label.len() {
                    assert(chars::is_ascii_digit_char(label[i]));
                } else if i >= label.len() + 3 {
                    assert(name[i - label.len() - 3] == '/');
                }
            }
        }
    }
}

/// A filed track lies exactly three levels below the root, under names that the
/// root and the file system cannot mistake for anything else.
pub proof fn law_destination_is_below_root(
    root: Seq<path::PartView>,
    track: TrackView,
    ext: Seq<char>,
)
    requires
        !ext.contains('/'),
    ensures
        ({
            let destination = track_destination(root, canonical_track(track), ext);
            &&& destination.len() == root.len() + 3
            &&& destination.take(root.len() as int) == root
            &&& forall|i: int|
                root.len() <= i < destination.len() ==> (#[trigger] destination[i]) is Name
        }),
{
    let canonical = canonical_track(track);
    let none = Seq::<char>::empty();
    let artist = text::normal_text(canonical.albumartist, true);
    let album = text::normal_text(canonical.album, true);
    lemma_safe_component(canonical.albumartist, none);
    lemma_safe_component(canonical.album, none);
    lemma_track_file_name(track, ext);
    assert(artist + none == artist);
    assert(album + none == album);
    reveal_strlit("Non-Album");
    let first = if canonical.album != "Unknown"@ {
        artist
    } else {
        "Non-Album"@
    };
    let second = if canonical.album != "Unknown"@ {
        album
    } else {
        artist
    };
    let prefix = if canonical.album != "Unknown"@ {
        canonical.track_prefix
    } else {
        None
    };
    let file = track_file_name(prefix, canonical.title, ext);
    path::law_join_plain_name(root, first);
    let one = path::joined(root, first);
    path::law_join_plain_name(one, second);
    let two = path::joined(one, second);
    path::law_join_plain_name(two, file);
    assert(track_destination(root, canonical, ext) == path::joined(two, file));
    assert(path::joined(two, file).take(root.len() as int) =~= root);
}

proof fn lemma_label_is_digits(tracknumber: Option<Seq<char>>)
    ensures
        text::track_label(tracknumber) matches Some(label) ==> label.len() >= 2
            && numbers::all_digits(label),
{
    if let Some(s) = tracknumber {
        let value = numbers::digits_value(text::digits_of(s));
        numbers::law_decimal_round_trip(value);
        let spelled = numbers::decimal(value);
        let label = text::two_digits(spelled);
        assert(numbers::all_digits(label)) by {
            assert forall|i: int| 0 <= i < label.len() implies chars::is_ascii_digit_char(
                #[trigger] label[i],
            ) by {
                if spelled.len() >= 2 {
                    assert(chars::is_ascii_digit_char(spelled[i]));
                } else if i > 0 {
                    assert(chars::is_ascii_digit_char(spelled[i - 1]));
                }
            }
        }
    }
}

/// Whether anything but white space is in a text.
pub open spec fn has_text(s: Seq<char>) -> bool {
    exists|i: int| 0 <= i < s.len() && !chars::is_space_char(#[trigger] s[i])
}

/// What the tags give is kept: an album artist, an artist, a title and a track
/// number that are not blank stay as they are, whatever the other fields hold, and
/// so does the album in any case.
pub proof fn law_given_fields_are_kept(
    path: Seq<path::PartView>,
    albumartist: Seq<char>,
    artist: Seq<char>,
    album: Seq<char>,
    title: Seq<char>,
    tracknumber: Option<Seq<char>>,
)
    ensures
        ({
            let track = filled_track(path, albumartist, artist, album, title, tracknumber);
            &&& has_text(albumartist) ==> track.albumartist == albumartist
            &&& has_text(artist) ==> track.artist == artist
            &&& has_text(title) ==> track.title == title
            &&& track.album == album
            &&& tracknumber matches Some(number) ==> track.tracknumber == if has_text(number) {
                Some(number)
            } else {
                None
            }
            &&& tracknumber is None ==> track.tracknumber is None
        }),
{
    strings::law_blank_text(albumartist);
    strings::law_blank_text(artist);
    strings::law_blank_text(title);
    if let Some(number) = tracknumber {
        strings::law_blank_text(number);
    }
}

/// What the tags leave blank is filled in: the two artists from each other, or
/// both from the name of the directory, and the title from the file name without
/// its extension. `Unknown` stands for a name that is missing or no text.
pub proof fn law_missing_fields_are_filled(
    front: Seq<path::PartView>,
    directory: Seq<u8>,
    file: Seq<u8>,
    albumartist: Seq<char>,
    artist: Seq<char>,
    album: Seq<char>,
    title: Seq<char>,
    tracknumber: Option<Seq<char>>,
)
    ensures
        ({
            let path = front.push(path::PartView::Name(directory)).push(
                path::PartView::Name(file),
            );
            let track = filled_track(path, albumartist, artist, album, title, tracknumber);
            &&& !has_text(albumartist) ==> track.albumartist == track.artist
            &&& !has_text(artist) && has_text(albumartist) ==> track.artist == albumartist
            &&& !has_text(artist) && !has_text(albumartist) ==> if vstd::utf8::valid_utf8(
                directory,
            ) {
                track.artist == vstd::utf8::decode_utf8(directory)
            } else {
                track.artist == "Unknown"@
            }
            &&& !has_text(title) ==> {
                let stem = path::stem_of(path).unwrap();
                if vstd::utf8::valid_utf8(stem) {
                    track.title == vstd::utf8::decode_utf8(stem)
                } else {
                    track.title == "Unknown"@
                }
            }
        }),
{
    strings::law_blank_text(albumartist);
    strings::law_blank_text(artist);
    strings::law_blank_text(title);
    let inner = front.push(path::PartView::Name(directory));
    let path = inner.push(path::PartView::Name(file));
    assert(path.drop_last() =~= inner);
    assert(path::parent_of(path) == Some(inner));
}

/// A track is filed under the one name of its first artist, and under its album
/// and title in normal form. A tag is to be rewritten only if the album artist,
/// in normal form, is not that name.
pub proof fn law_filed_names(track: TrackView)
    ensures
        ({
            let filed = canonical_track(track);
            let artist = text::artist_name(track.albumartist);
            &&& filed.albumartist == artist
            &&& filed.album == text::normal_text(track.album, false)
            &&& filed.title == text::normal_text(track.title, false)
            &&& filed.track_prefix == text::track_label(track.tracknumber)
            &&& text::normal_text(track.albumartist, false) == artist
                ==> filed.tag_updates.albumartist is None
            &&& text::normal_text(track.albumartist, false) != artist
                ==> filed.tag_updates.albumartist == Some(artist)
            &&& filed.tag_updates.artist is None && filed.tag_updates.album is None
                && filed.tag_updates.title is None && filed.tag_updates.genre is None
        }),
{
}

/// The path of a filed track, component by component: the root, the artist, the
/// album, and the title behind the label of the track, if it has one. A track
/// without an album goes to the artist among those without one, and has no label.
pub proof fn law_destination_components(
    root: Seq<path::PartView>,
    track: TrackView,
    ext: Seq<char>,
)
    requires
        !ext.contains('/'),
    ensures
        ({
            let artist = text::normal_text(text::artist_name(track.albumartist), true);
            let album = text::normal_text(track.album, false);
            let title = text::normal_text(text::normal_text(track.title, false), true) + ext;
            let file = match text::track_label(track.tracknumber) {
                Some(label) => label + seq![' ', '-', ' '] + title,
                None => title,
            };
            track_destination(root, canonical_track(track), ext) == if album != "Unknown"@ {
                root.push(path::PartView::Name(vstd::utf8::encode_utf8(artist))).push(
                    path::PartView::Name(
                        vstd::utf8::encode_utf8(text::normal_text(album, true)),
                    ),
                ).push(path::PartView::Name(vstd::utf8::encode_utf8(file)))
            } else {
                root.push(path::PartView::Name(vstd::utf8::encode_utf8("Non-Album"@))).push(
                    path::PartView::Name(vstd::utf8::encode_utf8(artist)),
                ).push(path::PartView::Name(vstd::utf8::encode_utf8(title)))
            }
        }),
{
    let canonical = canonical_track(track);
    let none = Seq::<char>::empty();
    let artist = text::normal_text(canonical.albumartist, true);
    let album = text::normal_text(canonical.album, true);
    lemma_safe_component(canonical.albumartist, none);
    lemma_safe_component(canonical.album, none);
    lemma_track_file_name(track, ext);
    assert(artist + none == artist);
    assert(album + none == album);
    reveal_strlit("Non-Album");
    reveal_strlit(" - ");
    assert(" - "@ =~= seq![' ', '-', ' ']);
    let first = if canonical.album != "Unknown"@ {
        artist
    } else {
        "Non-Album"@
    };
    let second = if canonical.album != "Unknown"@ {
        album
    } else {
        artist
    };
    let prefix = if canonical.album != "Unknown"@ {
        canonical.track_prefix
    } else {
        None
    };
    let file = track_file_name(prefix, canonical.title, ext);
    path::law_join_plain_name(root, first);
    path::law_join_plain_name(path::joined(root, first), second);
    path::law_join_plain_name(path::joined(path::joined(root, first), second), file);
}

/// The path of a track below `root`, component by component.
pub open spec fn filed_path(
    root: Seq<path::PartView>,
    track: TrackView,
    ext: Seq<char>,
) -> Seq<path::PartView> {
    let artist = text::normal_text(text::artist_name(track.albumartist), true);
    let album = text::normal_text(track.album, false);
    let title = text::normal_text(text::normal_text(track.title, false), true) + ext;
    if album == "Unknown"@ {
        root + seq![
            path::PartView::Name(vstd::utf8::encode_utf8("Non-Album"@)),
            path::PartView::Name(vstd::utf8::encode_utf8(artist)),
            path::PartView::Name(vstd::utf8::encode_utf8(title)),
        ]
    } else {
        let file = match text::track_label(track.tracknumber) {
            Some(label) => label + seq![' ', '-', ' '] + title,
            None => title,
        };
        root + seq![
            path::PartView::Name(vstd::utf8::encode_utf8(artist)),
            path::PartView::Name(vstd::utf8::encode_utf8(text::normal_text(album, true))),
            path::PartView::Name(vstd::utf8::encode_utf8(file)),
        ]
    }
}

/// Where a track is filed, component by component.
pub proof fn law_filed_path(root: Seq<path::PartView>, track: TrackView, ext: Seq<char>)
    requires
        !ext.contains('/'),
    ensures
        track_destination(root, canonical_track(track), ext) == filed_path(root, track, ext),
{
    law_destination_components(root, track, ext);
    assert(track_destination(root, canonical_track(track), ext) =~= filed_path(root, track, ext));
}

} // verus!
