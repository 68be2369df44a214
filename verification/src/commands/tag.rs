//! Tagging files with the genre of their album.

use vstd::prelude::*;

use crate::actions;
use crate::actions::{push_action, Action};
use crate::audio;
use crate::audio::TrackMetadata;
use crate::chars;
use crate::cli::TagArgs;
use crate::genre;
use crate::numbers;
use crate::numbers::decimal_text;
use crate::order;
use crate::order::chars_before;
use crate::path;
use crate::path::{clone_paths, FilePath};
use crate::strings;
use crate::strings::{chars_of, concat, same_text};
use crate::text;
use crate::text::{canonical_primary_artist, normalize_text};

verus! {

/// The album that a file belongs to.
#[derive(Debug)]
pub struct AlbumKey {
    pub albumartist: String,
    pub album: String,
}

/// The album that a file belongs to, as text.
pub struct KeyView {
    pub albumartist: Seq<char>,
    pub album: Seq<char>,
}

impl View for AlbumKey {
    type V = KeyView;

    open spec fn view(&self) -> KeyView {
        KeyView { albumartist: self.albumartist@, album: self.album@ }
    }
}

/// The contents of a list of keys.
pub open spec fn key_views(keys: Seq<AlbumKey>) -> Seq<KeyView> {
    keys.map_values(|key: AlbumKey| key@)
}

/// The order of albums: by artist, then by name.
pub open spec fn key_before(a: KeyView, b: KeyView) -> bool {
    order::text_before(a.albumartist, b.albumartist) || (a.albumartist == b.albumartist
        && order::text_before(a.album, b.album))
}

pub open spec fn key_order() -> spec_fn(KeyView, KeyView) -> bool {
    |a: KeyView, b: KeyView| key_before(a, b)
}

/// The order of albums is a strict order.
pub proof fn law_key_order_is_strict()
    ensures
        order::is_strict_order(key_order()),
{
    order::law_text_order_is_strict();
    let text_less = order::lexical_order(order::char_order());
    let less = key_order();
    assert forall|a: KeyView| !(#[trigger] less(a, a)) by {
        assert(!text_less(a.albumartist, a.albumartist));
        assert(!text_less(a.album, a.album));
    }
    assert forall|a: KeyView, b: KeyView, c: KeyView| #[trigger]
        less(a, b) && #[trigger] less(b, c) implies less(a, c) by {
        if text_less(a.albumartist, b.albumartist) && text_less(b.albumartist, c.albumartist) {
            assert(text_less(a.albumartist, c.albumartist));
        } else if a.albumartist == b.albumartist && b.albumartist == c.albumartist {
            assert(text_less(a.album, b.album) && text_less(b.album, c.album));
        }
    }
    assert forall|a: KeyView, b: KeyView| #[trigger] less(a, b) || less(b, a) || a == b by {
        assert(text_less(a.albumartist, b.albumartist) || text_less(b.albumartist, a.albumartist)
            || a.albumartist == b.albumartist);
        assert(text_less(a.album, b.album) || text_less(b.album, a.album) || a.album == b.album);
    }
}

/// The album that a track belongs to.
pub open spec fn album_of(track: audio::TrackView) -> KeyView {
    KeyView {
        albumartist: text::normal_text(text::artist_name(track.albumartist), false),
        album: text::normal_text(track.album, false),
    }
}

/// The album that a track belongs to.
pub fn album_key(metadata: &TrackMetadata) -> (res: AlbumKey)
    ensures
        res@ == album_of(metadata@),
{
    AlbumKey {
        albumartist: normalize_text(&canonical_primary_artist(&metadata.albumartist), false),
        album: normalize_text(&metadata.album, false),
    }
}

/// An album is looked up under the very names by which its files are grouped, so
/// that different albums are different requests.
pub proof fn law_albums_are_looked_up_by_key(a: audio::TrackView, b: audio::TrackView)
    ensures
        genre::lookup_key(a).artist == album_of(a).albumartist,
        genre::lookup_key(a).album == album_of(a).album,
        genre::lookup_key(a) == genre::lookup_key(b) <==> album_of(a) == album_of(b),
{
}

/// A file that may be tagged.
#[derive(Debug)]
pub struct TagInput {
    pub path: FilePath,
    pub metadata: TrackMetadata,
    pub existing_genre: Option<String>,
}

/// A file that may be tagged, by its content.
pub struct TagInputView {
    pub path: Seq<path::PartView>,
    pub metadata: audio::TrackView,
    pub existing_genre: Option<Seq<char>>,
}

impl View for TagInput {
    type V = TagInputView;

    open spec fn view(&self) -> TagInputView {
        TagInputView {
            path: self.path@,
            metadata: self.metadata@,
            existing_genre: strings::text_opt(self.existing_genre),
        }
    }
}

/// The contents of a list of files.
pub open spec fn input_views(files: Seq<TagInput>) -> Seq<TagInputView> {
    files.map_values(|file: TagInput| file@)
}

/// A file of an album, with the genre it has.
#[derive(Debug)]
pub struct AlbumTrack {
    pub path: FilePath,
    pub existing_genre: Option<String>,
}

/// A file of an album, by its content.
pub struct AlbumTrackView {
    pub path: Seq<path::PartView>,
    pub existing_genre: Option<Seq<char>>,
}

impl View for AlbumTrack {
    type V = AlbumTrackView;

    open spec fn view(&self) -> AlbumTrackView {
        AlbumTrackView {
            path: self.path@,
            existing_genre: strings::text_opt(self.existing_genre),
        }
    }
}

/// The contents of a list of files of an album.
pub open spec fn track_views(tracks: Seq<AlbumTrack>) -> Seq<AlbumTrackView> {
    tracks.map_values(|track: AlbumTrack| track@)
}

/// An album: the metadata of its first file, and its files.
#[derive(Debug)]
pub struct AlbumGroup {
    pub metadata: TrackMetadata,
    pub tracks: Vec<AlbumTrack>,
}

/// An album, by its content.
pub struct AlbumGroupView {
    pub metadata: audio::TrackView,
    pub tracks: Seq<AlbumTrackView>,
}

impl View for AlbumGroup {
    type V = AlbumGroupView;

    open spec fn view(&self) -> AlbumGroupView {
        AlbumGroupView { metadata: self.metadata@, tracks: track_views(self.tracks@) }
    }
}

/// The contents of a list of albums.
pub open spec fn album_views(albums: Seq<AlbumGroup>) -> Seq<AlbumGroupView> {
    albums.map_values(|album: AlbumGroup| album@)
}

/// A file as it is listed in its album.
pub open spec fn listed(file: TagInputView) -> AlbumTrackView {
    AlbumTrackView { path: file.path, existing_genre: file.existing_genre }
}

/// The files of an album, in order.
pub open spec fn files_of(files: Seq<TagInputView>, key: KeyView) -> Seq<TagInputView> {
    files.filter(|file: TagInputView| album_of(file.metadata) == key)
}

/// The album with a key.
pub open spec fn group_of(files: Seq<TagInputView>, key: KeyView) -> AlbumGroupView {
    AlbumGroupView {
        metadata: files_of(files, key)[0].metadata,
        tracks: files_of(files, key).map_values(
            |file: TagInputView| listed(file),
        ),
    }
}

/// Whether a file belongs to an album with the key.
pub open spec fn is_key_of(files: Seq<TagInputView>, key: KeyView) -> bool {
    exists|i: int| 0 <= i < files.len() && album_of((#[trigger] files[i]).metadata) == key
}

/// Whether these are the keys of the albums that the files belong to, in order.
pub open spec fn are_keys_of(keys: Seq<KeyView>, files: Seq<TagInputView>) -> bool {
    &&& order::is_ascending_by(keys, key_order())
    &&& forall|key: KeyView| #[trigger] keys.contains(key) <==> is_key_of(files, key)
}

/// Whether these are the albums that the files belong to, in the order of their
/// keys.
pub open spec fn are_albums_of(albums: Seq<AlbumGroupView>, files: Seq<TagInputView>) -> bool {
    exists|keys: Seq<KeyView>| #[trigger]
        are_keys_of(keys, files) && albums == keys.map_values(|key: KeyView| group_of(files, key))
}

/// The files determine the list of albums.
pub proof fn law_albums_are_determined(
    a: Seq<AlbumGroupView>,
    b: Seq<AlbumGroupView>,
    files: Seq<TagInputView>,
)
    requires
        are_albums_of(a, files),
        are_albums_of(b, files),
    ensures
        a == b,
{
    let left = choose|keys: Seq<KeyView>| #[trigger]
        are_keys_of(keys, files) && a == keys.map_values(|key: KeyView| group_of(files, key));
    let right = choose|keys: Seq<KeyView>| #[trigger]
        are_keys_of(keys, files) && b == keys.map_values(|key: KeyView| group_of(files, key));
    law_key_order_is_strict();
    assert forall|key: KeyView| left.contains(key) <==> right.contains(key) by {
        assert(is_key_of(files, key) == is_key_of(files, key));
    }
    order::law_ascending_is_unique(left, right, key_order());
}

fn comes_before(a: &AlbumKey, b: &AlbumKey) -> (res: bool)
    ensures
        res == key_before(a@, b@),
{
    let a_artist = chars_of(&a.albumartist);
    let b_artist = chars_of(&b.albumartist);
    if chars_before(&a_artist, &b_artist) {
        return true;
    }
    if !same_text(&a.albumartist, &b.albumartist) {
        return false;
    }
    chars_before(&chars_of(&a.album), &chars_of(&b.album))
}

fn is_same_key(a: &AlbumKey, b: &AlbumKey) -> (res: bool)
    ensures
        res == (a@ == b@),
{
    same_text(&a.albumartist, &b.albumartist) && same_text(&a.album, &b.album)
}

/// Puts a key into an ascending list, unless it is there already.
fn insert_key(keys: &mut Vec<AlbumKey>, key: AlbumKey)
    requires
        order::is_ascending_by(key_views(old(keys)@), key_order()),
    ensures
        order::is_ascending_by(key_views(final(keys)@), key_order()),
        forall|k: KeyView| #[trigger]
            key_views(final(keys)@).contains(k) <==> key_views(old(keys)@).contains(k) || k == key@,
{
    let ghost before = key_views(keys@);
    let ghost less = key_order();
    let mut at: usize = 0;
    let count = keys.len();
    while at < count && comes_before(&keys[at], &key)
        invariant
            at <= count == keys.len(),
            before == key_views(keys@),
            less == key_order(),
            forall|i: int| 0 <= i < at ==> less(#[trigger] before[i], key@),
        decreases count - at,
    {
        assert(before[at as int] == keys@[at as int]@);
        at = at + 1;
    }
    proof {
        law_key_order_is_strict();
    }
    if at < count && is_same_key(&keys[at], &key) {
        assert(before[at as int] == key@);
        return ;
    }
    proof {
        assert forall|i: int| at <= i < count implies less(key@, #[trigger] before[i]) by {
            assert(before[at as int] == keys@[at as int]@);
            assert(less(before[at as int], key@) || less(key@, before[at as int]));
            if i > at {
                assert(less(before[at as int], before[i]));
            }
        }
    }
    let ghost added = key@;
    keys.insert(at, key);
    proof {
        let after = key_views(keys@);
        assert(after =~= before.insert(at as int, added));
        assert forall|i: int, j: int| 0 <= i < j < after.len() implies less(
            #[trigger] after[i],
            #[trigger] after[j],
        ) by {
            let k = if i < at {
                i
            } else {
                i - 1
            };
            let l = if j <= at {
                j
            } else {
                j - 1
            };
            if i != at && j != at {
                assert(less(before[k], before[l]));
            }
        }
        assert forall|k: KeyView| #[trigger]
            after.contains(k) <==> before.contains(k) || k == added by {
            if before.contains(k) {
                let i = choose|i: int| 0 <= i < before.len() && before[i] == k;
                if i < at {
                    assert(after[i] == k);
                } else {
                    assert(after[i + 1] == k);
                }
            }
            assert(after[at as int] == added);
            if after.contains(k) && k != added {
                let i = choose|i: int| 0 <= i < after.len() && after[i] == k;
                if i < at {
                    assert(before[i] == k);
                } else {
                    assert(before[i - 1] == k);
                }
            }
        }
    }
}

/// The keys of the albums that the files belong to, in order.
fn album_keys(files: &Vec<TagInput>) -> (res: Vec<AlbumKey>)
    ensures
        are_keys_of(key_views(res@), input_views(files@)),
{
    let mut res: Vec<AlbumKey> = Vec::new();
    let count = files.len();
    let ghost views = input_views(files@);
    assert(key_views(res@) =~= Seq::empty());
    for i in 0..count
        invariant
            count == files.len(),
            views == input_views(files@),
            are_keys_of(key_views(res@), views.take(i as int)),
    {
        let key = album_key(&files[i].metadata);
        let ghost before = key_views(res@);
        let ghost added = key@;
        insert_key(&mut res, key);
        proof {
            let seen = views.take(i as int);
            let all = views.take(i + 1);
            assert(all[i as int] == files@[i as int]@);
            assert forall|k: KeyView| #[trigger]
                key_views(res@).contains(k) <==> is_key_of(all, k) by {
                assert(before.contains(k) <==> is_key_of(seen, k));
                if is_key_of(seen, k) {
                    let j = choose|j: int|
                        0 <= j < seen.len() && album_of((#[trigger] seen[j]).metadata) == k;
                    assert(all[j] == seen[j]);
                }
                if is_key_of(all, k) && k != added {
                    let j = choose|j: int|
                        0 <= j < all.len() && album_of((#[trigger] all[j]).metadata) == k;
                    assert(all[j] == seen[j]);
                }
                if k == added {
                    assert(album_of(all[i as int].metadata) == k);
                }
            }
        }
    }
    assert(views.take(count as int) == views);
    res
}

/// The album with a key, if a file belongs to it.
fn collect_album(files: &Vec<TagInput>, key: &AlbumKey) -> (res: Option<AlbumGroup>)
    ensures
        match res {
            Some(album) => album@ == group_of(input_views(files@), key@),
            None => !is_key_of(input_views(files@), key@),
        },
{
    let mut metadata: Option<TrackMetadata> = None;
    let mut tracks: Vec<AlbumTrack> = Vec::new();
    let count = files.len();
    let ghost views = input_views(files@);
    let ghost wanted = |file: TagInputView| album_of(file.metadata) == key@;
    let ghost track_of = |file: TagInputView| listed(file);
    proof {
        reveal(Seq::filter);
        assert(track_views(tracks@) =~= views.take(0).filter(wanted).map_values(track_of));
    }
    for i in 0..count
        invariant
            count == files.len(),
            views == input_views(files@),
            wanted == |file: TagInputView| album_of(file.metadata) == key@,
            track_of == |file: TagInputView| listed(file),
            track_views(tracks@) == views.take(i as int).filter(wanted).map_values(track_of),
            match metadata {
                Some(first) => tracks.len() > 0 && first@ == views.take(i as int).filter(
                    wanted,
                )[0].metadata,
                None => tracks.len() == 0,
            },
    {
        let file = &files[i];
        let ghost seen = views.take(i as int).filter(wanted);
        proof {
            reveal(Seq::filter);
            assert(views.take(i + 1).drop_last() == views.take(i as int));
            assert(views.take(i + 1).last() == file@);
            assert(seen.len() == tracks.len()) by {
                assert(track_views(tracks@).len() == tracks.len());
            }
        }
        if is_same_key(&album_key(&file.metadata), key) {
            let ghost before = track_views(tracks@);
            let track = AlbumTrack {
                path: file.path.clone(),
                existing_genre: strings::clone_opt(&file.existing_genre),
            };
            if metadata.is_none() {
                metadata = Some(file.metadata.clone());
            }
            tracks.push(track);
            assert(track_views(tracks@) =~= before.push(track_of(file@)));
            assert(seen.push(file@).map_values(track_of) =~= seen.map_values(track_of).push(
                track_of(file@),
            ));
        }
    }
    assert(views.take(count as int) == views);
    match metadata {
        Some(metadata) => {
            let res = AlbumGroup { metadata, tracks };
            assert(res@.tracks =~= group_of(views, key@).tracks);
            Some(res)
        },
        None => {
            proof {
                assert(track_views(tracks@).len() == 0);
                if is_key_of(views, key@) {
                    let i = choose|i: int|
                        0 <= i < views.len() && album_of((#[trigger] views[i]).metadata) == key@;
                    views.lemma_filter_contains(wanted, i);
                    assert(views.filter(wanted).contains(views[i]));
                }
            }
            None
        },
    }
}

/// The albums that the files belong to, in the order of their keys.
pub fn group_albums(files: &Vec<TagInput>) -> (res: Vec<AlbumGroup>)
    ensures
        are_albums_of(album_views(res@), input_views(files@)),
{
    let keys = album_keys(files);
    let ghost views = input_views(files@);
    let ghost all = key_views(keys@);
    let ghost grouped = |key: KeyView| group_of(views, key);
    let mut res: Vec<AlbumGroup> = Vec::new();
    let count = keys.len();
    assert(album_views(res@) =~= all.take(0).map_values(grouped));
    for i in 0..count
        invariant
            count == keys.len(),
            views == input_views(files@),
            all == key_views(keys@),
            grouped == |key: KeyView| group_of(views, key),
            are_keys_of(all, views),
            album_views(res@) == all.take(i as int).map_values(grouped),
    {
        assert(all[i as int] == keys@[i as int]@);
        assert(all.contains(all[i as int]));
        let ghost before = album_views(res@);
        if let Some(album) = collect_album(files, &keys[i]) {
            res.push(album);
            assert(album_views(res@) =~= before.push(album@));
        }
        assert(all.take(i + 1).map_values(grouped) =~= all.take(i as int).map_values(grouped).push(
            grouped(all[i as int]),
        ));
    }
    assert(all.take(count as int) == all);
    assert(are_keys_of(all, views));
    res
}

/// Whether every file of an album has a genre.
pub open spec fn has_genres(album: AlbumGroupView) -> bool {
    forall|i: int|
        0 <= i < album.tracks.len() ==> (#[trigger] album.tracks[i]).existing_genre is Some
}

/// Whether the genre of an album has to be looked up: always when existing genres
/// are replaced, else if a file has none.
pub fn needs_lookup(album: &AlbumGroup, retag: bool) -> (res: bool)
    ensures
        res == (retag || !has_genres(album@)),
{
    if retag {
        return true;
    }
    let count = album.tracks.len();
    for i in 0..count
        invariant
            count == album.tracks.len(),
            forall|j: int|
                0 <= j < i ==> (#[trigger] album@.tracks[j]).existing_genre is Some,
    {
        assert(album@.tracks[i as int] == album.tracks@[i as int]@);
        if album.tracks[i].existing_genre.is_none() {
            assert(album@.tracks[i as int].existing_genre is None);
            return true;
        }
    }
    false
}

/// A genre to write into a file.
#[derive(Debug)]
pub struct TagPlan {
    pub path: FilePath,
    pub genre: String,
    pub existing_genre: Option<String>,
}

/// A genre to write into a file, by its content.
pub struct TagPlanView {
    pub path: Seq<path::PartView>,
    pub genre: Seq<char>,
    pub existing_genre: Option<Seq<char>>,
}

impl View for TagPlan {
    type V = TagPlanView;

    open spec fn view(&self) -> TagPlanView {
        TagPlanView {
            path: self.path@,
            genre: self.genre@,
            existing_genre: strings::text_opt(self.existing_genre),
        }
    }
}

/// The contents of a list of plans.
pub open spec fn plan_views(plans: Seq<TagPlan>) -> Seq<TagPlanView> {
    plans.map_values(|plan: TagPlan| plan@)
}

/// An album with the genre found for it, if any.
#[derive(Debug)]
pub struct AnsweredAlbum {
    pub album: AlbumGroup,
    pub genre: Option<String>,
}

/// An album with the genre found for it, by its content.
pub struct AnswerView {
    pub album: AlbumGroupView,
    pub genre: Option<Seq<char>>,
}

impl View for AnsweredAlbum {
    type V = AnswerView;

    open spec fn view(&self) -> AnswerView {
        AnswerView { album: self.album@, genre: strings::text_opt(self.genre) }
    }
}

/// The contents of a list of answers.
pub open spec fn answer_views(answers: Seq<AnsweredAlbum>) -> Seq<AnswerView> {
    answers.map_values(|answer: AnsweredAlbum| answer@)
}

/// Whether the genre of a file is to be written.
pub open spec fn is_tagged(track: AlbumTrackView, retag: bool) -> bool {
    retag || track.existing_genre is None
}

/// The genre to write into a file.
pub open spec fn plan_for(track: AlbumTrackView, genre: Seq<char>) -> TagPlanView {
    TagPlanView { path: track.path, genre, existing_genre: track.existing_genre }
}

/// The genre to write into each file of an album.
pub open spec fn album_plans(
    tracks: Seq<AlbumTrackView>,
    genre: Seq<char>,
    retag: bool,
) -> Seq<TagPlanView>
    decreases tracks.len(),
{
    if tracks.len() == 0 {
        Seq::empty()
    } else {
        let before = album_plans(tracks.drop_last(), genre, retag);
        if is_tagged(tracks.last(), retag) {
            before.push(plan_for(tracks.last(), genre))
        } else {
            before
        }
    }
}

/// The plans for all albums, and how many albums and files were passed over.
pub struct Tally {
    pub plans: Seq<TagPlanView>,
    pub matched_albums: nat,
    pub unmatched_albums: nat,
    pub skipped_albums: nat,
    pub skipped_files: nat,
}

/// A tally with one more album: passed over if all its files have a genre that is
/// not replaced, else if no genre was found for it.
pub open spec fn tally_with(tally: Tally, answer: AnswerView, retag: bool) -> Tally {
    let album = answer.album;
    if !retag && has_genres(album) {
        Tally {
            skipped_albums: tally.skipped_albums + 1,
            skipped_files: tally.skipped_files + album.tracks.len(),
            ..tally
        }
    } else {
        match answer.genre {
            Some(genre) => {
                let plans = album_plans(album.tracks, genre, retag);
                Tally {
                    plans: tally.plans + plans,
                    matched_albums: tally.matched_albums + 1,
                    skipped_files: (tally.skipped_files + (album.tracks.len()
                        - plans.len())) as nat,
                    ..tally
                }
            },
            None => Tally { unmatched_albums: tally.unmatched_albums + 1, ..tally },
        }
    }
}

/// The tally of a list of albums.
pub open spec fn tally_of(answers: Seq<AnswerView>, retag: bool) -> Tally
    decreases answers.len(),
{
    if answers.len() == 0 {
        Tally {
            plans: Seq::empty(),
            matched_albums: 0,
            unmatched_albums: 0,
            skipped_albums: 0,
            skipped_files: 0,
        }
    } else {
        tally_with(tally_of(answers.drop_last(), retag), answers.last(), retag)
    }
}

/// The plans for all albums, and how many albums and files were passed over.
#[derive(Debug)]
pub struct TagPlanning {
    pub plans: Vec<TagPlan>,
    pub matched_albums: usize,
    pub unmatched_albums: usize,
    pub skipped_albums: usize,
    pub skipped_files: u128,
}

impl View for TagPlanning {
    type V = Tally;

    open spec fn view(&self) -> Tally {
        Tally {
            plans: plan_views(self.plans@),
            matched_albums: self.matched_albums as nat,
            unmatched_albums: self.unmatched_albums as nat,
            skipped_albums: self.skipped_albums as nat,
            skipped_files: self.skipped_files as nat,
        }
    }
}

/// Appends the plans for the files of an album, and gives the number of files
/// passed over.
fn append_plans(
    plans: &mut Vec<TagPlan>,
    tracks: &Vec<AlbumTrack>,
    genre: &str,
    retag: bool,
) -> (res: usize)
    ensures
        plan_views(final(plans)@) == plan_views(old(plans)@) + album_plans(
            track_views(tracks@),
            genre@,
            retag,
        ),
        res == tracks.len() - album_plans(track_views(tracks@), genre@, retag).len(),
{
    let count = tracks.len();
    let ghost views = track_views(tracks@);
    let ghost before = plan_views(plans@);
    let mut passed: usize = 0;
    assert(before + album_plans(views.take(0), genre@, retag) =~= before);
    for i in 0..count
        invariant
            count == tracks.len(),
            views == track_views(tracks@),
            passed <= i,
            passed == i - album_plans(views.take(i as int), genre@, retag).len(),
            plan_views(plans@) == before + album_plans(views.take(i as int), genre@, retag),
    {
        let track = &tracks[i];
        proof {
            assert(views.take(i + 1).drop_last() == views.take(i as int));
            assert(views.take(i + 1).last() == track@);
        }
        if retag || track.existing_genre.is_none() {
            let plan = TagPlan {
                path: track.path.clone(),
                genre: genre.to_string(),
                existing_genre: strings::clone_opt(&track.existing_genre),
            };
            let ghost listed = plan_views(plans@);
            plans.push(plan);
            assert(plan_views(plans@) =~= listed.push(plan_for(track@, genre@)));
            assert(plan_views(plans@) =~= before + album_plans(views.take(i + 1), genre@, retag));
        } else {
            passed = passed + 1;
        }
    }
    assert(views.take(count as int) == views);
    passed
}

/// The plans for all albums, and how many albums and files were passed over.
pub fn plan_tags(answers: &Vec<AnsweredAlbum>, retag: bool) -> (res: TagPlanning)
    ensures
        res@ == tally_of(answer_views(answers@), retag),
{
    let mut res = TagPlanning {
        plans: Vec::new(),
        matched_albums: 0,
        unmatched_albums: 0,
        skipped_albums: 0,
        skipped_files: 0,
    };
    let count = answers.len();
    let ghost views = answer_views(answers@);
    assert(res@.plans =~= Seq::empty());
    for i in 0..count
        invariant
            count == answers.len(),
            views == answer_views(answers@),
            res.matched_albums <= i,
            res.unmatched_albums <= i,
            res.skipped_albums <= i,
            res.skipped_files <= i * usize::MAX,
            res@ == tally_of(views.take(i as int), retag),
    {
        let answer = &answers[i];
        proof {
            assert(views.take(i + 1).drop_last() == views.take(i as int));
            assert(views.take(i + 1).last() == answer@);
            assert(i * usize::MAX + usize::MAX == (i + 1) * usize::MAX) by (nonlinear_arith);
            assert((i + 1) * usize::MAX <= usize::MAX * usize::MAX) by (nonlinear_arith)
                requires
                    i + 1 <= usize::MAX,
            ;
            assert(usize::MAX * usize::MAX <= u128::MAX) by (nonlinear_arith)
                requires
                    usize::MAX <= u64::MAX,
            ;
        }
        if !needs_lookup(&answer.album, retag) {
            res.skipped_albums = res.skipped_albums + 1;
            res.skipped_files = res.skipped_files + answer.album.tracks.len() as u128;
        } else {
            match &answer.genre {
                Some(genre) => {
                    let passed = append_plans(&mut res.plans, &answer.album.tracks, genre, retag);
                    res.matched_albums = res.matched_albums + 1;
                    res.skipped_files = res.skipped_files + passed as u128;
                },
                None => {
                    res.unmatched_albums = res.unmatched_albums + 1;
                },
            }
        }
    }
    assert(views.take(count as int) == views);
    res
}

/// Whether a plan writes the genre found for an album into a file of it.
pub open spec fn is_plan_of(plan: TagPlanView, answer: AnswerView, retag: bool) -> bool {
    &&& answer.genre == Some(plan.genre)
    &&& retag || !has_genres(answer.album)
    &&& exists|t: int|
        0 <= t < answer.album.tracks.len() && is_tagged(#[trigger] answer.album.tracks[t], retag)
            && plan == plan_for(answer.album.tracks[t], plan.genre)
}

proof fn lemma_album_plans(tracks: Seq<AlbumTrackView>, genre: Seq<char>, retag: bool)
    ensures
        album_plans(tracks, genre, retag).len() <= tracks.len(),
        forall|k: int|
            0 <= k < album_plans(tracks, genre, retag).len() ==> exists|t: int|
                0 <= t < tracks.len() && is_tagged(#[trigger] tracks[t], retag)
                    && #[trigger] album_plans(tracks, genre, retag)[k] == plan_for(
                    tracks[t],
                    genre,
                ),
        forall|t: int|
            0 <= t < tracks.len() && is_tagged(#[trigger] tracks[t], retag) ==> album_plans(
                tracks,
                genre,
                retag,
            ).contains(plan_for(tracks[t], genre)),
    decreases tracks.len(),
{
    if tracks.len() > 0 {
        let rest = tracks.drop_last();
        let last = tracks.len() - 1;
        let before = album_plans(rest, genre, retag);
        let plans = album_plans(tracks, genre, retag);
        lemma_album_plans(rest, genre, retag);
        assert forall|k: int| 0 <= k < plans.len() implies exists|t: int|
            0 <= t < tracks.len() && is_tagged(#[trigger] tracks[t], retag)
                && #[trigger] plans[k] == plan_for(tracks[t], genre) by {
            if k < before.len() {
                assert(plans[k] == before[k]);
                let t = choose|t: int|
                    0 <= t < rest.len() && is_tagged(#[trigger] rest[t], retag) && before[k]
                        == plan_for(rest[t], genre);
                assert(tracks[t] == rest[t]);
            } else {
                assert(is_tagged(tracks[last], retag));
            }
        }
        assert forall|t: int|
            0 <= t < tracks.len() && is_tagged(#[trigger] tracks[t], retag) implies plans.contains(
            plan_for(tracks[t], genre),
        ) by {
            if t < last {
                assert(rest[t] == tracks[t]);
                let k = choose|k: int|
                    0 <= k < before.len() && before[k] == plan_for(rest[t], genre);
                assert(plans[k] == before[k]);
            } else {
                assert(plans[before.len() as int] == plan_for(tracks[t], genre));
            }
        }
    }
}

/// One genre is written across an album: every plan writes the genre found for
/// an album into a file of it, and every file of an album for which a genre was
/// found, and which is to have its genre written, gets one. A file with a genre
/// has it replaced only on request.
pub proof fn law_one_genre_per_album(answers: Seq<AnswerView>, retag: bool)
    ensures
        ({
            let plans = tally_of(answers, retag).plans;
            &&& forall|k: int|
                0 <= k < plans.len() ==> exists|i: int|
                    0 <= i < answers.len() && is_plan_of(
                        #[trigger] plans[k],
                        #[trigger] answers[i],
                        retag,
                    )
            &&& forall|i: int, plan: TagPlanView|
                0 <= i < answers.len() && #[trigger] is_plan_of(plan, answers[i], retag)
                    ==> plans.contains(plan)
            &&& !retag ==> forall|k: int|
                0 <= k < plans.len() ==> (#[trigger] plans[k]).existing_genre is None
        }),
    decreases answers.len(),
{
    if answers.len() > 0 {
        let rest = answers.drop_last();
        let last = answers.len() - 1;
        law_one_genre_per_album(rest, retag);
        let before = tally_of(rest, retag).plans;
        let plans = tally_of(answers, retag).plans;
        let answer = answers.last();
        let fresh = match answer.genre {
            Some(genre) => if retag || !has_genres(answer.album) {
                album_plans(answer.album.tracks, genre, retag)
            } else {
                Seq::empty()
            },
            None => Seq::empty(),
        };
        assert(plans =~= before + fresh);
        if let Some(genre) = answer.genre {
            lemma_album_plans(answer.album.tracks, genre, retag);
        }
        assert forall|k: int| 0 <= k < plans.len() implies exists|i: int|
            0 <= i < answers.len() && is_plan_of(
                #[trigger] plans[k],
                #[trigger] answers[i],
                retag,
            ) by {
            if k < before.len() {
                assert(plans[k] == before[k]);
                let i = choose|i: int|
                    0 <= i < rest.len() && is_plan_of(before[k], #[trigger] rest[i], retag);
                assert(answers[i] == rest[i]);
            } else {
                let genre = answer.genre.unwrap();
                let tracks = answer.album.tracks;
                assert(plans[k] == album_plans(tracks, genre, retag)[k - before.len()]);
                let t = choose|t: int|
                    0 <= t < tracks.len() && is_tagged(#[trigger] tracks[t], retag) && plans[k]
                        == plan_for(tracks[t], genre);
                assert(is_tagged(answer.album.tracks[t], retag));
                assert(is_plan_of(plans[k], answers[last], retag));
            }
        }
        assert forall|i: int, plan: TagPlanView|
            0 <= i < answers.len() && #[trigger] is_plan_of(
                plan,
                answers[i],
                retag,
            ) implies plans.contains(plan) by {
            if i < last {
                assert(is_plan_of(plan, rest[i], retag));
                let k = choose|k: int| 0 <= k < before.len() && before[k] == plan;
                assert(plans[k] == plan);
            } else {
                let tracks = answer.album.tracks;
                let t = choose|t: int|
                    0 <= t < tracks.len() && is_tagged(#[trigger] tracks[t], retag) && plan
                        == plan_for(tracks[t], plan.genre);
                assert(fresh.contains(plan_for(tracks[t], plan.genre)));
                let k = choose|k: int| 0 <= k < fresh.len() && fresh[k] == plan;
                assert(plans[before.len() + k] == plan);
            }
        }
        if !retag {
            assert forall|k: int| 0 <= k < plans.len() implies (
            #[trigger] plans[k]).existing_genre is None by {
                let i = choose|i: int|
                    0 <= i < answers.len() && is_plan_of(plans[k], #[trigger] answers[i], retag);
                assert(is_plan_of(plans[k], answers[i], retag));
            }
        }
    }
}

/// Every album is matched, unmatched or passed over.
pub proof fn law_albums_are_counted(answers: Seq<AnswerView>, retag: bool)
    ensures
        ({
            let tally = tally_of(answers, retag);
            tally.matched_albums + tally.unmatched_albums + tally.skipped_albums == answers.len()
        }),
    decreases answers.len(),
{
    if answers.len() > 0 {
        law_albums_are_counted(answers.drop_last(), retag);
    }
}

/// What tagging does, in order. A dry run does nothing.
pub open spec fn tag_actions(plans: Seq<TagPlanView>, apply: bool) -> Seq<actions::ActionView> {
    if apply {
        plans.map_values(
            |plan: TagPlanView| actions::ActionView::WriteGenre {
                path: plan.path,
                genre: plan.genre,
            },
        )
    } else {
        Seq::empty()
    }
}

/// What tagging does, in order.
pub fn actions_of(plans: &Vec<TagPlan>, apply: bool) -> (res: Vec<Action>)
    ensures
        actions::action_views(res@) == tag_actions(plan_views(plans@), apply),
{
    let mut res: Vec<Action> = Vec::new();
    assert(actions::action_views(res@) =~= Seq::empty());
    if !apply {
        return res;
    }
    let count = plans.len();
    let ghost all = tag_actions(plan_views(plans@), true);
    assert(all.take(0) =~= Seq::empty());
    for i in 0..count
        invariant
            count == plans.len() == all.len(),
            all == tag_actions(plan_views(plans@), true),
            actions::action_views(res@) == all.take(i as int),
    {
        let path = plans[i].path.clone();
        let genre = plans[i].genre.clone();
        push_action(&mut res, Action::WriteGenre { path, genre });
        assert(all.take(i + 1) =~= all.take(i as int).push(all[i as int]));
    }
    assert(all.take(count as int) == all);
    res
}

/// Where the files to tag are.
#[derive(Debug)]
pub enum TagSources {
    /// Below the library root, which has to be a directory.
    Library(FilePath),
    /// At or below the given paths.
    Given(Vec<FilePath>),
}

/// Why there is nothing to tag.
#[derive(Debug, Clone, Copy, PartialEq, Eq)]
pub enum TagSourceError {
    /// The whole library is asked for, and its root is not given.
    AllWithoutServer,
    /// Neither a path nor the library root is given.
    NothingGiven,
}

/// Where the files to tag are: in the whole library if that is asked for or no
/// path is given, else at the given paths.
pub fn resolve_sources(args: &TagArgs) -> (res: Result<TagSources, TagSourceError>)
    ensures
        if args.all || args.sources.len() == 0 {
            match args.server {
                Some(server) => res matches Ok(TagSources::Library(root)) && root@ == server@,
                None => res == Err::<TagSources, TagSourceError>(
                    if args.all {
                        TagSourceError::AllWithoutServer
                    } else {
                        TagSourceError::NothingGiven
                    },
                ),
            }
        } else {
            res matches Ok(TagSources::Given(paths)) && path::path_views(paths@)
                == path::path_views(args.sources@)
        },
{
    if args.all {
        return match &args.server {
            Some(server) => Ok(TagSources::Library(server.clone())),
            None => Err(TagSourceError::AllWithoutServer),
        };
    }
    if args.sources.len() > 0 {
        return Ok(TagSources::Given(clone_paths(&args.sources)));
    }
    match &args.server {
        Some(server) => Ok(TagSources::Library(server.clone())),
        None => Err(TagSourceError::NothingGiven),
    }
}

/// What is tagged, in words or as a path.
pub open spec fn scope_of(args: TagArgs) -> Seq<path::PartView> {
    if args.server is Some && (args.all || args.sources.len() == 0) {
        args.server.unwrap()@
    } else if args.sources.len() == 1 {
        args.sources@[0]@
    } else {
        path::text_path(numbers::decimal(args.sources.len() as nat) + " sources"@)
    }
}

/// What is tagged, in words or as a path.
pub fn describe_scope(args: &TagArgs) -> (res: FilePath)
    ensures
        res@ == scope_of(*args),
{
    if let Some(server) = &args.server {
        if args.all || args.sources.len() == 0 {
            return server.clone();
        }
    }
    if args.sources.len() == 1 {
        return args.sources[0].clone();
    }
    FilePath::from_text(&concat(&decimal_text(args.sources.len() as u64), " sources"))
}

/// Two files belong to the same album exactly if the one names of their album artists
/// and their albums are the same in normal form, whatever else their tags say.
pub proof fn law_same_album(a: audio::TrackView, b: audio::TrackView)
    ensures
        album_of(a) == album_of(b) <==> {
            &&& text::normal_text(text::artist_name(a.albumartist), false) == text::normal_text(
                text::artist_name(b.albumartist),
                false,
            )
            &&& text::normal_text(a.album, false) == text::normal_text(b.album, false)
        },
        a.albumartist == b.albumartist && a.album == b.album ==> album_of(a) == album_of(b),
{
}

/// Albums are ordered by the artist, and albums of one artist by their name.
pub proof fn law_albums_are_ordered(a: KeyView, b: KeyView)
    ensures
        a.albumartist != b.albumartist ==> key_before(a, b) == order::text_before(
            a.albumartist,
            b.albumartist,
        ),
        a.albumartist == b.albumartist ==> key_before(a, b) == order::text_before(
            a.album,
            b.album,
        ),
{
    order::law_text_order_is_strict();
    let less = order::lexical_order(order::char_order());
    assert(!less(a.albumartist, a.albumartist));
}

/// Whether a file is in an album.
pub open spec fn is_listed(file: TagInputView, album: AlbumGroupView) -> bool {
    exists|t: int|
        0 <= t < album.tracks.len() && (#[trigger] album.tracks[t]).path == file.path
            && album.tracks[t].existing_genre == file.existing_genre
}

/// Every file is in an album, and the files of an album are exactly those that
/// belong to the same album as its metadata, as many as there are, in their order.
/// The metadata is that of the first of them. Albums are listed in order.
pub proof fn law_files_are_in_their_albums(
    albums: Seq<AlbumGroupView>,
    files: Seq<TagInputView>,
    i: int,
    g: int,
    h: int,
)
    requires
        are_albums_of(albums, files),
    ensures
        0 <= g < albums.len() ==> {
            let own = files.filter(
                |file: TagInputView| album_of(file.metadata) == album_of(albums[g].metadata),
            );
            &&& albums[g].tracks.len() == own.len() > 0
            &&& albums[g].metadata == own[0].metadata
            &&& forall|t: int|
                0 <= t < own.len() ==> (#[trigger] albums[g].tracks[t]).path == own[t].path
                    && albums[g].tracks[t].existing_genre == own[t].existing_genre
        },
        0 <= g < h < albums.len() ==> key_before(
            album_of(albums[g].metadata),
            album_of(albums[h].metadata),
        ),
        0 <= i < files.len() ==> exists|k: int|
            0 <= k < albums.len() && is_listed(files[i], #[trigger] albums[k]) && album_of(
                albums[k].metadata,
            ) == album_of(files[i].metadata),
{
    let keys = choose|keys: Seq<KeyView>| #[trigger]
        are_keys_of(keys, files) && albums == keys.map_values(|key: KeyView| group_of(files, key));
    assert forall|k: int| 0 <= k < albums.len() implies {
        &&& files_of(files, keys[k]).len() > 0
        &&& album_of((#[trigger] albums[k]).metadata) == keys[k]
        &&& albums[k] == group_of(files, keys[k])
    } by {
        assert(albums[k] == group_of(files, keys[k]));
        assert(keys.contains(keys[k]));
        assert(is_key_of(files, keys[k]));
        lemma_files_of(files, keys[k]);
    }
    if 0 <= g < albums.len() {
        let key = keys[g];
        let wanted = |file: TagInputView| album_of(file.metadata) == key;
        assert(album_of(albums[g].metadata) == key);
        assert(files_of(files, key) == files.filter(wanted));
    }
    if 0 <= g < h < albums.len() {
        let less = key_order();
        assert(album_of(albums[g].metadata) == keys[g]);
        assert(album_of(albums[h].metadata) == keys[h]);
        assert(less(keys[g], keys[h]));
    }
    if 0 <= i < files.len() {
        let key = album_of(files[i].metadata);
        assert(is_key_of(files, key));
        assert(keys.contains(key));
        let k = choose|k: int| 0 <= k < keys.len() && keys[k] == key;
        lemma_files_of(files, key);
        let own = files_of(files, key);
        assert(own.contains(files[i]));
        let t = choose|t: int| 0 <= t < own.len() && own[t] == files[i];
        assert(albums[k].tracks[t] == listed(own[t]));
        assert(is_listed(files[i], albums[k]));
    }
}

proof fn lemma_files_of(files: Seq<TagInputView>, key: KeyView)
    ensures
        ({
            let own = files_of(files, key);
            &&& forall|t: int| 0 <= t < own.len() ==> album_of((#[trigger] own[t]).metadata) == key
            &&& forall|i: int|
                0 <= i < files.len() && album_of((#[trigger] files[i]).metadata) == key
                    ==> own.contains(files[i])
            &&& is_key_of(files, key) ==> own.len() > 0
        }),
    decreases files.len(),
{
    reveal(Seq::filter);
    let own = files_of(files, key);
    if files.len() > 0 {
        let rest = files.drop_last();
        let before = files_of(rest, key);
        lemma_files_of(rest, key);
        assert forall|i: int|
            0 <= i < files.len() && album_of((#[trigger] files[i]).metadata)
                == key implies own.contains(files[i]) by {
            if i < rest.len() {
                assert(rest[i] == files[i]);
                let t = choose|t: int| 0 <= t < before.len() && before[t] == rest[i];
                assert(own[t] == files[i]);
            } else {
                assert(own[before.len() as int] == files[i]);
            }
        }
    }
    if is_key_of(files, key) {
        let i = choose|i: int|
            0 <= i < files.len() && album_of((#[trigger] files[i]).metadata) == key;
        assert(own.contains(files[i]));
    }
}

/// What is tallied for one album. If no genre is to be replaced and every file has
/// one, the album and its files are passed over. Else, if a genre was found, it is
/// to be written, and the files that keep theirs are passed over; if none was found,
/// nothing is.
pub proof fn law_one_album_is_tallied(answer: AnswerView, retag: bool)
    ensures
        ({
            let tally = tally_of(seq![answer], retag);
            let tracks = answer.album.tracks;
            let lacking = exists|t: int|
                0 <= t < tracks.len() && (#[trigger] tracks[t]).existing_genre is None;
            let asked = retag || lacking;
            &&& tally.skipped_albums == if asked {
                0nat
            } else {
                1
            }
            &&& tally.matched_albums == if asked && answer.genre is Some {
                1nat
            } else {
                0
            }
            &&& tally.unmatched_albums == if asked && answer.genre is None {
                1nat
            } else {
                0
            }
            &&& !asked ==> tally.skipped_files == tracks.len() && tally.plans.len() == 0
            &&& asked && answer.genre is None ==> tally.skipped_files == 0 && tally.plans.len()
                == 0
            &&& asked && answer.genre is Some ==> {
                &&& tally.skipped_files + tally.plans.len() == tracks.len()
                &&& tally.plans == album_plans(tracks, answer.genre.unwrap(), retag)
            }
        }),
{
    let one = seq![answer];
    assert(one.drop_last() =~= Seq::empty());
    assert(tally_of(one.drop_last(), retag).plans == Seq::<TagPlanView>::empty());
    assert(one.last() == answer);
    if let Some(genre) = answer.genre {
        let plans = album_plans(answer.album.tracks, genre, retag);
        assert(Seq::<TagPlanView>::empty() + plans =~= plans);
        lemma_album_plans(answer.album.tracks, genre, retag);
    }
}

/// Tallies of two lists of albums add up.
pub proof fn law_tallies_add_up(a: Seq<AnswerView>, b: Seq<AnswerView>, retag: bool)
    ensures
        ({
            let first = tally_of(a, retag);
            let second = tally_of(b, retag);
            let all = tally_of(a + b, retag);
            &&& all.plans == first.plans + second.plans
            &&& all.matched_albums == first.matched_albums + second.matched_albums
            &&& all.unmatched_albums == first.unmatched_albums + second.unmatched_albums
            &&& all.skipped_albums == first.skipped_albums + second.skipped_albums
            &&& all.skipped_files == first.skipped_files + second.skipped_files
        }),
    decreases b.len(),
{
    if b.len() == 0 {
        assert(a + b =~= a);
        assert(tally_of(a, retag).plans + Seq::<TagPlanView>::empty() =~= tally_of(a, retag).plans);
    } else {
        let rest = b.drop_last();
        law_tallies_add_up(a, rest, retag);
        assert((a + b).drop_last() =~= a + rest);
        assert((a + b).last() == b.last());
        let first = tally_of(a, retag).plans;
        let second = tally_of(rest, retag).plans;
        if let Some(genre) = b.last().genre {
            let plans = album_plans(b.last().album.tracks, genre, retag);
            lemma_album_plans(b.last().album.tracks, genre, retag);
            assert(first + second + plans =~= first + (second + plans));
        }
    }
}

/// Which files of an album get its genre, one by one: each one that has none, or each
/// one if genres are replaced. The plan names the file, the genre found, and the
/// genre that the file had.
pub proof fn law_album_files_get_the_genre(
    a: Seq<AlbumTrackView>,
    b: Seq<AlbumTrackView>,
    track: AlbumTrackView,
    genre: Seq<char>,
    retag: bool,
)
    ensures
        album_plans(a + b, genre, retag) == album_plans(a, genre, retag) + album_plans(
            b,
            genre,
            retag,
        ),
        track.existing_genre is Some && !retag ==> album_plans(seq![track], genre, retag).len()
            == 0,
        track.existing_genre is None || retag ==> {
            let plans = album_plans(seq![track], genre, retag);
            &&& plans.len() == 1
            &&& plans[0].path == track.path
            &&& plans[0].genre == genre
            &&& plans[0].existing_genre == track.existing_genre
        },
    decreases b.len(),
{
    let one = seq![track];
    assert(one.drop_last() =~= Seq::empty());
    assert(album_plans(one.drop_last(), genre, retag).len() == 0);
    assert(one.last() == track);
    let first = album_plans(a, genre, retag);
    if b.len() == 0 {
        assert(a + b =~= a);
        assert(first + Seq::<TagPlanView>::empty() =~= first);
    } else {
        let rest = b.drop_last();
        law_album_files_get_the_genre(a, rest, track, genre, retag);
        assert((a + b).drop_last() =~= a + rest);
        assert((a + b).last() == b.last());
        let second = album_plans(rest, genre, retag);
        let plan = plan_for(b.last(), genre);
        assert(first + second.push(plan) =~= (first + second).push(plan));
    }
}

/// Each plan becomes one action, which writes its genre into its file, and nothing
/// else is done. A dry run does nothing.
pub proof fn law_genres_are_written(plans: Seq<TagPlanView>, i: int)
    ensures
        tag_actions(plans, false).len() == 0,
        tag_actions(plans, true).len() == plans.len(),
        0 <= i < plans.len() ==> {
            let action = tag_actions(plans, true)[i];
            &&& action is WriteGenre
            &&& action->WriteGenre_path == plans[i].path
            &&& action->genre == plans[i].genre
        },
{
}

/// What is said to be tagged: the library root if the library is tagged, the path if
/// one is given, and how many are given otherwise.
pub proof fn law_scope(args: TagArgs)
    ensures
        ({
            let whole = args.server is Some && (args.all || args.sources.len() == 0);
            let count = numbers::decimal(args.sources.len() as nat) + seq![
                ' ',
                's',
                'o',
                'u',
                'r',
                'c',
                'e',
                's',
            ];
            &&& whole ==> scope_of(args) == args.server.unwrap()@
            &&& !whole && args.sources.len() == 1 ==> scope_of(args) == args.sources@[0]@
            &&& !whole && args.sources.len() != 1 ==> scope_of(args) == seq![
                path::PartView::Name(vstd::utf8::encode_utf8(count)),
            ]
        }),
{
    let digits = numbers::decimal(args.sources.len() as nat);
    let count = digits + " sources"@;
    reveal_strlit(" sources");
    assert(" sources"@ =~= seq![' ', 's', 'o', 'u', 'r', 'c', 'e', 's']);
    numbers::law_decimal_round_trip(args.sources.len() as nat);
    assert(!count.contains('/')) by {
        if count.contains('/') {
            let i = choose|i: int| 0 <= i < count.len() && count[i] == '/';
            if i < digits.len() {
                assert(digits[i] == '/');
                chars::law_ascii_classes(digits[i]);
                assert(chars::is_ascii_digit_char(digits[i]));
            }
        }
    }
    path::law_join_plain_name(Seq::empty(), count);
    assert(Seq::<path::PartView>::empty().push(
        path::PartView::Name(vstd::utf8::encode_utf8(count)),
    ) =~= seq![path::PartView::Name(vstd::utf8::encode_utf8(count))]);
}

} // verus!
