use musee::actions::{transfer_total, Action};
use musee::audio::{canonical_destination, TagUpdates, TrackMetadata};
use musee::cli::{AddArgs, EncodingProfile};
use musee::commands::add::{
    accepted_input, actions_of, build_plan, canonicalize_for_add, count_collisions, AddInput,
    AddPlan, AddStep,
};
use musee::known::KnownFiles;
use musee::path::FilePath;
use musee::pathset::{Claims, PathSet};
use musee::reserve::{available, numbered, reserve_unique, Precedence, Reservation};
use musee::sidecars::{is_album_sidecar, DirEntry};

fn path(text: &str) -> FilePath {
    FilePath::from_text(text)
}

fn track(title: &str) -> TrackMetadata {
    TrackMetadata {
        albumartist: "Artist".to_string(),
        artist: "Artist".to_string(),
        album: "Album".to_string(),
        title: title.to_string(),
        tracknumber: Some("1".to_string()),
    }
}

fn args(apply: bool, encoding: Option<EncodingProfile>) -> AddArgs {
    AddArgs {
        server: Some(path("/srv")),
        apply,
        encoding,
        unreleased: false,
        unreleased_artist: None,
        sources: vec![path("/in")],
    }
}

fn input(source: &str, title: &str, entries: &[(&str, bool)]) -> AddInput {
    AddInput {
        source: path(source),
        metadata: track(title),
        entries: entries
            .iter()
            .map(|(entry, is_file)| DirEntry { path: path(entry), is_file: *is_file })
            .collect(),
        bytes: 5,
    }
}

fn plan(input: &AddInput, reserved: &mut PathSet, args: &AddArgs, present: &[&str]) -> AddPlan {
    let mut known = KnownFiles::new();
    loop {
        match build_plan(input, &path("/srv"), reserved, args, &known) {
            AddStep::Planned(plan) => return plan,
            AddStep::Ask(file) => {
                assert_eq!(known.is_present(&file), None);
                let found = present.iter().any(|text| path(text).is_same(&file));
                known.record(file, found);
            }
            AddStep::Exhausted | AddStep::MissingParent => panic!("a plan is possible"),
        }
    }
}

#[test]
fn unreleased_defaults_to_ye_and_writes_missing_tags() {
    let metadata = TrackMetadata {
        albumartist: "Downloads".to_string(),
        artist: "Downloads".to_string(),
        album: String::new(),
        title: "Never See Me Again".to_string(),
        tracknumber: None,
    };

    let track = canonicalize_for_add(metadata, true, None);

    assert!(canonical_destination(&path("Music"), &track, ".flac")
        .is_same(&path("Music/Ye/Unreleased/Never See Me Again.flac")));
    assert_eq!(track.tag_updates.albumartist.as_deref(), Some("Ye"));
    assert_eq!(track.tag_updates.artist.as_deref(), Some("Ye"));
    assert_eq!(track.tag_updates.album.as_deref(), Some("Unreleased"));
    assert_eq!(track.tag_updates.title.as_deref(), Some("Never See Me Again"));
}

#[test]
fn unreleased_tracks_may_go_by_another_artist() {
    let filed = canonicalize_for_add(track("Song"), true, Some("Someone & Else"));
    assert_eq!(filed.albumartist, "Someone");
    assert_eq!(filed.album, "Unreleased");
    assert_eq!(filed.tag_updates.artist.as_deref(), Some("Someone & Else"));
    assert_eq!(filed.tag_updates.genre, None);
    assert!(canonical_destination(&path("/srv"), &filed, ".flac")
        .is_same(&path("/srv/Someone/Unreleased/01 - Song.flac")));
    let plain = canonicalize_for_add(track("Song"), false, Some("Someone"));
    assert_eq!(plain.albumartist, "Artist");
    assert!(plain.tag_updates.is_empty());
}

#[test]
fn other_formats_are_accepted_for_transcoding_only() {
    assert!(accepted_input(&path("a.mp3"), true));
    assert!(!accepted_input(&path("a.mp3"), false));
    assert!(accepted_input(&path("a.flac"), false));
}

#[test]
fn numbered_names_stand_beside_the_target() {
    assert!(numbered(&path("/a/b.flac"), 0).is_same(&path("/a/b.flac")));
    assert!(numbered(&path("/a/b.flac"), 1).is_same(&path("/a/b (1).flac")));
    assert!(numbered(&path("b"), 12).is_same(&path("b (12)")));
    assert!(numbered(&path("/"), 1).is_same(&path("file (1)")));
}

#[test]
fn a_path_may_be_free_taken_or_unknown() {
    let mut reserved = PathSet::new();
    reserved.insert(path("/taken"));
    let mut known = KnownFiles::new();
    known.record(path("/there"), true);
    known.record(path("/free"), false);
    known.record(path("/taken"), false);
    let claims = Claims::over(&reserved);
    let own = path("/taken");
    let check = |precedence: Precedence, target: &str, current: Option<&FilePath>| {
        available(precedence, &path(target), &claims, current, &known)
    };
    assert_eq!(check(Precedence::OwnPath, "/free", None), Some(true));
    assert_eq!(check(Precedence::OwnPath, "/there", None), Some(false));
    assert_eq!(check(Precedence::OwnPath, "/taken", None), Some(false));
    assert_eq!(check(Precedence::OwnPath, "/unknown", None), None);
    assert_eq!(check(Precedence::OwnPath, "/taken", Some(&own)), Some(true));
    assert_eq!(check(Precedence::Reservation, "/taken", Some(&own)), Some(false));
    assert_eq!(check(Precedence::Reservation, "/free", None), Some(true));
}

#[test]
fn the_first_free_path_is_reserved() {
    let mut reserved = PathSet::new();
    reserved.insert(path("/a.x"));
    let mut known = KnownFiles::new();
    known.record(path("/a.x"), false);
    known.record(path("/a (1).x"), true);
    known.record(path("/a (2).x"), false);
    let mut claims = Claims::over(&reserved);
    match reserve_unique(Precedence::OwnPath, &path("/a.x"), &mut claims, None, &known) {
        Reservation::Free(free) => assert!(free.is_same(&path("/a (2).x"))),
        other => panic!("unexpected {:?}", other),
    }
    assert!(claims.contains(&path("/a (2).x")));
    match reserve_unique(Precedence::OwnPath, &path("/a.x"), &mut claims, None, &known) {
        Reservation::Ask(asked) => assert!(asked.is_same(&path("/a (3).x"))),
        other => panic!("unexpected {:?}", other),
    }
}

#[test]
fn a_file_is_planned_with_its_companions() {
    let file = input(
        "/in/song.FLAC",
        "Song",
        &[
            ("/in/Cover.JPG", true),
            ("/in/folder.png", false),
            ("/in/notes.txt", true),
            ("/in/album.nfo", true),
        ],
    );
    let mut reserved = PathSet::new();
    let planned = plan(
        &file,
        &mut reserved,
        &args(false, None),
        &["/in/song.lrc", "/srv/Artist/Album/album.nfo"],
    );
    assert!(planned.source.is_same(&path("/in/song.FLAC")));
    assert!(planned.target.is_same(&path("/srv/Artist/Album/01 - Song.flac")));
    assert!(!planned.collision);
    assert_eq!(planned.bytes, 5);
    assert_eq!(planned.sidecars.len(), 2);
    assert!(planned.sidecars[0].source.is_same(&path("/in/song.lrc")));
    assert!(planned.sidecars[0].target.is_same(&path("/srv/Artist/Album/01 - Song.lrc")));
    assert!(!planned.sidecars[0].copy_only);
    assert!(planned.sidecars[1].source.is_same(&path("/in/Cover.JPG")));
    assert!(planned.sidecars[1].target.is_same(&path("/srv/Artist/Album/Cover.JPG")));
    assert!(planned.sidecars[1].copy_only);
    assert!(reserved.contains(&planned.target));
    assert!(reserved.contains(&path("/srv/Artist/Album/Cover.JPG")));
    assert!(!reserved.contains(&path("/srv/Artist/Album/album.nfo")));
}

#[test]
fn later_files_give_way_to_earlier_ones() {
    let mut reserved = PathSet::new();
    let options = args(false, None);
    let cover = [("/in/cover.jpg", true)];
    let first = plan(&input("/in/a.flac", "Song", &cover), &mut reserved, &options, &[]);
    let second = plan(&input("/in/b.flac", "Song", &cover), &mut reserved, &options, &[]);
    assert!(first.target.is_same(&path("/srv/Artist/Album/01 - Song.flac")));
    assert!(second.target.is_same(&path("/srv/Artist/Album/01 - Song (1).flac")));
    assert!(second.collision);
    assert_eq!(first.sidecars.len(), 1);
    assert_eq!(second.sidecars.len(), 0);
    assert_eq!(count_collisions(&vec![first, second]), 1);
}

#[test]
fn a_file_in_its_place_stays_there() {
    let own = "/srv/Artist/Album/01 - Song.flac";
    let mut reserved = PathSet::new();
    reserved.insert(path(own));
    let planned = plan(&input(own, "Song", &[]), &mut reserved, &args(false, None), &[own]);
    assert!(planned.target.is_same(&path(own)));
    assert!(!planned.collision);
}

#[test]
fn an_unanswered_question_reserves_nothing() {
    let mut reserved = PathSet::new();
    let mut known = KnownFiles::new();
    known.record(path("/srv/Artist/Album/01 - Song.flac"), false);
    let file = input("/in/song.flac", "Song", &[]);
    match build_plan(&file, &path("/srv"), &mut reserved, &args(false, None), &known) {
        AddStep::Ask(asked) => assert!(asked.is_same(&path("/in/song.lrc"))),
        other => panic!("unexpected {:?}", other),
    }
    assert!(!reserved.contains(&path("/srv/Artist/Album/01 - Song.flac")));
}

#[test]
fn transcoded_files_become_flac() {
    let mut reserved = PathSet::new();
    let encoded = plan(
        &input("/in/song.mp3", "Song", &[]),
        &mut reserved,
        &args(false, Some(EncodingProfile::SonosFlac)),
        &[],
    );
    assert!(encoded.target.is_same(&path("/srv/Artist/Album/01 - Song.flac")));
    let kept = plan(
        &input("/in/song.MP3", "Song", &[]),
        &mut reserved,
        &args(false, None),
        &[],
    );
    assert!(kept.target.is_same(&path("/srv/Artist/Album/01 - Song.mp3")));
    let bare = plan(&input("/in/song", "Other", &[]), &mut reserved, &args(false, None), &[]);
    assert!(bare.target.is_same(&path("/srv/Artist/Album/01 - Other.flac")));
}

#[test]
fn a_dry_run_of_adding_does_nothing() {
    let mut reserved = PathSet::new();
    let file = input("/in/song.flac", "Song", &[("/in/cover.png", true)]);
    let planned = plan(&file, &mut reserved, &args(false, None), &["/in/song.txt"]);
    assert!(actions_of(&planned, &args(false, None)).is_empty());
    assert!(actions_of(&planned, &args(false, Some(EncodingProfile::SonosFlac))).is_empty());

    let list = actions_of(&planned, &args(true, None));
    assert_eq!(list.len(), 4);
    assert!(matches!(
        &list[0],
        Action::RewriteTags { path, updates, remove }
            if path.is_same(&planned.source) && updates.is_empty() && remove.is_empty()
    ));
    assert!(matches!(
        &list[1],
        Action::Move { source, target }
            if source.is_same(&planned.source) && target.is_same(&planned.target)
    ));
    assert!(matches!(&list[2], Action::Move { source, .. } if source.is_same(&path("/in/song.txt"))));
    assert!(matches!(&list[3], Action::Copy { source, .. } if source.is_same(&path("/in/cover.png"))));

    let encoded = actions_of(&planned, &args(true, Some(EncodingProfile::SonosFlac)));
    assert_eq!(encoded.len(), 3);
    assert!(matches!(
        &encoded[0],
        Action::Import { source, target, .. }
            if source.is_same(&planned.source) && target.is_same(&planned.target)
    ));
}

#[test]
fn album_companions_are_known_by_name() {
    assert!(is_album_sidecar("FOLDER.jpeg"));
    assert!(is_album_sidecar("album.nfo"));
    assert!(!is_album_sidecar("cover.gif"));
    assert!(!is_album_sidecar("my cover.jpg"));
}

#[test]
fn transfers_are_summed_up() {
    assert_eq!(transfer_total(&vec![]), Some(1));
    assert_eq!(transfer_total(&vec![0, 0]), Some(1));
    assert_eq!(transfer_total(&vec![2, 3]), Some(5));
    assert_eq!(transfer_total(&vec![u64::MAX, 0]), Some(u64::MAX));
    assert_eq!(transfer_total(&vec![u64::MAX, 1]), None);
}

#[test]
fn answers_about_files_are_kept() {
    let mut known = KnownFiles::new();
    assert_eq!(known.is_present(&path("/a")), None);
    known.record(path("/a"), true);
    known.record(path("/b"), false);
    assert_eq!(known.is_present(&path("/a")), Some(true));
    assert_eq!(known.is_present(&path("/b")), Some(false));
    known.record(path("/a"), false);
    assert_eq!(known.is_present(&path("/a")), Some(false));
    assert!(TagUpdates::default().is_empty());
}
