use musee::actions::Action;
use musee::audio::TrackMetadata;
use musee::commands::dedupe::{
    actions_of, count_unverified, files_to_remove, find_duplicates, plan_dedupe,
    redundant_album_dirs, ScannedFile,
};
use musee::encoding::{fingerprint, StreamInfo};
use musee::path::FilePath;
use musee::pathset::{sorted_unique, PathSet};

fn path(text: &str) -> FilePath {
    FilePath::from_text(text)
}

fn scan(file: &str, sound: Option<u8>, title: &str) -> ScannedFile {
    ScannedFile {
        path: path(file),
        audio: sound.map(|byte| {
            let stream = StreamInfo {
                max_block_size: 4096,
                min_frame_size: 1,
                max_frame_size: 1,
                sample_rate: 44_100,
                num_channels: 2,
                bits_per_sample: 16,
                total_samples: 10,
                md5: vec![byte; 16],
            };
            let metadata = TrackMetadata {
                albumartist: "Artist".to_string(),
                artist: "Artist".to_string(),
                album: "Album".to_string(),
                title: title.to_string(),
                tracknumber: None,
            };
            (fingerprint(&stream).expect("a fingerprint"), metadata)
        }),
    }
}

#[test]
fn recognizes_an_album_when_every_track_is_removed() {
    let first = path("Artist/Copy/01.flac");
    let second = path("Artist/Copy/02.flac");
    let keep = path("Artist/Original/01.flac");
    let removals = PathSet::from_paths(&vec![first.clone(), second.clone()]);

    let directories = redundant_album_dirs(&vec![first, second, keep], &removals);

    assert_eq!(directories.len(), 1);
    assert!(directories[0].is_same(&path("Artist/Copy")));
}

#[test]
fn redundant_albums_are_listed_once_and_in_order() {
    let files = vec![path("b/1"), path("a/1"), path("b/2"), path("c/1"), path("c/2"), path("/")];
    let removals = PathSet::from_paths(&vec![path("b/1"), path("b/2"), path("a/1"), path("c/1")]);
    let directories = redundant_album_dirs(&files, &removals);
    assert_eq!(directories.len(), 2);
    assert!(directories[0].is_same(&path("a")));
    assert!(directories[1].is_same(&path("b")));
}

#[test]
fn the_file_in_its_place_is_kept() {
    let files = vec![
        scan("/srv/A/copy.flac", Some(1), "Song"),
        scan("/srv/Artist/Album/Song.flac", Some(1), "Song"),
        scan("/srv/Z/copy.flac", Some(1), "Song"),
        scan("/srv/Z/other.flac", Some(2), "Other"),
        scan("/srv/Z/raw.flac", None, ""),
        scan("/srv/Z/raw2.flac", None, ""),
    ];
    let groups = find_duplicates(&path("/srv"), &files);
    assert_eq!(groups.len(), 1);
    assert!(groups[0].keeper.is_same(&path("/srv/Artist/Album/Song.flac")));
    assert_eq!(groups[0].duplicates.len(), 2);
    assert!(groups[0].duplicates[0].is_same(&path("/srv/A/copy.flac")));
    assert!(groups[0].duplicates[1].is_same(&path("/srv/Z/copy.flac")));
    assert_eq!(count_unverified(&files), 2);
}

#[test]
fn a_copied_album_is_redundant() {
    let files = vec![
        scan("/srv/Artist/Album/Song.flac", Some(1), "Song"),
        scan("/srv/Copy/Song.flac", Some(1), "Song"),
        scan("/srv/Other/Song.flac", Some(1), "Song"),
        scan("/srv/Other/raw.flac", None, ""),
    ];
    let plan = plan_dedupe(&path("/srv"), &files);
    assert_eq!(plan.groups.len(), 1);
    assert_eq!(plan.removals.len(), 2);
    assert_eq!(plan.redundant.len(), 1);
    assert!(plan.redundant[0].is_same(&path("/srv/Copy")));
    assert_eq!(plan.unverified, 1);
}

#[test]
fn otherwise_the_first_path_is_kept() {
    let files = vec![
        scan("/srv/b.flac", Some(2), "B"),
        scan("/srv/c.flac", Some(1), "C"),
        scan("/srv/d.flac", Some(1), "C"),
        scan("/srv/e.flac", Some(2), "B"),
    ];
    let groups = find_duplicates(&path("/srv"), &files);
    assert_eq!(groups.len(), 2);
    assert!(groups[0].keeper.is_same(&path("/srv/b.flac")));
    assert!(groups[1].keeper.is_same(&path("/srv/c.flac")));
    let removed = files_to_remove(&groups);
    assert_eq!(removed.len(), 2);
    assert!(removed[0].is_same(&path("/srv/e.flac")));
    assert!(removed[1].is_same(&path("/srv/d.flac")));
}

#[test]
fn duplicates_go_with_their_companions() {
    let removed = vec![path("/srv/x/a.flac")];
    let redundant = vec![path("/srv/x")];
    assert!(actions_of(&path("/srv"), &removed, &redundant, false).is_empty());
    let list = actions_of(&path("/srv"), &removed, &redundant, true);
    assert_eq!(list.len(), 5);
    assert!(matches!(&list[0], Action::Remove { path: file } if file.is_same(&removed[0])));
    assert!(matches!(
        &list[1],
        Action::RemoveIfPresent { path: file } if file.is_same(&path("/srv/x/a.lrc"))
    ));
    assert!(matches!(
        &list[2],
        Action::RemoveIfPresent { path: file } if file.is_same(&path("/srv/x/a.txt"))
    ));
    assert!(matches!(&list[3], Action::CleanAlbum { directory } if directory.is_same(&path("/srv/x"))));
    assert!(matches!(
        &list[4],
        Action::RemoveEmptyDirectories { root } if root.is_same(&path("/srv"))
    ));
}

#[test]
fn sorted_paths_are_listed_once() {
    let list = sorted_unique(vec![path("b"), path("a/z"), path("b"), path("a"), path("/")]);
    assert_eq!(list.len(), 4);
    assert!(list[0].is_same(&path("/")));
    assert!(list[1].is_same(&path("a")));
    assert!(list[2].is_same(&path("a/z")));
    assert!(list[3].is_same(&path("b")));
}
