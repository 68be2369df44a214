use musee::actions::Action;
use musee::audio::TrackMetadata;
use musee::cli::TagArgs;
use musee::commands::tag::{
    actions_of, album_key, describe_scope, group_albums, needs_lookup, plan_tags, resolve_sources,
    AnsweredAlbum, TagInput, TagSourceError, TagSources,
};
use musee::path::FilePath;

fn path(text: &str) -> FilePath {
    FilePath::from_text(text)
}

fn file(name: &str, artist: &str, album: &str, genre: Option<&str>) -> TagInput {
    TagInput {
        path: path(name),
        metadata: TrackMetadata {
            albumartist: artist.to_string(),
            artist: artist.to_string(),
            album: album.to_string(),
            title: name.to_string(),
            tracknumber: None,
        },
        existing_genre: genre.map(str::to_string),
    }
}

fn args(server: Option<&str>, all: bool, sources: &[&str]) -> TagArgs {
    TagArgs {
        server: server.map(path),
        apply: false,
        all,
        retag: false,
        sources: sources.iter().map(|text| path(text)).collect(),
    }
}

fn answers(genres: &[Option<&str>]) -> Vec<AnsweredAlbum> {
    let files = vec![
        file("a1", "A", "X", Some("Old")),
        file("a2", "A", "X", None),
        file("b1", "B", "Y", Some("Old")),
        file("c1", "C", "Z", None),
        file("c2", "C", "Z", None),
    ];
    group_albums(&files)
        .into_iter()
        .zip(genres)
        .map(|(album, genre)| AnsweredAlbum { album, genre: genre.map(str::to_string) })
        .collect()
}

#[test]
fn albums_are_grouped_in_order() {
    let files = vec![
        file("1", "B", "Two", None),
        file("2", "A feat. C", "One_", None),
        file("3", "B", "One", None),
        file("4", "A", "One", Some("Jazz")),
    ];
    let albums = group_albums(&files);
    assert_eq!(albums.len(), 3);
    assert_eq!(albums[0].metadata.albumartist, "A feat. C");
    assert_eq!(albums[0].tracks.len(), 2);
    assert!(albums[0].tracks[0].path.is_same(&path("2")));
    assert!(albums[0].tracks[1].path.is_same(&path("4")));
    assert_eq!(albums[0].tracks[1].existing_genre.as_deref(), Some("Jazz"));
    assert!(albums[1].tracks[0].path.is_same(&path("3")));
    assert!(albums[2].tracks[0].path.is_same(&path("1")));
    assert!(group_albums(&Vec::new()).is_empty());
    let key = album_key(&files[1].metadata);
    assert_eq!(key.albumartist, "A");
    assert_eq!(key.album, "One");
}

#[test]
fn one_genre_is_written_across_an_album() {
    let planning = plan_tags(&answers(&[Some("Soul"), Some("Rock"), Some("Jazz")]), false);
    assert_eq!(planning.plans.len(), 3);
    assert!(planning.plans[0].path.is_same(&path("a2")));
    assert_eq!(planning.plans[0].genre, "Soul");
    assert_eq!(planning.plans[0].existing_genre, None);
    assert_eq!(planning.plans[1].genre, "Jazz");
    assert_eq!(planning.plans[2].genre, "Jazz");
    assert_eq!(planning.matched_albums, 2);
    assert_eq!(planning.unmatched_albums, 0);
    assert_eq!(planning.skipped_albums, 1);
    assert_eq!(planning.skipped_files, 2);
}

#[test]
fn existing_genres_are_replaced_on_request_only() {
    let planning = plan_tags(&answers(&[Some("Soul"), Some("Rock"), None]), true);
    assert_eq!(planning.plans.len(), 3);
    assert_eq!(planning.plans[0].existing_genre.as_deref(), Some("Old"));
    assert!(planning.plans[2].path.is_same(&path("b1")));
    assert_eq!(planning.plans[2].genre, "Rock");
    assert_eq!(planning.matched_albums, 2);
    assert_eq!(planning.unmatched_albums, 1);
    assert_eq!(planning.skipped_albums, 0);
    assert_eq!(planning.skipped_files, 0);
    let list = answers(&[None, None, None]);
    assert!(needs_lookup(&list[0].album, false));
    assert!(!needs_lookup(&list[1].album, false));
    assert!(needs_lookup(&list[1].album, true));
}

#[test]
fn a_dry_run_of_tagging_does_nothing() {
    let planning = plan_tags(&answers(&[Some("Soul"), None, None]), false);
    assert!(actions_of(&planning.plans, false).is_empty());
    let list = actions_of(&planning.plans, true);
    assert_eq!(list.len(), 1);
    assert!(matches!(
        &list[0],
        Action::WriteGenre { path: file, genre } if file.is_same(&path("a2")) && genre == "Soul"
    ));
}

#[test]
fn sources_are_resolved() {
    assert!(matches!(
        resolve_sources(&args(Some("/srv"), true, &["x"])),
        Ok(TagSources::Library(root)) if root.is_same(&path("/srv"))
    ));
    assert!(matches!(
        resolve_sources(&args(Some("/srv"), false, &["x", "y"])),
        Ok(TagSources::Given(list)) if list.len() == 2 && list[1].is_same(&path("y"))
    ));
    assert!(matches!(
        resolve_sources(&args(Some("/srv"), false, &[])),
        Ok(TagSources::Library(root)) if root.is_same(&path("/srv"))
    ));
    assert!(matches!(
        resolve_sources(&args(None, true, &["x"])),
        Err(TagSourceError::AllWithoutServer)
    ));
    assert!(matches!(resolve_sources(&args(None, false, &[])), Err(TagSourceError::NothingGiven)));
}

#[test]
fn the_scope_is_described() {
    assert!(describe_scope(&args(Some("/srv"), true, &["x"])).is_same(&path("/srv")));
    assert!(describe_scope(&args(Some("/srv"), false, &["x"])).is_same(&path("x")));
    assert!(describe_scope(&args(None, false, &["x", "y"])).is_same(&path("2 sources")));
    assert!(describe_scope(&args(None, true, &[])).is_same(&path("0 sources")));
}
