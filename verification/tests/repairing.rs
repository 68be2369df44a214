use musee::actions::Action;
use musee::audio::{EmbeddedLyrics, TrackMetadata};
use musee::commands::repair::{
    actions_of, build_plan, closing_actions, count_changes, lyrics_report, LyricsReport,
    RepairInput, RepairPlan, RepairStep,
};
use musee::known::KnownFiles;
use musee::lyrics::{
    merge_lrc_content, LyricsAction, LyricsEvent, LyricsOutcome, LyricsWrite,
};
use musee::path::FilePath;
use musee::pathset::PathSet;

fn path(text: &str) -> FilePath {
    FilePath::from_text(text)
}

fn input(source: &str, title: &str, keys: &[&str], content: &str) -> RepairInput {
    RepairInput {
        source: path(source),
        metadata: TrackMetadata {
            albumartist: "A & B".to_string(),
            artist: "A & B".to_string(),
            album: "Album".to_string(),
            title: title.to_string(),
            tracknumber: None,
        },
        lyrics: EmbeddedLyrics {
            tag_keys: keys.iter().map(|key| key.to_string()).collect(),
            content: content.to_string(),
        },
        bytes: 9,
    }
}

struct Library {
    reserved: PathSet,
    sidecars: PathSet,
}

impl Library {
    fn new() -> Library {
        Library { reserved: PathSet::new(), sidecars: PathSet::new() }
    }

    fn plan(&mut self, input: &RepairInput, present: &[&str]) -> RepairPlan {
        let mut known = KnownFiles::new();
        loop {
            match build_plan(input, &path("/srv"), &mut self.reserved, &mut self.sidecars, &known) {
                RepairStep::Planned(plan) => return plan,
                RepairStep::Ask(file) => {
                    assert_eq!(known.is_present(&file), None);
                    let found = present.iter().any(|text| path(text).is_same(&file));
                    known.record(file, found);
                }
                RepairStep::Exhausted => panic!("a plan is possible"),
            }
        }
    }
}

#[test]
fn merges_embedded_lyrics_after_existing_lrc() {
    assert_eq!(
        merge_lrc_content("[00:01.00]existing\n", "plain\nlyrics\n"),
        "[00:01.00]existing\n\nplain\nlyrics\n"
    );
}

#[test]
fn does_not_duplicate_existing_lyrics() {
    let existing = "[00:01.00]same\r\n";
    assert_eq!(merge_lrc_content(existing, "[00:01.00]same\n"), existing);
}

#[test]
fn merging_twice_is_merging_once() {
    let once = merge_lrc_content("\r\n old\r\n\r\n", "\nnew\nlines\n");
    assert_eq!(once, "\r\n old\n\nnew\nlines\n");
    assert_eq!(merge_lrc_content(&once, "\nnew\nlines\n"), once);
    assert_eq!(merge_lrc_content("", "new"), "new\n");
    assert_eq!(merge_lrc_content("\n\n", "new"), "new\n");
    assert_eq!(merge_lrc_content("old", "\r\n"), "old");
    assert_eq!(merge_lrc_content("old new", "new"), "old new\n\nnew\n");
    assert_eq!(merge_lrc_content("old\r\rnew\r", "new"), "old\r\rnew\r");
}

#[test]
fn a_misplaced_file_is_moved_with_its_companions() {
    let mut library = Library::new();
    let file = input("/srv/in/song.flac", "Song", &["LYRICS"], "la\n");
    let planned = library.plan(&file, &["/srv/in/song.txt"]);
    assert!(planned.target.is_same(&path("/srv/A/Album/Song.flac")));
    assert_eq!(planned.tag_updates.albumartist.as_deref(), Some("A"));
    assert_eq!(planned.sidecars.len(), 2);
    assert!(planned.sidecars[0].source.is_same(&path("/srv/in/song.txt")));
    assert!(planned.sidecars[1].source.is_same(&path("/srv/in/song.lrc")));
    let (source, target) = planned.lyrics_sidecar.as_ref().expect("a lyrics file");
    assert!(source.is_same(&path("/srv/in/song.lrc")));
    assert!(target.is_same(&path("/srv/A/Album/Song.lrc")));
    assert_eq!(planned.bytes, 9);

    let list = actions_of(&planned, true);
    assert_eq!(list.len(), 5);
    assert!(matches!(
        &list[0],
        Action::WriteLyrics { path: file, content }
            if file.is_same(&path("/srv/in/song.lrc")) && content == "la\n"
    ));
    assert!(matches!(
        &list[1],
        Action::RewriteTags { path: file, remove, .. }
            if file.is_same(&path("/srv/in/song.flac")) && remove == &vec!["LYRICS".to_string()]
    ));
    assert!(matches!(&list[2], Action::Move { target, .. } if target.is_same(&planned.target)));
    assert!(matches!(&list[3], Action::MoveIfPresent { .. }));
    assert!(matches!(&list[4], Action::MoveIfPresent { .. }));
    assert!(actions_of(&planned, false).is_empty());
}

#[test]
fn an_existing_lyrics_file_is_used() {
    let mut library = Library::new();
    let file = input("/srv/in/song.flac", "Song", &["LYRICS"], "la\n");
    let planned = library.plan(&file, &["/srv/in/song.lrc", "/srv/A/Album/Song.lrc"]);
    assert_eq!(planned.sidecars.len(), 1);
    let (source, target) = planned.lyrics_sidecar.as_ref().expect("a lyrics file");
    assert!(source.is_same(&path("/srv/in/song.lrc")));
    assert!(target.is_same(&path("/srv/A/Album/Song (1).lrc")));
}

#[test]
fn files_never_share_a_target() {
    let mut library = Library::new();
    let here = "/srv/A/Album/Song.flac";
    let first = library.plan(&input("/srv/in/song.flac", "Song", &[], ""), &[]);
    let second = library.plan(&input(here, "Song", &[], ""), &[here]);
    assert!(first.target.is_same(&path(here)));
    assert!(second.target.is_same(&path("/srv/A/Album/Song (1).flac")));
}

#[test]
fn a_repaired_file_stays() {
    let mut library = Library::new();
    let here = "/srv/A/Album/Song.flac";
    let planned = library.plan(&input(here, "Song", &["LYRICS"], ""), &[here]);
    assert!(planned.target.is_same(&path(here)));
    assert!(planned.lyrics_sidecar.is_none());
    let list = actions_of(&planned, true);
    assert_eq!(list.len(), 1);
    assert!(matches!(&list[0], Action::RewriteTags { .. }));
}

#[test]
fn changes_are_counted_and_reported() {
    let mut library = Library::new();
    let here = "/srv/A/Album/Song.flac";
    let stays = library.plan(&input(here, "Song", &["LYRICS"], ""), &[here]);
    let moves = library.plan(&input("/srv/x.flac", "Other", &["LYRICS"], "la\n"), &[]);
    let plain = library.plan(&input("/srv/y.flac", "Third", &[], ""), &[]);
    assert!(matches!(lyrics_report(&stays), LyricsReport::Emptied));
    assert!(matches!(
        lyrics_report(&moves),
        LyricsReport::Separated(file) if file.is_same(&path("/srv/A/Album/Other.lrc"))
    ));
    assert!(matches!(lyrics_report(&plain), LyricsReport::Nothing));
    let counts = count_changes(&vec![stays, moves, plain]);
    assert_eq!(counts.moves, 2);
    assert_eq!(counts.tags, 3);
    assert_eq!(counts.lyrics, 2);
}

#[test]
fn repair_ends_with_empty_directories() {
    assert!(closing_actions(&path("/srv"), false).is_empty());
    let list = closing_actions(&path("/srv"), true);
    assert_eq!(list.len(), 1);
    assert!(matches!(
        &list[0],
        Action::RemoveEmptyDirectories { root } if root.is_same(&path("/srv"))
    ));
}

fn outcome(write: &LyricsWrite) -> LyricsOutcome {
    match write.action() {
        LyricsAction::Finish(outcome) => outcome,
        other => panic!("not finished: {:?}", other),
    }
}

#[test]
fn a_lyrics_file_is_replaced_whole() {
    let mut write = LyricsWrite::begin(path("/a/song.lrc"), "new\n", 7);
    assert!(matches!(write.action(), LyricsAction::Read(file) if file.is_same(&path("/a/song.lrc"))));
    write.advance(LyricsEvent::Text("old\n".to_string()));
    assert!(matches!(
        write.action(),
        LyricsAction::Check(file) if file.is_same(&path("/a/song.lrc.musee-tmp-7"))
    ));
    write.advance(LyricsEvent::Absent);
    assert!(matches!(write.action(), LyricsAction::Write(_, text) if text == "old\n\nnew\n"));
    write.advance(LyricsEvent::Done);
    assert!(matches!(
        write.action(),
        LyricsAction::Rename(source, target)
            if source.is_same(&path("/a/song.lrc.musee-tmp-7"))
                && target.is_same(&path("/a/song.lrc"))
    ));
    write.advance(LyricsEvent::Done);
    assert_eq!(outcome(&write), LyricsOutcome::Written);
}

#[test]
fn lyrics_that_are_there_are_not_written() {
    let mut write = LyricsWrite::begin(path("/a/song"), "same\n", 1);
    write.advance(LyricsEvent::Text("same\r\n".to_string()));
    assert_eq!(outcome(&write), LyricsOutcome::Unchanged);
    let mut none = LyricsWrite::begin(path("/a/song"), "\n", 1);
    none.advance(LyricsEvent::Absent);
    assert_eq!(outcome(&none), LyricsOutcome::Unchanged);
}

#[test]
fn every_fault_of_a_lyrics_file_is_named() {
    let begin = || LyricsWrite::begin(path("/a/song"), "new", 3);
    let mut write = begin();
    write.advance(LyricsEvent::Failed);
    assert_eq!(outcome(&write), LyricsOutcome::ReadFailed);

    let mut write = begin();
    write.advance(LyricsEvent::Absent);
    assert!(matches!(
        write.action(),
        LyricsAction::Check(file) if file.is_same(&path("/a/song.lrc.musee-tmp-3"))
    ));
    write.advance(LyricsEvent::Present);
    assert_eq!(outcome(&write), LyricsOutcome::TemporaryExists);

    let mut write = begin();
    write.advance(LyricsEvent::Absent);
    write.advance(LyricsEvent::Failed);
    assert_eq!(outcome(&write), LyricsOutcome::CheckFailed);

    let mut write = begin();
    write.advance(LyricsEvent::Absent);
    write.advance(LyricsEvent::Absent);
    write.advance(LyricsEvent::Failed);
    assert_eq!(outcome(&write), LyricsOutcome::WriteFailed);

    let mut write = begin();
    write.advance(LyricsEvent::Absent);
    write.advance(LyricsEvent::Absent);
    write.advance(LyricsEvent::Done);
    write.advance(LyricsEvent::Failed);
    assert!(matches!(write.action(), LyricsAction::Remove(_)));
    write.advance(LyricsEvent::Failed);
    assert_eq!(outcome(&write), LyricsOutcome::InstallFailed);
}
