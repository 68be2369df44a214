use musee::audio::TagUpdates;
use musee::cli::{required_server, Commands, DedupeArgs, MissingServer, TagArgs, TagCommand, TagTarget};
use musee::cli::{AddArgs, RepairArgs};
use musee::fsutil::{
    collect_dirs_recursive, collect_files_recursive, collect_library, collect_sources,
    deepest_first, ensure_directory, files_of_source, DirectoryFault, FileFilter, FileKind, FoundSource,
    SourceFault, WalkStep,
};
use musee::import::{Import, ImportAction, ImportEvent, ImportFault};
use musee::numbers::{decimal_text, parse_i32, parse_unsigned};
use musee::path::FilePath;
use musee::probe::{AudioProbe, ProbeError};
use musee::transcode::{
    temp_flac_path, Argument, Transcode, TranscodeAction, TranscodeEvent, TranscodeFault,
};
use musee::transfer::{
    path_exists, Lookup, Transfer, TransferAction, TransferEvent, TransferOutcome,
};

fn path(text: &str) -> FilePath {
    FilePath::from_text(text)
}

fn words(arguments: &[Argument]) -> Vec<String> {
    arguments
        .iter()
        .map(|argument| match argument {
            Argument::Text(text) => text.clone(),
            Argument::File(file) => {
                format!("<{}>", file.file_name_text().expect("a name"))
            }
        })
        .collect()
}

#[test]
fn a_file_is_renamed_into_place() {
    let mut transfer = Transfer::begin(path("/a/x"), path("/b/y"), false);
    assert!(matches!(transfer.action(), TransferAction::Check(file) if file.is_same(&path("/b/y"))));
    transfer.advance(TransferEvent::Absent);
    assert!(matches!(
        transfer.action(),
        TransferAction::CreateDirectory(directory) if directory.is_same(&path("/b"))
    ));
    transfer.advance(TransferEvent::Done);
    assert!(matches!(
        transfer.action(),
        TransferAction::Rename(source, target)
            if source.is_same(&path("/a/x")) && target.is_same(&path("/b/y"))
    ));
    transfer.advance(TransferEvent::Done);
    assert!(matches!(transfer.action(), TransferAction::Finish(TransferOutcome::Renamed)));
}

#[test]
fn a_file_that_cannot_be_renamed_is_copied_first() {
    let mut transfer = Transfer::begin(path("/a/x"), path("/"), false);
    transfer.advance(TransferEvent::Absent);
    assert!(matches!(transfer.action(), TransferAction::Rename(_, _)));
    transfer.advance(TransferEvent::Failed);
    assert!(matches!(transfer.action(), TransferAction::Copy(_, _)));
    transfer.advance(TransferEvent::Done);
    assert!(matches!(transfer.action(), TransferAction::Remove(file) if file.is_same(&path("/a/x"))));
    transfer.advance(TransferEvent::Done);
    assert!(matches!(transfer.action(), TransferAction::Finish(TransferOutcome::Moved)));
}

#[test]
fn copies_leave_the_file_in_its_place() {
    let mut transfer = Transfer::begin(path("x"), path("d/y"), true);
    transfer.advance(TransferEvent::Absent);
    transfer.advance(TransferEvent::Done);
    assert!(matches!(transfer.action(), TransferAction::Copy(_, _)));
    transfer.advance(TransferEvent::Done);
    assert!(matches!(transfer.action(), TransferAction::Finish(TransferOutcome::Copied)));
}

#[test]
fn every_fault_of_a_transfer_is_named() {
    let outcome = |events: &[TransferEvent]| {
        let mut transfer = Transfer::begin(path("/a/x"), path("/b/y"), false);
        for event in events {
            transfer.advance(*event);
        }
        match transfer.action() {
            TransferAction::Finish(outcome) => outcome,
            other => panic!("not finished: {:?}", other),
        }
    };
    use_fault(&outcome);
    let mut same = Transfer::begin(path("/a/x"), path("/a/x"), false);
    same.advance(TransferEvent::Present);
    assert!(matches!(same.action(), TransferAction::CreateDirectory(_)));
}

fn use_fault(outcome: &dyn Fn(&[TransferEvent]) -> TransferOutcome) {
    let (absent, done, failed) =
        (TransferEvent::Absent, TransferEvent::Done, TransferEvent::Failed);
    assert_eq!(outcome(&[TransferEvent::Present]), TransferOutcome::DestinationExists);
    assert_eq!(outcome(&[failed]), TransferOutcome::CheckFailed);
    assert_eq!(outcome(&[absent, failed]), TransferOutcome::DirectoryFailed);
    assert_eq!(outcome(&[absent, done, failed, failed]), TransferOutcome::CopyFailed);
    assert_eq!(outcome(&[absent, done, failed, done, failed]), TransferOutcome::RemoveFailed);
}

#[test]
fn files_exist_or_not() {
    assert_eq!(path_exists(Lookup::Found), Ok(true));
    assert_eq!(path_exists(Lookup::NotFound), Ok(false));
    assert!(path_exists(Lookup::Failed).is_err());
}

fn run_import(source: &str, target: &str, events: Vec<ImportEvent>) -> (Vec<String>, Import) {
    let mut import = Import::begin(path(source), path(target), TagUpdates::default(), 5);
    let mut seen = Vec::new();
    for event in events {
        seen.push(name_of(&import.action()));
        import.advance(event);
    }
    seen.push(name_of(&import.action()));
    (seen, import)
}

fn name_of(action: &ImportAction) -> String {
    let name = |file: &FilePath| file.file_name_text().expect("a name");
    match action {
        ImportAction::Encode(file) => format!("encode {}", name(file)),
        ImportAction::RewriteTags(file, _) => format!("tag {}", name(file)),
        ImportAction::Validate(file) => format!("validate {}", name(file)),
        ImportAction::Move(source, target) => format!("move {} {}", name(source), name(target)),
        ImportAction::Rename(source, target) => format!("rename {} {}", name(source), name(target)),
        ImportAction::Check(file) => format!("check {}", name(file)),
        ImportAction::Remove(file) => format!("remove {}", name(file)),
        ImportAction::Finish(outcome) => format!("finish {:?}", outcome),
    }
}

#[test]
fn the_source_is_removed_after_the_valid_file_is_placed() {
    let (seen, _) = run_import(
        "/in/a.mp3",
        "/srv/b.flac",
        vec![
            ImportEvent::Encoded(path("/tmp/t.flac")),
            ImportEvent::Rewritten(true),
            ImportEvent::Done,
            ImportEvent::Done,
            ImportEvent::Done,
        ],
    );
    assert_eq!(
        seen,
        vec![
            "encode a.mp3",
            "tag t.flac",
            "validate t.flac",
            "move t.flac b.flac",
            "remove a.mp3",
            "finish Ok(true)",
        ]
    );
}

#[test]
fn a_source_in_place_is_set_aside_and_brought_back() {
    let (seen, _) = run_import(
        "/srv/b.flac",
        "/srv/b.flac",
        vec![
            ImportEvent::Encoded(path("/tmp/t.flac")),
            ImportEvent::Rewritten(false),
            ImportEvent::Done,
            ImportEvent::Absent,
            ImportEvent::Done,
            ImportEvent::Failed,
            ImportEvent::Present,
            ImportEvent::Failed,
            ImportEvent::Done,
            ImportEvent::Present,
            ImportEvent::Done,
        ],
    );
    assert_eq!(
        seen,
        vec![
            "encode b.flac",
            "tag t.flac",
            "validate t.flac",
            "check b.musee-backup-5",
            "rename b.flac b.musee-backup-5",
            "move t.flac b.flac",
            "check b.flac",
            "remove b.flac",
            "rename b.musee-backup-5 b.flac",
            "check t.flac",
            "remove t.flac",
            "finish Err(Replace)",
        ]
    );
}

#[test]
fn a_source_in_place_is_replaced() {
    let (seen, _) = run_import(
        "/srv/b.flac",
        "/srv/b.flac",
        vec![
            ImportEvent::Encoded(path("/tmp/t.flac")),
            ImportEvent::Rewritten(false),
            ImportEvent::Done,
            ImportEvent::Absent,
            ImportEvent::Done,
            ImportEvent::Done,
            ImportEvent::Done,
        ],
    );
    assert_eq!(seen[5..], ["move t.flac b.flac", "remove b.musee-backup-5", "finish Ok(false)"]);
}

#[test]
fn every_fault_of_an_import_is_named() {
    let encoded = || ImportEvent::Encoded(path("/tmp/t.flac"));
    let fault = |target: &str, events: Vec<ImportEvent>| {
        let (_, import) = run_import("/srv/b.flac", target, events);
        match import.action() {
            ImportAction::Finish(Err(fault)) => fault,
            other => panic!("no fault: {:?}", other),
        }
    };
    let (here, there) = ("/srv/b.flac", "/srv/c.flac");
    assert_eq!(fault(there, vec![ImportEvent::Failed]), ImportFault::Encode);
    let tail = |mut events: Vec<ImportEvent>| {
        events.insert(0, encoded());
        events.push(ImportEvent::Absent);
        events
    };
    let ok = || ImportEvent::Rewritten(false);
    assert_eq!(fault(there, tail(vec![ImportEvent::Failed])), ImportFault::Tags);
    assert_eq!(fault(there, tail(vec![ok(), ImportEvent::Failed])), ImportFault::Validation);
    assert_eq!(
        fault(there, tail(vec![ok(), ImportEvent::Done, ImportEvent::Failed])),
        ImportFault::Place
    );
    assert_eq!(
        fault(there, tail(vec![ok(), ImportEvent::Done, ImportEvent::Done, ImportEvent::Failed])),
        ImportFault::RemoveSource
    );
    assert_eq!(
        fault(here, tail(vec![ok(), ImportEvent::Done, ImportEvent::Failed])),
        ImportFault::BackupCheck
    );
    assert_eq!(
        fault(here, tail(vec![ok(), ImportEvent::Done, ImportEvent::Present])),
        ImportFault::BackupExists
    );
    assert_eq!(
        fault(here, tail(vec![ok(), ImportEvent::Done, ImportEvent::Absent, ImportEvent::Failed])),
        ImportFault::BackUp
    );
    assert_eq!(
        fault(
            here,
            tail(vec![
                ok(),
                ImportEvent::Done,
                ImportEvent::Absent,
                ImportEvent::Done,
                ImportEvent::Failed,
                ImportEvent::Absent,
                ImportEvent::Failed,
            ])
        ),
        ImportFault::Restore
    );
    assert_eq!(
        fault(
            here,
            tail(vec![
                ok(),
                ImportEvent::Done,
                ImportEvent::Absent,
                ImportEvent::Done,
                ImportEvent::Done,
                ImportEvent::Failed,
            ])
        ),
        ImportFault::RemoveBackup
    );
}

#[test]
fn a_file_is_transcoded_step_by_step() {
    let mut transcode = Transcode::begin(path("/in/a.mp3"), path("/tmp/t.flac"));
    match transcode.action() {
        TranscodeAction::Probe(arguments) => assert_eq!(
            words(&arguments),
            vec![
                "-v",
                "error",
                "-select_streams",
                "a:0",
                "-show_streams",
                "-show_format",
                "-of",
                "json",
                "<a.mp3>",
            ]
        ),
        other => panic!("unexpected {:?}", other),
    }
    transcode.advance(TranscodeEvent::Probed(Ok(AudioProbe { channels: 6, sample_rate: 96_000 })));
    match transcode.action() {
        TranscodeAction::Encode(arguments) => assert_eq!(
            words(&arguments).join(" "),
            "-hide_banner -loglevel error -nostdin -i <a.mp3> -map 0:a:0 -map_metadata 0 -vn -sn \
             -dn -c:a flac -sample_fmt s16 -ar 48000 -ac 2 -frame_size 4096 -y <t.flac>"
        ),
        other => panic!("unexpected {:?}", other),
    }
    transcode.advance(TranscodeEvent::Done);
    match transcode.action() {
        TranscodeAction::AddSeekPoints(arguments) => {
            assert_eq!(words(&arguments), vec!["--add-seekpoint=100x", "<t.flac>"])
        }
        other => panic!("unexpected {:?}", other),
    }
    transcode.advance(TranscodeEvent::Done);
    assert!(matches!(
        transcode.action(),
        TranscodeAction::Validate(file) if file.is_same(&path("/tmp/t.flac"))
    ));
    transcode.advance(TranscodeEvent::Done);
    assert!(matches!(
        transcode.action(),
        TranscodeAction::Finish(Ok(file)) if file.is_same(&path("/tmp/t.flac"))
    ));
}

#[test]
fn every_fault_of_transcoding_is_named() {
    let probed = TranscodeEvent::Probed(Ok(AudioProbe { channels: 1, sample_rate: 1 }));
    let (done, failed, missing) =
        (TranscodeEvent::Done, TranscodeEvent::Failed, TranscodeEvent::Missing);
    let fault = |events: &[TranscodeEvent]| {
        let mut transcode = Transcode::begin(path("/in/a.mp3"), path("/tmp/t.flac"));
        for event in events {
            transcode.advance(*event);
        }
        match transcode.action() {
            TranscodeAction::Finish(Err(fault)) => fault,
            other => panic!("no fault: {:?}", other),
        }
    };
    assert_eq!(fault(&[failed]), TranscodeFault::ProbeFailed);
    assert_eq!(
        fault(&[TranscodeEvent::Probed(Err(ProbeError::NoAudioStream))]),
        TranscodeFault::Unusable(ProbeError::NoAudioStream)
    );
    assert_eq!(
        fault(&[TranscodeEvent::Probed(Ok(AudioProbe { channels: 0, sample_rate: 1 }))]),
        TranscodeFault::NoChannels
    );
    assert_eq!(fault(&[probed, missing]), TranscodeFault::FfmpegMissing);
    assert_eq!(fault(&[probed, failed, done]), TranscodeFault::FfmpegFailed);
    assert_eq!(fault(&[probed, done, missing]), TranscodeFault::MetaflacMissing);
    assert_eq!(fault(&[probed, done, failed, failed]), TranscodeFault::MetaflacFailed);
    assert_eq!(fault(&[probed, done, done, failed, done]), TranscodeFault::Invalid);
}

#[test]
fn temporary_files_have_names_of_their_own() {
    let first = temp_flac_path(&path("/tmp"), &path("/in/a.mp3"), 12, 3);
    let second = temp_flac_path(&path("/tmp"), &path("/in/a.mp3"), 12, 4);
    assert!(first.is_same(&path("/tmp/musee-12-3-a.flac")));
    assert!(!first.is_same(&second));
    assert!(temp_flac_path(&path("/tmp"), &path("/"), 1, 0).is_same(&path("/tmp/musee-1-0-track.flac")));
}

#[test]
fn walks_pick_files_and_directories() {
    let steps = vec![
        WalkStep::Found(path("r"), FileKind::Directory),
        WalkStep::Found(path("r/b.flac"), FileKind::File),
        WalkStep::Denied,
        WalkStep::Found(path("r/a.FLAC"), FileKind::File),
        WalkStep::Found(path("r/c.flac"), FileKind::Other),
        WalkStep::Found(path("r/d.mp3"), FileKind::File),
        WalkStep::Found(path("r/d.flac"), FileKind::Directory),
    ];
    let flac = collect_files_recursive(&steps, FileFilter::Flac).expect("a finished walk");
    assert_eq!(flac.len(), 2);
    assert!(flac[0].is_same(&path("r/b.flac")));
    let audio = collect_files_recursive(&steps, FileFilter::Audio).expect("a finished walk");
    assert_eq!(audio.len(), 3);
    let library = collect_library(&steps).expect("a finished walk");
    assert!(library[0].is_same(&path("r/a.FLAC")));
    assert!(library[1].is_same(&path("r/b.flac")));
    let directories = collect_dirs_recursive(&steps).expect("a finished walk");
    assert_eq!(directories.len(), 2);
    let broken = vec![WalkStep::Failed, WalkStep::Found(path("r/a.flac"), FileKind::File)];
    assert!(collect_files_recursive(&broken, FileFilter::Flac).is_err());
    assert!(collect_dirs_recursive(&broken).is_err());
    assert!(collect_library(&broken).is_err());
}

#[test]
fn sources_are_files_or_walked() {
    assert!(matches!(
        files_of_source(&FoundSource::Missing, FileFilter::Flac),
        Err(SourceFault::NotFound)
    ));
    let file = FoundSource::File(path("a.mp3"));
    assert_eq!(files_of_source(&file, FileFilter::Audio).expect("a file").len(), 1);
    assert_eq!(files_of_source(&file, FileFilter::Flac).expect("a file").len(), 0);
    let walked = FoundSource::Walked(vec![WalkStep::Failed]);
    assert!(matches!(
        files_of_source(&walked, FileFilter::Flac),
        Err(SourceFault::WalkFailed)
    ));
}

#[test]
fn sources_are_gathered_in_order() {
    let file = |text: &str| FoundSource::File(path(text));
    let walk = || {
        FoundSource::Walked(vec![
            WalkStep::Found(path("d/c.flac"), FileKind::File),
            WalkStep::Found(path("d/a.flac"), FileKind::File),
        ])
    };
    let files = collect_sources(&vec![file("z.flac"), walk(), file("b.mp3")], FileFilter::Flac)
        .expect("usable sources");
    let expected = ["z.flac", "d/c.flac", "d/a.flac"];
    assert_eq!(files.len(), expected.len());
    for (found, text) in files.iter().zip(expected) {
        assert!(found.is_same(&path(text)));
    }
    assert!(matches!(
        collect_sources(
            &vec![file("z.flac"), FoundSource::Missing, FoundSource::Walked(vec![WalkStep::Failed])],
            FileFilter::Flac
        ),
        Err((1, SourceFault::NotFound))
    ));
    assert!(matches!(
        collect_sources(&vec![FoundSource::Walked(vec![WalkStep::Failed])], FileFilter::Audio),
        Err((0, SourceFault::WalkFailed))
    ));
    assert!(collect_sources(&Vec::new(), FileFilter::Flac).expect("no sources").is_empty());
}

#[test]
fn the_deepest_directories_come_first() {
    let list = deepest_first(&vec![
        path("/a"),
        path("/a/b"),
        path("/c"),
        path("/a/b/d"),
        path("/c/e"),
    ]);
    let expected = ["/a/b/d", "/a/b", "/c/e", "/a", "/c"];
    assert_eq!(list.len(), expected.len());
    for (found, text) in list.iter().zip(expected) {
        assert!(found.is_same(&path(text)));
    }
}

#[test]
fn the_library_root_is_a_directory() {
    assert_eq!(ensure_directory(None), Err(DirectoryFault::NotFound));
    assert_eq!(ensure_directory(Some(FileKind::File)), Err(DirectoryFault::NotDirectory));
    assert_eq!(ensure_directory(Some(FileKind::Directory)), Ok(()));
}

#[test]
fn commands_name_their_library() {
    let dedupe = |server: Option<FilePath>| Commands::Dedupe(DedupeArgs { server, apply: false });
    assert!(matches!(
        required_server(&dedupe(Some(path("/srv")))),
        Ok(Some(server)) if server.is_same(&path("/srv"))
    ));
    assert!(matches!(required_server(&dedupe(None)), Err(MissingServer::Dedupe)));
    let repair = Commands::Repair(RepairArgs { server: None, apply: true });
    assert!(matches!(required_server(&repair), Err(MissingServer::Repair)));
    let add = Commands::Add(AddArgs {
        server: None,
        apply: false,
        encoding: None,
        unreleased: false,
        unreleased_artist: None,
        sources: Vec::new(),
    });
    assert!(matches!(required_server(&add), Err(MissingServer::Add)));
    let tag = Commands::Tag(TagCommand {
        target: TagTarget::Genre(TagArgs {
            server: Some(path("/srv")),
            apply: false,
            all: false,
            retag: false,
            sources: Vec::new(),
        }),
    });
    assert!(matches!(required_server(&tag), Ok(None)));
}

#[test]
fn numbers_are_read_and_spelled() {
    assert_eq!(decimal_text(0), "0");
    assert_eq!(decimal_text(u64::MAX), "18446744073709551615");
    assert_eq!(parse_unsigned("18446744073709551615", u64::MAX), Some(u64::MAX));
    assert_eq!(parse_unsigned("18446744073709551616", u64::MAX), None);
    assert_eq!(parse_unsigned("+7", 7), Some(7));
    assert_eq!(parse_unsigned("8", 7), None);
    assert_eq!(parse_unsigned("-0", 7), None);
    assert_eq!(parse_unsigned("", 7), None);
    assert_eq!(parse_unsigned("+", 7), None);
    assert_eq!(parse_i32("-2147483648"), Some(i32::MIN));
    assert_eq!(parse_i32("2147483648"), None);
    assert_eq!(parse_i32("-0"), Some(0));
    assert_eq!(parse_i32("--1"), None);
    for number in [0, 9, 10, 4_294_967_296, u64::MAX] {
        assert_eq!(parse_unsigned(&decimal_text(number), u64::MAX), Some(number));
    }
}
