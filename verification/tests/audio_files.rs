use musee::cli::EncodingProfile;
use musee::encoding::{
    fingerprint, is_flac, is_supported_audio, nearest_sonos_rate, validate_profile,
    validate_sonos_flac, ProfileError, StreamInfo,
};
use musee::path::FilePath;
use musee::probe::{
    find_tag, probe_audio, probe_from_report, reads_flac_tags, track_from_probe, AudioProbe,
    ProbeError,
};
use serde_json::Value;

fn path(text: &str) -> FilePath {
    FilePath::from_text(text)
}

fn stream() -> StreamInfo {
    StreamInfo {
        max_block_size: 4096,
        min_frame_size: 14,
        max_frame_size: 32767,
        sample_rate: 44_100,
        num_channels: 2,
        bits_per_sample: 16,
        total_samples: 1000,
        md5: vec![7; 16],
    }
}

#[test]
fn chooses_nearest_supported_sample_rate() {
    assert_eq!(nearest_sonos_rate(44_100), 44_100);
    assert_eq!(nearest_sonos_rate(96_000), 48_000);
    assert_eq!(nearest_sonos_rate(32_000), 44_100);
}

#[test]
fn the_lower_rate_wins_a_tie() {
    assert_eq!(nearest_sonos_rate(46_050), 44_100);
    assert_eq!(nearest_sonos_rate(46_051), 48_000);
    assert_eq!(nearest_sonos_rate(0), 44_100);
    assert_eq!(nearest_sonos_rate(u32::MAX), 48_000);
}

#[test]
fn audio_files_are_known_by_their_extension() {
    assert!(is_supported_audio(&path("a/b.MP3")));
    assert!(is_supported_audio(&path("x.y.opus")));
    assert!(!is_supported_audio(&path("a.txt")));
    assert!(!is_supported_audio(&path(".flac")));
    assert!(!is_supported_audio(&path("flac")));
    assert!(is_flac(&path("song.FlaC")));
    assert!(!is_flac(&path("song.mp3")));
}

#[test]
fn a_valid_stream_is_accepted() {
    let tables = vec![60, 40];
    assert!(validate_sonos_flac(Some(&stream()), &tables).is_ok());
    assert!(validate_profile(Some(&stream()), &tables, EncodingProfile::SonosFlac).is_ok());
    let large = StreamInfo { max_block_size: 8192, ..stream() };
    assert!(validate_sonos_flac(Some(&large), &tables).is_ok());
}

#[test]
fn every_fault_of_a_stream_is_named() {
    let tables = vec![100];
    let fault = |stream: StreamInfo| validate_sonos_flac(Some(&stream), &tables).unwrap_err();
    assert_eq!(
        validate_profile(None, &tables, EncodingProfile::SonosFlac),
        Err(ProfileError::MissingStreamInfo)
    );
    assert_eq!(fault(StreamInfo { bits_per_sample: 24, ..stream() }), ProfileError::BitDepth(24));
    assert_eq!(fault(StreamInfo { num_channels: 3, ..stream() }), ProfileError::Channels(3));
    assert_eq!(fault(StreamInfo { num_channels: 0, ..stream() }), ProfileError::Channels(0));
    assert_eq!(
        fault(StreamInfo { sample_rate: 96_000, ..stream() }),
        ProfileError::SampleRate(96_000)
    );
    assert_eq!(fault(StreamInfo { min_frame_size: 0, ..stream() }), ProfileError::MissingFrameSizes);
    assert_eq!(
        fault(StreamInfo { max_frame_size: 32768, ..stream() }),
        ProfileError::FrameTooLarge(32768)
    );
    assert_eq!(
        fault(StreamInfo { max_block_size: 8193, ..stream() }),
        ProfileError::BlockTooLarge(32772)
    );
    assert_eq!(
        validate_sonos_flac(Some(&stream()), &vec![60, 39]),
        Err(ProfileError::SeekPoints(99))
    );
}

#[test]
fn fingerprints_need_an_md5_and_samples() {
    let first = fingerprint(&stream()).expect("a fingerprint");
    let again = fingerprint(&StreamInfo { max_frame_size: 1, ..stream() }).expect("a fingerprint");
    assert!(first.is_same(&again));
    assert_eq!(first, again);
    let other = fingerprint(&StreamInfo { md5: vec![8; 16], ..stream() }).expect("a fingerprint");
    assert!(!first.is_same(&other));
    let rate = fingerprint(&StreamInfo { sample_rate: 48_000, ..stream() }).expect("a fingerprint");
    assert!(!first.is_same(&rate));
    assert!(fingerprint(&StreamInfo { md5: vec![0; 16], ..stream() }).is_none());
    assert!(fingerprint(&StreamInfo { md5: vec![7; 15], ..stream() }).is_none());
    assert!(fingerprint(&StreamInfo { total_samples: 0, ..stream() }).is_none());
}

#[test]
fn a_report_gives_the_layout_of_the_first_stream() {
    let report = br#"{"streams":[{"channels":6,"sample_rate":"96000"},{"channels":1}]}"#;
    assert_eq!(probe_audio(report), Ok(AudioProbe { channels: 6, sample_rate: 96_000 }));
    let number = br#"{"streams":[{"channels":1,"sample_rate":8000}]}"#;
    assert_eq!(probe_audio(number), Ok(AudioProbe { channels: 1, sample_rate: 8000 }));
}

#[test]
fn useless_reports_are_named() {
    assert_eq!(probe_audio(b"{"), Err(ProbeError::InvalidJson));
    assert_eq!(probe_audio(b"{\"streams\":[]}"), Err(ProbeError::NoAudioStream));
    assert_eq!(probe_audio(b"[]"), Err(ProbeError::NoAudioStream));
    assert_eq!(
        probe_audio(b"{\"streams\":[{\"channels\":256,\"sample_rate\":1}]}"),
        Err(ProbeError::MissingChannels)
    );
    assert_eq!(
        probe_audio(b"{\"streams\":[{\"channels\":2,\"sample_rate\":\"fast\"}]}"),
        Err(ProbeError::MissingSampleRate)
    );
    assert_eq!(
        probe_audio(b"{\"streams\":[{\"channels\":2,\"sample_rate\":4294967296}]}"),
        Err(ProbeError::MissingSampleRate)
    );
    let value: Value = serde_json::from_str("{\"streams\":{}}").expect("valid document");
    assert_eq!(probe_from_report(&value), Err(ProbeError::NoAudioStream));
}

#[test]
fn tags_are_found_whatever_their_letters() {
    let value: Value =
        serde_json::from_str(r#"{"Album_Artist":"Band","n":1,"TRACK":7}"#).expect("valid document");
    assert_eq!(
        find_tag(Some(&value), &vec!["albumartist", "album_artist"]).as_deref(),
        Some("Band")
    );
    assert_eq!(find_tag(Some(&value), &vec!["track"]), None);
    assert_eq!(find_tag(Some(&value), &vec!["title"]), None);
    assert_eq!(find_tag(None, &vec!["title"]), None);
}

#[test]
fn tags_of_the_stream_come_before_those_of_the_format() {
    let report = br#"{
        "streams":[{"tags":{"TITLE":"Stream title","track":"5/9"}}],
        "format":{"tags":{"title":"Format title","artist":"Artist","album":"Album"}}
    }"#;
    let track = track_from_probe(&path("dir/file.mp3"), report).expect("valid report");
    assert_eq!(track.title, "Stream title");
    assert_eq!(track.artist, "Artist");
    assert_eq!(track.albumartist, "Artist");
    assert_eq!(track.album, "Album");
    assert_eq!(track.tracknumber.as_deref(), Some("5/9"));
    assert!(track_from_probe(&path("dir/file.mp3"), b"no").is_err());
}

#[test]
fn flac_tags_are_read_unless_another_format_is_transcoded() {
    assert!(reads_flac_tags(&path("a.mp3"), None));
    assert!(reads_flac_tags(&path("a.flac"), Some(EncodingProfile::SonosFlac)));
    assert!(!reads_flac_tags(&path("a.mp3"), Some(EncodingProfile::SonosFlac)));
}
