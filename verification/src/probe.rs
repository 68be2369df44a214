//! What a probe of an audio file reports, as a JSON document with a list of
//! streams and a format, each of which may carry tags.

use serde_json::Value;
use vstd::prelude::*;

use crate::audio;
use crate::audio::{track_from_fields, TrackMetadata};
use crate::cli::EncodingProfile;
use crate::encoding;
use crate::encoding::is_flac;
use crate::json;
use crate::json::{json_document, json_entries, json_items, json_member, json_number, json_text};
use crate::numbers;
use crate::numbers::parse_unsigned;
use crate::path;
use crate::path::FilePath;
use crate::strings;
use crate::strings::{same_text, to_lower_text};

verus! {

/// The layout of an audio stream.
#[derive(Debug, Clone, Copy, PartialEq, Eq)]
pub struct AudioProbe {
    pub channels: u8,
    pub sample_rate: u32,
}

/// Why a report is of no use.
#[derive(Debug, Clone, Copy, PartialEq, Eq)]
pub enum ProbeError {
    /// The report is not a JSON document.
    InvalidJson,
    /// The file has no audio stream.
    NoAudioStream,
    /// The stream does not say how many channels it has.
    MissingChannels,
    /// The stream does not say its sample rate.
    MissingSampleRate,
}

/// The first stream of a report.
pub open spec fn first_stream(report: json::JsonTree) -> Option<json::JsonTree> {
    match json::member(report, "streams"@) {
        Some(json::JsonTree::Array(streams)) => if streams.len() > 0 {
            Some(streams[0])
        } else {
            None
        },
        _ => None,
    }
}

/// The number of channels of a stream, if it is one of 8 bits.
pub open spec fn stream_channels(stream: json::JsonTree) -> Option<u8> {
    match json::member(stream, "channels"@) {
        Some(json::JsonTree::Number(Some(number))) => if number <= u8::MAX {
            Some(number as u8)
        } else {
            None
        },
        _ => None,
    }
}

/// The sample rate of a stream, spelled as text or as a number, if it is one of
/// 32 bits.
pub open spec fn stream_sample_rate(stream: json::JsonTree) -> Option<u32> {
    match json::member(stream, "sample_rate"@) {
        Some(json::JsonTree::Text(text)) => match numbers::unsigned_value(text) {
            Some(number) => if number <= u32::MAX {
                Some(number as u32)
            } else {
                None
            },
            None => None,
        },
        Some(json::JsonTree::Number(Some(number))) => if number <= u32::MAX {
            Some(number as u32)
        } else {
            None
        },
        _ => None,
    }
}

/// What a report says about the first audio stream.
pub open spec fn probed(report: json::JsonTree) -> Result<AudioProbe, ProbeError> {
    match first_stream(report) {
        None => Err(ProbeError::NoAudioStream),
        Some(stream) => match stream_channels(stream) {
            None => Err(ProbeError::MissingChannels),
            Some(channels) => match stream_sample_rate(stream) {
                None => Err(ProbeError::MissingSampleRate),
                Some(sample_rate) => Ok(AudioProbe { channels, sample_rate }),
            },
        },
    }
}

/// The first stream of a report.
fn find_first_stream(report: &Value) -> (res: Option<&Value>)
    ensures
        json::tree_opt(res) == first_stream(json::json_tree(*report)),
{
    let streams = match json_member(report, "streams") {
        Some(streams) => streams,
        None => {
            return None;
        },
    };
    match json_items(streams) {
        Some(items) => if items.len() > 0 {
            assert(json::json_tree(*streams)->Array_0[0] == json::json_tree(items@[0]));
            Some(&items[0])
        } else {
            None
        },
        None => None,
    }
}

/// What a report says about the first audio stream.
pub fn probe_from_report(report: &Value) -> (res: Result<AudioProbe, ProbeError>)
    ensures
        res == probed(json::json_tree(*report)),
{
    let stream = match find_first_stream(report) {
        Some(stream) => stream,
        None => {
            return Err(ProbeError::NoAudioStream);
        },
    };
    let channels: Option<u64> = match json_member(stream, "channels") {
        Some(value) => json_number(value),
        None => None,
    };
    let channels: u8 = match channels {
        Some(number) => if number <= 255 {
            number as u8
        } else {
            return Err(ProbeError::MissingChannels);
        },
        None => {
            return Err(ProbeError::MissingChannels);
        },
    };
    let rate: Option<u64> = match json_member(stream, "sample_rate") {
        Some(value) => match json_text(value) {
            Some(text) => parse_unsigned(text, u32::MAX as u64),
            None => json_number(value),
        },
        None => None,
    };
    match rate {
        Some(number) => if number <= 0xffff_ffff {
            Ok(AudioProbe { channels, sample_rate: number as u32 })
        } else {
            Err(ProbeError::MissingSampleRate)
        },
        None => Err(ProbeError::MissingSampleRate),
    }
}

/// What the bytes of a report say about the first audio stream.
pub fn probe_audio(report: &[u8]) -> (res: Result<AudioProbe, ProbeError>)
    ensures
        res == match json::parsed_json(report@) {
            Some(tree) => probed(tree),
            None => Err(ProbeError::InvalidJson),
        },
{
    match json_document(report) {
        Ok(value) => probe_from_report(&value),
        Err(_) => Err(ProbeError::InvalidJson),
    }
}

/// Whether a key is one of `names`, which are in small letters.
pub open spec fn is_named(key: Seq<char>, names: Seq<Seq<char>>) -> bool {
    names.contains(strings::lower_text(key))
}

/// The text of the first entry from `i` on that has one of the names and is a
/// text.
pub open spec fn tag_from(
    entries: Seq<(Seq<char>, json::JsonTree)>,
    names: Seq<Seq<char>>,
    i: int,
) -> Option<Seq<char>>
    decreases entries.len() - i,
{
    if i >= entries.len() {
        None
    } else if is_named(entries[i].0, names) && entries[i].1 is Text {
        Some(entries[i].1->Text_0)
    } else {
        tag_from(entries, names, i + 1)
    }
}

/// The text that a set of tags gives for one of the names.
pub open spec fn tag_in(tags: Option<json::JsonTree>, names: Seq<Seq<char>>) -> Option<Seq<char>> {
    match tags {
        Some(json::JsonTree::Object(entries)) => tag_from(entries, names, 0),
        _ => None,
    }
}

/// The tags of the first stream of a report.
pub open spec fn stream_tags(report: json::JsonTree) -> Option<json::JsonTree> {
    match first_stream(report) {
        Some(stream) => json::member(stream, "tags"@),
        None => None,
    }
}

/// The tags of the format of a report.
pub open spec fn format_tags(report: json::JsonTree) -> Option<json::JsonTree> {
    match json::member(report, "format"@) {
        Some(format) => json::member(format, "tags"@),
        None => None,
    }
}

/// The text that a report gives for one of the names: from the stream, else from
/// the format, else nothing.
pub open spec fn report_tag(report: json::JsonTree, names: Seq<Seq<char>>) -> Seq<char> {
    match tag_in(stream_tags(report), names) {
        Some(text) => text,
        None => match tag_in(format_tags(report), names) {
            Some(text) => text,
            None => Seq::empty(),
        },
    }
}

/// The metadata that a report gives for the file at `path`.
pub open spec fn reported_track(
    path: Seq<path::PartView>,
    report: json::JsonTree,
) -> audio::TrackView {
    audio::filled_track(
        path,
        report_tag(report, seq!["albumartist"@, "album_artist"@]),
        report_tag(report, seq!["artist"@]),
        report_tag(report, seq!["album"@]),
        report_tag(report, seq!["title"@]),
        Some(report_tag(report, seq!["track"@, "tracknumber"@])),
    )
}

/// The characters of each name.
pub open spec fn name_views(names: Seq<&str>) -> Seq<Seq<char>> {
    names.map_values(|name: &str| name@)
}

fn has_name(key: &str, names: &Vec<&str>) -> (res: bool)
    ensures
        res == is_named(key@, name_views(names@)),
{
    let lower = to_lower_text(key);
    let count = names.len();
    let ghost views = name_views(names@);
    for i in 0..count
        invariant
            count == names.len(),
            views == name_views(names@),
            lower@ == strings::lower_text(key@),
            forall|j: int| 0 <= j < i ==> views[j] != lower@,
    {
        if same_text(&lower, names[i]) {
            assert(views[i as int] == lower@);
            return true;
        }
    }
    false
}

/// The text that a set of tags gives for one of the names, which are in small
/// letters.
pub fn find_tag(tags: Option<&Value>, names: &Vec<&str>) -> (res: Option<String>)
    ensures
        strings::text_opt(res) == tag_in(json::tree_opt(tags), name_views(names@)),
{
    let value = match tags {
        Some(value) => value,
        None => {
            return None;
        },
    };
    let entries = match json_entries(value) {
        Some(entries) => entries,
        None => {
            return None;
        },
    };
    let ghost views = json::json_tree(*value)->Object_0;
    let count = entries.len();
    for i in 0..count
        invariant
            count == entries.len() == views.len(),
            forall|j: int|
                0 <= j < count ==> views[j].0 == (#[trigger] entries@[j]).0@ && views[j].1
                    == json::json_tree(*entries@[j].1),
            tag_in(json::tree_opt(tags), name_views(names@)) == tag_from(
                views,
                name_views(names@),
                i as int,
            ),
    {
        let (key, entry) = entries[i];
        if has_name(key, names) {
            if let Some(text) = json_text(entry) {
                return Some(text.to_string());
            }
        }
    }
    None
}

/// The text that a report gives for one of the names, which are in small letters.
fn find_report_tag(report: &Value, names: Vec<&str>) -> (res: String)
    ensures
        res@ == report_tag(json::json_tree(*report), name_views(names@)),
{
    let stream = match find_first_stream(report) {
        Some(stream) => json_member(stream, "tags"),
        None => None,
    };
    if let Some(text) = find_tag(stream, &names) {
        return text;
    }
    let format = match json_member(report, "format") {
        Some(format) => json_member(format, "tags"),
        None => None,
    };
    match find_tag(format, &names) {
        Some(text) => text,
        None => String::new(),
    }
}

/// The metadata that a report gives for the file at `path`.
pub fn track_from_report(path: &FilePath, report: &Value) -> (res: TrackMetadata)
    ensures
        res@ == reported_track(path@, json::json_tree(*report)),
{
    let albumartist: Vec<&str> = vec!["albumartist", "album_artist"];
    let artist: Vec<&str> = vec!["artist"];
    let album: Vec<&str> = vec!["album"];
    let title: Vec<&str> = vec!["title"];
    let track: Vec<&str> = vec!["track", "tracknumber"];
    assert(name_views(albumartist@) =~= seq!["albumartist"@, "album_artist"@]);
    assert(name_views(artist@) =~= seq!["artist"@]);
    assert(name_views(album@) =~= seq!["album"@]);
    assert(name_views(title@) =~= seq!["title"@]);
    assert(name_views(track@) =~= seq!["track"@, "tracknumber"@]);
    track_from_fields(
        path,
        find_report_tag(report, albumartist),
        find_report_tag(report, artist),
        find_report_tag(report, album),
        find_report_tag(report, title),
        Some(find_report_tag(report, track)),
    )
}

/// The metadata that the bytes of a report give for the file at `path`.
pub fn track_from_probe(path: &FilePath, report: &[u8]) -> (res: Result<TrackMetadata, ProbeError>)
    ensures
        match json::parsed_json(report@) {
            Some(tree) => res matches Ok(track) && track@ == reported_track(path@, tree),
            None => res == Err::<TrackMetadata, ProbeError>(ProbeError::InvalidJson),
        },
{
    match json_document(report) {
        Ok(value) => Ok(track_from_report(path, &value)),
        Err(_) => Err(ProbeError::InvalidJson),
    }
}

/// Whether an input's metadata is read from its FLAC tags rather than a probe:
/// always without an encoding profile, and of FLAC files with one.
pub fn reads_flac_tags(path: &FilePath, profile: Option<EncodingProfile>) -> (res: bool)
    ensures
        res == (profile is None || encoding::is_flac_path(path@)),
{
    profile.is_none() || is_flac(path)
}

/// A report is read from its first stream: the number of channels and the sample
/// rate are the numbers given there, the rate as a number or as text. A report is
/// of no use exactly if one of these is missing or out of range.
pub proof fn law_probe_reads_first_stream(
    report: json::JsonTree,
    streams: Seq<json::JsonTree>,
    channels: u8,
    sample_rate: u32,
    spelled: Seq<char>,
)
    requires
        json::member(report, "streams"@) == Some(json::JsonTree::Array(streams)),
        streams.len() > 0,
    ensures
        ({
            let own_channels = json::member(streams[0], "channels"@);
            let own_rate = json::member(streams[0], "sample_rate"@);
            let found = Ok::<AudioProbe, ProbeError>(AudioProbe { channels, sample_rate });
            &&& own_channels == Some(json::JsonTree::Number(Some(channels as u64))) && own_rate
                == Some(json::JsonTree::Number(Some(sample_rate as u64))) ==> probed(report)
                == found
            &&& own_channels == Some(json::JsonTree::Number(Some(channels as u64))) && own_rate
                == Some(json::JsonTree::Text(spelled)) && numbers::unsigned_value(spelled) == Some(
                sample_rate as nat,
            ) ==> probed(report) == found
            &&& probed(report) matches Ok(probe) ==> own_channels == Some(
                json::JsonTree::Number(Some(probe.channels as u64)),
            )
            &&& own_channels is None ==> probed(report) == Err::<AudioProbe, ProbeError>(
                ProbeError::MissingChannels,
            )
            &&& own_channels == Some(json::JsonTree::Number(Some(channels as u64))) && own_rate
                is None ==> probed(report) == Err::<AudioProbe, ProbeError>(
                ProbeError::MissingSampleRate,
            )
        }),
{
}

/// A report without streams is of no use.
pub proof fn law_probe_needs_a_stream(report: json::JsonTree)
    ensures
        json::member(report, "streams"@) is None || json::member(report, "streams"@) == Some(
            json::JsonTree::Array(Seq::empty()),
        ) ==> probed(report) == Err::<AudioProbe, ProbeError>(ProbeError::NoAudioStream),
{
}

/// The tag with a name, in capital or small letters, is the first that is text.
pub proof fn law_first_tag_counts(
    entries: Seq<(Seq<char>, json::JsonTree)>,
    names: Seq<Seq<char>>,
    i: int,
)
    requires
        0 <= i <= entries.len(),
        forall|j: int|
            0 <= j < i ==> !(names.contains(strings::lower_text((#[trigger] entries[j]).0))
                && entries[j].1 is Text),
    ensures
        i == entries.len() ==> tag_in(Some(json::JsonTree::Object(entries)), names) is None,
        i < entries.len() && names.contains(strings::lower_text(entries[i].0)) ==> (
        entries[i].1 matches json::JsonTree::Text(text) ==> tag_in(
            Some(json::JsonTree::Object(entries)),
            names,
        ) == Some(text)),
        tag_in(None, names) is None,
{
    lemma_tag_from(entries, names, 0, i);
}

proof fn lemma_tag_from(
    entries: Seq<(Seq<char>, json::JsonTree)>,
    names: Seq<Seq<char>>,
    k: int,
    i: int,
)
    requires
        0 <= k <= i <= entries.len(),
        forall|j: int|
            0 <= j < i ==> !(names.contains(strings::lower_text((#[trigger] entries[j]).0))
                && entries[j].1 is Text),
    ensures
        tag_from(entries, names, k) == tag_from(entries, names, i),
    decreases i - k,
{
    if k < i {
        assert(!is_named(entries[k].0, names) || !(entries[k].1 is Text));
        lemma_tag_from(entries, names, k + 1, i);
    }
}

/// Each field of a track comes from the tag of its name: from that of the stream
/// if there is one, else from that of the format.
pub proof fn law_reported_fields(
    path: Seq<path::PartView>,
    report: json::JsonTree,
    streams: Seq<json::JsonTree>,
    format: json::JsonTree,
)
    requires
        json::member(report, "streams"@) == Some(json::JsonTree::Array(streams)),
        streams.len() > 0,
        json::member(report, "format"@) == Some(format),
    ensures
        ({
            let track = reported_track(path, report);
            let text = |names: Seq<Seq<char>>|
                match (
                    tag_in(json::member(streams[0], "tags"@), names),
                    tag_in(json::member(format, "tags"@), names),
                ) {
                    (Some(text), _) => text,
                    (None, Some(text)) => text,
                    (None, None) => Seq::empty(),
                };
            let albumartist = text(seq!["albumartist"@, "album_artist"@]);
            let artist = text(seq!["artist"@]);
            let title = text(seq!["title"@]);
            let number = text(seq!["track"@, "tracknumber"@]);
            &&& audio::has_text(albumartist) ==> track.albumartist == albumartist
            &&& audio::has_text(artist) ==> track.artist == artist
            &&& audio::has_text(title) ==> track.title == title
            &&& track.album == text(seq!["album"@])
            &&& track.tracknumber == if audio::has_text(number) {
                Some(number)
            } else {
                None
            }
        }),
{
    audio::law_given_fields_are_kept(
        path,
        report_tag(report, seq!["albumartist"@, "album_artist"@]),
        report_tag(report, seq!["artist"@]),
        report_tag(report, seq!["album"@]),
        report_tag(report, seq!["title"@]),
        Some(report_tag(report, seq!["track"@, "tracknumber"@])),
    );
}

} // verus!
