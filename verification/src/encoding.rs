//! Audio formats: which files are audio, what a probe reports about them, what
//! an encoding profile asks for, and the fingerprint of decoded audio.

use vstd::prelude::*;

use crate::cli::EncodingProfile;
use crate::path;
use crate::path::FilePath;
use crate::strings;
use crate::strings::{same_text, to_lower_text};

verus! {

/// The frame size of the profile, in bytes: every frame of a file stays below it,
/// and no block needs more than it without compression.
pub const MAX_FRAME_BYTES: u32 = 32768;

/// Samples in a block that the profile encodes.
pub const SONOS_BLOCK_SIZE: u32 = 4096;

/// Seek points that the profile asks for.
pub const SEEK_POINTS: usize = 100;

/// The extensions of audio files, in small letters.
pub open spec fn audio_extensions() -> Seq<Seq<char>> {
    seq![
        "aac"@,
        "aif"@,
        "aiff"@,
        "alac"@,
        "flac"@,
        "m4a"@,
        "mp3"@,
        "oga"@,
        "ogg"@,
        "opus"@,
        "wav"@,
        "wma"@,
    ]
}

/// The extension of a path in small letters, if it has one that is text.
pub open spec fn lower_extension(path: Seq<path::PartView>) -> Option<Seq<char>> {
    match path::bytes_opt_text(path::extension_of(path)) {
        Some(extension) => Some(strings::lower_text(extension)),
        None => None,
    }
}

/// Whether a path names an audio file.
pub open spec fn is_audio_path(path: Seq<path::PartView>) -> bool {
    lower_extension(path) matches Some(extension) && audio_extensions().contains(extension)
}

/// Whether a path names a FLAC file.
pub open spec fn is_flac_path(path: Seq<path::PartView>) -> bool {
    lower_extension(path) == Some("flac"@)
}

fn extension_in_small_letters(path: &FilePath) -> (res: Option<String>)
    ensures
        strings::text_opt(res) == lower_extension(path@),
{
    match path.extension_text() {
        Some(extension) => Some(to_lower_text(&extension)),
        None => None,
    }
}

/// Whether a path names an audio file.
pub fn is_supported_audio(path: &FilePath) -> (res: bool)
    ensures
        res == is_audio_path(path@),
{
    let extension = match extension_in_small_letters(path) {
        Some(extension) => extension,
        None => {
            return false;
        },
    };
    let known: Vec<&str> = vec![
        "aac",
        "aif",
        "aiff",
        "alac",
        "flac",
        "m4a",
        "mp3",
        "oga",
        "ogg",
        "opus",
        "wav",
        "wma",
    ];
    let ghost all = audio_extensions();
    let count = known.len();
    assert(count == all.len());
    assert forall|j: int| 0 <= j < count implies (#[trigger] known@[j])@ == all[j] by {}
    for i in 0..count
        invariant
            count == known.len() == all.len(),
            all == audio_extensions(),
            lower_extension(path@) == Some(extension@),
            forall|j: int| 0 <= j < count ==> (#[trigger] known@[j])@ == all[j],
            forall|j: int| 0 <= j < i ==> all[j] != extension@,
    {
        if same_text(&extension, known[i]) {
            assert(all[i as int] == extension@);
            return true;
        }
    }
    false
}

/// Whether a path names a FLAC file.
pub fn is_flac(path: &FilePath) -> (res: bool)
    ensures
        res == is_flac_path(path@),
{
    match extension_in_small_letters(path) {
        Some(extension) => same_text(&extension, "flac"),
        None => false,
    }
}

/// What a FLAC file says about its audio stream.
#[derive(Debug)]
pub struct StreamInfo {
    /// Largest number of samples in a block.
    pub max_block_size: u16,
    /// Smallest number of bytes in a frame, zero if unknown.
    pub min_frame_size: u32,
    /// Largest number of bytes in a frame, zero if unknown.
    pub max_frame_size: u32,
    /// Sample rate in Hz.
    pub sample_rate: u32,
    pub num_channels: u8,
    pub bits_per_sample: u8,
    /// Samples in the stream, zero if unknown.
    pub total_samples: u64,
    /// MD5 of the decoded audio.
    pub md5: Vec<u8>,
}

/// The identity of decoded audio, whatever its tags and compression.
#[derive(Debug, PartialEq, Eq, Hash)]
pub struct AudioFingerprint {
    md5: [u8; 16],
    total_samples: u64,
    sample_rate: u32,
    channels: u8,
    bits_per_sample: u8,
}

/// The content of a fingerprint.
pub struct FingerprintView {
    pub md5: Seq<u8>,
    pub total_samples: u64,
    pub sample_rate: u32,
    pub channels: u8,
    pub bits_per_sample: u8,
}

impl View for AudioFingerprint {
    type V = FingerprintView;

    closed spec fn view(&self) -> FingerprintView {
        FingerprintView {
            md5: self.md5@,
            total_samples: self.total_samples,
            sample_rate: self.sample_rate,
            channels: self.channels,
            bits_per_sample: self.bits_per_sample,
        }
    }
}

/// The content of an optional fingerprint.
pub open spec fn fingerprint_opt(value: Option<AudioFingerprint>) -> Option<FingerprintView> {
    match value {
        Some(value) => Some(value@),
        None => None,
    }
}

/// Whether every byte is zero.
pub open spec fn all_zero(bytes: Seq<u8>) -> bool {
    forall|i: int| 0 <= i < bytes.len() ==> #[trigger] bytes[i] == 0
}

/// The fingerprint of a stream. There is none without the MD5 of its audio or
/// without the number of samples.
pub open spec fn stream_fingerprint(stream: StreamInfo) -> Option<FingerprintView> {
    if stream.md5@.len() != 16 || all_zero(stream.md5@) || stream.total_samples == 0 {
        None
    } else {
        Some(
            FingerprintView {
                md5: stream.md5@,
                total_samples: stream.total_samples,
                sample_rate: stream.sample_rate,
                channels: stream.num_channels,
                bits_per_sample: stream.bits_per_sample,
            },
        )
    }
}

/// Whatever the compression, equal audio has equal fingerprints, and audio that
/// differs in its MD5, length or layout has different ones.
pub proof fn law_fingerprint_is_of_audio(a: StreamInfo, b: StreamInfo)
    requires
        stream_fingerprint(a) is Some,
    ensures
        stream_fingerprint(a) == stream_fingerprint(b) <==> {
            &&& a.md5@ == b.md5@
            &&& a.total_samples == b.total_samples
            &&& a.sample_rate == b.sample_rate
            &&& a.num_channels == b.num_channels
            &&& a.bits_per_sample == b.bits_per_sample
        },
{
}

fn is_all_zero(bytes: &Vec<u8>) -> (res: bool)
    ensures
        res == all_zero(bytes@),
{
    let count = bytes.len();
    for i in 0..count
        invariant
            count == bytes.len(),
            forall|j: int| 0 <= j < i ==> #[trigger] bytes@[j] == 0,
    {
        if bytes[i] != 0 {
            return false;
        }
    }
    true
}

/// The fingerprint of a stream, if it has one.
pub fn fingerprint(stream: &StreamInfo) -> (res: Option<AudioFingerprint>)
    ensures
        fingerprint_opt(res) == stream_fingerprint(*stream),
{
    let bytes = &stream.md5;
    if bytes.len() != 16 || is_all_zero(bytes) || stream.total_samples == 0 {
        return None;
    }
    let md5: [u8; 16] = [
        bytes[0],
        bytes[1],
        bytes[2],
        bytes[3],
        bytes[4],
        bytes[5],
        bytes[6],
        bytes[7],
        bytes[8],
        bytes[9],
        bytes[10],
        bytes[11],
        bytes[12],
        bytes[13],
        bytes[14],
        bytes[15],
    ];
    assert(md5@ =~= bytes@);
    Some(
        AudioFingerprint {
            md5,
            total_samples: stream.total_samples,
            sample_rate: stream.sample_rate,
            channels: stream.num_channels,
            bits_per_sample: stream.bits_per_sample,
        },
    )
}

impl AudioFingerprint {
    /// Whether two fingerprints are the same.
    pub fn is_same(&self, other: &AudioFingerprint) -> (res: bool)
        ensures
            res == (self@ == other@),
    {
        if self.total_samples != other.total_samples || self.sample_rate != other.sample_rate
            || self.channels != other.channels || self.bits_per_sample != other.bits_per_sample {
            return false;
        }
        for i in 0..16
            invariant
                forall|j: int| 0 <= j < i ==> self.md5@[j] == other.md5@[j],
        {
            if self.md5[i] != other.md5[i] {
                assert(self@.md5[i as int] != other@.md5[i as int]);
                return false;
            }
        }
        assert(self.md5@ =~= other.md5@);
        true
    }
}

impl Clone for AudioFingerprint {
    fn clone(&self) -> (res: Self)
        ensures
            res@ == self@,
    {
        AudioFingerprint {
            md5: self.md5,
            total_samples: self.total_samples,
            sample_rate: self.sample_rate,
            channels: self.channels,
            bits_per_sample: self.bits_per_sample,
        }
    }
}

/// How a stream falls short of the profile.
#[derive(Debug, Clone, Copy, PartialEq, Eq)]
pub enum ProfileError {
    /// The file does not describe its stream.
    MissingStreamInfo,
    /// Bits per sample found in place of 16.
    BitDepth(u8),
    /// Channels found in place of one or two.
    Channels(u8),
    /// Sample rate found in place of 44.1 or 48 kHz.
    SampleRate(u32),
    /// The frame sizes are not known.
    MissingFrameSizes,
    /// The largest frame found, in bytes.
    FrameTooLarge(u32),
    /// The largest frame that a block can need, in bytes.
    BlockTooLarge(u64),
    /// Seek points found, too few.
    SeekPoints(usize),
}

/// The bytes that the largest block of a stream needs without compression.
pub open spec fn uncompressed_frame_bytes(stream: StreamInfo) -> nat {
    (stream.max_block_size as nat * stream.bits_per_sample as nat * stream.num_channels as nat) / 8
}

/// The sum of a list of counts.
pub open spec fn total(counts: Seq<usize>) -> nat
    decreases counts.len(),
{
    if counts.len() == 0 {
        0
    } else {
        total(counts.drop_last()) + counts.last() as nat
    }
}

/// The first way in which a stream with the given number of seek points falls
/// short of the profile.
pub open spec fn profile_fault(stream: StreamInfo, seek_points: nat) -> Option<ProfileError> {
    if stream.bits_per_sample != 16 {
        Some(ProfileError::BitDepth(stream.bits_per_sample))
    } else if !(1 <= stream.num_channels <= 2) {
        Some(ProfileError::Channels(stream.num_channels))
    } else if stream.sample_rate != 44_100 && stream.sample_rate != 48_000 {
        Some(ProfileError::SampleRate(stream.sample_rate))
    } else if stream.min_frame_size == 0 || stream.max_frame_size == 0 {
        Some(ProfileError::MissingFrameSizes)
    } else if stream.max_frame_size >= MAX_FRAME_BYTES {
        Some(ProfileError::FrameTooLarge(stream.max_frame_size))
    } else if uncompressed_frame_bytes(stream) > MAX_FRAME_BYTES {
        Some(ProfileError::BlockTooLarge(uncompressed_frame_bytes(stream) as u64))
    } else if seek_points < SEEK_POINTS {
        Some(ProfileError::SeekPoints(seek_points as usize))
    } else {
        None
    }
}

/// A stream that the profile accepts is 16-bit mono or stereo at 44.1 or 48 kHz,
/// states its frame sizes, keeps every frame below the limit and every
/// uncompressed block within it, and has its seek points.
pub proof fn law_accepted_streams(stream: StreamInfo, seek_points: nat)
    ensures
        profile_fault(stream, seek_points) is None <==> {
            &&& stream.bits_per_sample == 16
            &&& stream.num_channels == 1 || stream.num_channels == 2
            &&& stream.sample_rate == 44_100 || stream.sample_rate == 48_000
            &&& 0 < stream.min_frame_size
            &&& 0 < stream.max_frame_size < 32 * 1024
            &&& stream.max_block_size * 2 * stream.num_channels <= 32 * 1024
            &&& seek_points >= 100
        },
{
    if stream.bits_per_sample == 16 {
        let block = stream.max_block_size as int;
        let channels = stream.num_channels as int;
        assert((block * 16 * channels) / 8 == block * 2 * channels) by (nonlinear_arith);
    }
}

/// Whether a stream meets the profile, given the numbers of seek points in the
/// file's seek tables.
pub fn validate_sonos_flac(stream: Option<&StreamInfo>, seek_tables: &Vec<usize>) -> (res: Result<
    (),
    ProfileError,
>)
    ensures
        match stream {
            Some(stream) => match profile_fault(*stream, total(seek_tables@)) {
                Some(fault) => res == Err::<(), ProfileError>(fault),
                None => res is Ok,
            },
            None => res == Err::<(), ProfileError>(ProfileError::MissingStreamInfo),
        },
{
    let stream = match stream {
        Some(stream) => stream,
        None => {
            return Err(ProfileError::MissingStreamInfo);
        },
    };
    if stream.bits_per_sample != 16 {
        return Err(ProfileError::BitDepth(stream.bits_per_sample));
    }
    if stream.num_channels < 1 || stream.num_channels > 2 {
        return Err(ProfileError::Channels(stream.num_channels));
    }
    if stream.sample_rate != 44_100 && stream.sample_rate != 48_000 {
        return Err(ProfileError::SampleRate(stream.sample_rate));
    }
    if stream.min_frame_size == 0 || stream.max_frame_size == 0 {
        return Err(ProfileError::MissingFrameSizes);
    }
    if stream.max_frame_size >= MAX_FRAME_BYTES {
        return Err(ProfileError::FrameTooLarge(stream.max_frame_size));
    }
    let block_bits: u64 = stream.max_block_size as u64 * 16;
    let channels: u64 = stream.num_channels as u64;
    assert(block_bits * channels <= 65_535 * 16 * 2) by (nonlinear_arith)
        requires
            block_bits <= 65_535 * 16,
            channels <= 2,
    ;
    let frame_bytes: u64 = block_bits * channels / 8;
    assert(frame_bytes == uncompressed_frame_bytes(*stream));
    if frame_bytes > MAX_FRAME_BYTES as u64 {
        return Err(ProfileError::BlockTooLarge(frame_bytes));
    }
    let mut seek_points: usize = 0;
    let count = seek_tables.len();
    for i in 0..count
        invariant
            count == seek_tables.len(),
            seek_points == if total(seek_tables@.take(i as int)) <= usize::MAX {
                total(seek_tables@.take(i as int))
            } else {
                usize::MAX as nat
            },
    {
        let ghost more = seek_tables@.take(i + 1);
        assert(more.drop_last() == seek_tables@.take(i as int));
        assert(more.last() == seek_tables@[i as int]);
        seek_points = seek_points.saturating_add(seek_tables[i]);
    }
    assert(seek_tables@.take(count as int) == seek_tables@);
    if seek_points < SEEK_POINTS {
        return Err(ProfileError::SeekPoints(seek_points));
    }
    Ok(())
}

/// Whether a stream meets a profile, given the numbers of seek points in the
/// file's seek tables.
pub fn validate_profile(
    stream: Option<&StreamInfo>,
    seek_tables: &Vec<usize>,
    profile: EncodingProfile,
) -> (res: Result<(), ProfileError>)
    ensures
        match (profile, stream) {
            (EncodingProfile::SonosFlac, Some(stream)) => match profile_fault(
                *stream,
                total(seek_tables@),
            ) {
                Some(fault) => res == Err::<(), ProfileError>(fault),
                None => res is Ok,
            },
            (EncodingProfile::SonosFlac, None) => res == Err::<(), ProfileError>(
                ProfileError::MissingStreamInfo,
            ),
        },
{
    match profile {
        EncodingProfile::SonosFlac => validate_sonos_flac(stream, seek_tables),
    }
}

/// The distance between two numbers.
pub open spec fn distance(a: int, b: int) -> int {
    if a < b {
        b - a
    } else {
        a - b
    }
}

/// The supported sample rate nearest to `sample_rate`; the lower one when both
/// are equally near.
pub open spec fn sonos_rate(sample_rate: u32) -> u32 {
    if distance(sample_rate as int, 44_100) <= distance(sample_rate as int, 48_000) {
        44_100
    } else {
        48_000
    }
}

/// No supported sample rate is nearer than the one chosen.
pub proof fn law_nearest_rate(sample_rate: u32)
    ensures
        sonos_rate(sample_rate) == 44_100 || sonos_rate(sample_rate) == 48_000,
        distance(sample_rate as int, sonos_rate(sample_rate) as int) <= distance(
            sample_rate as int,
            44_100,
        ),
        distance(sample_rate as int, sonos_rate(sample_rate) as int) <= distance(
            sample_rate as int,
            48_000,
        ),
{
}

/// The supported sample rate nearest to `sample_rate`.
pub fn nearest_sonos_rate(sample_rate: u32) -> (res: u32)
    ensures
        res == sonos_rate(sample_rate),
{
    let low: u32 = if sample_rate < 44_100 {
        44_100 - sample_rate
    } else {
        sample_rate - 44_100
    };
    let high: u32 = if sample_rate < 48_000 {
        48_000 - sample_rate
    } else {
        sample_rate - 48_000
    };
    if low <= high {
        44_100
    } else {
        48_000
    }
}

/// A file is known as audio by its extension, in capital or small letters, and as
/// FLAC by that one alone.
pub proof fn law_audio_extensions(path: Seq<path::PartView>)
    ensures
        ({
            let is = |extension: Seq<char>|
                match path::extension_of(path) {
                    Some(bytes) => vstd::utf8::valid_utf8(bytes) && strings::lower_text(
                        vstd::utf8::decode_utf8(bytes),
                    ) == extension,
                    None => false,
                };
            &&& is_flac_path(path) <==> is("flac"@)
            &&& is_audio_path(path) <==> is("aac"@) || is("aif"@) || is("aiff"@) || is("alac"@)
                || is("flac"@) || is("m4a"@) || is("mp3"@) || is("oga"@) || is("ogg"@) || is(
                "opus"@,
            ) || is("wav"@) || is("wma"@)
        }),
{
    let all = audio_extensions();
    assert(all[0] == "aac"@ && all[1] == "aif"@ && all[2] == "aiff"@ && all[3] == "alac"@);
    assert(all[4] == "flac"@ && all[5] == "m4a"@ && all[6] == "mp3"@ && all[7] == "oga"@);
    assert(all[8] == "ogg"@ && all[9] == "opus"@ && all[10] == "wav"@ && all[11] == "wma"@);
    assert(all.len() == 12);
}

/// A stream has a fingerprint exactly if it states an MD5 of 16 bytes, not all of
/// them zero, and how many samples it has.
pub proof fn law_fingerprint_needs_md5(stream: StreamInfo)
    ensures
        stream_fingerprint(stream) is Some <==> {
            &&& stream.md5@.len() == 16
            &&& exists|i: int| 0 <= i < 16 && #[trigger] stream.md5@[i] != 0
            &&& stream.total_samples > 0
        },
{
}

/// The fault found in a stream is one that it has, with the value found.
pub proof fn law_faults_are_real(stream: StreamInfo, seek_points: nat)
    ensures
        match profile_fault(stream, seek_points) {
            Some(ProfileError::MissingStreamInfo) => false,
            Some(ProfileError::BitDepth(bits)) => bits == stream.bits_per_sample && bits != 16,
            Some(ProfileError::Channels(channels)) => channels == stream.num_channels && channels
                != 1 && channels != 2,
            Some(ProfileError::SampleRate(rate)) => rate == stream.sample_rate && rate != 44_100
                && rate != 48_000,
            Some(ProfileError::MissingFrameSizes) => stream.min_frame_size == 0
                || stream.max_frame_size == 0,
            Some(ProfileError::FrameTooLarge(bytes)) => bytes == stream.max_frame_size && bytes
                >= 32 * 1024,
            Some(ProfileError::BlockTooLarge(bytes)) => bytes == stream.max_block_size
                * stream.bits_per_sample * stream.num_channels / 8 && bytes > 32 * 1024,
            Some(ProfileError::SeekPoints(points)) => points == seek_points && points < 100,
            None => true,
        },
{
    let block = stream.max_block_size as int;
    let bits = stream.bits_per_sample as int;
    let channels = stream.num_channels as int;
    assert(0 <= block * bits * channels <= 65_535 * 255 * 255) by (nonlinear_arith)
        requires
            0 <= block <= 65_535,
            0 <= bits <= 255,
            0 <= channels <= 255,
    ;
}

/// The seek points of several tables are counted together.
pub proof fn law_counts_add_up(a: Seq<usize>, b: Seq<usize>, count: usize)
    ensures
        total(a + b) == total(a) + total(b),
        total(seq![count]) == count,
    decreases b.len(),
{
    let one = seq![count];
    assert(one.drop_last() =~= Seq::empty());
    assert(total(one.drop_last()) == 0);
    if b.len() == 0 {
        assert(a + b =~= a);
    } else {
        law_counts_add_up(a, b.drop_last(), count);
        assert((a + b).drop_last() =~= a + b.drop_last());
        assert((a + b).last() == b.last());
    }
}

} // verus!
