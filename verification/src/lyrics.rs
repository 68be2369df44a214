//! Lyrics files: merging lyrics into them, and writing them safely.

use vstd::prelude::*;

use crate::audio::LyricsView;
use crate::lyric_tags;
use crate::numbers;
use crate::numbers::decimal_text;
use crate::path;
use crate::path::FilePath;
use crate::sidecars;
use crate::sidecars::with_extension;
use crate::strings;
use crate::strings::{chars_of, concat, same_text, to_unix_lines, trimmed, trimmed_end, CharSet};

verus! {

/// Whether `s` ends with `end`.
pub open spec fn ends_with(s: Seq<char>, end: Seq<char>) -> bool {
    s.len() >= end.len() && s.skip(s.len() - end.len()) == end
}

/// Whether the text of a lyrics file already ends with `lyrics`: it is nothing
/// else, or an empty line stands before them.
pub open spec fn holds_lyrics(text: Seq<char>, lyrics: Seq<char>) -> bool {
    ||| text == lyrics
    ||| ends_with(text, lyrics) && ends_with(text.take(text.len() - lyrics.len()), "\n\n"@)
}

/// The text of a lyrics file with unified line breaks, and none at its ends.
pub open spec fn plain_lines(text: Seq<char>) -> Seq<char> {
    strings::trim_both(strings::unix_lines(text), CharSet::LineFeed)
}

/// What a lyrics file holds after lyrics have been merged into it. Lyrics that it
/// already ends with are not repeated.
pub open spec fn merged_lrc(existing: Seq<char>, embedded: Seq<char>) -> Seq<char> {
    let lyrics = strings::trim_both(embedded, CharSet::LineBreak);
    let kept = strings::trim_back(existing, CharSet::LineBreak);
    if lyrics.len() == 0 || holds_lyrics(plain_lines(existing), lyrics) {
        existing
    } else if kept.len() == 0 {
        lyrics + "\n"@
    } else {
        kept + "\n\n"@ + lyrics + "\n"@
    }
}

fn text_ends_with(text: &Vec<char>, count: usize, end: &Vec<char>) -> (res: bool)
    requires
        count <= text.len(),
    ensures
        res == ends_with(text@.take(count as int), end@),
{
    let ghost s = text@.take(count as int);
    let length = end.len();
    if count < length {
        return false;
    }
    let start = count - length;
    for i in 0..length
        invariant
            length == end.len(),
            start == count - length,
            count <= text.len(),
            s == text@.take(count as int),
            forall|j: int| 0 <= j < i ==> s[start + j] == end@[j],
    {
        if text[start + i] != end[i] {
            assert(s.skip(start as int)[i as int] != end@[i as int]);
            return false;
        }
    }
    assert(s.skip(start as int) =~= end@);
    true
}

/// What a lyrics file holds after lyrics have been merged into it.
pub fn merge_lrc_content(existing: &str, embedded: &str) -> (res: String)
    ensures
        res@ == merged_lrc(existing@, embedded@),
{
    let lyrics = trimmed(embedded, CharSet::LineBreak);
    if lyrics.as_str().is_empty() {
        return existing.to_string();
    }
    let plain = trimmed(&to_unix_lines(existing), CharSet::LineFeed);
    let text = chars_of(&plain);
    let end = chars_of(&lyrics);
    let gap = chars_of("\n\n");
    assert(text@.take(text@.len() as int) == text@);
    if same_text(&plain, &lyrics) || (text_ends_with(&text, text.len(), &end) && text_ends_with(
        &text,
        text.len() - end.len(),
        &gap,
    )) {
        return existing.to_string();
    }
    let kept = trimmed_end(existing, CharSet::LineBreak);
    if kept.as_str().is_empty() {
        concat(&lyrics, "\n")
    } else {
        concat(&concat(&concat(&kept, "\n\n"), &lyrics), "\n")
    }
}

/// What a lyrics file holds is kept: but for line breaks at its end, the merged
/// text begins with it.
pub proof fn law_existing_lyrics_are_kept(existing: Seq<char>, embedded: Seq<char>)
    ensures
        ({
            let held = strings::trim_back(existing, CharSet::LineBreak);
            let merged = merged_lrc(existing, embedded);
            held.len() <= merged.len() && merged.take(held.len() as int) == held
        }),
{
    let held = strings::trim_back(existing, CharSet::LineBreak);
    let merged = merged_lrc(existing, embedded);
    strings::lemma_trim_back(existing, CharSet::LineBreak);
    assert(merged.take(held.len() as int) =~= held);
}

proof fn lemma_unix_lines_append(a: Seq<char>, b: Seq<char>)
    requires
        a.len() > 0 ==> a.last() != '\r',
        !b.contains('\r'),
    ensures
        strings::unix_lines(a + b) == strings::unix_lines(a) + b,
    decreases b.len(),
{
    if b.len() == 0 {
        assert(a + b =~= a);
        assert(strings::unix_lines(a) + b =~= strings::unix_lines(a));
    } else {
        let rest = b.drop_last();
        assert(!rest.contains('\r')) by {
            if rest.contains('\r') {
                let i = choose|i: int| 0 <= i < rest.len() && rest[i] == '\r';
                assert(b[i] == '\r');
            }
        }
        lemma_unix_lines_append(a, rest);
        let all = a + b;
        assert(all.drop_last() =~= a + rest);
        assert(b.contains(b.last()));
        assert(all.last() == b.last());
        if all.len() > 1 {
            if b.len() > 1 {
                assert(b.contains(b[b.len() - 2]));
                assert(all[all.len() - 2] == b[b.len() - 2]);
            } else {
                assert(all[all.len() - 2] == a.last());
            }
        }
        assert(strings::unix_lines(a) + b =~= (strings::unix_lines(a) + rest).push(b.last()));
    }
}

proof fn lemma_unix_lines_last(s: Seq<char>)
    requires
        s.len() > 0,
        s.last() != '\r',
        s.last() != '\n',
    ensures
        strings::unix_lines(s).len() > 0,
        strings::unix_lines(s).last() == s.last(),
{
}

proof fn lemma_trim_with_firm_ends(s: Seq<char>, set: CharSet)
    requires
        s.len() > 0,
        !strings::in_set(set, s[0]),
        !strings::in_set(set, s.last()),
    ensures
        strings::trim_both(s, set) == s,
{
}

/// Merged lyrics are at the end of the lyrics file. Lyrics with unified line
/// breaks are found there, so that merging them a second time changes nothing.
pub proof fn law_merging_settles(existing: Seq<char>, embedded: Seq<char>)
    requires
        !strings::trim_both(embedded, CharSet::LineBreak).contains('\r'),
    ensures
        ({
            let words = strings::trim_both(embedded, CharSet::LineBreak);
            let merged = merged_lrc(existing, embedded);
            &&& words.len() > 0 ==> holds_lyrics(plain_lines(merged), words)
            &&& merged_lrc(merged, embedded) == merged
        }),
{
    let words = strings::trim_both(embedded, CharSet::LineBreak);
    let kept = strings::trim_back(existing, CharSet::LineBreak);
    let merged = merged_lrc(existing, embedded);
    if words.len() > 0 && !holds_lyrics(plain_lines(existing), words) {
        reveal_strlit("\n");
        reveal_strlit("\n\n");
        strings::law_trim_both(embedded, CharSet::LineBreak);
        strings::lemma_trim_back(existing, CharSet::LineBreak);
        let none = Seq::<char>::empty();
        let lines = strings::unix_lines(kept);
        let gap = if kept.len() == 0 {
            none
        } else {
            "\n\n"@
        };
        let tail = gap + words + "\n"@;
        assert(merged =~= kept + tail);
        assert(!tail.contains('\r')) by {
            if tail.contains('\r') {
                let i = choose|i: int| 0 <= i < tail.len() && tail[i] == '\r';
                assert(gap.len() <= i < gap.len() + words.len());
                assert(words.contains(words[i - gap.len()]));
            }
        }
        lemma_unix_lines_append(kept, tail);
        let text = strings::unix_lines(merged);
        assert(text == lines + tail);
        let front = strings::trim_front(text, CharSet::LineFeed);
        strings::lemma_trim_front(text, CharSet::LineFeed);
        let cut = text.len() - front.len();
        assert(front == text.skip(cut));
        if kept.len() > 0 {
            lemma_unix_lines_last(kept);
            assert(text[lines.len() - 1] == kept.last());
            assert(cut < lines.len());
        } else {
            assert(lines =~= none);
            assert(text[0] == words[0]);
            assert(cut == 0);
        }
        let whole = front.drop_last();
        assert(front.last() == '\n');
        assert(whole.last() == words.last()) by {
            assert(whole[whole.len() - 1] == text[text.len() - 2]);
            assert(text[text.len() - 2] == words.last());
        }
        assert(plain_lines(merged) == whole) by {
            lemma_trim_with_firm_ends(whole, CharSet::LineFeed);
            assert(whole[0] == front[0]);
        }
        assert(whole.skip(whole.len() - words.len()) =~= words);
        if kept.len() > 0 {
            let before = whole.take(whole.len() - words.len());
            assert(before.len() >= 2);
            assert(before.skip(before.len() - 2) =~= "\n\n"@);
        } else {
            assert(whole =~= words);
        }
    }
}

/// Lyrics found in tags, once merged into a lyrics file, are at its end, and
/// merging them a second time changes nothing.
pub proof fn law_tag_lyrics_are_merged_once(
    existing: Seq<char>,
    lyrics: LyricsView,
    values: Map<Seq<char>, Seq<Seq<char>>>,
)
    requires
        lyric_tags::are_lyrics_of(lyrics, values),
    ensures
        ({
            let text = strings::trim_both(lyrics.content, CharSet::LineBreak);
            let merged = merged_lrc(existing, lyrics.content);
            &&& text.len() > 0 ==> holds_lyrics(plain_lines(merged), text)
            &&& merged_lrc(merged, lyrics.content) == merged
        }),
{
    lyric_tags::law_lyrics_have_unified_lines(lyrics, values);
    let text = strings::trim_both(lyrics.content, CharSet::LineBreak);
    let front = strings::trim_front(lyrics.content, CharSet::LineBreak);
    strings::lemma_trim_front(lyrics.content, CharSet::LineBreak);
    strings::lemma_trim_back(front, CharSet::LineBreak);
    if text.contains('\r') {
        let i = choose|i: int| 0 <= i < text.len() && text[i] == '\r';
        assert(front[i] == '\r');
        assert(lyrics.content[i + lyrics.content.len() - front.len()] == '\r');
    }
    law_merging_settles(existing, lyrics.content);
}

/// The file that a lyrics file is written to before it takes its place.
pub open spec fn temporary_lrc(path: Seq<path::PartView>, process: u32) -> Seq<path::PartView> {
    let extension = match path::bytes_opt_text(path::extension_of(path)) {
        Some(extension) => extension,
        None => "lrc"@,
    };
    sidecars::with_extension_text(
        path,
        extension + ".musee-tmp-"@ + numbers::decimal(process as nat),
    )
}

fn temporary_path(path: &FilePath, process: u32) -> (res: FilePath)
    ensures
        res@ == temporary_lrc(path@, process),
{
    let extension = match path.extension_text() {
        Some(extension) => extension,
        None => "lrc".to_string(),
    };
    let number = decimal_text(process as u64);
    with_extension(path, &concat(&concat(&extension, ".musee-tmp-"), &number))
}

/// How writing a lyrics file ended.
#[derive(Debug, Clone, Copy, PartialEq, Eq)]
pub enum LyricsOutcome {
    /// The file holds the lyrics already.
    Unchanged,
    /// The file was written.
    Written,
    /// The file could not be read.
    ReadFailed,
    /// It could not be told whether the temporary file exists.
    CheckFailed,
    /// The temporary file exists.
    TemporaryExists,
    /// The temporary file could not be written.
    WriteFailed,
    /// The temporary file could not take its place.
    InstallFailed,
}

/// How far writing a lyrics file has come.
#[derive(Debug, Clone, Copy, PartialEq, Eq)]
pub enum LyricsPhase {
    Reading,
    Checking,
    Writing,
    Installing,
    Clearing,
    Finished(LyricsOutcome),
}

/// The writing of a lyrics file.
#[derive(Debug)]
pub struct LyricsWrite {
    pub path: FilePath,
    pub temporary: FilePath,
    pub embedded: String,
    /// What the file held.
    pub existing: String,
    /// What the file is to hold.
    pub merged: String,
    pub phase: LyricsPhase,
}

/// The writing of a lyrics file, by its content.
pub struct LyricsWriteView {
    pub path: Seq<path::PartView>,
    pub temporary: Seq<path::PartView>,
    pub embedded: Seq<char>,
    pub existing: Seq<char>,
    pub merged: Seq<char>,
    pub phase: LyricsPhase,
}

impl View for LyricsWrite {
    type V = LyricsWriteView;

    open spec fn view(&self) -> LyricsWriteView {
        LyricsWriteView {
            path: self.path@,
            temporary: self.temporary@,
            embedded: self.embedded@,
            existing: self.existing@,
            merged: self.merged@,
            phase: self.phase,
        }
    }
}

/// What to do next about a lyrics file.
#[derive(Debug)]
pub enum LyricsAction {
    /// Read the file; it may not exist.
    Read(FilePath),
    /// Find out whether the file exists.
    Check(FilePath),
    Write(FilePath, String),
    Rename(FilePath, FilePath),
    /// Remove the file, and go on whether that succeeds or not.
    Remove(FilePath),
    Finish(LyricsOutcome),
}

/// What to do next about a lyrics file, by its content.
pub enum LyricsActionView {
    Read(Seq<path::PartView>),
    Check(Seq<path::PartView>),
    Write(Seq<path::PartView>, Seq<char>),
    Rename(Seq<path::PartView>, Seq<path::PartView>),
    Remove(Seq<path::PartView>),
    Finish(LyricsOutcome),
}

impl View for LyricsAction {
    type V = LyricsActionView;

    open spec fn view(&self) -> LyricsActionView {
        match self {
            LyricsAction::Read(path) => LyricsActionView::Read(path@),
            LyricsAction::Check(path) => LyricsActionView::Check(path@),
            LyricsAction::Write(path, content) => LyricsActionView::Write(path@, content@),
            LyricsAction::Rename(source, target) => LyricsActionView::Rename(source@, target@),
            LyricsAction::Remove(path) => LyricsActionView::Remove(path@),
            LyricsAction::Finish(outcome) => LyricsActionView::Finish(*outcome),
        }
    }
}

/// What came of an action.
#[derive(Debug)]
pub enum LyricsEvent {
    Text(String),
    Absent,
    Present,
    Done,
    Failed,
}

/// What came of an action, by its content.
pub enum LyricsEventView {
    Text(Seq<char>),
    Absent,
    Present,
    Done,
    Failed,
}

impl View for LyricsEvent {
    type V = LyricsEventView;

    open spec fn view(&self) -> LyricsEventView {
        match self {
            LyricsEvent::Text(text) => LyricsEventView::Text(text@),
            LyricsEvent::Absent => LyricsEventView::Absent,
            LyricsEvent::Present => LyricsEventView::Present,
            LyricsEvent::Done => LyricsEventView::Done,
            LyricsEvent::Failed => LyricsEventView::Failed,
        }
    }
}

/// The beginning of writing a lyrics file.
pub open spec fn lyrics_begin(
    path: Seq<path::PartView>,
    embedded: Seq<char>,
    process: u32,
) -> LyricsWriteView {
    LyricsWriteView {
        path,
        temporary: temporary_lrc(path, process),
        embedded,
        existing: Seq::empty(),
        merged: Seq::empty(),
        phase: LyricsPhase::Reading,
    }
}

/// What to do next about a lyrics file.
pub open spec fn lyrics_action(write: LyricsWriteView) -> LyricsActionView {
    match write.phase {
        LyricsPhase::Reading => LyricsActionView::Read(write.path),
        LyricsPhase::Checking => LyricsActionView::Check(write.temporary),
        LyricsPhase::Writing => LyricsActionView::Write(write.temporary, write.merged),
        LyricsPhase::Installing => LyricsActionView::Rename(write.temporary, write.path),
        LyricsPhase::Clearing => LyricsActionView::Remove(write.temporary),
        LyricsPhase::Finished(outcome) => LyricsActionView::Finish(outcome),
    }
}

/// Whether an event can come of the action that is due.
pub open spec fn lyrics_fits(phase: LyricsPhase, event: LyricsEventView) -> bool {
    match phase {
        LyricsPhase::Reading => event is Text || event is Absent || event is Failed,
        LyricsPhase::Checking => event is Present || event is Absent || event is Failed,
        LyricsPhase::Writing => event is Done || event is Failed,
        LyricsPhase::Installing => event is Done || event is Failed,
        LyricsPhase::Clearing => event is Done || event is Failed,
        LyricsPhase::Finished(_) => false,
    }
}

/// How writing goes on once the text of the file is known.
pub open spec fn lyrics_read(write: LyricsWriteView, existing: Seq<char>) -> LyricsWriteView {
    let merged = merged_lrc(existing, write.embedded);
    LyricsWriteView {
        existing,
        merged,
        phase: if merged == existing {
            LyricsPhase::Finished(LyricsOutcome::Unchanged)
        } else {
            LyricsPhase::Checking
        },
        ..write
    }
}

/// How writing goes on after an event. A file that does not exist counts as
/// empty.
pub open spec fn lyrics_next(write: LyricsWriteView, event: LyricsEventView) -> LyricsWriteView {
    match (write.phase, event) {
        (LyricsPhase::Reading, LyricsEventView::Text(text)) => lyrics_read(write, text),
        (LyricsPhase::Reading, LyricsEventView::Absent) => lyrics_read(write, Seq::empty()),
        (LyricsPhase::Reading, _) => LyricsWriteView {
            phase: LyricsPhase::Finished(LyricsOutcome::ReadFailed),
            ..write
        },
        (LyricsPhase::Checking, LyricsEventView::Absent) => LyricsWriteView {
            phase: LyricsPhase::Writing,
            ..write
        },
        (LyricsPhase::Checking, LyricsEventView::Present) => LyricsWriteView {
            phase: LyricsPhase::Finished(LyricsOutcome::TemporaryExists),
            ..write
        },
        (LyricsPhase::Checking, _) => LyricsWriteView {
            phase: LyricsPhase::Finished(LyricsOutcome::CheckFailed),
            ..write
        },
        (LyricsPhase::Writing, LyricsEventView::Done) => LyricsWriteView {
            phase: LyricsPhase::Installing,
            ..write
        },
        (LyricsPhase::Writing, _) => LyricsWriteView {
            phase: LyricsPhase::Finished(LyricsOutcome::WriteFailed),
            ..write
        },
        (LyricsPhase::Installing, LyricsEventView::Done) => LyricsWriteView {
            phase: LyricsPhase::Finished(LyricsOutcome::Written),
            ..write
        },
        (LyricsPhase::Installing, _) => LyricsWriteView { phase: LyricsPhase::Clearing, ..write },
        (LyricsPhase::Clearing, _) => LyricsWriteView {
            phase: LyricsPhase::Finished(LyricsOutcome::InstallFailed),
            ..write
        },
        (LyricsPhase::Finished(_), _) => write,
    }
}

impl LyricsWrite {
    /// Begins to write lyrics into a file.
    pub fn begin(path: FilePath, embedded: &str, process: u32) -> (res: LyricsWrite)
        ensures
            res@ == lyrics_begin(path@, embedded@, process),
    {
        let temporary = temporary_path(&path, process);
        LyricsWrite {
            path,
            temporary,
            embedded: embedded.to_string(),
            existing: String::new(),
            merged: String::new(),
            phase: LyricsPhase::Reading,
        }
    }

    /// What to do next.
    pub fn action(&self) -> (res: LyricsAction)
        ensures
            res@ == lyrics_action(self@),
    {
        match self.phase {
            LyricsPhase::Reading => LyricsAction::Read(self.path.clone()),
            LyricsPhase::Checking => LyricsAction::Check(self.temporary.clone()),
            LyricsPhase::Writing => LyricsAction::Write(
                self.temporary.clone(),
                self.merged.clone(),
            ),
            LyricsPhase::Installing => LyricsAction::Rename(
                self.temporary.clone(),
                self.path.clone(),
            ),
            LyricsPhase::Clearing => LyricsAction::Remove(self.temporary.clone()),
            LyricsPhase::Finished(outcome) => LyricsAction::Finish(outcome),
        }
    }

    fn merge(&mut self, existing: String)
        ensures
            final(self)@ == lyrics_read(old(self)@, existing@),
    {
        self.merged = merge_lrc_content(&existing, &self.embedded);
        self.phase = if same_text(&self.merged, &existing) {
            LyricsPhase::Finished(LyricsOutcome::Unchanged)
        } else {
            LyricsPhase::Checking
        };
        self.existing = existing;
    }

    /// Goes on after an event.
    pub fn advance(&mut self, event: LyricsEvent)
        requires
            lyrics_fits(old(self)@.phase, event@),
        ensures
            final(self)@ == lyrics_next(old(self)@, event@),
    {
        match (self.phase, event) {
            (LyricsPhase::Reading, LyricsEvent::Text(text)) => {
                self.merge(text);
            },
            (LyricsPhase::Reading, LyricsEvent::Absent) => {
                let none = String::new();
                assert(none@ =~= Seq::empty());
                self.merge(none);
            },
            (LyricsPhase::Reading, _) => {
                self.phase = LyricsPhase::Finished(LyricsOutcome::ReadFailed);
            },
            (LyricsPhase::Checking, LyricsEvent::Absent) => {
                self.phase = LyricsPhase::Writing;
            },
            (LyricsPhase::Checking, LyricsEvent::Present) => {
                self.phase = LyricsPhase::Finished(LyricsOutcome::TemporaryExists);
            },
            (LyricsPhase::Checking, _) => {
                self.phase = LyricsPhase::Finished(LyricsOutcome::CheckFailed);
            },
            (LyricsPhase::Writing, LyricsEvent::Done) => {
                self.phase = LyricsPhase::Installing;
            },
            (LyricsPhase::Writing, _) => {
                self.phase = LyricsPhase::Finished(LyricsOutcome::WriteFailed);
            },
            (LyricsPhase::Installing, LyricsEvent::Done) => {
                self.phase = LyricsPhase::Finished(LyricsOutcome::Written);
            },
            (LyricsPhase::Installing, _) => {
                self.phase = LyricsPhase::Clearing;
            },
            (LyricsPhase::Clearing, _) => {
                self.phase = LyricsPhase::Finished(LyricsOutcome::InstallFailed);
            },
            (LyricsPhase::Finished(_), _) => {},
        }
    }
}

/// The state after a sequence of events.
pub open spec fn lyrics_after(
    start: LyricsWriteView,
    events: Seq<LyricsEventView>,
) -> LyricsWriteView
    decreases events.len(),
{
    if events.len() == 0 {
        start
    } else {
        lyrics_next(lyrics_after(start, events.drop_last()), events.last())
    }
}

/// Whether each event can come of the action that is due when it comes.
pub open spec fn is_lyrics_run(start: LyricsWriteView, events: Seq<LyricsEventView>) -> bool
    decreases events.len(),
{
    events.len() > 0 ==> is_lyrics_run(start, events.drop_last()) && lyrics_fits(
        lyrics_after(start, events.drop_last()).phase,
        events.last(),
    )
}

/// Whatever happens, the one change to the lyrics file is that the finished
/// temporary file takes its place. What is written there is the text that was
/// read, or nothing where there was no file, with the lyrics merged into it, and
/// it differs from that text. No other file is touched but the temporary one,
/// and that only after it was found not to exist.
pub proof fn law_lyrics_file_is_replaced_whole(
    path: Seq<path::PartView>,
    embedded: Seq<char>,
    process: u32,
    events: Seq<LyricsEventView>,
)
    requires
        is_lyrics_run(lyrics_begin(path, embedded, process), events),
    ensures
        ({
            let start = lyrics_begin(path, embedded, process);
            let now = lyrics_after(start, events);
            let temporary = temporary_lrc(path, process);
            let read = match events[0] {
                LyricsEventView::Text(text) => text,
                _ => Seq::empty(),
            };
            let merged = merged_lrc(read, embedded);
            match lyrics_action(now) {
                LyricsActionView::Read(file) => file == path && events.len() == 0,
                LyricsActionView::Check(file) => file == temporary && merged != read,
                LyricsActionView::Write(file, content) => {
                    &&& file == temporary
                    &&& content == merged
                    &&& merged != read
                    &&& events.last() is Absent
                    &&& lyrics_action(lyrics_after(start, events.drop_last()))
                        == LyricsActionView::Check(temporary)
                },
                LyricsActionView::Rename(source, target) => {
                    &&& source == temporary
                    &&& target == path
                    &&& events.last() is Done
                    &&& lyrics_action(lyrics_after(start, events.drop_last()))
                        == LyricsActionView::Write(temporary, merged)
                },
                LyricsActionView::Remove(file) => file == temporary,
                LyricsActionView::Finish(outcome) => {
                    &&& outcome is Unchanged ==> merged == read
                    &&& outcome is Written ==> {
                        &&& events.last() is Done
                        &&& lyrics_action(lyrics_after(start, events.drop_last()))
                            == LyricsActionView::Rename(temporary, path)
                    }
                },
            }
        }),
{
    lemma_lyrics_state(path, embedded, process, events);
    if events.len() > 0 {
        lemma_lyrics_state(path, embedded, process, events.drop_last());
        if events.len() > 1 {
            assert(events.drop_last()[0] == events[0]);
        }
    }
}

proof fn lemma_lyrics_state(
    path: Seq<path::PartView>,
    embedded: Seq<char>,
    process: u32,
    events: Seq<LyricsEventView>,
)
    requires
        is_lyrics_run(lyrics_begin(path, embedded, process), events),
    ensures
        ({
            let now = lyrics_after(lyrics_begin(path, embedded, process), events);
            let read = match events[0] {
                LyricsEventView::Text(text) => text,
                _ => Seq::empty(),
            };
            &&& now.path == path
            &&& now.temporary == temporary_lrc(path, process)
            &&& now.embedded == embedded
            &&& now.phase is Reading <==> events.len() == 0
            &&& now.phase is Checking || now.phase is Writing || now.phase is Installing
                || now.phase is Clearing ==> now.merged == merged_lrc(read, embedded) && now.merged
                != read
            &&& now.phase == LyricsPhase::Finished(LyricsOutcome::Unchanged) ==> merged_lrc(
                read,
                embedded,
            ) == read
        }),
    decreases events.len(),
{
    if events.len() > 0 {
        lemma_lyrics_state(path, embedded, process, events.drop_last());
        if events.len() > 1 {
            assert(events.drop_last()[0] == events[0]);
        }
    }
}

/// A text, an empty line, and another text.
pub open spec fn behind_gap(front: Seq<char>, text: Seq<char>) -> Seq<char> {
    front.push('\n').push('\n') + text
}

/// What merging does to a lyrics file. Lyrics of line breaks alone change nothing,
/// and neither do those that the file consists of or ends with behind an empty
/// line, read with unified line breaks. Any others are put behind what the file
/// holds, and an empty line, without the line breaks at the ends of either.
pub proof fn law_merged_text(existing: Seq<char>, embedded: Seq<char>, before: Seq<char>)
    ensures
        ({
            let words = strings::trim_both(embedded, CharSet::LineBreak);
            let text = strings::trim_both(strings::unix_lines(existing), CharSet::LineFeed);
            let held = strings::trim_back(existing, CharSet::LineBreak);
            let merged = merged_lrc(existing, embedded);
            &&& words.len() == 0 ==> merged == existing
            &&& text == words ==> merged == existing
            &&& text == behind_gap(before, words) ==> merged == existing
            &&& words.len() > 0 && text != words && (forall|front: Seq<char>|
                text != #[trigger] behind_gap(front, words)) ==> merged == if held.len()
                == 0 {
                words + seq!['\n']
            } else {
                held + seq!['\n', '\n'] + words + seq!['\n']
            }
        }),
{
    let words = strings::trim_both(embedded, CharSet::LineBreak);
    let text = strings::trim_both(strings::unix_lines(existing), CharSet::LineFeed);
    reveal_strlit("\n\n");
    reveal_strlit("\n");
    let gap = seq!['\n', '\n'];
    assert("\n\n"@ =~= gap);
    assert("\n"@ =~= seq!['\n']);
    if text == behind_gap(before, words) {
        assert(behind_gap(before, words) =~= before + gap + words);
        let front = text.take(text.len() - words.len());
        assert(text.skip(text.len() - words.len()) =~= words);
        assert(front =~= before + gap);
        assert(front.skip(front.len() - 2) =~= gap);
    }
    if holds_lyrics(text, words) && text != words {
        let front = text.take(text.len() - words.len());
        let start = front.take(front.len() - 2);
        assert(front.skip(front.len() - 2) == gap);
        assert(text =~= behind_gap(start, words));
    }
}

/// Once merged, lyrics with unified line breaks are the end of the file, and
/// either all of it or behind an empty line.
pub proof fn law_lyrics_end_up_in_file(existing: Seq<char>, embedded: Seq<char>)
    requires
        !strings::trim_both(embedded, CharSet::LineBreak).contains('\r'),
        strings::trim_both(embedded, CharSet::LineBreak).len() > 0,
    ensures
        ({
            let words = strings::trim_both(embedded, CharSet::LineBreak);
            let merged = merged_lrc(existing, embedded);
            let text = strings::trim_both(strings::unix_lines(merged), CharSet::LineFeed);
            text == words || exists|front: Seq<char>|
                text == #[trigger] behind_gap(front, words)
        }),
{
    let words = strings::trim_both(embedded, CharSet::LineBreak);
    let merged = merged_lrc(existing, embedded);
    let text = strings::trim_both(strings::unix_lines(merged), CharSet::LineFeed);
    law_merging_settles(existing, embedded);
    reveal_strlit("\n\n");
    let gap = seq!['\n', '\n'];
    assert("\n\n"@ =~= gap);
    if text != words {
        let front = text.take(text.len() - words.len());
        let start = front.take(front.len() - 2);
        assert(front.skip(front.len() - 2) == gap);
        assert(text =~= behind_gap(start, words));
    }
}

/// The temporary file stands beside the lyrics file under another name.
pub proof fn law_temporary_is_beside(path: Seq<path::PartView>, process: u32)
    requires
        path::is_valid(path),
        path::name_of(path) is Some,
        path::extension_of(path) matches Some(extension) ==> vstd::utf8::valid_utf8(extension),
    ensures
        path::parent_of(temporary_lrc(path, process)) == path::parent_of(path),
        temporary_lrc(path, process) != path,
{
    let name = path::name_of(path).unwrap();
    let front = path.drop_last();
    assert(front.push(path::PartView::Name(name)) =~= path);
    assert(path::is_inner_part(path[path.len() - 1]));
    path::law_stem_and_extension(front, name);
    let extension = match path::bytes_opt_text(path::extension_of(path)) {
        Some(extension) => extension,
        None => "lrc"@,
    };
    let tail = ".musee-tmp-"@ + numbers::decimal(process as nat);
    let whole = extension + ".musee-tmp-"@ + numbers::decimal(process as nat);
    reveal_strlit(".musee-tmp-");
    assert(whole =~= extension + tail);
    path::lemma_encode_append(extension, tail);
    let bytes = vstd::utf8::encode_utf8(whole);
    let more = vstd::utf8::encode_utf8(tail);
    vstd::utf8::encode_utf8_decode_utf8(tail);
    assert(more.len() > 0) by {
        if more.len() == 0 {
            assert(vstd::utf8::decode_utf8(more) =~= Seq::empty());
        }
    }
    path::law_extension_is_replaced(path, bytes);
    let stem = path::stem_of(path).unwrap();
    let fresh = stem + seq![46u8] + bytes;
    let temporary = temporary_lrc(path, process);
    assert(temporary == front.push(path::PartView::Name(fresh)));
    path::law_parent_and_name(temporary);
    path::law_parent_and_name(path);
    assert(fresh.len() > name.len()) by {
        if let Some(own) = path::extension_of(path) {
            vstd::utf8::decode_utf8_encode_utf8(own);
        }
    }
}

/// What the writing of a lyrics file does after each action and what came of it. It
/// begins by reading the file.
pub proof fn law_lyrics_write_goes_on(
    path: Seq<path::PartView>,
    embedded: Seq<char>,
    process: u32,
    events: Seq<LyricsEventView>,
    event: LyricsEventView,
)
    requires
        is_lyrics_run(lyrics_begin(path, embedded, process), events.push(event)),
    ensures
        ({
            let start = lyrics_begin(path, embedded, process);
            let before = lyrics_action(lyrics_after(start, events));
            let now = lyrics_action(lyrics_after(start, events.push(event)));
            let aside = temporary_lrc(path, process);
            let held = if event is Text {
                event->Text_0
            } else {
                Seq::empty()
            };
            let good = event is Done;
            &&& lyrics_action(start) is Read && lyrics_action(start)->Read_0 == path
            &&& match before {
                LyricsActionView::Read(_) => {
                    &&& event is Failed ==> now is Finish && now->Finish_0 is ReadFailed
                    &&& !(event is Failed) && merged_lrc(held, embedded) == held ==> now is Finish
                        && now->Finish_0 is Unchanged
                    &&& !(event is Failed) && merged_lrc(held, embedded) != held ==> now is Check
                        && now->Check_0 == aside
                },
                LyricsActionView::Check(_) => {
                    &&& event is Absent ==> now is Write && now->Write_0 == aside
                    &&& event is Present ==> now is Finish && now->Finish_0 is TemporaryExists
                    &&& event is Failed ==> now is Finish && now->Finish_0 is CheckFailed
                },
                LyricsActionView::Write(_, _) => {
                    &&& good ==> now is Rename && now->Rename_0 == aside && now->Rename_1 == path
                    &&& !good ==> now is Finish && now->Finish_0 is WriteFailed
                },
                LyricsActionView::Rename(_, _) => {
                    &&& good ==> now is Finish && now->Finish_0 is Written
                    &&& !good ==> now is Remove && now->Remove_0 == aside
                },
                LyricsActionView::Remove(_) => now is Finish && now->Finish_0 is InstallFailed,
                LyricsActionView::Finish(_) => false,
            }
        }),
{
    let all = events.push(event);
    assert(all.drop_last() =~= events);
    assert(all.last() == event);
    lemma_lyrics_state(path, embedded, process, events);
}

/// The name of the temporary file: that of the lyrics file with a mark and the number
/// of the process; `lrc` stands for an extension that is missing.
pub proof fn law_temporary_name(
    front: Seq<path::PartView>,
    stem: Seq<char>,
    extension: Seq<char>,
    process: u32,
)
    requires
        stem.len() > 0,
        !stem.contains('.'),
        !extension.contains('.'),
    ensures
        ({
            let mark = seq!['.', 'm', 'u', 's', 'e', 'e', '-', 't', 'm', 'p', '-']
                + numbers::decimal(process as nat);
            let named = front.push(
                path::PartView::Name(vstd::utf8::encode_utf8(stem + seq!['.'] + extension)),
            );
            let bare = front.push(path::PartView::Name(vstd::utf8::encode_utf8(stem)));
            &&& path::is_valid(named) ==> temporary_lrc(named, process) == front.push(
                path::PartView::Name(
                    vstd::utf8::encode_utf8(stem + seq!['.'] + (extension + mark)),
                ),
            )
            &&& path::is_valid(bare) ==> temporary_lrc(bare, process) == front.push(
                path::PartView::Name(
                    vstd::utf8::encode_utf8(stem + seq!['.'] + (seq!['l', 'r', 'c'] + mark)),
                ),
            )
        }),
{
    let number = numbers::decimal(process as nat);
    let mark = seq!['.', 'm', 'u', 's', 'e', 'e', '-', 't', 'm', 'p', '-'] + number;
    let named = front.push(
        path::PartView::Name(vstd::utf8::encode_utf8(stem + seq!['.'] + extension)),
    );
    let bare = front.push(path::PartView::Name(vstd::utf8::encode_utf8(stem)));
    reveal_strlit("lrc");
    reveal_strlit(".musee-tmp-");
    assert("lrc"@ =~= seq!['l', 'r', 'c']);
    assert(".musee-tmp-"@ =~= seq!['.', 'm', 'u', 's', 'e', 'e', '-', 't', 'm', 'p', '-']);
    assert(extension + ".musee-tmp-"@ + number =~= extension + mark);
    assert("lrc"@ + ".musee-tmp-"@ + number =~= seq!['l', 'r', 'c'] + mark);
    if path::is_valid(named) {
        path::law_spelled_name(front, stem, extension);
        sidecars::lemma_extension_text(named, stem, extension + mark);
        assert(named.drop_last() =~= front);
    }
    if path::is_valid(bare) {
        sidecars::lemma_bare_name(front, stem);
        sidecars::lemma_extension_text(bare, stem, seq!['l', 'r', 'c'] + mark);
        assert(bare.drop_last() =~= front);
    }
}

} // verus!
