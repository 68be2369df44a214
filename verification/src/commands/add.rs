//! Adding files to the library.

use vstd::prelude::*;

use crate::actions;
use crate::actions::{push_action, Action};
use crate::audio;
use crate::audio::{canonical_destination, canonicalize, CanonicalTrack, TagUpdates, TrackMetadata};
use crate::cli::AddArgs;
use crate::encoding;
use crate::fsutil;
use crate::fsutil::{picks, FileFilter};
use crate::known::KnownFiles;
use crate::path;
use crate::path::FilePath;
use crate::pathset::{Claims, PathSet};
use crate::reserve;
use crate::reserve::{reserve_unique, Precedence, Reservation};
use crate::sidecars;
use crate::sidecars::{album_sidecar, gather_sidecars, DirEntry, Gather, SidecarPlan};
use crate::strings;
use crate::strings::{concat, to_lower_text};
use crate::text;

verus! {

/// The artist by which unreleased tracks go: the one named, or `Ye`.
pub open spec fn unreleased_by(unreleased_artist: Option<Seq<char>>) -> Seq<char> {
    match unreleased_artist {
        Some(artist) => artist,
        None => "Ye"@,
    }
}

/// The names by which a track is filed when it is added. An unreleased one goes
/// by the given artist, or `Ye`, to the album `Unreleased`, and has these names
/// written into its tags.
pub open spec fn added_track(
    track: audio::TrackView,
    unreleased: bool,
    unreleased_artist: Option<Seq<char>>,
) -> audio::CanonicalView {
    if !unreleased {
        audio::canonical_track(track)
    } else {
        let artist = unreleased_by(unreleased_artist);
        let canonical = audio::canonical_track(
            audio::TrackView { albumartist: artist, artist, album: "Unreleased"@, ..track },
        );
        audio::CanonicalView {
            tag_updates: audio::UpdatesView {
                albumartist: Some(canonical.albumartist),
                artist: Some(artist),
                album: Some(canonical.album),
                title: Some(canonical.title),
                genre: canonical.tag_updates.genre,
            },
            ..canonical
        }
    }
}

/// The names by which a track is filed when it is added.
pub fn canonicalize_for_add(
    metadata: TrackMetadata,
    unreleased: bool,
    unreleased_artist: Option<&str>,
) -> (res: CanonicalTrack)
    ensures
        res@ == added_track(metadata@, unreleased, strings::str_opt(unreleased_artist)),
{
    if !unreleased {
        return canonicalize(&metadata);
    }
    let artist = match unreleased_artist {
        Some(artist) => artist.to_string(),
        None => "Ye".to_string(),
    };
    let track = TrackMetadata {
        albumartist: artist.clone(),
        artist: artist.clone(),
        album: "Unreleased".to_string(),
        title: metadata.title,
        tracknumber: metadata.tracknumber,
    };
    let canonical = canonicalize(&track);
    let tag_updates = TagUpdates {
        albumartist: Some(canonical.albumartist.clone()),
        artist: Some(artist),
        album: Some(canonical.album.clone()),
        title: Some(canonical.title.clone()),
        genre: canonical.tag_updates.genre,
    };
    CanonicalTrack {
        albumartist: canonical.albumartist,
        album: canonical.album,
        title: canonical.title,
        track_prefix: canonical.track_prefix,
        tag_updates,
    }
}

/// Which files may be added: those of all formats that can be transcoded, or
/// FLAC files only.
pub open spec fn accepted(accept_supported_audio: bool) -> FileFilter {
    if accept_supported_audio {
        FileFilter::Audio
    } else {
        FileFilter::Flac
    }
}

/// Which files may be added.
pub fn input_filter(accept_supported_audio: bool) -> (res: FileFilter)
    ensures
        res == accepted(accept_supported_audio),
{
    if accept_supported_audio {
        FileFilter::Audio
    } else {
        FileFilter::Flac
    }
}

/// Whether a file may be added.
pub fn accepted_input(path: &FilePath, accept_supported_audio: bool) -> (res: bool)
    ensures
        res == fsutil::is_picked(accepted(accept_supported_audio), path@),
{
    picks(input_filter(accept_supported_audio), path)
}

/// The ending of the file that a source becomes: always that of a FLAC file when
/// it is transcoded, else its own in small letters.
pub open spec fn target_ending(source: Seq<path::PartView>, transcoded: bool) -> Seq<char> {
    if transcoded {
        ".flac"@
    } else {
        match encoding::lower_extension(source) {
            Some(extension) => "."@ + extension,
            None => ".flac"@,
        }
    }
}

fn ending_for(source: &FilePath, transcoded: bool) -> (res: String)
    ensures
        res@ == target_ending(source@, transcoded),
{
    if transcoded {
        return ".flac".to_string();
    }
    match source.extension_text() {
        Some(extension) => concat(".", &to_lower_text(&extension)),
        None => ".flac".to_string(),
    }
}

/// A file to add.
#[derive(Debug)]
pub struct AddInput {
    pub source: FilePath,
    pub metadata: TrackMetadata,
    /// What lies in the directory of the file.
    pub entries: Vec<DirEntry>,
    /// The length of the file.
    pub bytes: u64,
}

/// A file to add, by its content.
pub struct AddInputView {
    pub source: Seq<path::PartView>,
    pub metadata: audio::TrackView,
    pub entries: Seq<sidecars::EntryView>,
    pub bytes: u64,
}

impl View for AddInput {
    type V = AddInputView;

    open spec fn view(&self) -> AddInputView {
        AddInputView {
            source: self.source@,
            metadata: self.metadata@,
            entries: sidecars::entry_views(self.entries@),
            bytes: self.bytes,
        }
    }
}

/// How a file is to be added.
#[derive(Debug)]
pub struct AddPlan {
    pub source: FilePath,
    pub target: FilePath,
    pub sidecars: Vec<SidecarPlan>,
    pub tag_updates: TagUpdates,
    /// The file does not go where it belongs, because that path is not free.
    pub collision: bool,
    pub bytes: u64,
}

/// How a file is to be added, by its content.
pub struct AddPlanView {
    pub source: Seq<path::PartView>,
    pub target: Seq<path::PartView>,
    pub sidecars: Seq<sidecars::SidecarView>,
    pub tag_updates: audio::UpdatesView,
    pub collision: bool,
    pub bytes: u64,
}

impl View for AddPlan {
    type V = AddPlanView;

    open spec fn view(&self) -> AddPlanView {
        AddPlanView {
            source: self.source@,
            target: self.target@,
            sidecars: sidecars::sidecar_views(self.sidecars@),
            tag_updates: self.tag_updates@,
            collision: self.collision,
            bytes: self.bytes,
        }
    }
}

/// The outcome of planning.
#[derive(Debug)]
pub enum AddStep {
    Planned(AddPlan),
    /// The plan cannot go on without knowing whether this file exists.
    Ask(FilePath),
    /// No path is free.
    Exhausted,
    /// The target lies in no directory.
    MissingParent,
}

/// The outcome of planning, with the paths taken after it.
pub enum AddStepView {
    Planned(AddPlanView, Set<Seq<path::PartView>>),
    Ask(Seq<path::PartView>),
    Exhausted,
    MissingParent,
}

/// The files that go with an album, from position `i` on, each with its own name
/// in the directory of the album, where that is free.
pub open spec fn album_files_from(
    entries: Seq<sidecars::EntryView>,
    directory: Seq<path::PartView>,
    known: Map<Seq<path::PartView>, bool>,
    so_far: sidecars::Gathered,
    i: nat,
) -> sidecars::Planned<sidecars::Gathered>
    decreases entries.len() - i,
{
    if i >= entries.len() {
        sidecars::Planned::Done(so_far)
    } else {
        match sidecars::album_sidecar_name(entries[i as int]) {
            Some(name) => {
                let target = path::joined(directory, name);
                if !known.contains_key(target) {
                    sidecars::Planned::Ask(target)
                } else if known[target] || so_far.taken.contains(target) {
                    album_files_from(entries, directory, known, so_far, i + 1)
                } else {
                    album_files_from(
                        entries,
                        directory,
                        known,
                        sidecars::Gathered {
                            sidecars: so_far.sidecars.push(
                                sidecars::SidecarView {
                                    source: entries[i as int].path,
                                    target,
                                    copy_only: true,
                                },
                            ),
                            taken: so_far.taken.insert(target),
                        },
                        i + 1,
                    )
                }
            },
            None => album_files_from(entries, directory, known, so_far, i + 1),
        }
    }
}

/// The files that go with an album, if the file added lies in a directory.
pub open spec fn album_files(
    input: AddInputView,
    directory: Seq<path::PartView>,
    known: Map<Seq<path::PartView>, bool>,
    so_far: sidecars::Gathered,
) -> sidecars::Planned<sidecars::Gathered> {
    if path::parent_of(input.source) is Some {
        album_files_from(input.entries, directory, known, so_far, 0)
    } else {
        sidecars::Planned::Done(so_far)
    }
}

/// Where a file belongs in the library.
pub open spec fn desired_target(
    server: Seq<path::PartView>,
    args: AddArgs,
    input: AddInputView,
) -> Seq<path::PartView> {
    audio::track_destination(
        server,
        added_track(input.metadata, args.unreleased, strings::text_opt(args.unreleased_artist)),
        target_ending(input.source, args.encoding is Some),
    )
}

/// How a file is to be added, given the paths taken and what is known of which
/// files exist.
pub open spec fn add_step(
    server: Seq<path::PartView>,
    args: AddArgs,
    input: AddInputView,
    taken: Set<Seq<path::PartView>>,
    known: Map<Seq<path::PartView>, bool>,
) -> AddStepView {
    let desired = desired_target(server, args, input);
    match reserve::reservation(
        Precedence::OwnPath,
        desired,
        Some(input.source),
        taken,
        known,
        0,
    ) {
        reserve::ReservationView::Free(target) => {
            let start = sidecars::Gathered { sidecars: Seq::empty(), taken: taken.insert(target) };
            match sidecars::gathered_from(
                Precedence::OwnPath,
                input.source,
                target,
                known,
                start,
                0,
            ) {
                sidecars::Planned::Done(gathered) => match path::parent_of(target) {
                    Some(directory) => match album_files(input, directory, known, gathered) {
                        sidecars::Planned::Done(all) => AddStepView::Planned(
                            AddPlanView {
                                source: input.source,
                                target,
                                sidecars: all.sidecars,
                                tag_updates: added_track(
                                    input.metadata,
                                    args.unreleased,
                                    strings::text_opt(args.unreleased_artist),
                                ).tag_updates,
                                collision: target != desired,
                                bytes: input.bytes,
                            },
                            all.taken,
                        ),
                        sidecars::Planned::Ask(path) => AddStepView::Ask(path),
                        sidecars::Planned::Exhausted => AddStepView::Exhausted,
                    },
                    None => AddStepView::MissingParent,
                },
                sidecars::Planned::Ask(path) => AddStepView::Ask(path),
                sidecars::Planned::Exhausted => AddStepView::Exhausted,
            }
        },
        reserve::ReservationView::Ask(path) => AddStepView::Ask(path),
        reserve::ReservationView::Exhausted => AddStepView::Exhausted,
    }
}

proof fn lemma_album_files_are_safe(
    entries: Seq<sidecars::EntryView>,
    directory: Seq<path::PartView>,
    known: Map<Seq<path::PartView>, bool>,
    so_far: sidecars::Gathered,
    i: nat,
)
    ensures
        album_files_from(entries, directory, known, so_far, i) matches sidecars::Planned::Done(all)
            ==> sidecars::extends(Precedence::OwnPath, so_far, all, known),
    decreases entries.len() - i,
{
    if i >= entries.len() {
        sidecars::lemma_extends_self(Precedence::OwnPath, so_far, known);
    } else {
        lemma_album_files_are_safe(entries, directory, known, so_far, i + 1);
        if let Some(name) = sidecars::album_sidecar_name(entries[i as int]) {
            let target = path::joined(directory, name);
            if known.contains_key(target) && !known[target] && !so_far.taken.contains(target) {
                let sidecar = sidecars::SidecarView {
                    source: entries[i as int].path,
                    target,
                    copy_only: true,
                };
                let next = sidecars::Gathered {
                    sidecars: so_far.sidecars.push(sidecar),
                    taken: so_far.taken.insert(target),
                };
                sidecars::lemma_extends_by_one(Precedence::OwnPath, so_far, sidecar, known);
                lemma_album_files_are_safe(entries, directory, known, next, i + 1);
                if let sidecars::Planned::Done(all) = album_files_from(
                    entries,
                    directory,
                    known,
                    next,
                    i + 1,
                ) {
                    sidecars::lemma_extends_twice(Precedence::OwnPath, so_far, next, all, known);
                }
            }
        }
    }
}

/// A plan overwrites nothing and takes nothing that an earlier plan took: the
/// file and what goes with it get paths that are their own or where no file
/// exists, and that were not taken before unless they are their own. Exactly the
/// paths of the plan are taken in addition.
pub proof fn law_add_plan_is_safe(
    server: Seq<path::PartView>,
    args: AddArgs,
    input: AddInputView,
    taken: Set<Seq<path::PartView>>,
    known: Map<Seq<path::PartView>, bool>,
)
    ensures
        add_step(server, args, input, taken, known) matches AddStepView::Planned(plan, after) ==> {
            &&& sidecars::is_safe_move(
                Precedence::OwnPath,
                plan.source,
                plan.target,
                taken,
                known,
            )
            &&& sidecars::extends(
                Precedence::OwnPath,
                sidecars::Gathered { sidecars: Seq::empty(), taken: taken.insert(plan.target) },
                sidecars::Gathered { sidecars: plan.sidecars, taken: after },
                known,
            )
        },
        add_step(server, args, input, taken, known) matches AddStepView::Ask(path)
            ==> !known.contains_key(path),
{
    let desired = desired_target(server, args, input);
    reserve::law_reserved_path_is_free(
        Precedence::OwnPath,
        desired,
        Some(input.source),
        taken,
        known,
        0,
    );
    if let reserve::ReservationView::Free(target) = reserve::reservation(
        Precedence::OwnPath,
        desired,
        Some(input.source),
        taken,
        known,
        0,
    ) {
        let start = sidecars::Gathered { sidecars: Seq::empty(), taken: taken.insert(target) };
        sidecars::law_gathered_paths_are_safe(
            Precedence::OwnPath,
            input.source,
            target,
            known,
            start,
            0,
        );
        sidecars::lemma_questions_are_new(
            Precedence::OwnPath,
            input.source,
            target,
            known,
            start,
            0,
        );
        if let sidecars::Planned::Done(gathered) = sidecars::gathered_from(
            Precedence::OwnPath,
            input.source,
            target,
            known,
            start,
            0,
        ) {
            if let Some(directory) = path::parent_of(target) {
                lemma_album_files_are_safe(input.entries, directory, known, gathered, 0);
                lemma_album_questions_are_new(input.entries, directory, known, gathered, 0);
                sidecars::lemma_extends_self(Precedence::OwnPath, gathered, known);
                if let sidecars::Planned::Done(all) = album_files(
                    input,
                    directory,
                    known,
                    gathered,
                ) {
                    sidecars::lemma_extends_twice(
                        Precedence::OwnPath,
                        start,
                        gathered,
                        all,
                        known,
                    );
                }
            }
        }
    }
}

proof fn lemma_album_questions_are_new(
    entries: Seq<sidecars::EntryView>,
    directory: Seq<path::PartView>,
    known: Map<Seq<path::PartView>, bool>,
    so_far: sidecars::Gathered,
    i: nat,
)
    ensures
        album_files_from(entries, directory, known, so_far, i) matches sidecars::Planned::Ask(path)
            ==> !known.contains_key(path),
    decreases entries.len() - i,
{
    if i < entries.len() {
        lemma_album_questions_are_new(entries, directory, known, so_far, i + 1);
        if let Some(name) = sidecars::album_sidecar_name(entries[i as int]) {
            let target = path::joined(directory, name);
            let next = sidecars::Gathered {
                sidecars: so_far.sidecars.push(
                    sidecars::SidecarView {
                        source: entries[i as int].path,
                        target,
                        copy_only: true,
                    },
                ),
                taken: so_far.taken.insert(target),
            };
            lemma_album_questions_are_new(entries, directory, known, next, i + 1);
        }
    }
}

/// Whether the outcome, with the paths taken after it, is as specified.
pub open spec fn steps(
    outcome: AddStep,
    taken: Set<Seq<path::PartView>>,
    step: AddStepView,
) -> bool {
    match outcome {
        AddStep::Planned(plan) => step == AddStepView::Planned(plan@, taken),
        AddStep::Ask(path) => step == AddStepView::Ask(path@),
        AddStep::Exhausted => step is Exhausted,
        AddStep::MissingParent => step is MissingParent,
    }
}

/// Takes a path for each file that goes with an album, where that is free, and
/// adds it to the files gathered so far.
fn gather_album_files(
    entries: &Vec<DirEntry>,
    directory: &FilePath,
    claims: &mut Claims,
    known: &KnownFiles,
    gathered: Vec<SidecarPlan>,
) -> (res: Gather)
    ensures
        sidecars::gathers(
            res,
            final(claims)@,
            album_files_from(
                sidecars::entry_views(entries@),
                directory@,
                known@,
                sidecars::Gathered {
                    sidecars: sidecars::sidecar_views(gathered@),
                    taken: old(claims)@,
                },
                0,
            ),
        ),
        final(claims).base() == old(claims).base(),
{
    let mut files = gathered;
    let ghost views = sidecars::entry_views(entries@);
    let ghost start = sidecars::Gathered {
        sidecars: sidecars::sidecar_views(gathered@),
        taken: claims@,
    };
    let count = entries.len();
    let mut i: usize = 0;
    while i < count
        invariant
            i <= count == entries.len(),
            views == sidecars::entry_views(entries@),
            claims.base() == old(claims).base(),
            start == (sidecars::Gathered {
                sidecars: sidecars::sidecar_views(gathered@),
                taken: old(claims)@,
            }),
            album_files_from(views, directory@, known@, start, 0) == album_files_from(
                views,
                directory@,
                known@,
                sidecars::Gathered {
                    sidecars: sidecars::sidecar_views(files@),
                    taken: claims@,
                },
                i as nat,
            ),
        decreases count - i,
    {
        let entry = &entries[i];
        assert(views[i as int] == entry@);
        if let Some(name) = album_sidecar(entry) {
            let target = directory.join(&name);
            match known.is_present(&target) {
                Some(present) => {
                    if !present && !claims.contains(&target) {
                        let ghost before = sidecars::sidecar_views(files@);
                        claims.insert(target.clone());
                        let file = SidecarPlan {
                            source: entry.path.clone(),
                            target,
                            copy_only: true,
                        };
                        files.push(file);
                        assert(sidecars::sidecar_views(files@) =~= before.push(file@));
                    }
                },
                None => {
                    return Gather::Ask(target);
                },
            }
        }
        i = i + 1;
    }
    Gather::Done(files)
}

/// Plans how a file is to be added, and takes the paths that the plan needs.
pub fn build_plan(
    input: &AddInput,
    server: &FilePath,
    reserved: &mut PathSet,
    args: &AddArgs,
    known: &KnownFiles,
) -> (res: AddStep)
    ensures
        steps(
            res,
            final(reserved)@,
            add_step(server@, *args, input@, old(reserved)@, known@),
        ),
        !(res is Planned) ==> final(reserved)@ == old(reserved)@,
{
    let artist: Option<&str> = match &args.unreleased_artist {
        Some(artist) => Some(artist.as_str()),
        None => None,
    };
    let canonical = canonicalize_for_add(input.metadata.clone(), args.unreleased, artist);
    let ending = ending_for(&input.source, args.encoding.is_some());
    let desired = canonical_destination(server, &canonical, &ending);

    let mut claims = Claims::over(reserved);
    let target = match reserve_unique(
        Precedence::OwnPath,
        &desired,
        &mut claims,
        Some(&input.source),
        known,
    ) {
        Reservation::Free(target) => target,
        Reservation::Ask(path) => {
            return AddStep::Ask(path);
        },
        Reservation::Exhausted => {
            return AddStep::Exhausted;
        },
    };
    let gathered = match gather_sidecars(
        Precedence::OwnPath,
        &input.source,
        &target,
        &mut claims,
        known,
    ) {
        Gather::Done(gathered) => gathered,
        Gather::Ask(path) => {
            return AddStep::Ask(path);
        },
        Gather::Exhausted => {
            return AddStep::Exhausted;
        },
    };
    let directory = match target.parent() {
        Some(directory) => directory,
        None => {
            return AddStep::MissingParent;
        },
    };
    let files = match input.source.parent() {
        Some(_) => match gather_album_files(
            &input.entries,
            &directory,
            &mut claims,
            known,
            gathered,
        ) {
            Gather::Done(files) => files,
            Gather::Ask(path) => {
                return AddStep::Ask(path);
            },
            Gather::Exhausted => {
                return AddStep::Exhausted;
            },
        },
        None => gathered,
    };
    let fresh = claims.into_fresh();
    reserved.absorb(fresh);
    let collision = !target.is_same(&desired);
    AddStep::Planned(
        AddPlan {
            source: input.source.clone(),
            target,
            sidecars: files,
            tag_updates: canonical.tag_updates,
            collision,
            bytes: input.bytes,
        },
    )
}

/// The plans for files to add, one after the other, and the paths taken after
/// them.
pub struct AddRun {
    pub plans: Seq<AddPlanView>,
    pub taken: Set<Seq<path::PartView>>,
}

/// The plans for files to add, each made with its own knowledge of which files
/// exist, if all of them can be made.
pub open spec fn add_run(
    server: Seq<path::PartView>,
    args: AddArgs,
    inputs: Seq<AddInputView>,
    known: Seq<Map<Seq<path::PartView>, bool>>,
) -> Option<AddRun>
    decreases inputs.len(),
{
    if inputs.len() == 0 {
        Some(AddRun { plans: Seq::empty(), taken: Set::empty() })
    } else {
        match add_run(server, args, inputs.drop_last(), known) {
            Some(run) => match add_step(
                server,
                args,
                inputs.last(),
                run.taken,
                known[inputs.len() - 1],
            ) {
                AddStepView::Planned(plan, taken) => Some(
                    AddRun { plans: run.plans.push(plan), taken },
                ),
                _ => None,
            },
            None => None,
        }
    }
}

/// Whether the files to add are different ones, none of which is taken to be
/// missing.
pub open spec fn are_present(
    inputs: Seq<AddInputView>,
    known: Seq<Map<Seq<path::PartView>, bool>>,
) -> bool {
    &&& forall|i: int, j: int|
        0 <= i < j < inputs.len() ==> (#[trigger] inputs[i]).source != (#[trigger] inputs[j]).source
    &&& forall|i: int, j: int|
        0 <= i < inputs.len() && 0 <= j < inputs.len() && (#[trigger] known[i]).contains_key(
            (#[trigger] inputs[j]).source,
        ) ==> known[i][inputs[j].source]
}

/// However many files are added, no two of them get the same path.
pub proof fn law_added_files_never_clash(
    server: Seq<path::PartView>,
    args: AddArgs,
    inputs: Seq<AddInputView>,
    known: Seq<Map<Seq<path::PartView>, bool>>,
)
    requires
        are_present(inputs, known),
    ensures
        add_run(server, args, inputs, known) matches Some(run) ==> {
            &&& run.plans.len() == inputs.len()
            &&& forall|i: int|
                0 <= i < run.plans.len() ==> run.taken.contains((#[trigger] run.plans[i]).target)
            &&& forall|i: int, j: int|
                0 <= i < j < run.plans.len() ==> (#[trigger] run.plans[i]).target != (
                #[trigger] run.plans[j]).target
        },
{
    lemma_added_files(server, args, inputs, known);
}

proof fn lemma_added_files(
    server: Seq<path::PartView>,
    args: AddArgs,
    inputs: Seq<AddInputView>,
    known: Seq<Map<Seq<path::PartView>, bool>>,
)
    requires
        are_present(inputs, known),
    ensures
        add_run(server, args, inputs, known) matches Some(run) ==> {
            &&& run.plans.len() == inputs.len()
            &&& forall|i: int|
                0 <= i < run.plans.len() ==> {
                    let plan = #[trigger] run.plans[i];
                    &&& run.taken.contains(plan.target)
                    &&& plan.target == inputs[i].source || (known[i].contains_key(plan.target)
                        && !known[i][plan.target])
                }
            &&& forall|i: int, j: int|
                0 <= i < j < run.plans.len() ==> (#[trigger] run.plans[i]).target != (
                #[trigger] run.plans[j]).target
        },
    decreases inputs.len(),
{
    if inputs.len() > 0 {
        let rest = inputs.drop_last();
        let last = inputs.len() - 1;
        assert(are_present(rest, known)) by {
            assert forall|i: int, j: int| 0 <= i < j < rest.len() implies (
            #[trigger] rest[i]).source != (#[trigger] rest[j]).source by {
                assert(inputs[i].source != inputs[j].source);
            }
            assert forall|i: int, j: int|
                0 <= i < rest.len() && 0 <= j < rest.len() && (#[trigger] known[i]).contains_key(
                    (#[trigger] rest[j]).source,
                ) implies known[i][rest[j].source] by {
                assert(inputs[j] == rest[j]);
            }
        }
        lemma_added_files(server, args, rest, known);
        if let Some(before) = add_run(server, args, rest, known) {
            law_add_plan_is_safe(server, args, inputs.last(), before.taken, known[last]);
            if let Some(run) = add_run(server, args, inputs, known) {
                assert forall|i: int| 0 <= i < last implies run.plans[i] == #[trigger] before.plans[i] by {}
                assert forall|i: int| 0 <= i < run.plans.len() implies {
                    let plan = #[trigger] run.plans[i];
                    &&& run.taken.contains(plan.target)
                    &&& plan.target == inputs[i].source || (known[i].contains_key(plan.target)
                        && !known[i][plan.target])
                } by {
                    if i < last {
                        assert(before.plans[i] == run.plans[i]);
                        assert(rest[i] == inputs[i]);
                    }
                }
                assert forall|i: int, j: int| 0 <= i < j < run.plans.len() implies (
                #[trigger] run.plans[i]).target != (#[trigger] run.plans[j]).target by {
                    assert(before.plans[i] == run.plans[i]);
                    if j < last {
                        assert(before.plans[j] == run.plans[j]);
                    } else {
                        assert(inputs[i].source != inputs[j].source);
                        assert(known[i].contains_key(inputs[j].source)
                            ==> known[i][inputs[j].source]);
                    }
                }
            }
        }
    }
}

/// A file that is already where it belongs stays there.
pub proof fn law_file_in_place_stays(
    server: Seq<path::PartView>,
    args: AddArgs,
    input: AddInputView,
    taken: Set<Seq<path::PartView>>,
    known: Map<Seq<path::PartView>, bool>,
)
    requires
        input.source == desired_target(server, args, input),
    ensures
        add_step(server, args, input, taken, known) matches AddStepView::Planned(plan, _)
            ==> plan.target == input.source && !plan.collision,
{
}

/// Unreleased tracks go to one place: the album `Unreleased` of the artist that is
/// named, or of `Ye`. Their tags are given the names by which they are filed, and
/// the artist as named.
pub proof fn law_unreleased_destination(
    root: Seq<path::PartView>,
    track: audio::TrackView,
    unreleased_artist: Option<Seq<char>>,
    ext: Seq<char>,
)
    requires
        !ext.contains('/'),
    ensures
        ({
            let artist = unreleased_by(unreleased_artist);
            let filed = added_track(track, true, unreleased_artist);
            let destination = audio::track_destination(root, filed, ext);
            let directory = text::normal_text(filed.albumartist, true);
            &&& filed.albumartist == text::artist_name(artist)
            &&& filed.album == "Unreleased"@
            &&& filed.tag_updates.albumartist == Some(filed.albumartist)
            &&& filed.tag_updates.artist == Some(artist)
            &&& filed.tag_updates.album == Some("Unreleased"@)
            &&& filed.tag_updates.title == Some(text::normal_text(track.title, false))
            &&& destination == root + seq![
                path::PartView::Name(vstd::utf8::encode_utf8(directory)),
                path::PartView::Name(vstd::utf8::encode_utf8("Unreleased"@)),
                destination.last(),
            ]
            &&& destination.last() is Name
            &&& unreleased_artist is None ==> filed.albumartist == "Ye"@ && directory == "Ye"@
        }),
{
    let artist = unreleased_by(unreleased_artist);
    let named = audio::TrackView { albumartist: artist, artist, album: "Unreleased"@, ..track };
    let filed = added_track(track, true, unreleased_artist);
    let none = Seq::<char>::empty();
    let first = text::normal_text(filed.albumartist, true);
    reveal_strlit("Ye");
    reveal_strlit("Unreleased");
    reveal_strlit("Unknown");
    text::lemma_word_is_normal("Ye"@, true);
    text::lemma_word_is_normal("Unreleased"@, true);
    text::lemma_word_is_normal("Unreleased"@, false);
    text::lemma_default_artist();
    assert("Unreleased"@[2] == 'r' && "Unknown"@[2] == 'k');
    assert(filed.album == "Unreleased"@);
    audio::lemma_safe_component(filed.albumartist, none);
    assert(first + none =~= first);
    path::law_join_plain_name(root, first);
    path::law_join_plain_name(path::joined(root, first), "Unreleased"@);
    let destination = audio::track_destination(root, filed, ext);
    let directory = path::joined(path::joined(root, first), "Unreleased"@);
    let file = audio::track_file_name(filed.track_prefix, filed.title, ext);
    assert(destination == path::joined(directory, file));
    audio::lemma_track_file_name(named, ext);
    path::law_join_plain_name(directory, file);
    assert(destination =~= root + seq![
        path::PartView::Name(vstd::utf8::encode_utf8(first)),
        path::PartView::Name(vstd::utf8::encode_utf8("Unreleased"@)),
        destination.last(),
    ]);
}

/// The contents of a list of plans.
pub open spec fn plan_views(plans: Seq<AddPlan>) -> Seq<AddPlanView> {
    plans.map_values(|plan: AddPlan| plan@)
}

/// How many files do not go where they belong.
pub open spec fn collision_count(plans: Seq<AddPlanView>) -> nat
    decreases plans.len(),
{
    if plans.len() == 0 {
        0
    } else {
        collision_count(plans.drop_last()) + if plans.last().collision {
            1nat
        } else {
            0nat
        }
    }
}

/// How many files do not go where they belong.
pub fn count_collisions(plans: &Vec<AddPlan>) -> (res: usize)
    ensures
        res == collision_count(plan_views(plans@)),
{
    let count = plans.len();
    let ghost views = plan_views(plans@);
    let mut found: usize = 0;
    for i in 0..count
        invariant
            count == plans.len(),
            views == plan_views(plans@),
            found <= i,
            found == collision_count(views.take(i as int)),
    {
        assert(views.take(i + 1).drop_last() == views.take(i as int));
        if plans[i].collision {
            found = found + 1;
        }
    }
    assert(views.take(count as int) == views);
    found
}

/// What is done with a file that goes with an added one.
pub open spec fn sidecar_action(sidecar: sidecars::SidecarView) -> actions::ActionView {
    if sidecar.copy_only {
        actions::ActionView::Copy { source: sidecar.source, target: sidecar.target }
    } else {
        actions::ActionView::Move { source: sidecar.source, target: sidecar.target }
    }
}

/// What is done with the file that a plan adds: it is transcoded into place, or
/// has its tags rewritten and is moved.
pub open spec fn track_actions(plan: AddPlanView, transcoded: bool) -> Seq<actions::ActionView> {
    if transcoded {
        seq![
            actions::ActionView::Import {
                source: plan.source,
                target: plan.target,
                updates: plan.tag_updates,
            },
        ]
    } else {
        seq![
            actions::ActionView::RewriteTags {
                path: plan.source,
                updates: plan.tag_updates,
                remove: Seq::empty(),
            },
            actions::ActionView::Move { source: plan.source, target: plan.target },
        ]
    }
}

/// What carrying out a plan does, in order. A dry run does nothing.
pub open spec fn plan_actions(plan: AddPlanView, args: AddArgs) -> Seq<actions::ActionView> {
    if args.apply {
        track_actions(plan, args.encoding is Some) + plan.sidecars.map_values(
            |sidecar: sidecars::SidecarView| sidecar_action(sidecar),
        )
    } else {
        Seq::empty()
    }
}

/// What carrying out a plan does, in order.
pub fn actions_of(plan: &AddPlan, args: &AddArgs) -> (res: Vec<Action>)
    ensures
        actions::action_views(res@) == plan_actions(plan@, *args),
{
    let mut res: Vec<Action> = Vec::new();
    assert(actions::action_views(res@) =~= Seq::empty());
    if !args.apply {
        return res;
    }
    let source = plan.source.clone();
    let target = plan.target.clone();
    let updates = plan.tag_updates.clone();
    if args.encoding.is_some() {
        push_action(&mut res, Action::Import { source, target, updates });
    } else {
        let path = plan.source.clone();
        let remove: Vec<String> = Vec::new();
        assert(strings::text_views(remove@) =~= Seq::empty());
        push_action(&mut res, Action::RewriteTags { path, updates, remove });
        push_action(&mut res, Action::Move { source, target });
    }
    let ghost first = track_actions(plan@, args.encoding is Some);
    assert(actions::action_views(res@) =~= first);
    let count = plan.sidecars.len();
    let ghost rest = plan@.sidecars.map_values(
        |sidecar: sidecars::SidecarView| sidecar_action(sidecar),
    );
    assert(first + rest.take(0) =~= first);
    for i in 0..count
        invariant
            count == plan.sidecars.len() == rest.len(),
            rest == plan@.sidecars.map_values(
                |sidecar: sidecars::SidecarView| sidecar_action(sidecar),
            ),
            actions::action_views(res@) == first + rest.take(i as int),
    {
        let sidecar = &plan.sidecars[i];
        assert(plan@.sidecars[i as int] == sidecar@);
        let source = sidecar.source.clone();
        let target = sidecar.target.clone();
        if sidecar.copy_only {
            push_action(&mut res, Action::Copy { source, target });
        } else {
            push_action(&mut res, Action::Move { source, target });
        }
        assert(first + rest.take(i + 1) =~= (first + rest.take(i as int)).push(rest[i as int]));
    }
    assert(rest.take(count as int) == rest);
    res
}

/// What is done with an added file, step by step. With an encoding, it is imported
/// from its source to its target with the planned values of its tags. Without, the
/// tags of the source are first given the planned values, none is removed, and the
/// source then moves to its target. The files that go with it are copied or moved
/// as planned, one by one, and nothing else is done. A dry run does nothing.
pub proof fn law_file_is_added_with_its_tags(plan: AddPlanView, args: AddArgs, m: int)
    ensures
        !args.apply ==> plan_actions(plan, args).len() == 0,
        args.apply ==> {
            let list = plan_actions(plan, args);
            let start: int = if args.encoding is Some {
                1
            } else {
                2
            };
            &&& list.len() == start + plan.sidecars.len()
            &&& args.encoding is Some ==> {
                &&& list[0] is Import
                &&& list[0]->Import_source == plan.source
                &&& list[0]->Import_target == plan.target
                &&& list[0]->Import_updates == plan.tag_updates
            }
            &&& args.encoding is None ==> {
                &&& list[0] is RewriteTags
                &&& list[0]->RewriteTags_path == plan.source
                &&& list[0]->RewriteTags_updates == plan.tag_updates
                &&& list[0]->remove.len() == 0
                &&& list[1] is Move
                &&& list[1]->Move_source == plan.source
                &&& list[1]->Move_target == plan.target
            }
            &&& 0 <= m < plan.sidecars.len() ==> match list[start + m] {
                actions::ActionView::Copy { source: from, target: to } => plan.sidecars[m].copy_only
                    && from == plan.sidecars[m].source && to == plan.sidecars[m].target,
                actions::ActionView::Move { source: from, target: to } => !plan.sidecars[m].copy_only
                    && from == plan.sidecars[m].source && to == plan.sidecars[m].target,
                _ => false,
            }
        },
{
}

/// The tags that are set when a file is added. Of an unreleased track: the album
/// artist, the artist, the album and the title. Of another: the album artist, where
/// it is not the one name of the artist. With an encoding the import sets them, and
/// without, the rewriting of the tags of the source, which comes before its move.
pub proof fn law_added_tags(
    server: Seq<path::PartView>,
    args: AddArgs,
    input: AddInputView,
    taken: Set<Seq<path::PartView>>,
    known: Map<Seq<path::PartView>, bool>,
)
    ensures
        add_step(server, args, input, taken, known) matches AddStepView::Planned(plan, _) ==> {
            let named = match args.unreleased_artist {
                Some(artist) => artist@,
                None => seq!['Y', 'e'],
            };
            let own = text::artist_name(input.metadata.albumartist);
            let list = plan_actions(plan, args);
            let updates = if args.encoding is Some {
                list[0]->Import_updates
            } else {
                list[0]->RewriteTags_updates
            };
            &&& args.apply && args.encoding is Some ==> list[0] is Import
            &&& args.apply && args.encoding is None ==> list[0] is RewriteTags && list[1] is Move
            &&& args.apply && args.unreleased ==> {
                &&& updates.albumartist == Some(text::artist_name(named))
                &&& updates.artist == Some(named)
                &&& updates.album == Some("Unreleased"@)
                &&& updates.title == Some(text::normal_text(input.metadata.title, false))
                &&& updates.genre is None
            }
            &&& args.apply && !args.unreleased ==> {
                &&& updates.albumartist == if text::normal_text(input.metadata.albumartist, false)
                    == own {
                    None
                } else {
                    Some(own)
                }
                &&& updates.artist is None && updates.album is None
                &&& updates.title is None && updates.genre is None
            }
        },
{
    if let AddStepView::Planned(plan, _) = add_step(server, args, input, taken, known) {
        law_file_is_added_with_its_tags(plan, args, 0);
        reveal_strlit("Ye");
        assert("Ye"@ =~= seq!['Y', 'e']);
        law_unreleased_destination(
            server,
            input.metadata,
            strings::text_opt(args.unreleased_artist),
            Seq::empty(),
        );
        audio::law_filed_names(input.metadata);
    }
}

/// The ending of an added file: that of a FLAC file when it is transcoded or its
/// source has no ending, and else the ending of the source in small letters.
pub proof fn law_added_ending(
    front: Seq<path::PartView>,
    stem: Seq<char>,
    extension: Seq<char>,
    source: Seq<path::PartView>,
)
    requires
        stem.len() > 0,
        !extension.contains('.'),
    ensures
        target_ending(source, true) == seq!['.', 'f', 'l', 'a', 'c'],
        path::extension_of(source) is None ==> target_ending(source, false) == seq![
            '.',
            'f',
            'l',
            'a',
            'c',
        ],
        target_ending(
            front.push(path::PartView::Name(vstd::utf8::encode_utf8(stem + seq!['.'] + extension))),
            false,
        ) == seq!['.'] + strings::lower_text(extension),
{
    path::law_spelled_name(front, stem, extension);
    reveal_strlit(".flac");
    reveal_strlit(".");
    assert(".flac"@ =~= seq!['.', 'f', 'l', 'a', 'c']);
    assert("."@ =~= seq!['.']);
}

/// The tags that say where an added file goes: its own; or those of an unreleased
/// track by the artist that is named, or `Ye`.
pub open spec fn telling_tags(args: AddArgs, input: AddInputView) -> audio::TrackView {
    let named = if args.unreleased_artist is Some {
        args.unreleased_artist.unwrap()@
    } else {
        seq!['Y', 'e']
    };
    if args.unreleased {
        audio::TrackView {
            albumartist: named,
            artist: named,
            album: "Unreleased"@,
            title: input.metadata.title,
            tracknumber: input.metadata.tracknumber,
        }
    } else {
        input.metadata
    }
}

/// A plan is made for the file that it is asked for. The file goes where its tags
/// say, or there under a number; an unreleased track goes where it would with the
/// artist that is named, or `Ye`, and the album `Unreleased`. It goes exactly there
/// if it is there already, or if no file is there and the path was not taken; and
/// there is a collision exactly if it does not.
pub proof fn law_plan_is_for_its_file(
    server: Seq<path::PartView>,
    args: AddArgs,
    input: AddInputView,
    taken: Set<Seq<path::PartView>>,
    known: Map<Seq<path::PartView>, bool>,
)
    requires
        args.encoding is Some || encoding::is_flac_path(input.source),
    ensures
        add_step(server, args, input, taken, known) matches AddStepView::Planned(plan, _) ==> {
            let own = audio::filed_path(server, telling_tags(args, input), ".flac"@);
            &&& plan.source == input.source
            &&& plan.bytes == input.bytes
            &&& exists|n: nat| plan.target == #[trigger] reserve::candidate(own, n)
            &&& own == input.source ==> plan.target == own
            &&& known.contains_key(own) && !known[own] && !taken.contains(own) ==> plan.target
                == own
            &&& own != input.source && known.contains_key(own) && known[own] ==> plan.target != own
            &&& plan.collision <==> plan.target != own
        },
{
    reveal_strlit(".flac");
    reveal_strlit("flac");
    reveal_strlit(".");
    reveal_strlit("Ye");
    assert("."@ + "flac"@ =~= ".flac"@);
    assert("Ye"@ =~= seq!['Y', 'e']);
    audio::law_filed_path(server, telling_tags(args, input), ".flac"@);
    let own = desired_target(server, args, input);
    assert(own == audio::filed_path(server, telling_tags(args, input), ".flac"@));
    reserve::law_free_target_is_given(Precedence::OwnPath, own, Some(input.source), taken, known);
    reserve::law_reserved_path_is_first(
        Precedence::OwnPath,
        own,
        Some(input.source),
        taken,
        known,
        0,
    );
    reserve::law_reserved_path_is_free(
        Precedence::OwnPath,
        own,
        Some(input.source),
        taken,
        known,
        0,
    );
    lemma_file_in_place(server, args, input, taken, known);
}

proof fn lemma_file_in_place(
    server: Seq<path::PartView>,
    args: AddArgs,
    input: AddInputView,
    taken: Set<Seq<path::PartView>>,
    known: Map<Seq<path::PartView>, bool>,
)
    ensures
        input.source == desired_target(server, args, input) ==> (add_step(
            server,
            args,
            input,
            taken,
            known,
        ) matches AddStepView::Planned(plan, _) ==> plan.target == input.source),
{
    if input.source == desired_target(server, args, input) {
        law_file_in_place_stays(server, args, input, taken, known);
    }
}

/// Whether a planned file is an entry of the directory of the added file that is
/// known to go with an album, and is copied under its own name into the directory
/// of the target.
pub open spec fn comes_along(
    sidecar: sidecars::SidecarView,
    entry: sidecars::EntryView,
    directory: Seq<path::PartView>,
) -> bool {
    match sidecars::album_sidecar_name(entry) {
        Some(name) => {
            &&& sidecar.source == entry.path
            &&& sidecar.copy_only
            &&& sidecar.target == directory.push(
                path::PartView::Name(vstd::utf8::encode_utf8(name)),
            )
        },
        None => false,
    }
}

/// What goes with an album is copied under its own name into the directory of the
/// target, if no file is there and the path was not taken, and nothing else is.
pub proof fn law_album_companions_come_along(
    entries: Seq<sidecars::EntryView>,
    directory: Seq<path::PartView>,
    known: Map<Seq<path::PartView>, bool>,
    so_far: sidecars::Gathered,
    i: nat,
)
    requires
        forall|e: int| 0 <= e < entries.len() ==> path::is_valid((#[trigger] entries[e]).path),
    ensures
        album_files_from(entries, directory, known, so_far, i) matches sidecars::Planned::Done(all)
            ==> {
            let start = so_far.sidecars.len();
            &&& start <= all.sidecars.len()
            &&& forall|k: int|
                0 <= k < start ==> all.sidecars[k] == #[trigger] so_far.sidecars[k]
            &&& forall|k: int|
                start <= k < all.sidecars.len() ==> exists|e: int|
                    i <= e < entries.len() && comes_along(
                        #[trigger] all.sidecars[k],
                        #[trigger] entries[e],
                        directory,
                    )
            &&& forall|e: int|
                i <= e < entries.len() ==> (sidecars::album_sidecar_name(#[trigger] entries[e])
                    matches Some(name) ==> {
                    let own = directory.push(path::PartView::Name(vstd::utf8::encode_utf8(name)));
                    known[own] || so_far.taken.contains(own) || exists|k: int|
                        start <= k < all.sidecars.len() && (#[trigger] all.sidecars[k]).target
                            == own
                })
        },
    decreases entries.len() - i,
{
    if i < entries.len() {
        let entry = entries[i as int];
        if let Some(name) = sidecars::album_sidecar_name(entry) {
            let own = directory.push(path::PartView::Name(vstd::utf8::encode_utf8(name)));
            let target = path::joined(directory, name);
            sidecars::lemma_album_name_is_plain(entry);
            path::law_join_plain_name(directory, name);
            assert(target == own);
            if known.contains_key(own) && (known[own] || so_far.taken.contains(own)) {
                law_album_companions_come_along(entries, directory, known, so_far, i + 1);
            } else if known.contains_key(own) {
                let sidecar = sidecars::SidecarView {
                    source: entry.path,
                    target: own,
                    copy_only: true,
                };
                let next = sidecars::Gathered {
                    sidecars: so_far.sidecars.push(sidecar),
                    taken: so_far.taken.insert(own),
                };
                law_album_companions_come_along(entries, directory, known, next, i + 1);
                if let sidecars::Planned::Done(all) = album_files_from(
                    entries,
                    directory,
                    known,
                    next,
                    i + 1,
                ) {
                    let start = so_far.sidecars.len() as int;
                    assert(next.sidecars[start] == sidecar);
                    assert(all.sidecars[start] == sidecar);
                    assert(comes_along(all.sidecars[start], entries[i as int], directory));
                    assert forall|k: int| 0 <= k < start implies all.sidecars[k]
                        == #[trigger] so_far.sidecars[k] by {
                        assert(next.sidecars[k] == so_far.sidecars[k]);
                    }
                }
            }
        } else {
            law_album_companions_come_along(entries, directory, known, so_far, i + 1);
        }
    }
}

/// Collisions are counted plan by plan.
pub proof fn law_collisions_are_counted(
    a: Seq<AddPlanView>,
    b: Seq<AddPlanView>,
    plan: AddPlanView,
)
    ensures
        collision_count(a + b) == collision_count(a) + collision_count(b),
        collision_count(seq![plan]) == if plan.collision {
            1nat
        } else {
            0
        },
    decreases b.len(),
{
    let one = seq![plan];
    assert(one.drop_last() =~= Seq::empty());
    assert(collision_count(one.drop_last()) == 0);
    assert(one.last() == plan);
    if b.len() == 0 {
        assert(a + b =~= a);
    } else {
        law_collisions_are_counted(a, b.drop_last(), plan);
        assert((a + b).drop_last() =~= a + b.drop_last());
        assert((a + b).last() == b.last());
    }
}

/// Only FLAC files are accepted, unless all audio files are asked for.
pub proof fn law_accepted_files(path: Seq<path::PartView>)
    ensures
        fsutil::is_picked(accepted(false), path) <==> encoding::is_flac_path(path),
        fsutil::is_picked(accepted(true), path) <==> encoding::is_audio_path(path),
{
}

/// Whether, behind the first `m` planned files, exactly the entries that go with an
/// album come along, as far as their paths are not taken.
pub open spec fn brings_album(
    plan: AddPlanView,
    entries: Seq<sidecars::EntryView>,
    taken: Set<Seq<path::PartView>>,
    known: Map<Seq<path::PartView>, bool>,
    m: int,
) -> bool {
    let directory = plan.target.drop_last();
    &&& forall|k: int|
        m <= k < plan.sidecars.len() ==> exists|e: int|
            0 <= e < entries.len() && comes_along(
                #[trigger] plan.sidecars[k],
                #[trigger] entries[e],
                directory,
            )
    &&& forall|e: int|
        0 <= e < entries.len() ==> (sidecars::album_sidecar_name(#[trigger] entries[e])
            matches Some(name) ==> {
            let own = directory.push(path::PartView::Name(vstd::utf8::encode_utf8(name)));
            known[own] || taken.contains(own) || own == plan.target || exists|k: int|
                0 <= k < plan.sidecars.len() && (#[trigger] plan.sidecars[k]).target == own
        })
}

/// With an added file go the files that exist beside it, and then what goes with its
/// album, and nothing else.
pub proof fn law_plan_brings_companions(
    server: Seq<path::PartView>,
    args: AddArgs,
    input: AddInputView,
    taken: Set<Seq<path::PartView>>,
    known: Map<Seq<path::PartView>, bool>,
)
    requires
        path::parent_of(input.source) is Some,
        forall|e: int|
            0 <= e < input.entries.len() ==> path::is_valid((#[trigger] input.entries[e]).path),
    ensures
        add_step(server, args, input, taken, known) matches AddStepView::Planned(plan, _)
            ==> exists|m: int|
            0 <= m <= plan.sidecars.len() && sidecars::brings_companions(
                input.source,
                plan.target,
                known,
                Seq::empty(),
                #[trigger] plan.sidecars.take(m),
                0,
            ) && brings_album(plan, input.entries, taken, known, m),
{
    if let AddStepView::Planned(plan, _) = add_step(server, args, input, taken, known) {
        let target = plan.target;
        let start = sidecars::Gathered { sidecars: Seq::empty(), taken: taken.insert(target) };
        sidecars::law_companions_follow(
            Precedence::OwnPath,
            input.source,
            target,
            known,
            start,
            0,
        );
        sidecars::law_gathered_paths_are_safe(
            Precedence::OwnPath,
            input.source,
            target,
            known,
            start,
            0,
        );
        if let sidecars::Planned::Done(gathered) = sidecars::gathered_from(
            Precedence::OwnPath,
            input.source,
            target,
            known,
            start,
            0,
        ) {
            let directory = path::parent_of(target).unwrap();
            let m = gathered.sidecars.len() as int;
            law_album_companions_come_along(input.entries, directory, known, gathered, 0);
            assert(directory == target.drop_last());
            assert(plan.sidecars.take(m) =~= gathered.sidecars);
            assert forall|e: int| 0 <= e < input.entries.len() implies (
            sidecars::album_sidecar_name(#[trigger] input.entries[e]) matches Some(name) ==> {
                let own = directory.push(path::PartView::Name(vstd::utf8::encode_utf8(name)));
                known[own] || taken.contains(own) || own == plan.target || exists|k: int|
                    0 <= k < plan.sidecars.len() && (#[trigger] plan.sidecars[k]).target == own
            }) by {
                if let Some(name) = sidecars::album_sidecar_name(input.entries[e]) {
                    let own = directory.push(path::PartView::Name(vstd::utf8::encode_utf8(name)));
                    if !known[own] && gathered.taken.contains(own) && !taken.contains(own) && own
                        != target {
                        let k = choose|k: int|
                            0 <= k < gathered.sidecars.len() && (
                            #[trigger] gathered.sidecars[k]).target == own;
                        assert(plan.sidecars[k] == gathered.sidecars[k]);
                    }
                }
            }
            assert(brings_album(plan, input.entries, taken, known, m));
        }
    }
}

/// The outcome of planning tells the plan and every path that is taken after it, the
/// file that is asked about, or why there is no plan.
pub proof fn law_outcome_is_exact(
    outcome: AddStep,
    taken: Set<Seq<path::PartView>>,
    step: AddStepView,
)
    requires
        steps(outcome, taken, step),
    ensures
        outcome matches AddStep::Planned(plan) ==> step == AddStepView::Planned(plan@, taken),
        outcome matches AddStep::Ask(file) ==> step == AddStepView::Ask(file@),
        outcome is Exhausted <==> step is Exhausted,
        outcome is MissingParent <==> step is MissingParent,
        outcome is Planned <==> step is Planned,
{
}

} // verus!
