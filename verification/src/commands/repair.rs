//! Repairing the library: files go where they belong, and lyrics go from tags
//! into files of their own.

use vstd::prelude::*;

use crate::actions;
use crate::actions::{push_action, Action};
use crate::audio;
use crate::audio::{canonical_destination, canonicalize, EmbeddedLyrics, TagUpdates, TrackMetadata};
use crate::known::KnownFiles;
use crate::path;
use crate::path::FilePath;
use crate::pathset::{Claims, PathSet};
use crate::reserve;
use crate::reserve::{reserve_unique, Precedence, Reservation};
use crate::sidecars;
use crate::sidecars::{gather_sidecars, track_sidecar, Gather, SidecarPlan};
use crate::strings::clone_texts;
use crate::text;

verus! {

/// A file of the library.
#[derive(Debug)]
pub struct RepairInput {
    pub source: FilePath,
    pub metadata: TrackMetadata,
    pub lyrics: EmbeddedLyrics,
    /// The length of the file.
    pub bytes: u64,
}

/// A file of the library, by its content.
pub struct RepairInputView {
    pub source: Seq<path::PartView>,
    pub metadata: audio::TrackView,
    pub lyrics: audio::LyricsView,
    pub bytes: u64,
}

impl View for RepairInput {
    type V = RepairInputView;

    open spec fn view(&self) -> RepairInputView {
        RepairInputView {
            source: self.source@,
            metadata: self.metadata@,
            lyrics: self.lyrics@,
            bytes: self.bytes,
        }
    }
}

/// How a file is to be repaired.
#[derive(Debug)]
pub struct RepairPlan {
    pub source: FilePath,
    pub target: FilePath,
    pub sidecars: Vec<SidecarPlan>,
    pub tag_updates: TagUpdates,
    pub lyrics: EmbeddedLyrics,
    /// The lyrics file, where there are lyrics, and where it goes.
    pub lyrics_sidecar: Option<(FilePath, FilePath)>,
    pub bytes: u64,
}

/// How a file is to be repaired, by its content.
pub struct RepairPlanView {
    pub source: Seq<path::PartView>,
    pub target: Seq<path::PartView>,
    pub sidecars: Seq<sidecars::SidecarView>,
    pub tag_updates: audio::UpdatesView,
    pub lyrics: audio::LyricsView,
    pub lyrics_sidecar: Option<(Seq<path::PartView>, Seq<path::PartView>)>,
    pub bytes: u64,
}

/// The content of an optional pair of paths.
pub open spec fn pair_opt(pair: Option<(FilePath, FilePath)>) -> Option<
    (Seq<path::PartView>, Seq<path::PartView>),
> {
    match pair {
        Some((source, target)) => Some((source@, target@)),
        None => None,
    }
}

impl View for RepairPlan {
    type V = RepairPlanView;

    open spec fn view(&self) -> RepairPlanView {
        RepairPlanView {
            source: self.source@,
            target: self.target@,
            sidecars: sidecars::sidecar_views(self.sidecars@),
            tag_updates: self.tag_updates@,
            lyrics: self.lyrics@,
            lyrics_sidecar: pair_opt(self.lyrics_sidecar),
            bytes: self.bytes,
        }
    }
}

/// The outcome of planning.
#[derive(Debug)]
pub enum RepairStep {
    Planned(RepairPlan),
    /// The plan cannot go on without knowing whether this file exists.
    Ask(FilePath),
    /// No path is free.
    Exhausted,
}

/// The outcome of planning, with the paths taken after it for tracks and for
/// the files that go with them.
pub enum RepairStepView {
    Planned(RepairPlanView, Set<Seq<path::PartView>>, Set<Seq<path::PartView>>),
    Ask(Seq<path::PartView>),
    Exhausted,
}

/// The first planned file that comes from `source`.
pub open spec fn planned_from(
    list: Seq<sidecars::SidecarView>,
    source: Seq<path::PartView>,
) -> Option<sidecars::SidecarView>
    decreases list.len(),
{
    if list.len() == 0 {
        None
    } else if list[0].source == source {
        Some(list[0])
    } else {
        planned_from(list.skip(1), source)
    }
}

/// Files gathered for a plan, and the lyrics file among them.
pub struct WithLyrics {
    pub gathered: sidecars::Gathered,
    pub lyrics: Option<(Seq<path::PartView>, Seq<path::PartView>)>,
}

/// The lyrics file of a track: one that exists already, or else a new one with a
/// path of its own.
pub open spec fn with_lyrics(
    source: Seq<path::PartView>,
    target: Seq<path::PartView>,
    content: Seq<char>,
    gathered: sidecars::Gathered,
    known: Map<Seq<path::PartView>, bool>,
) -> sidecars::Planned<WithLyrics> {
    let file = sidecars::sidecar_path(source, 0);
    if content.len() == 0 {
        sidecars::Planned::Done(WithLyrics { gathered, lyrics: None })
    } else {
        match planned_from(gathered.sidecars, file) {
            Some(sidecar) => sidecars::Planned::Done(
                WithLyrics { gathered, lyrics: Some((sidecar.source, sidecar.target)) },
            ),
            None => match reserve::reservation(
                Precedence::Reservation,
                sidecars::sidecar_path(target, 0),
                Some(file),
                gathered.taken,
                known,
                0,
            ) {
                reserve::ReservationView::Free(free) => sidecars::Planned::Done(
                    WithLyrics {
                        gathered: sidecars::Gathered {
                            sidecars: gathered.sidecars.push(
                                sidecars::SidecarView {
                                    source: file,
                                    target: free,
                                    copy_only: false,
                                },
                            ),
                            taken: gathered.taken.insert(free),
                        },
                        lyrics: Some((file, free)),
                    },
                ),
                reserve::ReservationView::Ask(path) => sidecars::Planned::Ask(path),
                reserve::ReservationView::Exhausted => sidecars::Planned::Exhausted,
            },
        }
    }
}

/// Where a file belongs in the library.
pub open spec fn desired_target(
    server: Seq<path::PartView>,
    input: RepairInputView,
) -> Seq<path::PartView> {
    audio::track_destination(server, audio::canonical_track(input.metadata), ".flac"@)
}

/// How a file is to be repaired, given the paths taken and what is known of
/// which files exist.
pub open spec fn repair_step(
    server: Seq<path::PartView>,
    input: RepairInputView,
    taken: Set<Seq<path::PartView>>,
    sidecar_taken: Set<Seq<path::PartView>>,
    known: Map<Seq<path::PartView>, bool>,
) -> RepairStepView {
    match reserve::reservation(
        Precedence::Reservation,
        desired_target(server, input),
        Some(input.source),
        taken,
        known,
        0,
    ) {
        reserve::ReservationView::Free(target) => {
            let start = sidecars::Gathered { sidecars: Seq::empty(), taken: sidecar_taken };
            match sidecars::gathered_from(
                Precedence::Reservation,
                input.source,
                target,
                known,
                start,
                0,
            ) {
                sidecars::Planned::Done(gathered) => match with_lyrics(
                    input.source,
                    target,
                    input.lyrics.content,
                    gathered,
                    known,
                ) {
                    sidecars::Planned::Done(all) => RepairStepView::Planned(
                        RepairPlanView {
                            source: input.source,
                            target,
                            sidecars: all.gathered.sidecars,
                            tag_updates: audio::canonical_track(input.metadata).tag_updates,
                            lyrics: input.lyrics,
                            lyrics_sidecar: all.lyrics,
                            bytes: input.bytes,
                        },
                        taken.insert(target),
                        all.gathered.taken,
                    ),
                    sidecars::Planned::Ask(path) => RepairStepView::Ask(path),
                    sidecars::Planned::Exhausted => RepairStepView::Exhausted,
                },
                sidecars::Planned::Ask(path) => RepairStepView::Ask(path),
                sidecars::Planned::Exhausted => RepairStepView::Exhausted,
            }
        },
        reserve::ReservationView::Ask(path) => RepairStepView::Ask(path),
        reserve::ReservationView::Exhausted => RepairStepView::Exhausted,
    }
}

/// Whether the outcome, with the paths taken after it, is as specified.
pub open spec fn steps(
    outcome: RepairStep,
    taken: Set<Seq<path::PartView>>,
    sidecar_taken: Set<Seq<path::PartView>>,
    step: RepairStepView,
) -> bool {
    match outcome {
        RepairStep::Planned(plan) => step == RepairStepView::Planned(plan@, taken, sidecar_taken),
        RepairStep::Ask(path) => step == RepairStepView::Ask(path@),
        RepairStep::Exhausted => step is Exhausted,
    }
}

fn find_planned(list: &Vec<SidecarPlan>, source: &FilePath) -> (res: Option<usize>)
    ensures
        match res {
            Some(i) => i < list.len() && planned_from(sidecars::sidecar_views(list@), source@)
                == Some(list@[i as int]@),
            None => planned_from(sidecars::sidecar_views(list@), source@) is None,
        },
{
    let count = list.len();
    let ghost views = sidecars::sidecar_views(list@);
    assert(views.skip(0) == views);
    for i in 0..count
        invariant
            count == list.len(),
            views == sidecars::sidecar_views(list@),
            planned_from(views, source@) == planned_from(views.skip(i as int), source@),
    {
        assert(views.skip(i as int)[0] == list@[i as int]@);
        assert(views.skip(i as int).skip(1) == views.skip(i + 1));
        if list[i].source.is_same(source) {
            return Some(i);
        }
    }
    None
}

/// Plans how a file is to be repaired, and takes the paths that the plan needs.
pub fn build_plan(
    input: &RepairInput,
    server: &FilePath,
    reserved: &mut PathSet,
    sidecar_reserved: &mut PathSet,
    known: &KnownFiles,
) -> (res: RepairStep)
    ensures
        steps(
            res,
            final(reserved)@,
            final(sidecar_reserved)@,
            repair_step(server@, input@, old(reserved)@, old(sidecar_reserved)@, known@),
        ),
        !(res is Planned) ==> final(reserved)@ == old(reserved)@ && final(sidecar_reserved)@
            == old(sidecar_reserved)@,
{
    let canonical = canonicalize(&input.metadata);
    let desired = canonical_destination(server, &canonical, ".flac");
    let mut claims = Claims::over(reserved);
    let target = match reserve_unique(
        Precedence::Reservation,
        &desired,
        &mut claims,
        Some(&input.source),
        known,
    ) {
        Reservation::Free(target) => target,
        Reservation::Ask(path) => {
            return RepairStep::Ask(path);
        },
        Reservation::Exhausted => {
            return RepairStep::Exhausted;
        },
    };

    let mut sidecar_claims = Claims::over(sidecar_reserved);
    let mut files = match gather_sidecars(
        Precedence::Reservation,
        &input.source,
        &target,
        &mut sidecar_claims,
        known,
    ) {
        Gather::Done(files) => files,
        Gather::Ask(path) => {
            return RepairStep::Ask(path);
        },
        Gather::Exhausted => {
            return RepairStep::Exhausted;
        },
    };

    let lyrics_sidecar = if input.lyrics.content.as_str().is_empty() {
        None
    } else {
        let file = track_sidecar(&input.source, 0);
        match find_planned(&files, &file) {
            Some(i) => Some((files[i].source.clone(), files[i].target.clone())),
            None => {
                let desired_file = track_sidecar(&target, 0);
                match reserve_unique(
                    Precedence::Reservation,
                    &desired_file,
                    &mut sidecar_claims,
                    Some(&file),
                    known,
                ) {
                    Reservation::Free(free) => {
                        let ghost before = sidecars::sidecar_views(files@);
                        let sidecar = SidecarPlan {
                            source: file.clone(),
                            target: free.clone(),
                            copy_only: false,
                        };
                        files.push(sidecar);
                        assert(sidecars::sidecar_views(files@) =~= before.push(sidecar@));
                        Some((file, free))
                    },
                    Reservation::Ask(path) => {
                        return RepairStep::Ask(path);
                    },
                    Reservation::Exhausted => {
                        return RepairStep::Exhausted;
                    },
                }
            },
        }
    };

    let fresh = claims.into_fresh();
    reserved.absorb(fresh);
    let sidecar_fresh = sidecar_claims.into_fresh();
    sidecar_reserved.absorb(sidecar_fresh);
    RepairStep::Planned(
        RepairPlan {
            source: input.source.clone(),
            target,
            sidecars: files,
            tag_updates: canonical.tag_updates,
            lyrics: input.lyrics.clone(),
            lyrics_sidecar,
            bytes: input.bytes,
        },
    )
}

proof fn lemma_planned_from(list: Seq<sidecars::SidecarView>, source: Seq<path::PartView>)
    ensures
        planned_from(list, source) matches Some(found) ==> found.source == source && list.contains(
            found,
        ),
    decreases list.len(),
{
    if list.len() > 0 {
        if list[0].source == source {
            assert(list.contains(list[0]));
        } else {
            lemma_planned_from(list.skip(1), source);
            if let Some(found) = planned_from(list.skip(1), source) {
                let i = choose|i: int| 0 <= i < list.skip(1).len() && list.skip(1)[i] == found;
                assert(list[i + 1] == found);
            }
        }
    }
}

/// A plan overwrites nothing and takes nothing that an earlier plan took: the
/// file and what goes with it get paths that are their own or where no file
/// exists, and that were not taken before. Exactly the paths of the plan are
/// taken in addition. There is a lyrics file exactly where there are lyrics, it
/// stands beside the file, and it is one of the files that go with it.
pub proof fn law_repair_plan_is_safe(
    server: Seq<path::PartView>,
    input: RepairInputView,
    taken: Set<Seq<path::PartView>>,
    sidecar_taken: Set<Seq<path::PartView>>,
    known: Map<Seq<path::PartView>, bool>,
)
    ensures
        repair_step(server, input, taken, sidecar_taken, known) matches RepairStepView::Planned(
            plan,
            after,
            sidecar_after,
        ) ==> {
            &&& plan.source == input.source
            &&& plan.lyrics == input.lyrics
            &&& sidecars::is_safe_move(
                Precedence::Reservation,
                plan.source,
                plan.target,
                taken,
                known,
            )
            &&& after == taken.insert(plan.target)
            &&& sidecars::extends(
                Precedence::Reservation,
                sidecars::Gathered { sidecars: Seq::empty(), taken: sidecar_taken },
                sidecars::Gathered { sidecars: plan.sidecars, taken: sidecar_after },
                known,
            )
            &&& plan.lyrics_sidecar is Some <==> plan.lyrics.content.len() > 0
            &&& plan.lyrics_sidecar matches Some((source, target)) ==> {
                &&& source == sidecars::sidecar_path(plan.source, 0)
                &&& exists|i: int|
                    0 <= i < plan.sidecars.len() && (#[trigger] plan.sidecars[i]).source == source
                        && plan.sidecars[i].target == target
            }
        },
        repair_step(server, input, taken, sidecar_taken, known) matches RepairStepView::Ask(path)
            ==> !known.contains_key(path),
{
    let desired = desired_target(server, input);
    reserve::law_reserved_path_is_free(
        Precedence::Reservation,
        desired,
        Some(input.source),
        taken,
        known,
        0,
    );
    if let reserve::ReservationView::Free(target) = reserve::reservation(
        Precedence::Reservation,
        desired,
        Some(input.source),
        taken,
        known,
        0,
    ) {
        let start = sidecars::Gathered { sidecars: Seq::empty(), taken: sidecar_taken };
        sidecars::law_gathered_paths_are_safe(
            Precedence::Reservation,
            input.source,
            target,
            known,
            start,
            0,
        );
        sidecars::lemma_questions_are_new(
            Precedence::Reservation,
            input.source,
            target,
            known,
            start,
            0,
        );
        if let sidecars::Planned::Done(gathered) = sidecars::gathered_from(
            Precedence::Reservation,
            input.source,
            target,
            known,
            start,
            0,
        ) {
            let file = sidecars::sidecar_path(input.source, 0);
            let desired_file = sidecars::sidecar_path(target, 0);
            lemma_planned_from(gathered.sidecars, file);
            reserve::law_reserved_path_is_free(
                Precedence::Reservation,
                desired_file,
                Some(file),
                gathered.taken,
                known,
                0,
            );
            if let Some(found) = planned_from(gathered.sidecars, file) {
                let i = choose|i: int|
                    0 <= i < gathered.sidecars.len() && gathered.sidecars[i] == found;
                assert(gathered.sidecars[i].source == file);
            } else if let reserve::ReservationView::Free(free) = reserve::reservation(
                Precedence::Reservation,
                desired_file,
                Some(file),
                gathered.taken,
                known,
                0,
            ) {
                let sidecar = sidecars::SidecarView {
                    source: file,
                    target: free,
                    copy_only: false,
                };
                let all = sidecars::Gathered {
                    sidecars: gathered.sidecars.push(sidecar),
                    taken: gathered.taken.insert(free),
                };
                sidecars::lemma_extends_by_one(Precedence::Reservation, gathered, sidecar, known);
                sidecars::lemma_extends_twice(
                    Precedence::Reservation,
                    start,
                    gathered,
                    all,
                    known,
                );
                assert(all.sidecars[gathered.sidecars.len() as int] == sidecar);
            }
        }
    }
}

/// The plans for files of the library, one after the other, and the paths taken
/// after them.
pub struct RepairRun {
    pub plans: Seq<RepairPlanView>,
    pub taken: Set<Seq<path::PartView>>,
    pub sidecar_taken: Set<Seq<path::PartView>>,
}

/// The plans for files of the library, each made with its own knowledge of which
/// files exist, if all of them can be made.
pub open spec fn repair_run(
    server: Seq<path::PartView>,
    inputs: Seq<RepairInputView>,
    known: Seq<Map<Seq<path::PartView>, bool>>,
) -> Option<RepairRun>
    decreases inputs.len(),
{
    if inputs.len() == 0 {
        Some(
            RepairRun { plans: Seq::empty(), taken: Set::empty(), sidecar_taken: Set::empty() },
        )
    } else {
        match repair_run(server, inputs.drop_last(), known) {
            Some(run) => match repair_step(
                server,
                inputs.last(),
                run.taken,
                run.sidecar_taken,
                known[inputs.len() - 1],
            ) {
                RepairStepView::Planned(plan, taken, sidecar_taken) => Some(
                    RepairRun { plans: run.plans.push(plan), taken, sidecar_taken },
                ),
                _ => None,
            },
            None => None,
        }
    }
}

/// Whatever is repaired, no two files get the same path, and no two of the files
/// that go with them do.
pub proof fn law_repair_paths_never_clash(
    server: Seq<path::PartView>,
    inputs: Seq<RepairInputView>,
    known: Seq<Map<Seq<path::PartView>, bool>>,
)
    ensures
        repair_run(server, inputs, known) matches Some(run) ==> {
            &&& run.plans.len() == inputs.len()
            &&& forall|i: int|
                0 <= i < run.plans.len() ==> run.taken.contains((#[trigger] run.plans[i]).target)
            &&& forall|i: int, j: int|
                0 <= i < j < run.plans.len() ==> (#[trigger] run.plans[i]).target != (
                #[trigger] run.plans[j]).target
            &&& forall|i: int, m: int|
                0 <= i < run.plans.len() && 0 <= m < run.plans[i].sidecars.len()
                    ==> run.sidecar_taken.contains((#[trigger] run.plans[i].sidecars[m]).target)
            &&& forall|i: int, j: int, m: int, n: int|
                0 <= i <= j < run.plans.len() && 0 <= m < run.plans[i].sidecars.len() && 0 <= n
                    < run.plans[j].sidecars.len() && (i < j || m < n) ==> (
                #[trigger] run.plans[i].sidecars[m]).target != (
                #[trigger] run.plans[j].sidecars[n]).target
        },
    decreases inputs.len(),
{
    if inputs.len() > 0 {
        law_repair_paths_never_clash(server, inputs.drop_last(), known);
        if let Some(before) = repair_run(server, inputs.drop_last(), known) {
            let last = inputs.len() - 1;
            law_repair_plan_is_safe(
                server,
                inputs.last(),
                before.taken,
                before.sidecar_taken,
                known[last],
            );
            if let Some(run) = repair_run(server, inputs, known) {
                let plan = run.plans[last];
                assert forall|i: int| 0 <= i < last implies run.plans[i] == #[trigger] before.plans[i] by {}
                assert forall|i: int, j: int, m: int, n: int|
                    0 <= i <= j < run.plans.len() && 0 <= m < run.plans[i].sidecars.len() && 0 <= n
                        < run.plans[j].sidecars.len() && (i < j || m < n) implies (
                #[trigger] run.plans[i].sidecars[m]).target != (
                #[trigger] run.plans[j].sidecars[n]).target by {
                    if j < last {
                        assert(before.plans[i].sidecars[m].target
                            != before.plans[j].sidecars[n].target);
                    } else if i < last {
                        assert(before.sidecar_taken.contains(before.plans[i].sidecars[m].target));
                        assert(plan.sidecars[n] == run.plans[j].sidecars[n]);
                    } else {
                        assert(plan.sidecars[m] == run.plans[i].sidecars[m]);
                        assert(plan.sidecars[n] == run.plans[j].sidecars[n]);
                    }
                }
                assert forall|i: int, m: int|
                    0 <= i < run.plans.len() && 0 <= m
                        < run.plans[i].sidecars.len() implies run.sidecar_taken.contains(
                    (#[trigger] run.plans[i].sidecars[m]).target,
                ) by {
                    if i < last {
                        assert(before.sidecar_taken.contains(before.plans[i].sidecars[m].target));
                    } else {
                        assert(plan.sidecars[m] == run.plans[i].sidecars[m]);
                    }
                }
            }
        }
    }
}

/// A file that is where it belongs, and whose path no other file has taken, stays
/// there.
pub proof fn law_file_in_place_stays(
    server: Seq<path::PartView>,
    input: RepairInputView,
    taken: Set<Seq<path::PartView>>,
    sidecar_taken: Set<Seq<path::PartView>>,
    known: Map<Seq<path::PartView>, bool>,
)
    requires
        input.source == desired_target(server, input),
        !taken.contains(input.source),
    ensures
        repair_step(server, input, taken, sidecar_taken, known) matches RepairStepView::Planned(
            plan,
            _,
            _,
        ) ==> plan.target == input.source,
{
}

/// The files that go with a repaired one and change their place, in order.
pub open spec fn sidecar_moves(list: Seq<sidecars::SidecarView>) -> Seq<actions::ActionView>
    decreases list.len(),
{
    if list.len() == 0 {
        Seq::empty()
    } else {
        let before = sidecar_moves(list.drop_last());
        let sidecar = list.last();
        if sidecar.source != sidecar.target {
            before.push(
                actions::ActionView::MoveIfPresent {
                    source: sidecar.source,
                    target: sidecar.target,
                },
            )
        } else {
            before
        }
    }
}

/// What is done to the file that a plan repairs: its lyrics are written to a
/// file, then its tags are rewritten and the lyrics removed from them, then it is
/// moved.
pub open spec fn track_actions(plan: RepairPlanView) -> Seq<actions::ActionView> {
    let write = match plan.lyrics_sidecar {
        Some((source, _)) => seq![
            actions::ActionView::WriteLyrics { path: source, content: plan.lyrics.content },
        ],
        None => Seq::empty(),
    };
    let rewrite = seq![
        actions::ActionView::RewriteTags {
            path: plan.source,
            updates: plan.tag_updates,
            remove: plan.lyrics.tag_keys,
        },
    ];
    let relocate = if plan.source != plan.target {
        seq![actions::ActionView::Move { source: plan.source, target: plan.target }]
    } else {
        Seq::empty()
    };
    write + rewrite + relocate
}

/// What carrying out a plan does, in order. A dry run does nothing.
pub open spec fn plan_actions(plan: RepairPlanView, apply: bool) -> Seq<actions::ActionView> {
    if apply {
        track_actions(plan) + sidecar_moves(plan.sidecars)
    } else {
        Seq::empty()
    }
}

/// What carrying out a plan does, in order.
pub fn actions_of(plan: &RepairPlan, apply: bool) -> (res: Vec<Action>)
    ensures
        actions::action_views(res@) == plan_actions(plan@, apply),
{
    let mut res: Vec<Action> = Vec::new();
    assert(actions::action_views(res@) =~= Seq::empty());
    if !apply {
        return res;
    }
    if let Some((source, _)) = &plan.lyrics_sidecar {
        let path = source.clone();
        let content = plan.lyrics.content.clone();
        push_action(&mut res, Action::WriteLyrics { path, content });
    }
    let path = plan.source.clone();
    let updates = plan.tag_updates.clone();
    let remove = clone_texts(&plan.lyrics.tag_keys);
    push_action(&mut res, Action::RewriteTags { path, updates, remove });
    if !plan.source.is_same(&plan.target) {
        let source = plan.source.clone();
        let target = plan.target.clone();
        push_action(&mut res, Action::Move { source, target });
    }
    let ghost first = track_actions(plan@);
    assert(actions::action_views(res@) =~= first);
    let count = plan.sidecars.len();
    let ghost views = plan@.sidecars;
    assert(first + sidecar_moves(views.take(0)) =~= first);
    for i in 0..count
        invariant
            count == plan.sidecars.len() == views.len(),
            views == plan@.sidecars,
            actions::action_views(res@) == first + sidecar_moves(views.take(i as int)),
    {
        let sidecar = &plan.sidecars[i];
        assert(views[i as int] == sidecar@);
        assert(views.take(i + 1).drop_last() == views.take(i as int));
        if !sidecar.source.is_same(&sidecar.target) {
            let source = sidecar.source.clone();
            let target = sidecar.target.clone();
            push_action(&mut res, Action::MoveIfPresent { source, target });
        }
        assert(actions::action_views(res@) =~= first + sidecar_moves(views.take(i + 1)));
    }
    assert(views.take(count as int) == views);
    res
}

/// What is done once all plans have been carried out.
pub fn closing_actions(server: &FilePath, apply: bool) -> (res: Vec<Action>)
    ensures
        actions::action_views(res@) == if apply {
            seq![actions::ActionView::RemoveEmptyDirectories { root: server@ }]
        } else {
            Seq::empty()
        },
{
    let mut res: Vec<Action> = Vec::new();
    assert(actions::action_views(res@) =~= Seq::empty());
    if apply {
        push_action(&mut res, Action::RemoveEmptyDirectories { root: server.clone() });
    }
    res
}

/// Lyrics are written to their file before they are removed from the tags.
pub proof fn law_lyrics_are_saved_first(
    server: Seq<path::PartView>,
    input: RepairInputView,
    taken: Set<Seq<path::PartView>>,
    sidecar_taken: Set<Seq<path::PartView>>,
    known: Map<Seq<path::PartView>, bool>,
    i: int,
)
    requires
        repair_step(server, input, taken, sidecar_taken, known) is Planned,
        input.lyrics.content.len() > 0,
    ensures
        ({
            let plan = repair_step(server, input, taken, sidecar_taken, known)->Planned_0;
            let list = plan_actions(plan, true);
            0 <= i < list.len() && list[i] is RewriteTags ==> i > 0 && list[0]
                == actions::ActionView::WriteLyrics {
                path: sidecars::sidecar_path(input.source, 0),
                content: input.lyrics.content,
            }
        }),
{
    law_repair_plan_is_safe(server, input, taken, sidecar_taken, known);
}

/// How many files change in which way.
#[derive(Debug, Clone, Copy, PartialEq, Eq)]
pub struct RepairCounts {
    pub moves: usize,
    pub tags: usize,
    pub lyrics: usize,
}

/// How many plans have a property.
pub open spec fn count_where(
    plans: Seq<RepairPlanView>,
    property: spec_fn(RepairPlanView) -> bool,
) -> nat
    decreases plans.len(),
{
    if plans.len() == 0 {
        0
    } else {
        count_where(plans.drop_last(), property) + if property(plans.last()) {
            1nat
        } else {
            0nat
        }
    }
}

/// The contents of a list of plans.
pub open spec fn plan_views(plans: Seq<RepairPlan>) -> Seq<RepairPlanView> {
    plans.map_values(|plan: RepairPlan| plan@)
}

/// Whether a plan moves its file.
pub open spec fn moves(plan: RepairPlanView) -> bool {
    plan.source != plan.target
}

/// Whether a plan gives tags new values.
pub open spec fn retags(plan: RepairPlanView) -> bool {
    plan.tag_updates != audio::no_updates()
}

/// Whether a plan removes lyrics from tags.
pub open spec fn has_lyrics(plan: RepairPlanView) -> bool {
    plan.lyrics.tag_keys.len() > 0
}

/// How many files change in which way.
pub fn count_changes(plans: &Vec<RepairPlan>) -> (res: RepairCounts)
    ensures
        res.moves == count_where(plan_views(plans@), |plan: RepairPlanView| moves(plan)),
        res.tags == count_where(plan_views(plans@), |plan: RepairPlanView| retags(plan)),
        res.lyrics == count_where(plan_views(plans@), |plan: RepairPlanView| has_lyrics(plan)),
{
    let count = plans.len();
    let ghost views = plan_views(plans@);
    let ghost moving = |plan: RepairPlanView| moves(plan);
    let ghost tagging = |plan: RepairPlanView| retags(plan);
    let ghost singing = |plan: RepairPlanView| has_lyrics(plan);
    let mut res = RepairCounts { moves: 0, tags: 0, lyrics: 0 };
    for i in 0..count
        invariant
            count == plans.len(),
            views == plan_views(plans@),
            moving == |plan: RepairPlanView| moves(plan),
            tagging == |plan: RepairPlanView| retags(plan),
            singing == |plan: RepairPlanView| has_lyrics(plan),
            res.moves <= i,
            res.tags <= i,
            res.lyrics <= i,
            res.moves == count_where(views.take(i as int), moving),
            res.tags == count_where(views.take(i as int), tagging),
            res.lyrics == count_where(views.take(i as int), singing),
    {
        let plan = &plans[i];
        assert(views.take(i + 1).drop_last() == views.take(i as int));
        assert(views.take(i + 1).last() == plan@);
        if !plan.source.is_same(&plan.target) {
            res.moves = res.moves + 1;
        }
        if !plan.tag_updates.is_empty() {
            res.tags = res.tags + 1;
        }
        if plan.lyrics.has_tags() {
            res.lyrics = res.lyrics + 1;
        }
    }
    assert(views.take(count as int) == views);
    res
}

/// What a dry run says of a plan's lyrics.
#[derive(Debug)]
pub enum LyricsReport {
    Nothing,
    /// The lyrics go to a file.
    Separated(FilePath),
    /// The tags hold no lyrics but line breaks, and are removed.
    Emptied,
}

/// What a dry run says of a plan's lyrics.
pub fn lyrics_report(plan: &RepairPlan) -> (res: LyricsReport)
    ensures
        match plan@.lyrics_sidecar {
            Some((_, target)) => res matches LyricsReport::Separated(path) && path@ == target,
            None => if plan@.lyrics.tag_keys.len() > 0 {
                res is Emptied
            } else {
                res is Nothing
            },
        },
{
    match &plan.lyrics_sidecar {
        Some((_, target)) => LyricsReport::Separated(target.clone()),
        None => if plan.lyrics.has_tags() {
            LyricsReport::Emptied
        } else {
            LyricsReport::Nothing
        },
    }
}

proof fn lemma_sidecar_moves(list: Seq<sidecars::SidecarView>)
    ensures
        forall|k: int|
            0 <= k < sidecar_moves(list).len() ==> exists|m: int|
                0 <= m < list.len() && list[m].source != list[m].target && carries(
                    #[trigger] sidecar_moves(list)[k],
                    #[trigger] list[m],
                ),
        forall|m: int|
            0 <= m < list.len() && list[m].source != list[m].target ==> exists|k: int|
                0 <= k < sidecar_moves(list).len() && carries(
                    #[trigger] sidecar_moves(list)[k],
                    #[trigger] list[m],
                ),
    decreases list.len(),
{
    if list.len() > 0 {
        let rest = list.drop_last();
        let before = sidecar_moves(rest);
        let all = sidecar_moves(list);
        let last = list.len() - 1;
        lemma_sidecar_moves(rest);
        assert forall|k: int| 0 <= k < all.len() implies exists|m: int|
            0 <= m < list.len() && list[m].source != list[m].target && carries(
                #[trigger] all[k],
                #[trigger] list[m],
            ) by {
            if k < before.len() {
                assert(all[k] == before[k]);
                let m = choose|m: int|
                    0 <= m < rest.len() && rest[m].source != rest[m].target && #[trigger] carries(
                        before[k],
                        rest[m],
                    );
                assert(carries(all[k], list[m]));
            } else {
                assert(carries(all[k], list[last]));
            }
        }
        assert forall|m: int| 0 <= m < list.len() && list[m].source != list[m].target implies exists|
            k: int,
        |
            0 <= k < all.len() && carries(#[trigger] all[k], #[trigger] list[m]) by {
            if m < last {
                assert(rest[m] == list[m]);
                let k = choose|k: int|
                    0 <= k < before.len() && carries(#[trigger] before[k], rest[m]);
                assert(all[k] == before[k]);
                assert(carries(all[k], list[m]));
            } else {
                assert(carries(all[before.len() as int], list[m]));
            }
        }
    }
}

/// Whether an action takes a file from where it is planned to come from to where
/// it is planned to go.
pub open spec fn carries(action: actions::ActionView, sidecar: sidecars::SidecarView) -> bool {
    match action {
        actions::ActionView::MoveIfPresent { source: from, target: to } => from == sidecar.source
            && to == sidecar.target,
        _ => false,
    }
}

/// Every file that goes with a repaired one and changes its place is moved from its
/// planned source to its planned target, and no other file is moved if present.
pub proof fn law_companions_move_as_planned(plan: RepairPlanView)
    ensures
        ({
            let list = plan_actions(plan, true);
            &&& forall|m: int|
                0 <= m < plan.sidecars.len() && plan.sidecars[m].source != plan.sidecars[m].target
                    ==> exists|k: int|
                    0 <= k < list.len() && carries(
                        #[trigger] list[k],
                        #[trigger] plan.sidecars[m],
                    )
            &&& forall|k: int|
                0 <= k < list.len() && list[k] is MoveIfPresent ==> exists|m: int|
                    0 <= m < plan.sidecars.len() && plan.sidecars[m].source
                        != plan.sidecars[m].target && carries(
                        #[trigger] list[k],
                        #[trigger] plan.sidecars[m],
                    )
        }),
{
    let list = plan_actions(plan, true);
    let first = track_actions(plan);
    let rest = sidecar_moves(plan.sidecars);
    lemma_sidecar_moves(plan.sidecars);
    assert forall|m: int|
        0 <= m < plan.sidecars.len() && plan.sidecars[m].source
            != plan.sidecars[m].target implies exists|k: int|
        0 <= k < list.len() && carries(#[trigger] list[k], #[trigger] plan.sidecars[m]) by {
        let k = choose|k: int|
            0 <= k < rest.len() && carries(#[trigger] rest[k], plan.sidecars[m]);
        assert(list[first.len() + k] == rest[k]);
        assert(carries(list[first.len() + k], plan.sidecars[m]));
    }
    assert forall|k: int| 0 <= k < list.len() && list[k] is MoveIfPresent implies exists|m: int|
        0 <= m < plan.sidecars.len() && plan.sidecars[m].source != plan.sidecars[m].target
            && carries(#[trigger] list[k], #[trigger] plan.sidecars[m]) by {
        if k < first.len() {
            assert(list[k] == first[k]);
        } else {
            assert(list[k] == rest[k - first.len()]);
            let m = choose|m: int|
                0 <= m < plan.sidecars.len() && plan.sidecars[m].source
                    != plan.sidecars[m].target && #[trigger] carries(
                    rest[k - first.len()],
                    plan.sidecars[m],
                );
            assert(carries(list[k], plan.sidecars[m]));
        }
    }
}

/// What is done to a repaired file, step by step: lyrics are written where the plan
/// says, the tags of the file are rewritten as planned without the lyrics, the file
/// is moved from its source to its target unless they are the same; and then only
/// the files that go with it move. A dry run does nothing.
pub proof fn law_file_is_repaired_in_order(plan: RepairPlanView, k: int)
    ensures
        plan_actions(plan, false).len() == 0,
        ({
            let list = plan_actions(plan, true);
            let written: int = if plan.lyrics_sidecar is Some {
                1
            } else {
                0
            };
            let moved: int = if plan.target == plan.source {
                0
            } else {
                1
            };
            &&& list.len() >= written + 1 + moved
            &&& written == 1 ==> {
                &&& list[0] is WriteLyrics
                &&& list[0]->WriteLyrics_path == plan.lyrics_sidecar.unwrap().0
                &&& list[0]->WriteLyrics_content == plan.lyrics.content
            }
            &&& list[written] is RewriteTags
            &&& list[written]->RewriteTags_path == plan.source
            &&& list[written]->RewriteTags_updates == plan.tag_updates
            &&& list[written]->remove == plan.lyrics.tag_keys
            &&& moved == 1 ==> {
                &&& list[written + 1] is Move
                &&& list[written + 1]->Move_source == plan.source
                &&& list[written + 1]->Move_target == plan.target
            }
            &&& written + moved < k < list.len() ==> list[k] is MoveIfPresent
        }),
{
    let list = plan_actions(plan, true);
    let first = track_actions(plan);
    let rest = sidecar_moves(plan.sidecars);
    lemma_sidecar_moves(plan.sidecars);
    if first.len() <= k < list.len() {
        assert(list[k] == rest[k - first.len()]);
        let m = choose|m: int|
            0 <= m < plan.sidecars.len() && plan.sidecars[m].source != plan.sidecars[m].target
                && #[trigger] carries(rest[k - first.len()], plan.sidecars[m]);
        assert(carries(list[k], plan.sidecars[m]));
    }
}

/// How files change is counted plan by plan, by what is done: a file that is moved,
/// one that has a tag set, and one that has lyrics removed from its tags.
pub proof fn law_changes_are_counted(
    a: Seq<RepairPlanView>,
    b: Seq<RepairPlanView>,
    plan: RepairPlanView,
    property: spec_fn(RepairPlanView) -> bool,
)
    ensures
        count_where(a + b, property) == count_where(a, property) + count_where(b, property),
        count_where(seq![plan], property) == if property(plan) {
            1nat
        } else {
            0
        },
        moves(plan) <==> exists|k: int|
            0 <= k < plan_actions(plan, true).len() && #[trigger] plan_actions(plan, true)[k]
                is Move,
        retags(plan) <==> plan.tag_updates.albumartist is Some || plan.tag_updates.artist is Some
            || plan.tag_updates.album is Some || plan.tag_updates.title is Some
            || plan.tag_updates.genre is Some,
        has_lyrics(plan) <==> plan.lyrics.tag_keys != Seq::<Seq<char>>::empty(),
    decreases b.len(),
{
    let one = seq![plan];
    assert(one.drop_last() =~= Seq::empty());
    assert(count_where(one.drop_last(), property) == 0);
    assert(one.last() == plan);
    if b.len() == 0 {
        assert(a + b =~= a);
    } else {
        law_changes_are_counted(a, b.drop_last(), plan, property);
        assert((a + b).drop_last() =~= a + b.drop_last());
        assert((a + b).last() == b.last());
    }
    let list = plan_actions(plan, true);
    if moves(plan) {
        law_file_is_repaired_in_order(plan, 0);
        let k: int = if plan.lyrics_sidecar is Some {
            2
        } else {
            1
        };
        assert(list[k] is Move);
    } else if exists|k: int| 0 <= k < list.len() && #[trigger] list[k] is Move {
        let k = choose|k: int| 0 <= k < list.len() && #[trigger] list[k] is Move;
        law_file_is_repaired_in_order(plan, k);
    }
    if plan.lyrics.tag_keys.len() == 0 {
        assert(plan.lyrics.tag_keys =~= Seq::empty());
    }
}

/// Whether a file goes from beside a track to beside its target, as its lyrics,
/// perhaps under a number.
pub open spec fn goes_beside(
    sidecar: sidecars::SidecarView,
    source: Seq<path::PartView>,
    target: Seq<path::PartView>,
) -> bool {
    &&& sidecar.source == sidecars::sidecar_path(source, 0)
    &&& exists|n: nat|
        sidecar.target == #[trigger] reserve::candidate(sidecars::sidecar_path(target, 0), n)
}

/// Whether the files that exist beside a file go with it, and besides them only its
/// lyrics file does.
pub open spec fn has_companions(
    plan: RepairPlanView,
    known: Map<Seq<path::PartView>, bool>,
) -> bool {
    let list = plan.sidecars;
    &&& known[sidecars::sidecar_path(plan.source, 0)] ==> exists|i: int|
        0 <= i < list.len() && sidecars::follows_track(
            #[trigger] list[i],
            plan.source,
            plan.target,
            known,
            0,
        )
    &&& known[sidecars::sidecar_path(plan.source, 1)] ==> exists|i: int|
        0 <= i < list.len() && sidecars::follows_track(
            #[trigger] list[i],
            plan.source,
            plan.target,
            known,
            1,
        )
    &&& forall|i: int|
        0 <= i < list.len() ==> {
            ||| sidecars::follows_track(#[trigger] list[i], plan.source, plan.target, known, 0)
            ||| sidecars::follows_track(list[i], plan.source, plan.target, known, 1)
            ||| plan.lyrics_sidecar == Some((list[i].source, list[i].target)) && goes_beside(
                list[i],
                plan.source,
                plan.target,
            )
        }
}

proof fn lemma_lyrics_file_is_added(
    source: Seq<path::PartView>,
    target: Seq<path::PartView>,
    content: Seq<char>,
    gathered: sidecars::Gathered,
    known: Map<Seq<path::PartView>, bool>,
)
    requires
        sidecars::brings_companions(source, target, known, Seq::empty(), gathered.sidecars, 0),
    ensures
        with_lyrics(source, target, content, gathered, known) matches sidecars::Planned::Done(all)
            ==> forall|plan: RepairPlanView|
            plan.source == source && plan.target == target && plan.sidecars == all.gathered.sidecars
                && plan.lyrics_sidecar == all.lyrics ==> #[trigger] has_companions(plan, known),
{
    if let sidecars::Planned::Done(all) = with_lyrics(source, target, content, gathered, known) {
        let before = gathered.sidecars;
        let after = all.gathered.sidecars;
        assert forall|i: int| 0 <= i < before.len() implies #[trigger] after[i] == before[i] by {}
        if known[sidecars::sidecar_path(source, 0)] {
            let i = choose|i: int|
                0 <= i < before.len() && sidecars::follows_track(
                    #[trigger] before[i],
                    source,
                    target,
                    known,
                    0,
                );
            assert(sidecars::follows_track(after[i], source, target, known, 0));
        }
        if known[sidecars::sidecar_path(source, 1)] {
            let i = choose|i: int|
                0 <= i < before.len() && sidecars::follows_track(
                    #[trigger] before[i],
                    source,
                    target,
                    known,
                    1,
                );
            assert(sidecars::follows_track(after[i], source, target, known, 1));
        }
        assert forall|i: int| 0 <= i < after.len() implies {
            ||| sidecars::follows_track(#[trigger] after[i], source, target, known, 0)
            ||| sidecars::follows_track(after[i], source, target, known, 1)
            ||| all.lyrics == Some((after[i].source, after[i].target)) && goes_beside(
                after[i],
                source,
                target,
            )
        } by {
            if i < before.len() {
                assert(after[i] == before[i]);
            } else {
                reserve::law_reserved_path_is_first(
                    Precedence::Reservation,
                    sidecars::sidecar_path(target, 0),
                    Some(sidecars::sidecar_path(source, 0)),
                    gathered.taken,
                    known,
                    0,
                );
            }
        }
    }
}

/// A plan is made for the file that it is asked for: the file goes where its tags
/// say, or there under a number, and it goes exactly there if that path is its own
/// or no file is there, and it was not taken. Its album artist is rewritten exactly
/// if it is not the one name of the artist. The files that exist beside it go with
/// it; besides them only a lyrics file does.
pub proof fn law_plan_is_for_its_file(
    server: Seq<path::PartView>,
    input: RepairInputView,
    taken: Set<Seq<path::PartView>>,
    sidecar_taken: Set<Seq<path::PartView>>,
    known: Map<Seq<path::PartView>, bool>,
)
    ensures
        repair_step(server, input, taken, sidecar_taken, known) matches RepairStepView::Planned(
            plan,
            _,
            _,
        ) ==> {
            let own = audio::filed_path(server, input.metadata, ".flac"@);
            let artist = text::artist_name(input.metadata.albumartist);
            &&& plan.source == input.source
            &&& plan.lyrics == input.lyrics
            &&& plan.bytes == input.bytes
            &&& exists|n: nat| plan.target == #[trigger] reserve::candidate(own, n)
            &&& !taken.contains(own) && (own == input.source || (known.contains_key(own)
                && !known[own])) ==> plan.target == own
            &&& own != input.source && known.contains_key(own) && known[own] ==> plan.target != own
            &&& plan.tag_updates.albumartist == if text::normal_text(
                input.metadata.albumartist,
                false,
            ) == artist {
                None
            } else {
                Some(artist)
            }
            &&& plan.tag_updates.artist is None && plan.tag_updates.album is None
            &&& plan.tag_updates.title is None && plan.tag_updates.genre is None
            &&& has_companions(plan, known)
        },
{
    reveal_strlit(".flac");
    audio::law_filed_path(server, input.metadata, ".flac"@);
    audio::law_filed_names(input.metadata);
    let own = desired_target(server, input);
    reserve::law_free_target_is_given(
        Precedence::Reservation,
        own,
        Some(input.source),
        taken,
        known,
    );
    reserve::law_reserved_path_is_first(
        Precedence::Reservation,
        own,
        Some(input.source),
        taken,
        known,
        0,
    );
    reserve::law_reserved_path_is_free(
        Precedence::Reservation,
        own,
        Some(input.source),
        taken,
        known,
        0,
    );
    if let reserve::ReservationView::Free(target) = reserve::reservation(
        Precedence::Reservation,
        own,
        Some(input.source),
        taken,
        known,
        0,
    ) {
        let start = sidecars::Gathered { sidecars: Seq::empty(), taken: sidecar_taken };
        sidecars::law_companions_follow(
            Precedence::Reservation,
            input.source,
            target,
            known,
            start,
            0,
        );
        if let sidecars::Planned::Done(gathered) = sidecars::gathered_from(
            Precedence::Reservation,
            input.source,
            target,
            known,
            start,
            0,
        ) {
            lemma_lyrics_file_is_added(
                input.source,
                target,
                input.lyrics.content,
                gathered,
                known,
            );
        }
    }
}

/// A new lyrics file gets the name of the track, if no file is there and the path was
/// not taken.
pub proof fn law_new_lyrics_file_keeps_the_name(
    source: Seq<path::PartView>,
    target: Seq<path::PartView>,
    content: Seq<char>,
    gathered: sidecars::Gathered,
    known: Map<Seq<path::PartView>, bool>,
)
    requires
        content.len() > 0,
        forall|i: int|
            0 <= i < gathered.sidecars.len() ==> (#[trigger] gathered.sidecars[i]).source
                != sidecars::sidecar_path(source, 0),
        !gathered.taken.contains(sidecars::sidecar_path(target, 0)),
        known.contains_key(sidecars::sidecar_path(target, 0)),
        !known[sidecars::sidecar_path(target, 0)],
    ensures
        with_lyrics(source, target, content, gathered, known) matches sidecars::Planned::Done(all)
            && all.lyrics == Some(
            (sidecars::sidecar_path(source, 0), sidecars::sidecar_path(target, 0)),
        ) && all.gathered.sidecars.len() == gathered.sidecars.len() + 1,
{
    let file = sidecars::sidecar_path(source, 0);
    lemma_planned_from(gathered.sidecars, file);
    if let Some(found) = planned_from(gathered.sidecars, file) {
        let i = choose|i: int| 0 <= i < gathered.sidecars.len() && gathered.sidecars[i] == found;
        assert(gathered.sidecars[i].source == file);
    }
    reserve::law_free_target_is_given(
        Precedence::Reservation,
        sidecars::sidecar_path(target, 0),
        Some(file),
        gathered.taken,
        known,
    );
}

/// The outcome of planning tells the plan and every path that is taken after it, the
/// file that is asked about, or that there is no plan.
pub proof fn law_outcome_is_exact(
    outcome: RepairStep,
    taken: Set<Seq<path::PartView>>,
    sidecar_taken: Set<Seq<path::PartView>>,
    step: RepairStepView,
)
    requires
        steps(outcome, taken, sidecar_taken, step),
    ensures
        outcome matches RepairStep::Planned(plan) ==> step == RepairStepView::Planned(
            plan@,
            taken,
            sidecar_taken,
        ),
        outcome matches RepairStep::Ask(file) ==> step == RepairStepView::Ask(file@),
        outcome is Exhausted <==> step is Exhausted,
        outcome is Planned <==> step is Planned,
{
}

} // verus!
