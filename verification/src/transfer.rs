//! Moving and copying files without overwriting others.

use vstd::prelude::*;

use crate::path;
use crate::path::FilePath;

verus! {

/// What looking for a file found.
#[derive(Debug, Clone, Copy, PartialEq, Eq)]
pub enum Lookup {
    Found,
    NotFound,
    /// It could not be told.
    Failed,
}

/// It could not be told whether a file exists.
#[derive(Debug, Clone, Copy, PartialEq, Eq)]
pub struct LookupFailed;

/// Whether a file exists, by what looking for it found.
pub fn path_exists(lookup: Lookup) -> (res: Result<bool, LookupFailed>)
    ensures
        match lookup {
            Lookup::Found => res == Ok::<bool, LookupFailed>(true),
            Lookup::NotFound => res == Ok::<bool, LookupFailed>(false),
            Lookup::Failed => res is Err,
        },
{
    match lookup {
        Lookup::Found => Ok(true),
        Lookup::NotFound => Ok(false),
        Lookup::Failed => Err(LookupFailed),
    }
}

/// How a transfer ended.
#[derive(Debug, Clone, Copy, PartialEq, Eq)]
pub enum TransferOutcome {
    /// The file was renamed.
    Renamed,
    /// The file was copied, and removed from its old place.
    Moved,
    /// The file was copied.
    Copied,
    /// It could not be told whether the target exists.
    CheckFailed,
    /// Another file stands at the target.
    DestinationExists,
    /// The directory of the target could not be created.
    DirectoryFailed,
    /// The file could not be copied.
    CopyFailed,
    /// The file was copied, and could not be removed from its old place.
    RemoveFailed,
}

/// How far a transfer has come.
#[derive(Debug, Clone, Copy, PartialEq, Eq)]
pub enum TransferPhase {
    Checking,
    Preparing,
    Renaming,
    Copying,
    Removing,
    Finished(TransferOutcome),
}

/// The transfer of a file from one place to another.
#[derive(Debug)]
pub struct Transfer {
    pub source: FilePath,
    pub target: FilePath,
    /// The file stays where it is, too.
    pub copy_only: bool,
    pub phase: TransferPhase,
}

/// The transfer of a file, by its content.
pub struct TransferView {
    pub source: Seq<path::PartView>,
    pub target: Seq<path::PartView>,
    pub copy_only: bool,
    pub phase: TransferPhase,
}

impl View for Transfer {
    type V = TransferView;

    open spec fn view(&self) -> TransferView {
        TransferView {
            source: self.source@,
            target: self.target@,
            copy_only: self.copy_only,
            phase: self.phase,
        }
    }
}

/// What to do next about a transfer.
#[derive(Debug)]
pub enum TransferAction {
    /// Find out whether the file exists.
    Check(FilePath),
    /// Create the directory and those above it, as far as they are missing.
    CreateDirectory(FilePath),
    Rename(FilePath, FilePath),
    Copy(FilePath, FilePath),
    Remove(FilePath),
    Finish(TransferOutcome),
}

/// What to do next about a transfer, by its content.
pub enum TransferActionView {
    Check(Seq<path::PartView>),
    CreateDirectory(Seq<path::PartView>),
    Rename(Seq<path::PartView>, Seq<path::PartView>),
    Copy(Seq<path::PartView>, Seq<path::PartView>),
    Remove(Seq<path::PartView>),
    Finish(TransferOutcome),
}

impl View for TransferAction {
    type V = TransferActionView;

    open spec fn view(&self) -> TransferActionView {
        match self {
            TransferAction::Check(path) => TransferActionView::Check(path@),
            TransferAction::CreateDirectory(path) => TransferActionView::CreateDirectory(path@),
            TransferAction::Rename(source, target) => TransferActionView::Rename(source@, target@),
            TransferAction::Copy(source, target) => TransferActionView::Copy(source@, target@),
            TransferAction::Remove(path) => TransferActionView::Remove(path@),
            TransferAction::Finish(outcome) => TransferActionView::Finish(*outcome),
        }
    }
}

/// What came of an action.
#[derive(Debug, Clone, Copy, PartialEq, Eq)]
pub enum TransferEvent {
    Present,
    Absent,
    Done,
    Failed,
}

/// The beginning of a transfer.
pub open spec fn transfer_begin(
    source: Seq<path::PartView>,
    target: Seq<path::PartView>,
    copy_only: bool,
) -> TransferView {
    TransferView { source, target, copy_only, phase: TransferPhase::Checking }
}

/// What to do next about a transfer.
pub open spec fn transfer_action(transfer: TransferView) -> TransferActionView {
    match transfer.phase {
        TransferPhase::Checking => TransferActionView::Check(transfer.target),
        TransferPhase::Preparing => TransferActionView::CreateDirectory(
            match path::parent_of(transfer.target) {
                Some(parent) => parent,
                None => Seq::empty(),
            },
        ),
        TransferPhase::Renaming => TransferActionView::Rename(transfer.source, transfer.target),
        TransferPhase::Copying => TransferActionView::Copy(transfer.source, transfer.target),
        TransferPhase::Removing => TransferActionView::Remove(transfer.source),
        TransferPhase::Finished(outcome) => TransferActionView::Finish(outcome),
    }
}

/// Whether an event can come of the action that is due.
pub open spec fn transfer_fits(phase: TransferPhase, event: TransferEvent) -> bool {
    match phase {
        TransferPhase::Checking => !(event is Done),
        TransferPhase::Finished(_) => false,
        _ => event is Done || event is Failed,
    }
}

/// The phase in which the file is transferred.
pub open spec fn transferring(transfer: TransferView) -> TransferPhase {
    if transfer.copy_only {
        TransferPhase::Copying
    } else {
        TransferPhase::Renaming
    }
}

/// The phase after a transfer was found to overwrite nothing.
pub open spec fn cleared(transfer: TransferView) -> TransferPhase {
    if path::parent_of(transfer.target) is Some {
        TransferPhase::Preparing
    } else {
        transferring(transfer)
    }
}

/// How a transfer goes on after an event.
pub open spec fn transfer_next(transfer: TransferView, event: TransferEvent) -> TransferView {
    let phase = match (transfer.phase, event) {
        (TransferPhase::Checking, TransferEvent::Absent) => cleared(transfer),
        (TransferPhase::Checking, TransferEvent::Present) => if transfer.source
            == transfer.target {
            cleared(transfer)
        } else {
            TransferPhase::Finished(TransferOutcome::DestinationExists)
        },
        (TransferPhase::Checking, _) => TransferPhase::Finished(TransferOutcome::CheckFailed),
        (TransferPhase::Preparing, TransferEvent::Done) => transferring(transfer),
        (TransferPhase::Preparing, _) => TransferPhase::Finished(TransferOutcome::DirectoryFailed),
        (TransferPhase::Renaming, TransferEvent::Done) => TransferPhase::Finished(
            TransferOutcome::Renamed,
        ),
        (TransferPhase::Renaming, _) => TransferPhase::Copying,
        (TransferPhase::Copying, TransferEvent::Done) => if transfer.copy_only {
            TransferPhase::Finished(TransferOutcome::Copied)
        } else {
            TransferPhase::Removing
        },
        (TransferPhase::Copying, _) => TransferPhase::Finished(TransferOutcome::CopyFailed),
        (TransferPhase::Removing, TransferEvent::Done) => TransferPhase::Finished(
            TransferOutcome::Moved,
        ),
        (TransferPhase::Removing, _) => TransferPhase::Finished(TransferOutcome::RemoveFailed),
        (TransferPhase::Finished(_), _) => transfer.phase,
    };
    TransferView { phase, ..transfer }
}

impl Transfer {
    /// Begins to move or to copy a file.
    pub fn begin(source: FilePath, target: FilePath, copy_only: bool) -> (res: Transfer)
        ensures
            res@ == transfer_begin(source@, target@, copy_only),
    {
        Transfer { source, target, copy_only, phase: TransferPhase::Checking }
    }

    /// What to do next.
    pub fn action(&self) -> (res: TransferAction)
        ensures
            res@ == transfer_action(self@),
    {
        match self.phase {
            TransferPhase::Checking => TransferAction::Check(self.target.clone()),
            TransferPhase::Preparing => TransferAction::CreateDirectory(
                match self.target.parent() {
                    Some(parent) => parent,
                    None => {
                        let none = FilePath { parts: Vec::new() };
                        assert(none@ =~= Seq::empty());
                        none
                    },
                },
            ),
            TransferPhase::Renaming => TransferAction::Rename(
                self.source.clone(),
                self.target.clone(),
            ),
            TransferPhase::Copying => TransferAction::Copy(
                self.source.clone(),
                self.target.clone(),
            ),
            TransferPhase::Removing => TransferAction::Remove(self.source.clone()),
            TransferPhase::Finished(outcome) => TransferAction::Finish(outcome),
        }
    }

    fn transferring_phase(&self) -> (res: TransferPhase)
        ensures
            res == transferring(self@),
    {
        if self.copy_only {
            TransferPhase::Copying
        } else {
            TransferPhase::Renaming
        }
    }

    fn cleared_phase(&self) -> (res: TransferPhase)
        ensures
            res == cleared(self@),
    {
        match self.target.parent() {
            Some(_) => TransferPhase::Preparing,
            None => self.transferring_phase(),
        }
    }

    /// Goes on after an event.
    pub fn advance(&mut self, event: TransferEvent)
        requires
            transfer_fits(old(self)@.phase, event),
        ensures
            final(self)@ == transfer_next(old(self)@, event),
    {
        self.phase = match (self.phase, event) {
            (TransferPhase::Checking, TransferEvent::Absent) => self.cleared_phase(),
            (TransferPhase::Checking, TransferEvent::Present) => {
                if self.source.is_same(&self.target) {
                    self.cleared_phase()
                } else {
                    TransferPhase::Finished(TransferOutcome::DestinationExists)
                }
            },
            (TransferPhase::Checking, _) => TransferPhase::Finished(TransferOutcome::CheckFailed),
            (TransferPhase::Preparing, TransferEvent::Done) => self.transferring_phase(),
            (TransferPhase::Preparing, _) => TransferPhase::Finished(
                TransferOutcome::DirectoryFailed,
            ),
            (TransferPhase::Renaming, TransferEvent::Done) => TransferPhase::Finished(
                TransferOutcome::Renamed,
            ),
            (TransferPhase::Renaming, _) => TransferPhase::Copying,
            (TransferPhase::Copying, TransferEvent::Done) => {
                if self.copy_only {
                    TransferPhase::Finished(TransferOutcome::Copied)
                } else {
                    TransferPhase::Removing
                }
            },
            (TransferPhase::Copying, _) => TransferPhase::Finished(TransferOutcome::CopyFailed),
            (TransferPhase::Removing, TransferEvent::Done) => TransferPhase::Finished(
                TransferOutcome::Moved,
            ),
            (TransferPhase::Removing, _) => TransferPhase::Finished(TransferOutcome::RemoveFailed),
            (TransferPhase::Finished(_), _) => self.phase,
        };
    }
}

/// The state after a sequence of events.
pub open spec fn transfer_after(start: TransferView, events: Seq<TransferEvent>) -> TransferView
    decreases events.len(),
{
    if events.len() == 0 {
        start
    } else {
        transfer_next(transfer_after(start, events.drop_last()), events.last())
    }
}

/// Whether each event can come of the action that is due when it comes.
pub open spec fn is_transfer_run(start: TransferView, events: Seq<TransferEvent>) -> bool
    decreases events.len(),
{
    events.len() > 0 ==> is_transfer_run(start, events.drop_last()) && transfer_fits(
        transfer_after(start, events.drop_last()).phase,
        events.last(),
    )
}

proof fn lemma_transfer_state(
    source: Seq<path::PartView>,
    target: Seq<path::PartView>,
    copy_only: bool,
    events: Seq<TransferEvent>,
)
    requires
        is_transfer_run(transfer_begin(source, target, copy_only), events),
    ensures
        ({
            let now = transfer_after(transfer_begin(source, target, copy_only), events);
            &&& now.source == source
            &&& now.target == target
            &&& now.copy_only == copy_only
            &&& now.phase is Checking <==> events.len() == 0
            &&& copy_only ==> !(now.phase is Renaming) && !(now.phase is Removing) && now.phase
                != TransferPhase::Finished(TransferOutcome::Renamed) && now.phase
                != TransferPhase::Finished(TransferOutcome::Moved)
            &&& now.phase is Preparing || now.phase is Renaming || now.phase is Copying || now.phase
                is Removing || now.phase == TransferPhase::Finished(TransferOutcome::Renamed)
                || now.phase == TransferPhase::Finished(TransferOutcome::Moved) || now.phase
                == TransferPhase::Finished(TransferOutcome::Copied) ==> events[0] is Absent
                || (events[0] is Present && source == target)
        }),
    decreases events.len(),
{
    if events.len() > 0 {
        lemma_transfer_state(source, target, copy_only, events.drop_last());
        if events.len() > 1 {
            assert(events.drop_last()[0] == events[0]);
        }
    }
}

/// Whatever happens, a transfer overwrites no other file: it writes to the
/// target only after nothing was found there, or if the file is there already.
/// It removes the file from its old place only right after the file was copied,
/// and never if the file is to stay.
pub proof fn law_transfer_is_safe(
    source: Seq<path::PartView>,
    target: Seq<path::PartView>,
    copy_only: bool,
    events: Seq<TransferEvent>,
)
    requires
        is_transfer_run(transfer_begin(source, target, copy_only), events),
    ensures
        ({
            let start = transfer_begin(source, target, copy_only);
            let now = transfer_action(transfer_after(start, events));
            let clear = events[0] is Absent || (events[0] is Present && source == target);
            match now {
                TransferActionView::Check(file) => file == target && events.len() == 0,
                TransferActionView::CreateDirectory(directory) => path::parent_of(target) == Some(
                    directory,
                ) && clear,
                TransferActionView::Rename(from, to) => from == source && to == target && clear
                    && !copy_only,
                TransferActionView::Copy(from, to) => from == source && to == target && clear,
                TransferActionView::Remove(file) => {
                    &&& file == source
                    &&& !copy_only
                    &&& events.last() is Done
                    &&& transfer_action(transfer_after(start, events.drop_last()))
                        == TransferActionView::Copy(source, target)
                },
                TransferActionView::Finish(outcome) => {
                    let last = transfer_action(transfer_after(start, events.drop_last()));
                    &&& outcome is Renamed ==> events.last() is Done && last
                        == TransferActionView::Rename(source, target)
                    &&& outcome is Moved ==> events.last() is Done && last
                        == TransferActionView::Remove(source)
                    &&& outcome is Copied ==> copy_only && events.last() is Done && last
                        == TransferActionView::Copy(source, target)
                    &&& outcome is DestinationExists ==> source != target && events == seq![
                        TransferEvent::Present,
                    ]
                },
            }
        }),
{
    lemma_transfer_state(source, target, copy_only, events);
    lemma_prepared_directory(source, target, copy_only, events);
    if events.len() > 0 {
        lemma_transfer_state(source, target, copy_only, events.drop_last());
        if events.len() == 1 {
            assert(events =~= seq![events.last()]);
        }
        lemma_collision_is_first(source, target, copy_only, events);
    }
}

proof fn lemma_prepared_directory(
    source: Seq<path::PartView>,
    target: Seq<path::PartView>,
    copy_only: bool,
    events: Seq<TransferEvent>,
)
    requires
        is_transfer_run(transfer_begin(source, target, copy_only), events),
    ensures
        transfer_after(transfer_begin(source, target, copy_only), events).phase is Preparing
            ==> path::parent_of(target) is Some,
    decreases events.len(),
{
    if events.len() > 0 {
        lemma_prepared_directory(source, target, copy_only, events.drop_last());
        lemma_transfer_state(source, target, copy_only, events.drop_last());
    }
}

proof fn lemma_collision_is_first(
    source: Seq<path::PartView>,
    target: Seq<path::PartView>,
    copy_only: bool,
    events: Seq<TransferEvent>,
)
    requires
        is_transfer_run(transfer_begin(source, target, copy_only), events),
    ensures
        transfer_after(transfer_begin(source, target, copy_only), events).phase
            == TransferPhase::Finished(TransferOutcome::DestinationExists) ==> source != target
            && events.len() == 1 && events[0] is Present,
{
    if events.len() > 0 {
        lemma_transfer_state(source, target, copy_only, events.drop_last());
    }
}

/// What a transfer does after each action and what came of it. It begins by looking
/// at the target.
pub proof fn law_transfer_goes_on(
    source: Seq<path::PartView>,
    target: Seq<path::PartView>,
    copy_only: bool,
    events: Seq<TransferEvent>,
    event: TransferEvent,
)
    requires
        is_transfer_run(transfer_begin(source, target, copy_only), events.push(event)),
    ensures
        ({
            let start = transfer_begin(source, target, copy_only);
            let before = transfer_action(transfer_after(start, events));
            let now = transfer_action(transfer_after(start, events.push(event)));
            let deliver = if copy_only {
                TransferActionView::Copy(source, target)
            } else {
                TransferActionView::Rename(source, target)
            };
            let good = event is Done;
            &&& transfer_action(start) == TransferActionView::Check(target)
            &&& match before {
                TransferActionView::Check(_) => {
                    let clear = event is Absent || (event is Present && source == target);
                    &&& clear && path::parent_of(target) is None ==> now == deliver
                    &&& clear && path::parent_of(target) is Some ==> now
                        == TransferActionView::CreateDirectory(path::parent_of(target).unwrap())
                    &&& event is Present && source != target ==> now is Finish
                        && now->Finish_0 is DestinationExists
                    &&& event is Failed ==> now is Finish && now->Finish_0 is CheckFailed
                },
                TransferActionView::CreateDirectory(_) => {
                    &&& good ==> now == deliver
                    &&& !good ==> now is Finish && now->Finish_0 is DirectoryFailed
                },
                TransferActionView::Rename(_, _) => {
                    &&& good ==> now is Finish && now->Finish_0 is Renamed
                    &&& !good ==> now is Copy && now->Copy_0 == source && now->Copy_1 == target
                },
                TransferActionView::Copy(_, _) => {
                    &&& good && copy_only ==> now is Finish && now->Finish_0 is Copied
                    &&& good && !copy_only ==> now is Remove && now->Remove_0 == source
                    &&& !good ==> now is Finish && now->Finish_0 is CopyFailed
                },
                TransferActionView::Remove(_) => {
                    &&& good ==> now is Finish && now->Finish_0 is Moved
                    &&& !good ==> now is Finish && now->Finish_0 is RemoveFailed
                },
                TransferActionView::Finish(_) => false,
            }
        }),
{
    let all = events.push(event);
    assert(all.drop_last() =~= events);
    assert(all.last() == event);
    lemma_transfer_state(source, target, copy_only, events);
}

} // verus!
