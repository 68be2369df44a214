//! Putting a transcoded file in place of its source.

use vstd::prelude::*;

use crate::audio;
use crate::audio::TagUpdates;
use crate::numbers;
use crate::numbers::decimal_text;
use crate::path;
use crate::path::FilePath;
use crate::sidecars;
use crate::sidecars::with_extension;
use crate::strings::concat;

verus! {

/// What went wrong.
#[derive(Debug, Clone, Copy, PartialEq, Eq)]
pub enum ImportFault {
    /// The source could not be transcoded.
    Encode,
    /// The tags of the transcoded file could not be rewritten.
    Tags,
    /// The transcoded file is not valid.
    Validation,
    /// The transcoded file could not be moved to the target.
    Place,
    /// The source could not be removed.
    RemoveSource,
    /// It could not be told whether the backup exists.
    BackupCheck,
    /// The backup exists.
    BackupExists,
    /// The source could not be set aside.
    BackUp,
    /// The transcoded file could not be moved to where the source was.
    Replace,
    /// That, and the source could not be brought back.
    Restore,
    /// The backup could not be removed.
    RemoveBackup,
}

/// How far an import has come.
#[derive(Debug, Clone, Copy, PartialEq, Eq)]
pub enum ImportPhase {
    Encoding,
    Tagging,
    Validating,
    Placing,
    RemovingSource,
    CheckingBackup,
    BackingUp,
    Replacing,
    CheckingTarget,
    ClearingTarget,
    Restoring,
    RemovingBackup,
    CheckingTemporary,
    ClearingTemporary,
    Finished,
}

/// The import of a file.
#[derive(Debug)]
pub struct Import {
    pub source: FilePath,
    pub target: FilePath,
    pub updates: TagUpdates,
    /// Where the source is set aside when it stands at the target.
    pub backup: FilePath,
    /// The transcoded file, once there is one.
    pub temporary: FilePath,
    /// Tags of the transcoded file were changed.
    pub changed: bool,
    pub fault: Option<ImportFault>,
    pub phase: ImportPhase,
}

/// The import of a file, by its content.
pub struct ImportView {
    pub source: Seq<path::PartView>,
    pub target: Seq<path::PartView>,
    pub updates: audio::UpdatesView,
    pub backup: Seq<path::PartView>,
    pub temporary: Seq<path::PartView>,
    pub changed: bool,
    pub fault: Option<ImportFault>,
    pub phase: ImportPhase,
}

impl View for Import {
    type V = ImportView;

    open spec fn view(&self) -> ImportView {
        ImportView {
            source: self.source@,
            target: self.target@,
            updates: self.updates@,
            backup: self.backup@,
            temporary: self.temporary@,
            changed: self.changed,
            fault: self.fault,
            phase: self.phase,
        }
    }
}

/// What to do next about an import.
#[derive(Debug)]
pub enum ImportAction {
    /// Transcode the file.
    Encode(FilePath),
    /// Rewrite the tags of the file.
    RewriteTags(FilePath, TagUpdates),
    /// Find out whether the file is as the profile asks for.
    Validate(FilePath),
    /// Move the file, overwriting nothing.
    Move(FilePath, FilePath),
    Rename(FilePath, FilePath),
    /// Find out whether the file exists.
    Check(FilePath),
    Remove(FilePath),
    Finish(Result<bool, ImportFault>),
}

/// What to do next about an import, by its content.
pub enum ImportActionView {
    Encode(Seq<path::PartView>),
    RewriteTags(Seq<path::PartView>, audio::UpdatesView),
    Validate(Seq<path::PartView>),
    Move(Seq<path::PartView>, Seq<path::PartView>),
    Rename(Seq<path::PartView>, Seq<path::PartView>),
    Check(Seq<path::PartView>),
    Remove(Seq<path::PartView>),
    Finish(Result<bool, ImportFault>),
}

impl View for ImportAction {
    type V = ImportActionView;

    open spec fn view(&self) -> ImportActionView {
        match self {
            ImportAction::Encode(path) => ImportActionView::Encode(path@),
            ImportAction::RewriteTags(path, updates) => ImportActionView::RewriteTags(
                path@,
                updates@,
            ),
            ImportAction::Validate(path) => ImportActionView::Validate(path@),
            ImportAction::Move(source, target) => ImportActionView::Move(source@, target@),
            ImportAction::Rename(source, target) => ImportActionView::Rename(source@, target@),
            ImportAction::Check(path) => ImportActionView::Check(path@),
            ImportAction::Remove(path) => ImportActionView::Remove(path@),
            ImportAction::Finish(outcome) => ImportActionView::Finish(*outcome),
        }
    }
}

/// What came of an action.
#[derive(Debug)]
pub enum ImportEvent {
    /// The file was transcoded, and this is the result.
    Encoded(FilePath),
    /// The tags were rewritten; whether any changed.
    Rewritten(bool),
    Present,
    Absent,
    Done,
    Failed,
}

/// What came of an action, by its content.
pub enum ImportEventView {
    Encoded(Seq<path::PartView>),
    Rewritten(bool),
    Present,
    Absent,
    Done,
    Failed,
}

impl View for ImportEvent {
    type V = ImportEventView;

    open spec fn view(&self) -> ImportEventView {
        match self {
            ImportEvent::Encoded(path) => ImportEventView::Encoded(path@),
            ImportEvent::Rewritten(changed) => ImportEventView::Rewritten(*changed),
            ImportEvent::Present => ImportEventView::Present,
            ImportEvent::Absent => ImportEventView::Absent,
            ImportEvent::Done => ImportEventView::Done,
            ImportEvent::Failed => ImportEventView::Failed,
        }
    }
}

/// Where a source is set aside.
pub open spec fn backup_of(target: Seq<path::PartView>, process: u32) -> Seq<path::PartView> {
    sidecars::with_extension_text(target, "musee-backup-"@ + numbers::decimal(process as nat))
}

/// The beginning of an import.
pub open spec fn import_begin(
    source: Seq<path::PartView>,
    target: Seq<path::PartView>,
    updates: audio::UpdatesView,
    process: u32,
) -> ImportView {
    ImportView {
        source,
        target,
        updates,
        backup: backup_of(target, process),
        temporary: Seq::empty(),
        changed: false,
        fault: None,
        phase: ImportPhase::Encoding,
    }
}

/// What to do next about an import.
pub open spec fn import_action(import: ImportView) -> ImportActionView {
    match import.phase {
        ImportPhase::Encoding => ImportActionView::Encode(import.source),
        ImportPhase::Tagging => ImportActionView::RewriteTags(import.temporary, import.updates),
        ImportPhase::Validating => ImportActionView::Validate(import.temporary),
        ImportPhase::Placing => ImportActionView::Move(import.temporary, import.target),
        ImportPhase::RemovingSource => ImportActionView::Remove(import.source),
        ImportPhase::CheckingBackup => ImportActionView::Check(import.backup),
        ImportPhase::BackingUp => ImportActionView::Rename(import.source, import.backup),
        ImportPhase::Replacing => ImportActionView::Move(import.temporary, import.target),
        ImportPhase::CheckingTarget => ImportActionView::Check(import.target),
        ImportPhase::ClearingTarget => ImportActionView::Remove(import.target),
        ImportPhase::Restoring => ImportActionView::Rename(import.backup, import.source),
        ImportPhase::RemovingBackup => ImportActionView::Remove(import.backup),
        ImportPhase::CheckingTemporary => ImportActionView::Check(import.temporary),
        ImportPhase::ClearingTemporary => ImportActionView::Remove(import.temporary),
        ImportPhase::Finished => ImportActionView::Finish(
            match import.fault {
                Some(fault) => Err(fault),
                None => Ok(import.changed),
            },
        ),
    }
}

/// Whether an event can come of the action that is due.
pub open spec fn import_fits(phase: ImportPhase, event: ImportEventView) -> bool {
    match phase {
        ImportPhase::Encoding => event is Encoded || event is Failed,
        ImportPhase::Tagging => event is Rewritten || event is Failed,
        ImportPhase::CheckingBackup => event is Present || event is Absent || event is Failed,
        ImportPhase::CheckingTarget => event is Present || event is Absent || event is Failed,
        ImportPhase::CheckingTemporary => event is Present || event is Absent || event is Failed,
        ImportPhase::Finished => false,
        _ => event is Done || event is Failed,
    }
}

/// The import after a fault: the transcoded file is cleared away.
pub open spec fn failed_import(import: ImportView, fault: ImportFault) -> ImportView {
    ImportView { fault: Some(fault), phase: ImportPhase::CheckingTemporary, ..import }
}

/// The import in another phase.
pub open spec fn import_in(import: ImportView, phase: ImportPhase) -> ImportView {
    ImportView { phase, ..import }
}

/// How an import goes on after an event.
pub open spec fn import_next(import: ImportView, event: ImportEventView) -> ImportView {
    match import.phase {
        ImportPhase::Encoding => match event {
            ImportEventView::Encoded(temporary) => ImportView {
                temporary,
                phase: ImportPhase::Tagging,
                ..import
            },
            _ => ImportView {
                fault: Some(ImportFault::Encode),
                phase: ImportPhase::Finished,
                ..import
            },
        },
        ImportPhase::Tagging => match event {
            ImportEventView::Rewritten(changed) => ImportView {
                changed,
                phase: ImportPhase::Validating,
                ..import
            },
            _ => failed_import(import, ImportFault::Tags),
        },
        ImportPhase::Validating => match event {
            ImportEventView::Done => if import.source != import.target {
                import_in(import, ImportPhase::Placing)
            } else {
                import_in(import, ImportPhase::CheckingBackup)
            },
            _ => failed_import(import, ImportFault::Validation),
        },
        ImportPhase::Placing => match event {
            ImportEventView::Done => import_in(import, ImportPhase::RemovingSource),
            _ => failed_import(import, ImportFault::Place),
        },
        ImportPhase::RemovingSource => match event {
            ImportEventView::Done => import_in(import, ImportPhase::Finished),
            _ => failed_import(import, ImportFault::RemoveSource),
        },
        ImportPhase::CheckingBackup => match event {
            ImportEventView::Absent => import_in(import, ImportPhase::BackingUp),
            ImportEventView::Present => failed_import(import, ImportFault::BackupExists),
            _ => failed_import(import, ImportFault::BackupCheck),
        },
        ImportPhase::BackingUp => match event {
            ImportEventView::Done => import_in(import, ImportPhase::Replacing),
            _ => failed_import(import, ImportFault::BackUp),
        },
        ImportPhase::Replacing => match event {
            ImportEventView::Done => import_in(import, ImportPhase::RemovingBackup),
            _ => ImportView {
                fault: Some(ImportFault::Replace),
                phase: ImportPhase::CheckingTarget,
                ..import
            },
        },
        ImportPhase::CheckingTarget => match event {
            ImportEventView::Present => import_in(import, ImportPhase::ClearingTarget),
            _ => import_in(import, ImportPhase::Restoring),
        },
        ImportPhase::ClearingTarget => import_in(import, ImportPhase::Restoring),
        ImportPhase::Restoring => match event {
            ImportEventView::Done => import_in(import, ImportPhase::CheckingTemporary),
            _ => failed_import(import, ImportFault::Restore),
        },
        ImportPhase::RemovingBackup => match event {
            ImportEventView::Done => import_in(import, ImportPhase::Finished),
            _ => failed_import(import, ImportFault::RemoveBackup),
        },
        ImportPhase::CheckingTemporary => match event {
            ImportEventView::Present => import_in(import, ImportPhase::ClearingTemporary),
            _ => import_in(import, ImportPhase::Finished),
        },
        ImportPhase::ClearingTemporary => import_in(import, ImportPhase::Finished),
        ImportPhase::Finished => import,
    }
}

impl Import {
    /// Begins to import a file.
    pub fn begin(
        source: FilePath,
        target: FilePath,
        updates: TagUpdates,
        process: u32,
    ) -> (res: Import)
        ensures
            res@ == import_begin(source@, target@, updates@, process),
    {
        let number = decimal_text(process as u64);
        let backup = with_extension(&target, &concat("musee-backup-", &number));
        let temporary = FilePath { parts: Vec::new() };
        assert(temporary@ =~= Seq::empty());
        Import {
            source,
            target,
            updates,
            backup,
            temporary,
            changed: false,
            fault: None,
            phase: ImportPhase::Encoding,
        }
    }

    /// What to do next.
    pub fn action(&self) -> (res: ImportAction)
        ensures
            res@ == import_action(self@),
    {
        match self.phase {
            ImportPhase::Encoding => ImportAction::Encode(self.source.clone()),
            ImportPhase::Tagging => ImportAction::RewriteTags(
                self.temporary.clone(),
                self.updates.clone(),
            ),
            ImportPhase::Validating => ImportAction::Validate(self.temporary.clone()),
            ImportPhase::Placing => ImportAction::Move(
                self.temporary.clone(),
                self.target.clone(),
            ),
            ImportPhase::RemovingSource => ImportAction::Remove(self.source.clone()),
            ImportPhase::CheckingBackup => ImportAction::Check(self.backup.clone()),
            ImportPhase::BackingUp => ImportAction::Rename(
                self.source.clone(),
                self.backup.clone(),
            ),
            ImportPhase::Replacing => ImportAction::Move(
                self.temporary.clone(),
                self.target.clone(),
            ),
            ImportPhase::CheckingTarget => ImportAction::Check(self.target.clone()),
            ImportPhase::ClearingTarget => ImportAction::Remove(self.target.clone()),
            ImportPhase::Restoring => ImportAction::Rename(
                self.backup.clone(),
                self.source.clone(),
            ),
            ImportPhase::RemovingBackup => ImportAction::Remove(self.backup.clone()),
            ImportPhase::CheckingTemporary => ImportAction::Check(self.temporary.clone()),
            ImportPhase::ClearingTemporary => ImportAction::Remove(self.temporary.clone()),
            ImportPhase::Finished => ImportAction::Finish(
                match self.fault {
                    Some(fault) => Err(fault),
                    None => Ok(self.changed),
                },
            ),
        }
    }

    fn fail(&mut self, fault: ImportFault)
        ensures
            final(self)@ == failed_import(old(self)@, fault),
    {
        self.fault = Some(fault);
        self.phase = ImportPhase::CheckingTemporary;
    }

    /// Goes on after an event.
    pub fn advance(&mut self, event: ImportEvent)
        requires
            import_fits(old(self)@.phase, event@),
        ensures
            final(self)@ == import_next(old(self)@, event@),
    {
        match self.phase {
            ImportPhase::Encoding => match event {
                ImportEvent::Encoded(temporary) => {
                    self.temporary = temporary;
                    self.phase = ImportPhase::Tagging;
                },
                _ => {
                    self.fault = Some(ImportFault::Encode);
                    self.phase = ImportPhase::Finished;
                },
            },
            ImportPhase::Tagging => match event {
                ImportEvent::Rewritten(changed) => {
                    self.changed = changed;
                    self.phase = ImportPhase::Validating;
                },
                _ => self.fail(ImportFault::Tags),
            },
            ImportPhase::Validating => match event {
                ImportEvent::Done => {
                    self.phase = if self.source.is_same(&self.target) {
                        ImportPhase::CheckingBackup
                    } else {
                        ImportPhase::Placing
                    };
                },
                _ => self.fail(ImportFault::Validation),
            },
            ImportPhase::Placing => match event {
                ImportEvent::Done => {
                    self.phase = ImportPhase::RemovingSource;
                },
                _ => self.fail(ImportFault::Place),
            },
            ImportPhase::RemovingSource => match event {
                ImportEvent::Done => {
                    self.phase = ImportPhase::Finished;
                },
                _ => self.fail(ImportFault::RemoveSource),
            },
            ImportPhase::CheckingBackup => match event {
                ImportEvent::Absent => {
                    self.phase = ImportPhase::BackingUp;
                },
                ImportEvent::Present => self.fail(ImportFault::BackupExists),
                _ => self.fail(ImportFault::BackupCheck),
            },
            ImportPhase::BackingUp => match event {
                ImportEvent::Done => {
                    self.phase = ImportPhase::Replacing;
                },
                _ => self.fail(ImportFault::BackUp),
            },
            ImportPhase::Replacing => match event {
                ImportEvent::Done => {
                    self.phase = ImportPhase::RemovingBackup;
                },
                _ => {
                    self.fault = Some(ImportFault::Replace);
                    self.phase = ImportPhase::CheckingTarget;
                },
            },
            ImportPhase::CheckingTarget => match event {
                ImportEvent::Present => {
                    self.phase = ImportPhase::ClearingTarget;
                },
                _ => {
                    self.phase = ImportPhase::Restoring;
                },
            },
            ImportPhase::ClearingTarget => {
                self.phase = ImportPhase::Restoring;
            },
            ImportPhase::Restoring => match event {
                ImportEvent::Done => {
                    self.phase = ImportPhase::CheckingTemporary;
                },
                _ => self.fail(ImportFault::Restore),
            },
            ImportPhase::RemovingBackup => match event {
                ImportEvent::Done => {
                    self.phase = ImportPhase::Finished;
                },
                _ => self.fail(ImportFault::RemoveBackup),
            },
            ImportPhase::CheckingTemporary => match event {
                ImportEvent::Present => {
                    self.phase = ImportPhase::ClearingTemporary;
                },
                _ => {
                    self.phase = ImportPhase::Finished;
                },
            },
            ImportPhase::ClearingTemporary => {
                self.phase = ImportPhase::Finished;
            },
            ImportPhase::Finished => {},
        }
    }
}

/// The state after a sequence of events.
pub open spec fn import_after(start: ImportView, events: Seq<ImportEventView>) -> ImportView
    decreases events.len(),
{
    if events.len() == 0 {
        start
    } else {
        import_next(import_after(start, events.drop_last()), events.last())
    }
}

/// Whether each event can come of the action that is due when it comes.
pub open spec fn is_import_run(start: ImportView, events: Seq<ImportEventView>) -> bool
    decreases events.len(),
{
    events.len() > 0 ==> is_import_run(start, events.drop_last()) && import_fits(
        import_after(start, events.drop_last()).phase,
        events.last(),
    )
}

/// Whether the action of a phase has succeeded in the course of the events.
pub open spec fn has_succeeded(
    start: ImportView,
    events: Seq<ImportEventView>,
    phase: ImportPhase,
) -> bool
    decreases events.len(),
{
    events.len() > 0 && (has_succeeded(start, events.drop_last(), phase) || (import_after(
        start,
        events.drop_last(),
    ).phase == phase && events.last() is Done))
}

/// The source is safe throughout an import. It is removed only after the
/// transcoded file was found valid and was placed at the target. If it stands at
/// the target itself, it is set aside only after the transcoded file was found
/// valid, and what was set aside is removed only after the transcoded file has
/// taken its place; if that fails, an attempt is made to bring the source back
/// before the import ends, and the fault says whether it failed, too. An import
/// that succeeds has done all of this, and reports whether tags were changed. An
/// import that fails after there was a transcoded file ends by looking for that
/// file, and removing it if it is still there.
pub proof fn law_source_is_safe(
    source: Seq<path::PartView>,
    target: Seq<path::PartView>,
    updates: audio::UpdatesView,
    process: u32,
    events: Seq<ImportEventView>,
)
    requires
        is_import_run(import_begin(source, target, updates, process), events),
    ensures
        ({
            let start = import_begin(source, target, updates, process);
            let now = import_after(start, events);
            let valid = has_succeeded(start, events, ImportPhase::Validating);
            let placed = has_succeeded(start, events, ImportPhase::Placing);
            let replaced = has_succeeded(start, events, ImportPhase::Replacing);
            let aside = has_succeeded(start, events, ImportPhase::BackingUp);
            let restored = has_succeeded(start, events, ImportPhase::Restoring);
            &&& now.source == source && now.target == target && now.updates == updates && now.backup
                == backup_of(target, process)
            &&& now.phase is RemovingSource ==> source != target && valid && placed
            &&& now.phase is BackingUp ==> source == target && valid && events.last() is Absent
            &&& now.phase is RemovingBackup ==> source == target && valid && aside && replaced
            &&& now.phase is Finished && aside ==> replaced || restored || now.fault == Some(
                ImportFault::Restore,
            )
            &&& now.phase is Finished && now.fault is None ==> valid && if source != target {
                placed && has_succeeded(start, events, ImportPhase::RemovingSource)
            } else {
                replaced && has_succeeded(start, events, ImportPhase::RemovingBackup)
            }
            &&& now.phase is Finished && now.fault is Some && now.fault != Some(ImportFault::Encode)
                ==> {
                let before = import_after(start, events.drop_last());
                &&& before.phase is CheckingTemporary || before.phase is ClearingTemporary
                &&& before.phase is CheckingTemporary ==> !(events.last() is Present)
            }
        }),
    decreases events.len(),
{
    lemma_import_state(source, target, updates, process, events);
    if events.len() > 0 {
        lemma_import_state(source, target, updates, process, events.drop_last());
    }
}

/// What holds in each phase.
spec fn import_state(start: ImportView, events: Seq<ImportEventView>) -> bool {
    let now = import_after(start, events);
    let valid = has_succeeded(start, events, ImportPhase::Validating);
    let placed = has_succeeded(start, events, ImportPhase::Placing);
    let replaced = has_succeeded(start, events, ImportPhase::Replacing);
    let aside = has_succeeded(start, events, ImportPhase::BackingUp);
    let restored = has_succeeded(start, events, ImportPhase::Restoring);
    let direct = now.source != now.target;
    &&& now.source == start.source
    &&& now.target == start.target
    &&& now.updates == start.updates
    &&& now.backup == start.backup
    &&& match now.phase {
        ImportPhase::Encoding => !aside && now.fault is None,
        ImportPhase::Tagging => !aside && now.fault is None,
        ImportPhase::Validating => !aside && now.fault is None,
        ImportPhase::Placing => valid && direct && !aside && now.fault is None,
        ImportPhase::RemovingSource => valid && direct && placed && !aside && now.fault is None,
        ImportPhase::CheckingBackup => valid && !direct && !aside && now.fault is None,
        ImportPhase::BackingUp => valid && !direct && !aside && now.fault is None && events.last()
            is Absent,
        ImportPhase::Replacing => valid && !direct && aside && now.fault is None,
        ImportPhase::CheckingTarget => valid && !direct && aside && now.fault == Some(
            ImportFault::Replace,
        ),
        ImportPhase::ClearingTarget => valid && !direct && aside && now.fault == Some(
            ImportFault::Replace,
        ),
        ImportPhase::Restoring => valid && !direct && aside && now.fault == Some(
            ImportFault::Replace,
        ),
        ImportPhase::RemovingBackup => valid && !direct && aside && replaced && now.fault is None,
        ImportPhase::CheckingTemporary => now.fault is Some && now.fault != Some(
            ImportFault::Encode,
        ) && (aside ==> replaced || restored || now.fault == Some(ImportFault::Restore)),
        ImportPhase::ClearingTemporary => now.fault is Some && now.fault != Some(
            ImportFault::Encode,
        ) && (aside ==> replaced || restored || now.fault == Some(ImportFault::Restore)),
        ImportPhase::Finished => {
            &&& aside ==> replaced || restored || now.fault == Some(ImportFault::Restore)
            &&& now.fault is None ==> valid && if direct {
                placed && has_succeeded(start, events, ImportPhase::RemovingSource)
            } else {
                replaced && has_succeeded(start, events, ImportPhase::RemovingBackup)
            }
        },
    }
}

proof fn lemma_import_state(
    source: Seq<path::PartView>,
    target: Seq<path::PartView>,
    updates: audio::UpdatesView,
    process: u32,
    events: Seq<ImportEventView>,
)
    requires
        is_import_run(import_begin(source, target, updates, process), events),
    ensures
        import_state(import_begin(source, target, updates, process), events),
    decreases events.len(),
{
    if events.len() > 0 {
        lemma_import_state(source, target, updates, process, events.drop_last());
    }
}

/// The course of an import that meets no trouble: the source is transcoded, the
/// planned values are written into the tags of the result, the result is validated,
/// and takes its place. A source elsewhere is then removed; one that stands at the
/// target is set aside before, and what was set aside is removed. In the end it is
/// said whether tags were changed.
pub proof fn law_import_runs_through(
    source: Seq<path::PartView>,
    target: Seq<path::PartView>,
    updates: audio::UpdatesView,
    process: u32,
    made: Seq<path::PartView>,
    changed: bool,
)
    ensures
        ({
            let start = import_begin(source, target, updates, process);
            let encoded = import_next(start, ImportEventView::Encoded(made));
            let tagged = import_next(encoded, ImportEventView::Rewritten(changed));
            let valid = import_next(tagged, ImportEventView::Done);
            let aside = backup_of(target, process);
            &&& import_action(start) is Encode && import_action(start)->Encode_0 == source
            &&& import_action(encoded) is RewriteTags
            &&& import_action(encoded)->RewriteTags_0 == made
            &&& import_action(encoded)->RewriteTags_1 == updates
            &&& import_action(tagged) is Validate && import_action(tagged)->Validate_0 == made
            &&& source != target ==> {
                let placed = import_next(valid, ImportEventView::Done);
                let ended = import_next(placed, ImportEventView::Done);
                &&& import_action(valid) is Move
                &&& import_action(valid)->Move_0 == made && import_action(valid)->Move_1 == target
                &&& import_action(placed) is Remove && import_action(placed)->Remove_0 == source
                &&& import_action(ended) is Finish
                &&& import_action(ended)->Finish_0 == Ok::<bool, ImportFault>(changed)
            }
            &&& source == target ==> {
                let unused = import_next(valid, ImportEventView::Absent);
                let saved = import_next(unused, ImportEventView::Done);
                let placed = import_next(saved, ImportEventView::Done);
                let ended = import_next(placed, ImportEventView::Done);
                &&& import_action(valid) is Check && import_action(valid)->Check_0 == aside
                &&& import_action(unused) is Rename
                &&& import_action(unused)->Rename_0 == source
                &&& import_action(unused)->Rename_1 == aside
                &&& import_action(saved) is Move
                &&& import_action(saved)->Move_0 == made && import_action(saved)->Move_1 == target
                &&& import_action(placed) is Remove && import_action(placed)->Remove_0 == aside
                &&& import_action(ended) is Finish
                &&& import_action(ended)->Finish_0 == Ok::<bool, ImportFault>(changed)
            }
        }),
{
}

/// A fault of an import is named by the action that failed, and only a failure, or a
/// backup that is there already, is a fault. The first fault stays, unless bringing
/// the source back fails, too. What follows a fault: nothing, if there is no
/// transcoded file; bringing the source back, if it was set aside; and clearing the
/// transcoded file away.
pub proof fn law_import_faults(
    source: Seq<path::PartView>,
    target: Seq<path::PartView>,
    updates: audio::UpdatesView,
    process: u32,
    events: Seq<ImportEventView>,
    event: ImportEventView,
)
    requires
        is_import_run(import_begin(source, target, updates, process), events.push(event)),
    ensures
        ({
            let start = import_begin(source, target, updates, process);
            let before = import_after(start, events);
            let now = import_after(start, events.push(event));
            let due = import_action(before);
            let next = import_action(now);
            let aside = backup_of(target, process);
            let first = before.fault is None;
            &&& first && event is Failed ==> now.fault is Some
            &&& first && now.fault is Some ==> event is Failed || now.fault == Some(
                ImportFault::BackupExists,
            )
            &&& !(now.phase is Finished) || next is Finish
            &&& next is Finish && now.fault is Some ==> next->Finish_0 == Err::<bool, ImportFault>(
                now.fault.unwrap(),
            )
            &&& first && now.fault is Some ==> match now.fault.unwrap() {
                ImportFault::Encode => due is Encode && next is Finish,
                ImportFault::Tags => due is RewriteTags && now.phase is CheckingTemporary,
                ImportFault::Validation => due is Validate && now.phase is CheckingTemporary,
                ImportFault::Place => due is Move && source != target && now.phase
                    is CheckingTemporary,
                ImportFault::RemoveSource => due is Remove && source != target && now.phase
                    is CheckingTemporary,
                ImportFault::BackupCheck => due is Check && now.phase is CheckingTemporary,
                ImportFault::BackupExists => due is Check && event is Present && now.phase
                    is CheckingTemporary,
                ImportFault::BackUp => due is Rename && now.phase is CheckingTemporary,
                ImportFault::Replace => due is Move && source == target && now.phase
                    is CheckingTarget,
                ImportFault::Restore => false,
                ImportFault::RemoveBackup => due is Remove && source == target && now.phase
                    is CheckingTemporary,
            }
            &&& !first && now.fault != before.fault ==> {
                &&& now.fault == Some(ImportFault::Restore)
                &&& before.fault == Some(ImportFault::Replace)
                &&& due is Rename && due->Rename_0 == aside && due->Rename_1 == source
                &&& event is Failed
            }
            &&& before.phase is CheckingTarget ==> {
                &&& due is Check && due->Check_0 == target
                &&& event is Present ==> next is Remove && next->Remove_0 == target
                &&& !(event is Present) ==> next is Rename && next->Rename_0 == aside
                    && next->Rename_1 == source
            }
            &&& before.phase is ClearingTarget ==> next is Rename && next->Rename_0 == aside
                && next->Rename_1 == source
            &&& now.phase is CheckingTemporary ==> next is Check && next->Check_0 == now.temporary
            &&& before.phase is CheckingTemporary ==> {
                &&& event is Present ==> next is Remove && next->Remove_0 == before.temporary
                &&& !(event is Present) ==> next is Finish
            }
            &&& before.phase is Restoring ==> now.phase is CheckingTemporary && (event is Failed
                ==> now.fault == Some(ImportFault::Restore))
        }),
{
    let all = events.push(event);
    assert(all.drop_last() =~= events);
    assert(all.last() == event);
    lemma_import_state(source, target, updates, process, events);
}

/// The name under which a source is set aside: its stem with a mark and the number of
/// the process.
pub proof fn law_backup_name(
    front: Seq<path::PartView>,
    stem: Seq<char>,
    extension: Seq<char>,
    process: u32,
)
    requires
        stem.len() > 0,
        !extension.contains('.'),
    ensures
        ({
            let target = front.push(
                path::PartView::Name(vstd::utf8::encode_utf8(stem + seq!['.'] + extension)),
            );
            let mark = seq!['m', 'u', 's', 'e', 'e', '-', 'b', 'a', 'c', 'k', 'u', 'p', '-']
                + numbers::decimal(process as nat);
            path::is_valid(target) ==> backup_of(target, process) == front.push(
                path::PartView::Name(vstd::utf8::encode_utf8(stem + seq!['.'] + mark)),
            )
        }),
{
    let target = front.push(
        path::PartView::Name(vstd::utf8::encode_utf8(stem + seq!['.'] + extension)),
    );
    let mark = seq!['m', 'u', 's', 'e', 'e', '-', 'b', 'a', 'c', 'k', 'u', 'p', '-']
        + numbers::decimal(process as nat);
    reveal_strlit("musee-backup-");
    assert("musee-backup-"@ + numbers::decimal(process as nat) =~= mark);
    if path::is_valid(target) {
        path::law_spelled_name(front, stem, extension);
        sidecars::lemma_extension_text(target, stem, mark);
        assert(target.drop_last() =~= front);
    }
}

} // verus!
