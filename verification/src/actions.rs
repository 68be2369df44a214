//! What a command does to the files once it is told to apply its plan.

use vstd::prelude::*;

use crate::audio;
use crate::audio::TagUpdates;
use crate::path;
use crate::path::FilePath;
use crate::strings;

verus! {

/// One change to the files.
#[derive(Debug)]
pub enum Action {
    /// Rewrite tags of a file, and remove the tags under the given keys.
    RewriteTags { path: FilePath, updates: TagUpdates, remove: Vec<String> },
    /// Transcode a file, and put the result in place of it.
    Import { source: FilePath, target: FilePath, updates: TagUpdates },
    /// Move a file.
    Move { source: FilePath, target: FilePath },
    /// Move a file, if it exists.
    MoveIfPresent { source: FilePath, target: FilePath },
    /// Copy a file.
    Copy { source: FilePath, target: FilePath },
    /// Merge lyrics into a file.
    WriteLyrics { path: FilePath, content: String },
    /// Remove a file.
    Remove { path: FilePath },
    /// Remove a file, if it exists.
    RemoveIfPresent { path: FilePath },
    /// Remove the files that go with an album from its directory.
    CleanAlbum { directory: FilePath },
    /// Remove the empty directories below a directory.
    RemoveEmptyDirectories { root: FilePath },
    /// Write the genre of a file.
    WriteGenre { path: FilePath, genre: String },
}

/// One change to the files, by its content.
pub enum ActionView {
    RewriteTags {
        path: Seq<path::PartView>,
        updates: audio::UpdatesView,
        remove: Seq<Seq<char>>,
    },
    Import {
        source: Seq<path::PartView>,
        target: Seq<path::PartView>,
        updates: audio::UpdatesView,
    },
    Move { source: Seq<path::PartView>, target: Seq<path::PartView> },
    MoveIfPresent { source: Seq<path::PartView>, target: Seq<path::PartView> },
    Copy { source: Seq<path::PartView>, target: Seq<path::PartView> },
    WriteLyrics { path: Seq<path::PartView>, content: Seq<char> },
    Remove { path: Seq<path::PartView> },
    RemoveIfPresent { path: Seq<path::PartView> },
    CleanAlbum { directory: Seq<path::PartView> },
    RemoveEmptyDirectories { root: Seq<path::PartView> },
    WriteGenre { path: Seq<path::PartView>, genre: Seq<char> },
}

impl View for Action {
    type V = ActionView;

    open spec fn view(&self) -> ActionView {
        match self {
            Action::RewriteTags { path, updates, remove } => ActionView::RewriteTags {
                path: path@,
                updates: updates@,
                remove: strings::text_views(remove@),
            },
            Action::Import { source, target, updates } => ActionView::Import {
                source: source@,
                target: target@,
                updates: updates@,
            },
            Action::Move { source, target } => ActionView::Move {
                source: source@,
                target: target@,
            },
            Action::MoveIfPresent { source, target } => ActionView::MoveIfPresent {
                source: source@,
                target: target@,
            },
            Action::Copy { source, target } => ActionView::Copy {
                source: source@,
                target: target@,
            },
            Action::WriteLyrics { path, content } => ActionView::WriteLyrics {
                path: path@,
                content: content@,
            },
            Action::Remove { path } => ActionView::Remove { path: path@ },
            Action::RemoveIfPresent { path } => ActionView::RemoveIfPresent { path: path@ },
            Action::CleanAlbum { directory } => ActionView::CleanAlbum { directory: directory@ },
            Action::RemoveEmptyDirectories { root } => ActionView::RemoveEmptyDirectories {
                root: root@,
            },
            Action::WriteGenre { path, genre } => ActionView::WriteGenre {
                path: path@,
                genre: genre@,
            },
        }
    }
}

/// The contents of a list of actions.
pub open spec fn action_views(actions: Seq<Action>) -> Seq<ActionView> {
    actions.map_values(|action: Action| action@)
}

/// Appends an action to a list.
pub fn push_action(actions: &mut Vec<Action>, action: Action)
    ensures
        action_views(final(actions)@) == action_views(old(actions)@).push(action@),
{
    let ghost before = action_views(actions@);
    actions.push(action);
    assert(action_views(actions@) =~= before.push(action@));
}

/// The sum of lengths.
pub open spec fn sum(lengths: Seq<u64>) -> nat
    decreases lengths.len(),
{
    if lengths.len() == 0 {
        0
    } else {
        sum(lengths.drop_last()) + lengths.last() as nat
    }
}

proof fn lemma_sum_grows(lengths: Seq<u64>, n: int)
    requires
        0 <= n <= lengths.len(),
    ensures
        sum(lengths.take(n)) <= sum(lengths),
    decreases lengths.len(),
{
    if n < lengths.len() {
        lemma_sum_grows(lengths.drop_last(), n);
        assert(lengths.drop_last().take(n) =~= lengths.take(n));
    } else {
        assert(lengths.take(n) =~= lengths);
    }
}

/// How much there is to transfer, and at least one; nothing if that does not fit
/// into a number of 64 bits.
pub fn transfer_total(lengths: &Vec<u64>) -> (res: Option<u64>)
    ensures
        match res {
            Some(total) => if sum(lengths@) == 0 {
                total == 1
            } else {
                total == sum(lengths@)
            },
            None => sum(lengths@) > u64::MAX,
        },
{
    let count = lengths.len();
    let mut total: u64 = 0;
    for i in 0..count
        invariant
            count == lengths.len(),
            total == sum(lengths@.take(i as int)),
    {
        proof {
            assert(lengths@.take(i + 1).drop_last() == lengths@.take(i as int));
            lemma_sum_grows(lengths@, i + 1);
        }
        if lengths[i] > u64::MAX - total {
            return None;
        }
        total = total + lengths[i];
    }
    assert(lengths@.take(count as int) == lengths@);
    Some(
        if total == 0 {
            1
        } else {
            total
        },
    )
}

/// Lengths add up.
pub proof fn law_lengths_add_up(a: Seq<u64>, b: Seq<u64>, length: u64)
    ensures
        sum(a + b) == sum(a) + sum(b),
        sum(seq![length]) == length,
        sum(Seq::empty()) == 0,
    decreases b.len(),
{
    let one = seq![length];
    assert(one.drop_last() =~= Seq::empty());
    assert(sum(one.drop_last()) == 0);
    if b.len() == 0 {
        assert(a + b =~= a);
    } else {
        law_lengths_add_up(a, b.drop_last(), length);
        assert((a + b).drop_last() =~= a + b.drop_last());
        assert((a + b).last() == b.last());
    }
}

} // verus!
