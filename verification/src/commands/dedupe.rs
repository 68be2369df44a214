//! Removing files whose audio is in the library twice.

use vstd::prelude::*;

use crate::actions;
use crate::actions::{push_action, Action};
use crate::audio;
use crate::audio::{canonical_destination, canonicalize, TrackMetadata};
use crate::encoding;
use crate::encoding::AudioFingerprint;
use crate::order;
use crate::path;
use crate::path::FilePath;
use crate::pathset;
use crate::pathset::{sorted_unique, PathSet};
use crate::sidecars;
use crate::sidecars::track_sidecar;

verus! {

/// A file of the library, with the fingerprint of its audio and its metadata, if
/// it has a fingerprint.
#[derive(Debug)]
pub struct ScannedFile {
    pub path: FilePath,
    pub audio: Option<(AudioFingerprint, TrackMetadata)>,
}

/// A file of the library, by its content.
pub struct ScanView {
    pub path: Seq<path::PartView>,
    pub audio: Option<(encoding::FingerprintView, audio::TrackView)>,
}

impl View for ScannedFile {
    type V = ScanView;

    open spec fn view(&self) -> ScanView {
        ScanView {
            path: self.path@,
            audio: match self.audio {
                Some((fingerprint, metadata)) => Some((fingerprint@, metadata@)),
                None => None,
            },
        }
    }
}

/// The contents of a list of files.
pub open spec fn scan_views(files: Seq<ScannedFile>) -> Seq<ScanView> {
    files.map_values(|file: ScannedFile| file@)
}

/// The paths of a list of files.
pub open spec fn scan_paths(files: Seq<ScanView>) -> Seq<Seq<path::PartView>> {
    files.map_values(|file: ScanView| file.path)
}

/// Whether a file has the given fingerprint.
pub open spec fn sounds_like(file: ScanView, fingerprint: encoding::FingerprintView) -> bool {
    file.audio matches Some((own, _)) && own == fingerprint
}

/// Whether a file is where it belongs in the library.
pub open spec fn is_in_place(server: Seq<path::PartView>, file: ScanView) -> bool {
    file.audio matches Some((_, track)) && audio::track_destination(
        server,
        audio::canonical_track(track),
        ".flac"@,
    ) == file.path
}

/// The files with a fingerprint that are, or are not, where they belong.
pub open spec fn members_where(
    server: Seq<path::PartView>,
    files: Seq<ScanView>,
    fingerprint: encoding::FingerprintView,
    in_place: bool,
) -> Seq<ScanView> {
    files.filter(
        |file: ScanView| sounds_like(file, fingerprint) && is_in_place(server, file) == in_place,
    )
}

/// The files with a fingerprint, the ones to keep rather coming first: those
/// that are where they belong, then the others.
pub open spec fn members(
    server: Seq<path::PartView>,
    files: Seq<ScanView>,
    fingerprint: encoding::FingerprintView,
) -> Seq<ScanView> {
    members_where(server, files, fingerprint, true) + members_where(
        server,
        files,
        fingerprint,
        false,
    )
}

/// Files with the same audio: the one that is kept, and the others.
#[derive(Debug)]
pub struct DuplicateGroup {
    pub keeper: FilePath,
    pub duplicates: Vec<FilePath>,
}

/// Files with the same audio, by their content.
pub struct GroupView {
    pub keeper: Seq<path::PartView>,
    pub duplicates: Seq<Seq<path::PartView>>,
}

impl View for DuplicateGroup {
    type V = GroupView;

    open spec fn view(&self) -> GroupView {
        GroupView { keeper: self.keeper@, duplicates: path::path_views(self.duplicates@) }
    }
}

/// The contents of a list of groups.
pub open spec fn group_views(groups: Seq<DuplicateGroup>) -> Seq<GroupView> {
    groups.map_values(|group: DuplicateGroup| group@)
}

/// The group that a file keeps, if it is the first of two or more files with the
/// same audio.
pub open spec fn kept_group(
    server: Seq<path::PartView>,
    files: Seq<ScanView>,
    i: int,
) -> Option<GroupView> {
    match files[i].audio {
        Some((fingerprint, _)) => {
            let list = scan_paths(members(server, files, fingerprint));
            if list.len() > 1 && list[0] == files[i].path {
                Some(GroupView { keeper: list[0], duplicates: list.skip(1) })
            } else {
                None
            }
        },
        None => None,
    }
}

/// The groups kept by the first `n` files, in order.
pub open spec fn groups_upto(
    server: Seq<path::PartView>,
    files: Seq<ScanView>,
    n: int,
) -> Seq<GroupView>
    decreases n,
{
    if n <= 0 {
        Seq::empty()
    } else {
        let before = groups_upto(server, files, n - 1);
        match kept_group(server, files, n - 1) {
            Some(group) => before.push(group),
            None => before,
        }
    }
}

/// The groups of files with the same audio, in the order of the files kept.
pub open spec fn duplicate_groups(server: Seq<path::PartView>, files: Seq<ScanView>) -> Seq<
    GroupView,
> {
    groups_upto(server, files, files.len() as int)
}

/// The files that are not kept, group by group.
pub open spec fn removals(groups: Seq<GroupView>) -> Seq<Seq<path::PartView>>
    decreases groups.len(),
{
    if groups.len() == 0 {
        Seq::empty()
    } else {
        removals(groups.drop_last()) + groups.last().duplicates
    }
}

/// How many files have no fingerprint.
pub open spec fn unverified_count(files: Seq<ScanView>) -> nat
    decreases files.len(),
{
    if files.len() == 0 {
        0
    } else {
        unverified_count(files.drop_last()) + if files.last().audio is None {
            1nat
        } else {
            0nat
        }
    }
}

fn in_place(server: &FilePath, file: &ScannedFile) -> (res: bool)
    ensures
        res == is_in_place(server@, file@),
{
    match &file.audio {
        Some((_, metadata)) => {
            let destination = canonical_destination(server, &canonicalize(metadata), ".flac");
            destination.is_same(&file.path)
        },
        None => false,
    }
}

fn has_fingerprint(file: &ScannedFile, fingerprint: &AudioFingerprint) -> (res: bool)
    ensures
        res == sounds_like(file@, fingerprint@),
{
    match &file.audio {
        Some((own, _)) => own.is_same(fingerprint),
        None => false,
    }
}

/// Whether each file is where it belongs.
fn places(server: &FilePath, files: &Vec<ScannedFile>) -> (res: Vec<bool>)
    ensures
        res.len() == files.len(),
        forall|i: int|
            0 <= i < files.len() ==> #[trigger] res@[i] == is_in_place(server@, files@[i]@),
{
    let mut res: Vec<bool> = Vec::new();
    let count = files.len();
    for i in 0..count
        invariant
            count == files.len(),
            res.len() == i,
            forall|j: int|
                0 <= j < i ==> #[trigger] res@[j] == is_in_place(server@, files@[j]@),
    {
        res.push(in_place(server, &files[i]));
    }
    res
}

/// The paths of the files with a fingerprint that are, or are not, where they
/// belong, appended to a list.
fn append_members(
    server: Ghost<Seq<path::PartView>>,
    files: &Vec<ScannedFile>,
    placed: &Vec<bool>,
    fingerprint: &AudioFingerprint,
    in_place: bool,
    list: &mut Vec<FilePath>,
)
    requires
        placed.len() == files.len(),
        forall|i: int|
            0 <= i < files.len() ==> #[trigger] placed@[i] == is_in_place(server@, files@[i]@),
    ensures
        path::path_views(final(list)@) == path::path_views(old(list)@) + scan_paths(
            members_where(server@, scan_views(files@), fingerprint@, in_place),
        ),
{
    let count = files.len();
    let ghost views = scan_views(files@);
    let ghost wanted = |file: ScanView|
        sounds_like(file, fingerprint@) && is_in_place(server@, file) == in_place;
    let ghost before = path::path_views(list@);
    proof {
        reveal(Seq::filter);
        assert(before + scan_paths(views.take(0).filter(wanted)) =~= before);
    }
    for i in 0..count
        invariant
            count == files.len() == placed.len(),
            views == scan_views(files@),
            wanted == |file: ScanView|
                sounds_like(file, fingerprint@) && is_in_place(server@, file) == in_place,
            forall|j: int|
                0 <= j < files.len() ==> #[trigger] placed@[j] == is_in_place(
                    server@,
                    files@[j]@,
                ),
            path::path_views(list@) == before + scan_paths(views.take(i as int).filter(wanted)),
    {
        let file = &files[i];
        let ghost earlier = views.take(i as int).filter(wanted);
        proof {
            reveal(Seq::filter);
            assert(views.take(i + 1).drop_last() == views.take(i as int));
            assert(views.take(i + 1).last() == file@);
        }
        if placed[i] == in_place && has_fingerprint(file, fingerprint) {
            let ghost listed = path::path_views(list@);
            list.push(file.path.clone());
            assert(path::path_views(list@) =~= listed.push(file@.path));
            assert(scan_paths(earlier.push(file@)) =~= scan_paths(earlier).push(file@.path));
            assert(path::path_views(list@) =~= before + scan_paths(earlier.push(file@)));
        }
    }
    assert(views.take(count as int) == views);
}

/// The groups of files with the same audio, in the order of the files kept. The
/// files are given in ascending order.
pub fn find_duplicates(server: &FilePath, files: &Vec<ScannedFile>) -> (res: Vec<DuplicateGroup>)
    ensures
        group_views(res@) == duplicate_groups(server@, scan_views(files@)),
{
    let placed = places(server, files);
    let mut res: Vec<DuplicateGroup> = Vec::new();
    let count = files.len();
    let ghost views = scan_views(files@);
    assert(group_views(res@) =~= Seq::empty());
    for i in 0..count
        invariant
            count == files.len() == placed.len(),
            views == scan_views(files@),
            forall|j: int|
                0 <= j < files.len() ==> #[trigger] placed@[j] == is_in_place(
                    server@,
                    files@[j]@,
                ),
            group_views(res@) == groups_upto(server@, views, i as int),
    {
        let file = &files[i];
        assert(views[i as int] == file@);
        if let Some((fingerprint, _)) = &file.audio {
            let mut list: Vec<FilePath> = Vec::new();
            assert(path::path_views(list@) =~= Seq::empty());
            append_members(Ghost(server@), files, &placed, fingerprint, true, &mut list);
            append_members(Ghost(server@), files, &placed, fingerprint, false, &mut list);
            let ghost all = scan_paths(members(server@, views, fingerprint@));
            assert(path::path_views(list@) =~= all);
            if list.len() > 1 && list[0].is_same(&file.path) {
                let ghost whole = list@;
                let keeper = list.remove(0);
                let group = DuplicateGroup { keeper, duplicates: list };
                assert(path::path_views(group.duplicates@) =~= all.skip(1));
                let ghost before = group_views(res@);
                res.push(group);
                assert(group_views(res@) =~= before.push(group@));
            }
        }
    }
    res
}

/// The files that are not kept, group by group.
pub fn files_to_remove(groups: &Vec<DuplicateGroup>) -> (res: Vec<FilePath>)
    ensures
        path::path_views(res@) == removals(group_views(groups@)),
{
    let mut res: Vec<FilePath> = Vec::new();
    let count = groups.len();
    let ghost views = group_views(groups@);
    assert(path::path_views(res@) =~= Seq::empty());
    for i in 0..count
        invariant
            count == groups.len(),
            views == group_views(groups@),
            path::path_views(res@) == removals(views.take(i as int)),
    {
        let list = &groups[i].duplicates;
        let total = list.len();
        let ghost before = path::path_views(res@);
        let ghost duplicates = path::path_views(list@);
        assert(before + duplicates.take(0) =~= before);
        for j in 0..total
            invariant
                total == list.len(),
                duplicates == path::path_views(list@),
                path::path_views(res@) == before + duplicates.take(j as int),
        {
            let ghost listed = path::path_views(res@);
            res.push(list[j].clone());
            assert(path::path_views(res@) =~= listed.push(duplicates[j as int]));
            assert(path::path_views(res@) =~= before + duplicates.take(j + 1));
        }
        proof {
            assert(duplicates.take(total as int) == duplicates);
            assert(views.take(i + 1).drop_last() == views.take(i as int));
            assert(views.take(i + 1).last() == groups@[i as int]@);
        }
    }
    assert(views.take(count as int) == views);
    res
}

/// How many files have no fingerprint.
pub fn count_unverified(files: &Vec<ScannedFile>) -> (res: usize)
    ensures
        res == unverified_count(scan_views(files@)),
{
    let count = files.len();
    let ghost views = scan_views(files@);
    let mut found: usize = 0;
    for i in 0..count
        invariant
            count == files.len(),
            views == scan_views(files@),
            found <= i,
            found == unverified_count(views.take(i as int)),
    {
        assert(views.take(i + 1).drop_last() == views.take(i as int));
        assert(views.take(i + 1).last() == files@[i as int]@);
        if files[i].audio.is_none() {
            found = found + 1;
        }
    }
    assert(views.take(count as int) == views);
    found
}

/// Whether one of the first `n` files lies in a directory.
pub open spec fn has_file(
    directory: Seq<path::PartView>,
    files: Seq<Seq<path::PartView>>,
    n: int,
) -> bool {
    exists|i: int| 0 <= i < n && path::parent_of(#[trigger] files[i]) == Some(directory)
}

/// Whether one of the first `n` files lies in a directory and is not removed.
pub open spec fn has_kept_file(
    directory: Seq<path::PartView>,
    files: Seq<Seq<path::PartView>>,
    removed: Set<Seq<path::PartView>>,
    n: int,
) -> bool {
    exists|i: int|
        0 <= i < n && path::parent_of(#[trigger] files[i]) == Some(directory) && !removed.contains(
            files[i],
        )
}

/// Whether a directory holds files, all of which are removed.
pub open spec fn is_redundant(
    directory: Seq<path::PartView>,
    files: Seq<Seq<path::PartView>>,
    removed: Set<Seq<path::PartView>>,
) -> bool {
    has_file(directory, files, files.len() as int) && !has_kept_file(
        directory,
        files,
        removed,
        files.len() as int,
    )
}

proof fn lemma_next_file(
    directory: Seq<path::PartView>,
    files: Seq<Seq<path::PartView>>,
    removed: Set<Seq<path::PartView>>,
    n: int,
)
    requires
        0 <= n < files.len(),
    ensures
        has_file(directory, files, n + 1) == (has_file(directory, files, n) || path::parent_of(
            files[n],
        ) == Some(directory)),
        has_kept_file(directory, files, removed, n + 1) == (has_kept_file(
            directory,
            files,
            removed,
            n,
        ) || (path::parent_of(files[n]) == Some(directory) && !removed.contains(files[n]))),
{
    if has_file(directory, files, n) {
        let i = choose|i: int|
            0 <= i < n && path::parent_of(#[trigger] files[i]) == Some(directory);
        assert(0 <= i < n + 1 && path::parent_of(files[i]) == Some(directory));
    }
    if has_kept_file(directory, files, removed, n) {
        let i = choose|i: int|
            0 <= i < n && path::parent_of(#[trigger] files[i]) == Some(directory)
                && !removed.contains(files[i]);
        assert(0 <= i < n + 1 && path::parent_of(files[i]) == Some(directory));
    }
}

/// The directories that hold files, all of which are removed, in ascending
/// order.
pub fn redundant_album_dirs(files: &Vec<FilePath>, removals: &PathSet) -> (res: Vec<FilePath>)
    ensures
        pathset::is_ascending(path::path_views(res@)),
        forall|directory: Seq<path::PartView>| #[trigger]
            path::path_views(res@).contains(directory) <==> is_redundant(
                directory,
                path::path_views(files@),
                removals@,
            ),
{
    let count = files.len();
    let ghost views = path::path_views(files@);
    let mut occupied = PathSet::new();
    for i in 0..count
        invariant
            count == files.len(),
            views == path::path_views(files@),
            forall|d: Seq<path::PartView>| #[trigger]
                occupied@.contains(d) <==> has_kept_file(d, views, removals@, i as int),
    {
        let ghost before = occupied@;
        assert(views[i as int] == files@[i as int]@);
        if !removals.contains(&files[i]) {
            if let Some(parent) = files[i].parent() {
                occupied.insert(parent);
            }
        }
        assert forall|d: Seq<path::PartView>| #[trigger]
            occupied@.contains(d) <==> has_kept_file(d, views, removals@, i + 1) by {
            lemma_next_file(d, views, removals@, i as int);
            assert(before.contains(d) <==> has_kept_file(d, views, removals@, i as int));
        }
    }
    let mut found: Vec<FilePath> = Vec::new();
    assert(path::path_views(found@) =~= Seq::empty());
    for i in 0..count
        invariant
            count == files.len(),
            views == path::path_views(files@),
            forall|d: Seq<path::PartView>| #[trigger]
                path::path_views(found@).contains(d) <==> !occupied@.contains(d) && has_file(
                    d,
                    views,
                    i as int,
                ),
    {
        let ghost before = path::path_views(found@);
        assert(views[i as int] == files@[i as int]@);
        let parent = files[i].parent();
        let ghost parent_view = path::path_opt(parent);
        let mut listed = false;
        if let Some(parent) = parent {
            if !occupied.contains(&parent) {
                found.push(parent);
                listed = true;
                assert(path::path_views(found@) =~= before.push(parent@));
            }
        }
        assert forall|d: Seq<path::PartView>| #[trigger]
            path::path_views(found@).contains(d) <==> !occupied@.contains(d) && has_file(
                d,
                views,
                i + 1,
            ) by {
            lemma_next_file(d, views, removals@, i as int);
            assert(before.contains(d) <==> !occupied@.contains(d) && has_file(d, views, i as int));
            if listed {
                pathset::lemma_push_contains(before, parent_view.unwrap(), d);
            }
        }
    }
    let res = sorted_unique(found);
    assert forall|d: Seq<path::PartView>| #[trigger]
        path::path_views(res@).contains(d) <==> is_redundant(d, views, removals@) by {
        assert(path::path_views(found@).contains(d) <==> !occupied@.contains(d) && has_file(
            d,
            views,
            count as int,
        ));
    }
    res
}

/// What removing duplicates comes to.
#[derive(Debug)]
pub struct DedupePlan {
    pub groups: Vec<DuplicateGroup>,
    /// The files to remove.
    pub removals: Vec<FilePath>,
    /// The directories that are left without files.
    pub redundant: Vec<FilePath>,
    /// How many files have no fingerprint.
    pub unverified: usize,
}

fn paths_of(files: &Vec<ScannedFile>) -> (res: Vec<FilePath>)
    ensures
        path::path_views(res@) == scan_paths(scan_views(files@)),
{
    let mut res: Vec<FilePath> = Vec::new();
    let count = files.len();
    let ghost all = scan_paths(scan_views(files@));
    assert(path::path_views(res@) =~= all.take(0));
    for i in 0..count
        invariant
            count == files.len() == all.len(),
            all == scan_paths(scan_views(files@)),
            path::path_views(res@) == all.take(i as int),
    {
        let ghost before = path::path_views(res@);
        res.push(files[i].path.clone());
        assert(path::path_views(res@) =~= before.push(all[i as int]));
        assert(all.take(i + 1) =~= all.take(i as int).push(all[i as int]));
    }
    assert(all.take(count as int) == all);
    res
}

/// What removing duplicates comes to. The files are given in ascending order.
pub fn plan_dedupe(server: &FilePath, files: &Vec<ScannedFile>) -> (res: DedupePlan)
    ensures
        group_views(res.groups@) == duplicate_groups(server@, scan_views(files@)),
        path::path_views(res.removals@) == removals(duplicate_groups(server@, scan_views(files@))),
        pathset::is_ascending(path::path_views(res.redundant@)),
        forall|directory: Seq<path::PartView>| #[trigger]
            path::path_views(res.redundant@).contains(directory) <==> is_redundant(
                directory,
                scan_paths(scan_views(files@)),
                removals(duplicate_groups(server@, scan_views(files@))).to_set(),
            ),
        res.unverified == unverified_count(scan_views(files@)),
{
    let groups = find_duplicates(server, files);
    let removals = files_to_remove(&groups);
    let redundant = redundant_album_dirs(&paths_of(files), &PathSet::from_paths(&removals));
    DedupePlan { groups, removals, redundant, unverified: count_unverified(files) }
}

/// Whether two files have the same audio.
pub open spec fn same_audio(a: ScanView, b: ScanView) -> bool {
    a.audio matches Some((fingerprint, _)) && sounds_like(b, fingerprint)
}

/// Whether `a` is kept rather than `b`: it is where it belongs and `b` is not,
/// or its path comes first.
pub open spec fn is_preferred(server: Seq<path::PartView>, a: ScanView, b: ScanView) -> bool {
    if is_in_place(server, a) == is_in_place(server, b) {
        path::path_before(a.path, b.path)
    } else {
        is_in_place(server, a)
    }
}

/// Whether another file with the same audio is preferred to a file.
pub open spec fn is_duplicate(server: Seq<path::PartView>, files: Seq<ScanView>, i: int) -> bool {
    exists|j: int|
        0 <= j < files.len() && same_audio(files[i], #[trigger] files[j]) && is_preferred(
            server,
            files[j],
            files[i],
        )
}

proof fn lemma_filtered(files: Seq<ScanView>, wanted: spec_fn(ScanView) -> bool)
    requires
        pathset::is_ascending(scan_paths(files)),
    ensures
        ({
            let kept = files.filter(wanted);
            &&& pathset::is_ascending(scan_paths(kept))
            &&& forall|k: int|
                0 <= k < kept.len() ==> wanted(#[trigger] kept[k]) && files.contains(kept[k])
            &&& forall|i: int|
                0 <= i < files.len() && wanted(#[trigger] files[i]) ==> kept.contains(files[i])
        }),
    decreases files.len(),
{
    reveal(Seq::filter);
    let kept = files.filter(wanted);
    if files.len() > 0 {
        let rest = files.drop_last();
        let before = rest.filter(wanted);
        let paths = scan_paths(files);
        assert forall|i: int, j: int| 0 <= i < j < rest.len() implies path::path_before(
            #[trigger] scan_paths(rest)[i],
            #[trigger] scan_paths(rest)[j],
        ) by {
            assert(path::path_before(paths[i], paths[j]));
        }
        lemma_filtered(rest, wanted);
        assert forall|k: int| 0 <= k < kept.len() implies wanted(#[trigger] kept[k])
            && files.contains(kept[k]) by {
            if k < before.len() {
                assert(kept[k] == before[k]);
                assert(wanted(before[k]) && rest.contains(before[k]));
                let i = choose|i: int| 0 <= i < rest.len() && rest[i] == before[k];
                assert(files[i] == kept[k]);
            } else {
                assert(kept[k] == files[files.len() - 1]);
            }
        }
        assert forall|i: int| 0 <= i < files.len() && wanted(#[trigger] files[i]) implies kept.contains(
            files[i],
        ) by {
            if i < rest.len() {
                assert(before.contains(rest[i]));
                let k = choose|k: int| 0 <= k < before.len() && before[k] == rest[i];
                assert(kept[k] == files[i]);
            } else {
                assert(kept[before.len() as int] == files[i]);
            }
        }
        assert forall|k: int, l: int| 0 <= k < l < kept.len() implies path::path_before(
            #[trigger] scan_paths(kept)[k],
            #[trigger] scan_paths(kept)[l],
        ) by {
            if l < before.len() {
                assert(path::path_before(scan_paths(before)[k], scan_paths(before)[l]));
            } else {
                assert(kept[k] == before[k]);
                assert(wanted(before[k]) && rest.contains(before[k]));
                let i = choose|i: int| 0 <= i < rest.len() && rest[i] == before[k];
                assert(files[i] == kept[k]);
                assert(path::path_before(paths[i], paths[files.len() - 1]));
            }
        }
    }
}

/// Files with the same audio are listed by preference, each once, and the list
/// holds exactly the files with that audio.
pub proof fn law_members_are_ranked(
    server: Seq<path::PartView>,
    files: Seq<ScanView>,
    fingerprint: encoding::FingerprintView,
)
    requires
        pathset::is_ascending(scan_paths(files)),
    ensures
        ({
            let list = members(server, files, fingerprint);
            &&& forall|k: int|
                0 <= k < list.len() ==> sounds_like(#[trigger] list[k], fingerprint)
                    && files.contains(list[k])
            &&& forall|i: int|
                0 <= i < files.len() && sounds_like(#[trigger] files[i], fingerprint)
                    ==> list.contains(files[i])
            &&& forall|k: int, l: int|
                0 <= k < l < list.len() ==> is_preferred(server, #[trigger] list[k], #[trigger] list[l])
        }),
{
    let list = members(server, files, fingerprint);
    let first = members_where(server, files, fingerprint, true);
    let second = members_where(server, files, fingerprint, false);
    let in_first = |file: ScanView| sounds_like(file, fingerprint) && is_in_place(server, file) == true;
    let in_second = |file: ScanView|
        sounds_like(file, fingerprint) && is_in_place(server, file) == false;
    lemma_filtered(files, in_first);
    lemma_filtered(files, in_second);
    assert(first == files.filter(in_first));
    assert(second == files.filter(in_second));
    assert forall|k: int| 0 <= k < list.len() implies sounds_like(#[trigger] list[k], fingerprint)
        && files.contains(list[k]) && is_in_place(server, list[k]) == (k < first.len()) by {
        if k < first.len() {
            assert(list[k] == first[k]);
            assert(in_first(first[k]));
        } else {
            assert(list[k] == second[k - first.len()]);
            assert(in_second(second[k - first.len()]));
        }
    }
    assert forall|i: int| 0 <= i < files.len() && sounds_like(
        #[trigger] files[i],
        fingerprint,
    ) implies list.contains(files[i]) by {
        if is_in_place(server, files[i]) {
            assert(in_first(files[i]));
            let k = choose|k: int| 0 <= k < first.len() && first[k] == files[i];
            assert(list[k] == files[i]);
        } else {
            assert(in_second(files[i]));
            let k = choose|k: int| 0 <= k < second.len() && second[k] == files[i];
            assert(list[first.len() + k] == files[i]);
        }
    }
    assert forall|k: int, l: int| 0 <= k < l < list.len() implies is_preferred(
        server,
        #[trigger] list[k],
        #[trigger] list[l],
    ) by {
        if l < first.len() {
            assert(path::path_before(scan_paths(first)[k], scan_paths(first)[l]));
        } else if k >= first.len() {
            let m = k - first.len();
            let n = l - first.len();
            assert(path::path_before(scan_paths(second)[m], scan_paths(second)[n]));
        }
    }
}

proof fn lemma_preference_is_asymmetric(server: Seq<path::PartView>, a: ScanView, b: ScanView)
    requires
        is_preferred(server, a, b),
    ensures
        !is_preferred(server, b, a),
        a.path != b.path || is_in_place(server, a) != is_in_place(server, b),
{
    path::law_path_order_is_strict();
    let less = order::lexical_order(path::part_order());
    if is_in_place(server, a) == is_in_place(server, b) {
        assert(less(a.path, b.path));
        assert(!less(a.path, a.path));
        if less(b.path, a.path) {
            assert(less(a.path, b.path) && less(b.path, a.path));
        }
    }
}

proof fn lemma_paths_tell_files_apart(files: Seq<ScanView>, i: int, j: int)
    requires
        pathset::is_ascending(scan_paths(files)),
        0 <= i < files.len(),
        0 <= j < files.len(),
        files[i].path == files[j].path,
    ensures
        i == j,
{
    path::law_path_order_is_strict();
    let less = order::lexical_order(path::part_order());
    let paths = scan_paths(files);
    assert(!less(paths[i], paths[i]));
    if i < j {
        assert(path::path_before(paths[i], paths[j]));
    } else if j < i {
        assert(path::path_before(paths[j], paths[i]));
    }
}

/// Whether a file keeps a group in which a path is a duplicate.
spec fn removes(
    server: Seq<path::PartView>,
    files: Seq<ScanView>,
    k: int,
    p: Seq<path::PartView>,
) -> bool {
    match kept_group(server, files, k) {
        Some(group) => group.duplicates.contains(p),
        None => false,
    }
}

/// Whether one of the first `n` files keeps such a group.
spec fn is_removed_by(
    server: Seq<path::PartView>,
    files: Seq<ScanView>,
    n: int,
    p: Seq<path::PartView>,
) -> bool
    decreases n,
{
    n > 0 && (is_removed_by(server, files, n - 1, p) || removes(server, files, n - 1, p))
}

proof fn lemma_removed_by(
    server: Seq<path::PartView>,
    files: Seq<ScanView>,
    n: int,
    p: Seq<path::PartView>,
) -> (k: int)
    ensures
        is_removed_by(server, files, n, p) ==> 0 <= k < n && removes(server, files, k, p),
        forall|m: int|
            0 <= m < n && #[trigger] removes(server, files, m, p) ==> is_removed_by(
                server,
                files,
                n,
                p,
            ),
    decreases n,
{
    if n <= 0 {
        0
    } else if removes(server, files, n - 1, p) {
        n - 1
    } else {
        let k = lemma_removed_by(server, files, n - 1, p);
        assert forall|m: int|
            0 <= m < n && #[trigger] removes(server, files, m, p) implies is_removed_by(
            server,
            files,
            n,
            p,
        ) by {
            assert(m < n - 1);
        }
        k
    }
}

proof fn lemma_one_more_group(before: Seq<GroupView>, group: GroupView, p: Seq<path::PartView>)
    ensures
        removals(before.push(group)).contains(p) == (removals(before).contains(p)
            || group.duplicates.contains(p)),
{
    let earlier = removals(before);
    let all = earlier + group.duplicates;
    assert(before.push(group).drop_last() =~= before);
    assert(removals(before.push(group)) == all);
    if earlier.contains(p) {
        let i = choose|i: int| 0 <= i < earlier.len() && earlier[i] == p;
        assert(all[i] == p);
    }
    if group.duplicates.contains(p) {
        let i = choose|i: int| 0 <= i < group.duplicates.len() && group.duplicates[i] == p;
        assert(all[earlier.len() + i] == p);
    }
    if all.contains(p) && !earlier.contains(p) {
        let i = choose|i: int| 0 <= i < all.len() && all[i] == p;
        if i < earlier.len() {
            assert(earlier[i] == p);
        }
        assert(group.duplicates[i - earlier.len()] == p);
    }
}

proof fn lemma_removals(
    server: Seq<path::PartView>,
    files: Seq<ScanView>,
    n: int,
    p: Seq<path::PartView>,
)
    ensures
        removals(groups_upto(server, files, n)).contains(p) == is_removed_by(server, files, n, p),
    decreases n,
{
    if n > 0 {
        lemma_removals(server, files, n - 1, p);
        if let Some(group) = kept_group(server, files, n - 1) {
            lemma_one_more_group(groups_upto(server, files, n - 1), group, p);
        }
    }
}

/// A file is removed exactly if another file with the same audio is preferred to
/// it. So a file without a fingerprint is never removed.
pub proof fn law_removed_files(server: Seq<path::PartView>, files: Seq<ScanView>, i: int)
    requires
        pathset::is_ascending(scan_paths(files)),
        0 <= i < files.len(),
    ensures
        removals(duplicate_groups(server, files)).contains(files[i].path) == is_duplicate(
            server,
            files,
            i,
        ),
        files[i].audio is None ==> !is_duplicate(server, files, i),
{
    let n = files.len() as int;
    let p = files[i].path;
    lemma_removals(server, files, n, p);
    let k = lemma_removed_by(server, files, n, p);
    if is_removed_by(server, files, n, p) {
        let fingerprint = files[k].audio.unwrap().0;
        let list = members(server, files, fingerprint);
        law_members_are_ranked(server, files, fingerprint);
        let rest = scan_paths(list).skip(1);
        let t = choose|t: int| 0 <= t < rest.len() && rest[t] == p;
        assert(list[t + 1].path == p);
        let j = choose|j: int| 0 <= j < files.len() && files[j] == list[t + 1];
        lemma_paths_tell_files_apart(files, i, j);
        let first = choose|f: int| 0 <= f < files.len() && files[f] == list[0];
        assert(is_preferred(server, list[0], list[t + 1]));
        assert(same_audio(files[i], files[first]));
    }
    if is_duplicate(server, files, i) {
        let j = choose|j: int|
            0 <= j < files.len() && same_audio(files[i], #[trigger] files[j]) && is_preferred(
                server,
                files[j],
                files[i],
            );
        let fingerprint = files[i].audio.unwrap().0;
        let list = members(server, files, fingerprint);
        law_members_are_ranked(server, files, fingerprint);
        assert(sounds_like(files[i], fingerprint));
        assert(list.contains(files[i]) && list.contains(files[j]));
        let t = choose|t: int| 0 <= t < list.len() && list[t] == files[i];
        let u = choose|u: int| 0 <= u < list.len() && list[u] == files[j];
        lemma_preference_is_asymmetric(server, files[j], files[i]);
        assert(t != u);
        if t == 0 {
            assert(is_preferred(server, list[t], list[u]));
        }
        let k = choose|k: int| 0 <= k < files.len() && files[k] == list[0];
        assert(scan_paths(list)[0] == files[k].path);
        let rest = scan_paths(list).skip(1);
        assert(rest[t - 1] == p);
        assert(kept_group(server, files, k) == Some(
            GroupView { keeper: scan_paths(list)[0], duplicates: rest },
        ));
        assert(removes(server, files, k, p));
    }
}

/// For every file that is removed, a file with the same audio is kept.
pub proof fn law_audio_is_kept(server: Seq<path::PartView>, files: Seq<ScanView>, i: int)
    requires
        pathset::is_ascending(scan_paths(files)),
        0 <= i < files.len(),
        is_duplicate(server, files, i),
    ensures
        exists|k: int|
            0 <= k < files.len() && same_audio(files[i], #[trigger] files[k]) && !is_duplicate(
                server,
                files,
                k,
            ),
{
    let fingerprint = files[i].audio.unwrap().0;
    let list = members(server, files, fingerprint);
    law_members_are_ranked(server, files, fingerprint);
    assert(sounds_like(files[i], fingerprint));
    assert(list.contains(files[i]));
    let k = choose|k: int| 0 <= k < files.len() && files[k] == list[0];
    assert(sounds_like(list[0], fingerprint));
    if is_duplicate(server, files, k) {
        let j = choose|j: int|
            0 <= j < files.len() && same_audio(files[k], #[trigger] files[j]) && is_preferred(
                server,
                files[j],
                files[k],
            );
        assert(list.contains(files[j]));
        let u = choose|u: int| 0 <= u < list.len() && list[u] == files[j];
        lemma_preference_is_asymmetric(server, files[j], files[k]);
        assert(u != 0);
        assert(is_preferred(server, list[0], list[u]));
    }
    assert(same_audio(files[i], files[k]));
}

/// Of two files with the same audio at least one is removed.
pub proof fn law_audio_is_kept_once(
    server: Seq<path::PartView>,
    files: Seq<ScanView>,
    i: int,
    j: int,
)
    requires
        pathset::is_ascending(scan_paths(files)),
        0 <= i < files.len(),
        0 <= j < files.len(),
        i != j,
        same_audio(files[i], files[j]),
    ensures
        is_duplicate(server, files, i) || is_duplicate(server, files, j),
{
    path::law_path_order_is_strict();
    let less = order::lexical_order(path::part_order());
    let paths = scan_paths(files);
    assert(same_audio(files[j], files[i]));
    if i < j {
        assert(path::path_before(paths[i], paths[j]));
    } else {
        assert(path::path_before(paths[j], paths[i]));
    }
    assert(is_preferred(server, files[i], files[j]) || is_preferred(server, files[j], files[i]));
}

/// The files kept by a list of groups.
pub open spec fn keepers(groups: Seq<GroupView>) -> Seq<Seq<path::PartView>> {
    groups.map_values(|group: GroupView| group.keeper)
}

/// Whether one of the first `n` files has a path.
spec fn is_path_among(files: Seq<ScanView>, n: int, p: Seq<path::PartView>) -> bool {
    exists|k: int| 0 <= k < n && (#[trigger] files[k]).path == p
}

proof fn lemma_groups_are_ordered(server: Seq<path::PartView>, files: Seq<ScanView>, n: int)
    requires
        pathset::is_ascending(scan_paths(files)),
        0 <= n <= files.len(),
    ensures
        pathset::is_ascending(keepers(groups_upto(server, files, n))),
        forall|g: int|
            0 <= g < groups_upto(server, files, n).len() ==> is_path_among(
                files,
                n,
                (#[trigger] groups_upto(server, files, n)[g]).keeper,
            ),
    decreases n,
{
    if n > 0 {
        lemma_groups_are_ordered(server, files, n - 1);
        let before = groups_upto(server, files, n - 1);
        let groups = groups_upto(server, files, n);
        assert forall|g: int| 0 <= g < groups.len() implies is_path_among(
            files,
            n,
            (#[trigger] groups[g]).keeper,
        ) by {
            if g < before.len() {
                assert(groups[g] == before[g]);
                let k = choose|k: int| 0 <= k < n - 1 && (#[trigger] files[k]).path == before[g].keeper;
                assert(files[k].path == groups[g].keeper);
            } else {
                assert(files[n - 1].path == groups[g].keeper);
            }
        }
        assert forall|g: int, h: int| 0 <= g < h < groups.len() implies path::path_before(
            #[trigger] keepers(groups)[g],
            #[trigger] keepers(groups)[h],
        ) by {
            assert(groups[g] == before[g]);
            if h < before.len() {
                assert(path::path_before(keepers(before)[g], keepers(before)[h]));
            } else {
                assert(is_path_among(files, n - 1, before[g].keeper));
                let k = choose|k: int| 0 <= k < n - 1 && (#[trigger] files[k]).path == before[g].keeper;
                assert(path::path_before(scan_paths(files)[k], scan_paths(files)[n - 1]));
            }
        }
    }
}

/// Groups are listed in the order of the files they keep.
pub proof fn law_groups_are_ordered(server: Seq<path::PartView>, files: Seq<ScanView>)
    requires
        pathset::is_ascending(scan_paths(files)),
    ensures
        pathset::is_ascending(keepers(duplicate_groups(server, files))),
{
    lemma_groups_are_ordered(server, files, files.len() as int);
}

proof fn lemma_group_is_distinct(server: Seq<path::PartView>, files: Seq<ScanView>, k: int)
    requires
        pathset::is_ascending(scan_paths(files)),
        0 <= k < files.len(),
    ensures
        kept_group(server, files, k) matches Some(group) ==> {
            &&& group.duplicates.no_duplicates()
            &&& forall|t: int|
                0 <= t < group.duplicates.len() ==> exists|i: int|
                    0 <= i < files.len() && #[trigger] files[i].path
                        == #[trigger] group.duplicates[t] && same_audio(files[k], files[i])
        },
{
    if let Some(group) = kept_group(server, files, k) {
        let fingerprint = files[k].audio.unwrap().0;
        let list = members(server, files, fingerprint);
        law_members_are_ranked(server, files, fingerprint);
        assert forall|t: int| 0 <= t < group.duplicates.len() implies exists|i: int|
            0 <= i < files.len() && #[trigger] files[i].path == #[trigger] group.duplicates[t]
                && same_audio(files[k], files[i]) by {
            assert(group.duplicates[t] == list[t + 1].path);
            assert(files.contains(list[t + 1]));
            let i = choose|i: int| 0 <= i < files.len() && files[i] == list[t + 1];
            assert(files[i].path == group.duplicates[t]);
        }
        assert forall|t: int, u: int|
            0 <= t < group.duplicates.len() && 0 <= u < group.duplicates.len() && t
                != u implies group.duplicates[t] != group.duplicates[u] by {
            let a = if t < u {
                t + 1
            } else {
                u + 1
            };
            let b = if t < u {
                u + 1
            } else {
                t + 1
            };
            assert(is_preferred(server, list[a], list[b]));
            if list[a].path == list[b].path {
                assert(files.contains(list[a]) && files.contains(list[b]));
                let i = choose|i: int| 0 <= i < files.len() && files[i] == list[a];
                let j = choose|j: int| 0 <= j < files.len() && files[j] == list[b];
                lemma_paths_tell_files_apart(files, i, j);
                lemma_preference_is_asymmetric(server, list[a], list[b]);
            }
            assert(group.duplicates[t] == list[t + 1].path);
            assert(group.duplicates[u] == list[u + 1].path);
        }
    }
}

proof fn lemma_removals_are_distinct(server: Seq<path::PartView>, files: Seq<ScanView>, n: int)
    requires
        pathset::is_ascending(scan_paths(files)),
        0 <= n <= files.len(),
    ensures
        removals(groups_upto(server, files, n)).no_duplicates(),
    decreases n,
{
    if n > 0 {
        lemma_removals_are_distinct(server, files, n - 1);
        let before = groups_upto(server, files, n - 1);
        if let Some(group) = kept_group(server, files, n - 1) {
            let earlier = removals(before);
            let all = earlier + group.duplicates;
            assert(before.push(group).drop_last() =~= before);
            assert(removals(groups_upto(server, files, n)) == all);
            lemma_group_is_distinct(server, files, n - 1);
            assert forall|t: int, u: int|
                0 <= t < earlier.len() && 0 <= u < group.duplicates.len() implies earlier[t]
                != group.duplicates[u] by {
                if earlier[t] == group.duplicates[u] {
                    let p = earlier[t];
                    assert(earlier.contains(p));
                    lemma_removals(server, files, n - 1, p);
                    let k = lemma_removed_by(server, files, n - 1, p);
                    lemma_group_is_distinct(server, files, k);
                    let other = kept_group(server, files, k).unwrap();
                    let v = choose|v: int| 0 <= v < other.duplicates.len() && other.duplicates[v] == p;
                    let i = choose|i: int|
                        0 <= i < files.len() && #[trigger] files[i].path == other.duplicates[v]
                            && same_audio(files[k], files[i]);
                    let j = choose|j: int|
                        0 <= j < files.len() && #[trigger] files[j].path == group.duplicates[u]
                            && same_audio(files[n - 1], files[j]);
                    lemma_paths_tell_files_apart(files, i, j);
                    lemma_paths_tell_files_apart(files, k, n - 1);
                }
            }
            assert forall|t: int, u: int|
                0 <= t < all.len() && 0 <= u < all.len() && t != u implies all[t] != all[u] by {
                if t < earlier.len() && u < earlier.len() {
                    assert(earlier[t] != earlier[u]);
                } else if t >= earlier.len() && u >= earlier.len() {
                    assert(group.duplicates[t - earlier.len()] != group.duplicates[u
                        - earlier.len()]);
                } else if t < earlier.len() {
                    assert(earlier[t] != group.duplicates[u - earlier.len()]);
                } else {
                    assert(earlier[u] != group.duplicates[t - earlier.len()]);
                }
            }
        }
    }
}

/// No file is removed twice.
pub proof fn law_removals_are_distinct(server: Seq<path::PartView>, files: Seq<ScanView>)
    requires
        pathset::is_ascending(scan_paths(files)),
    ensures
        removals(duplicate_groups(server, files)).no_duplicates(),
{
    lemma_removals_are_distinct(server, files, files.len() as int);
}

/// What is done about the files to remove, in order: each is removed with the
/// files that go with it.
pub open spec fn removal_actions(list: Seq<Seq<path::PartView>>) -> Seq<actions::ActionView>
    decreases list.len(),
{
    if list.len() == 0 {
        Seq::empty()
    } else {
        removal_actions(list.drop_last()) + seq![
            actions::ActionView::Remove { path: list.last() },
            actions::ActionView::RemoveIfPresent { path: sidecars::sidecar_path(list.last(), 0) },
            actions::ActionView::RemoveIfPresent { path: sidecars::sidecar_path(list.last(), 1) },
        ]
    }
}

/// What removing duplicates does, in order: files, then what goes with albums
/// that are left without files, then empty directories. A dry run does nothing.
pub open spec fn dedupe_actions(
    server: Seq<path::PartView>,
    removed: Seq<Seq<path::PartView>>,
    redundant: Seq<Seq<path::PartView>>,
    apply: bool,
) -> Seq<actions::ActionView> {
    if apply {
        removal_actions(removed) + redundant.map_values(
            |directory: Seq<path::PartView>| actions::ActionView::CleanAlbum { directory },
        ) + seq![actions::ActionView::RemoveEmptyDirectories { root: server }]
    } else {
        Seq::empty()
    }
}

/// What removing duplicates does, in order.
pub fn actions_of(
    server: &FilePath,
    removed: &Vec<FilePath>,
    redundant: &Vec<FilePath>,
    apply: bool,
) -> (res: Vec<Action>)
    ensures
        actions::action_views(res@) == dedupe_actions(
            server@,
            path::path_views(removed@),
            path::path_views(redundant@),
            apply,
        ),
{
    let mut res: Vec<Action> = Vec::new();
    assert(actions::action_views(res@) =~= Seq::empty());
    if !apply {
        return res;
    }
    let ghost removed_views = path::path_views(removed@);
    let count = removed.len();
    for i in 0..count
        invariant
            count == removed.len(),
            removed_views == path::path_views(removed@),
            actions::action_views(res@) == removal_actions(removed_views.take(i as int)),
    {
        let file = &removed[i];
        proof {
            assert(removed_views.take(i + 1).drop_last() == removed_views.take(i as int));
            assert(removed_views.take(i + 1).last() == file@);
        }
        push_action(&mut res, Action::Remove { path: file.clone() });
        push_action(&mut res, Action::RemoveIfPresent { path: track_sidecar(file, 0) });
        push_action(&mut res, Action::RemoveIfPresent { path: track_sidecar(file, 1) });
        assert(actions::action_views(res@) =~= removal_actions(removed_views.take(i + 1)));
    }
    assert(removed_views.take(count as int) == removed_views);
    let ghost first = actions::action_views(res@);
    let ghost cleaning = path::path_views(redundant@).map_values(
        |directory: Seq<path::PartView>| actions::ActionView::CleanAlbum { directory },
    );
    let total = redundant.len();
    assert(first + cleaning.take(0) =~= first);
    for i in 0..total
        invariant
            total == redundant.len() == cleaning.len(),
            cleaning == path::path_views(redundant@).map_values(
                |directory: Seq<path::PartView>| actions::ActionView::CleanAlbum { directory },
            ),
            actions::action_views(res@) == first + cleaning.take(i as int),
    {
        push_action(&mut res, Action::CleanAlbum { directory: redundant[i].clone() });
        assert(first + cleaning.take(i + 1) =~= (first + cleaning.take(i as int)).push(
            cleaning[i as int],
        ));
    }
    assert(cleaning.take(total as int) == cleaning);
    push_action(&mut res, Action::RemoveEmptyDirectories { root: server.clone() });
    assert(actions::action_views(res@) =~= dedupe_actions(
        server@,
        removed_views,
        path::path_views(redundant@),
        apply,
    ));
    res
}

/// Whether the whole path of a file, its name among it, is the one that its own
/// tags spell.
pub open spec fn has_its_own_name(server: Seq<path::PartView>, file: ScanView) -> bool {
    if file.audio is Some {
        file.path == audio::filed_path(
            server,
            file.audio.unwrap().1,
            seq!['.', 'f', 'l', 'a', 'c'],
        )
    } else {
        false
    }
}

proof fn lemma_flac_ending()
    ensures
        ".flac"@ == seq!['.', 'f', 'l', 'a', 'c'],
        !".flac"@.contains('/'),
{
    reveal_strlit(".flac");
    assert(".flac"@ =~= seq!['.', 'f', 'l', 'a', 'c']);
}

/// A file is in place exactly if its path is the one that its tags spell. Of two
/// files with the same tags and different paths at most one is in place.
pub proof fn law_in_place(server: Seq<path::PartView>, file: ScanView, other: ScanView)
    ensures
        is_in_place(server, file) <==> has_its_own_name(server, file),
        file.audio is Some && other.audio is Some && file.audio.unwrap().1
            == other.audio.unwrap().1 && file.path != other.path ==> !(is_in_place(server, file)
            && is_in_place(server, other)),
{
    lemma_flac_ending();
    if let Some((_, track)) = file.audio {
        audio::law_filed_path(server, track, ".flac"@);
    }
    if let Some((_, track)) = other.audio {
        audio::law_filed_path(server, track, ".flac"@);
    }
}

/// Of the files with the same audio, a file is removed exactly if one with the
/// path that its tags spell is there and this one has not its own, or if a file
/// that is like it in this comes before it.
pub proof fn law_removed_by_name(server: Seq<path::PartView>, files: Seq<ScanView>, i: int)
    requires
        pathset::is_ascending(scan_paths(files)),
        0 <= i < files.len(),
    ensures
        removals(duplicate_groups(server, files)).contains(files[i].path) <==> exists|j: int|
            0 <= j < files.len() && files[i].audio is Some && (#[trigger] files[j]).audio is Some
                && files[i].audio.unwrap().0 == files[j].audio.unwrap().0 && if has_its_own_name(
                server,
                files[j],
            ) == has_its_own_name(server, files[i]) {
                j < i
            } else {
                has_its_own_name(server, files[j])
            },
{
    law_removed_files(server, files, i);
    law_in_place(server, files[i], files[i]);
    let paths = scan_paths(files);
    path::law_path_order_is_strict();
    let less = order::lexical_order(path::part_order());
    assert forall|j: int| 0 <= j < files.len() implies {
        &&& is_in_place(server, #[trigger] files[j]) == has_its_own_name(server, files[j])
        &&& path::path_before(files[j].path, files[i].path) == (j < i)
        &&& same_audio(files[i], files[j]) == (files[i].audio is Some && files[j].audio is Some
            && files[i].audio.unwrap().0 == files[j].audio.unwrap().0)
    } by {
        law_in_place(server, files[j], files[i]);
        if j < i {
            assert(path::path_before(paths[j], paths[i]));
        } else if i < j {
            assert(path::path_before(paths[i], paths[j]));
            if less(paths[j], paths[i]) {
                assert(less(paths[i], paths[j]) && less(paths[j], paths[i]));
            }
        } else {
            assert(!less(paths[i], paths[i]));
        }
    }
    if is_duplicate(server, files, i) {
        let j = choose|j: int|
            0 <= j < files.len() && same_audio(files[i], #[trigger] files[j]) && is_preferred(
                server,
                files[j],
                files[i],
            );
        assert(files[j].audio is Some);
    }
    if exists|j: int|
        0 <= j < files.len() && files[i].audio is Some && (#[trigger] files[j]).audio is Some
            && files[i].audio.unwrap().0 == files[j].audio.unwrap().0 && if has_its_own_name(
            server,
            files[j],
        ) == has_its_own_name(server, files[i]) {
            j < i
        } else {
            has_its_own_name(server, files[j])
        } {
        let j = choose|j: int|
            0 <= j < files.len() && files[i].audio is Some && (#[trigger] files[j]).audio is Some
                && files[i].audio.unwrap().0 == files[j].audio.unwrap().0 && if has_its_own_name(
                server,
                files[j],
            ) == has_its_own_name(server, files[i]) {
                j < i
            } else {
                has_its_own_name(server, files[j])
            };
        assert(same_audio(files[i], files[j]) && is_preferred(server, files[j], files[i]));
    }
}

/// If of two files with the same audio one has the path that its tags spell and the
/// other has not, the other is removed; and the first is kept, if no file before it
/// with that audio has the path that its tags spell.
pub proof fn law_file_under_its_name_is_kept(
    server: Seq<path::PartView>,
    files: Seq<ScanView>,
    i: int,
    j: int,
    fingerprint: encoding::FingerprintView,
    track: audio::TrackView,
    other: audio::TrackView,
)
    requires
        pathset::is_ascending(scan_paths(files)),
        0 <= i < files.len(),
        0 <= j < files.len(),
        files[i].audio == Some((fingerprint, track)),
        files[j].audio == Some((fingerprint, other)),
        files[i].path == audio::filed_path(server, track, ".flac"@),
        files[j].path != audio::filed_path(server, other, ".flac"@),
    ensures
        removals(duplicate_groups(server, files)).contains(files[j].path),
        (forall|k: int|
            0 <= k < i && (#[trigger] files[k]).audio is Some && files[k].audio.unwrap().0
                == fingerprint ==> files[k].path != audio::filed_path(
                server,
                files[k].audio.unwrap().1,
                ".flac"@,
            )) ==> !removals(duplicate_groups(server, files)).contains(files[i].path),
{
    lemma_flac_ending();
    assert(has_its_own_name(server, files[i]));
    assert(!has_its_own_name(server, files[j]));
    law_removed_by_name(server, files, i);
    law_removed_by_name(server, files, j);
    assert(files[i].audio is Some && files[j].audio is Some);
    if removals(duplicate_groups(server, files)).contains(files[i].path) {
        let k = choose|k: int|
            0 <= k < files.len() && files[i].audio is Some && (#[trigger] files[k]).audio is Some
                && files[i].audio.unwrap().0 == files[k].audio.unwrap().0 && if has_its_own_name(
                server,
                files[k],
            ) == has_its_own_name(server, files[i]) {
                k < i
            } else {
                has_its_own_name(server, files[k])
            };
        assert(k < i && has_its_own_name(server, files[k]));
    }
}

/// Files without a fingerprint are counted one by one.
pub proof fn law_unverified_files_are_counted(
    a: Seq<ScanView>,
    b: Seq<ScanView>,
    file: ScanView,
)
    ensures
        unverified_count(a + b) == unverified_count(a) + unverified_count(b),
        unverified_count(seq![file]) == if file.audio is Some {
            0nat
        } else {
            1
        },
    decreases b.len(),
{
    let one = seq![file];
    assert(one.drop_last() =~= Seq::empty());
    assert(unverified_count(one.drop_last()) == 0);
    assert(one.last() == file);
    if b.len() == 0 {
        assert(a + b =~= a);
    } else {
        law_unverified_files_are_counted(a, b.drop_last(), file);
        assert((a + b).drop_last() =~= a + b.drop_last());
        assert((a + b).last() == b.last());
    }
}

/// A directory is redundant exactly if files lie in it and each of these is removed.
pub proof fn law_redundant_directories(
    directory: Seq<path::PartView>,
    files: Seq<Seq<path::PartView>>,
    removed: Set<Seq<path::PartView>>,
)
    requires
        forall|i: int|
            0 <= i < files.len() ==> (#[trigger] files[i]).len() > 0 && files[i].last() is Name,
    ensures
        is_redundant(directory, files, removed) <==> {
            &&& exists|i: int| 0 <= i < files.len() && (#[trigger] files[i]).drop_last() == directory
            &&& forall|i: int|
                0 <= i < files.len() && (#[trigger] files[i]).drop_last() == directory
                    ==> removed.contains(files[i])
        },
{
    assert forall|i: int| 0 <= i < files.len() implies (path::parent_of(#[trigger] files[i]) == Some(
        directory,
    )) == (files[i].drop_last() == directory) by {
        path::law_parent_and_name(files[i]);
        let name = files[i].last()->Name_0;
        assert(files[i].drop_last().push(path::PartView::Name(name)) =~= files[i]);
    }
}

/// What removing duplicates does, position by position: each file that is not kept
/// is removed, and then its two companions; then each redundant directory is
/// cleaned; then empty directories below the library are removed, and nothing else
/// is done. A dry run does nothing.
pub proof fn law_removals_are_carried_out(
    server: Seq<path::PartView>,
    removed: Seq<Seq<path::PartView>>,
    redundant: Seq<Seq<path::PartView>>,
    i: int,
)
    ensures
        dedupe_actions(server, removed, redundant, false).len() == 0,
        ({
            let list = dedupe_actions(server, removed, redundant, true);
            let n = removed.len();
            &&& list.len() == 3 * n + redundant.len() + 1
            &&& 0 <= i < n ==> {
                &&& list[3 * i] == actions::ActionView::Remove { path: removed[i] }
                &&& list[3 * i + 1] is RemoveIfPresent
                &&& list[3 * i + 1]->RemoveIfPresent_path == sidecars::sidecar_path(removed[i], 0)
                &&& list[3 * i + 2] is RemoveIfPresent
                &&& list[3 * i + 2]->RemoveIfPresent_path == sidecars::sidecar_path(removed[i], 1)
            }
            &&& 0 <= i < redundant.len() ==> list[3 * n + i] is CleanAlbum && list[3 * n
                + i]->directory == redundant[i]
            &&& list.last() is RemoveEmptyDirectories && list.last()->root == server
        }),
{
    lemma_removal_actions(removed, i);
}

proof fn lemma_removal_actions(removed: Seq<Seq<path::PartView>>, i: int)
    ensures
        removal_actions(removed).len() == 3 * removed.len(),
        0 <= i < removed.len() ==> {
            let list = removal_actions(removed);
            &&& list[3 * i] is Remove
            &&& list[3 * i]->Remove_path == removed[i]
            &&& list[3 * i + 1] is RemoveIfPresent
            &&& list[3 * i + 1]->RemoveIfPresent_path == sidecars::sidecar_path(removed[i], 0)
            &&& list[3 * i + 2] is RemoveIfPresent
            &&& list[3 * i + 2]->RemoveIfPresent_path == sidecars::sidecar_path(removed[i], 1)
        },
    decreases removed.len(),
{
    if removed.len() > 0 {
        lemma_removal_actions(removed.drop_last(), i);
    }
}

/// Only files of the library are removed: each one is in a group, with the file that
/// is kept, which has the same audio and is not removed.
pub proof fn law_group_is_one_recording(
    server: Seq<path::PartView>,
    files: Seq<ScanView>,
    n: int,
    g: int,
)
    requires
        pathset::is_ascending(scan_paths(files)),
        0 <= n <= files.len(),
        0 <= g < groups_upto(server, files, n).len(),
    ensures
        ({
            let group = groups_upto(server, files, n)[g];
            exists|k: int|
                0 <= k < n && (#[trigger] files[k]).path == group.keeper && files[k].audio is Some
                    && !is_duplicate(server, files, k) && forall|p: Seq<path::PartView>| #[trigger]
                    group.duplicates.contains(p) <==> exists|i: int|
                        0 <= i < files.len() && i != k && (#[trigger] files[i]).path == p
                            && files[i].audio is Some && files[i].audio.unwrap().0
                            == files[k].audio.unwrap().0
        }),
    decreases n,
{
    let before = groups_upto(server, files, n - 1);
    let group = groups_upto(server, files, n)[g];
    if g < before.len() {
        law_group_is_one_recording(server, files, n - 1, g);
    } else {
        let k = n - 1;
        let fingerprint = files[k].audio.unwrap().0;
        let list = members(server, files, fingerprint);
        law_members_are_ranked(server, files, fingerprint);
        assert(files.contains(list[0]));
        let first = choose|f: int| 0 <= f < files.len() && files[f] == list[0];
        assert(scan_paths(list)[0] == list[0].path);
        lemma_paths_tell_files_apart(files, first, k);
        if is_duplicate(server, files, k) {
            let j = choose|j: int|
                0 <= j < files.len() && same_audio(files[k], #[trigger] files[j]) && is_preferred(
                    server,
                    files[j],
                    files[k],
                );
            assert(list.contains(files[j]));
            let u = choose|u: int| 0 <= u < list.len() && list[u] == files[j];
            lemma_preference_is_asymmetric(server, files[j], files[k]);
            assert(u != 0);
            assert(is_preferred(server, list[0], list[u]));
        }
        assert forall|p: Seq<path::PartView>| #[trigger]
            group.duplicates.contains(p) <==> exists|i: int|
                0 <= i < files.len() && i != k && (#[trigger] files[i]).path == p
                    && files[i].audio is Some && files[i].audio.unwrap().0
                    == files[k].audio.unwrap().0 by {
            if group.duplicates.contains(p) {
                let t = choose|t: int| 0 <= t < group.duplicates.len() && group.duplicates[t] == p;
                assert(group.duplicates[t] == list[t + 1].path);
                assert(sounds_like(list[t + 1], fingerprint) && files.contains(list[t + 1]));
                let i = choose|i: int| 0 <= i < files.len() && files[i] == list[t + 1];
                assert(is_preferred(server, list[0], list[t + 1]));
                lemma_preference_is_asymmetric(server, list[0], list[t + 1]);
                assert(files[i].path == p);
            }
            if exists|i: int|
                0 <= i < files.len() && i != k && (#[trigger] files[i]).path == p
                    && files[i].audio is Some && files[i].audio.unwrap().0
                    == files[k].audio.unwrap().0 {
                let i = choose|i: int|
                    0 <= i < files.len() && i != k && (#[trigger] files[i]).path == p
                        && files[i].audio is Some && files[i].audio.unwrap().0
                        == files[k].audio.unwrap().0;
                assert(sounds_like(files[i], fingerprint));
                assert(list.contains(files[i]));
                let t = choose|t: int| 0 <= t < list.len() && list[t] == files[i];
                if t == 0 {
                    lemma_paths_tell_files_apart(files, i, k);
                }
                assert(group.duplicates[t - 1] == p);
            }
        }
        assert(files[k].path == group.keeper);
    }
}

/// Files are removed group by group, in the order of the groups and of the files in
/// them.
pub proof fn law_groups_are_removed_in_order(
    a: Seq<GroupView>,
    b: Seq<GroupView>,
    group: GroupView,
)
    ensures
        removals(a + b) == removals(a) + removals(b),
        removals(seq![group]) == group.duplicates,
        removals(Seq::empty()) == Seq::<Seq<path::PartView>>::empty(),
    decreases b.len(),
{
    let one = seq![group];
    let none = Seq::<Seq<path::PartView>>::empty();
    assert(one.drop_last() =~= Seq::empty());
    assert(removals(one.drop_last()) =~= none);
    assert(one.last() == group);
    assert(none + group.duplicates =~= group.duplicates);
    if b.len() == 0 {
        assert(a + b =~= a);
        assert(removals(a) + none =~= removals(a));
    } else {
        law_groups_are_removed_in_order(a, b.drop_last(), group);
        assert((a + b).drop_last() =~= a + b.drop_last());
        assert((a + b).last() == b.last());
        assert(removals(a) + removals(b.drop_last()) + b.last().duplicates =~= removals(a) + (
        removals(b.drop_last()) + b.last().duplicates));
    }
}

} // verus!
