//! What is picked from a walk through a directory.

use vstd::prelude::*;

use crate::encoding;
use crate::encoding::{is_flac, is_supported_audio};
use crate::path;
use crate::path::FilePath;
use crate::pathset;
use crate::pathset::sorted_unique;

verus! {

/// What stands at a path.
#[derive(Debug, Clone, Copy, PartialEq, Eq)]
pub enum FileKind {
    File,
    Directory,
    Other,
}

/// One step of a walk through a directory.
#[derive(Debug)]
pub enum WalkStep {
    Found(FilePath, FileKind),
    /// Something may not be read, and is passed over.
    Denied,
    /// The walk cannot go on.
    Failed,
}

/// One step of a walk through a directory, by its content.
pub enum WalkStepView {
    Found(Seq<path::PartView>, FileKind),
    Denied,
    Failed,
}

impl View for WalkStep {
    type V = WalkStepView;

    open spec fn view(&self) -> WalkStepView {
        match self {
            WalkStep::Found(path, kind) => WalkStepView::Found(path@, *kind),
            WalkStep::Denied => WalkStepView::Denied,
            WalkStep::Failed => WalkStepView::Failed,
        }
    }
}

/// The contents of a list of steps.
pub open spec fn step_views(steps: Seq<WalkStep>) -> Seq<WalkStepView> {
    steps.map_values(|step: WalkStep| step@)
}

/// Which files are picked.
#[derive(Debug, Clone, Copy, PartialEq, Eq)]
pub enum FileFilter {
    Flac,
    Audio,
}

/// Whether a file is picked.
pub open spec fn is_picked(filter: FileFilter, path: Seq<path::PartView>) -> bool {
    match filter {
        FileFilter::Flac => encoding::is_flac_path(path),
        FileFilter::Audio => encoding::is_audio_path(path),
    }
}

/// Whether a file is picked.
pub fn picks(filter: FileFilter, path: &FilePath) -> (res: bool)
    ensures
        res == is_picked(filter, path@),
{
    match filter {
        FileFilter::Flac => is_flac(path),
        FileFilter::Audio => is_supported_audio(path),
    }
}

/// The walk could not be finished.
#[derive(Debug, Clone, Copy, PartialEq, Eq)]
pub struct WalkFailed;

/// The files picked from a walk, in the order of the walk, unless it failed.
pub open spec fn picked_files(steps: Seq<WalkStepView>, filter: FileFilter) -> Option<
    Seq<Seq<path::PartView>>,
>
    decreases steps.len(),
{
    if steps.len() == 0 {
        Some(Seq::empty())
    } else {
        match picked_files(steps.drop_last(), filter) {
            Some(files) => match steps.last() {
                WalkStepView::Found(path, FileKind::File) => if is_picked(filter, path) {
                    Some(files.push(path))
                } else {
                    Some(files)
                },
                WalkStepView::Failed => None,
                _ => Some(files),
            },
            None => None,
        }
    }
}

/// The directories met on a walk, in the order of the walk, unless it failed.
pub open spec fn met_directories(steps: Seq<WalkStepView>) -> Option<Seq<Seq<path::PartView>>>
    decreases steps.len(),
{
    if steps.len() == 0 {
        Some(Seq::empty())
    } else {
        match met_directories(steps.drop_last()) {
            Some(directories) => match steps.last() {
                WalkStepView::Found(path, FileKind::Directory) => Some(directories.push(path)),
                WalkStepView::Failed => None,
                _ => Some(directories),
            },
            None => None,
        }
    }
}

proof fn lemma_failed_walk(steps: Seq<WalkStepView>, filter: FileFilter, n: int)
    requires
        0 <= n <= steps.len(),
    ensures
        picked_files(steps.take(n), filter) is None ==> picked_files(steps, filter) is None,
        met_directories(steps.take(n)) is None ==> met_directories(steps) is None,
    decreases steps.len(),
{
    if n < steps.len() {
        lemma_failed_walk(steps.drop_last(), filter, n);
        assert(steps.drop_last().take(n) =~= steps.take(n));
    } else {
        assert(steps.take(n) =~= steps);
    }
}

/// The files picked from a walk, in the order of the walk.
pub fn collect_files_recursive(steps: &Vec<WalkStep>, filter: FileFilter) -> (res: Result<
    Vec<FilePath>,
    WalkFailed,
>)
    ensures
        match res {
            Ok(files) => picked_files(step_views(steps@), filter) == Some(path::path_views(files@)),
            Err(_) => picked_files(step_views(steps@), filter) is None,
        },
{
    let mut files: Vec<FilePath> = Vec::new();
    let count = steps.len();
    let ghost views = step_views(steps@);
    assert(path::path_views(files@) =~= Seq::empty());
    for i in 0..count
        invariant
            count == steps.len(),
            views == step_views(steps@),
            picked_files(views.take(i as int), filter) == Some(path::path_views(files@)),
    {
        proof {
            assert(views.take(i + 1).drop_last() == views.take(i as int));
            assert(views.take(i + 1).last() == steps@[i as int]@);
            lemma_failed_walk(views, filter, i + 1);
        }
        match &steps[i] {
            WalkStep::Found(path, FileKind::File) => {
                if picks(filter, path) {
                    let ghost before = path::path_views(files@);
                    files.push(path.clone());
                    assert(path::path_views(files@) =~= before.push(path@));
                }
            },
            WalkStep::Failed => {
                return Err(WalkFailed);
            },
            _ => {},
        }
    }
    assert(views.take(count as int) == views);
    Ok(files)
}

/// The directories met on a walk, in the order of the walk.
pub fn collect_dirs_recursive(steps: &Vec<WalkStep>) -> (res: Result<Vec<FilePath>, WalkFailed>)
    ensures
        match res {
            Ok(directories) => met_directories(step_views(steps@)) == Some(
                path::path_views(directories@),
            ),
            Err(_) => met_directories(step_views(steps@)) is None,
        },
{
    let mut directories: Vec<FilePath> = Vec::new();
    let count = steps.len();
    let ghost views = step_views(steps@);
    assert(path::path_views(directories@) =~= Seq::empty());
    for i in 0..count
        invariant
            count == steps.len(),
            views == step_views(steps@),
            met_directories(views.take(i as int)) == Some(path::path_views(directories@)),
    {
        proof {
            assert(views.take(i + 1).drop_last() == views.take(i as int));
            assert(views.take(i + 1).last() == steps@[i as int]@);
            lemma_failed_walk(views, FileFilter::Flac, i + 1);
        }
        match &steps[i] {
            WalkStep::Found(path, FileKind::Directory) => {
                let ghost before = path::path_views(directories@);
                directories.push(path.clone());
                assert(path::path_views(directories@) =~= before.push(path@));
            },
            WalkStep::Failed => {
                return Err(WalkFailed);
            },
            _ => {},
        }
    }
    assert(views.take(count as int) == views);
    Ok(directories)
}

/// Why a directory cannot be used.
#[derive(Debug, Clone, Copy, PartialEq, Eq)]
pub enum DirectoryFault {
    NotFound,
    NotDirectory,
}

/// Whether what stands at a path, if anything does, is a directory.
pub fn ensure_directory(found: Option<FileKind>) -> (res: Result<(), DirectoryFault>)
    ensures
        match found {
            None => res == Err::<(), DirectoryFault>(DirectoryFault::NotFound),
            Some(FileKind::Directory) => res is Ok,
            Some(_) => res == Err::<(), DirectoryFault>(DirectoryFault::NotDirectory),
        },
{
    match found {
        None => Err(DirectoryFault::NotFound),
        Some(FileKind::Directory) => Ok(()),
        Some(_) => Err(DirectoryFault::NotDirectory),
    }
}

/// What was found at a path given as a source.
#[derive(Debug)]
pub enum FoundSource {
    /// Nothing.
    Missing,
    /// A file.
    File(FilePath),
    /// Something else, and a walk through it.
    Walked(Vec<WalkStep>),
}

/// Why a source cannot be used.
#[derive(Debug, Clone, Copy, PartialEq, Eq)]
pub enum SourceFault {
    NotFound,
    WalkFailed,
}

/// The files picked from a source: the source itself if it is a file, else from
/// the walk through it.
pub open spec fn source_files(found: FoundSource, filter: FileFilter) -> Result<
    Seq<Seq<path::PartView>>,
    SourceFault,
> {
    match found {
        FoundSource::Missing => Err(SourceFault::NotFound),
        FoundSource::File(path) => Ok(
            if is_picked(filter, path@) {
                seq![path@]
            } else {
                Seq::empty()
            },
        ),
        FoundSource::Walked(steps) => match picked_files(step_views(steps@), filter) {
            Some(files) => Ok(files),
            None => Err(SourceFault::WalkFailed),
        },
    }
}

/// The files picked from a source.
pub fn files_of_source(found: &FoundSource, filter: FileFilter) -> (res: Result<
    Vec<FilePath>,
    SourceFault,
>)
    ensures
        match res {
            Ok(files) => source_files(*found, filter) == Ok::<Seq<Seq<path::PartView>>, SourceFault>(
                path::path_views(files@),
            ),
            Err(fault) => source_files(*found, filter) == Err::<
                Seq<Seq<path::PartView>>,
                SourceFault,
            >(fault),
        },
{
    match found {
        FoundSource::Missing => Err(SourceFault::NotFound),
        FoundSource::File(path) => {
            let mut files: Vec<FilePath> = Vec::new();
            if picks(filter, path) {
                files.push(path.clone());
                assert(path::path_views(files@) =~= seq![path@]);
            } else {
                assert(path::path_views(files@) =~= Seq::empty());
            }
            Ok(files)
        },
        FoundSource::Walked(steps) => match collect_files_recursive(steps, filter) {
            Ok(files) => Ok(files),
            Err(_) => Err(SourceFault::WalkFailed),
        },
    }
}

/// The files picked from several sources, in order, or the first source that
/// cannot be used and why.
pub open spec fn all_source_files(found: Seq<FoundSource>, filter: FileFilter) -> Result<
    Seq<Seq<path::PartView>>,
    (nat, SourceFault),
>
    decreases found.len(),
{
    if found.len() == 0 {
        Ok(Seq::empty())
    } else {
        match all_source_files(found.drop_last(), filter) {
            Ok(files) => match source_files(found.last(), filter) {
                Ok(more) => Ok(files + more),
                Err(fault) => Err(((found.len() - 1) as nat, fault)),
            },
            Err(fault) => Err(fault),
        }
    }
}

proof fn lemma_first_fault(found: Seq<FoundSource>, filter: FileFilter, n: int)
    requires
        0 <= n <= found.len(),
    ensures
        all_source_files(found.take(n), filter) is Err ==> all_source_files(found, filter)
            == all_source_files(found.take(n), filter),
    decreases found.len(),
{
    if n < found.len() {
        lemma_first_fault(found.drop_last(), filter, n);
        assert(found.drop_last().take(n) =~= found.take(n));
    } else {
        assert(found.take(n) =~= found);
    }
}

/// The files picked from several sources, in order, or the first source that
/// cannot be used and why.
pub fn collect_sources(found: &Vec<FoundSource>, filter: FileFilter) -> (res: Result<
    Vec<FilePath>,
    (usize, SourceFault),
>)
    ensures
        match res {
            Ok(files) => all_source_files(found@, filter) == Ok::<
                Seq<Seq<path::PartView>>,
                (nat, SourceFault),
            >(path::path_views(files@)),
            Err((index, fault)) => all_source_files(found@, filter) == Err::<
                Seq<Seq<path::PartView>>,
                (nat, SourceFault),
            >((index as nat, fault)),
        },
{
    let mut files: Vec<FilePath> = Vec::new();
    let count = found.len();
    assert(path::path_views(files@) =~= Seq::empty());
    for i in 0..count
        invariant
            count == found.len(),
            all_source_files(found@.take(i as int), filter) == Ok::<
                Seq<Seq<path::PartView>>,
                (nat, SourceFault),
            >(path::path_views(files@)),
    {
        proof {
            assert(found@.take(i + 1).drop_last() == found@.take(i as int));
            assert(found@.take(i + 1).last() == found@[i as int]);
            lemma_first_fault(found@, filter, i + 1);
        }
        match files_of_source(&found[i], filter) {
            Ok(more) => {
                let mut more = more;
                let ghost before = path::path_views(files@);
                let ghost added = path::path_views(more@);
                files.append(&mut more);
                assert(path::path_views(files@) =~= before + added);
            },
            Err(fault) => {
                return Err((i, fault));
            },
        }
    }
    assert(found@.take(count as int) == found@);
    Ok(files)
}

/// The files picked from a walk through the library, in ascending order, each
/// once.
pub fn collect_library(steps: &Vec<WalkStep>) -> (res: Result<Vec<FilePath>, WalkFailed>)
    ensures
        match res {
            Ok(files) => {
                &&& picked_files(step_views(steps@), FileFilter::Flac) is Some
                &&& pathset::is_ascending(path::path_views(files@))
                &&& forall|file: Seq<path::PartView>|
                    path::path_views(files@).contains(file) <==> picked_files(
                        step_views(steps@),
                        FileFilter::Flac,
                    ).unwrap().contains(file)
            },
            Err(_) => picked_files(step_views(steps@), FileFilter::Flac) is None,
        },
{
    match collect_files_recursive(steps, FileFilter::Flac) {
        Ok(files) => Ok(sorted_unique(files)),
        Err(error) => Err(error),
    }
}

/// The paths with at most `depth` components, the longest first, and otherwise
/// in the given order.
pub open spec fn by_depth(paths: Seq<Seq<path::PartView>>, depth: int) -> Seq<
    Seq<path::PartView>,
>
    decreases depth + 1,
{
    if depth < 0 {
        Seq::empty()
    } else {
        paths.filter(|p: Seq<path::PartView>| p.len() == depth) + by_depth(paths, depth - 1)
    }
}

/// Whether no path has more than `depth` components.
pub open spec fn is_depth_of(paths: Seq<Seq<path::PartView>>, depth: int) -> bool {
    forall|i: int| 0 <= i < paths.len() ==> (#[trigger] paths[i]).len() <= depth
}

proof fn lemma_by_depth(paths: Seq<Seq<path::PartView>>, depth: int)
    ensures
        ({
            let list = by_depth(paths, depth);
            &&& forall|i: int|
                0 <= i < list.len() ==> (#[trigger] list[i]).len() <= depth && paths.contains(
                    list[i],
                )
            &&& forall|i: int|
                0 <= i < paths.len() && (#[trigger] paths[i]).len() <= depth ==> list.contains(
                    paths[i],
                )
            &&& forall|i: int, j: int|
                0 <= i < j < list.len() ==> (#[trigger] list[i]).len() >= (
                #[trigger] list[j]).len()
        }),
    decreases depth + 1,
{
    if depth >= 0 {
        let level = |p: Seq<path::PartView>| p.len() == depth;
        let first = paths.filter(level);
        let rest = by_depth(paths, depth - 1);
        let list = by_depth(paths, depth);
        assert(list == first + rest);
        lemma_by_depth(paths, depth - 1);
        assert forall|i: int| 0 <= i < first.len() implies level(#[trigger] first[i])
            && paths.contains(first[i]) by {
            lemma_filter_from(paths, level, i);
        }
        assert forall|i: int| 0 <= i < list.len() implies (#[trigger] list[i]).len() <= depth
            && paths.contains(list[i]) by {
            if i < first.len() {
                assert(level(first[i]));
            } else {
                assert(list[i] == rest[i - first.len()]);
            }
        }
        assert forall|i: int|
            0 <= i < paths.len() && (#[trigger] paths[i]).len() <= depth implies list.contains(
            paths[i],
        ) by {
            if paths[i].len() == depth {
                paths.lemma_filter_contains(level, i);
                let k = choose|k: int| 0 <= k < first.len() && first[k] == paths[i];
                assert(list[k] == paths[i]);
            } else {
                let k = choose|k: int| 0 <= k < rest.len() && rest[k] == paths[i];
                assert(list[first.len() + k] == paths[i]);
            }
        }
        assert forall|i: int, j: int| 0 <= i < j < list.len() implies (#[trigger] list[i]).len()
            >= (#[trigger] list[j]).len() by {
            if i < first.len() {
                assert(level(first[i]));
            } else {
                assert(list[i] == rest[i - first.len()]);
                assert(list[j] == rest[j - first.len()]);
            }
        }
    }
}

proof fn lemma_filter_from(
    paths: Seq<Seq<path::PartView>>,
    wanted: spec_fn(Seq<path::PartView>) -> bool,
    i: int,
)
    requires
        0 <= i < paths.filter(wanted).len(),
    ensures
        wanted(paths.filter(wanted)[i]),
        paths.contains(paths.filter(wanted)[i]),
    decreases paths.len(),
{
    reveal(Seq::filter);
    if paths.len() > 0 {
        let rest = paths.drop_last();
        if i < rest.filter(wanted).len() {
            lemma_filter_from(rest, wanted, i);
            let k = choose|k: int| 0 <= k < rest.len() && rest[k] == rest.filter(wanted)[i];
            assert(paths[k] == paths.filter(wanted)[i]);
        } else {
            assert(paths[paths.len() - 1] == paths.filter(wanted)[i]);
        }
    }
}

/// The directories ordered by depth are the same directories, and every
/// directory comes before those that it lies in.
pub proof fn law_deepest_come_first(paths: Seq<Seq<path::PartView>>, depth: int)
    requires
        is_depth_of(paths, depth),
    ensures
        ({
            let list = by_depth(paths, depth);
            &&& forall|p: Seq<path::PartView>| list.contains(p) <==> paths.contains(p)
            &&& forall|i: int, j: int|
                0 <= i < list.len() && 0 <= j < list.len() && path::parent_of(#[trigger] list[i])
                    == Some(#[trigger] list[j]) ==> i < j
        }),
{
    let list = by_depth(paths, depth);
    lemma_by_depth(paths, depth);
    assert forall|p: Seq<path::PartView>| list.contains(p) <==> paths.contains(p) by {
        if list.contains(p) {
            let i = choose|i: int| 0 <= i < list.len() && list[i] == p;
            assert(paths.contains(list[i]));
        }
        if paths.contains(p) {
            let i = choose|i: int| 0 <= i < paths.len() && paths[i] == p;
            assert(list.contains(paths[i]));
        }
    }
    assert forall|i: int, j: int|
        0 <= i < list.len() && 0 <= j < list.len() && path::parent_of(#[trigger] list[i]) == Some(
            #[trigger] list[j],
        ) implies i < j by {
        if j <= i {
            assert(list[j].len() == list[i].len() - 1);
            if j < i {
                assert(list[j].len() >= list[i].len());
            }
        }
    }
}

/// The directories, the deepest first, and otherwise in the given order.
pub fn deepest_first(paths: &Vec<FilePath>) -> (res: Vec<FilePath>)
    ensures
        exists|depth: int|
            #![trigger by_depth(path::path_views(paths@), depth)]
            is_depth_of(path::path_views(paths@), depth) && path::path_views(res@) == by_depth(
                path::path_views(paths@),
                depth,
            ),
{
    let count = paths.len();
    let ghost views = path::path_views(paths@);
    let mut most: usize = 0;
    for i in 0..count
        invariant
            count == paths.len(),
            views == path::path_views(paths@),
            is_depth_of(views.take(i as int), most as int),
    {
        let length = paths[i].parts.len();
        assert(views[i as int].len() == length);
        let ghost before = most;
        if length > most {
            most = length;
        }
        assert forall|j: int| 0 <= j < i + 1 implies (#[trigger] views.take(i + 1)[j]).len()
            <= most by {
            if j < i {
                assert(views.take(i as int)[j].len() <= before);
            }
        }
    }
    assert(views.take(count as int) == views);
    let mut res: Vec<FilePath> = Vec::new();
    let mut depth: usize = most;
    let ghost all = by_depth(views, most as int);
    assert(path::path_views(res@) + all =~= all);
    loop
        invariant_except_break
            all == path::path_views(res@) + by_depth(views, depth as int),
        invariant
            depth <= most,
            count == paths.len(),
            views == path::path_views(paths@),
        ensures
            all == path::path_views(res@),
        decreases depth,
    {
        let ghost before = path::path_views(res@);
        let ghost level = |p: Seq<path::PartView>| p.len() == depth;
        proof {
            reveal(Seq::filter);
            assert(before + views.take(0).filter(level) =~= before);
        }
        for i in 0..count
            invariant
                count == paths.len(),
                views == path::path_views(paths@),
                level == |p: Seq<path::PartView>| p.len() == depth,
                path::path_views(res@) == before + views.take(i as int).filter(level),
        {
            proof {
                reveal(Seq::filter);
                assert(views.take(i + 1).drop_last() == views.take(i as int));
                assert(views.take(i + 1).last() == paths@[i as int]@);
            }
            if paths[i].parts.len() == depth {
                let ghost listed = path::path_views(res@);
                let ghost kept = views.take(i as int).filter(level);
                res.push(paths[i].clone());
                assert(path::path_views(res@) =~= listed.push(views[i as int]));
                assert(path::path_views(res@) =~= before + kept.push(views[i as int]));
            }
        }
        proof {
            assert(views.take(count as int) == views);
            let rest = by_depth(views, depth - 1);
            assert(by_depth(views, depth as int) == views.filter(level) + rest);
            assert(before + (views.filter(level) + rest) =~= (before + views.filter(level)) + rest);
        }
        if depth == 0 {
            assert(by_depth(views, -1) =~= Seq::empty());
            assert(all =~= path::path_views(res@));
            break ;
        }
        depth = depth - 1;
    }
    assert(is_depth_of(views, most as int));
    res
}

/// The files of two walks, one after the other, are those of the first and then
/// those of the second; both are needed. Of one step, a file that the filter
/// picks is taken, and nothing else; a failure leaves nothing.
pub proof fn law_walked_files(
    a: Seq<WalkStepView>,
    b: Seq<WalkStepView>,
    filter: FileFilter,
    step: WalkStepView,
)
    ensures
        picked_files(a + b, filter) == match (picked_files(a, filter), picked_files(b, filter)) {
            (Some(first), Some(second)) => Some(first + second),
            _ => None,
        },
        picked_files(seq![step], filter) == match step {
            WalkStepView::Found(path, kind) => if kind is File && (filter is Flac
                && encoding::is_flac_path(path) || filter is Audio && encoding::is_audio_path(
                path,
            )) {
                Some(seq![path])
            } else {
                Some(Seq::empty())
            },
            WalkStepView::Denied => Some(Seq::empty()),
            WalkStepView::Failed => Option::None,
        },
    decreases b.len(),
{
    let one = seq![step];
    let none = Seq::<Seq<path::PartView>>::empty();
    assert(one.drop_last() =~= Seq::empty());
    assert(picked_files(one.drop_last(), filter) == Some(none));
    assert(one.last() == step);
    if let WalkStepView::Found(path, kind) = step {
        assert(none.push(path) =~= seq![path]);
    }
    if b.len() == 0 {
        assert(a + b =~= a);
        assert(picked_files(b, filter) == Some(none));
        if let Some(first) = picked_files(a, filter) {
            assert(first + none =~= first);
        }
    } else {
        law_walked_files(a, b.drop_last(), filter, step);
        assert((a + b).drop_last() =~= a + b.drop_last());
        assert((a + b).last() == b.last());
        if let Some(first) = picked_files(a, filter) {
            if let Some(second) = picked_files(b.drop_last(), filter) {
                if let WalkStepView::Found(path, kind) = b.last() {
                    assert(first + second.push(path) =~= (first + second).push(path));
                }
            }
        }
    }
}

/// The directories of two walks, one after the other, are those of the first and
/// then those of the second; of one step, a directory is taken, and nothing else.
pub proof fn law_walked_directories(
    a: Seq<WalkStepView>,
    b: Seq<WalkStepView>,
    step: WalkStepView,
)
    ensures
        met_directories(a + b) == match (met_directories(a), met_directories(b)) {
            (Some(first), Some(second)) => Some(first + second),
            _ => None,
        },
        met_directories(seq![step]) == match step {
            WalkStepView::Found(path, kind) => if kind is Directory {
                Some(seq![path])
            } else {
                Some(Seq::empty())
            },
            WalkStepView::Denied => Some(Seq::empty()),
            WalkStepView::Failed => Option::None,
        },
    decreases b.len(),
{
    let one = seq![step];
    let none = Seq::<Seq<path::PartView>>::empty();
    assert(one.drop_last() =~= Seq::empty());
    assert(met_directories(one.drop_last()) == Some(none));
    assert(one.last() == step);
    if let WalkStepView::Found(path, kind) = step {
        assert(none.push(path) =~= seq![path]);
    }
    if b.len() == 0 {
        assert(a + b =~= a);
        assert(met_directories(b) == Some(none));
        if let Some(first) = met_directories(a) {
            assert(first + none =~= first);
        }
    } else {
        law_walked_directories(a, b.drop_last(), step);
        assert((a + b).drop_last() =~= a + b.drop_last());
        assert((a + b).last() == b.last());
        if let Some(first) = met_directories(a) {
            if let Some(second) = met_directories(b.drop_last()) {
                if let WalkStepView::Found(path, kind) = b.last() {
                    assert(first + second.push(path) =~= (first + second).push(path));
                }
            }
        }
    }
}

/// A file given as a source is taken by the same rule as a file found on a walk,
/// and sources are taken one after the other.
pub proof fn law_sources_are_taken_in_order(
    found: Seq<FoundSource>,
    last: FoundSource,
    path: FilePath,
    filter: FileFilter,
)
    ensures
        source_files(FoundSource::File(path), filter) matches Ok(files) && Some(files)
            == picked_files(seq![WalkStepView::Found(path@, FileKind::File)], filter),
        source_files(FoundSource::Missing, filter) == Err::<
            Seq<Seq<path::PartView>>,
            SourceFault,
        >(SourceFault::NotFound),
        match (all_source_files(found, filter), source_files(last, filter)) {
            (Ok(files), Ok(more)) => all_source_files(found.push(last), filter) == Ok::<
                Seq<Seq<path::PartView>>,
                (nat, SourceFault),
            >(files + more),
            (Ok(_), Err(fault)) => all_source_files(found.push(last), filter) == Err::<
                Seq<Seq<path::PartView>>,
                (nat, SourceFault),
            >((found.len(), fault)),
            (Err(fault), _) => all_source_files(found.push(last), filter) == Err::<
                Seq<Seq<path::PartView>>,
                (nat, SourceFault),
            >(fault),
        },
{
    law_walked_files(
        Seq::empty(),
        Seq::empty(),
        filter,
        WalkStepView::Found(path@, FileKind::File),
    );
    assert(found.push(last).drop_last() =~= found);
}

/// A source that is a directory gives the files of the walk through it; if the walk
/// failed anywhere, the source cannot be used.
pub proof fn law_directory_sources(steps: Vec<WalkStep>, filter: FileFilter)
    ensures
        match source_files(FoundSource::Walked(steps), filter) {
            Ok(files) => picked_files(step_views(steps@), filter) == Some(files) && forall|i: int|
                0 <= i < steps.len() ==> !(#[trigger] steps@[i]@ is Failed),
            Err(fault) => fault is WalkFailed && exists|i: int|
                0 <= i < steps.len() && #[trigger] steps@[i]@ is Failed,
        },
{
    let views = step_views(steps@);
    lemma_walk_fails(views, filter);
    assert forall|i: int| 0 <= i < steps.len() implies views[i] == #[trigger] steps@[i]@ by {}
    if picked_files(views, filter) is None {
        let i = choose|i: int| 0 <= i < views.len() && #[trigger] views[i] is Failed;
        assert(steps@[i]@ is Failed);
    }
}

proof fn lemma_walk_fails(steps: Seq<WalkStepView>, filter: FileFilter)
    ensures
        picked_files(steps, filter) is None <==> exists|i: int|
            0 <= i < steps.len() && #[trigger] steps[i] is Failed,
    decreases steps.len(),
{
    if steps.len() > 0 {
        let rest = steps.drop_last();
        let last = steps.len() - 1;
        lemma_walk_fails(rest, filter);
        if exists|i: int| 0 <= i < rest.len() && #[trigger] rest[i] is Failed {
            let i = choose|i: int| 0 <= i < rest.len() && #[trigger] rest[i] is Failed;
            assert(steps[i] is Failed);
        }
        if steps[last] is Failed {
            assert(picked_files(steps, filter) is None);
        } else if exists|i: int| 0 <= i < steps.len() && #[trigger] steps[i] is Failed {
            let i = choose|i: int| 0 <= i < steps.len() && #[trigger] steps[i] is Failed;
            assert(rest[i] is Failed);
        }
    }
}

} // verus!
