//! Files that go with a track or an album.

use vstd::prelude::*;

use crate::known::KnownFiles;
use crate::path;
use crate::path::FilePath;
use crate::pathset::Claims;
use crate::reserve;
use crate::reserve::{reserve_unique, Precedence, Reservation};
use crate::strings;
use crate::strings::{same_text, to_lower_text};

verus! {

/// How many kinds of files go with a track.
pub const TRACK_SIDECARS: usize = 2;

/// The extensions of the files that go with a track.
pub open spec fn track_sidecar_extensions() -> Seq<Seq<char>> {
    seq!["lrc"@, "txt"@]
}

/// The names of the files that go with an album.
pub open spec fn album_sidecar_names() -> Seq<Seq<char>> {
    seq![
        "cover.jpg"@,
        "cover.jpeg"@,
        "cover.png"@,
        "folder.jpg"@,
        "folder.jpeg"@,
        "folder.png"@,
        "album.nfo"@,
    ]
}

/// A path with the extension of its name replaced by a text.
pub open spec fn with_extension_text(
    path: Seq<path::PartView>,
    extension: Seq<char>,
) -> Seq<path::PartView> {
    path::with_extension_bytes(path, vstd::utf8::encode_utf8(extension))
}

/// The file of the given kind that goes with a track.
pub open spec fn sidecar_path(track: Seq<path::PartView>, kind: int) -> Seq<path::PartView> {
    with_extension_text(track, track_sidecar_extensions()[kind])
}

/// Whether a file of this name goes with an album, in capital or small letters.
pub open spec fn names_album_sidecar(name: Seq<char>) -> bool {
    album_sidecar_names().contains(strings::lower_text(name))
}

/// An entry of a directory.
#[derive(Debug)]
pub struct DirEntry {
    pub path: FilePath,
    pub is_file: bool,
}

/// An entry of a directory, by its content.
pub struct EntryView {
    pub path: Seq<path::PartView>,
    pub is_file: bool,
}

impl View for DirEntry {
    type V = EntryView;

    open spec fn view(&self) -> EntryView {
        EntryView { path: self.path@, is_file: self.is_file }
    }
}

/// The contents of a list of entries.
pub open spec fn entry_views(entries: Seq<DirEntry>) -> Seq<EntryView> {
    entries.map_values(|entry: DirEntry| entry@)
}

/// The name of an entry, if it is a file that goes with an album.
pub open spec fn album_sidecar_name(entry: EntryView) -> Option<Seq<char>> {
    match path::bytes_opt_text(path::name_of(entry.path)) {
        Some(name) => if entry.is_file && names_album_sidecar(name) {
            Some(name)
        } else {
            None
        },
        None => None,
    }
}

/// A file that is to go from one place to another.
#[derive(Debug)]
pub struct SidecarPlan {
    pub source: FilePath,
    pub target: FilePath,
    /// The file stays where it is, too.
    pub copy_only: bool,
}

/// A file that is to go from one place to another, by its content.
pub struct SidecarView {
    pub source: Seq<path::PartView>,
    pub target: Seq<path::PartView>,
    pub copy_only: bool,
}

impl View for SidecarPlan {
    type V = SidecarView;

    open spec fn view(&self) -> SidecarView {
        SidecarView { source: self.source@, target: self.target@, copy_only: self.copy_only }
    }
}

impl Clone for SidecarPlan {
    fn clone(&self) -> (res: Self)
        ensures
            res@ == self@,
    {
        SidecarPlan {
            source: self.source.clone(),
            target: self.target.clone(),
            copy_only: self.copy_only,
        }
    }
}

/// The contents of a list of planned files.
pub open spec fn sidecar_views(sidecars: Seq<SidecarPlan>) -> Seq<SidecarView> {
    sidecars.map_values(|sidecar: SidecarPlan| sidecar@)
}

/// How far a plan has come.
pub enum Planned<T> {
    Done(T),
    /// The plan cannot go on without knowing whether this file exists.
    Ask(Seq<path::PartView>),
    /// No path is free.
    Exhausted,
}

/// Files gathered for a plan, and the paths taken when they were.
pub struct Gathered {
    pub sidecars: Seq<SidecarView>,
    pub taken: Set<Seq<path::PartView>>,
}

/// The files that go with the track at `source`, from the given kind on, each
/// with a free path beside `target`.
pub open spec fn gathered_from(
    precedence: Precedence,
    source: Seq<path::PartView>,
    target: Seq<path::PartView>,
    known: Map<Seq<path::PartView>, bool>,
    so_far: Gathered,
    kind: nat,
) -> Planned<Gathered>
    decreases TRACK_SIDECARS - kind,
{
    if kind >= TRACK_SIDECARS {
        Planned::Done(so_far)
    } else {
        let file = sidecar_path(source, kind as int);
        if !known.contains_key(file) {
            Planned::Ask(file)
        } else if !known[file] {
            gathered_from(precedence, source, target, known, so_far, kind + 1)
        } else {
            match reserve::reservation(
                precedence,
                sidecar_path(target, kind as int),
                Some(file),
                so_far.taken,
                known,
                0,
            ) {
                reserve::ReservationView::Free(free) => gathered_from(
                    precedence,
                    source,
                    target,
                    known,
                    Gathered {
                        sidecars: so_far.sidecars.push(
                            SidecarView { source: file, target: free, copy_only: false },
                        ),
                        taken: so_far.taken.insert(free),
                    },
                    kind + 1,
                ),
                reserve::ReservationView::Ask(path) => Planned::Ask(path),
                reserve::ReservationView::Exhausted => Planned::Exhausted,
            }
        }
    }
}

/// Whether a path is safe for a file: it is the file's own, or no file exists
/// there; and it was not taken before, unless the file keeps its own path.
pub open spec fn is_safe_move(
    precedence: Precedence,
    source: Seq<path::PartView>,
    target: Seq<path::PartView>,
    taken: Set<Seq<path::PartView>>,
    known: Map<Seq<path::PartView>, bool>,
) -> bool {
    &&& target == source || (known.contains_key(target) && !known[target])
    &&& taken.contains(target) ==> precedence is OwnPath && target == source
}

/// Whether `more` extends `less` by files with safe paths: exactly their paths
/// are taken in addition, and no two of them share a path unless the later one
/// keeps its own.
pub open spec fn extends(
    precedence: Precedence,
    less: Gathered,
    more: Gathered,
    known: Map<Seq<path::PartView>, bool>,
) -> bool {
    let start = less.sidecars.len();
    let end = more.sidecars.len();
    &&& start <= end
    &&& more.sidecars.take(start as int) == less.sidecars
    &&& less.taken.subset_of(more.taken)
    &&& forall|p: Seq<path::PartView>| #[trigger]
        more.taken.contains(p) ==> less.taken.contains(p) || exists|i: int|
            start <= i < end && (#[trigger] more.sidecars[i]).target == p
    &&& forall|i: int|
        start <= i < end ==> {
            let sidecar = #[trigger] more.sidecars[i];
            &&& more.taken.contains(sidecar.target)
            &&& is_safe_move(precedence, sidecar.source, sidecar.target, less.taken, known)
        }
    &&& forall|i: int, j: int|
        start <= i < j < end && (#[trigger] more.sidecars[i]).target == (
        #[trigger] more.sidecars[j]).target ==> precedence is OwnPath && more.sidecars[j].target
            == more.sidecars[j].source
}

/// Gathering nothing extends by nothing.
pub(crate) proof fn lemma_extends_self(
    precedence: Precedence,
    gathered: Gathered,
    known: Map<Seq<path::PartView>, bool>,
)
    ensures
        extends(precedence, gathered, gathered, known),
{
    assert(gathered.sidecars.take(gathered.sidecars.len() as int) =~= gathered.sidecars);
}

/// Adding one file with a safe path.
pub(crate) proof fn lemma_extends_by_one(
    precedence: Precedence,
    less: Gathered,
    sidecar: SidecarView,
    known: Map<Seq<path::PartView>, bool>,
)
    requires
        is_safe_move(precedence, sidecar.source, sidecar.target, less.taken, known),
    ensures
        extends(
            precedence,
            less,
            Gathered {
                sidecars: less.sidecars.push(sidecar),
                taken: less.taken.insert(sidecar.target),
            },
            known,
        ),
{
    let more = Gathered {
        sidecars: less.sidecars.push(sidecar),
        taken: less.taken.insert(sidecar.target),
    };
    let last = less.sidecars.len() as int;
    assert(more.sidecars.take(last) =~= less.sidecars);
    assert forall|p: Seq<path::PartView>| #[trigger] more.taken.contains(p) implies less.taken.contains(
        p,
    ) || exists|i: int| last <= i < more.sidecars.len() && (#[trigger] more.sidecars[i]).target
        == p by {
        if !less.taken.contains(p) {
            assert(more.sidecars[last].target == p);
        }
    }
}

/// Extending twice extends.
pub(crate) proof fn lemma_extends_twice(
    precedence: Precedence,
    a: Gathered,
    b: Gathered,
    c: Gathered,
    known: Map<Seq<path::PartView>, bool>,
)
    requires
        extends(precedence, a, b, known),
        extends(precedence, b, c, known),
    ensures
        extends(precedence, a, c, known),
{
    let start = a.sidecars.len() as int;
    let middle = b.sidecars.len() as int;
    let end = c.sidecars.len() as int;
    assert forall|i: int| 0 <= i < middle implies c.sidecars[i] == #[trigger] b.sidecars[i] by {
        assert(c.sidecars.take(middle)[i] == b.sidecars[i]);
    }
    assert(c.sidecars.take(start) =~= b.sidecars.take(start));
    assert forall|p: Seq<path::PartView>| #[trigger] c.taken.contains(p) implies a.taken.contains(p)
        || exists|i: int| start <= i < end && (#[trigger] c.sidecars[i]).target == p by {
        if b.taken.contains(p) && !a.taken.contains(p) {
            let i = choose|i: int| start <= i < middle && (#[trigger] b.sidecars[i]).target == p;
            assert(c.sidecars[i].target == p);
        }
    }
    assert forall|i: int| start <= i < end implies {
        let sidecar = #[trigger] c.sidecars[i];
        &&& c.taken.contains(sidecar.target)
        &&& is_safe_move(precedence, sidecar.source, sidecar.target, a.taken, known)
    } by {
        if i < middle {
            assert(c.sidecars[i] == b.sidecars[i]);
        }
    }
    assert forall|i: int, j: int|
        start <= i < j < end && (#[trigger] c.sidecars[i]).target == (
        #[trigger] c.sidecars[j]).target implies precedence is OwnPath && c.sidecars[j].target
        == c.sidecars[j].source by {
        if i < middle {
            assert(c.sidecars[i] == b.sidecars[i]);
            if j < middle {
                assert(c.sidecars[j] == b.sidecars[j]);
            } else {
                assert(b.taken.contains(c.sidecars[j].target));
            }
        }
    }
}

/// The files that go with a track are given safe paths.
pub proof fn law_gathered_paths_are_safe(
    precedence: Precedence,
    source: Seq<path::PartView>,
    target: Seq<path::PartView>,
    known: Map<Seq<path::PartView>, bool>,
    so_far: Gathered,
    kind: nat,
)
    ensures
        gathered_from(precedence, source, target, known, so_far, kind) matches Planned::Done(all)
            ==> extends(precedence, so_far, all, known),
    decreases TRACK_SIDECARS - kind,
{
    if kind >= TRACK_SIDECARS {
        lemma_extends_self(precedence, so_far, known);
    } else {
        let file = sidecar_path(source, kind as int);
        let desired = sidecar_path(target, kind as int);
        law_gathered_paths_are_safe(precedence, source, target, known, so_far, kind + 1);
        reserve::law_reserved_path_is_free(
            precedence,
            desired,
            Some(file),
            so_far.taken,
            known,
            0,
        );
        if let reserve::ReservationView::Free(free) = reserve::reservation(
            precedence,
            desired,
            Some(file),
            so_far.taken,
            known,
            0,
        ) {
            let sidecar = SidecarView { source: file, target: free, copy_only: false };
            let next = Gathered {
                sidecars: so_far.sidecars.push(sidecar),
                taken: so_far.taken.insert(free),
            };
            lemma_extends_by_one(precedence, so_far, sidecar, known);
            law_gathered_paths_are_safe(precedence, source, target, known, next, kind + 1);
            if let Planned::Done(all) = gathered_from(
                precedence,
                source,
                target,
                known,
                next,
                kind + 1,
            ) {
                lemma_extends_twice(precedence, so_far, next, all, known);
            }
        }
    }
}

/// A question is about a file of which nothing is known.
pub(crate) proof fn lemma_questions_are_new(
    precedence: Precedence,
    source: Seq<path::PartView>,
    target: Seq<path::PartView>,
    known: Map<Seq<path::PartView>, bool>,
    so_far: Gathered,
    kind: nat,
)
    ensures
        gathered_from(precedence, source, target, known, so_far, kind) matches Planned::Ask(path)
            ==> !known.contains_key(path),
    decreases TRACK_SIDECARS - kind,
{
    if kind < TRACK_SIDECARS {
        let file = sidecar_path(source, kind as int);
        let desired = sidecar_path(target, kind as int);
        lemma_questions_are_new(precedence, source, target, known, so_far, kind + 1);
        reserve::law_reserved_path_is_free(
            precedence,
            desired,
            Some(file),
            so_far.taken,
            known,
            0,
        );
        if let reserve::ReservationView::Free(free) = reserve::reservation(
            precedence,
            desired,
            Some(file),
            so_far.taken,
            known,
            0,
        ) {
            let next = Gathered {
                sidecars: so_far.sidecars.push(
                    SidecarView { source: file, target: free, copy_only: false },
                ),
                taken: so_far.taken.insert(free),
            };
            lemma_questions_are_new(precedence, source, target, known, next, kind + 1);
        }
    }
}

/// The outcome of gathering files.
#[derive(Debug)]
pub enum Gather {
    Done(Vec<SidecarPlan>),
    Ask(FilePath),
    Exhausted,
}

/// Whether the outcome, with the paths taken after it, is as planned.
pub open spec fn gathers(
    outcome: Gather,
    taken: Set<Seq<path::PartView>>,
    planned: Planned<Gathered>,
) -> bool {
    match outcome {
        Gather::Done(sidecars) => planned == Planned::Done(
            Gathered { sidecars: sidecar_views(sidecars@), taken },
        ),
        Gather::Ask(path) => planned == Planned::<Gathered>::Ask(path@),
        Gather::Exhausted => planned is Exhausted,
    }
}

/// A path with the extension of its name replaced.
pub fn with_extension(path: &FilePath, extension: &str) -> (res: FilePath)
    ensures
        res@ == with_extension_text(path@, extension@),
        path::is_valid(path@) && !extension@.contains('/') ==> path::is_valid(res@),
{
    proof {
        if !extension@.contains('/') {
            path::lemma_no_slash_byte(extension@);
        }
    }
    path.with_extension(extension.as_bytes())
}

/// The file of the given kind that goes with a track.
pub fn track_sidecar(track: &FilePath, kind: usize) -> (res: FilePath)
    requires
        kind < TRACK_SIDECARS,
    ensures
        res@ == sidecar_path(track@, kind as int),
        path::is_valid(track@) ==> path::is_valid(res@),
{
    proof {
        reveal_strlit("lrc");
        reveal_strlit("txt");
    }
    if kind == 0 {
        with_extension(track, "lrc")
    } else {
        with_extension(track, "txt")
    }
}

/// Whether a file of this name goes with an album.
pub fn is_album_sidecar(name: &str) -> (res: bool)
    ensures
        res == names_album_sidecar(name@),
{
    let lower = to_lower_text(name);
    let names: Vec<&str> = vec![
        "cover.jpg",
        "cover.jpeg",
        "cover.png",
        "folder.jpg",
        "folder.jpeg",
        "folder.png",
        "album.nfo",
    ];
    let ghost all = album_sidecar_names();
    let count = names.len();
    assert(count == all.len());
    assert forall|j: int| 0 <= j < count implies (#[trigger] names@[j])@ == all[j] by {}
    for i in 0..count
        invariant
            count == names.len() == all.len(),
            all == album_sidecar_names(),
            lower@ == strings::lower_text(name@),
            forall|j: int| 0 <= j < count ==> (#[trigger] names@[j])@ == all[j],
            forall|j: int| 0 <= j < i ==> all[j] != lower@,
    {
        if same_text(&lower, names[i]) {
            assert(all[i as int] == lower@);
            return true;
        }
    }
    false
}

/// The name of an entry, if it is a file that goes with an album.
pub fn album_sidecar(entry: &DirEntry) -> (res: Option<String>)
    ensures
        strings::text_opt(res) == album_sidecar_name(entry@),
{
    match entry.path.file_name_text() {
        Some(name) => if entry.is_file && is_album_sidecar(&name) {
            Some(name)
        } else {
            None
        },
        None => None,
    }
}

/// Finds the files that go with the track at `source`, and takes a free path
/// beside `target` for each.
pub fn gather_sidecars(
    precedence: Precedence,
    source: &FilePath,
    target: &FilePath,
    claims: &mut Claims,
    known: &KnownFiles,
) -> (res: Gather)
    ensures
        gathers(
            res,
            final(claims)@,
            gathered_from(
                precedence,
                source@,
                target@,
                known@,
                Gathered { sidecars: Seq::empty(), taken: old(claims)@ },
                0,
            ),
        ),
        final(claims).base() == old(claims).base(),
{
    let mut sidecars: Vec<SidecarPlan> = Vec::new();
    let ghost start = Gathered { sidecars: Seq::empty(), taken: claims@ };
    assert(sidecar_views(sidecars@) =~= Seq::empty());
    let mut kind: usize = 0;
    while kind < TRACK_SIDECARS
        invariant
            kind <= TRACK_SIDECARS,
            start == (Gathered { sidecars: Seq::empty(), taken: old(claims)@ }),
            claims.base() == old(claims).base(),
            gathered_from(precedence, source@, target@, known@, start, 0) == gathered_from(
                precedence,
                source@,
                target@,
                known@,
                Gathered { sidecars: sidecar_views(sidecars@), taken: claims@ },
                kind as nat,
            ),
        decreases TRACK_SIDECARS - kind,
    {
        let file = track_sidecar(source, kind);
        match known.is_present(&file) {
            Some(true) => {
                let desired = track_sidecar(target, kind);
                match reserve_unique(precedence, &desired, claims, Some(&file), known) {
                    Reservation::Free(free) => {
                        let ghost before = sidecar_views(sidecars@);
                        let sidecar = SidecarPlan { source: file, target: free, copy_only: false };
                        sidecars.push(sidecar);
                        assert(sidecar_views(sidecars@) =~= before.push(sidecar@));
                    },
                    Reservation::Ask(path) => {
                        return Gather::Ask(path);
                    },
                    Reservation::Exhausted => {
                        return Gather::Exhausted;
                    },
                }
            },
            Some(false) => {},
            None => {
                return Gather::Ask(file);
            },
        }
        kind = kind + 1;
    }
    Gather::Done(sidecars)
}

/// The files that go with a track stand beside it, under its name with the
/// extension `lrc` or `txt`.
pub proof fn law_companions_stand_beside(track: Seq<path::PartView>)
    requires
        path::is_valid(track),
        path::name_of(track) is Some,
    ensures
        TRACK_SIDECARS == 2,
        sidecar_path(track, 0) == track.drop_last().push(
            path::PartView::Name(
                path::stem_of(track).unwrap() + seq![46u8] + seq![108u8, 114u8, 99u8],
            ),
        ),
        sidecar_path(track, 1) == track.drop_last().push(
            path::PartView::Name(
                path::stem_of(track).unwrap() + seq![46u8] + seq![116u8, 120u8, 116u8],
            ),
        ),
{
    reveal_strlit("lrc");
    reveal_strlit("txt");
    let lrc = vstd::utf8::encode_utf8("lrc"@);
    let txt = vstd::utf8::encode_utf8("txt"@);
    vstd::utf8::is_ascii_chars_encode_utf8("lrc"@);
    vstd::utf8::is_ascii_chars_encode_utf8("txt"@);
    assert('l' as u8 == 108 && 'r' as u8 == 114 && 'c' as u8 == 99);
    assert('t' as u8 == 116 && 'x' as u8 == 120);
    assert("lrc"@[0] as u8 == lrc[0] && "lrc"@[1] as u8 == lrc[1] && "lrc"@[2] as u8 == lrc[2]);
    assert("txt"@[0] as u8 == txt[0] && "txt"@[1] as u8 == txt[1] && "txt"@[2] as u8 == txt[2]);
    assert(lrc =~= seq![108u8, 114u8, 99u8]);
    assert(txt =~= seq![116u8, 120u8, 116u8]);
    path::law_extension_is_replaced(track, lrc);
    path::law_extension_is_replaced(track, txt);
}

/// The files that go with an album are known by these names, in capital or small
/// letters.
pub proof fn law_album_companions(front: Seq<path::PartView>, name: Seq<char>, is_file: bool)
    ensures
        ({
            let lower = strings::lower_text(name);
            let entry = EntryView {
                path: front.push(path::PartView::Name(vstd::utf8::encode_utf8(name))),
                is_file,
            };
            let goes_along = is_file && (lower == "cover.jpg"@ || lower == "cover.jpeg"@ || lower
                == "cover.png"@ || lower == "folder.jpg"@ || lower == "folder.jpeg"@ || lower
                == "folder.png"@ || lower == "album.nfo"@);
            album_sidecar_name(entry) == if goes_along {
                Some(name)
            } else {
                None
            }
        }),
{
    let all = album_sidecar_names();
    assert(all[0] == "cover.jpg"@ && all[1] == "cover.jpeg"@ && all[2] == "cover.png"@);
    assert(all[3] == "folder.jpg"@ && all[4] == "folder.jpeg"@ && all[5] == "folder.png"@);
    assert(all[6] == "album.nfo"@);
    assert(all.len() == 7);
    vstd::utf8::encode_utf8_decode_utf8(name);
    vstd::utf8::encode_utf8_valid_utf8(name);
}

/// Whether a planned file comes from beside the track, exists there, is moved, and
/// goes beside the target under the same extension, perhaps numbered.
#[verifier::opaque]
pub open spec fn follows_track(
    sidecar: SidecarView,
    source: Seq<path::PartView>,
    target: Seq<path::PartView>,
    known: Map<Seq<path::PartView>, bool>,
    kind: nat,
) -> bool {
    &&& sidecar.source == sidecar_path(source, kind as int)
    &&& known.contains_key(sidecar.source) && known[sidecar.source]
    &&& !sidecar.copy_only
    &&& exists|n: nat|
        sidecar.target == #[trigger] reserve::candidate(sidecar_path(target, kind as int), n)
}

/// Whether, of the files that may go with a track, from the given kind on, exactly
/// those that exist were gathered.
pub open spec fn brings_companions(
    source: Seq<path::PartView>,
    target: Seq<path::PartView>,
    known: Map<Seq<path::PartView>, bool>,
    before: Seq<SidecarView>,
    after: Seq<SidecarView>,
    kind: nat,
) -> bool {
    &&& before.len() <= after.len()
    &&& forall|i: int| 0 <= i < before.len() ==> after[i] == #[trigger] before[i]
    &&& forall|i: int|
        before.len() <= i < after.len() ==> {
            ||| kind == 0 && follows_track(#[trigger] after[i], source, target, known, 0)
            ||| kind <= 1 && follows_track(after[i], source, target, known, 1)
        }
    &&& kind == 0 && known[sidecar_path(source, 0)] ==> exists|i: int|
        before.len() <= i < after.len() && follows_track(
            #[trigger] after[i],
            source,
            target,
            known,
            0,
        )
    &&& kind <= 1 && known[sidecar_path(source, 1)] ==> exists|i: int|
        before.len() <= i < after.len() && follows_track(
            #[trigger] after[i],
            source,
            target,
            known,
            1,
        )
}

proof fn lemma_brings_another(
    source: Seq<path::PartView>,
    target: Seq<path::PartView>,
    known: Map<Seq<path::PartView>, bool>,
    before: Seq<SidecarView>,
    sidecar: SidecarView,
    after: Seq<SidecarView>,
    kind: nat,
)
    requires
        brings_companions(source, target, known, before.push(sidecar), after, kind + 1),
        follows_track(sidecar, source, target, known, kind),
        kind < 2,
    ensures
        brings_companions(source, target, known, before, after, kind),
{
    let start = before.len() as int;
    let next = before.push(sidecar);
    assert(next[start] == sidecar);
    assert(after[start] == sidecar);
    assert(follows_track(after[start], source, target, known, kind));
    assert forall|i: int| 0 <= i < before.len() implies after[i] == #[trigger] before[i] by {
        assert(next[i] == before[i]);
    }
    if kind == 0 && known[sidecar_path(source, 1)] {
        let i = choose|i: int|
            next.len() <= i < after.len() && follows_track(
                #[trigger] after[i],
                source,
                target,
                known,
                1,
            );
        assert(before.len() <= i && follows_track(after[i], source, target, known, 1));
    }
}

/// Exactly the files that exist beside a track follow it.
pub proof fn law_companions_follow(
    precedence: Precedence,
    source: Seq<path::PartView>,
    target: Seq<path::PartView>,
    known: Map<Seq<path::PartView>, bool>,
    so_far: Gathered,
    kind: nat,
)
    ensures
        gathered_from(precedence, source, target, known, so_far, kind) matches Planned::Done(all)
            ==> brings_companions(source, target, known, so_far.sidecars, all.sidecars, kind),
    decreases TRACK_SIDECARS - kind,
{
    if kind < TRACK_SIDECARS {
        let file = sidecar_path(source, kind as int);
        let desired = sidecar_path(target, kind as int);
        if known.contains_key(file) && !known[file] {
            law_companions_follow(precedence, source, target, known, so_far, kind + 1);
        } else if known.contains_key(file) {
            if let reserve::ReservationView::Free(free) = reserve::reservation(
                precedence,
                desired,
                Some(file),
                so_far.taken,
                known,
                0,
            ) {
                let sidecar = SidecarView { source: file, target: free, copy_only: false };
                let next = Gathered {
                    sidecars: so_far.sidecars.push(sidecar),
                    taken: so_far.taken.insert(free),
                };
                law_companions_follow(precedence, source, target, known, next, kind + 1);
                reserve::law_reserved_path_is_first(
                    precedence,
                    desired,
                    Some(file),
                    so_far.taken,
                    known,
                    0,
                );
                assert(follows_track(sidecar, source, target, known, kind)) by {
                    reveal(follows_track);
                }
                if let Planned::Done(all) = gathered_from(
                    precedence,
                    source,
                    target,
                    known,
                    next,
                    kind + 1,
                ) {
                    lemma_brings_another(
                        source,
                        target,
                        known,
                        so_far.sidecars,
                        sidecar,
                        all.sidecars,
                        kind,
                    );
                }
            }
        }
    }
}

/// The name of a file that goes with an album is the name of one component of a
/// path.
pub(crate) proof fn lemma_album_name_is_plain(entry: EntryView)
    requires
        path::is_valid(entry.path),
    ensures
        album_sidecar_name(entry) matches Some(name) ==> {
            &&& name.len() > 0
            &&& name != seq!['.']
            &&& name != seq!['.', '.']
            &&& !name.contains('/')
        },
{
    if let Some(name) = album_sidecar_name(entry) {
        let bytes = path::name_of(entry.path).unwrap();
        vstd::utf8::decode_utf8_encode_utf8(bytes);
        assert(vstd::utf8::encode_utf8(name) == bytes);
        assert(path::is_inner_part(entry.path[entry.path.len() - 1]));
        path::lemma_dot_bytes();
        path::lemma_encode_append(seq!['.'], seq!['.']);
        assert(seq!['.'] + seq!['.'] =~= seq!['.', '.']);
        assert(seq![46u8] + seq![46u8] =~= seq![46u8, 46u8]);
        if name.contains('/') {
            let i = choose|i: int| 0 <= i < name.len() && name[i] == '/';
            path::lemma_slash_has_its_byte(name.take(i), name.skip(i + 1));
            assert(name.take(i) + seq!['/'] + name.skip(i + 1) =~= name);
        }
    }
}

/// A file whose stem is text gets another extension.
pub(crate) proof fn lemma_extension_text(
    path: Seq<path::PartView>,
    stem: Seq<char>,
    extension: Seq<char>,
)
    requires
        path::is_valid(path),
        path::stem_of(path) == Some(vstd::utf8::encode_utf8(stem)),
        extension.len() > 0,
    ensures
        with_extension_text(path, extension) == path.drop_last().push(
            path::PartView::Name(vstd::utf8::encode_utf8(stem + seq!['.'] + extension)),
        ),
{
    let bytes = vstd::utf8::encode_utf8(extension);
    vstd::utf8::encode_utf8_decode_utf8(extension);
    if bytes.len() == 0 {
        assert(vstd::utf8::decode_utf8(bytes) =~= Seq::empty());
    }
    path::law_extension_is_replaced(path, bytes);
    path::lemma_encode_append(stem + seq!['.'], extension);
    path::lemma_encode_append(stem, seq!['.']);
    path::lemma_dot_bytes();
}

/// A name without a full stop is its own stem.
pub(crate) proof fn lemma_bare_name(front: Seq<path::PartView>, stem: Seq<char>)
    requires
        !stem.contains('.'),
    ensures
        ({
            let path = front.push(path::PartView::Name(vstd::utf8::encode_utf8(stem)));
            &&& path::stem_of(path) == Some(vstd::utf8::encode_utf8(stem))
            &&& path::extension_of(path) is None
        }),
{
    assert('.' as u32 == 46);
    path::lemma_no_ascii_byte(stem, '.', 46);
    path::lemma_no_dot_no_extension(vstd::utf8::encode_utf8(stem));
}

/// A file that goes with a track keeps the name of the track: the path beside the
/// target is its own, if it is not taken and no other file is there.
pub proof fn law_companion_keeps_the_name(
    precedence: Precedence,
    source: Seq<path::PartView>,
    target: Seq<path::PartView>,
    known: Map<Seq<path::PartView>, bool>,
    so_far: Gathered,
    kind: nat,
)
    requires
        kind < 2,
        known.contains_key(sidecar_path(source, kind as int)),
        known[sidecar_path(source, kind as int)],
        !so_far.taken.contains(sidecar_path(target, kind as int)),
        sidecar_path(target, kind as int) == sidecar_path(source, kind as int) || (
        known.contains_key(sidecar_path(target, kind as int)) && !known[sidecar_path(
            target,
            kind as int,
        )]),
    ensures
        gathered_from(precedence, source, target, known, so_far, kind) matches Planned::Done(all)
            ==> {
            let first = all.sidecars[so_far.sidecars.len() as int];
            &&& all.sidecars.len() > so_far.sidecars.len()
            &&& first.source == sidecar_path(source, kind as int)
            &&& first.target == sidecar_path(target, kind as int)
            &&& !first.copy_only
        },
{
    let file = sidecar_path(source, kind as int);
    let desired = sidecar_path(target, kind as int);
    reserve::law_free_target_is_given(precedence, desired, Some(file), so_far.taken, known);
    let sidecar = SidecarView { source: file, target: desired, copy_only: false };
    let next = Gathered {
        sidecars: so_far.sidecars.push(sidecar),
        taken: so_far.taken.insert(desired),
    };
    law_companions_follow(precedence, source, target, known, next, kind + 1);
    if let Planned::Done(all) = gathered_from(precedence, source, target, known, next, kind + 1) {
        assert(next.sidecars[so_far.sidecars.len() as int] == sidecar);
    }
}

/// The outcome of gathering tells the files and every path that is taken after it, or
/// the file that is asked about.
pub proof fn law_outcome_is_exact(
    outcome: Gather,
    taken: Set<Seq<path::PartView>>,
    planned: Planned<Gathered>,
)
    requires
        gathers(outcome, taken, planned),
    ensures
        outcome matches Gather::Done(files) ==> planned is Done && planned->Done_0.sidecars
            == sidecar_views(files@) && planned->Done_0.taken == taken,
        outcome matches Gather::Ask(file) ==> planned is Ask && planned->Ask_0 == file@,
        outcome is Exhausted <==> planned is Exhausted,
{
}

} // verus!
