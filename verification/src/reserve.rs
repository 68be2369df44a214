//! Finding a path that is still free.

use vstd::prelude::*;

use crate::chars;
use crate::known::KnownFiles;
use crate::numbers;
use crate::numbers::decimal_text;
use crate::path;
use crate::path::FilePath;
use crate::pathset::Claims;
use crate::strings::concat;

verus! {

/// The largest number that is put behind a name to make it a new one.
pub const MAX_INDEX: u64 = 2147483647;

/// What a file that already stands at its own target does about a reservation of
/// that target.
#[derive(Debug, Clone, Copy, PartialEq, Eq)]
pub enum Precedence {
    /// It stays.
    OwnPath,
    /// It gives way.
    Reservation,
}

/// Whether a path is free, as far as is known.
pub enum Availability {
    Free,
    Taken,
    Unknown,
}

/// Whether `path` is free for a file that stands at `current`.
pub open spec fn availability(
    precedence: Precedence,
    path: Seq<path::PartView>,
    current: Option<Seq<path::PartView>>,
    taken: Set<Seq<path::PartView>>,
    known: Map<Seq<path::PartView>, bool>,
) -> Availability {
    if precedence is Reservation && taken.contains(path) {
        Availability::Taken
    } else if current == Some(path) {
        Availability::Free
    } else if !known.contains_key(path) {
        Availability::Unknown
    } else if known[path] || taken.contains(path) {
        Availability::Taken
    } else {
        Availability::Free
    }
}

/// The stem of a numbered name: that of the target, if it is text.
pub open spec fn numbered_stem(target: Seq<path::PartView>) -> Seq<char> {
    match path::bytes_opt_text(path::stem_of(target)) {
        Some(stem) => stem,
        None => "file"@,
    }
}

/// The ending of a numbered name: that of the target, if it has one that is
/// text.
pub open spec fn numbered_ending(target: Seq<path::PartView>) -> Seq<char> {
    match path::bytes_opt_text(path::extension_of(target)) {
        Some(extension) => "."@ + extension,
        None => ""@,
    }
}

/// The directory of the target.
pub open spec fn numbered_directory(target: Seq<path::PartView>) -> Seq<path::PartView> {
    match path::parent_of(target) {
        Some(parent) => parent,
        None => Seq::empty(),
    }
}

/// The paths tried for a target: the target itself, then numbered ones beside
/// it.
pub open spec fn candidate(target: Seq<path::PartView>, index: nat) -> Seq<path::PartView> {
    if index == 0 {
        target
    } else {
        path::joined(
            numbered_directory(target),
            numbered_stem(target) + " ("@ + numbers::decimal(index) + ")"@ + numbered_ending(
                target,
            ),
        )
    }
}

/// The outcome of the search for a free path.
#[derive(Debug)]
pub enum Reservation {
    /// This path is free.
    Free(FilePath),
    /// The search cannot go on without knowing whether this file exists.
    Ask(FilePath),
    /// No path is free.
    Exhausted,
}

/// The outcome of the search for a free path, by its content.
pub enum ReservationView {
    Free(Seq<path::PartView>),
    Ask(Seq<path::PartView>),
    Exhausted,
}

impl View for Reservation {
    type V = ReservationView;

    open spec fn view(&self) -> ReservationView {
        match self {
            Reservation::Free(path) => ReservationView::Free(path@),
            Reservation::Ask(path) => ReservationView::Ask(path@),
            Reservation::Exhausted => ReservationView::Exhausted,
        }
    }
}

/// The first candidate from `index` on that is not taken.
pub open spec fn reservation(
    precedence: Precedence,
    target: Seq<path::PartView>,
    current: Option<Seq<path::PartView>>,
    taken: Set<Seq<path::PartView>>,
    known: Map<Seq<path::PartView>, bool>,
    index: nat,
) -> ReservationView
    decreases MAX_INDEX + 1 - index,
{
    if index > MAX_INDEX {
        ReservationView::Exhausted
    } else {
        let path = candidate(target, index);
        match availability(precedence, path, current, taken, known) {
            Availability::Free => ReservationView::Free(path),
            Availability::Unknown => ReservationView::Ask(path),
            Availability::Taken => reservation(
                precedence,
                target,
                current,
                taken,
                known,
                index + 1,
            ),
        }
    }
}

/// A reserved path is the file's own or one where no file exists, and nobody
/// else has it unless the file keeps its own path; a question is about a file of
/// which nothing is known.
pub proof fn law_reserved_path_is_free(
    precedence: Precedence,
    target: Seq<path::PartView>,
    current: Option<Seq<path::PartView>>,
    taken: Set<Seq<path::PartView>>,
    known: Map<Seq<path::PartView>, bool>,
    index: nat,
)
    ensures
        match reservation(precedence, target, current, taken, known, index) {
            ReservationView::Free(path) => {
                &&& current == Some(path) || (known.contains_key(path) && !known[path])
                &&& taken.contains(path) ==> precedence is OwnPath && current == Some(path)
            },
            ReservationView::Ask(path) => !known.contains_key(path),
            ReservationView::Exhausted => true,
        },
    decreases MAX_INDEX + 1 - index,
{
    if index <= MAX_INDEX {
        law_reserved_path_is_free(precedence, target, current, taken, known, index + 1);
    }
}

/// Whether `path` is a candidate, and all candidates before it from `index` on
/// are taken.
pub open spec fn is_first_open(
    precedence: Precedence,
    target: Seq<path::PartView>,
    current: Option<Seq<path::PartView>>,
    taken: Set<Seq<path::PartView>>,
    known: Map<Seq<path::PartView>, bool>,
    index: nat,
    path: Seq<path::PartView>,
) -> bool {
    exists|n: nat|
        index <= n <= MAX_INDEX && path == #[trigger] candidate(target, n) && all_taken(
            precedence,
            target,
            current,
            taken,
            known,
            index,
            n,
        )
}

/// The path reserved, or asked about, is the first candidate that is not taken;
/// the search ends without one only if all are.
pub proof fn law_reserved_path_is_first(
    precedence: Precedence,
    target: Seq<path::PartView>,
    current: Option<Seq<path::PartView>>,
    taken: Set<Seq<path::PartView>>,
    known: Map<Seq<path::PartView>, bool>,
    index: nat,
)
    ensures
        match reservation(precedence, target, current, taken, known, index) {
            ReservationView::Free(path) => is_first_open(
                precedence,
                target,
                current,
                taken,
                known,
                index,
                path,
            ),
            ReservationView::Ask(path) => is_first_open(
                precedence,
                target,
                current,
                taken,
                known,
                index,
                path,
            ),
            ReservationView::Exhausted => all_taken(
                precedence,
                target,
                current,
                taken,
                known,
                index,
                (MAX_INDEX + 1) as nat,
            ),
        },
    decreases MAX_INDEX + 1 - index,
{
    if index <= MAX_INDEX {
        let path = candidate(target, index);
        if availability(precedence, path, current, taken, known) is Taken {
            law_reserved_path_is_first(precedence, target, current, taken, known, index + 1);
            let found = match reservation(precedence, target, current, taken, known, index + 1) {
                ReservationView::Free(found) => found,
                ReservationView::Ask(found) => found,
                ReservationView::Exhausted => target,
            };
            if is_first_open(precedence, target, current, taken, known, index + 1, found) {
                let n = choose|n: nat|
                    index + 1 <= n <= MAX_INDEX && found == #[trigger] candidate(target, n)
                        && all_taken(precedence, target, current, taken, known, index + 1, n);
                assert(all_taken(precedence, target, current, taken, known, index, n));
            }
        } else {
            assert(all_taken(precedence, target, current, taken, known, index, index));
        }
    }
}

/// Whether the candidates from `start` up to, and without, `end` are all taken.
pub open spec fn all_taken(
    precedence: Precedence,
    target: Seq<path::PartView>,
    current: Option<Seq<path::PartView>>,
    taken: Set<Seq<path::PartView>>,
    known: Map<Seq<path::PartView>, bool>,
    start: nat,
    end: nat,
) -> bool {
    forall|m: nat|
        start <= m < end ==> availability(
            precedence,
            #[trigger] candidate(target, m),
            current,
            taken,
            known,
        ) is Taken
}

/// The path tried at a position.
pub fn numbered(target: &FilePath, index: u64) -> (res: FilePath)
    ensures
        res@ == candidate(target@, index as nat),
        path::is_valid(target@) ==> path::is_valid(res@),
{
    if index == 0 {
        return target.clone();
    }
    let stem = match target.file_stem_text() {
        Some(stem) => stem,
        None => "file".to_string(),
    };
    let ending = match target.extension_text() {
        Some(extension) => concat(".", &extension),
        None => "".to_string(),
    };
    let directory = match target.parent() {
        Some(parent) => parent,
        None => {
            let none = FilePath { parts: Vec::new() };
            assert(none@ =~= Seq::empty());
            none
        },
    };
    let number = decimal_text(index);
    let name = concat(&concat(&concat(&concat(&stem, " ("), &number), ")"), &ending);
    directory.join(&name)
}

/// Whether a path is free for a file that stands at `current`.
pub fn available(
    precedence: Precedence,
    target: &FilePath,
    claims: &Claims,
    current: Option<&FilePath>,
    known: &KnownFiles,
) -> (res: Option<bool>)
    ensures
        match availability(precedence, target@, path::path_ref_opt(current), claims@, known@) {
            Availability::Free => res == Some(true),
            Availability::Taken => res == Some(false),
            Availability::Unknown => res is None,
        },
{
    let claimed = claims.contains(target);
    if let Precedence::Reservation = precedence {
        if claimed {
            return Some(false);
        }
    }
    if let Some(path) = current {
        if path.is_same(target) {
            return Some(true);
        }
    }
    match known.is_present(target) {
        Some(present) => Some(!present && !claimed),
        None => None,
    }
}

/// Finds a free path for a file that stands at `current`, and takes it.
pub fn reserve_unique(
    precedence: Precedence,
    target: &FilePath,
    claims: &mut Claims,
    current: Option<&FilePath>,
    known: &KnownFiles,
) -> (res: Reservation)
    ensures
        res@ == reservation(
            precedence,
            target@,
            path::path_ref_opt(current),
            old(claims)@,
            known@,
            0,
        ),
        final(claims)@ == match res {
            Reservation::Free(path) => old(claims)@.insert(path@),
            _ => old(claims)@,
        },
        final(claims).base() == old(claims).base(),
{
    let mut index: u64 = 0;
    loop
        invariant
            index <= MAX_INDEX,
            *claims == *old(claims),
            reservation(
                precedence,
                target@,
                path::path_ref_opt(current),
                claims@,
                known@,
                0,
            ) == reservation(
                precedence,
                target@,
                path::path_ref_opt(current),
                claims@,
                known@,
                index as nat,
            ),
        decreases MAX_INDEX - index,
    {
        let path = numbered(target, index);
        match available(precedence, &path, claims, current, known) {
            Some(true) => {
                claims.insert(path.clone());
                return Reservation::Free(path);
            },
            Some(false) => {},
            None => {
                return Reservation::Ask(path);
            },
        }
        if index == MAX_INDEX {
            assert(reservation(
                precedence,
                target@,
                path::path_ref_opt(current),
                claims@,
                known@,
                (index + 1) as nat,
            ) is Exhausted);
            return Reservation::Exhausted;
        }
        index = index + 1;
    }
}

/// When a path is free for a file, when it is taken, and when that cannot be told,
/// spelled out.
pub proof fn law_availability(
    precedence: Precedence,
    path: Seq<path::PartView>,
    current: Option<Seq<path::PartView>>,
    taken: Set<Seq<path::PartView>>,
    known: Map<Seq<path::PartView>, bool>,
)
    ensures
        current == Some(path) && !taken.contains(path) ==> availability(
            precedence,
            path,
            current,
            taken,
            known,
        ) is Free,
        current == Some(path) && taken.contains(path) ==> (availability(
            precedence,
            path,
            current,
            taken,
            known,
        ) is Free) == (precedence is OwnPath),
        current == Some(path) ==> !(availability(precedence, path, current, taken, known)
            is Unknown),
        current != Some(path) ==> {
            let there = known.contains_key(path) && known[path];
            let absent = known.contains_key(path) && !known[path];
            &&& availability(precedence, path, current, taken, known) is Free <==> absent
                && !taken.contains(path)
            &&& there ==> availability(precedence, path, current, taken, known) is Taken
            &&& absent && taken.contains(path) ==> availability(
                precedence,
                path,
                current,
                taken,
                known,
            ) is Taken
            &&& !known.contains_key(path) && !taken.contains(path) ==> availability(
                precedence,
                path,
                current,
                taken,
                known,
            ) is Unknown
        },
{
}

/// A file gets the path that it is meant for, if that is its own or no file exists
/// there, and it was not taken. If a file exists there, it does not get it.
pub proof fn law_free_target_is_given(
    precedence: Precedence,
    target: Seq<path::PartView>,
    current: Option<Seq<path::PartView>>,
    taken: Set<Seq<path::PartView>>,
    known: Map<Seq<path::PartView>, bool>,
)
    ensures
        !taken.contains(target) && (current == Some(target) || (known.contains_key(target)
            && !known[target])) ==> reservation(precedence, target, current, taken, known, 0)
            == ReservationView::Free(target),
        current != Some(target) && !known.contains_key(target) && !taken.contains(target)
            ==> reservation(precedence, target, current, taken, known, 0) == ReservationView::Ask(
            target,
        ),
        current != Some(target) && known.contains_key(target) && known[target] ==> reservation(
            precedence,
            target,
            current,
            taken,
            known,
            0,
        ) == reservation(precedence, target, current, taken, known, 1),
{
    law_availability(precedence, target, current, taken, known);
    assert(candidate(target, 0) == target);
}

/// The further names of a file: its own with a number in brackets before the
/// extension, in the same directory.
pub proof fn law_numbered_name(
    front: Seq<path::PartView>,
    stem: Seq<char>,
    extension: Seq<char>,
    n: nat,
)
    requires
        stem.len() > 0,
        !stem.contains('/'),
        !extension.contains('/'),
        !extension.contains('.'),
        n > 0,
    ensures
        candidate(
            front.push(
                path::PartView::Name(
                    vstd::utf8::encode_utf8(stem + seq!['.'] + extension),
                ),
            ),
            n,
        ) == front.push(
            path::PartView::Name(
                vstd::utf8::encode_utf8(
                    stem + seq![' ', '('] + numbers::decimal(n) + seq![')', '.'] + extension,
                ),
            ),
        ),
{
    let target = front.push(
        path::PartView::Name(vstd::utf8::encode_utf8(stem + seq!['.'] + extension)),
    );
    path::law_spelled_name(front, stem, extension);
    path::law_parent_and_name(target);
    assert(target.drop_last() =~= front);
    reveal_strlit(" (");
    reveal_strlit(")");
    reveal_strlit(".");
    assert(" ("@ =~= seq![' ', '(']);
    assert(")"@ =~= seq![')']);
    assert("."@ =~= seq!['.']);
    let digits = numbers::decimal(n);
    let name = numbered_stem(target) + " ("@ + digits + ")"@ + numbered_ending(target);
    let plain = stem + seq![' ', '('] + digits + seq![')', '.'] + extension;
    assert(name =~= plain);
    numbers::law_decimal_round_trip(n);
    assert(!plain.contains('/')) by {
        if plain.contains('/') {
            let i = choose|i: int| 0 <= i < plain.len() && plain[i] == '/';
            let a = stem.len() as int;
            let b = a + 2 + digits.len();
            if i < a {
                assert(stem[i] == '/');
            } else if a + 2 <= i < b {
                assert(digits[i - a - 2] == '/');
                chars::law_ascii_classes(digits[i - a - 2]);
                assert(chars::is_ascii_digit_char(digits[i - a - 2]));
            } else if i >= b + 2 {
                assert(extension[i - b - 2] == '/');
            }
        }
    }
    assert(plain.len() > 2);
    path::law_join_plain_name(front, plain);
}

/// The further names of a file without an extension, and of one whose name is not
/// text.
pub proof fn law_other_numbered_names(
    front: Seq<path::PartView>,
    stem: Seq<char>,
    bytes: Seq<u8>,
    n: nat,
)
    requires
        stem.len() > 0,
        !stem.contains('/'),
        !stem.contains('.'),
        !bytes.contains(46),
        !vstd::utf8::valid_utf8(bytes),
        n > 0,
    ensures
        candidate(front.push(path::PartView::Name(vstd::utf8::encode_utf8(stem))), n)
            == front.push(
            path::PartView::Name(
                vstd::utf8::encode_utf8(
                    stem + seq![' ', '('] + numbers::decimal(n) + seq![')'],
                ),
            ),
        ),
        candidate(front.push(path::PartView::Name(bytes)), n) == front.push(
            path::PartView::Name(
                vstd::utf8::encode_utf8(
                    seq!['f', 'i', 'l', 'e', ' ', '('] + numbers::decimal(n) + seq![')'],
                ),
            ),
        ),
{
    reveal_strlit(" (");
    reveal_strlit(")");
    reveal_strlit("");
    reveal_strlit("file");
    assert(" ("@ =~= seq![' ', '(']);
    assert(")"@ =~= seq![')']);
    assert("file"@ =~= seq!['f', 'i', 'l', 'e']);
    assert(""@ =~= Seq::<char>::empty());
    vstd::utf8::encode_utf8_valid_utf8(stem);
    lemma_numbered_plainly(front, stem, vstd::utf8::encode_utf8(stem), n);
    lemma_numbered_plainly(front, "file"@, bytes, n);
    assert("file"@ + seq![' ', '('] =~= seq!['f', 'i', 'l', 'e', ' ', '(']);
}

proof fn lemma_numbered_plainly(
    front: Seq<path::PartView>,
    stem: Seq<char>,
    bytes: Seq<u8>,
    n: nat,
)
    requires
        stem.len() > 0,
        !stem.contains('/'),
        !stem.contains('.'),
        n > 0,
        " ("@ == seq![' ', '('],
        ")"@ == seq![')'],
        ""@ == Seq::<char>::empty(),
        if vstd::utf8::valid_utf8(bytes) {
            bytes == vstd::utf8::encode_utf8(stem)
        } else {
            stem == "file"@ && !bytes.contains(46)
        },
    ensures
        candidate(front.push(path::PartView::Name(bytes)), n) == front.push(
            path::PartView::Name(
                vstd::utf8::encode_utf8(
                    stem + seq![' ', '('] + numbers::decimal(n) + seq![')'],
                ),
            ),
        ),
{
    let target = front.push(path::PartView::Name(bytes));
    assert(target.drop_last() =~= front);
    assert('.' as u32 == 46);
    path::lemma_no_ascii_byte(stem, '.', 46);
    vstd::utf8::encode_utf8_valid_utf8(stem);
    vstd::utf8::encode_utf8_decode_utf8(stem);
    assert(!bytes.contains(46));
    path::lemma_no_dot_no_extension(bytes);
    let digits = numbers::decimal(n);
    let name = numbered_stem(target) + " ("@ + digits + ")"@ + numbered_ending(target);
    let plain = stem + seq![' ', '('] + digits + seq![')'];
    assert(name =~= plain);
    numbers::law_decimal_round_trip(n);
    assert(!plain.contains('/')) by {
        if plain.contains('/') {
            let i = choose|i: int| 0 <= i < plain.len() && plain[i] == '/';
            let a = stem.len() as int;
            let b = a + 2 + digits.len();
            if i < a {
                assert(stem[i] == '/');
            } else if a + 2 <= i < b {
                assert(digits[i - a - 2] == '/');
                chars::law_ascii_classes(digits[i - a - 2]);
                assert(chars::is_ascii_digit_char(digits[i - a - 2]));
            }
        }
    }
    assert(plain.len() > 2);
    path::law_join_plain_name(front, plain);
}

/// The search for a free path ends only when more than two thousand million names of
/// the file are taken.
pub proof fn law_names_do_not_run_out(
    precedence: Precedence,
    target: Seq<path::PartView>,
    current: Option<Seq<path::PartView>>,
    taken: Set<Seq<path::PartView>>,
    known: Map<Seq<path::PartView>, bool>,
    n: nat,
)
    requires
        n <= 2_147_483_647,
        reservation(precedence, target, current, taken, known, 0) is Exhausted,
    ensures
        taken.contains(candidate(target, n)) || (known.contains_key(candidate(target, n))
            && known[candidate(target, n)]),
{
    law_reserved_path_is_first(precedence, target, current, taken, known, 0);
    law_availability(precedence, candidate(target, n), current, taken, known);
}

} // verus!
