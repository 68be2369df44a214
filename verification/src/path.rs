//! File paths as lists of components.
//!
//! A path is what Unix reads from it: an optional root, an optional leading
//! `.`, and then names and `..`. Repeated separators, inner `.` and trailing
//! separators carry no meaning and are not kept. A name is a string of bytes, as
//! it is to the file system, and need not be text.

use vstd::prelude::*;

use crate::chars;
use crate::order;
use crate::order::{bytes_before, Ranked};
use crate::strings;
use crate::strings::{same_bytes, text_of};

verus! {

/// One component of a path.
#[derive(Debug)]
pub enum PathPart {
    Root,
    Current,
    Parent,
    Name(Vec<u8>),
}

/// One component of a path, by its content.
pub enum PartView {
    Root,
    Current,
    Parent,
    Name(Seq<u8>),
}

/// A path as its components.
#[derive(Debug)]
pub struct FilePath {
    pub parts: Vec<PathPart>,
}

impl View for PathPart {
    type V = PartView;

    open spec fn view(&self) -> PartView {
        match self {
            PathPart::Root => PartView::Root,
            PathPart::Current => PartView::Current,
            PathPart::Parent => PartView::Parent,
            PathPart::Name(name) => PartView::Name(name@),
        }
    }
}

impl View for FilePath {
    type V = Seq<PartView>;

    open spec fn view(&self) -> Seq<PartView> {
        Seq::new(self.parts@.len(), |i: int| self.parts@[i]@)
    }
}

/// The contents of a list of paths.
pub open spec fn path_views(paths: Seq<FilePath>) -> Seq<Seq<PartView>> {
    paths.map_values(|path: FilePath| path@)
}

/// The content of an optional path.
pub open spec fn path_opt(path: Option<FilePath>) -> Option<Seq<PartView>> {
    match path {
        Some(path) => Some(path@),
        None => None,
    }
}

/// The content of an optional borrowed path.
pub open spec fn path_ref_opt(path: Option<&FilePath>) -> Option<Seq<PartView>> {
    match path {
        Some(path) => Some(path@),
        None => None,
    }
}

/// The text that `bytes` encode, if they are valid UTF-8.
pub open spec fn bytes_text(bytes: Seq<u8>) -> Option<Seq<char>> {
    if vstd::utf8::valid_utf8(bytes) {
        Some(vstd::utf8::decode_utf8(bytes))
    } else {
        None
    }
}

/// The text of an optional byte string.
pub open spec fn bytes_opt_text(bytes: Option<Seq<u8>>) -> Option<Seq<char>> {
    match bytes {
        Some(bytes) => bytes_text(bytes),
        None => None,
    }
}

/// The last component, if it is a name.
pub open spec fn name_of(path: Seq<PartView>) -> Option<Seq<u8>> {
    if path.len() > 0 && path.last() is Name {
        Some(path.last()->Name_0)
    } else {
        None
    }
}

/// The path without its last component; a root has none to lose.
pub open spec fn parent_of(path: Seq<PartView>) -> Option<Seq<PartView>> {
    if path.len() == 0 || path.last() is Root {
        None
    } else {
        Some(path.drop_last())
    }
}

/// The position of the last full stop at or before `end`, or -1.
pub open spec fn last_dot(name: Seq<u8>, end: int) -> int
    decreases end + 1,
{
    if end < 0 {
        -1
    } else if name[end] == 46 {
        end
    } else {
        last_dot(name, end - 1)
    }
}

/// Where the extension of a name begins with its full stop: at the last one,
/// unless that opens the name.
pub open spec fn extension_start(name: Seq<u8>) -> Option<int> {
    let dot = last_dot(name, name.len() - 1);
    if dot > 0 {
        Some(dot)
    } else {
        None
    }
}

/// A name without its extension.
pub open spec fn stem_of_name(name: Seq<u8>) -> Seq<u8> {
    match extension_start(name) {
        Some(dot) => name.take(dot),
        None => name,
    }
}

/// The extension of a name, without the full stop.
pub open spec fn extension_of_name(name: Seq<u8>) -> Option<Seq<u8>> {
    match extension_start(name) {
        Some(dot) => Some(name.skip(dot + 1)),
        None => None,
    }
}

/// The name of a path without its extension.
pub open spec fn stem_of(path: Seq<PartView>) -> Option<Seq<u8>> {
    match name_of(path) {
        Some(name) => Some(stem_of_name(name)),
        None => None,
    }
}

/// The extension of a path's name.
pub open spec fn extension_of(path: Seq<PartView>) -> Option<Seq<u8>> {
    match name_of(path) {
        Some(name) => extension_of_name(name),
        None => None,
    }
}

/// The pieces of `text` between slashes.
pub open spec fn segments(text: Seq<char>) -> Seq<Seq<char>>
    decreases text.len(),
{
    if text.len() == 0 {
        seq![Seq::empty()]
    } else {
        let before = segments(text.drop_last());
        if text.last() == '/' {
            before.push(Seq::empty())
        } else {
            before.drop_last().push(before.last().push(text.last()))
        }
    }
}

/// The component that a piece between slashes stands for; an empty one and `.`
/// stand for none.
pub open spec fn segment_part(segment: Seq<char>) -> Option<PartView> {
    if segment.len() == 0 || segment == seq!['.'] {
        None
    } else if segment == seq!['.', '.'] {
        Some(PartView::Parent)
    } else {
        Some(PartView::Name(vstd::utf8::encode_utf8(segment)))
    }
}

/// The components that a list of pieces stands for.
pub open spec fn segment_parts(pieces: Seq<Seq<char>>) -> Seq<PartView>
    decreases pieces.len(),
{
    if pieces.len() == 0 {
        Seq::empty()
    } else {
        let before = segment_parts(pieces.drop_last());
        match segment_part(pieces.last()) {
            Some(part) => before.push(part),
            None => before,
        }
    }
}

/// How `text` begins as a path of its own: at the root, with `.`, or plainly.
pub open spec fn path_lead(text: Seq<char>) -> Seq<PartView> {
    if text.len() > 0 && text[0] == '/' {
        seq![PartView::Root]
    } else if segments(text)[0] == seq!['.'] {
        seq![PartView::Current]
    } else {
        Seq::empty()
    }
}

/// The path that `text` spells.
pub open spec fn text_path(text: Seq<char>) -> Seq<PartView> {
    path_lead(text) + segment_parts(segments(text))
}

/// `text` as a path below `base`; a rooted or first one stands by itself.
pub open spec fn joined(base: Seq<PartView>, text: Seq<char>) -> Seq<PartView> {
    if base.len() == 0 || (text.len() > 0 && text[0] == '/') {
        text_path(text)
    } else {
        base + segment_parts(segments(text))
    }
}

/// A name made of a stem and an extension, with no full stop where there is no
/// extension.
pub open spec fn stem_with(stem: Seq<u8>, extension: Seq<u8>) -> Seq<u8> {
    if extension.len() == 0 {
        stem
    } else {
        stem + seq![46u8] + extension
    }
}

/// What a name that may be `.` or `..` stands for behind other components, or as
/// the first one.
pub open spec fn name_parts(name: Seq<u8>, is_first: bool) -> Seq<PartView> {
    if name == seq![46u8] {
        if is_first {
            seq![PartView::Current]
        } else {
            Seq::empty()
        }
    } else if name == seq![46u8, 46u8] {
        seq![PartView::Parent]
    } else {
        seq![PartView::Name(name)]
    }
}

/// `path` with the extension of its name replaced.
pub open spec fn with_extension_bytes(path: Seq<PartView>, extension: Seq<u8>) -> Seq<PartView> {
    match stem_of(path) {
        Some(stem) => path.drop_last() + name_parts(stem_with(stem, extension), path.len() == 1),
        None => path,
    }
}

/// Whether bytes are the name of a component: they are not empty, hold no slash,
/// and are not `.` or `..`.
pub open spec fn is_name(bytes: Seq<u8>) -> bool {
    &&& bytes.len() > 0
    &&& !bytes.contains(47)
    &&& bytes != seq![46u8]
    &&& bytes != seq![46u8, 46u8]
}

/// Whether a component may stand behind others.
pub open spec fn is_inner_part(part: PartView) -> bool {
    match part {
        PartView::Root => false,
        PartView::Current => false,
        PartView::Parent => true,
        PartView::Name(name) => is_name(name),
    }
}

/// Whether a list of components is a path: a root or `.` stands first only, and
/// names are names.
pub open spec fn is_valid(path: Seq<PartView>) -> bool {
    forall|i: int|
        0 <= i < path.len() ==> is_inner_part(#[trigger] path[i]) || (i == 0 && (path[i] is Root
            || path[i] is Current))
}

/// The order of components: root, `.`, `..`, then names by their bytes.
pub open spec fn part_before(a: PartView, b: PartView) -> bool {
    match (a, b) {
        (PartView::Root, _) => !(b is Root),
        (PartView::Current, _) => b is Parent || b is Name,
        (PartView::Parent, _) => b is Name,
        (PartView::Name(x), PartView::Name(y)) => order::lexical(x, y, order::byte_order()),
        (PartView::Name(_), _) => false,
    }
}

pub open spec fn part_order() -> spec_fn(PartView, PartView) -> bool {
    |a: PartView, b: PartView| part_before(a, b)
}

/// The order of paths: component by component.
pub open spec fn path_before(a: Seq<PartView>, b: Seq<PartView>) -> bool {
    order::lexical(a, b, part_order())
}

/// The order of paths is a strict order.
pub proof fn law_path_order_is_strict()
    ensures
        order::is_strict_order(order::lexical_order(part_order())),
{
    let names = order::lexical_order(order::byte_order());
    order::law_lexical_is_strict(order::byte_order());
    let less = part_order();
    assert forall|a: PartView| !(#[trigger] less(a, a)) by {
        if a is Name {
            assert(!names(a->Name_0, a->Name_0));
        }
    }
    assert forall|a: PartView, b: PartView, c: PartView| #[trigger]
        less(a, b) && #[trigger] less(b, c) implies less(a, c) by {
        if a is Name {
            assert(names(a->Name_0, b->Name_0) && names(b->Name_0, c->Name_0));
        }
    }
    assert forall|a: PartView, b: PartView| #[trigger] less(a, b) || less(b, a) || a == b by {
        if a is Name && b is Name {
            assert(names(a->Name_0, b->Name_0) || names(b->Name_0, a->Name_0) || a->Name_0
                == b->Name_0);
        }
    }
    order::law_lexical_is_strict(less);
}

proof fn lemma_segments_without_slash(text: Seq<char>)
    requires
        !text.contains('/'),
    ensures
        segments(text) == seq![text],
    decreases text.len(),
{
    if text.len() > 0 {
        assert(!text.drop_last().contains('/')) by {
            if text.drop_last().contains('/') {
                let i = choose|i: int| 0 <= i < text.len() - 1 && text.drop_last()[i] == '/';
                assert(text[i] == '/');
            }
        }
        lemma_segments_without_slash(text.drop_last());
        assert(text[text.len() - 1] != '/');
        assert(text.drop_last().push(text.last()) == text);
        assert(segments(text) =~= seq![text]);
    } else {
        assert(text =~= Seq::empty());
    }
}

/// A name without slashes that is not empty, `.` or `..`, joined to a path, is
/// its one new component.
pub proof fn law_join_plain_name(base: Seq<PartView>, name: Seq<char>)
    requires
        name.len() > 0,
        !name.contains('/'),
        name != seq!['.'],
        name != seq!['.', '.'],
    ensures
        joined(base, name) == base.push(PartView::Name(vstd::utf8::encode_utf8(name))),
{
    lemma_segments_without_slash(name);
    let pieces = seq![name];
    assert(pieces.drop_last() =~= Seq::<Seq<char>>::empty());
    assert(segment_parts(pieces.drop_last()) =~= Seq::empty());
    assert(segment_parts(pieces) =~= seq![PartView::Name(vstd::utf8::encode_utf8(name))]);
    assert(name[0] != '/') by {
        assert(name.contains(name[0]));
    }
    assert(joined(base, name) =~= base.push(PartView::Name(vstd::utf8::encode_utf8(name))));
}

proof fn lemma_scalar_bytes(scalar: u32, byte: u8)
    requires
        byte < 128,
        scalar != byte,
    ensures
        vstd::utf8::encode_scalar(scalar).len() > 0,
        !vstd::utf8::encode_scalar(scalar).contains(byte),
{
    let bytes = vstd::utf8::encode_scalar(scalar);
    if vstd::utf8::has_width_1_encoding(scalar) {
        assert((scalar & 0x7F) as u8 != byte) by (bit_vector)
            requires
                scalar <= 0x7F,
                scalar != byte,
        ;
    } else {
        assert(0xC0u8 | ((scalar >> 6) & 0x1F) as u8 >= 0x80u8) by (bit_vector);
        assert(0xE0u8 | ((scalar >> 12) & 0x0F) as u8 >= 0x80u8) by (bit_vector);
        assert(0xF0u8 | ((scalar >> 18) & 0x7) as u8 >= 0x80u8) by (bit_vector);
        assert(0x80u8 | (scalar & 0x3F) as u8 >= 0x80u8) by (bit_vector);
        assert(0x80u8 | ((scalar >> 6) & 0x3F) as u8 >= 0x80u8) by (bit_vector);
        assert(0x80u8 | ((scalar >> 12) & 0x3F) as u8 >= 0x80u8) by (bit_vector);
    }
    assert forall|i: int| 0 <= i < bytes.len() implies bytes[i] != byte by {}
}

/// Text without an ASCII character does not have it among its bytes.
pub(crate) proof fn lemma_no_ascii_byte(text: Seq<char>, c: char, byte: u8)
    requires
        !text.contains(c),
        byte < 128,
        c as u32 == byte,
    ensures
        !vstd::utf8::encode_utf8(text).contains(byte),
        text.len() > 0 ==> vstd::utf8::encode_utf8(text).len() > 0,
    decreases text.len(),
{
    if text.len() > 0 {
        let rest = text.drop_first();
        let first = vstd::utf8::encode_scalar(text[0] as u32);
        let more = vstd::utf8::encode_utf8(rest);
        assert(!rest.contains(c)) by {
            if rest.contains(c) {
                let i = choose|i: int| 0 <= i < rest.len() && rest[i] == c;
                assert(text[i + 1] == c);
            }
        }
        lemma_no_ascii_byte(rest, c, byte);
        assert(text.contains(text[0]));
        assert(text[0] as u32 != byte) by {
            if text[0] as u32 == byte {
                vstd::utf8::char_u32_cast(text[0], byte as u32);
                vstd::utf8::char_u32_cast(c, byte as u32);
            }
        }
        lemma_scalar_bytes(text[0] as u32, byte);
        let all = first + more;
        if all.contains(byte) {
            let i = choose|i: int| 0 <= i < all.len() && all[i] == byte;
            if i < first.len() {
                assert(first[i] == byte);
            } else {
                assert(more[i - first.len()] == byte);
            }
        }
    }
}

/// Text without slashes has no slash among its bytes.
pub(crate) proof fn lemma_no_slash_byte(text: Seq<char>)
    requires
        !text.contains('/'),
    ensures
        !vstd::utf8::encode_utf8(text).contains(47),
        text.len() > 0 ==> vstd::utf8::encode_utf8(text).len() > 0,
{
    assert('/' as u32 == 47);
    lemma_no_ascii_byte(text, '/', 47);
}

proof fn lemma_name_bytes(name: Seq<char>)
    requires
        name.len() > 0,
        !name.contains('/'),
        name != seq!['.'],
        name != seq!['.', '.'],
    ensures
        is_name(vstd::utf8::encode_utf8(name)),
{
    let bytes = vstd::utf8::encode_utf8(name);
    let one = seq!['.'];
    let two = seq!['.', '.'];
    lemma_no_slash_byte(name);
    vstd::utf8::is_ascii_chars_encode_utf8(one);
    vstd::utf8::is_ascii_chars_encode_utf8(two);
    assert('.' as u8 == 46);
    assert(one[0] as u8 == vstd::utf8::encode_utf8(one)[0]);
    assert(two[0] as u8 == vstd::utf8::encode_utf8(two)[0]);
    assert(two[1] as u8 == vstd::utf8::encode_utf8(two)[1]);
    assert(vstd::utf8::encode_utf8(one) =~= seq![46u8]);
    assert(vstd::utf8::encode_utf8(two) =~= seq![46u8, 46u8]);
    vstd::utf8::encode_utf8_decode_utf8(name);
    vstd::utf8::encode_utf8_decode_utf8(one);
    vstd::utf8::encode_utf8_decode_utf8(two);
}

proof fn lemma_segments_hold_no_slash(text: Seq<char>)
    ensures
        segments(text).len() > 0,
        forall|i: int|
            0 <= i < segments(text).len() ==> !(#[trigger] segments(text)[i]).contains('/'),
    decreases text.len(),
{
    let pieces = segments(text);
    if text.len() > 0 {
        lemma_segments_hold_no_slash(text.drop_last());
        let before = segments(text.drop_last());
        assert forall|i: int| 0 <= i < pieces.len() implies !(#[trigger] pieces[i]).contains(
            '/',
        ) by {
            if i < before.len() - 1 || (i < before.len() && text.last() == '/') {
                assert(pieces[i] == before[i]);
            } else if pieces[i].contains('/') {
                let k = choose|k: int| 0 <= k < pieces[i].len() && pieces[i][k] == '/';
                assert(!before[before.len() - 1].contains('/'));
                if text.last() != '/' && k < before.last().len() {
                    assert(before[before.len() - 1][k] == '/');
                }
            }
        }
    }
}

proof fn lemma_segment_parts_are_inner(pieces: Seq<Seq<char>>)
    requires
        forall|i: int| 0 <= i < pieces.len() ==> !(#[trigger] pieces[i]).contains('/'),
    ensures
        forall|i: int|
            0 <= i < segment_parts(pieces).len() ==> is_inner_part(
                #[trigger] segment_parts(pieces)[i],
            ),
    decreases pieces.len(),
{
    if pieces.len() > 0 {
        let rest = pieces.drop_last();
        assert forall|i: int| 0 <= i < rest.len() implies !(#[trigger] rest[i]).contains('/') by {
            assert(rest[i] == pieces[i]);
        }
        lemma_segment_parts_are_inner(rest);
        let last = pieces[pieces.len() - 1];
        assert(!last.contains('/'));
        if let Some(PartView::Name(_)) = segment_part(last) {
            lemma_name_bytes(last);
        }
        let before = segment_parts(rest);
        let parts = segment_parts(pieces);
        assert forall|i: int| 0 <= i < parts.len() implies is_inner_part(#[trigger] parts[i]) by {
            if i < before.len() {
                assert(parts[i] == before[i]);
            }
        }
    }
}

/// Every text spells a path.
pub proof fn law_text_path_is_valid(text: Seq<char>)
    ensures
        is_valid(text_path(text)),
{
    lemma_segments_hold_no_slash(text);
    lemma_segment_parts_are_inner(segments(text));
    let lead = path_lead(text);
    let parts = segment_parts(segments(text));
    let path = text_path(text);
    assert forall|i: int| 0 <= i < path.len() implies is_inner_part(#[trigger] path[i]) || (i == 0
        && (path[i] is Root || path[i] is Current)) by {
        if i >= lead.len() {
            assert(path[i] == parts[i - lead.len()]);
        }
    }
}

/// A text joined to a path gives a path.
pub proof fn law_joined_is_valid(base: Seq<PartView>, text: Seq<char>)
    requires
        is_valid(base),
    ensures
        is_valid(joined(base, text)),
{
    law_text_path_is_valid(text);
    lemma_segments_hold_no_slash(text);
    lemma_segment_parts_are_inner(segments(text));
    let parts = segment_parts(segments(text));
    let path = base + parts;
    assert forall|i: int| 0 <= i < path.len() implies is_inner_part(#[trigger] path[i]) || (i == 0
        && (path[i] is Root || path[i] is Current)) by {
        if i < base.len() {
            assert(path[i] == base[i]);
        } else {
            assert(path[i] == parts[i - base.len()]);
        }
    }
    if base.len() == 0 {
        assert(base =~= Seq::empty());
    }
    if !(base.len() == 0 || (text.len() > 0 && text[0] == '/')) {
        assert(joined(base, text) == path);
    }
}

/// What a path lies in is a path.
pub proof fn law_parent_is_valid(path: Seq<PartView>)
    requires
        is_valid(path),
    ensures
        parent_of(path) matches Some(parent) ==> is_valid(parent),
{
    let parent = path.drop_last();
    if path.len() > 0 {
        assert forall|i: int| 0 <= i < parent.len() implies is_inner_part(#[trigger] parent[i])
            || (i == 0 && (parent[i] is Root || parent[i] is Current)) by {
            assert(parent[i] == path[i]);
        }
    }
}

proof fn lemma_last_dot(name: Seq<u8>, end: int)
    requires
        -1 <= end < name.len(),
    ensures
        -1 <= last_dot(name, end) <= end,
        last_dot(name, end) >= 0 ==> name[last_dot(name, end)] == 46,
    decreases end + 1,
{
    if end >= 0 {
        lemma_last_dot(name, end - 1);
    }
}

/// A path with another extension, which holds no slash, is a path.
pub proof fn law_with_extension_is_valid(path: Seq<PartView>, extension: Seq<u8>)
    requires
        is_valid(path),
        !extension.contains(47),
    ensures
        is_valid(with_extension_bytes(path, extension)),
{
    if let Some(name) = name_of(path) {
        let last = path.len() - 1;
        assert(path[last] == PartView::Name(name));
        assert(is_name(name));
        lemma_last_dot(name, name.len() - 1);
        let stem = stem_of_name(name);
        let fresh = stem_with(stem, extension);
        assert(stem.len() > 0);
        assert(fresh.len() > 0);
        assert(!fresh.contains(47)) by {
            if fresh.contains(47) {
                let i = choose|i: int| 0 <= i < fresh.len() && fresh[i] == 47;
                if i < stem.len() {
                    assert(name[i] == 47);
                } else {
                    assert(extension[i - stem.len() - 1] == 47);
                }
            }
        }
        let parts = name_parts(fresh, path.len() == 1);
        let front = path.drop_last();
        let res = front + parts;
        assert forall|i: int| 0 <= i < res.len() implies is_inner_part(#[trigger] res[i]) || (i
            == 0 && (res[i] is Root || res[i] is Current)) by {
            if i < front.len() {
                assert(res[i] == path[i]);
            } else {
                assert(res[i] == parts[0]);
            }
        }
    }
}

/// `std::str::from_utf8` of the standard library, its text copied: succeeds on
/// exactly the byte strings that are valid UTF-8 and then gives the text that
/// they encode.
#[verifier::external_body]
fn utf8_text(bytes: &[u8]) -> (res: Option<String>)
    ensures
        strings::text_opt(res) == bytes_text(bytes@),
{
    std::str::from_utf8(bytes).ok().map(|text| text.to_string())
}

impl Clone for PathPart {
    fn clone(&self) -> (res: Self)
        ensures
            res@ == self@,
    {
        match self {
            PathPart::Root => PathPart::Root,
            PathPart::Current => PathPart::Current,
            PathPart::Parent => PathPart::Parent,
            PathPart::Name(name) => PathPart::Name(vstd::slice::slice_to_vec(name.as_slice())),
        }
    }
}

impl Clone for FilePath {
    fn clone(&self) -> (res: Self)
        ensures
            res@ == self@,
    {
        let count = self.parts.len();
        let mut parts: Vec<PathPart> = Vec::new();
        for i in 0..count
            invariant
                count == self.parts.len(),
                parts.len() == i,
                forall|j: int| 0 <= j < i ==> (#[trigger] parts@[j])@ == self.parts@[j]@,
        {
            parts.push(self.parts[i].clone());
        }
        let res = FilePath { parts };
        assert(res@ =~= self@);
        res
    }
}

impl PathPart {
    /// Whether two components are the same.
    pub fn is_same(&self, other: &PathPart) -> (res: bool)
        ensures
            res == (self@ == other@),
    {
        match (self, other) {
            (PathPart::Root, PathPart::Root) => true,
            (PathPart::Current, PathPart::Current) => true,
            (PathPart::Parent, PathPart::Parent) => true,
            (PathPart::Name(a), PathPart::Name(b)) => same_bytes(a.as_slice(), b.as_slice()),
            _ => false,
        }
    }

    /// Whether this component comes before another.
    pub fn is_before(&self, other: &PathPart) -> (res: bool)
        ensures
            res == part_before(self@, other@),
    {
        match (self, other) {
            (PathPart::Root, PathPart::Root) => false,
            (PathPart::Root, _) => true,
            (PathPart::Current, PathPart::Parent) => true,
            (PathPart::Current, PathPart::Name(_)) => true,
            (PathPart::Parent, PathPart::Name(_)) => true,
            (PathPart::Name(a), PathPart::Name(b)) => bytes_before(a.as_slice(), b.as_slice()),
            _ => false,
        }
    }
}

/// Copies the bytes from `start` up to `end`.
fn copy_range(bytes: &Vec<u8>, start: usize, end: usize) -> (res: Vec<u8>)
    requires
        start <= end <= bytes.len(),
    ensures
        res@ == bytes@.subrange(start as int, end as int),
{
    vstd::slice::slice_to_vec(vstd::slice::slice_subrange(bytes.as_slice(), start, end))
}

/// Where the extension of a name begins with its full stop.
fn find_extension(name: &Vec<u8>) -> (res: Option<usize>)
    ensures
        match res {
            Some(dot) => extension_start(name@) == Some(dot as int) && dot < name.len(),
            None => extension_start(name@) is None,
        },
{
    let mut end = name.len();
    while end > 0
        invariant
            end <= name.len(),
            last_dot(name@, name.len() - 1) == last_dot(name@, end - 1),
        decreases end,
    {
        if name[end - 1] == 46 {
            return if end > 1 {
                Some(end - 1)
            } else {
                None
            };
        }
        end = end - 1;
    }
    None
}

impl FilePath {
    /// Whether two paths are the same.
    pub fn is_same(&self, other: &FilePath) -> (res: bool)
        ensures
            res == (self@ == other@),
    {
        if self.parts.len() != other.parts.len() {
            assert(self@.len() != other@.len());
            return false;
        }
        let count = self.parts.len();
        for i in 0..count
            invariant
                count == self.parts.len() == other.parts.len(),
                forall|j: int| 0 <= j < i ==> self@[j] == other@[j],
        {
            if !self.parts[i].is_same(&other.parts[i]) {
                assert(self@[i as int] != other@[i as int]);
                return false;
            }
        }
        assert(self@ =~= other@);
        true
    }

    /// The last component, if it is a name.
    pub fn file_name(&self) -> (res: Option<&Vec<u8>>)
        ensures
            match res {
                Some(name) => name_of(self@) == Some(name@),
                None => name_of(self@) is None,
            },
    {
        let count = self.parts.len();
        if count == 0 {
            return None;
        }
        match &self.parts[count - 1] {
            PathPart::Name(name) => Some(name),
            _ => None,
        }
    }

    /// The path without its last component.
    pub fn parent(&self) -> (res: Option<FilePath>)
        ensures
            path_opt(res) == parent_of(self@),
            is_valid(self@) ==> (res matches Some(parent) ==> is_valid(parent@)),
    {
        proof {
            if is_valid(self@) {
                law_parent_is_valid(self@);
            }
        }
        let count = self.parts.len();
        if count == 0 {
            return None;
        }
        if let PathPart::Root = &self.parts[count - 1] {
            return None;
        }
        let mut res = self.clone();
        let ghost whole = res.parts@;
        assert(res@.len() == count);
        assert forall|i: int| 0 <= i < count implies whole[i]@ == self@[i] by {
            assert(res@[i] == self@[i]);
        }
        res.parts.pop();
        assert(res@ =~= self@.drop_last());
        Some(res)
    }

    /// The name without its extension.
    pub fn file_stem(&self) -> (res: Option<Vec<u8>>)
        ensures
            match res {
                Some(stem) => stem_of(self@) == Some(stem@),
                None => stem_of(self@) is None,
            },
    {
        match self.file_name() {
            Some(name) => match find_extension(name) {
                Some(dot) => {
                    assert(name@.subrange(0, dot as int) == name@.take(dot as int));
                    Some(copy_range(name, 0, dot))
                },
                None => {
                    assert(name@.subrange(0, name@.len() as int) == name@);
                    Some(copy_range(name, 0, name.len()))
                },
            },
            None => None,
        }
    }

    /// The extension of the name, without the full stop.
    pub fn extension(&self) -> (res: Option<Vec<u8>>)
        ensures
            match res {
                Some(extension) => extension_of(self@) == Some(extension@),
                None => extension_of(self@) is None,
            },
    {
        match self.file_name() {
            Some(name) => match find_extension(name) {
                Some(dot) => {
                    assert(name@.subrange(dot + 1, name@.len() as int) == name@.skip(dot + 1));
                    Some(copy_range(name, dot + 1, name.len()))
                },
                None => None,
            },
            None => None,
        }
    }

    /// The last component as text, if it is a name and text.
    pub fn file_name_text(&self) -> (res: Option<String>)
        ensures
            strings::text_opt(res) == bytes_opt_text(name_of(self@)),
    {
        match self.file_name() {
            Some(name) => utf8_text(name.as_slice()),
            None => None,
        }
    }

    /// The name without its extension as text, if it is text.
    pub fn file_stem_text(&self) -> (res: Option<String>)
        ensures
            strings::text_opt(res) == bytes_opt_text(stem_of(self@)),
    {
        match self.file_stem() {
            Some(stem) => utf8_text(stem.as_slice()),
            None => None,
        }
    }

    /// The extension as text, if there is one and it is text.
    pub fn extension_text(&self) -> (res: Option<String>)
        ensures
            strings::text_opt(res) == bytes_opt_text(extension_of(self@)),
    {
        match self.extension() {
            Some(extension) => utf8_text(extension.as_slice()),
            None => None,
        }
    }

    /// Whether this path comes before another.
    pub fn is_before(&self, other: &FilePath) -> (res: bool)
        ensures
            res == path_before(self@, other@),
    {
        let mut i: usize = 0;
        assert(self@.skip(0) == self@ && other@.skip(0) == other@);
        while i < self.parts.len() && i < other.parts.len()
            invariant
                i <= self.parts.len(),
                i <= other.parts.len(),
                path_before(self@, other@) == path_before(
                    self@.skip(i as int),
                    other@.skip(i as int),
                ),
            decreases self.parts.len() - i,
        {
            if !self.parts[i].is_same(&other.parts[i]) {
                return self.parts[i].is_before(&other.parts[i]);
            }
            assert(self@.skip(i as int).skip(1) == self@.skip(i + 1));
            assert(other@.skip(i as int).skip(1) == other@.skip(i + 1));
            i = i + 1;
        }
        i < other.parts.len()
    }

    /// The path with the extension of its name replaced.
    pub fn with_extension(&self, extension: &[u8]) -> (res: FilePath)
        ensures
            res@ == with_extension_bytes(self@, extension@),
            is_valid(self@) && !extension@.contains(47) ==> is_valid(res@),
    {
        match self.file_stem() {
            Some(stem) => {
                let mut name = stem;
                let count = extension.len();
                if count > 0 {
                    name.push(46);
                }
                let ghost start = name@;
                for i in 0..count
                    invariant
                        count == extension.len(),
                        name@ == start + extension@.take(i as int),
                {
                    name.push(extension[i]);
                    assert(name@ == start + extension@.take(i + 1));
                }
                assert(extension@.take(count as int) == extension@);
                let mut res = self.clone();
                let ghost whole = res.parts@;
                assert forall|i: int| 0 <= i < self@.len() implies whole[i]@ == self@[i] by {
                    assert(res@[i] == self@[i]);
                }
                assert(res@.len() == self@.len());
                res.parts.pop();
                assert(res@ =~= self@.drop_last());
                assert(name@ == stem_with(stem_of(self@).unwrap(), extension@));
                let ghost front = res@;
                let ghost fresh = name@;
                let length = name.len();
                if length == 1 && name[0] == 46 {
                    assert(fresh =~= seq![46u8]);
                    if self.parts.len() == 1 {
                        res.parts.push(PathPart::Current);
                    }
                } else if length == 2 && name[0] == 46 && name[1] == 46 {
                    assert(fresh =~= seq![46u8, 46u8]);
                    res.parts.push(PathPart::Parent);
                } else {
                    res.parts.push(PathPart::Name(name));
                }
                assert(res@ =~= front + name_parts(fresh, self@.len() == 1));
                proof {
                    if is_valid(self@) && !extension@.contains(47) {
                        law_with_extension_is_valid(self@, extension@);
                    }
                }
                res
            },
            None => self.clone(),
        }
    }

    /// The path that `text` spells.
    pub fn from_text(text: &str) -> (res: FilePath)
        ensures
            res@ == text_path(text@),
            is_valid(res@),
    {
        proof {
            law_text_path_is_valid(text@);
        }
        let base = FilePath { parts: Vec::new() };
        assert(base@ =~= Seq::empty());
        base.join(text)
    }

    /// `text` as a path below this one.
    pub fn join(&self, text: &str) -> (res: FilePath)
        ensures
            res@ == joined(self@, text@),
            is_valid(self@) ==> is_valid(res@),
    {
        proof {
            if is_valid(self@) {
                law_joined_is_valid(self@, text@);
            }
        }
        let (pieces, rooted) = split_segments(text);
        let fresh = self.parts.len() == 0 || rooted;
        let mut res = if fresh {
            FilePath { parts: Vec::new() }
        } else {
            self.clone()
        };
        if rooted {
            res.parts.push(PathPart::Root);
        } else if fresh && is_dot(&pieces[0]) {
            res.parts.push(PathPart::Current);
        }
        let ghost lead = res@;
        proof {
            if fresh {
                assert(lead =~= path_lead(text@));
            } else {
                assert(lead == self@);
            }
        }
        let count = pieces.len();
        let ghost views = segments(text@);
        for i in 0..count
            invariant
                count == pieces.len() == views.len(),
                forall|j: int| 0 <= j < count ==> (#[trigger] pieces@[j])@ == views[j],
                res@ == lead + segment_parts(views.take(i as int)),
        {
            let ghost before = res.parts@;
            let ghost seen = views.take(i + 1);
            assert(seen.drop_last() == views.take(i as int));
            assert(seen.last() == views[i as int]);
            let piece = &pieces[i];
            if piece.len() == 0 || is_dot(piece) {
                assert(res@ == lead + segment_parts(seen));
            } else {
                let part = if is_dot_dot(piece) {
                    PathPart::Parent
                } else {
                    let name = text_of(piece.as_slice());
                    PathPart::Name(vstd::slice::slice_to_vec(name.as_str().as_bytes()))
                };
                assert(segment_part(views[i as int]) == Some(part@));
                let ghost earlier = res@;
                res.parts.push(part);
                assert(res@ =~= earlier.push(part@));
                assert(res@ =~= lead + segment_parts(seen));
            }
        }
        assert(views.take(count as int) == views);
        res
    }
}

fn is_dot(piece: &Vec<char>) -> (res: bool)
    ensures
        res == (piece@ == seq!['.']),
{
    let res = piece.len() == 1 && piece[0] == '.';
    assert(res ==> piece@ =~= seq!['.']);
    res
}

fn is_dot_dot(piece: &Vec<char>) -> (res: bool)
    ensures
        res == (piece@ == seq!['.', '.']),
{
    let res = piece.len() == 2 && piece[0] == '.' && piece[1] == '.';
    assert(res ==> piece@ =~= seq!['.', '.']);
    res
}

/// The pieces of `text` between slashes, and whether it begins with one.
fn split_segments(text: &str) -> (res: (Vec<Vec<char>>, bool))
    ensures
        res.0.len() == segments(text@).len(),
        res.0.len() > 0,
        forall|i: int| 0 <= i < res.0.len() ==> (#[trigger] res.0@[i])@ == segments(text@)[i],
        res.1 == (text@.len() > 0 && text@[0] == '/'),
{
    let mut pieces: Vec<Vec<char>> = Vec::new();
    let mut piece: Vec<char> = Vec::new();
    let mut rooted = false;
    let mut first = true;
    for ch in it: text.chars()
        invariant
            it.seq() == text@,
            first == (it.index() == 0),
            rooted == (it.index() > 0 && text@[0] == '/'),
            segments(text@.take(it.index())).len() == pieces.len() + 1,
            segments(text@.take(it.index())).last() == piece@,
            forall|i: int|
                0 <= i < pieces.len() ==> (#[trigger] pieces@[i])@ == segments(
                    text@.take(it.index()),
                )[i],
    {
        let ghost before = text@.take(it.index());
        let ghost after = text@.take(it.index() + 1);
        assert(after.drop_last() == before);
        assert(after.last() == ch);
        if ch == '/' {
            if first {
                rooted = true;
            }
            pieces.push(piece);
            piece = Vec::new();
        } else {
            piece.push(ch);
        }
        first = false;
    }
    assert(text@.take(text@.len() as int) == text@);
    pieces.push(piece);
    (pieces, rooted)
}

impl Ranked for FilePath {
    open spec fn ranks_before(self, other: Self) -> bool {
        path_before(self@, other@)
    }

    fn comes_before(&self, other: &Self) -> (res: bool) {
        self.is_before(other)
    }

    proof fn rank_is_transitive(a: Self, b: Self, c: Self) {
        law_path_order_is_strict();
        let less = order::lexical_order(part_order());
        assert(less(a@, b@) || less(b@, a@) || a@ == b@);
        assert(less(b@, c@) || less(c@, b@) || b@ == c@);
        if less(c@, a@) {
            if less(a@, b@) {
                assert(less(c@, b@));
            }
        }
    }

    proof fn rank_is_asymmetric(a: Self, b: Self) {
        law_path_order_is_strict();
        let less = order::lexical_order(part_order());
        if less(b@, a@) {
            assert(less(a@, b@));
            assert(less(a@, a@));
        }
    }
}

/// A copy of a list of paths.
pub fn clone_paths(paths: &Vec<FilePath>) -> (res: Vec<FilePath>)
    ensures
        path_views(res@) == path_views(paths@),
{
    let mut res: Vec<FilePath> = Vec::new();
    let count = paths.len();
    let ghost views = path_views(paths@);
    assert(path_views(res@) =~= views.take(0));
    for i in 0..count
        invariant
            count == paths.len(),
            views == path_views(paths@),
            path_views(res@) == views.take(i as int),
    {
        let ghost before = path_views(res@);
        res.push(paths[i].clone());
        assert(path_views(res@) =~= before.push(views[i as int]));
        assert(views.take(i + 1) =~= views.take(i as int).push(views[i as int]));
    }
    assert(views.take(count as int) == views);
    res
}

/// A path is what it lies in and its last component; a name is a last component
/// that is one.
pub proof fn law_parent_and_name(path: Seq<PartView>)
    ensures
        parent_of(path) is None <==> path.len() == 0 || path.last() == PartView::Root,
        parent_of(path) matches Some(parent) ==> parent.push(path.last()) == path,
        name_of(path) matches Some(name) ==> path.len() > 0 && path.last() == PartView::Name(name),
        forall|front: Seq<PartView>, name: Seq<u8>| #[trigger]
            front.push(PartView::Name(name)) == path ==> name_of(path) == Some(name) && parent_of(
                path,
            ) == Some(front),
{
    if path.len() > 0 {
        assert(path.drop_last().push(path.last()) =~= path);
    }
    assert forall|front: Seq<PartView>, name: Seq<u8>| #[trigger]
        front.push(PartView::Name(name)) == path implies name_of(path) == Some(name) && parent_of(
        path,
    ) == Some(front) by {
        assert(path.drop_last() =~= front);
    }
}

proof fn lemma_no_later_dot(name: Seq<u8>, end: int)
    requires
        -1 <= end < name.len(),
    ensures
        forall|i: int| last_dot(name, end) < i <= end ==> name[i] != 46,
        last_dot(name, end) >= 0 ==> name[last_dot(name, end)] == 46,
    decreases end + 1,
{
    if end >= 0 {
        lemma_no_later_dot(name, end - 1);
    }
}

/// A name is its stem, a full stop and its extension, which holds none; a name
/// without an extension has no full stop but perhaps at its very beginning, and
/// is its own stem.
pub proof fn law_stem_and_extension(front: Seq<PartView>, name: Seq<u8>)
    requires
        name.len() > 0,
    ensures
        ({
            let path = front.push(PartView::Name(name));
            match (stem_of(path), extension_of(path)) {
                (Some(stem), Some(extension)) => {
                    &&& name == stem + seq![46u8] + extension
                    &&& stem.len() > 0
                    &&& !extension.contains(46)
                },
                (Some(stem), None) => stem == name && forall|i: int|
                    1 <= i < name.len() ==> name[i] != 46,
                _ => false,
            }
        }),
{
    let path = front.push(PartView::Name(name));
    lemma_last_dot(name, name.len() - 1);
    lemma_no_later_dot(name, name.len() - 1);
    if let Some(dot) = extension_start(name) {
        let extension = name.skip(dot + 1);
        assert(name.take(dot) + seq![46u8] + extension =~= name);
        if extension.contains(46) {
            let i = choose|i: int| 0 <= i < extension.len() && extension[i] == 46;
            assert(name[dot + 1 + i] == 46);
        }
    }
}

/// Replacing an extension keeps the directory and the stem, and puts the new
/// extension behind a full stop. What has no name stays as it is.
pub proof fn law_extension_is_replaced(path: Seq<PartView>, extension: Seq<u8>)
    requires
        extension.len() > 0,
        is_valid(path),
    ensures
        match stem_of(path) {
            Some(stem) => with_extension_bytes(path, extension) == path.drop_last().push(
                PartView::Name(stem + seq![46u8] + extension),
            ),
            None => with_extension_bytes(path, extension) == path,
        },
        name_of(path) is None ==> with_extension_bytes(path, extension) == path,
        !extension.contains(46) && name_of(path) is Some ==> {
            &&& stem_of(with_extension_bytes(path, extension)) == stem_of(path)
            &&& extension_of(with_extension_bytes(path, extension)) == Some(extension)
        },
{
    if let Some(name) = name_of(path) {
        let stem = stem_of_name(name);
        let fresh = stem + seq![46u8] + extension;
        lemma_last_dot(name, name.len() - 1);
        assert(fresh.len() == stem.len() + 1 + extension.len());
        assert(path[path.len() - 1] == PartView::Name(name));
        assert(stem.len() > 0);
        let res = path.drop_last().push(PartView::Name(fresh));
        assert(fresh.len() > 2);
        assert(with_extension_bytes(path, extension) =~= res);
        if !extension.contains(46) {
            lemma_last_dot(fresh, fresh.len() - 1);
            lemma_no_later_dot(fresh, fresh.len() - 1);
            assert(fresh[stem.len() as int] == 46);
            let dot = last_dot(fresh, fresh.len() - 1);
            if dot > stem.len() {
                assert(extension[dot - stem.len() - 1] == 46);
            }
            assert(dot == stem.len());
            assert(fresh.take(dot) =~= stem);
            assert(fresh.skip(dot + 1) =~= extension);
        }
    }
}

/// Paths are ordered by their first differing component: the root comes before
/// `.`, that before `..`, that before names, and names go by their first
/// differing byte, a name before what it begins. A path comes before those that
/// lie in it.
pub proof fn law_paths_are_ordered_by_component(
    front: Seq<PartView>,
    a: PartView,
    b: PartView,
    x: Seq<PartView>,
    y: Seq<PartView>,
    k: int,
)
    ensures
        path_before(front, front.push(b) + y),
        !path_before(front.push(b) + y, front),
        a is Root && !(b is Root) ==> path_before(front.push(a) + x, front.push(b) + y),
        a is Current && (b is Parent || b is Name) ==> path_before(
            front.push(a) + x,
            front.push(b) + y,
        ),
        a is Parent && b is Name ==> path_before(front.push(a) + x, front.push(b) + y),
        (a matches PartView::Name(m) && b matches PartView::Name(n) && 0 <= k && k < n.len() && (
        forall|i: int| 0 <= i < k && i < m.len() ==> #[trigger] m[i] == n[i]) && (k == m.len() || (k
            < m.len() && m[k] < n[k]))) ==> {
            &&& path_before(front.push(a) + x, front.push(b) + y)
            &&& !path_before(front.push(b) + y, front.push(a) + x)
        },
{
    let left = front.push(a) + x;
    let right = front.push(b) + y;
    let at = front.len() as int;
    assert forall|i: int| 0 <= i < at implies #[trigger] left[i] == right[i] by {}
    assert(left[at] == a && right[at] == b);
    assert forall|i: int| 0 <= i < at implies #[trigger] front[i] == right[i] by {}
    assert forall|i: int| 0 <= i < at implies #[trigger] right[i] == front[i] by {}
    order::law_first_difference_decides(front, right, part_order(), at);
    order::law_first_difference_decides(right, front, part_order(), at);
    order::law_first_difference_decides(left, right, part_order(), at);
    assert forall|i: int| 0 <= i < at implies #[trigger] right[i] == left[i] by {}
    order::law_first_difference_decides(right, left, part_order(), at);
    if let PartView::Name(m) = a {
        if let PartView::Name(n) = b {
            if 0 <= k && k < n.len() && (forall|i: int|
                0 <= i < k && i < m.len() ==> #[trigger] m[i] == n[i]) && (k == m.len() || (k
                < m.len() && m[k] < n[k])) {
                order::law_first_difference_decides(m, n, order::byte_order(), k);
                assert forall|i: int| 0 <= i < k implies #[trigger] n[i] == m[i] by {
                    assert(m[i] == n[i]);
                }
                order::law_first_difference_decides(n, m, order::byte_order(), k);
                assert(m != n);
            }
        }
    }
}

proof fn lemma_segments_append(x: Seq<char>, y: Seq<char>)
    ensures
        segments(x + seq!['/'] + y) == segments(x) + segments(y),
    decreases y.len(),
{
    lemma_segments_hold_no_slash(y);
    if y.len() == 0 {
        let all = x.push('/');
        assert(x + seq!['/'] + y =~= all);
        assert(all.drop_last() =~= x);
        assert(y =~= Seq::empty());
        assert(segments(all) =~= segments(x) + segments(y));
    } else {
        let rest = y.drop_last();
        lemma_segments_append(x, rest);
        lemma_segments_hold_no_slash(rest);
        let all = x + seq!['/'] + y;
        assert(all.drop_last() =~= x + seq!['/'] + rest);
        assert(all.last() == y.last());
        let before = segments(x) + segments(rest);
        assert(before.last() == segments(rest).last());
        assert(before.drop_last() =~= segments(x) + segments(rest).drop_last());
        assert(segments(all) =~= segments(x) + segments(y));
    }
}

proof fn lemma_segment_parts_push(pieces: Seq<Seq<char>>, piece: Seq<char>)
    ensures
        segment_parts(pieces + seq![piece]) == match segment_part(piece) {
            Some(part) => segment_parts(pieces).push(part),
            None => segment_parts(pieces),
        },
{
    let more = pieces + seq![piece];
    assert(more.drop_last() =~= pieces);
    assert(more.last() == piece);
}

/// One more name behind a slash is one more component. An empty name and `.` add
/// nothing, and `..` adds the component that stands for it.
pub proof fn law_join_deeper(base: Seq<PartView>, text: Seq<char>, name: Seq<char>)
    requires
        text.len() > 0,
        !name.contains('/'),
    ensures
        ({
            let deeper = joined(base, text + seq!['/'] + name);
            if name.len() == 0 || name == seq!['.'] {
                deeper == joined(base, text)
            } else if name == seq!['.', '.'] {
                deeper == joined(base, text).push(PartView::Parent)
            } else {
                deeper == joined(base, text).push(PartView::Name(vstd::utf8::encode_utf8(name)))
            }
        }),
{
    let all = text + seq!['/'] + name;
    lemma_segments_append(text, name);
    lemma_segments_without_slash(name);
    lemma_segment_parts_push(segments(text), name);
    lemma_segments_hold_no_slash(text);
    assert(all[0] == text[0]);
    assert(segments(all)[0] == segments(text)[0]);
    assert(path_lead(all) =~= path_lead(text));
    let more = segment_parts(segments(all));
    let parts = segment_parts(segments(text));
    if let Some(part) = segment_part(name) {
        assert(path_lead(text) + parts.push(part) =~= (path_lead(text) + parts).push(part));
        assert(base + parts.push(part) =~= (base + parts).push(part));
    }
}

/// The bytes of two texts are the bytes of the one and then the other.
pub(crate) proof fn lemma_encode_append(a: Seq<char>, b: Seq<char>)
    ensures
        vstd::utf8::encode_utf8(a + b) == vstd::utf8::encode_utf8(a) + vstd::utf8::encode_utf8(b),
    decreases a.len(),
{
    if a.len() == 0 {
        assert(a + b =~= b);
        assert(vstd::utf8::encode_utf8(a) + vstd::utf8::encode_utf8(b)
            =~= vstd::utf8::encode_utf8(b));
    } else {
        lemma_encode_append(a.drop_first(), b);
        assert((a + b).drop_first() =~= a.drop_first() + b);
        assert(vstd::utf8::encode_utf8(a + b) =~= vstd::utf8::encode_utf8(a)
            + vstd::utf8::encode_utf8(b));
    }
}

/// The bytes of a full stop.
pub(crate) proof fn lemma_dot_bytes()
    ensures
        vstd::utf8::encode_utf8(seq!['.']) == seq![46u8],
{
    let one = seq!['.'];
    vstd::utf8::is_ascii_chars_encode_utf8(one);
    assert('.' as u8 == 46);
    assert(one[0] as u8 == vstd::utf8::encode_utf8(one)[0]);
    assert(vstd::utf8::encode_utf8(one) =~= seq![46u8]);
}

/// The name of a text file with an extension, taken apart: the stem and the
/// extension as they were spelled.
pub proof fn law_spelled_name(front: Seq<PartView>, stem: Seq<char>, extension: Seq<char>)
    requires
        stem.len() > 0,
        !extension.contains('.'),
    ensures
        ({
            let path = front.push(
                PartView::Name(vstd::utf8::encode_utf8(stem + seq!['.'] + extension)),
            );
            &&& bytes_opt_text(stem_of(path)) == Some(stem)
            &&& bytes_opt_text(extension_of(path)) == Some(extension)
            &&& stem_of(path) == Some(vstd::utf8::encode_utf8(stem))
            &&& extension_of(path) == Some(vstd::utf8::encode_utf8(extension))
        }),
{
    let name = vstd::utf8::encode_utf8(stem + seq!['.'] + extension);
    let left = vstd::utf8::encode_utf8(stem);
    let right = vstd::utf8::encode_utf8(extension);
    lemma_encode_append(stem + seq!['.'], extension);
    lemma_encode_append(stem, seq!['.']);
    lemma_dot_bytes();
    assert(name =~= left + seq![46u8] + right);
    assert('.' as u32 == 46);
    lemma_no_ascii_byte(extension, '.', 46);
    vstd::utf8::encode_utf8_decode_utf8(stem);
    vstd::utf8::encode_utf8_decode_utf8(extension);
    vstd::utf8::encode_utf8_valid_utf8(stem);
    vstd::utf8::encode_utf8_valid_utf8(extension);
    assert(left.len() > 0) by {
        if left.len() == 0 {
            assert(vstd::utf8::decode_utf8(left) =~= Seq::empty());
        }
    }
    lemma_last_dot(name, name.len() - 1);
    lemma_no_later_dot(name, name.len() - 1);
    let dot = last_dot(name, name.len() - 1);
    assert(name[left.len() as int] == 46);
    if dot > left.len() {
        assert(right[dot - left.len() - 1] == 46);
    }
    assert(dot == left.len());
    assert(name.take(dot) =~= left);
    assert(name.skip(dot + 1) =~= right);
}

/// Text with a slash has a slash among its bytes.
pub(crate) proof fn lemma_slash_has_its_byte(a: Seq<char>, b: Seq<char>)
    ensures
        vstd::utf8::encode_utf8(a + seq!['/'] + b).contains(47),
{
    let one = seq!['/'];
    vstd::utf8::is_ascii_chars_encode_utf8(one);
    assert('/' as u8 == 47);
    assert(one[0] as u8 == vstd::utf8::encode_utf8(one)[0]);
    lemma_encode_append(a + one, b);
    lemma_encode_append(a, one);
    let all = vstd::utf8::encode_utf8(a + one + b);
    assert(all[vstd::utf8::encode_utf8(a).len() as int] == 47);
}

/// A name without a full stop has no extension.
pub(crate) proof fn lemma_no_dot_no_extension(name: Seq<u8>)
    requires
        !name.contains(46),
    ensures
        extension_start(name) is None,
{
    lemma_last_dot(name, name.len() - 1);
    let dot = last_dot(name, name.len() - 1);
    if dot > 0 {
        assert(name[dot] == 46);
        assert(name.contains(46));
    }
}

/// What a text adds to a path: `..` its own component, and `.` or nothing no
/// component. A text that begins with a slash stands by itself and begins at the root;
/// a lone `.` is kept where nothing stands before it.
pub proof fn law_join_dots(base: Seq<PartView>, name: Seq<char>)
    requires
        base.len() > 0,
        name.len() > 0,
        !name.contains('/'),
        name != seq!['.'],
        name != seq!['.', '.'],
    ensures
        joined(base, seq!['.', '.']) == base.push(PartView::Parent),
        joined(base, seq!['.']) == base,
        joined(base, Seq::empty()) == base,
        joined(base, seq!['/'] + name) == seq![
            PartView::Root,
            PartView::Name(vstd::utf8::encode_utf8(name)),
        ],
        text_path(Seq::empty()) == Seq::<PartView>::empty(),
        text_path(seq!['.', '.']) == seq![PartView::Parent],
        text_path(seq!['.']) == seq![PartView::Current],
        text_path(seq!['.', '/'] + name) == seq![
            PartView::Current,
            PartView::Name(vstd::utf8::encode_utf8(name)),
        ],
{
    let none = Seq::<char>::empty();
    let dot = seq!['.'];
    let dots = seq!['.', '.'];
    lemma_segments_without_slash(none);
    lemma_segments_without_slash(dot);
    lemma_segments_without_slash(dots);
    lemma_segments_without_slash(name);
    lemma_single_part(none);
    lemma_single_part(dot);
    lemma_single_part(dots);
    lemma_single_part(name);
    assert(dots[1] == '.' && dot.len() == 1 && dots.len() == 2);
    lemma_segments_append(none, name);
    lemma_segments_append(dot, name);
    assert(none + seq!['/'] + name =~= seq!['/'] + name);
    assert(dot + seq!['/'] + name =~= seq!['.', '/'] + name);
    lemma_segment_parts_push(segments(none), name);
    lemma_segment_parts_push(segments(dot), name);
    let rooted = seq!['/'] + name;
    let beside = seq!['.', '/'] + name;
    assert(rooted[0] == '/');
    assert(beside[0] == '.');
    assert(segments(beside)[0] == dot);
    assert(base + seq![PartView::Parent] =~= base.push(PartView::Parent));
    assert(base + Seq::<PartView>::empty() =~= base);
    let own = PartView::Name(vstd::utf8::encode_utf8(name));
    assert(text_path(rooted) =~= seq![PartView::Root, own]);
    assert(text_path(beside) =~= seq![PartView::Current, own]);
    assert(text_path(none) =~= Seq::<PartView>::empty());
    assert(text_path(dots) =~= seq![PartView::Parent]);
    assert(text_path(dot) =~= seq![PartView::Current]);
}

proof fn lemma_single_part(piece: Seq<char>)
    ensures
        segment_parts(seq![piece]) == match segment_part(piece) {
            Some(part) => seq![part],
            None => Seq::empty(),
        },
{
    let pieces = seq![piece];
    assert(pieces.drop_last() =~= Seq::<Seq<char>>::empty());
    assert(segment_parts(pieces.drop_last()) =~= Seq::empty());
    assert(pieces.last() == piece);
    if let Some(part) = segment_part(piece) {
        assert(Seq::<PartView>::empty().push(part) =~= seq![part]);
    }
}

} // verus!
