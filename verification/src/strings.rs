//! Operations on whole strings, stated over their characters.

use vstd::prelude::*;
use vstd::utf8::*;

use crate::chars;
use crate::chars::{to_ascii_lower, to_ascii_upper};

verus! {

/// `String::push` of the standard library: appends one character.
pub assume_specification[ String::push ](s: &mut String, c: char)
    ensures
        final(s)@ == old(s)@.push(c),
;

/// The characters of an optional string.
pub open spec fn text_opt(value: Option<String>) -> Option<Seq<char>> {
    match value {
        Some(text) => Some(text@),
        None => None,
    }
}

/// The characters of an optional string slice.
pub open spec fn str_opt(value: Option<&str>) -> Option<Seq<char>> {
    match value {
        Some(text) => Some(text@),
        None => None,
    }
}

/// Two strings with the same bytes have the same characters.
proof fn lemma_same_bytes_same_text(a: Seq<char>, b: Seq<char>)
    requires
        encode_utf8(a) == encode_utf8(b),
    ensures
        a == b,
{
    encode_utf8_decode_utf8(a);
    encode_utf8_decode_utf8(b);
}

/// Whether two byte strings are equal.
pub fn same_bytes(a: &[u8], b: &[u8]) -> (res: bool)
    ensures
        res == (a@ == b@),
{
    if a.len() != b.len() {
        return false;
    }
    let n = a.len();
    for i in 0..n
        invariant
            n == a.len(),
            n == b.len(),
            forall|j: int| 0 <= j < i ==> a@[j] == b@[j],
    {
        if a[i] != b[i] {
            return false;
        }
    }
    assert(a@ =~= b@);
    true
}

/// Whether two strings are equal.
pub fn same_text(a: &str, b: &str) -> (res: bool)
    ensures
        res == (a@ == b@),
{
    let res = same_bytes(a.as_bytes(), b.as_bytes());
    proof {
        if res {
            lemma_same_bytes_same_text(a@, b@);
        }
    }
    res
}

/// The characters of a string.
pub fn chars_of(value: &str) -> (res: Vec<char>)
    ensures
        res@ == value@,
{
    let mut out: Vec<char> = Vec::new();
    for ch in it: value.chars()
        invariant
            it.seq() == value@,
            out@ == value@.take(it.index()),
    {
        out.push(ch);
        assert(out@ == value@.take(it.index() + 1));
    }
    out
}

/// The string with the given characters.
pub fn text_of(chars: &[char]) -> (res: String)
    ensures
        res@ == chars@,
{
    let mut out = String::new();
    let n = chars.len();
    for i in 0..n
        invariant
            n == chars.len(),
            out@ == chars@.take(i as int),
    {
        out.push(chars[i]);
        assert(out@ == chars@.take(i + 1));
    }
    assert(chars@.take(n as int) == chars@);
    out
}

/// `s` with every ASCII small letter turned into the capital.
pub open spec fn upper_text(s: Seq<char>) -> Seq<char> {
    s.map_values(|c: char| chars::ascii_upper(c))
}

/// The text with every ASCII small letter turned into the capital.
pub fn to_upper_text(value: &str) -> (res: String)
    ensures
        res@ == upper_text(value@),
{
    let mut out = String::new();
    for ch in it: value.chars()
        invariant
            it.seq() == value@,
            out@ == upper_text(value@).take(it.index()),
    {
        out.push(to_ascii_upper(ch));
        assert(out@ == upper_text(value@).take(it.index() + 1));
    }
    out
}

/// `s` with every ASCII capital turned into the small letter.
pub open spec fn lower_text(s: Seq<char>) -> Seq<char> {
    s.map_values(|c: char| chars::ascii_lower(c))
}

pub fn to_lower_text(value: &str) -> (res: String)
    ensures
        res@ == lower_text(value@),
{
    let mut out = String::new();
    for ch in it: value.chars()
        invariant
            it.seq() == value@,
            out@ == lower_text(value@.take(it.index())),
    {
        out.push(to_ascii_lower(ch));
        assert(out@ == lower_text(value@.take(it.index() + 1)));
    }
    assert(value@.take(value@.len() as int) == value@);
    out
}

/// The characters of each string of a list.
pub open spec fn text_views(list: Seq<String>) -> Seq<Seq<char>> {
    list.map_values(|text: String| text@)
}

/// Sets of characters that are cut off the ends of a text.
pub enum CharSet {
    /// White space.
    Space,
    /// `\n`.
    LineFeed,
    /// `\n` and `\r`.
    LineBreak,
}

/// Whether a set holds a character.
pub open spec fn in_set(set: CharSet, c: char) -> bool {
    match set {
        CharSet::Space => chars::is_space_char(c),
        CharSet::LineFeed => c == '\n',
        CharSet::LineBreak => c == '\n' || c == '\r',
    }
}

/// `s` from its first character outside `set` on.
pub open spec fn trim_front(s: Seq<char>, set: CharSet) -> Seq<char>
    decreases s.len(),
{
    if s.len() > 0 && in_set(set, s[0]) {
        trim_front(s.skip(1), set)
    } else {
        s
    }
}

/// `s` up to its last character outside `set`.
pub open spec fn trim_back(s: Seq<char>, set: CharSet) -> Seq<char>
    decreases s.len(),
{
    if s.len() > 0 && in_set(set, s.last()) {
        trim_back(s.drop_last(), set)
    } else {
        s
    }
}

/// `s` without the characters of `set` at its two ends.
pub open spec fn trim_both(s: Seq<char>, set: CharSet) -> Seq<char> {
    trim_back(trim_front(s, set), set)
}

/// Whether `s` is white space throughout.
pub open spec fn is_blank(s: Seq<char>) -> bool {
    forall|i: int| 0 <= i < s.len() ==> chars::is_space_char(#[trigger] s[i])
}

/// Trimming leaves nothing of exactly the blank texts, and otherwise a text that
/// neither begins nor ends with a character of the set.
pub proof fn law_trim_both(s: Seq<char>, set: CharSet)
    ensures
        trim_both(s, set).len() == 0 <==> forall|i: int| 0 <= i < s.len() ==> in_set(set, s[i]),
        trim_both(s, set).len() > 0 ==> !in_set(set, trim_both(s, set)[0]) && !in_set(
            set,
            trim_both(s, set).last(),
        ),
{
    lemma_trim_front(s, set);
    lemma_trim_back(trim_front(s, set), set);
}

/// What trimming the front leaves.
pub(crate) proof fn lemma_trim_front(s: Seq<char>, set: CharSet)
    ensures
        trim_front(s, set).len() <= s.len(),
        trim_front(s, set) == s.skip(s.len() - trim_front(s, set).len()),
        forall|i: int| 0 <= i < s.len() - trim_front(s, set).len() ==> in_set(set, s[i]),
        trim_front(s, set).len() > 0 ==> !in_set(set, trim_front(s, set)[0]),
    decreases s.len(),
{
    if s.len() > 0 && in_set(set, s[0]) {
        let rest = s.skip(1);
        lemma_trim_front(rest, set);
        let cut = s.len() - trim_front(s, set).len();
        assert(rest.skip(cut - 1) == s.skip(cut));
        assert forall|i: int| 0 <= i < cut implies in_set(set, s[i]) by {
            if i > 0 {
                assert(in_set(set, rest[i - 1]));
            }
        }
    } else {
        assert(s.skip(0) == s);
    }
}

/// What trimming the back leaves.
pub(crate) proof fn lemma_trim_back(s: Seq<char>, set: CharSet)
    ensures
        trim_back(s, set).len() <= s.len(),
        trim_back(s, set) == s.take(trim_back(s, set).len() as int),
        forall|i: int| trim_back(s, set).len() <= i < s.len() ==> in_set(set, s[i]),
        trim_back(s, set).len() > 0 ==> !in_set(set, trim_back(s, set).last()),
    decreases s.len(),
{
    if s.len() > 0 && in_set(set, s.last()) {
        let rest = s.drop_last();
        lemma_trim_back(rest, set);
        let kept = trim_back(s, set).len() as int;
        assert(rest.take(kept) == s.take(kept));
        assert forall|i: int| kept <= i < s.len() implies in_set(set, s[i]) by {
            if i < s.len() - 1 {
                assert(in_set(set, rest[i]));
            }
        }
    } else {
        assert(s.take(s.len() as int) == s);
    }
}

fn is_in_set(set: &CharSet, c: char) -> (res: bool)
    ensures
        res == in_set(*set, c),
{
    match set {
        CharSet::Space => c.is_whitespace(),
        CharSet::LineFeed => c == '\n',
        CharSet::LineBreak => c == '\n' || c == '\r',
    }
}

/// The text without the characters of `set` at its end.
pub fn trimmed_end(value: &str, set: CharSet) -> (res: String)
    ensures
        res@ == trim_back(value@, set),
{
    let mut kept: Vec<char> = chars_of(value);
    loop
        invariant
            trim_back(kept@, set) == trim_back(value@, set),
        ensures
            kept@ == trim_back(value@, set),
        decreases kept.len(),
    {
        let count = kept.len();
        if count == 0 || !is_in_set(&set, kept[count - 1]) {
            break;
        }
        kept.pop();
    }
    text_of(&kept)
}

/// The text without the characters of `set` at its two ends.
pub fn trimmed(value: &str, set: CharSet) -> (res: String)
    ensures
        res@ == trim_both(value@, set),
{
    let chars: Vec<char> = chars_of(value);
    let mut start: usize = 0;
    assert(value@.skip(0) == value@);
    while start < chars.len() && is_in_set(&set, chars[start])
        invariant
            start <= chars.len(),
            chars@ == value@,
            trim_front(value@.skip(start as int), set) == trim_front(value@, set),
        decreases chars.len() - start,
    {
        assert(value@.skip(start as int).skip(1) == value@.skip(start + 1));
        start = start + 1;
    }
    let rest = text_of(vstd::slice::slice_subrange(chars.as_slice(), start, chars.len()));
    assert(rest@ == value@.skip(start as int));
    trimmed_end(&rest, set)
}

/// Whether the text is white space throughout.
pub fn is_blank_text(value: &str) -> (res: bool)
    ensures
        res == is_blank(value@),
{
    for ch in it: value.chars()
        invariant
            it.seq() == value@,
            forall|i: int| 0 <= i < it.index() ==> chars::is_space_char(#[trigger] value@[i]),
    {
        assert(value@[it.index()] == ch);
        if !ch.is_whitespace() {
            return false;
        }
    }
    true
}

/// `s` with every line break, `\r\n` or `\r`, written `\n`.
pub open spec fn unix_lines(s: Seq<char>) -> Seq<char>
    decreases s.len(),
{
    if s.len() == 0 {
        s
    } else {
        let before = unix_lines(s.drop_last());
        if s.last() == '\r' {
            before.push('\n')
        } else if s.last() == '\n' && s.len() > 1 && s[s.len() - 2] == '\r' {
            before
        } else {
            before.push(s.last())
        }
    }
}

/// The text with every line break written `\n`.
pub fn to_unix_lines(value: &str) -> (res: String)
    ensures
        res@ == unix_lines(value@),
{
    let mut out = String::new();
    let mut after_return = false;
    for ch in it: value.chars()
        invariant
            it.seq() == value@,
            out@ == unix_lines(value@.take(it.index())),
            after_return == (it.index() > 0 && value@[it.index() - 1] == '\r'),
    {
        let ghost after = value@.take(it.index() + 1);
        assert(after.drop_last() == value@.take(it.index()));
        assert(after.last() == ch);
        if ch == '\r' {
            out.push('\n');
            after_return = true;
        } else {
            if !(ch == '\n' && after_return) {
                out.push(ch);
            }
            after_return = false;
        }
    }
    assert(value@.take(value@.len() as int) == value@);
    out
}

/// The texts of a list with `separator` between them.
pub open spec fn joined_texts(list: Seq<Seq<char>>, separator: Seq<char>) -> Seq<char>
    decreases list.len(),
{
    if list.len() == 0 {
        Seq::empty()
    } else if list.len() == 1 {
        list[0]
    } else {
        joined_texts(list.drop_last(), separator) + separator + list.last()
    }
}

/// The strings of a list with `separator` between them.
pub fn join_texts(list: &Vec<String>, separator: &str) -> (res: String)
    ensures
        res@ == joined_texts(text_views(list@), separator@),
{
    let mut out = String::new();
    let count = list.len();
    let ghost views = text_views(list@);
    for i in 0..count
        invariant
            count == list.len(),
            views == text_views(list@),
            out@ == joined_texts(views.take(i as int), separator@),
    {
        let ghost after = views.take(i + 1);
        assert(after.drop_last() == views.take(i as int));
        assert(after.last() == list@[i as int]@);
        if i > 0 {
            out.append(separator);
        }
        out.append(list[i].as_str());
        assert(out@ =~= joined_texts(after, separator@));
    }
    assert(views.take(count as int) == views);
    out
}

/// `text` with `rest` appended.
pub fn concat(text: &str, rest: &str) -> (res: String)
    ensures
        res@ == text@ + rest@,
{
    let mut out = text.to_string();
    out.append(rest);
    out
}

/// A copy of an optional string.
pub fn clone_opt(value: &Option<String>) -> (res: Option<String>)
    ensures
        text_opt(res) == text_opt(*value),
{
    match value {
        Some(text) => Some(text.clone()),
        None => None,
    }
}

/// A copy of a list of strings.
pub fn clone_texts(list: &Vec<String>) -> (res: Vec<String>)
    ensures
        text_views(res@) == text_views(list@),
{
    let mut out: Vec<String> = Vec::new();
    let count = list.len();
    for i in 0..count
        invariant
            count == list.len(),
            out@ == list@.take(i as int),
    {
        out.push(list[i].clone());
        assert(out@ =~= list@.take(i + 1));
    }
    assert(list@.take(count as int) == list@);
    out
}

/// Whether a list of strings holds `value`.
pub fn list_contains(list: &Vec<String>, value: &str) -> (res: bool)
    ensures
        res == text_views(list@).contains(value@),
{
    let count = list.len();
    let ghost views = text_views(list@);
    for i in 0..count
        invariant
            count == list.len(),
            views == text_views(list@),
            forall|j: int| 0 <= j < i ==> views[j] != value@,
    {
        if same_text(list[i].as_str(), value) {
            assert(views[i as int] == value@);
            return true;
        }
    }
    false
}

/// Whether a character is cut off the ends of a text, spelled out set by set.
pub proof fn law_sets_of_characters(c: char)
    ensures
        in_set(CharSet::Space, c) == chars::is_space_char(c),
        in_set(CharSet::LineFeed, c) <==> c == '\n',
        in_set(CharSet::LineBreak, c) <==> c == '\n' || c == '\r',
{
}

/// Trimming keeps one stretch of the text, and cuts off characters of the set
/// only, so that text whose ends are not in the set stays as it is.
pub proof fn law_trimming_keeps_the_middle(s: Seq<char>, set: CharSet)
    ensures
        exists|from: int, to: int|
            0 <= from <= to <= s.len() && #[trigger] s.subrange(from, to) == trim_both(s, set) && (
            forall|i: int| 0 <= i < from ==> in_set(set, #[trigger] s[i])) && (forall|i: int|
                to <= i < s.len() ==> in_set(set, #[trigger] s[i])),
        exists|to: int|
            0 <= to <= s.len() && #[trigger] s.take(to) == trim_back(s, set) && forall|i: int|
                to <= i < s.len() ==> in_set(set, #[trigger] s[i]),
        trim_back(s, set).len() > 0 ==> !in_set(set, trim_back(s, set).last()),
{
    let front = trim_front(s, set);
    let cut = s.len() - front.len();
    lemma_trim_front(s, set);
    lemma_trim_back(front, set);
    lemma_trim_back(s, set);
    let kept = trim_both(s, set).len() as int;
    assert(s.subrange(cut, cut + kept) =~= trim_both(s, set));
    assert forall|i: int| cut + kept <= i < s.len() implies in_set(set, #[trigger] s[i]) by {
        assert(front[i - cut] == s[i]);
    }
    assert(s.take(trim_back(s, set).len() as int) == trim_back(s, set));
}

/// A text is blank exactly if nothing is left of it without white space.
pub proof fn law_blank_text(s: Seq<char>)
    ensures
        is_blank(s) <==> trim_both(s, CharSet::Space).len() == 0,
        is_blank(s) <==> !(exists|i: int|
            0 <= i < s.len() && !chars::is_space_char(#[trigger] s[i])),
{
    law_trim_both(s, CharSet::Space);
}

/// Casing goes character by character.
pub proof fn law_cased_text(s: Seq<char>, i: int)
    requires
        0 <= i < s.len(),
    ensures
        lower_text(s).len() == s.len(),
        upper_text(s).len() == s.len(),
        lower_text(s)[i] == chars::ascii_lower(s[i]),
        upper_text(s)[i] == chars::ascii_upper(s[i]),
{
}

/// Every line break, however it is spelled, becomes one `\n`, and everything else
/// stays.
pub proof fn law_line_breaks(a: Seq<char>, b: Seq<char>, c: char)
    requires
        a.len() > 0 ==> a.last() != '\r',
    ensures
        unix_lines(a + seq!['\r', '\n'] + b) == unix_lines(a) + seq!['\n'] + unix_lines(b),
        b.len() == 0 || b[0] != '\n' ==> unix_lines(a + seq!['\r'] + b) == unix_lines(a) + seq![
            '\n',
        ] + unix_lines(b),
        c != '\r' ==> unix_lines(a + seq![c] + b) == unix_lines(a) + seq![c] + unix_lines(b),
    decreases b.len(),
{
    let none = Seq::<char>::empty();
    if b.len() == 0 {
        assert(unix_lines(b) =~= none);
        let one = a.push('\r');
        assert(a + seq!['\r'] + b =~= one);
        assert(one.drop_last() =~= a);
        assert(unix_lines(one) =~= unix_lines(a) + seq!['\n'] + unix_lines(b));
        let two = one.push('\n');
        assert(a + seq!['\r', '\n'] + b =~= two);
        assert(two.drop_last() =~= one);
        assert(two[two.len() - 2] == '\r');
        assert(unix_lines(two) =~= unix_lines(a) + seq!['\n'] + unix_lines(b));
        let other = a.push(c);
        assert(a + seq![c] + b =~= other);
        assert(other.drop_last() =~= a);
        if a.len() > 0 {
            assert(other[other.len() - 2] == a.last());
        }
        if c != '\r' {
            assert(unix_lines(other) =~= unix_lines(a) + seq![c] + unix_lines(b));
        }
    } else {
        let rest = b.drop_last();
        law_line_breaks(a, rest, c);
        lemma_next_line_char(a + seq!['\r', '\n'], b);
        if c != '\r' {
            lemma_next_line_char(a + seq![c], b);
        }
        if b[0] != '\n' {
            if rest.len() > 0 {
                assert(rest[0] == b[0]);
            }
            lemma_next_line_char(a + seq!['\r'], b);
        }
        assert((unix_lines(a) + seq!['\n']) + unix_lines(rest).push(b.last()) =~= (unix_lines(a)
            + seq!['\n'] + unix_lines(rest)).push(b.last()));
        assert((unix_lines(a) + seq!['\n']) + unix_lines(rest).push('\n') =~= (unix_lines(a)
            + seq!['\n'] + unix_lines(rest)).push('\n'));
        assert((unix_lines(a) + seq![c]) + unix_lines(rest).push(b.last()) =~= (unix_lines(a)
            + seq![c] + unix_lines(rest)).push(b.last()));
        assert((unix_lines(a) + seq![c]) + unix_lines(rest).push('\n') =~= (unix_lines(a)
            + seq![c] + unix_lines(rest)).push('\n'));
    }
}

/// The last character of `b` adds the same to the lines, whatever stands before
/// `b`, unless a line break is split.
proof fn lemma_next_line_char(front: Seq<char>, b: Seq<char>)
    requires
        b.len() > 0,
        front.len() > 0,
        front.last() != '\r' || b[0] != '\n',
    ensures
        ({
            let rest = b.drop_last();
            let added = if b.last() == '\r' {
                seq!['\n']
            } else if b.last() == '\n' && b.len() > 1 && b[b.len() - 2] == '\r' {
                Seq::<char>::empty()
            } else {
                seq![b.last()]
            };
            &&& unix_lines(front + b) == unix_lines(front + rest) + added
            &&& unix_lines(b) == unix_lines(rest) + added
        }),
{
    let rest = b.drop_last();
    let all = front + b;
    assert(all.drop_last() =~= front + rest);
    assert(all.last() == b.last());
    if b.len() > 1 {
        assert(all[all.len() - 2] == b[b.len() - 2]);
    } else {
        assert(all[all.len() - 2] == front.last());
        assert(b.last() == b[0]);
    }
    let added = if b.last() == '\r' {
        seq!['\n']
    } else if b.last() == '\n' && b.len() > 1 && b[b.len() - 2] == '\r' {
        Seq::<char>::empty()
    } else {
        seq![b.last()]
    };
    assert(unix_lines(all) =~= unix_lines(front + rest) + added);
    assert(unix_lines(b) =~= unix_lines(rest) + added);
}

/// Joined texts begin with the first, then the separator, then the others joined.
pub proof fn law_joined_texts(list: Seq<Seq<char>>, separator: Seq<char>)
    requires
        list.len() > 0,
    ensures
        list.len() == 1 ==> joined_texts(list, separator) == list[0],
        list.len() > 1 ==> joined_texts(list, separator) == list[0] + separator + joined_texts(
            list.skip(1),
            separator,
        ),
    decreases list.len(),
{
    if list.len() == 2 {
        let first = list.drop_last();
        let second = list.skip(1);
        assert(joined_texts(first, separator) == list[0]);
        assert(joined_texts(second, separator) == list[1]);
    } else if list.len() > 2 {
        let rest = list.drop_last();
        law_joined_texts(rest, separator);
        assert(rest.skip(1) =~= list.skip(1).drop_last());
        assert(list.skip(1).last() == list.last());
        let middle = joined_texts(rest.skip(1), separator);
        assert(list[0] + separator + middle + separator + list.last() =~= list[0] + separator + (
        middle + separator + list.last()));
    }
}

} // verus!
