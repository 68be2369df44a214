//! Naming rules: how tag values become the names used in the library.

use vstd::prelude::*;

use crate::chars;
use crate::chars::{is_ascii_digit, is_ascii_word};
use crate::numbers;
use crate::numbers::{decimal_text, parse_unsigned};
use crate::strings;
use crate::strings::{chars_of, same_text, text_of, to_lower_text};

verus! {

/// `out` ends where a word may begin: it is empty or ends with a space.
pub open spec fn at_break(out: Seq<char>) -> bool {
    out.len() == 0 || out.last() == ' '
}

/// `out` with `c` appended, where white space becomes a single space that is
/// written only after a word.
pub open spec fn append_collapsed(out: Seq<char>, c: char) -> Seq<char> {
    if !chars::is_space_char(c) {
        out.push(c)
    } else if at_break(out) {
        out
    } else {
        out.push(' ')
    }
}

/// `s` without leading white space and with every other run of white space
/// replaced by one space.
pub open spec fn collapsed(s: Seq<char>) -> Seq<char>
    decreases s.len(),
{
    if s.len() == 0 {
        s
    } else {
        append_collapsed(collapsed(s.drop_last()), s.last())
    }
}

/// `s` without a final space.
pub open spec fn without_final_space(s: Seq<char>) -> Seq<char> {
    if s.len() > 0 && s.last() == ' ' {
        s.drop_last()
    } else {
        s
    }
}

/// The words of `s` with one space between them.
pub open spec fn clean_text(s: Seq<char>) -> Seq<char> {
    without_final_space(collapsed(s))
}

/// The only white space in `s` is single spaces, none of them at the start.
pub open spec fn is_collapsed(s: Seq<char>) -> bool {
    &&& forall|i: int| 0 <= i < s.len() && chars::is_space_char(s[i]) ==> s[i] == ' '
    &&& s.len() > 0 ==> s[0] != ' '
    &&& forall|i: int, j: int|
        0 <= i && j == i + 1 && j < s.len() && #[trigger] s[i] == ' ' ==> #[trigger] s[j] != ' '
}

/// The only white space in `s` is single spaces between words.
pub open spec fn is_clean(s: Seq<char>) -> bool {
    is_collapsed(s) && (s.len() > 0 ==> s.last() != ' ')
}

/// The characters of `s` that are not white space, in order.
pub open spec fn visible(s: Seq<char>) -> Seq<char> {
    s.filter(|c: char| !chars::is_space_char(c))
}

proof fn lemma_collapsed_shape(s: Seq<char>)
    ensures
        is_collapsed(collapsed(s)),
        visible(collapsed(s)) == visible(s),
    decreases s.len(),
{
    if s.len() > 0 {
        let before = collapsed(s.drop_last());
        lemma_collapsed_shape(s.drop_last());
        let p = |c: char| !chars::is_space_char(c);
        reveal(Seq::filter);
        assert(before.push(s.last()).drop_last() == before);
        assert(before.push(' ').drop_last() == before);
    }
}

proof fn lemma_collapsed_is_identity(s: Seq<char>)
    requires
        is_collapsed(s),
    ensures
        collapsed(s) == s,
    decreases s.len(),
{
    if s.len() > 0 {
        assert(is_collapsed(s.drop_last())) by {
            assert forall|i: int, j: int|
                0 <= i && j == i + 1 && j < s.drop_last().len() && #[trigger] s.drop_last()[i]
                    == ' ' implies #[trigger] s.drop_last()[j] != ' ' by {
                assert(s[i] == ' ');
                assert(s[j] != ' ');
            }
        }
        lemma_collapsed_is_identity(s.drop_last());
        if s.last() == ' ' && s.len() > 1 {
            assert(s[s.len() - 2] != ' ');
        }
        assert(s.drop_last().push(s.last()) == s);
    }
}

/// Cleaned text has no white space but single spaces between words, keeps every
/// other character in order, and is left alone by cleaning it again.
pub proof fn law_clean_text(s: Seq<char>)
    ensures
        is_clean(clean_text(s)),
        visible(clean_text(s)) == visible(s),
        clean_text(clean_text(s)) == clean_text(s),
{
    lemma_collapsed_shape(s);
    let c = collapsed(s);
    let t = clean_text(s);
    if c.len() > 0 && c.last() == ' ' {
        reveal(Seq::filter);
        assert(is_collapsed(t)) by {
            assert forall|i: int, j: int|
                0 <= i && j == i + 1 && j < t.len() && #[trigger] t[i] == ' ' implies
                #[trigger] t[j] != ' ' by {
                assert(c[i] == ' ');
                assert(c[j] != ' ');
            }
        }
        if t.len() > 0 {
            assert(c[c.len() - 2] != ' ');
        }
    }
    lemma_collapsed_is_identity(t);
}

/// Collapses white space and trims both ends.
pub fn clean_whitespace(value: &str) -> (out: String)
    ensures
        out@ == clean_text(value@),
{
    let mut out: Vec<char> = Vec::new();
    let mut in_whitespace = true;

    for ch in it: value.chars()
        invariant
            it.seq() == value@,
            out@ == collapsed(value@.take(it.index())),
            in_whitespace == at_break(out@),
    {
        let ghost before = value@.take(it.index());
        let ghost after = value@.take(it.index() + 1);
        assert(after.drop_last() == before);
        assert(after.last() == ch);
        if ch.is_whitespace() {
            if !in_whitespace {
                out.push(' ');
                in_whitespace = true;
            }
        } else {
            out.push(ch);
            in_whitespace = false;
        }
    }
    assert(value@.take(value@.len() as int) == value@);

    let n = out.len();
    if n > 0 && out[n - 1] == ' ' {
        out.pop();
    }
    text_of(&out)
}

/// A NUL counts as white space in names.
pub open spec fn is_gap_char(c: char) -> bool {
    c == '\0' || chars::is_space_char(c)
}

/// The last character of `out` other than a trailing space is an underscore.
pub open spec fn after_underscore(out: Seq<char>) -> bool {
    let word = without_final_space(out);
    word.len() > 0 && word.last() == '_'
}

/// Whether an underscore read after `out`, with `next` following it, is an
/// artifact to leave out: it repeats an underscore, stands at the start of a
/// word before a letter, digit or space, or closes the whole text after a letter
/// or digit.
pub open spec fn is_stray_underscore(out: Seq<char>, next: Option<char>) -> bool {
    ||| after_underscore(out)
    ||| at_break(out) && (next matches Some(c) && (chars::is_alphanumeric_char(c)
        || chars::is_space_char(c)))
    ||| next is None && out.len() > 0 && chars::is_alphanumeric_char(out.last())
}

/// `c` as it may stand in a file name.
pub open spec fn name_char(c: char, filesystem_safe: bool) -> char {
    if filesystem_safe && (c == '/' || c == '\\') {
        '-'
    } else {
        c
    }
}

/// `out` after reading `c`, with `next` following it.
pub open spec fn append_normalized(
    out: Seq<char>,
    c: char,
    next: Option<char>,
    filesystem_safe: bool,
) -> Seq<char> {
    if is_gap_char(c) {
        append_collapsed(out, ' ')
    } else if c == '_' {
        if is_stray_underscore(out, next) {
            out
        } else {
            out.push('_')
        }
    } else {
        out.push(name_char(c, filesystem_safe))
    }
}

/// What is kept of the first `n` characters of `s`.
pub open spec fn normalized_prefix(s: Seq<char>, n: int, filesystem_safe: bool) -> Seq<char>
    decreases n,
{
    if n <= 0 {
        Seq::empty()
    } else {
        append_normalized(
            normalized_prefix(s, n - 1, filesystem_safe),
            s[n - 1],
            if n < s.len() {
                Some(s[n])
            } else {
                None
            },
            filesystem_safe,
        )
    }
}

/// Whether the last character of `s` is cut off: spaces and full stops are, an
/// underscore is when a letter or digit stands before it.
pub open spec fn has_loose_end(s: Seq<char>) -> bool {
    &&& s.len() > 0
    &&& {
        ||| s.last() == ' '
        ||| s.last() == '.'
        ||| s.last() == '_' && s.len() > 1 && chars::is_alphanumeric_char(s[s.len() - 2])
    }
}

/// `s` without its loose end.
pub open spec fn without_loose_end(s: Seq<char>) -> Seq<char>
    decreases s.len(),
{
    if has_loose_end(s) {
        without_loose_end(s.drop_last())
    } else {
        s
    }
}

/// The normal form of a tag value; the empty one is spelled `Unknown`.
pub open spec fn normal_text(s: Seq<char>, filesystem_safe: bool) -> Seq<char> {
    let kept = without_loose_end(normalized_prefix(s, s.len() as int, filesystem_safe));
    if kept.len() == 0 {
        "Unknown"@
    } else {
        kept
    }
}

/// No two underscores stand side by side.
pub open spec fn has_single_underscores(s: Seq<char>) -> bool {
    forall|i: int, j: int|
        0 <= i && j == i + 1 && j < s.len() && #[trigger] s[i] == '_' ==> #[trigger] s[j] != '_'
}

/// What every normal form is made of while it is built.
spec fn is_name_material(s: Seq<char>, filesystem_safe: bool) -> bool {
    &&& is_collapsed(s)
    &&& forall|i: int| 0 <= i < s.len() ==> s[i] != '\0'
    &&& filesystem_safe ==> forall|i: int| 0 <= i < s.len() ==> s[i] != '/' && s[i] != '\\'
    &&& has_single_underscores(s)
}

proof fn lemma_name_material(s: Seq<char>, n: int, filesystem_safe: bool)
    requires
        0 <= n <= s.len(),
    ensures
        is_name_material(normalized_prefix(s, n, filesystem_safe), filesystem_safe),
    decreases n,
{
    if n > 0 {
        lemma_name_material(s, n - 1, filesystem_safe);
        let before = normalized_prefix(s, n - 1, filesystem_safe);
        let after = normalized_prefix(s, n, filesystem_safe);
        assert forall|i: int, j: int|
            0 <= i && j == i + 1 && j < after.len() && #[trigger] after[i] == '_' implies
            #[trigger] after[j] != '_' by {
            if j < before.len() {
                assert(before[i] == '_');
                assert(before[j] != '_');
            } else if before.len() == j {
                assert(before.last() == '_');
            }
        }
    }
}

proof fn lemma_collapsed_prefix(s: Seq<char>)
    requires
        is_collapsed(s),
        s.len() > 0,
    ensures
        is_collapsed(s.drop_last()),
{
    let t = s.drop_last();
    assert forall|i: int, j: int|
        0 <= i && j == i + 1 && j < t.len() && #[trigger] t[i] == ' ' implies #[trigger] t[j]
        != ' ' by {
        assert(s[i] == ' ');
        assert(s[j] != ' ');
    }
}

proof fn lemma_loose_end_cut(s: Seq<char>, filesystem_safe: bool)
    requires
        is_name_material(s, filesystem_safe),
    ensures
        is_name_material(without_loose_end(s), filesystem_safe),
        !has_loose_end(without_loose_end(s)),
    decreases s.len(),
{
    if has_loose_end(s) {
        lemma_collapsed_prefix(s);
        let t = s.drop_last();
        assert forall|i: int, j: int|
            0 <= i && j == i + 1 && j < t.len() && #[trigger] t[i] == '_' implies #[trigger] t[j]
            != '_' by {
            assert(s[i] == '_');
            assert(s[j] != '_');
        }
        lemma_loose_end_cut(t, filesystem_safe);
    }
}

/// A normal form is not empty, is clean, holds no NUL and no two underscores side
/// by side, does not end in a space, a full stop or an underscore that follows a
/// letter or digit, and, when asked to be safe for file names, holds no path
/// separator.
pub proof fn law_normal_text(s: Seq<char>, filesystem_safe: bool)
    ensures
        normal_text(s, filesystem_safe).len() > 0,
        is_clean(normal_text(s, filesystem_safe)),
        clean_text(normal_text(s, filesystem_safe)) == normal_text(s, filesystem_safe),
        !normal_text(s, filesystem_safe).contains('\0'),
        has_single_underscores(normal_text(s, filesystem_safe)),
        normal_text(s, filesystem_safe).last() != '.',
        normal_text(s, filesystem_safe) == "Unknown"@ || !has_loose_end(
            normal_text(s, filesystem_safe),
        ),
        filesystem_safe ==> !normal_text(s, filesystem_safe).contains('/') && !normal_text(
            s,
            filesystem_safe,
        ).contains('\\'),
{
    let n = s.len() as int;
    lemma_name_material(s, n, filesystem_safe);
    lemma_loose_end_cut(normalized_prefix(s, n, filesystem_safe), filesystem_safe);
    reveal_strlit("Unknown");
    lemma_collapsed_is_identity(normal_text(s, filesystem_safe));
}

/// `s` with path separators replaced.
pub open spec fn safe_chars(s: Seq<char>) -> Seq<char> {
    s.map_values(|c: char| name_char(c, true))
}

proof fn lemma_safe_prefix(s: Seq<char>, n: int)
    requires
        0 <= n <= s.len(),
    ensures
        normalized_prefix(s, n, true) == safe_chars(normalized_prefix(s, n, false)),
    decreases n,
{
    if n > 0 {
        lemma_safe_prefix(s, n - 1);
        let plain = normalized_prefix(s, n - 1, false);
        let safe = normalized_prefix(s, n - 1, true);
        if plain.len() > 0 {
            assert(safe.last() == name_char(plain.last(), true));
            if plain.len() > 1 {
                assert(safe[safe.len() - 2] == name_char(plain[plain.len() - 2], true));
            }
        }
        assert(at_break(safe) == at_break(plain));
        assert(after_underscore(safe) == after_underscore(plain));
        assert(normalized_prefix(s, n, true) =~= safe_chars(normalized_prefix(s, n, false)));
    } else {
        assert(normalized_prefix(s, n, true) =~= safe_chars(normalized_prefix(s, n, false)));
    }
}

proof fn lemma_safe_loose_end(s: Seq<char>)
    ensures
        without_loose_end(safe_chars(s)) == safe_chars(without_loose_end(s)),
    decreases s.len(),
{
    let safe = safe_chars(s);
    if s.len() > 0 {
        assert(safe.last() == name_char(s.last(), true));
        if s.len() > 1 {
            assert(safe[safe.len() - 2] == name_char(s[s.len() - 2], true));
        }
        assert(has_loose_end(safe) == has_loose_end(s));
        if has_loose_end(s) {
            lemma_safe_loose_end(s.drop_last());
            assert(safe.drop_last() =~= safe_chars(s.drop_last()));
        }
    }
}

/// The form that is safe for file names is the other one with every slash and
/// backslash turned into a hyphen.
pub proof fn law_safe_form(s: Seq<char>)
    ensures
        normal_text(s, true) == safe_chars(normal_text(s, false)),
{
    lemma_safe_prefix(s, s.len() as int);
    lemma_safe_loose_end(normalized_prefix(s, s.len() as int, false));
    reveal_strlit("Unknown");
    assert(safe_chars("Unknown"@) =~= "Unknown"@);
}

/// `s` with every NUL and every white space written as a space, and, when asked
/// for, path separators replaced.
pub open spec fn spelled(s: Seq<char>, filesystem_safe: bool) -> Seq<char> {
    s.map_values(
        |c: char|
            if is_gap_char(c) {
                ' '
            } else {
                name_char(c, filesystem_safe)
            },
    )
}

proof fn lemma_plain_prefix(s: Seq<char>, n: int, filesystem_safe: bool)
    requires
        0 <= n <= s.len(),
        !s.contains('_'),
    ensures
        normalized_prefix(s, n, filesystem_safe) == collapsed(spelled(s, filesystem_safe).take(n)),
        !normalized_prefix(s, n, filesystem_safe).contains('_'),
    decreases n,
{
    let kept = normalized_prefix(s, n, filesystem_safe);
    let whole = spelled(s, filesystem_safe);
    if n > 0 {
        lemma_plain_prefix(s, n - 1, filesystem_safe);
        let before = normalized_prefix(s, n - 1, filesystem_safe);
        assert(s.contains(s[n - 1]));
        assert(whole.take(n).drop_last() =~= whole.take(n - 1));
        assert(whole.take(n).last() == whole[n - 1]);
        if kept.contains('_') {
            let i = choose|i: int| 0 <= i < kept.len() && kept[i] == '_';
            if i < before.len() {
                assert(before[i] == '_');
            }
        }
    } else {
        assert(whole.take(0) =~= Seq::empty());
    }
}

proof fn lemma_material_is_normal(s: Seq<char>, n: int, filesystem_safe: bool)
    requires
        0 <= n <= s.len(),
        is_name_material(s, filesystem_safe),
        !s.contains('_'),
    ensures
        normalized_prefix(s, n, filesystem_safe) == s.take(n),
    decreases n,
{
    if n > 0 {
        lemma_material_is_normal(s, n - 1, filesystem_safe);
        let before = s.take(n - 1);
        assert(s.contains(s[n - 1]));
        assert(s.take(n) =~= before.push(s[n - 1]));
        if s[n - 1] == ' ' {
            assert(n > 1);
            assert(s[n - 2] != ' ') by {
                if s[n - 2] == ' ' {
                    assert(s[n - 1] != ' ');
                }
            }
            assert(before.last() == s[n - 2]);
        }
    } else {
        assert(s.take(0) =~= Seq::empty());
    }
}

proof fn lemma_loose_end_is_prefix(s: Seq<char>)
    ensures
        without_loose_end(s).len() <= s.len(),
        without_loose_end(s) == s.take(without_loose_end(s).len() as int),
        without_loose_end(s).len() < s.len() ==> {
            let next = s[without_loose_end(s).len() as int];
            next == ' ' || next == '.' || next == '_'
        },
    decreases s.len(),
{
    if has_loose_end(s) {
        let rest = s.drop_last();
        lemma_loose_end_is_prefix(rest);
        let kept = without_loose_end(s).len() as int;
        assert(rest.take(kept) =~= s.take(kept));
    } else {
        assert(s.take(s.len() as int) =~= s);
    }
}

/// Text without underscores has a plain normal form: white space collapsed,
/// spaces and full stops at the end cut off, and nothing else changed but path
/// separators, when asked for. It is its own normal form.
pub proof fn law_plain_form(s: Seq<char>, filesystem_safe: bool)
    requires
        !s.contains('_'),
    ensures
        ({
            let kept = without_loose_end(collapsed(spelled(s, filesystem_safe)));
            let form = normal_text(s, filesystem_safe);
            &&& form == if kept.len() == 0 {
                "Unknown"@
            } else {
                kept
            }
            &&& !form.contains('_')
            &&& normal_text(form, filesystem_safe) == form
        }),
{
    let n = s.len() as int;
    let whole = spelled(s, filesystem_safe);
    let prefix = normalized_prefix(s, n, filesystem_safe);
    let form = normal_text(s, filesystem_safe);
    lemma_plain_prefix(s, n, filesystem_safe);
    assert(whole.take(n) =~= whole);
    lemma_name_material(s, n, filesystem_safe);
    lemma_loose_end_cut(prefix, filesystem_safe);
    lemma_loose_end_is_prefix(prefix);
    reveal_strlit("Unknown");
    assert(!form.contains('_')) by {
        if form.contains('_') {
            let i = choose|i: int| 0 <= i < form.len() && form[i] == '_';
            assert(prefix[i] == '_');
        }
    }
    lemma_material_is_normal(form, form.len() as int, filesystem_safe);
    assert(form.take(form.len() as int) =~= form);
}

/// An ASCII letter.
pub(crate) open spec fn is_letter(c: char) -> bool {
    chars::is_ascii_upper_char(c) || chars::is_ascii_lower_char(c)
}

/// A word of ASCII letters is its own normal form.
pub(crate) proof fn lemma_word_is_normal(s: Seq<char>, filesystem_safe: bool)
    requires
        s.len() > 0,
        forall|i: int| 0 <= i < s.len() ==> is_letter(#[trigger] s[i]),
    ensures
        normal_text(s, filesystem_safe) == s,
{
    assert(!s.contains('_')) by {
        if s.contains('_') {
            let i = choose|i: int| 0 <= i < s.len() && s[i] == '_';
            assert(is_letter(s[i]));
        }
    }
    assert forall|i: int| 0 <= i < s.len() implies !chars::is_space_char(#[trigger] s[i]) && s[i]
        != '\0' && s[i] != '/' && s[i] != '\\' by {
        assert(is_letter(s[i]));
    }
    assert forall|i: int, j: int|
        0 <= i && j == i + 1 && j < s.len() && #[trigger] s[i] == ' ' implies #[trigger] s[j]
        != ' ' by {
        assert(is_letter(s[i]));
    }
    assert forall|i: int, j: int|
        0 <= i && j == i + 1 && j < s.len() && #[trigger] s[i] == '_' implies #[trigger] s[j]
        != '_' by {
        assert(is_letter(s[i]));
    }
    lemma_material_is_normal(s, s.len() as int, filesystem_safe);
    assert(s.take(s.len() as int) =~= s);
    assert(is_letter(s[s.len() - 1]));
}

/// The normal form of a tag value, optionally safe for file names.
pub fn normalize_text(value: &str, filesystem_safe: bool) -> (res: String)
    ensures
        res@ == normal_text(value@, filesystem_safe),
{
    let mut out: Vec<char> = Vec::new();
    let mut prev_was_space = true;
    let mut prev_was_underscore = false;
    let chars: Vec<char> = chars_of(value);
    let count = chars.len();

    for index in 0..count
        invariant
            count == chars.len(),
            chars@ == value@,
            out@ == normalized_prefix(value@, index as int, filesystem_safe),
            prev_was_space == at_break(out@),
            prev_was_underscore == after_underscore(out@),
    {
        let ch = chars[index];
        let next: Option<char> = if index + 1 < count {
            Some(chars[index + 1])
        } else {
            None
        };
        let ghost before = out@;
        if ch == '\0' || ch.is_whitespace() {
            if !prev_was_space {
                out.push(' ');
                prev_was_space = true;
                assert(out@.drop_last() == before);
            }
        } else if ch == '_' {
            let before_word = match next {
                Some(c) => c.is_alphanumeric() || c.is_whitespace(),
                None => false,
            };
            let length = out.len();
            let closing = next.is_none() && length > 0 && out[length - 1].is_alphanumeric();
            if !(prev_was_underscore || (prev_was_space && before_word) || closing) {
                out.push('_');
                prev_was_space = false;
                prev_was_underscore = true;
            }
        } else {
            out.push(
                if filesystem_safe && (ch == '/' || ch == '\\') {
                    '-'
                } else {
                    ch
                },
            );
            prev_was_space = false;
            prev_was_underscore = false;
        }
    }

    let ghost whole = out@;
    loop
        invariant
            without_loose_end(out@) == without_loose_end(whole),
        ensures
            out@ == without_loose_end(whole),
        decreases out.len(),
    {
        let length = out.len();
        if length == 0 {
            break;
        }
        let last = out[length - 1];
        if last == '_' {
            if length == 1 || !out[length - 2].is_alphanumeric() {
                break;
            }
        } else if last != ' ' && last != '.' {
            break;
        }
        out.pop();
    }

    if out.len() == 0 {
        "Unknown".to_string()
    } else {
        text_of(&out)
    }
}

/// The name under which a tag value is filed.
pub fn safe_name(value: &str) -> (res: String)
    ensures
        res@ == normal_text(value@, true),
{
    normalize_text(value, true)
}

/// `word` stands at position `i` of `s` with no ASCII letter or digit beside it.
pub open spec fn is_word_at(s: Seq<char>, i: int, word: Seq<char>) -> bool {
    &&& 0 <= i && i + word.len() <= s.len()
    &&& s.subrange(i, i + word.len()) == word
    &&& i > 0 ==> !chars::is_ascii_word_char(s[i - 1])
    &&& i + word.len() < s.len() ==> !chars::is_ascii_word_char(s[i + word.len()])
}

/// Further artists are listed from position `i` of `s` on.
pub open spec fn is_artist_separator(s: Seq<char>, i: int) -> bool {
    ||| s[i] == ';'
    ||| s[i] == '&'
    ||| s[i] == ','
    ||| is_word_at(strings::lower_text(s), i, "and"@)
    ||| is_word_at(strings::lower_text(s), i, "with"@)
    ||| is_word_at(strings::lower_text(s), i, "feat"@)
    ||| is_word_at(strings::lower_text(s), i, "featuring"@)
}

/// The position of the first separator at or after `i`, or the end of `s`.
pub open spec fn separator_from(s: Seq<char>, i: int) -> int
    decreases s.len() - i,
{
    if i >= s.len() {
        s.len() as int
    } else if is_artist_separator(s, i) {
        i
    } else {
        separator_from(s, i + 1)
    }
}

/// Further artists are listed from the first separator on, if there is one.
pub proof fn law_first_separator(s: Seq<char>, i: int)
    requires
        0 <= i <= s.len(),
    ensures
        i <= separator_from(s, i) <= s.len(),
        separator_from(s, i) < s.len() ==> is_artist_separator(s, separator_from(s, i)),
        forall|j: int| i <= j < separator_from(s, i) ==> !is_artist_separator(s, j),
    decreases s.len() - i,
{
    if i < s.len() && !is_artist_separator(s, i) {
        law_first_separator(s, i + 1);
    }
}

/// The first artist of a list of artists.
pub open spec fn primary_artist(s: Seq<char>) -> Seq<char> {
    clean_text(s.take(separator_from(s, 0)))
}

/// The name under which an artist is filed: the first artist listed, in normal
/// form, with one artist's two names made one.
pub open spec fn artist_name(s: Seq<char>) -> Seq<char> {
    let primary = normal_text(primary_artist(s), false);
    let lower = strings::lower_text(primary);
    if lower == "ye"@ || lower == "kanye west"@ {
        "Ye"@
    } else {
        primary
    }
}

/// `word` is made of small ASCII letters.
spec fn is_small_word(word: Seq<char>) -> bool {
    word.len() > 0 && forall|i: int|
        0 <= i < word.len() ==> chars::is_ascii_lower_char(#[trigger] word[i])
}

proof fn lemma_separator_words()
    ensures
        is_small_word("and"@),
        is_small_word("with"@),
        is_small_word("feat"@),
        is_small_word("featuring"@),
        "and"@.len() == 3,
        "with"@.len() == 4,
        "feat"@.len() == 4,
        "featuring"@.len() == 9,
{
    reveal_strlit("and");
    reveal_strlit("with");
    reveal_strlit("feat");
    reveal_strlit("featuring");
}

proof fn lemma_lower_keeps_words(c: char)
    ensures
        chars::is_ascii_word_char(chars::ascii_lower(c)) == chars::is_ascii_word_char(c),
        chars::is_ascii_lower_char(chars::ascii_lower(c)) ==> is_letter(c),
{
}

/// Where a run of visible characters of the collapsed text stands in the text
/// itself, and what stands beside it there.
proof fn lemma_run_in_collapsed(s: Seq<char>, j: int, m: int) -> (i: int)
    requires
        0 <= j,
        1 <= m,
        j + m <= collapsed(s).len(),
        forall|k: int| j <= k < j + m ==> !chars::is_space_char(#[trigger] collapsed(s)[k]),
    ensures
        0 <= i,
        i + m <= s.len(),
        forall|k: int| 0 <= k < m ==> s[i + k] == #[trigger] collapsed(s)[j + k],
        j == 0 || collapsed(s)[j - 1] == ' ' ==> i == 0 || chars::is_space_char(s[i - 1]),
        j > 0 && collapsed(s)[j - 1] != ' ' ==> i > 0 && s[i - 1] == collapsed(s)[j - 1],
        j + m == collapsed(s).len() ==> i + m == s.len(),
        j + m < collapsed(s).len() ==> i + m < s.len() && if collapsed(s)[j + m] == ' ' {
            chars::is_space_char(s[i + m])
        } else {
            s[i + m] == collapsed(s)[j + m]
        },
    decreases s.len(),
{
    let rest = s.drop_last();
    let before = collapsed(rest);
    let out = collapsed(s);
    let c = s.last();
    if rest.len() > 0 {
        let earlier = collapsed(rest.drop_last());
        assert(before == append_collapsed(earlier, rest.last()));
        assert(s[s.len() - 2] == rest.last());
    }
    assert forall|k: int| 0 <= k < before.len() implies out[k] == before[k] by {}
    if j + m <= before.len() {
        assert forall|k: int| j <= k < j + m implies !chars::is_space_char(
            #[trigger] before[k],
        ) by {
            assert(out[k] == before[k]);
        }
        let i = lemma_run_in_collapsed(rest, j, m);
        assert forall|k: int| 0 <= k < m implies s[i + k] == #[trigger] out[j + k] by {
            assert(before[j + k] == rest[i + k]);
        }
        if j + m == before.len() {
            assert(!chars::is_space_char(before[j + m - 1]));
            assert(before.last() == before[j + m - 1]);
        }
        i
    } else {
        assert(out == before.push(c)) by {
            if chars::is_space_char(c) {
                assert(chars::is_space_char(out[j + m - 1]));
            }
        }
        if m == 1 {
            s.len() - 1
        } else {
            assert forall|k: int| j <= k < j + (m - 1) implies !chars::is_space_char(
                #[trigger] before[k],
            ) by {
                assert(out[k] == before[k]);
            }
            let i = lemma_run_in_collapsed(rest, j, m - 1);
            assert forall|k: int| 0 <= k < m implies s[i + k] == #[trigger] out[j + k] by {
                if k < m - 1 {
                    assert(before[j + k] == rest[i + k]);
                }
            }
            i
        }
    }
}

/// A word of the collapsed text, cut off where no word goes on, is a word of the
/// text itself.
proof fn lemma_word_in_collapsed(s: Seq<char>, q: int, j: int, word: Seq<char>) -> (i: int)
    requires
        is_small_word(word),
        0 <= q <= collapsed(s).len(),
        q < collapsed(s).len() ==> !chars::is_ascii_word_char(collapsed(s)[q]),
        is_word_at(strings::lower_text(collapsed(s).take(q)), j, word),
    ensures
        is_word_at(strings::lower_text(s), i, word),
{
    let out = collapsed(s);
    let part = out.take(q);
    let low = strings::lower_text(part);
    let m = word.len() as int;
    assert forall|k: int| 0 <= k < m implies chars::ascii_lower(out[j + k]) == #[trigger] word[k] by {
        assert(low.subrange(j, j + m)[k] == word[k]);
        assert(low[j + k] == chars::ascii_lower(part[j + k]));
    }
    assert forall|k: int| j <= k < j + m implies !chars::is_space_char(#[trigger] out[k]) by {
        assert(chars::is_ascii_lower_char(word[k - j]));
        lemma_lower_keeps_words(out[k]);
    }
    let i = lemma_run_in_collapsed(s, j, m);
    let whole = strings::lower_text(s);
    assert forall|k: int| 0 <= k < m implies whole.subrange(i, i + m)[k] == word[k] by {
        assert(s[i + k] == out[j + k]);
        assert(chars::ascii_lower(out[j + k]) == word[k]);
    }
    assert(whole.subrange(i, i + m) =~= word);
    if i > 0 {
        lemma_lower_keeps_words(s[i - 1]);
        if j > 0 {
            assert(low[j - 1] == chars::ascii_lower(out[j - 1]));
            lemma_lower_keeps_words(out[j - 1]);
        }
        assert(whole[i - 1] == chars::ascii_lower(s[i - 1]));
    }
    if i + m < s.len() {
        lemma_lower_keeps_words(s[i + m]);
        assert(j + m < out.len());
        lemma_lower_keeps_words(out[j + m]);
        if j + m < q {
            assert(low[j + m] == chars::ascii_lower(out[j + m]));
        }
        assert(whole[i + m] == chars::ascii_lower(s[i + m]));
    }
    i
}

/// A word before the first separator is a word of the whole text.
proof fn lemma_word_before_separator(s: Seq<char>, k: int, i: int, word: Seq<char>)
    requires
        is_small_word(word),
        0 <= k <= s.len(),
        k < s.len() ==> is_artist_separator(s, k),
        is_word_at(strings::lower_text(s.take(k)), i, word),
    ensures
        is_word_at(strings::lower_text(s), i, word),
{
    let whole = strings::lower_text(s);
    let part = strings::lower_text(s.take(k));
    let m = word.len() as int;
    assert(part =~= whole.take(k));
    assert(whole.subrange(i, i + m) =~= part.subrange(i, i + m));
    if i > 0 {
        assert(whole[i - 1] == part[i - 1]);
    }
    if i + m < k {
        assert(whole[i + m] == part[i + m]);
    } else if i + m < s.len() {
        assert(whole[k - 1] == word[m - 1]) by {
            assert(part.subrange(i, i + m)[m - 1] == word[m - 1]);
        }
        assert(chars::is_ascii_lower_char(word[m - 1]));
        lemma_lower_keeps_words(s[k]);
        assert(whole[k] == chars::ascii_lower(s[k]));
    }
}

/// Whether no further artists are listed anywhere in `s`.
pub open spec fn has_no_separator(s: Seq<char>) -> bool {
    forall|i: int| 0 <= i < s.len() ==> !#[trigger] is_artist_separator(s, i)
}

proof fn lemma_no_separator_from(s: Seq<char>, i: int)
    requires
        has_no_separator(s),
        0 <= i <= s.len(),
    ensures
        separator_from(s, i) == s.len(),
    decreases s.len() - i,
{
    if i < s.len() {
        assert(!is_artist_separator(s, i));
        lemma_no_separator_from(s, i + 1);
    }
}

/// The first artist is one artist: no separator is left in it, and it is its own
/// first artist.
pub proof fn law_primary_artist_is_single(s: Seq<char>)
    ensures
        has_no_separator(primary_artist(s)),
        primary_artist(primary_artist(s)) == primary_artist(s),
{
    let k = separator_from(s, 0);
    let listed = s.take(k);
    let out = collapsed(listed);
    let primary = primary_artist(s);
    let q = primary.len() as int;
    law_first_separator(s, 0);
    lemma_separator_words();
    assert(primary =~= out.take(q));
    assert forall|j: int| 0 <= j < primary.len() implies !#[trigger] is_artist_separator(
        primary,
        j,
    ) by {
        if is_artist_separator(primary, j) {
            let c = primary[j];
            if c == ';' || c == '&' || c == ',' {
                let i = lemma_run_in_collapsed(listed, j, 1);
                assert(listed[i + 0] == out[j + 0]);
                assert(is_artist_separator(s, i));
            } else {
                let low = strings::lower_text(primary);
                let word = if is_word_at(low, j, "and"@) {
                    "and"@
                } else if is_word_at(low, j, "with"@) {
                    "with"@
                } else if is_word_at(low, j, "feat"@) {
                    "feat"@
                } else {
                    "featuring"@
                };
                let i = lemma_word_in_collapsed(listed, q, j, word);
                lemma_word_before_separator(s, k, i, word);
                assert(is_artist_separator(s, i));
                assert(i < k);
            }
        }
    }
    lemma_no_separator_from(primary, 0);
    assert(primary.take(q) =~= primary);
    law_clean_text(listed);
}

proof fn lemma_one_word_has_no_separator(s: Seq<char>)
    requires
        forall|i: int| 0 <= i < s.len() ==> is_letter(#[trigger] s[i]),
        s.len() != 3 && s.len() != 4 && s.len() != 9,
    ensures
        has_no_separator(s),
{
    lemma_separator_words();
    let low = strings::lower_text(s);
    assert forall|i: int| 0 <= i < s.len() implies !#[trigger] is_artist_separator(s, i) by {
        assert(is_letter(s[i]));
        assert forall|k: int| 0 <= k < s.len() implies chars::is_ascii_word_char(
            #[trigger] low[k],
        ) by {
            assert(is_letter(s[k]));
            lemma_lower_keeps_words(s[k]);
        }
    }
}

/// `Ye` is filed as `Ye`.
pub(crate) proof fn lemma_default_artist()
    ensures
        artist_name("Ye"@) == "Ye"@,
{
    let s = "Ye"@;
    reveal_strlit("Ye");
    reveal_strlit("ye");
    lemma_one_word_has_no_separator(s);
    lemma_no_separator_from(s, 0);
    assert(s.take(2) =~= s);
    lemma_word_is_normal(s, false);
    law_normal_text(s, false);
    assert(strings::lower_text(s) =~= "ye"@);
}

proof fn lemma_spelled_words(s: Seq<char>, i: int, word: Seq<char>)
    requires
        is_small_word(word),
        is_word_at(strings::lower_text(spelled(s, false)), i, word),
    ensures
        is_word_at(strings::lower_text(s), i, word),
{
    let flat = spelled(s, false);
    let low = strings::lower_text(flat);
    let whole = strings::lower_text(s);
    let m = word.len() as int;
    assert forall|k: int| 0 <= k < m implies whole.subrange(i, i + m)[k] == word[k] by {
        assert(low.subrange(i, i + m)[k] == word[k]);
        assert(chars::is_ascii_lower_char(word[k]));
        assert(low[i + k] == chars::ascii_lower(flat[i + k]));
    }
    assert(whole.subrange(i, i + m) =~= word);
    if i > 0 {
        assert(low[i - 1] == chars::ascii_lower(flat[i - 1]));
        assert(whole[i - 1] == chars::ascii_lower(s[i - 1]));
        lemma_lower_keeps_words(s[i - 1]);
        lemma_lower_keeps_words(flat[i - 1]);
    }
    if i + m < s.len() {
        assert(low[i + m] == chars::ascii_lower(flat[i + m]));
        assert(whole[i + m] == chars::ascii_lower(s[i + m]));
        lemma_lower_keeps_words(s[i + m]);
        lemma_lower_keeps_words(flat[i + m]);
    }
}

proof fn lemma_normal_artist_is_single(s: Seq<char>)
    requires
        has_no_separator(s),
        !s.contains('_'),
    ensures
        has_no_separator(normal_text(s, false)),
{
    let flat = spelled(s, false);
    let out = collapsed(flat);
    let kept = without_loose_end(out);
    let form = normal_text(s, false);
    law_plain_form(s, false);
    lemma_plain_prefix(s, s.len() as int, false);
    assert(flat.take(s.len() as int) =~= flat);
    lemma_loose_end_is_prefix(out);
    if kept.len() == 0 {
        reveal_strlit("Unknown");
        lemma_one_word_has_no_separator(form);
    } else {
        let q = kept.len() as int;
        if q < out.len() {
            assert(out.contains(out[q]));
        }
        lemma_separator_words();
        assert forall|j: int| 0 <= j < form.len() implies !#[trigger] is_artist_separator(
            form,
            j,
        ) by {
            if is_artist_separator(form, j) {
                let c = form[j];
                assert(out[j] == c);
                if c == ';' || c == '&' || c == ',' {
                    let i = lemma_run_in_collapsed(flat, j, 1);
                    assert(flat[i + 0] == out[j + 0]);
                    assert(is_artist_separator(s, i));
                } else {
                    let low = strings::lower_text(form);
                    let word = if is_word_at(low, j, "and"@) {
                        "and"@
                    } else if is_word_at(low, j, "with"@) {
                        "with"@
                    } else if is_word_at(low, j, "feat"@) {
                        "feat"@
                    } else {
                        "featuring"@
                    };
                    let i = lemma_word_in_collapsed(flat, q, j, word);
                    lemma_spelled_words(s, i, word);
                    assert(is_artist_separator(s, i));
                }
            }
        }
    }
}

/// The name under which an artist is filed, where no underscores are in play, is
/// one artist, and is filed under itself.
pub proof fn law_artist_name_settles(s: Seq<char>)
    requires
        !s.contains('_'),
    ensures
        has_no_separator(artist_name(s)),
        artist_name(artist_name(s)) == artist_name(s),
{
    let primary = primary_artist(s);
    let listed = s.take(separator_from(s, 0));
    let name = normal_text(primary, false);
    law_first_separator(s, 0);
    law_primary_artist_is_single(s);
    assert(!primary.contains('_')) by {
        if primary.contains('_') {
            let j = choose|j: int| 0 <= j < primary.len() && primary[j] == '_';
            let i = lemma_run_in_collapsed(listed, j, 1);
            assert(listed[i + 0] == collapsed(listed)[j + 0]);
            assert(s[i] == '_');
        }
    }
    lemma_normal_artist_is_single(primary);
    law_plain_form(primary, false);
    law_normal_text(primary, false);
    lemma_no_separator_from(name, 0);
    assert(name.take(name.len() as int) =~= name);
    reveal_strlit("Ye");
    lemma_default_artist();
    lemma_one_word_has_no_separator("Ye"@);
}

/// The digits of `s`, in order.
pub open spec fn digits_of(s: Seq<char>) -> Seq<char> {
    s.filter(|c: char| chars::is_ascii_digit_char(c))
}

/// `s` padded with a zero in front to two characters.
pub open spec fn two_digits(s: Seq<char>) -> Seq<char> {
    if s.len() < 2 {
        seq!['0'] + s
    } else {
        s
    }
}

/// The label that a track number puts in front of a file name: its digits read
/// as one number of 32 bits, at least two digits long.
pub open spec fn track_label(tracknumber: Option<Seq<char>>) -> Option<Seq<char>> {
    match tracknumber {
        Some(s) => {
            let value = numbers::digits_value(digits_of(s));
            if digits_of(s).len() == 0 || value > u32::MAX {
                None
            } else {
                Some(two_digits(numbers::decimal(value)))
            }
        },
        None => None,
    }
}

/// Whether `word` stands at `index` with no ASCII letter or digit beside it.
pub fn starts_word(chars: &Vec<char>, index: usize, word: &str) -> (res: bool)
    requires
        index <= chars.len(),
    ensures
        res == is_word_at(chars@, index as int, word@),
{
    let letters: Vec<char> = chars_of(word);
    let length = letters.len();
    if length > chars.len() - index {
        return false;
    }
    for k in 0..length
        invariant
            length == letters.len(),
            letters@ == word@,
            index + length <= chars.len(),
            chars@.subrange(index as int, index + k) == word@.take(k as int),
    {
        let ghost part = chars@.subrange(index as int, index + length);
        if chars[index + k] != letters[k] {
            assert(part[k as int] != word@[k as int]);
            return false;
        }
        assert(chars@.subrange(index as int, index + k + 1) == word@.take(k + 1));
    }
    assert(word@.take(length as int) == word@);
    let after = index + length;
    let before_ok = index == 0 || !is_ascii_word(chars[index - 1]);
    let after_ok = after >= chars.len() || !is_ascii_word(chars[after]);
    before_ok && after_ok
}

/// The first artist of a list of artists.
pub fn split_primary_artist(value: &str) -> (res: String)
    ensures
        res@ == primary_artist(value@),
{
    let letters: Vec<char> = chars_of(value);
    let lower: Vec<char> = chars_of(&to_lower_text(value));
    let count = letters.len();
    let mut cut: usize = 0;

    while cut < count
        invariant_except_break
            separator_from(value@, 0) == separator_from(value@, cut as int),
        invariant
            cut <= count == letters.len() == lower.len(),
            letters@ == value@,
            lower@ == strings::lower_text(value@),
        ensures
            cut == separator_from(value@, 0),
        decreases count - cut,
    {
        let c = letters[cut];
        if c == ';' || c == '&' || c == ',' || starts_word(&lower, cut, "and") || starts_word(
            &lower,
            cut,
            "with",
        ) || starts_word(&lower, cut, "feat") || starts_word(&lower, cut, "featuring") {
            break;
        }
        cut = cut + 1;
    }

    let listed = text_of(vstd::slice::slice_subrange(letters.as_slice(), 0, cut));
    clean_whitespace(&listed)
}

/// The name under which an artist is filed.
pub fn canonical_primary_artist(value: &str) -> (res: String)
    ensures
        res@ == artist_name(value@),
{
    let primary = normalize_text(&split_primary_artist(value), false);
    let lower = to_lower_text(&primary);
    if same_text(&lower, "ye") || same_text(&lower, "kanye west") {
        "Ye".to_string()
    } else {
        primary
    }
}

/// The label that a track number puts in front of a file name.
pub fn track_prefix(tracknumber: Option<&str>) -> (res: Option<String>)
    ensures
        strings::text_opt(res) == track_label(strings::str_opt(tracknumber)),
{
    let tracknumber = match tracknumber {
        Some(value) => value,
        None => {
            return None;
        },
    };
    let mut digits = String::new();
    for ch in it: tracknumber.chars()
        invariant
            it.seq() == tracknumber@,
            digits@ == digits_of(tracknumber@.take(it.index())),
            numbers::all_digits(digits@),
    {
        let ghost after = tracknumber@.take(it.index() + 1);
        proof {
            reveal(Seq::filter);
            assert(after.drop_last() == tracknumber@.take(it.index()));
        }
        if is_ascii_digit(ch) {
            digits.push(ch);
        }
    }
    assert(tracknumber@.take(tracknumber@.len() as int) == tracknumber@);
    if digits.as_str().is_empty() {
        return None;
    }
    assert(numbers::without_sign(digits@, '+') == digits@) by {
        assert(chars::is_ascii_digit_char(digits@[0]));
    }
    match parse_unsigned(&digits, u32::MAX as u64) {
        Some(number) => {
            let spelled = decimal_text(number);
            if number < 10 {
                let mut label = "0".to_string();
                proof {
                    reveal_strlit("0");
                    assert("0"@ =~= seq!['0']);
                }
                label.append(&spelled);
                Some(label)
            } else {
                proof {
                    numbers::law_decimal_round_trip((number / 10) as nat);
                }
                Some(spelled)
            }
        },
        None => None,
    }
}

proof fn lemma_collapsed_after_break(x: Seq<char>, b: Seq<char>)
    requires
        at_break(collapsed(x)),
    ensures
        collapsed(x + b) == collapsed(x) + collapsed(b),
    decreases b.len(),
{
    if b.len() == 0 {
        assert(x + b =~= x);
        assert(collapsed(x) + collapsed(b) =~= collapsed(x));
    } else {
        let rest = b.drop_last();
        lemma_collapsed_after_break(x, rest);
        assert((x + b).drop_last() =~= x + rest);
        assert((x + b).last() == b.last());
        let front = collapsed(x);
        let tail = collapsed(rest);
        assert(at_break(front + tail) == at_break(tail)) by {
            if tail.len() > 0 {
                assert((front + tail).last() == tail.last());
            } else {
                assert(front + tail =~= front);
            }
        }
        assert(collapsed(x + b) =~= front + collapsed(b));
    }
}

proof fn lemma_collapsed_is_blank(s: Seq<char>)
    ensures
        collapsed(s).len() == 0 <==> forall|i: int|
            0 <= i < s.len() ==> chars::is_space_char(#[trigger] s[i]),
    decreases s.len(),
{
    if s.len() > 0 {
        let rest = s.drop_last();
        lemma_collapsed_is_blank(rest);
        if collapsed(s).len() == 0 {
            assert forall|i: int| 0 <= i < s.len() implies chars::is_space_char(
                #[trigger] s[i],
            ) by {
                if i < rest.len() {
                    assert(rest[i] == s[i]);
                }
            }
        } else if forall|i: int| 0 <= i < s.len() ==> chars::is_space_char(#[trigger] s[i]) {
            assert forall|i: int| 0 <= i < rest.len() implies chars::is_space_char(
                #[trigger] rest[i],
            ) by {
                assert(rest[i] == s[i]);
            }
            assert(chars::is_space_char(s[s.len() - 1]));
        }
    }
}

proof fn lemma_blank_end(s: Seq<char>, blank: Seq<char>)
    requires
        forall|i: int| 0 <= i < blank.len() ==> chars::is_space_char(#[trigger] blank[i]),
    ensures
        clean_text(s + blank) == clean_text(s),
    decreases blank.len(),
{
    if blank.len() == 0 {
        assert(s + blank =~= s);
    } else {
        let rest = blank.drop_last();
        assert forall|i: int| 0 <= i < rest.len() implies chars::is_space_char(
            #[trigger] rest[i],
        ) by {
            assert(rest[i] == blank[i]);
        }
        lemma_blank_end(s, rest);
        assert((s + blank).drop_last() =~= s + rest);
        assert((s + blank).last() == blank[blank.len() - 1]);
        let before = collapsed(s + rest);
        lemma_collapsed_shape(s + rest);
        assert(before.push(' ').drop_last() =~= before);
        if before.len() > 0 && before.last() == ' ' && before.len() > 1 {
            assert(before[before.len() - 2] != ' ');
        }
    }
}

/// Cleaning keeps words apart by one space, whatever white space stood between
/// them, leaves out white space at the ends, and leaves clean text alone.
pub proof fn law_words_stay_apart(a: Seq<char>, gap: Seq<char>, b: Seq<char>)
    requires
        gap.len() > 0,
        forall|i: int| 0 <= i < gap.len() ==> chars::is_space_char(#[trigger] gap[i]),
    ensures
        !strings::is_blank(a) && !strings::is_blank(b) ==> clean_text(a + gap + b) == clean_text(a)
            + seq![' '] + clean_text(b),
        clean_text(gap + b) == clean_text(b),
        clean_text(a + gap) == clean_text(a),
        is_clean(a) ==> clean_text(a) == a,
{
    lemma_collapsed_is_blank(gap);
    lemma_collapsed_after_break(gap, b);
    assert(collapsed(gap) + collapsed(b) =~= collapsed(b));
    lemma_blank_end(a, gap);
    if is_clean(a) {
        lemma_collapsed_is_identity(a);
    }
    if !strings::is_blank(a) && !strings::is_blank(b) {
        lemma_collapsed_is_blank(a);
        lemma_collapsed_is_blank(b);
        lemma_collapsed_shape(a);
        let x = a + gap;
        let front = collapsed(x);
        assert(x.last() == gap[gap.len() - 1]);
        assert(at_break(front));
        lemma_collapsed_is_blank(x);
        assert(front.len() > 0) by {
            let i = choose|i: int| 0 <= i < a.len() && !chars::is_space_char(#[trigger] a[i]);
            assert(x[i] == a[i]);
        }
        lemma_collapsed_shape(x);
        assert(clean_text(x) == front.drop_last());
        assert(front =~= clean_text(a) + seq![' ']);
        lemma_collapsed_after_break(x, b);
        assert(a + gap + b =~= x + b);
        let tail = collapsed(b);
        assert((front + tail).last() == tail.last());
        assert(without_final_space(front + tail) =~= front + without_final_space(tail));
    }
}

/// A name that is clean, and whose underscores all stand between other visible
/// characters, one at a time, is its own normal form, unless it ends in a full
/// stop.
pub proof fn law_firm_text_is_normal(s: Seq<char>, filesystem_safe: bool)
    requires
        s.len() > 0,
        is_clean(s),
        s.last() != '.',
        forall|i: int| 0 <= i < s.len() ==> #[trigger] s[i] != '\0',
        filesystem_safe ==> forall|i: int|
            0 <= i < s.len() ==> #[trigger] s[i] != '/' && s[i] != '\\',
        forall|i: int|
            0 <= i < s.len() && #[trigger] s[i] == '_' ==> 0 < i && i < s.len() - 1 && s[i - 1]
                != '_' && s[i - 1] != ' ',
    ensures
        normal_text(s, filesystem_safe) == s,
{
    lemma_firm_prefix(s, s.len() as int, filesystem_safe);
    assert(s.take(s.len() as int) =~= s);
    assert(s[s.len() - 1] != '_');
}

proof fn lemma_firm_prefix(s: Seq<char>, n: int, filesystem_safe: bool)
    requires
        0 <= n <= s.len(),
        is_collapsed(s),
        forall|i: int| 0 <= i < s.len() ==> #[trigger] s[i] != '\0',
        filesystem_safe ==> forall|i: int|
            0 <= i < s.len() ==> #[trigger] s[i] != '/' && s[i] != '\\',
        forall|i: int|
            0 <= i < s.len() && #[trigger] s[i] == '_' ==> 0 < i && i < s.len() - 1 && s[i - 1]
                != '_' && s[i - 1] != ' ',
    ensures
        normalized_prefix(s, n, filesystem_safe) == s.take(n),
    decreases n,
{
    if n > 0 {
        lemma_firm_prefix(s, n - 1, filesystem_safe);
        let before = s.take(n - 1);
        let c = s[n - 1];
        assert(s.take(n) =~= before.push(c));
        if n > 1 {
            assert(before.last() == s[n - 2]);
        }
        if c == ' ' {
            assert(n > 1);
            if s[n - 2] == ' ' {
                assert(s[n - 1] != ' ');
            }
        }
    } else {
        assert(s.take(0) =~= Seq::empty());
    }
}

proof fn lemma_same_prefix(s: Seq<char>, t: Seq<char>, n: int, filesystem_safe: bool)
    requires
        0 <= n <= s.len(),
        n <= t.len(),
        forall|i: int| 0 <= i < n ==> #[trigger] s[i] == t[i],
        n > 0 ==> s[n - 1] != '_' || (n < s.len() && n < t.len() && s[n] == t[n]),
    ensures
        normalized_prefix(s, n, filesystem_safe) == normalized_prefix(t, n, filesystem_safe),
    decreases n,
{
    if n > 0 {
        assert(s[n - 1] == t[n - 1]);
        if n > 1 {
            assert(s[n - 2] == t[n - 2]);
        }
        lemma_same_prefix(s, t, n - 1, filesystem_safe);
    }
}

proof fn lemma_same_rest(
    s: Seq<char>,
    i: int,
    t: Seq<char>,
    j: int,
    n: int,
    filesystem_safe: bool,
)
    requires
        0 <= i,
        0 <= j,
        0 <= n,
        i + n <= s.len(),
        s.len() - i == t.len() - j,
        normalized_prefix(s, i, filesystem_safe) == normalized_prefix(t, j, filesystem_safe),
        forall|k: int| 0 <= k < s.len() - i ==> s[i + k] == #[trigger] t[j + k],
    ensures
        normalized_prefix(s, i + n, filesystem_safe) == normalized_prefix(
            t,
            j + n,
            filesystem_safe,
        ),
    decreases n,
{
    if n > 0 {
        lemma_same_rest(s, i, t, j, n - 1, filesystem_safe);
        assert(s[i + (n - 1)] == t[j + (n - 1)]);
        if i + n < s.len() {
            assert(s[i + n] == t[j + n]);
        }
    }
}

/// Stray underscores are left out: one in front of a letter or digit that begins
/// the name, one behind a letter or digit that ends it, and the second of two
/// side by side within it.
pub proof fn law_stray_underscores(
    a: Seq<char>,
    b: Seq<char>,
    filesystem_safe: bool,
)
    requires
        a.len() > 0,
        b.len() > 0,
    ensures
        chars::is_alphanumeric_char(a[0]) ==> normal_text(seq!['_'] + a, filesystem_safe)
            == normal_text(a, filesystem_safe),
        chars::is_alphanumeric_char(a.last()) && !chars::is_space_char(a.last()) ==> normal_text(
            a + seq!['_'],
            filesystem_safe,
        ) == normal_text(a, filesystem_safe),
        a.last() != '_' && a.last() != '\0' && !chars::is_space_char(a.last()) ==> normal_text(
            a + seq!['_', '_'] + b,
            filesystem_safe,
        ) == normal_text(a + seq!['_'] + b, filesystem_safe),
{
    let fs = filesystem_safe;
    if chars::is_alphanumeric_char(a[0]) {
        let s = seq!['_'] + a;
        assert(s[1] == a[0]);
        assert(normalized_prefix(s, 0, fs) =~= Seq::empty());
        assert(normalized_prefix(s, 1, fs) =~= normalized_prefix(a, 0, fs));
        lemma_same_rest(s, 1, a, 0, a.len() as int, fs);
    }
    let n = a.len() as int;
    if chars::is_alphanumeric_char(a.last()) && !chars::is_space_char(a.last()) {
        let s = a + seq!['_'];
        lemma_same_prefix(s, a, n, fs);
        let out = normalized_prefix(a, n, fs);
        assert(a[n - 1] == a.last());
        assert(out.last() == name_char(a.last(), fs));
        assert(normalized_prefix(s, n + 1, fs) == out);
    }
    if a.last() != '_' && a.last() != '\0' && !chars::is_space_char(a.last()) {
        let s = a + seq!['_', '_'] + b;
        let t = a + seq!['_'] + b;
        lemma_same_prefix(s, a, n, fs);
        lemma_same_prefix(t, a, n, fs);
        let out = normalized_prefix(a, n, fs);
        assert(a[n - 1] == a.last());
        assert(out.last() == name_char(a.last(), fs));
        assert(s[n] == '_' && s[n + 1] == '_' && s[n + 2] == b[0]);
        assert(t[n] == '_' && t[n + 1] == b[0]);
        assert(normalized_prefix(t, n + 1, fs) == out.push('_'));
        assert(normalized_prefix(s, n + 1, fs) == out.push('_'));
        assert(normalized_prefix(s, n + 2, fs) == out.push('_'));
        assert forall|k: int| 0 <= k < s.len() - (n + 2) implies s[n + 2 + k] == #[trigger] t[n + 1
            + k] by {}
        lemma_same_rest(s, n + 2, t, n + 1, b.len() as int, fs);
    }
}

/// The normal form of text without underscores and NULs is the cleaned text, with
/// what full stops and spaces stand at its end cut off, or `Unknown` if nothing
/// else is there. A NUL counts as white space.
pub proof fn law_plain_text_is_cleaned(s: Seq<char>, i: int)
    requires
        !s.contains('_'),
    ensures
        (forall|j: int| 0 <= j < s.len() ==> #[trigger] s[j] != '\0') ==> exists|k: int|
            0 <= k <= clean_text(s).len() && (forall|j: int|
                k <= j < clean_text(s).len() ==> #[trigger] clean_text(s)[j] == ' ' || clean_text(
                    s,
                )[j] == '.') && (k > 0 ==> clean_text(s)[k - 1] != ' ' && clean_text(s)[k - 1]
                != '.') && normal_text(s, false) == if k == 0 {
                "Unknown"@
            } else {
                #[trigger] clean_text(s).take(k)
            },
        0 <= i < s.len() && s[i] == '\0' ==> normal_text(s, false) == normal_text(
            s.update(i, ' '),
            false,
        ),
{
    law_plain_form(s, false);
    let flat = spelled(s, false);
    if forall|j: int| 0 <= j < s.len() ==> #[trigger] s[j] != '\0' {
        lemma_same_collapsed(flat, s);
        let out = collapsed(s);
        let text = clean_text(s);
        let kept = without_loose_end(out);
        let k = kept.len() as int;
        lemma_plain_prefix(s, s.len() as int, false);
        assert(flat.take(s.len() as int) =~= flat);
        lemma_loose_end_is_prefix(out);
        lemma_only_loose(out);
        lemma_name_material(s, s.len() as int, false);
        lemma_loose_end_cut(out, false);
        assert(k <= text.len());
        assert forall|j: int| k <= j < text.len() implies #[trigger] text[j] == ' ' || text[j]
            == '.' by {
            assert(out[j] == text[j]);
        }
        assert(text.take(k) =~= kept);
        if k > 0 {
            assert(text[k - 1] == kept.last());
        }
    }
    if 0 <= i < s.len() && s[i] == '\0' {
        let t = s.update(i, ' ');
        assert(!t.contains('_')) by {
            if t.contains('_') {
                let j = choose|j: int| 0 <= j < t.len() && t[j] == '_';
                assert(s[j] == '_');
            }
        }
        law_plain_form(t, false);
        assert(spelled(t, false) =~= flat);
    }
}

proof fn lemma_same_collapsed(flat: Seq<char>, s: Seq<char>)
    requires
        flat.len() == s.len(),
        forall|j: int|
            0 <= j < s.len() ==> if chars::is_space_char(s[j]) {
                #[trigger] flat[j] == ' '
            } else {
                flat[j] == s[j]
            },
    ensures
        collapsed(flat) == collapsed(s),
    decreases s.len(),
{
    if s.len() > 0 {
        let x = flat.drop_last();
        let y = s.drop_last();
        assert forall|j: int| 0 <= j < y.len() implies if chars::is_space_char(y[j]) {
            #[trigger] x[j] == ' '
        } else {
            x[j] == y[j]
        } by {
            assert(flat[j] == x[j]);
        }
        lemma_same_collapsed(x, y);
        assert(flat[s.len() - 1] == flat.last());
    }
}

proof fn lemma_only_loose(s: Seq<char>)
    requires
        !s.contains('_'),
    ensures
        forall|j: int|
            without_loose_end(s).len() <= j < s.len() ==> #[trigger] s[j] == ' ' || s[j] == '.',
    decreases s.len(),
{
    if has_loose_end(s) {
        let rest = s.drop_last();
        assert(s.contains(s.last()));
        assert(!rest.contains('_')) by {
            if rest.contains('_') {
                let j = choose|j: int| 0 <= j < rest.len() && rest[j] == '_';
                assert(s[j] == '_');
            }
        }
        lemma_only_loose(rest);
        assert forall|j: int| without_loose_end(s).len() <= j < s.len() implies #[trigger] s[j]
            == ' ' || s[j] == '.' by {
            if j < rest.len() {
                assert(rest[j] == s[j]);
            }
        }
    }
}

/// Whether `word` stands at `i`, in capital or small letters, with no ASCII letter
/// or digit on either side.
pub open spec fn spells_word(s: Seq<char>, i: int, word: Seq<char>) -> bool {
    &&& 0 <= i && i + word.len() <= s.len()
    &&& forall|k: int|
        0 <= k < word.len() ==> #[trigger] word[k] == s[i + k] || word[k] as u32 == s[i + k] as u32
            + 32
    &&& i > 0 ==> {
        let c = s[i - 1] as u32;
        !(48 <= c <= 57) && !(65 <= c <= 90) && !(97 <= c <= 122)
    }
    &&& i + word.len() < s.len() ==> {
        let c = s[i + word.len()] as u32;
        !(48 <= c <= 57) && !(65 <= c <= 90) && !(97 <= c <= 122)
    }
}

proof fn lemma_spells_word(s: Seq<char>, i: int, word: Seq<char>)
    requires
        is_small_word(word),
        spells_word(s, i, word),
    ensures
        is_word_at(strings::lower_text(s), i, word),
{
    let low = strings::lower_text(s);
    let m = word.len() as int;
    assert forall|k: int| 0 <= k < m implies low.subrange(i, i + m)[k] == word[k] by {
        assert(chars::is_ascii_lower_char(word[k]));
        chars::law_ascii_classes(s[i + k]);
        chars::law_ascii_classes(word[k]);
        assert(low[i + k] == chars::ascii_lower(s[i + k]));
        assert(word[k] == s[i + k] || word[k] as u32 == s[i + k] as u32 + 32);
    }
    assert(low.subrange(i, i + m) =~= word);
    if i > 0 {
        lemma_lower_keeps_words(s[i - 1]);
    }
    if i + m < s.len() {
        lemma_lower_keeps_words(s[i + m]);
    }
}

/// Separators before `i` are the same whether or not the text goes on at `i`,
/// where a separator stands.
proof fn lemma_separators_before(s: Seq<char>, i: int, j: int)
    requires
        0 <= j < i < s.len(),
        is_artist_separator(s, i),
    ensures
        is_artist_separator(s.take(i), j) == is_artist_separator(s, j),
{
    let t = s.take(i);
    assert(t[j] == s[j]);
    lemma_separator_words();
    lemma_word_before(s, i, j, "and"@);
    lemma_word_before(s, i, j, "with"@);
    lemma_word_before(s, i, j, "feat"@);
    lemma_word_before(s, i, j, "featuring"@);
}

proof fn lemma_word_before(s: Seq<char>, i: int, j: int, word: Seq<char>)
    requires
        is_small_word(word),
        0 <= j < i < s.len(),
        is_artist_separator(s, i),
    ensures
        is_word_at(strings::lower_text(s.take(i)), j, word) == is_word_at(
            strings::lower_text(s),
            j,
            word,
        ),
{
    let whole = strings::lower_text(s);
    let part = strings::lower_text(s.take(i));
    let m = word.len() as int;
    assert(part =~= whole.take(i));
    if is_word_at(part, j, word) {
        lemma_word_before_separator(s, i, j, word);
    }
    if is_word_at(whole, j, word) {
        if j + m > i {
            assert(whole.subrange(j, j + m)[i - j] == word[i - j]);
            assert(whole.subrange(j, j + m)[i - 1 - j] == word[i - 1 - j]);
            assert(chars::is_ascii_lower_char(word[i - j]));
            assert(chars::is_ascii_lower_char(word[i - 1 - j]));
            assert(whole[i] == chars::ascii_lower(s[i]));
            lemma_lower_keeps_words(s[i]);
        }
        assert(part.subrange(j, j + m) =~= whole.subrange(j, j + m));
        if j > 0 {
            assert(part[j - 1] == whole[j - 1]);
        }
        if j + m < i {
            assert(part[j + m] == whole[j + m]);
        }
    }
}

proof fn lemma_cut_at_separator(s: Seq<char>, i: int)
    requires
        0 <= i < s.len(),
        is_artist_separator(s, i),
    ensures
        primary_artist(s) == primary_artist(s.take(i)),
{
    let t = s.take(i);
    law_first_separator(s, 0);
    law_first_separator(t, 0);
    let k = separator_from(s, 0);
    let l = separator_from(t, 0);
    if k < i {
        lemma_separators_before(s, i, k);
    }
    if l < i {
        lemma_separators_before(s, i, l);
    }
    assert(k == l);
    assert(t.take(l) =~= s.take(k));
}

/// Whatever follows a separator does not matter to the first artist: `;`, `&` and
/// `,` separate, and so do the words `and`, `with`, `feat` and `featuring`, in
/// capital or small letters. Where none of them occurs, the whole text is the
/// first artist.
pub proof fn law_artists_are_separated(s: Seq<char>, i: int)
    requires
        0 <= i < s.len(),
    ensures
        s[i] == ';' || s[i] == '&' || s[i] == ',' || spells_word(s, i, seq!['a', 'n', 'd'])
            || spells_word(s, i, seq!['w', 'i', 't', 'h']) || spells_word(
            s,
            i,
            seq!['f', 'e', 'a', 't'],
        ) || spells_word(s, i, seq!['f', 'e', 'a', 't', 'u', 'r', 'i', 'n', 'g'])
            ==> primary_artist(s) == primary_artist(s.take(i)),
        (forall|j: int|
            0 <= j < s.len() ==> {
                &&& #[trigger] s[j] != ';' && s[j] != '&' && s[j] != ','
                &&& !spells_word(s, j, seq!['a', 'n', 'd'])
                &&& !spells_word(s, j, seq!['w', 'i', 't', 'h'])
                &&& !spells_word(s, j, seq!['f', 'e', 'a', 't'])
                &&& !spells_word(s, j, seq!['f', 'e', 'a', 't', 'u', 'r', 'i', 'n', 'g'])
            }) ==> primary_artist(s) == clean_text(s),
{
    reveal_strlit("and");
    reveal_strlit("with");
    reveal_strlit("feat");
    reveal_strlit("featuring");
    lemma_separator_words();
    let and = seq!['a', 'n', 'd'];
    let with = seq!['w', 'i', 't', 'h'];
    let feat = seq!['f', 'e', 'a', 't'];
    let featuring = seq!['f', 'e', 'a', 't', 'u', 'r', 'i', 'n', 'g'];
    assert("and"@ =~= and);
    assert("with"@ =~= with);
    assert("feat"@ =~= feat);
    assert("featuring"@ =~= featuring);
    if spells_word(s, i, and) {
        lemma_spells_word(s, i, and);
    }
    if spells_word(s, i, with) {
        lemma_spells_word(s, i, with);
    }
    if spells_word(s, i, feat) {
        lemma_spells_word(s, i, feat);
    }
    if spells_word(s, i, featuring) {
        lemma_spells_word(s, i, featuring);
    }
    if is_artist_separator(s, i) {
        lemma_cut_at_separator(s, i);
    }
    if forall|j: int|
        0 <= j < s.len() ==> {
            &&& #[trigger] s[j] != ';' && s[j] != '&' && s[j] != ','
            &&& !spells_word(s, j, and)
            &&& !spells_word(s, j, with)
            &&& !spells_word(s, j, feat)
            &&& !spells_word(s, j, featuring)
        } {
        assert forall|j: int| 0 <= j < s.len() implies !#[trigger] is_artist_separator(s, j) by {
            assert(s[j] != ';');
            lemma_word_is_spelled(s, j, and);
            lemma_word_is_spelled(s, j, with);
            lemma_word_is_spelled(s, j, feat);
            lemma_word_is_spelled(s, j, featuring);
        }
        lemma_no_separator_from(s, 0);
        assert(s.take(s.len() as int) =~= s);
    }
}

proof fn lemma_word_is_spelled(s: Seq<char>, i: int, word: Seq<char>)
    requires
        is_small_word(word),
    ensures
        is_word_at(strings::lower_text(s), i, word) ==> spells_word(s, i, word),
{
    let low = strings::lower_text(s);
    let m = word.len() as int;
    if is_word_at(low, i, word) {
        assert forall|k: int| 0 <= k < m implies #[trigger] word[k] == s[i + k] || word[k] as u32
            == s[i + k] as u32 + 32 by {
            assert(low.subrange(i, i + m)[k] == word[k]);
            assert(low[i + k] == chars::ascii_lower(s[i + k]));
            chars::law_ascii_classes(s[i + k]);
        }
        if i > 0 {
            assert(low[i - 1] == chars::ascii_lower(s[i - 1]));
            lemma_lower_keeps_words(s[i - 1]);
            chars::law_ascii_classes(s[i - 1]);
        }
        if i + m < s.len() {
            assert(low[i + m] == chars::ascii_lower(s[i + m]));
            lemma_lower_keeps_words(s[i + m]);
            chars::law_ascii_classes(s[i + m]);
        }
    }
}

/// The artist by whose name a track is filed is the first one in normal form; one
/// artist goes by a single name, however it is spelled.
pub proof fn law_artist_goes_by_one_name(s: Seq<char>)
    ensures
        ({
            let name = normal_text(primary_artist(s), false);
            let is_ye = name.len() == 2 && (name[0] == 'Y' || name[0] == 'y') && (name[1] == 'E'
                || name[1] == 'e');
            &&& is_ye ==> artist_name(s) == "Ye"@
            &&& strings::lower_text(name) == "kanye west"@ ==> artist_name(s) == "Ye"@
            &&& !is_ye && strings::lower_text(name) != "kanye west"@ ==> artist_name(s) == name
        }),
{
    let name = normal_text(primary_artist(s), false);
    let low = strings::lower_text(name);
    reveal_strlit("ye");
    let is_ye = name.len() == 2 && (name[0] == 'Y' || name[0] == 'y') && (name[1] == 'E' || name[1]
        == 'e');
    if is_ye {
        chars::law_ascii_classes(name[0]);
        chars::law_ascii_classes(name[1]);
        assert(low =~= "ye"@);
    } else if low == "ye"@ {
        assert(low.len() == 2 && low[0] == 'y' && low[1] == 'e');
        chars::law_ascii_classes(name[0]);
        chars::law_ascii_classes(name[1]);
    }
}

/// The label of a track has the value of the digits in its number, at least two
/// digits, and no more zeros in front than that takes. There is none without
/// digits, or if the value is too large.
pub proof fn law_track_label(s: Seq<char>)
    ensures
        ({
            let digits = s.filter(|c: char| '0' <= c <= '9');
            let value = numbers::digits_value(digits);
            match track_label(Some(s)) {
                Some(label) => {
                    &&& digits.len() > 0
                    &&& value <= u32::MAX
                    &&& numbers::all_digits(label)
                    &&& numbers::digits_value(label) == value
                    &&& label.len() >= 2
                    &&& label.len() > 2 ==> label[0] != '0'
                },
                None => digits.len() == 0 || value > u32::MAX,
            }
        }),
        track_label(None) is None,
{
    let digits = s.filter(|c: char| '0' <= c <= '9');
    assert(digits_of(s) == digits) by {
        let p = |c: char| chars::is_ascii_digit_char(c);
        let q = |c: char| '0' <= c <= '9';
        assert(p =~= q);
    }
    if let Some(label) = track_label(Some(s)) {
        let value = numbers::digits_value(digits);
        let spelled = numbers::decimal(value);
        numbers::law_decimal_round_trip(value);
        lemma_no_leading_zero(value);
        if spelled.len() < 2 {
            assert(label =~= seq!['0', spelled[0]]);
            assert(label.drop_last() =~= seq!['0']);
            assert(spelled.drop_last() =~= Seq::empty());
            assert(label.drop_last().drop_last() =~= Seq::empty());
            reveal_with_fuel(numbers::digits_value, 3);
            assert(chars::is_ascii_digit_char(spelled[0]));
        }
    }
}

proof fn lemma_no_leading_zero(n: nat)
    ensures
        numbers::decimal(n).len() > 1 ==> numbers::decimal(n)[0] != '0',
    decreases n,
{
    if n >= 10 {
        lemma_no_leading_zero(n / 10);
        numbers::law_decimal_round_trip(n / 10);
        let front = numbers::decimal(n / 10);
        assert(numbers::decimal(n)[0] == front[0]);
        if front.len() == 1 {
            assert(n / 10 < 10) by {
                if n / 10 >= 10 {
                    numbers::law_decimal_round_trip(n / 10 / 10);
                }
            }
            assert(n / 10 >= 1);
        }
    }
}

/// An underscore that begins a word, at the beginning of the name or behind white
/// space, is left out in front of a letter, a digit or white space. Of two
/// underscores with white space between them the second is left out.
pub proof fn law_underscores_at_gaps(
    a: Seq<char>,
    gap: char,
    b: Seq<char>,
    filesystem_safe: bool,
)
    requires
        b.len() > 0,
        chars::is_space_char(gap),
    ensures
        (a.len() == 0 || a.last() == '\0' || chars::is_space_char(a.last()))
            && (chars::is_alphanumeric_char(b[0]) || chars::is_space_char(b[0])) ==> normal_text(
            a + seq!['_'] + b,
            filesystem_safe,
        ) == normal_text(a + b, filesystem_safe),
        a.len() > 0 && a.last() != '_' && a.last() != '\0' && !chars::is_space_char(a.last())
            ==> normal_text(a + seq!['_', gap, '_'] + b, filesystem_safe) == normal_text(
            a + seq!['_', gap] + b,
            filesystem_safe,
        ),
{
    let fs = filesystem_safe;
    let n = a.len() as int;
    if (n == 0 || a.last() == '\0' || chars::is_space_char(a.last()))
        && (chars::is_alphanumeric_char(b[0]) || chars::is_space_char(b[0])) {
        let s = a + seq!['_'] + b;
        let t = a + b;
        if n > 0 {
            assert(a[n - 1] == a.last());
        }
        lemma_same_prefix(s, a, n, fs);
        lemma_same_prefix(t, a, n, fs);
        let out = normalized_prefix(a, n, fs);
        assert(at_break(out));
        assert(s[n] == '_' && s[n + 1] == b[0]);
        assert(normalized_prefix(s, n + 1, fs) == out);
        assert forall|k: int| 0 <= k < s.len() - (n + 1) implies s[n + 1 + k] == #[trigger] t[n
            + k] by {}
        lemma_same_rest(s, n + 1, t, n, b.len() as int, fs);
    }
    if n > 0 && a.last() != '_' && a.last() != '\0' && !chars::is_space_char(a.last()) {
        let s = a + seq!['_', gap, '_'] + b;
        let t = a + seq!['_', gap] + b;
        lemma_same_prefix(s, a, n, fs);
        lemma_same_prefix(t, a, n, fs);
        let out = normalized_prefix(a, n, fs);
        assert(a[n - 1] == a.last());
        assert(out.last() == name_char(a.last(), fs));
        assert(s[n] == '_' && s[n + 1] == gap && s[n + 2] == '_' && s[n + 3] == b[0]);
        assert(t[n] == '_' && t[n + 1] == gap && t[n + 2] == b[0]);
        assert(!chars::is_space_char('_'));
        assert(normalized_prefix(s, n + 1, fs) == out.push('_'));
        assert(normalized_prefix(t, n + 1, fs) == out.push('_'));
        assert(normalized_prefix(s, n + 2, fs) == out.push('_').push(' '));
        assert(normalized_prefix(t, n + 2, fs) == out.push('_').push(' '));
        assert(out.push('_').push(' ').drop_last() =~= out.push('_'));
        assert(normalized_prefix(s, n + 3, fs) == out.push('_').push(' '));
        assert forall|k: int| 0 <= k < s.len() - (n + 3) implies s[n + 3 + k] == #[trigger] t[n + 2
            + k] by {}
        lemma_same_rest(s, n + 3, t, n + 2, b.len() as int, fs);
    }
}

/// An underscore at the beginning of a name is kept in front of any other character.
pub proof fn law_leading_underscore_is_kept(c: char, b: Seq<char>, filesystem_safe: bool)
    requires
        c != '_',
        !chars::is_alphanumeric_char(c),
        !chars::is_space_char(c),
    ensures
        normal_text(seq!['_', c] + b, filesystem_safe).len() > 0,
        normal_text(seq!['_', c] + b, filesystem_safe)[0] == '_',
{
    let fs = filesystem_safe;
    let s = seq!['_', c] + b;
    assert(normalized_prefix(s, 0, fs) =~= Seq::empty());
    assert(s[0] == '_' && s[1] == c);
    assert(!chars::is_space_char('_'));
    assert(normalized_prefix(s, 1, fs) =~= seq!['_']);
    lemma_first_char_stays(s, s.len() as int, fs);
    let out = normalized_prefix(s, s.len() as int, fs);
    lemma_loose_end_is_prefix(out);
    lemma_first_char_is_firm(out);
}

proof fn lemma_first_char_stays(s: Seq<char>, n: int, filesystem_safe: bool)
    requires
        1 <= n,
        normalized_prefix(s, 1, filesystem_safe) == seq!['_'],
    ensures
        normalized_prefix(s, n, filesystem_safe).len() > 0,
        normalized_prefix(s, n, filesystem_safe)[0] == '_',
    decreases n,
{
    if n > 1 {
        lemma_first_char_stays(s, n - 1, filesystem_safe);
    }
}

proof fn lemma_first_char_is_firm(s: Seq<char>)
    requires
        s.len() > 0,
        s[0] == '_',
    ensures
        without_loose_end(s).len() > 0,
    decreases s.len(),
{
    if has_loose_end(s) {
        lemma_first_char_is_firm(s.drop_last());
    }
}

} // verus!
