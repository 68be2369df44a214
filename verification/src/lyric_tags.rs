//! Lyrics in the tags of a file.

use metaflac::block::VorbisComment;
use vstd::prelude::*;

use crate::audio::{EmbeddedLyrics, LyricsView};
use crate::chars;
use crate::chars::{is_ascii_word, to_ascii_upper};
use crate::comments;
use crate::comments::comment_entries;
use crate::order;
use crate::order::{chars_before, sort, Ranked};
use crate::strings;
use crate::strings::{
    chars_of, is_blank_text, join_texts, same_text, to_unix_lines, trimmed, CharSet,
};

verus! {

/// A key reduced to its ASCII letters and digits, in capitals.
pub open spec fn key_form(key: Seq<char>) -> Seq<char> {
    key.filter(|c: char| chars::is_ascii_word_char(c)).map_values(
        |c: char| chars::ascii_upper(c),
    )
}

/// Whether lyrics are filed under `key`.
pub open spec fn is_lyric_key(key: Seq<char>) -> bool {
    ||| key_form(key) == "LYRIC"@
    ||| key_form(key) == "LYRICS"@
    ||| key_form(key) == "SYNCEDLYRIC"@
    ||| key_form(key) == "SYNCEDLYRICS"@
    ||| key_form(key) == "UNSYNCEDLYRIC"@
    ||| key_form(key) == "UNSYNCEDLYRICS"@
    ||| key_form(key) == "WMLYRICS"@
}

/// Whether lyrics are filed under a key.
pub fn is_lyric_tag(key: &str) -> (res: bool)
    ensures
        res == is_lyric_key(key@),
{
    let mut form = String::new();
    for ch in it: key.chars()
        invariant
            it.seq() == key@,
            form@ == key_form(key@.take(it.index())),
    {
        let ghost before = key@.take(it.index());
        let ghost after = key@.take(it.index() + 1);
        proof {
            reveal(Seq::filter);
            assert(after.drop_last() == before);
            assert(after.last() == ch);
        }
        if is_ascii_word(ch) {
            form.push(to_ascii_upper(ch));
        }
        assert(form@ =~= key_form(after));
    }
    assert(key@.take(key@.len() as int) == key@);
    same_text(&form, "LYRIC") || same_text(&form, "LYRICS") || same_text(&form, "SYNCEDLYRIC")
        || same_text(&form, "SYNCEDLYRICS") || same_text(&form, "UNSYNCEDLYRIC") || same_text(
        &form,
        "UNSYNCEDLYRICS",
    ) || same_text(&form, "WMLYRICS")
}

/// Lyrics as they stand in a lyrics file: Unix line breaks, none at the ends.
pub open spec fn lrc_text(s: Seq<char>) -> Seq<char> {
    strings::trim_both(strings::unix_lines(s), CharSet::LineFeed)
}

/// Lyrics as they stand in a lyrics file.
pub fn normalize_lrc_text(value: &str) -> (res: String)
    ensures
        res@ == lrc_text(value@),
{
    trimmed(&to_unix_lines(value), CharSet::LineFeed)
}

/// The values filed under the given keys, in order.
pub open spec fn filed_values(
    keys: Seq<Seq<char>>,
    values: Map<Seq<char>, Seq<Seq<char>>>,
) -> Seq<Seq<char>>
    decreases keys.len(),
{
    if keys.len() == 0 {
        Seq::empty()
    } else {
        filed_values(keys.drop_last(), values) + values[keys.last()]
    }
}

/// The different lyrics among `values`, in order of first appearance; blank ones
/// do not count.
pub open spec fn distinct_lyrics(values: Seq<Seq<char>>) -> Seq<Seq<char>>
    decreases values.len(),
{
    if values.len() == 0 {
        Seq::empty()
    } else {
        let before = distinct_lyrics(values.drop_last());
        let lyric = lrc_text(values.last());
        if strings::is_blank(lyric) || before.contains(lyric) {
            before
        } else {
            before.push(lyric)
        }
    }
}

/// The lyrics file made of the given lyrics: a blank line between them and a
/// line break at the end.
pub open spec fn lyrics_file(lyrics: Seq<Seq<char>>) -> Seq<char> {
    if lyrics.len() == 0 {
        Seq::empty()
    } else {
        strings::joined_texts(lyrics, "\n\n"@).push('\n')
    }
}

/// `lyrics` is what a comment block with these values holds: its lyric keys in
/// ascending order, and the file made of all that is filed under them.
pub open spec fn are_lyrics_of(
    lyrics: LyricsView,
    values: Map<Seq<char>, Seq<Seq<char>>>,
) -> bool {
    &&& order::is_ascending_by(lyrics.tag_keys, order::lexical_order(order::char_order()))
    &&& forall|key: Seq<char>| #[trigger]
        lyrics.tag_keys.contains(key) <==> values.contains_key(key) && is_lyric_key(key)
    &&& lyrics.content == lyrics_file(distinct_lyrics(filed_values(lyrics.tag_keys, values)))
}

/// The lyrics of a comment block are determined by its values.
pub proof fn law_lyrics_are_determined(
    a: LyricsView,
    b: LyricsView,
    values: Map<Seq<char>, Seq<Seq<char>>>,
)
    requires
        are_lyrics_of(a, values),
        are_lyrics_of(b, values),
    ensures
        a == b,
{
    order::law_text_order_is_strict();
    assert forall|key: Seq<char>| a.tag_keys.contains(key) <==> b.tag_keys.contains(key) by {}
    order::law_ascending_is_unique(
        a.tag_keys,
        b.tag_keys,
        order::lexical_order(order::char_order()),
    );
}

proof fn lemma_distinct_lyrics_keep(values: Seq<Seq<char>>, n: int, lyric: Seq<char>)
    requires
        0 <= n <= values.len(),
        distinct_lyrics(values.take(n)).contains(lyric),
    ensures
        distinct_lyrics(values).contains(lyric),
    decreases values.len() - n,
{
    if n == values.len() {
        assert(values.take(n) == values);
    } else {
        let more = values.take(n + 1);
        assert(more.drop_last() == values.take(n));
        let before = distinct_lyrics(values.take(n));
        let k = choose|k: int| 0 <= k < before.len() && before[k] == lyric;
        assert(distinct_lyrics(more)[k] == lyric);
        lemma_distinct_lyrics_keep(values, n + 1, lyric);
    }
}

/// Every lyric value that is not blank is kept.
pub proof fn law_no_lyric_is_lost(values: Seq<Seq<char>>, i: int)
    requires
        0 <= i < values.len(),
        !strings::is_blank(lrc_text(values[i])),
    ensures
        distinct_lyrics(values).contains(lrc_text(values[i])),
{
    let upto = values.take(i + 1);
    assert(upto.drop_last() == values.take(i));
    assert(upto.last() == values[i]);
    let before = distinct_lyrics(values.take(i));
    let lyric = lrc_text(values[i]);
    if !before.contains(lyric) {
        assert(distinct_lyrics(upto)[before.len() as int] == lyric);
    }
    lemma_distinct_lyrics_keep(values, i + 1, lyric);
}

/// Whether `part` stands somewhere in `whole`.
pub open spec fn holds(whole: Seq<char>, part: Seq<char>) -> bool {
    exists|at: int|
        0 <= at && at + part.len() <= whole.len() && #[trigger] whole.subrange(
            at,
            at + part.len(),
        ) == part
}

proof fn lemma_joined_texts_hold(list: Seq<Seq<char>>, separator: Seq<char>, i: int)
    requires
        0 <= i < list.len(),
    ensures
        holds(strings::joined_texts(list, separator), list[i]),
    decreases list.len(),
{
    let whole = strings::joined_texts(list, separator);
    if list.len() == 1 {
        assert(whole.subrange(0int, 0int + list[i].len()) =~= list[i]);
    } else {
        let rest = list.drop_last();
        let before = strings::joined_texts(rest, separator);
        if i < rest.len() {
            lemma_joined_texts_hold(rest, separator, i);
            let at = choose|at: int|
                0 <= at && at + rest[i].len() <= before.len() && #[trigger] before.subrange(
                    at,
                    at + rest[i].len(),
                ) == rest[i];
            assert(whole.subrange(at, at + list[i].len()) =~= before.subrange(
                at,
                at + rest[i].len(),
            ));
        } else {
            let at = (before.len() + separator.len()) as int;
            assert(whole.subrange(at, at + list[i].len()) =~= list[i]);
        }
    }
}

/// The lyrics file holds every lyric value that is not blank, whatever key it is
/// filed under.
pub proof fn law_lyrics_file_is_complete(
    lyrics: LyricsView,
    values: Map<Seq<char>, Seq<Seq<char>>>,
    key: Seq<char>,
    i: int,
)
    requires
        are_lyrics_of(lyrics, values),
        is_lyric_key(key),
        values.contains_key(key),
        0 <= i < values[key].len(),
        !strings::is_blank(lrc_text(values[key][i])),
    ensures
        holds(lyrics.content, lrc_text(values[key][i])),
{
    let keys = lyrics.tag_keys;
    let lyric = lrc_text(values[key][i]);
    assert(keys.contains(key));
    let k = choose|k: int| 0 <= k < keys.len() && keys[k] == key;
    lemma_filed_values_hold(keys, values, k, i);
    let filed = filed_values(keys, values);
    let m = choose|m: int| 0 <= m < filed.len() && filed[m] == values[key][i];
    law_no_lyric_is_lost(filed, m);
    let list = distinct_lyrics(filed);
    let n = choose|n: int| 0 <= n < list.len() && list[n] == lyric;
    lemma_joined_texts_hold(list, "\n\n"@, n);
    let joined = strings::joined_texts(list, "\n\n"@);
    let at = choose|at: int|
        0 <= at && at + lyric.len() <= joined.len() && #[trigger] joined.subrange(
            at,
            at + lyric.len(),
        ) == lyric;
    assert(lyrics.content.subrange(at, at + lyric.len()) =~= joined.subrange(at, at + lyric.len()));
}

proof fn lemma_filed_values_hold(
    keys: Seq<Seq<char>>,
    values: Map<Seq<char>, Seq<Seq<char>>>,
    k: int,
    i: int,
)
    requires
        0 <= k < keys.len(),
        0 <= i < values[keys[k]].len(),
    ensures
        filed_values(keys, values).contains(values[keys[k]][i]),
    decreases keys.len(),
{
    let rest = keys.drop_last();
    let before = filed_values(rest, values);
    let all = filed_values(keys, values);
    if k < rest.len() {
        lemma_filed_values_hold(rest, values, k, i);
        let m = choose|m: int| 0 <= m < before.len() && before[m] == values[rest[k]][i];
        assert(all[m] == values[keys[k]][i]);
    } else {
        assert(all[before.len() + i] == values[keys[k]][i]);
    }
}

proof fn lemma_unix_lines_settle(s: Seq<char>)
    requires
        !s.contains('\r'),
    ensures
        strings::unix_lines(s) == s,
    decreases s.len(),
{
    if s.len() > 0 {
        let rest = s.drop_last();
        assert(s.contains(s.last()));
        assert(!rest.contains('\r')) by {
            if rest.contains('\r') {
                let i = choose|i: int| 0 <= i < rest.len() && rest[i] == '\r';
                assert(s[i] == '\r');
            }
        }
        lemma_unix_lines_settle(rest);
        if s.len() > 1 {
            assert(s.contains(s[s.len() - 2]));
        }
        assert(rest.push(s.last()) =~= s);
    }
}

/// Lyrics as they stand in a lyrics file stand there unchanged.
pub proof fn law_lrc_text_settles(s: Seq<char>)
    ensures
        !lrc_text(s).contains('\r'),
        lrc_text(lrc_text(s)) == lrc_text(s),
{
    let text = lrc_text(s);
    lemma_lrc_text_has_no_return(s);
    lemma_unix_lines_settle(text);
    strings::law_trim_both(strings::unix_lines(s), CharSet::LineFeed);
}

/// A lyric key with the values filed under it.
struct LyricEntry {
    key: String,
    letters: Vec<char>,
    values: Vec<String>,
}

impl Ranked for LyricEntry {
    closed spec fn ranks_before(self, other: Self) -> bool {
        order::text_before(self.letters@, other.letters@)
    }

    fn comes_before(&self, other: &Self) -> (res: bool) {
        chars_before(self.letters.as_slice(), other.letters.as_slice())
    }

    proof fn rank_is_transitive(a: Self, b: Self, c: Self) {
        order::law_text_order_is_strict();
        let less = order::lexical_order(order::char_order());
        assert(less(a.letters@, b.letters@) || less(b.letters@, a.letters@) || a.letters@
            == b.letters@);
        assert(less(b.letters@, c.letters@) || less(c.letters@, b.letters@) || b.letters@
            == c.letters@);
        if less(c.letters@, a.letters@) && less(a.letters@, b.letters@) {
            assert(less(c.letters@, b.letters@));
        }
    }

    proof fn rank_is_asymmetric(a: Self, b: Self) {
        order::law_text_order_is_strict();
        let less = order::lexical_order(order::char_order());
        if less(b.letters@, a.letters@) {
            assert(less(a.letters@, b.letters@));
            assert(less(a.letters@, a.letters@));
        }
    }
}

/// `entries` are the lyric keys among `values`, each once.
spec fn are_lyric_entries(
    entries: Seq<LyricEntry>,
    values: Map<Seq<char>, Seq<Seq<char>>>,
) -> bool {
    &&& forall|i: int|
        0 <= i < entries.len() ==> {
            let entry = #[trigger] entries[i];
            &&& entry.letters@ == entry.key@
            &&& is_lyric_key(entry.key@)
            &&& values.contains_key(entry.key@)
            &&& values[entry.key@] == strings::text_views(entry.values@)
        }
    &&& forall|i: int, j: int|
        0 <= i < j < entries.len() ==> (#[trigger] entries[i]).key@ != (#[trigger] entries[j]).key@
    &&& forall|key: Seq<char>| #[trigger]
        values.contains_key(key) && is_lyric_key(key) ==> exists|i: int|
            0 <= i < entries.len() && (#[trigger] entries[i]).key@ == key
}

/// The lyric keys of a comment block with their values, in no certain order.
fn lyric_entries(comments: &VorbisComment) -> (res: Vec<LyricEntry>)
    ensures
        are_lyric_entries(res@, comments::comment_values(*comments)),
{
    let entries = comment_entries(comments);
    let mut res: Vec<LyricEntry> = Vec::new();
    let ghost mut from: Seq<int> = Seq::empty();
    let count = entries.len();
    let ghost values = comments::comment_values(*comments);
    for i in 0..count
        invariant
            count == entries.len(),
            values == comments::comment_values(*comments),
            forall|k: int|
                0 <= k < count ==> values.contains_key((#[trigger] entries@[k]).0@)
                    && values[entries@[k].0@] == strings::text_views(entries@[k].1@),
            forall|k: int, l: int|
                0 <= k < l < count ==> (#[trigger] entries@[k]).0@ != (#[trigger] entries@[l]).0@,
            from.len() == res.len(),
            forall|k: int|
                0 <= k < from.len() ==> 0 <= #[trigger] from[k] < i && res@[k].key@
                    == entries@[from[k]].0@,
            forall|k: int, l: int| 0 <= k < l < from.len() ==> #[trigger] from[k] < #[trigger] from[l],
            forall|k: int|
                0 <= k < res.len() ==> {
                    let entry = #[trigger] res@[k];
                    &&& entry.letters@ == entry.key@
                    &&& is_lyric_key(entry.key@)
                    &&& values.contains_key(entry.key@)
                    &&& values[entry.key@] == strings::text_views(entry.values@)
                },
            forall|k: int|
                0 <= k < i && is_lyric_key((#[trigger] entries@[k]).0@) ==> from.contains(k),
    {
        let ghost before = from;
        if is_lyric_tag(&entries[i].0) {
            let key = entries[i].0.clone();
            let letters = chars_of(&key);
            res.push(LyricEntry { key, letters, values: strings::clone_texts(&entries[i].1) });
            proof {
                from = from.push(i as int);
                assert(from[before.len() as int] == i);
                assert forall|k: int|
                    0 <= k < i + 1 && is_lyric_key((#[trigger] entries@[k]).0@) implies from.contains(
                    k,
                ) by {
                    if k < i {
                        let m = choose|m: int| 0 <= m < before.len() && before[m] == k;
                        assert(from[m] == k);
                    }
                }
            }
        }
    }
    proof {
        assert forall|i: int, j: int| 0 <= i < j < res.len() implies (
        #[trigger] res@[i]).key@ != (#[trigger] res@[j]).key@ by {
            assert(from[i] < from[j]);
            assert(entries@[from[i]].0@ != entries@[from[j]].0@);
        }
        assert forall|key: Seq<char>| #[trigger]
            values.contains_key(key) && is_lyric_key(key) implies exists|i: int|
            0 <= i < res.len() && (#[trigger] res@[i]).key@ == key by {
            let k = choose|k: int| 0 <= k < entries.len() && (#[trigger] entries@[k]).0@ == key;
            assert(from.contains(k));
            let m = choose|m: int| 0 <= m < from.len() && from[m] == k;
            assert(res@[m].key@ == key);
        }
    }
    res
}

proof fn lemma_sorted_entries(
    entries: Seq<LyricEntry>,
    sorted: Seq<LyricEntry>,
    values: Map<Seq<char>, Seq<Seq<char>>>,
)
    requires
        are_lyric_entries(entries, values),
        sorted.to_multiset() == entries.to_multiset(),
        order::is_sorted(sorted),
    ensures
        are_lyric_entries(sorted, values),
        order::is_ascending_by(
            sorted.map_values(|entry: LyricEntry| entry.key@),
            order::lexical_order(order::char_order()),
        ),
{
    sorted.to_multiset_ensures();
    entries.to_multiset_ensures();
    entries.lemma_multiset_has_no_duplicates();
    assert forall|x: LyricEntry| sorted.to_multiset().contains(x) implies sorted.to_multiset().count(
        x,
    ) == 1 by {
        assert(entries.to_multiset().contains(x));
    }
    sorted.lemma_multiset_has_no_duplicates_conv();
    assert forall|i: int| 0 <= i < sorted.len() implies {
        let entry = #[trigger] sorted[i];
        &&& entry.letters@ == entry.key@
        &&& is_lyric_key(entry.key@)
        &&& values.contains_key(entry.key@)
        &&& values[entry.key@] == strings::text_views(entry.values@)
    } by {
        assert(sorted.contains(sorted[i]));
        assert(entries.to_multiset().count(sorted[i]) > 0);
        assert(entries.contains(sorted[i]));
    }
    assert forall|i: int, j: int| 0 <= i < j < sorted.len() implies (#[trigger] sorted[i]).key@
        != (#[trigger] sorted[j]).key@ by {
        assert(sorted.contains(sorted[i]) && sorted.contains(sorted[j]));
        assert(entries.to_multiset().count(sorted[i]) > 0);
        assert(entries.to_multiset().count(sorted[j]) > 0);
        assert(entries.contains(sorted[i]) && entries.contains(sorted[j]));
        let k = choose|k: int| 0 <= k < entries.len() && entries[k] == sorted[i];
        let l = choose|l: int| 0 <= l < entries.len() && entries[l] == sorted[j];
        assert(sorted[i] != sorted[j]);
        if k < l {
            assert(entries[k].key@ != entries[l].key@);
        } else {
            assert(entries[l].key@ != entries[k].key@);
        }
    }
    assert forall|key: Seq<char>| #[trigger]
        values.contains_key(key) && is_lyric_key(key) implies exists|i: int|
        0 <= i < sorted.len() && (#[trigger] sorted[i]).key@ == key by {
        let k = choose|k: int| 0 <= k < entries.len() && (#[trigger] entries[k]).key@ == key;
        assert(entries.contains(entries[k]));
        assert(sorted.to_multiset().count(entries[k]) > 0);
        assert(sorted.contains(entries[k]));
        let m = choose|m: int| 0 <= m < sorted.len() && sorted[m] == entries[k];
        assert(sorted[m].key@ == key);
    }
    order::law_text_order_is_strict();
    let less = order::lexical_order(order::char_order());
    let keys = sorted.map_values(|entry: LyricEntry| entry.key@);
    assert forall|i: int, j: int| 0 <= i < j < keys.len() implies less(
        #[trigger] keys[i],
        #[trigger] keys[j],
    ) by {
        assert(!sorted[j].ranks_before(sorted[i]));
        assert(sorted[i].key@ != sorted[j].key@);
        assert(less(keys[i], keys[j]) || less(keys[j], keys[i]) || keys[i] == keys[j]);
    }
}

/// The lyrics in a comment block.
pub fn extract_embedded_lyrics(comments: Option<&VorbisComment>) -> (res: EmbeddedLyrics)
    ensures
        are_lyrics_of(res@, comments::block_values(comments)),
{
    let comments = match comments {
        Some(comments) => comments,
        None => {
            let res = EmbeddedLyrics::default();
            proof {
                assert(res@.tag_keys.len() == 0);
                assert(filed_values(res@.tag_keys, comments::block_values(None)) =~= Seq::empty());
            }
            return res;
        },
    };
    let ghost values = comments::comment_values(*comments);
    let entries = lyric_entries(comments);
    let ghost unsorted = entries@;
    let entries = sort(entries);
    proof {
        lemma_sorted_entries(unsorted, entries@, values);
    }
    let ghost keys = entries@.map_values(|entry: LyricEntry| entry.key@);

    let count = entries.len();
    let mut tag_keys: Vec<String> = Vec::new();
    let mut lyrics: Vec<String> = Vec::new();
    for i in 0..count
        invariant
            count == entries.len(),
            are_lyric_entries(entries@, values),
            keys == entries@.map_values(|entry: LyricEntry| entry.key@),
            strings::text_views(tag_keys@) == keys.take(i as int),
            strings::text_views(lyrics@) == distinct_lyrics(
                filed_values(keys.take(i as int), values),
            ),
    {
        let ghost earlier = filed_values(keys.take(i as int), values);
        tag_keys.push(entries[i].key.clone());
        assert(strings::text_views(tag_keys@) =~= keys.take(i + 1));
        let filed = entries[i].values.len();
        let ghost here = strings::text_views(entries@[i as int].values@);
        assert(earlier + here.take(0) =~= earlier);
        for j in 0..filed
            invariant
                i < count == entries.len(),
                filed == entries@[i as int].values.len(),
                here == strings::text_views(entries@[i as int].values@),
                strings::text_views(lyrics@) == distinct_lyrics(earlier + here.take(j as int)),
        {
            let ghost seen = earlier + here.take(j as int);
            let ghost more = earlier + here.take(j + 1);
            let ghost views = strings::text_views(lyrics@);
            let value = normalize_lrc_text(&entries[i].values[j]);
            assert(more.drop_last() =~= seen);
            assert(more.last() == here[j as int]);
            if !is_blank_text(&value) && !strings::list_contains(&lyrics, &value) {
                lyrics.push(value);
                assert(strings::text_views(lyrics@) =~= views.push(value@));
            }
        }
        proof {
            assert(here.take(filed as int) == here);
            assert(keys.take(i + 1).drop_last() == keys.take(i as int));
            assert(keys.take(i + 1).last() == entries@[i as int].key@);
        }
    }
    assert(keys.take(count as int) == keys);

    let content = if lyrics.len() == 0 {
        String::new()
    } else {
        let mut content = join_texts(&lyrics, "\n\n");
        content.push('\n');
        content
    };
    let res = EmbeddedLyrics { tag_keys, content };
    proof {
        assert forall|key: Seq<char>| #[trigger]
            res@.tag_keys.contains(key) <==> values.contains_key(key) && is_lyric_key(key) by {
            if keys.contains(key) {
                let k = choose|k: int| 0 <= k < keys.len() && keys[k] == key;
                assert(entries@[k].key@ == key);
            }
            if values.contains_key(key) && is_lyric_key(key) {
                let k = choose|k: int| 0 <= k < entries@.len() && (#[trigger] entries@[k]).key@ == key;
                assert(keys[k] == key);
            }
        }
    }
    res
}

proof fn lemma_unix_lines_have_no_return(s: Seq<char>)
    ensures
        !strings::unix_lines(s).contains('\r'),
    decreases s.len(),
{
    if s.len() > 0 {
        lemma_unix_lines_have_no_return(s.drop_last());
        let before = strings::unix_lines(s.drop_last());
        let lines = strings::unix_lines(s);
        if lines.contains('\r') {
            let i = choose|i: int| 0 <= i < lines.len() && lines[i] == '\r';
            if i < before.len() {
                assert(before[i] == '\r');
            }
        }
    }
}

proof fn lemma_lrc_text_has_no_return(s: Seq<char>)
    ensures
        !lrc_text(s).contains('\r'),
{
    let lines = strings::unix_lines(s);
    let front = strings::trim_front(lines, CharSet::LineFeed);
    lemma_unix_lines_have_no_return(s);
    strings::lemma_trim_front(lines, CharSet::LineFeed);
    strings::lemma_trim_back(front, CharSet::LineFeed);
    if lrc_text(s).contains('\r') {
        let i = choose|i: int| 0 <= i < lrc_text(s).len() && lrc_text(s)[i] == '\r';
        assert(front[i] == '\r');
        assert(lines[i + lines.len() - front.len()] == '\r');
    }
}

proof fn lemma_distinct_lyrics_have_no_return(values: Seq<Seq<char>>)
    ensures
        forall|i: int|
            0 <= i < distinct_lyrics(values).len() ==> !(
            #[trigger] distinct_lyrics(values)[i]).contains('\r'),
    decreases values.len(),
{
    if values.len() > 0 {
        lemma_distinct_lyrics_have_no_return(values.drop_last());
        lemma_lrc_text_has_no_return(values.last());
        let before = distinct_lyrics(values.drop_last());
        let list = distinct_lyrics(values);
        assert forall|i: int| 0 <= i < list.len() implies !(#[trigger] list[i]).contains('\r') by {
            if i < before.len() {
                assert(list[i] == before[i]);
            } else {
                assert(list[i] == lrc_text(values.last()));
            }
        }
    }
}

proof fn lemma_joined_texts_have_no_return(list: Seq<Seq<char>>)
    requires
        forall|i: int| 0 <= i < list.len() ==> !(#[trigger] list[i]).contains('\r'),
    ensures
        !strings::joined_texts(list, "\n\n"@).contains('\r'),
    decreases list.len(),
{
    reveal_strlit("\n\n");
    if list.len() > 1 {
        let rest = list.drop_last();
        assert forall|i: int| 0 <= i < rest.len() implies !(#[trigger] rest[i]).contains('\r') by {
            assert(rest[i] == list[i]);
        }
        lemma_joined_texts_have_no_return(rest);
        let before = strings::joined_texts(rest, "\n\n"@);
        let all = strings::joined_texts(list, "\n\n"@);
        assert(!list[list.len() - 1].contains('\r'));
        if all.contains('\r') {
            let i = choose|i: int| 0 <= i < all.len() && all[i] == '\r';
            if i < before.len() {
                assert(before[i] == '\r');
            } else if i >= before.len() + 2 {
                assert(list.last()[i - before.len() - 2] == '\r');
            }
        }
    }
}

/// The lyrics of a comment block have unified line breaks.
pub proof fn law_lyrics_have_unified_lines(
    lyrics: LyricsView,
    values: Map<Seq<char>, Seq<Seq<char>>>,
)
    requires
        are_lyrics_of(lyrics, values),
    ensures
        !lyrics.content.contains('\r'),
{
    let list = distinct_lyrics(filed_values(lyrics.tag_keys, values));
    lemma_distinct_lyrics_have_no_return(filed_values(lyrics.tag_keys, values));
    lemma_joined_texts_have_no_return(list);
    if lyrics.content.contains('\r') {
        let joined = strings::joined_texts(list, "\n\n"@);
        let i = choose|i: int| 0 <= i < lyrics.content.len() && lyrics.content[i] == '\r';
        assert(joined[i] == '\r');
    }
}

/// Of a key only ASCII letters and digits matter, in capitals: they are taken one
/// by one, and everything else is passed over.
pub proof fn law_key_form(a: Seq<char>, c: char, b: Seq<char>)
    ensures
        key_form(a + seq![c] + b) == key_form(a) + (if ('0' <= c <= '9') || ('A' <= c <= 'Z') || (
        'a' <= c <= 'z') {
            seq![chars::ascii_upper(c)]
        } else {
            Seq::empty()
        }) + key_form(b),
        key_form(Seq::<char>::empty()) == Seq::<char>::empty(),
{
    let word = |x: char| chars::is_ascii_word_char(x);
    let upper = |x: char| chars::ascii_upper(x);
    reveal(Seq::filter);
    Seq::filter_distributes_over_add(a, seq![c], word);
    Seq::filter_distributes_over_add(a + seq![c], b, word);
    let nothing = Seq::<char>::empty();
    assert(nothing.filter(word) =~= nothing);
    assert(seq![c].drop_last() =~= nothing);
    assert(seq![c].last() == c);
    let middle = seq![c].filter(word);
    assert(middle =~= if word(c) {
        seq![c]
    } else {
        Seq::empty()
    });
    assert((a.filter(word) + middle + b.filter(word)).map_values(upper) =~= a.filter(
        word,
    ).map_values(upper) + middle.map_values(upper) + b.filter(word).map_values(upper));
    assert(key_form(Seq::<char>::empty()) =~= Seq::<char>::empty());
}

/// Lyrics are filed under these keys, and under no others.
pub proof fn law_lyric_keys(key: Seq<char>)
    ensures
        ({
            let form = key.filter(
                |c: char| ('0' <= c <= '9') || ('A' <= c <= 'Z') || ('a' <= c <= 'z'),
            ).map_values(|c: char| chars::ascii_upper(c));
            is_lyric_key(key) <==> (form == "LYRIC"@ || form == "LYRICS"@ || form == "SYNCEDLYRIC"@
                || form == "SYNCEDLYRICS"@ || form == "UNSYNCEDLYRIC"@ || form == "UNSYNCEDLYRICS"@
                || form == "WMLYRICS"@)
        }),
{
    let p = |c: char| ('0' <= c <= '9') || ('A' <= c <= 'Z') || ('a' <= c <= 'z');
    let q = |c: char| chars::is_ascii_word_char(c);
    assert(p =~= q);
}

/// The lyrics file holds the lyrics one after the other, an empty line between
/// them and a line break at the end; without lyrics it is empty.
pub proof fn law_lyrics_file(first: Seq<char>, rest: Seq<Seq<char>>)
    ensures
        lyrics_file(Seq::empty()) == Seq::<char>::empty(),
        rest.len() == 0 ==> lyrics_file(seq![first] + rest) == first.push('\n'),
        rest.len() > 0 ==> lyrics_file(seq![first] + rest) == first + seq!['\n', '\n']
            + lyrics_file(rest),
{
    let list = seq![first] + rest;
    reveal_strlit("\n\n");
    assert("\n\n"@ =~= seq!['\n', '\n']);
    strings::law_joined_texts(list, "\n\n"@);
    assert(list.skip(1) =~= rest);
    if rest.len() > 0 {
        let more = strings::joined_texts(rest, "\n\n"@);
        assert((first + seq!['\n', '\n'] + more).push('\n') =~= first + seq!['\n', '\n']
            + more.push('\n'));
    }
}

/// Each lyric is listed once, at its first appearance, as it stands in a lyrics
/// file; blank ones are not listed, and nothing else is.
pub proof fn law_distinct_lyrics(values: Seq<Seq<char>>, n: int)
    requires
        0 <= n <= values.len(),
    ensures
        ({
            let list = distinct_lyrics(values);
            let earlier = distinct_lyrics(values.take(n));
            &&& list.no_duplicates()
            &&& earlier.len() <= list.len() && list.take(earlier.len() as int) == earlier
            &&& forall|k: int|
                0 <= k < list.len() ==> !strings::is_blank(#[trigger] list[k]) && exists|i: int|
                    0 <= i < values.len() && strings::trim_both(
                        strings::unix_lines(#[trigger] values[i]),
                        CharSet::LineFeed,
                    ) == list[k]
        }),
    decreases values.len(),
{
    let list = distinct_lyrics(values);
    if values.len() > 0 {
        let rest = values.drop_last();
        let before = distinct_lyrics(rest);
        let m = if n < values.len() {
            n
        } else {
            n - 1
        };
        law_distinct_lyrics(rest, m);
        assert(rest.take(m) =~= values.take(m));
        if n == values.len() {
            assert(values.take(n) =~= values);
        }
        assert(list.take(before.len() as int) =~= before);
        let earlier = distinct_lyrics(values.take(n));
        if n < values.len() {
            assert(list.take(earlier.len() as int) =~= before.take(earlier.len() as int));
        } else {
            assert(list.take(list.len() as int) =~= list);
        }
        assert forall|k: int| 0 <= k < list.len() implies !strings::is_blank(#[trigger] list[k])
            && exists|i: int|
            0 <= i < values.len() && strings::trim_both(
                strings::unix_lines(#[trigger] values[i]),
                CharSet::LineFeed,
            ) == list[k] by {
            if k < before.len() {
                assert(list[k] == before[k]);
                let i = choose|i: int|
                    0 <= i < rest.len() && strings::trim_both(
                        strings::unix_lines(#[trigger] rest[i]),
                        CharSet::LineFeed,
                    ) == before[k];
                assert(values[i] == rest[i]);
            } else {
                assert(list[k] == lrc_text(values.last()));
                assert(values[values.len() - 1] == values.last());
            }
        }
        assert(list.no_duplicates()) by {
            assert forall|i: int, j: int|
                0 <= i < list.len() && 0 <= j < list.len() && i != j implies list[i] != list[j] by {
                if i < before.len() && j < before.len() {
                    assert(before[i] != before[j]);
                } else if i < before.len() {
                    assert(before.contains(before[i]));
                } else {
                    assert(before.contains(before[j]));
                }
            }
        }
    } else {
        assert(values.take(n) =~= values);
        assert(list.take(0) =~= list);
    }
}

/// The values under several keys are those of each key, in the order of the keys.
pub proof fn law_filed_values(
    a: Seq<Seq<char>>,
    b: Seq<Seq<char>>,
    values: Map<Seq<char>, Seq<Seq<char>>>,
)
    ensures
        filed_values(a + b, values) == filed_values(a, values) + filed_values(b, values),
        a.len() == 1 ==> filed_values(a, values) == values[a[0]],
    decreases b.len(),
{
    if a.len() == 1 {
        assert(a.drop_last() =~= Seq::empty());
        assert(filed_values(a.drop_last(), values) =~= Seq::empty());
        assert(filed_values(a, values) =~= values[a[0]]);
    }
    if b.len() == 0 {
        assert(a + b =~= a);
        assert(filed_values(a, values) + filed_values(b, values) =~= filed_values(a, values));
    } else {
        law_filed_values(a, b.drop_last(), values);
        assert((a + b).drop_last() =~= a + b.drop_last());
        assert((a + b).last() == b.last());
        assert(filed_values(a + b, values) =~= filed_values(a, values) + filed_values(b, values));
    }
}

/// Whether a value filed under a key for lyrics is the lyric, as it stands in a
/// lyrics file.
pub open spec fn is_filed_lyric(
    values: Map<Seq<char>, Seq<Seq<char>>>,
    lyric: Seq<char>,
) -> bool {
    exists|key: Seq<char>, i: int|
        values.contains_key(key) && is_lyric_key(key) && 0 <= i < values[key].len()
            && strings::trim_both(
            strings::unix_lines(#[trigger] values[key][i]),
            CharSet::LineFeed,
        ) == lyric
}

proof fn lemma_filed_values_come_from_keys(
    keys: Seq<Seq<char>>,
    values: Map<Seq<char>, Seq<Seq<char>>>,
    m: int,
) -> (found: (int, int))
    requires
        0 <= m < filed_values(keys, values).len(),
    ensures
        0 <= found.0 < keys.len(),
        0 <= found.1 < values[keys[found.0]].len(),
        filed_values(keys, values)[m] == values[keys[found.0]][found.1],
    decreases keys.len(),
{
    let rest = keys.drop_last();
    let before = filed_values(rest, values);
    if m < before.len() {
        let found = lemma_filed_values_come_from_keys(rest, values, m);
        assert(rest[found.0] == keys[found.0]);
        found
    } else {
        (keys.len() - 1, m - before.len())
    }
}

/// The lyrics of a block: its keys for lyrics, each once and in order, and a file with
/// each lyric that is filed under them once, and nothing else.
pub proof fn law_lyrics_of_block(lyrics: LyricsView, values: Map<Seq<char>, Seq<Seq<char>>>)
    requires
        are_lyrics_of(lyrics, values),
    ensures
        forall|key: Seq<char>|
            values.contains_key(key) && is_lyric_key(key) ==> #[trigger] lyrics.tag_keys.contains(
                key,
            ),
        forall|i: int|
            0 <= i < lyrics.tag_keys.len() ==> values.contains_key(#[trigger] lyrics.tag_keys[i])
                && is_lyric_key(lyrics.tag_keys[i]),
        forall|i: int, j: int|
            0 <= i < j < lyrics.tag_keys.len() ==> order::text_before(
                #[trigger] lyrics.tag_keys[i],
                #[trigger] lyrics.tag_keys[j],
            ),
        exists|list: Seq<Seq<char>>|
            lyrics.content == #[trigger] lyrics_file(list) && list.no_duplicates() && forall|k: int|
                0 <= k < list.len() ==> !strings::is_blank(#[trigger] list[k]) && is_filed_lyric(
                    values,
                    list[k],
                ),
{
    let keys = lyrics.tag_keys;
    let less = order::lexical_order(order::char_order());
    assert forall|i: int, j: int| 0 <= i < j < keys.len() implies order::text_before(
        #[trigger] keys[i],
        #[trigger] keys[j],
    ) by {
        assert(less(keys[i], keys[j]));
    }
    assert forall|i: int| 0 <= i < keys.len() implies values.contains_key(#[trigger] keys[i])
        && is_lyric_key(keys[i]) by {
        assert(keys.contains(keys[i]));
    }
    let filed = filed_values(keys, values);
    let list = distinct_lyrics(filed);
    law_distinct_lyrics(filed, 0);
    assert forall|k: int| 0 <= k < list.len() implies !strings::is_blank(#[trigger] list[k])
        && is_filed_lyric(values, list[k]) by {
        let m = choose|m: int|
            0 <= m < filed.len() && strings::trim_both(
                strings::unix_lines(#[trigger] filed[m]),
                CharSet::LineFeed,
            ) == list[k];
        let found = lemma_filed_values_come_from_keys(keys, values, m);
        assert(keys.contains(keys[found.0]));
        assert(values[keys[found.0]][found.1] == filed[m]);
    }
    assert(lyrics.content == lyrics_file(list));
}

} // verus!
