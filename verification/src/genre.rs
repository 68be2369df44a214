//! Album genres: what to ask a music database, which genre to take from its
//! answer, and how to spell it.

use vstd::prelude::*;

use crate::audio;
use crate::audio::TrackMetadata;
use crate::chars;
use crate::chars::{lowercase_of, uppercase_of};
use crate::numbers;
use crate::numbers::{parse_i32, parse_unsigned};
use crate::strings;
use crate::strings::{concat, same_text, to_lower_text, trimmed, CharSet};
use crate::text;
use crate::text::{canonical_primary_artist, normalize_text};

verus! {

/// The shortest time between two requests, in nanoseconds.
pub const MIN_REQUEST_INTERVAL_NANOS: u128 = 1_100_000_000;

/// An album as the database is asked for it.
#[derive(Debug)]
pub struct AlbumLookupKey {
    pub artist: String,
    pub album: String,
}

/// An album as the database is asked for it, as text.
pub struct AlbumKeyView {
    pub artist: Seq<char>,
    pub album: Seq<char>,
}

impl View for AlbumLookupKey {
    type V = AlbumKeyView;

    open spec fn view(&self) -> AlbumKeyView {
        AlbumKeyView { artist: self.artist@, album: self.album@ }
    }
}

impl Clone for AlbumLookupKey {
    fn clone(&self) -> (res: Self)
        ensures
            res@ == self@,
    {
        AlbumLookupKey { artist: self.artist.clone(), album: self.album.clone() }
    }
}

/// A genre or tag of an album, with the votes for it.
#[derive(Debug)]
pub struct GenreTag {
    pub count: Option<i32>,
    pub name: String,
}

/// A genre or tag of an album, as text.
pub struct GenreTagView {
    pub count: Option<i32>,
    pub name: Seq<char>,
}

impl View for GenreTag {
    type V = GenreTagView;

    open spec fn view(&self) -> GenreTagView {
        GenreTagView { count: self.count, name: self.name@ }
    }
}

/// An album in the answer of the database.
#[derive(Debug)]
pub struct ReleaseGroup {
    /// How well the album fits the request.
    pub score: Option<u32>,
    pub genres: Vec<GenreTag>,
    pub tags: Vec<GenreTag>,
}

/// An album in the answer of the database, as text.
pub struct ReleaseGroupView {
    pub score: Option<u32>,
    pub genres: Seq<GenreTagView>,
    pub tags: Seq<GenreTagView>,
}

/// The contents of a list of genres or tags.
pub open spec fn tag_views(tags: Seq<GenreTag>) -> Seq<GenreTagView> {
    tags.map_values(|tag: GenreTag| tag@)
}

impl View for ReleaseGroup {
    type V = ReleaseGroupView;

    open spec fn view(&self) -> ReleaseGroupView {
        ReleaseGroupView {
            score: self.score,
            genres: tag_views(self.genres@),
            tags: tag_views(self.tags@),
        }
    }
}

/// The answer of the database.
#[derive(Debug)]
pub struct ReleaseGroupSearchResponse {
    pub release_groups: Vec<ReleaseGroup>,
}

impl View for ReleaseGroupSearchResponse {
    type V = Seq<ReleaseGroupView>;

    open spec fn view(&self) -> Seq<ReleaseGroupView> {
        self.release_groups@.map_values(|group: ReleaseGroup| group@)
    }
}

/// A score as the database spells it.
#[derive(Debug)]
pub enum ScoreValue {
    Number(u32),
    Text(String),
}

/// A count as the database spells it.
#[derive(Debug)]
pub enum CountValue {
    Signed(i32),
    Unsigned(u32),
    Text(String),
}

/// A text that does not spell a number in range.
#[derive(Debug, Clone, Copy, PartialEq, Eq)]
pub struct InvalidNumber;

/// The score that a value spells, if it spells one of 32 bits.
pub fn optional_score(value: Option<ScoreValue>) -> (res: Result<Option<u32>, InvalidNumber>)
    ensures
        match value {
            None => res == Ok::<Option<u32>, InvalidNumber>(None),
            Some(ScoreValue::Number(number)) => res == Ok::<Option<u32>, InvalidNumber>(
                Some(number),
            ),
            Some(ScoreValue::Text(text)) => match numbers::unsigned_value(text@) {
                Some(number) if number <= u32::MAX => res == Ok::<Option<u32>, InvalidNumber>(
                    Some(number as u32),
                ),
                _ => res is Err,
            },
        },
{
    match value {
        None => Ok(None),
        Some(ScoreValue::Number(number)) => Ok(Some(number)),
        Some(ScoreValue::Text(text)) => match parse_unsigned(&text, u32::MAX as u64) {
            Some(number) => Ok(Some(number as u32)),
            None => Err(InvalidNumber),
        },
    }
}

/// The count that a value spells, if it spells one of 32 bits; a larger unsigned
/// one counts as the largest signed one.
pub fn optional_count(value: Option<CountValue>) -> (res: Result<Option<i32>, InvalidNumber>)
    ensures
        match value {
            None => res == Ok::<Option<i32>, InvalidNumber>(None),
            Some(CountValue::Signed(number)) => res == Ok::<Option<i32>, InvalidNumber>(
                Some(number),
            ),
            Some(CountValue::Unsigned(number)) => res == Ok::<Option<i32>, InvalidNumber>(
                Some(
                    if number <= i32::MAX {
                        number as i32
                    } else {
                        i32::MAX
                    },
                ),
            ),
            Some(CountValue::Text(text)) => match numbers::signed_value(text@) {
                Some(number) if i32::MIN <= number <= i32::MAX => res == Ok::<
                    Option<i32>,
                    InvalidNumber,
                >(Some(number as i32)),
                _ => res is Err,
            },
        },
{
    match value {
        None => Ok(None),
        Some(CountValue::Signed(number)) => Ok(Some(number)),
        Some(CountValue::Unsigned(number)) => Ok(
            Some(
                if number <= 0x7fff_ffff {
                    number as i32
                } else {
                    i32::MAX
                },
            ),
        ),
        Some(CountValue::Text(text)) => match parse_i32(&text) {
            Some(number) => Ok(Some(number)),
            None => Err(InvalidNumber),
        },
    }
}

/// A count, with a missing or negative one taken as zero.
pub open spec fn votes(count: Option<i32>) -> int {
    match count {
        Some(count) => if count > 0 {
            count as int
        } else {
            0
        },
        None => 0,
    }
}

/// A count, with a missing or negative one taken as zero.
pub fn normalized_count(count: Option<i32>) -> (res: i32)
    ensures
        res == votes(count),
{
    match count {
        Some(count) => if count > 0 {
            count
        } else {
            0
        },
        None => 0,
    }
}

/// The characters of a value in a quoted query, with backslashes and quotation
/// marks escaped by a backslash.
pub open spec fn escaped(s: Seq<char>) -> Seq<char>
    decreases s.len(),
{
    if s.len() == 0 {
        s
    } else if s.last() == '\\' || s.last() == '"' {
        escaped(s.drop_last()).push('\\').push(s.last())
    } else {
        escaped(s.drop_last()).push(s.last())
    }
}

/// The query for an album.
pub open spec fn album_query(key: AlbumKeyView) -> Seq<char> {
    "releasegroup:\""@ + escaped(key.album) + "\" AND artist:\""@ + escaped(key.artist) + "\""@
}

/// A value as it stands in a quoted query.
pub fn escape_query_value(value: &str) -> (res: String)
    ensures
        res@ == escaped(value@),
{
    let mut out = String::new();
    for ch in it: value.chars()
        invariant
            it.seq() == value@,
            out@ == escaped(value@.take(it.index())),
    {
        let ghost after = value@.take(it.index() + 1);
        assert(after.drop_last() == value@.take(it.index()));
        assert(after.last() == ch);
        if ch == '\\' || ch == '"' {
            out.push('\\');
        }
        out.push(ch);
    }
    assert(value@.take(value@.len() as int) == value@);
    out
}

/// The query for an album.
pub fn build_query(key: &AlbumLookupKey) -> (res: String)
    ensures
        res@ == album_query(key@),
{
    let album = concat("releasegroup:\"", &escape_query_value(&key.album));
    let artist = concat(&concat(&album, "\" AND artist:\""), &escape_query_value(&key.artist));
    concat(&artist, "\"")
}

/// Undoes the escaping of a quoted value, from position `i` on.
pub open spec fn unescaped_from(s: Seq<char>, i: int) -> Seq<char>
    decreases s.len() - i,
{
    if i >= s.len() {
        Seq::empty()
    } else if s[i] == '\\' && i + 1 < s.len() {
        seq![s[i + 1]] + unescaped_from(s, i + 2)
    } else {
        seq![s[i]] + unescaped_from(s, i + 1)
    }
}

proof fn lemma_unescape_append(s: Seq<char>, t: Seq<char>, i: int)
    requires
        0 <= i <= s.len(),
        whole_escapes(s, i),
    ensures
        unescaped_from(s + t, i) == unescaped_from(s, i) + unescaped_from(t, 0),
    decreases s.len() + 1 - i,
{
    let st = s + t;
    if i == s.len() {
        lemma_unescape_shift(s, t, 0);
        assert(unescaped_from(s, i) =~= Seq::empty());
        assert(unescaped_from(st, i) =~= unescaped_from(s, i) + unescaped_from(t, 0));
    } else if s[i] == '\\' {
        assert(whole_escapes(s, i + 2));
        lemma_unescape_append(s, t, i + 2);
        assert(st[i] == s[i] && st[i + 1] == s[i + 1]);
        assert(unescaped_from(st, i) =~= unescaped_from(s, i) + unescaped_from(t, 0));
    } else {
        lemma_unescape_append(s, t, i + 1);
        assert(st[i] == s[i]);
        assert(unescaped_from(st, i) =~= unescaped_from(s, i) + unescaped_from(t, 0));
    }
}

proof fn lemma_unescape_shift(s: Seq<char>, t: Seq<char>, i: int)
    requires
        0 <= i,
    ensures
        unescaped_from(s + t, s.len() + i) == unescaped_from(t, i),
    decreases t.len() + 1 - i,
{
    if i < t.len() {
        assert((s + t)[s.len() + i] == t[i]);
        if i + 1 < t.len() {
            assert((s + t)[s.len() + i + 1] == t[i + 1]);
        }
        lemma_unescape_shift(s, t, i + 1);
        lemma_unescape_shift(s, t, i + 2);
    }
}

/// Read from `i` on, every escaping backslash is followed by what it escapes, and
/// every quotation mark is escaped.
pub open spec fn whole_escapes(s: Seq<char>, i: int) -> bool
    decreases s.len() + 1 - i,
{
    if i >= s.len() {
        i == s.len()
    } else if s[i] == '\\' {
        whole_escapes(s, i + 2)
    } else {
        s[i] != '"' && whole_escapes(s, i + 1)
    }
}

proof fn lemma_whole_append(s: Seq<char>, t: Seq<char>, i: int)
    requires
        0 <= i <= s.len(),
        whole_escapes(s, i),
        whole_escapes(t, 0),
    ensures
        whole_escapes(s + t, i),
    decreases s.len() + 1 - i,
{
    if i == s.len() {
        lemma_whole_shift(s, t, 0);
    } else {
        assert((s + t)[i] == s[i]);
        if s[i] == '\\' {
            assert(whole_escapes(s, i + 2));
            lemma_whole_append(s, t, i + 2);
        } else {
            lemma_whole_append(s, t, i + 1);
        }
    }
}

proof fn lemma_whole_shift(s: Seq<char>, t: Seq<char>, i: int)
    requires
        0 <= i,
    ensures
        whole_escapes(s + t, s.len() + i) == whole_escapes(t, i),
    decreases t.len() + 1 - i,
{
    if i < t.len() {
        assert((s + t)[s.len() + i] == t[i]);
        lemma_whole_shift(s, t, i + 1);
        lemma_whole_shift(s, t, i + 2);
    }
}

proof fn lemma_escaped_reads_back(s: Seq<char>)
    ensures
        whole_escapes(escaped(s), 0),
        unescaped_from(escaped(s), 0) == s,
    decreases s.len(),
{
    reveal_with_fuel(whole_escapes, 3);
    reveal_with_fuel(unescaped_from, 3);
    if s.len() > 0 {
        lemma_escaped_reads_back(s.drop_last());
        let before = escaped(s.drop_last());
        let c = s.last();
        let piece = if c == '\\' || c == '"' {
            seq!['\\', c]
        } else {
            seq![c]
        };
        assert(escaped(s) =~= before + piece);
        assert(unescaped_from(piece, 0) =~= seq![c]);
        assert(whole_escapes(piece, 0));
        lemma_whole_append(before, piece, 0);
        lemma_unescape_append(before, piece, 0);
        assert(s.drop_last() + seq![c] =~= s);
    } else {
        assert(unescaped_from(escaped(s), 0) =~= s);
    }
}

/// A value survives quoting: undoing the escapes gives it back, so two values
/// are quoted alike only if they are equal. No quotation mark in it ends the
/// quotation: every one is escaped.
pub proof fn law_escaping_is_reversible(s: Seq<char>)
    ensures
        whole_escapes(escaped(s), 0),
        unescaped_from(escaped(s), 0) == s,
{
    lemma_escaped_reads_back(s);
}

/// Tags that say nothing about the genre.
pub open spec fn idle_tags() -> Seq<Seq<char>> {
    seq![
        "favorites"@,
        "favourite"@,
        "favorite"@,
        "seen live"@,
        "live"@,
        "american"@,
        "british"@,
        "male vocalists"@,
        "female vocalists"@,
        "albums i own"@,
        "awesome"@,
        "my favorites"@,
    ]
}

/// Whether a tag may be a genre.
pub open spec fn is_genre_like(s: Seq<char>) -> bool {
    let tag = strings::lower_text(strings::trim_both(s, CharSet::Space));
    tag.len() > 0 && !idle_tags().contains(tag)
}

/// Whether a tag may be a genre.
pub fn looks_like_genre(value: &str) -> (res: bool)
    ensures
        res == is_genre_like(value@),
{
    let tag = to_lower_text(&trimmed(value, CharSet::Space));
    if tag.as_str().is_empty() {
        return false;
    }
    let idle: Vec<&str> = vec![
        "favorites",
        "favourite",
        "favorite",
        "seen live",
        "live",
        "american",
        "british",
        "male vocalists",
        "female vocalists",
        "albums i own",
        "awesome",
        "my favorites",
    ];
    let ghost all = idle_tags();
    let count = idle.len();
    assert(count == all.len());
    assert forall|j: int| 0 <= j < count implies (#[trigger] idle@[j])@ == all[j] by {}
    for i in 0..count
        invariant
            count == idle.len() == all.len(),
            all == idle_tags(),
            tag@ == strings::lower_text(strings::trim_both(value@, CharSet::Space)),
            tag@.len() > 0,
            forall|j: int| 0 <= j < count ==> (#[trigger] idle@[j])@ == all[j],
            forall|j: int| 0 <= j < i ==> all[j] != tag@,
    {
        if same_text(&tag, idle[i]) {
            assert(all[i as int] == tag@);
            return false;
        }
    }
    true
}

/// The length of a text in bytes.
pub open spec fn byte_length(s: Seq<char>) -> nat {
    vstd::utf8::encode_utf8(s).len()
}

/// Whether `a` has at least the votes of `b`, and among equals at least as long
/// a name.
pub open spec fn is_no_worse(a: GenreTagView, b: GenreTagView) -> bool {
    ||| votes(a.count) > votes(b.count)
    ||| votes(a.count) == votes(b.count) && byte_length(a.name) >= byte_length(b.name)
}

/// The best of a list; among equals the last.
pub open spec fn best_tag(tags: Seq<GenreTagView>) -> Option<GenreTagView>
    decreases tags.len(),
{
    if tags.len() == 0 {
        None
    } else {
        match best_tag(tags.drop_last()) {
            Some(best) => if is_no_worse(tags.last(), best) {
                Some(tags.last())
            } else {
                Some(best)
            },
            None => Some(tags.last()),
        }
    }
}

/// What an album's genre is chosen from: its genres, or, if it has none, its
/// tags that may be genres.
pub open spec fn genre_candidates(group: ReleaseGroupView) -> Seq<GenreTagView> {
    if group.genres.len() > 0 {
        group.genres
    } else {
        group.tags.filter(|tag: GenreTagView| is_genre_like(tag.name))
    }
}

/// The best genre of an album.
pub open spec fn group_genre(group: ReleaseGroupView) -> Option<GenreTagView> {
    best_tag(genre_candidates(group))
}

/// How an album of the answer is weighed with its genre: by its score first.
pub open spec fn group_weight(group: ReleaseGroupView, genre: GenreTagView) -> int {
    let score: int = match group.score {
        Some(score) => score as int,
        None => 0,
    };
    score * 1000 + votes(genre.count)
}

/// The weight and the genre of the album to take from an answer: the heaviest
/// one that has a genre; among equals the first.
pub open spec fn chosen(groups: Seq<ReleaseGroupView>) -> Option<(int, Seq<char>)>
    decreases groups.len(),
{
    if groups.len() == 0 {
        None
    } else {
        let before = chosen(groups.drop_last());
        match group_genre(groups.last()) {
            Some(genre) => {
                let weight = group_weight(groups.last(), genre);
                match before {
                    Some((best, name)) => if weight > best {
                        Some((weight, genre.name))
                    } else {
                        before
                    },
                    None => Some((weight, genre.name)),
                }
            },
            None => before,
        }
    }
}

/// The genre to take from an answer.
pub open spec fn chosen_genre(groups: Seq<ReleaseGroupView>) -> Option<Seq<char>> {
    match chosen(groups) {
        Some((weight, name)) => Some(name),
        None => None,
    }
}

/// Whether no item of a list is better than the one at `k`, and all after it are
/// worse.
pub open spec fn is_last_best(tags: Seq<GenreTagView>, k: int) -> bool {
    &&& forall|i: int| 0 <= i < tags.len() ==> is_no_worse(tags[k], #[trigger] tags[i])
    &&& forall|i: int| k < i < tags.len() ==> !is_no_worse(#[trigger] tags[i], tags[k])
}

/// The best of a list is in it, no item is better, of equals it is the last, and
/// there is one unless the list is empty.
pub proof fn law_best_tag(tags: Seq<GenreTagView>)
    ensures
        match best_tag(tags) {
            Some(best) => exists|k: int|
                0 <= k < tags.len() && #[trigger] tags[k] == best && is_last_best(tags, k),
            None => tags.len() == 0,
        },
    decreases tags.len(),
{
    if tags.len() > 0 {
        let rest = tags.drop_last();
        let last = tags.len() - 1;
        law_best_tag(rest);
        if let Some(earlier) = best_tag(rest) {
            let k = choose|k: int|
                0 <= k < rest.len() && #[trigger] rest[k] == earlier && is_last_best(rest, k);
            assert forall|i: int| 0 <= i < last implies is_no_worse(earlier, #[trigger] tags[i]) by {
                assert(rest[i] == tags[i]);
            }
            assert forall|i: int| k < i < last implies !is_no_worse(#[trigger] tags[i], earlier) by {
                assert(rest[i] == tags[i]);
            }
            assert(tags[k] == earlier);
            if is_no_worse(tags.last(), earlier) {
                assert(tags[last] == tags.last() && is_last_best(tags, last));
            } else {
                assert(is_last_best(tags, k));
            }
        } else {
            assert(tags[last] == tags.last() && is_last_best(tags, last));
        }
    }
}

/// Whether an album of the answer has this weight with its best genre, named so.
pub open spec fn is_chosen(group: ReleaseGroupView, weight: int, name: Seq<char>) -> bool {
    match group_genre(group) {
        Some(genre) => genre.name == name && group_weight(group, genre) == weight,
        None => false,
    }
}

/// Whether every album before `k` that has a genre is lighter.
pub open spec fn is_first_of_weight(groups: Seq<ReleaseGroupView>, k: int, weight: int) -> bool {
    forall|i: int|
        0 <= i < k ==> (#[trigger] group_genre(groups[i]) matches Some(genre) ==> group_weight(
            groups[i],
            genre,
        ) < weight)
}

/// The genre taken from an answer is the best genre of one of its albums, no
/// other album with a genre is heavier, of equally heavy ones it is the first,
/// and there is one as soon as any album has a genre.
pub proof fn law_chosen_genre(groups: Seq<ReleaseGroupView>)
    ensures
        match chosen(groups) {
            Some((weight, name)) => {
                &&& exists|i: int|
                    0 <= i < groups.len() && is_chosen(#[trigger] groups[i], weight, name)
                        && is_first_of_weight(groups, i, weight)
                &&& forall|i: int|
                    0 <= i < groups.len() ==> (#[trigger] group_genre(groups[i]) matches Some(genre)
                        ==> group_weight(groups[i], genre) <= weight)
            },
            None => forall|i: int|
                0 <= i < groups.len() ==> #[trigger] group_genre(groups[i]) is None,
        },
    decreases groups.len(),
{
    if groups.len() > 0 {
        let rest = groups.drop_last();
        law_chosen_genre(rest);
        let last = groups.len() - 1;
        assert(groups[last] == groups.last());
        assert forall|i: int| 0 <= i < last implies group_genre(groups[i]) == #[trigger] group_genre(
            rest[i],
        ) by {}
        if let Some((weight, name)) = chosen(rest) {
            let k = choose|k: int|
                0 <= k < rest.len() && is_chosen(#[trigger] rest[k], weight, name)
                    && is_first_of_weight(rest, k, weight);
            assert(groups[k] == rest[k]);
            assert forall|i: int| 0 <= i < k implies (#[trigger] group_genre(
                groups[i],
            ) matches Some(genre) ==> group_weight(groups[i], genre) < weight) by {
                assert(group_genre(rest[i]) == group_genre(groups[i]));
            }
            assert(is_first_of_weight(groups, k, weight));
        }
        if let Some(genre) = group_genre(groups.last()) {
            let heavier = group_weight(groups.last(), genre);
            if chosen(groups) == Some((heavier, genre.name)) && (chosen(rest) is None || heavier
                > chosen(rest).unwrap().0) {
                assert forall|i: int| 0 <= i < last implies (#[trigger] group_genre(
                    groups[i],
                ) matches Some(other) ==> group_weight(groups[i], other) < heavier) by {
                    assert(group_genre(rest[i]) == group_genre(groups[i]));
                }
                assert(is_chosen(groups[last], heavier, genre.name));
                assert(is_first_of_weight(groups, last, heavier));
            }
        }
        if let Some((weight, name)) = chosen(groups) {
            assert forall|i: int| 0 <= i < groups.len() implies (#[trigger] group_genre(
                groups[i],
            ) matches Some(genre) ==> group_weight(groups[i], genre) <= weight) by {
                if i < last {
                    assert(group_genre(rest[i]) == group_genre(groups[i]));
                }
            }
        } else {
            assert forall|i: int| 0 <= i < groups.len() implies #[trigger] group_genre(
                groups[i],
            ) is None by {
                if i < last {
                    assert(group_genre(rest[i]) == group_genre(groups[i]));
                }
            }
        }
    }
}

fn is_no_worse_tag(a: &GenreTag, b: &GenreTag) -> (res: bool)
    ensures
        res == is_no_worse(a@, b@),
{
    let left = normalized_count(a.count);
    let right = normalized_count(b.count);
    left > right || (left == right && a.name.as_str().as_bytes().len()
        >= b.name.as_str().as_bytes().len())
}

/// The best genre of an album of the answer.
pub fn best_genre_in_release_group(release_group: &ReleaseGroup) -> (res: Option<&GenreTag>)
    ensures
        match res {
            Some(genre) => group_genre(release_group@) == Some(genre@),
            None => group_genre(release_group@) is None,
        },
{
    let from_genres = release_group.genres.len() > 0;
    let tags: &Vec<GenreTag> = if from_genres {
        &release_group.genres
    } else {
        &release_group.tags
    };
    let count = tags.len();
    let ghost views = tag_views(tags@);
    let ghost like = |tag: GenreTagView| is_genre_like(tag.name);
    let ghost kept = |n: int|
        if from_genres {
            views.take(n)
        } else {
            views.take(n).filter(like)
        };
    let mut best: Option<&GenreTag> = None;
    proof {
        reveal(Seq::filter);
    }
    for i in 0..count
        invariant
            count == tags.len(),
            views == tag_views(tags@),
            like == |tag: GenreTagView| is_genre_like(tag.name),
            kept == |n: int|
                if from_genres {
                    views.take(n)
                } else {
                    views.take(n).filter(like)
                },
            match best {
                Some(genre) => best_tag(kept(i as int)) == Some(genre@),
                None => best_tag(kept(i as int)) is None,
            },
    {
        let tag = &tags[i];
        proof {
            reveal(Seq::filter);
            assert(views.take(i + 1).drop_last() == views.take(i as int));
            assert(views.take(i + 1).last() == tag@);
        }
        if from_genres || looks_like_genre(&tag.name) {
            let ghost before = kept(i as int);
            assert(kept(i + 1) =~= before.push(tag@));
            assert(kept(i + 1).drop_last() =~= before);
            let better = match best {
                Some(other) => is_no_worse_tag(tag, other),
                None => true,
            };
            if better {
                best = Some(tag);
            }
        } else {
            assert(kept(i + 1) =~= kept(i as int));
        }
    }
    assert(views.take(count as int) == views);
    assert(kept(count as int) == genre_candidates(release_group@));
    best
}

/// The genre to take from an answer.
pub fn choose_genre(response: &ReleaseGroupSearchResponse) -> (res: Option<String>)
    ensures
        strings::text_opt(res) == chosen_genre(response@),
{
    let mut best_weight: i64 = 0;
    let mut best_genre: Option<String> = None;
    let count = response.release_groups.len();
    let ghost views = response@;
    for i in 0..count
        invariant
            count == response.release_groups.len(),
            views == response@,
            match best_genre {
                Some(name) => chosen(views.take(i as int)) == Some((best_weight as int, name@)),
                None => chosen(views.take(i as int)) is None,
            },
    {
        let group = &response.release_groups[i];
        proof {
            assert(views.take(i + 1).drop_last() == views.take(i as int));
            assert(views.take(i + 1).last() == group@);
        }
        let score: i64 = match group.score {
            Some(score) => score as i64,
            None => 0,
        };
        if let Some(genre) = best_genre_in_release_group(group) {
            let weight: i64 = score * 1000 + normalized_count(genre.count) as i64;
            if best_genre.is_none() || weight > best_weight {
                best_weight = weight;
                best_genre = Some(genre.name.clone());
            }
        }
    }
    assert(views.take(count as int) == views);
    best_genre
}

/// Whether a new word begins after `c`.
pub open spec fn is_word_break(c: char) -> bool {
    chars::is_space_char(c) || c == '-' || c == '/'
}

/// `s` with the first letter of every word in upper case and the others in lower
/// case.
pub open spec fn title_cased(s: Seq<char>) -> Seq<char>
    decreases s.len(),
{
    if s.len() == 0 {
        s
    } else {
        let before = title_cased(s.drop_last());
        let c = s.last();
        if is_word_break(c) {
            before.push(c)
        } else if s.len() == 1 || is_word_break(s[s.len() - 2]) {
            before + chars::char_uppercase(c)
        } else {
            before + chars::char_lowercase(c)
        }
    }
}

/// The text with the first letter of every word in upper case and the others in
/// lower case.
pub fn title_case(value: &str) -> (res: String)
    ensures
        res@ == title_cased(value@),
{
    let mut out = String::new();
    let mut start = true;
    for ch in it: value.chars()
        invariant
            it.seq() == value@,
            out@ == title_cased(value@.take(it.index())),
            start == (it.index() == 0 || is_word_break(value@[it.index() - 1])),
    {
        let ghost after = value@.take(it.index() + 1);
        assert(after.drop_last() == value@.take(it.index()));
        assert(after.last() == ch);
        if ch.is_whitespace() || ch == '-' || ch == '/' {
            start = true;
            out.push(ch);
        } else if start {
            out.append(&uppercase_of(ch));
            start = false;
        } else {
            out.append(&lowercase_of(ch));
        }
    }
    assert(value@.take(value@.len() as int) == value@);
    out
}

/// How a genre is spelled in a tag; nothing for a genre without a name.
pub open spec fn genre_name(s: Seq<char>) -> Seq<char> {
    let name = text::normal_text(s, false);
    let lower = strings::lower_text(name);
    if name == "Unknown"@ {
        Seq::empty()
    } else if lower == "hip hop"@ {
        "Hip Hop"@
    } else if lower == "r&b"@ {
        "R&B"@
    } else if lower == "drum and bass"@ {
        "Drum and Bass"@
    } else if lower == "idm"@ {
        "IDM"@
    } else {
        title_cased(name)
    }
}

/// How a genre is spelled in a tag.
pub fn normalize_genre_name(value: &str) -> (res: String)
    ensures
        res@ == genre_name(value@),
{
    let name = normalize_text(value, false);
    if same_text(&name, "Unknown") {
        return String::new();
    }
    let lower = to_lower_text(&name);
    if same_text(&lower, "hip hop") {
        "Hip Hop".to_string()
    } else if same_text(&lower, "r&b") {
        "R&B".to_string()
    } else if same_text(&lower, "drum and bass") {
        "Drum and Bass".to_string()
    } else if same_text(&lower, "idm") {
        "IDM".to_string()
    } else {
        title_case(&name)
    }
}

/// The genre of an album by the answer of the database.
pub open spec fn answered_genre(groups: Seq<ReleaseGroupView>) -> Option<Seq<char>> {
    match chosen_genre(groups) {
        Some(name) => if genre_name(name).len() > 0 {
            Some(genre_name(name))
        } else {
            None
        },
        None => None,
    }
}

/// The album that a track belongs to, as the database is asked for it.
pub open spec fn lookup_key(track: audio::TrackView) -> AlbumKeyView {
    AlbumKeyView {
        artist: text::normal_text(text::artist_name(track.albumartist), false),
        album: text::normal_text(track.album, false),
    }
}

/// What to do about the genre of an album.
#[derive(Debug)]
pub enum LookupStep {
    /// The answer is known.
    Known(Option<String>),
    /// The database has to be asked.
    Ask(AlbumLookupKey, String),
}

/// Genres looked up so far.
pub struct GenreLookup {
    cache: Vec<(AlbumLookupKey, Option<String>)>,
}

/// Whether no genre is empty text.
pub open spec fn are_filled(known: Map<AlbumKeyView, Option<Seq<char>>>) -> bool {
    forall|key: AlbumKeyView| #[trigger]
        known.contains_key(key) ==> known[key] != Some(Seq::<char>::empty())
}

spec fn cached(entries: Seq<(AlbumLookupKey, Option<String>)>) -> Map<
    AlbumKeyView,
    Option<Seq<char>>,
>
    decreases entries.len(),
{
    if entries.len() == 0 {
        Map::empty()
    } else {
        cached(entries.drop_last()).insert(
            entries.last().0@,
            strings::text_opt(entries.last().1),
        )
    }
}

impl View for GenreLookup {
    type V = Map<AlbumKeyView, Option<Seq<char>>>;

    closed spec fn view(&self) -> Map<AlbumKeyView, Option<Seq<char>>> {
        cached(self.cache@)
    }
}

/// What to do about the genre of a track's album, given the genres known: an
/// album without a name has none, a known one is not asked for again.
pub open spec fn lookup_step(
    known: Map<AlbumKeyView, Option<Seq<char>>>,
    track: audio::TrackView,
) -> Option<Option<Seq<char>>> {
    let key = lookup_key(track);
    if key.album == "Unknown"@ {
        Some(None)
    } else if known.contains_key(key) {
        Some(known[key])
    } else {
        None
    }
}

impl GenreLookup {
    #[verifier::type_invariant]
    spec fn is_filled(self) -> bool {
        are_filled(cached(self.cache@))
    }

    /// No genre is known yet.
    pub fn new() -> (res: GenreLookup)
        ensures
            res@ == Map::<AlbumKeyView, Option<Seq<char>>>::empty(),
    {
        GenreLookup { cache: Vec::new() }
    }

    fn find(&self, key: &AlbumLookupKey) -> (res: Option<Option<String>>)
        ensures
            match res {
                Some(genre) => self@.contains_key(key@) && self@[key@] == strings::text_opt(genre),
                None => !self@.contains_key(key@),
            },
    {
        let mut end = self.cache.len();
        assert(self.cache@.take(end as int) == self.cache@);
        while end > 0
            invariant
                end <= self.cache.len(),
                self@.contains_key(key@) == cached(self.cache@.take(end as int)).contains_key(key@),
                self@.contains_key(key@) ==> self@[key@] == cached(
                    self.cache@.take(end as int),
                )[key@],
            decreases end,
        {
            let entry = &self.cache[end - 1];
            proof {
                let upto = self.cache@.take(end as int);
                assert(upto.drop_last() == self.cache@.take(end - 1));
                assert(upto.last() == entry);
            }
            if same_text(&entry.0.artist, &key.artist) && same_text(&entry.0.album, &key.album) {
                assert(entry.0@ == key@);
                return Some(strings::clone_opt(&entry.1));
            }
            end = end - 1;
        }
        None
    }

    /// What to do about the genre of a track's album.
    pub fn genre_for_album(&self, track: &TrackMetadata) -> (res: LookupStep)
        ensures
            match res {
                LookupStep::Known(genre) => lookup_step(self@, track@) == Some(
                    strings::text_opt(genre),
                ),
                LookupStep::Ask(key, query) => lookup_step(self@, track@) is None && key@
                    == lookup_key(track@) && query@ == album_query(key@),
            },
            res matches LookupStep::Known(Some(genre)) ==> genre@.len() > 0,
            are_filled(self@),
    {
        proof {
            use_type_invariant(self);
        }
        let key = AlbumLookupKey {
            artist: normalize_text(&canonical_primary_artist(&track.albumartist), false),
            album: normalize_text(&track.album, false),
        };
        if same_text(&key.album, "Unknown") {
            return LookupStep::Known(None);
        }
        match self.find(&key) {
            Some(genre) => {
                if let Some(name) = &genre {
                    assert(name@.len() > 0) by {
                        if name@.len() == 0 {
                            assert(name@ =~= Seq::empty());
                        }
                    }
                }
                LookupStep::Known(genre)
            },
            None => {
                let query = build_query(&key);
                LookupStep::Ask(key, query)
            },
        }
    }

    /// Takes in the answer of the database for an album, and gives its genre.
    pub fn record(&mut self, key: AlbumLookupKey, response: &ReleaseGroupSearchResponse) -> (res:
        Option<String>)
        ensures
            strings::text_opt(res) == answered_genre(response@),
            final(self)@ == old(self)@.insert(key@, answered_genre(response@)),
            res matches Some(genre) ==> genre@.len() > 0,
            are_filled(final(self)@),
    {
        proof {
            use_type_invariant(&*self);
        }
        let genre = match choose_genre(response) {
            Some(name) => {
                let spelled = normalize_genre_name(&name);
                if spelled.as_str().is_empty() {
                    None
                } else {
                    Some(spelled)
                }
            },
            None => None,
        };
        let mut cache: Vec<(AlbumLookupKey, Option<String>)> = Vec::new();
        std::mem::swap(&mut cache, &mut self.cache);
        let ghost before = cache@;
        cache.push((key, strings::clone_opt(&genre)));
        assert(cache@.drop_last() == before);
        self.cache = cache;
        genre
    }
}

/// Once the answer for an album is recorded, every track of that album gets the
/// same genre without another request, and other albums are as before.
pub proof fn law_one_request_per_album(
    known: Map<AlbumKeyView, Option<Seq<char>>>,
    track: audio::TrackView,
    other: audio::TrackView,
    groups: Seq<ReleaseGroupView>,
)
    requires
        lookup_step(known, track) is None,
    ensures
        ({
            let after = known.insert(lookup_key(track), answered_genre(groups));
            &&& lookup_key(other) == lookup_key(track) ==> lookup_step(after, other) == Some(
                answered_genre(groups),
            )
            &&& lookup_key(other) != lookup_key(track) ==> lookup_step(after, other)
                == lookup_step(known, other)
        }),
{
}

/// The genre of a track's album, where the database, if it has to be asked,
/// answers with `groups`.
pub open spec fn looked_up(
    known: Map<AlbumKeyView, Option<Seq<char>>>,
    track: audio::TrackView,
    groups: Seq<ReleaseGroupView>,
) -> Option<Seq<char>> {
    match lookup_step(known, track) {
        Some(genre) => genre,
        None => answered_genre(groups),
    }
}

/// The genres known after that of a track's album was looked up.
pub open spec fn known_after(
    known: Map<AlbumKeyView, Option<Seq<char>>>,
    track: audio::TrackView,
    groups: Seq<ReleaseGroupView>,
) -> Map<AlbumKeyView, Option<Seq<char>>> {
    if lookup_step(known, track) is None {
        known.insert(lookup_key(track), answered_genre(groups))
    } else {
        known
    }
}

/// The genres known after those of the albums of several tracks were looked up,
/// one after the other.
pub open spec fn known_after_all(
    known: Map<AlbumKeyView, Option<Seq<char>>>,
    lookups: Seq<(audio::TrackView, Seq<ReleaseGroupView>)>,
) -> Map<AlbumKeyView, Option<Seq<char>>>
    decreases lookups.len(),
{
    if lookups.len() == 0 {
        known
    } else {
        known_after(
            known_after_all(known, lookups.drop_last()),
            lookups.last().0,
            lookups.last().1,
        )
    }
}

/// A genre that was looked up, or that none was found, is remembered: whatever is
/// looked up in between, another track of the album gets the same answer without
/// a request. The answer is never empty text. For an album without a name it is
/// that there is no genre, and the database is not asked at all.
pub proof fn law_genre_is_remembered(
    known: Map<AlbumKeyView, Option<Seq<char>>>,
    first: audio::TrackView,
    groups: Seq<ReleaseGroupView>,
    between: Seq<(audio::TrackView, Seq<ReleaseGroupView>)>,
    track: audio::TrackView,
)
    requires
        are_filled(known),
        lookup_key(track) == lookup_key(first),
    ensures
        ({
            let genre = looked_up(known, first, groups);
            let after = known_after_all(known_after(known, first, groups), between);
            &&& lookup_step(after, track) == Some(genre)
            &&& are_filled(after)
            &&& genre != Some(Seq::<char>::empty())
            &&& text::normal_text(track.album, false) == "Unknown"@ ==> genre is None
                && lookup_step(known, first) is Some
        }),
    decreases between.len(),
{
    if between.len() > 0 {
        law_genre_is_remembered(known, first, groups, between.drop_last(), track);
    }
}

/// How long to wait before the next request, given the time since the last one.
pub fn rate_limit_delay(elapsed_nanos: Option<u128>) -> (res: u128)
    ensures
        match elapsed_nanos {
            Some(elapsed) => if elapsed < MIN_REQUEST_INTERVAL_NANOS {
                elapsed + res == MIN_REQUEST_INTERVAL_NANOS
            } else {
                res == 0
            },
            None => res == 0,
        },
        elapsed_nanos matches Some(elapsed) ==> elapsed + res >= 1_100_000_000 && (res > 0
            ==> elapsed + res <= 1_100_000_000),
{
    match elapsed_nanos {
        Some(elapsed) => if elapsed < MIN_REQUEST_INTERVAL_NANOS {
            MIN_REQUEST_INTERVAL_NANOS - elapsed
        } else {
            0
        },
        None => 0,
    }
}

/// A number, or zero where there is none.
pub open spec fn or_zero(number: Option<u32>) -> int {
    if number is Some {
        number.unwrap() as int
    } else {
        0
    }
}

/// A count, or zero where there is none or it is negative.
pub open spec fn at_least_zero(number: Option<i32>) -> int {
    if number is Some && number.unwrap() >= 0 {
        number.unwrap() as int
    } else {
        0
    }
}

/// Whether the score and the votes of `a` outweigh those of `b`, a point of score
/// counting for a thousand votes.
pub open spec fn outweighs(
    a: ReleaseGroupView,
    a_count: Option<i32>,
    b: ReleaseGroupView,
    b_count: Option<i32>,
) -> bool {
    or_zero(a.score) * 1000 + at_least_zero(a_count) > or_zero(b.score) * 1000 + at_least_zero(
        b_count,
    )
}

/// The genre of an answer comes from an album that no other album with a genre
/// outweighs by its score and votes; of those that none outweighs it is the first.
/// So with fewer than a thousand votes for each genre, it comes from an album of
/// the highest score. There is one as soon as any album has a genre.
pub proof fn law_best_match_decides(groups: Seq<ReleaseGroupView>)
    ensures
        match chosen_genre(groups) {
            Some(name) => exists|k: int|
                0 <= k < groups.len() && is_best_match(groups, #[trigger] group_genre(groups[k]), k)
                    && group_genre(groups[k]).unwrap().name == name,
            None => forall|i: int|
                0 <= i < groups.len() ==> #[trigger] group_genre(groups[i]) is None,
        },
{
    law_chosen_genre(groups);
    if let Some((weight, name)) = chosen(groups) {
        let k = choose|k: int|
            0 <= k < groups.len() && is_chosen(#[trigger] groups[k], weight, name)
                && is_first_of_weight(groups, k, weight);
        let genre = group_genre(groups[k]);
        assert(is_best_match(groups, genre, k)) by {
            assert forall|i: int| 0 <= i < groups.len() implies (#[trigger] group_genre(
                groups[i],
            ) matches Some(other) ==> {
                &&& !outweighs(groups[i], other.count, groups[k], genre.unwrap().count)
                &&& i < k ==> outweighs(groups[k], genre.unwrap().count, groups[i], other.count)
                &&& at_least_zero(genre.unwrap().count) < 1000 ==> or_zero(groups[i].score)
                    <= or_zero(groups[k].score)
            }) by {
                if let Some(other) = group_genre(groups[i]) {
                    assert(group_weight(groups[i], other) <= weight);
                }
            }
        }
    }
}

/// Whether the album at `k` has this genre, no other album with a genre outweighs
/// it, all that come before it are outweighed, and, if its genre has fewer than a
/// thousand votes, none has a higher score.
pub open spec fn is_best_match(
    groups: Seq<ReleaseGroupView>,
    genre: Option<GenreTagView>,
    k: int,
) -> bool {
    &&& genre is Some
    &&& forall|i: int|
        0 <= i < groups.len() ==> (#[trigger] group_genre(groups[i]) matches Some(other) ==> {
            &&& !outweighs(groups[i], other.count, groups[k], genre.unwrap().count)
            &&& i < k ==> outweighs(groups[k], genre.unwrap().count, groups[i], other.count)
            &&& at_least_zero(genre.unwrap().count) < 1000 ==> or_zero(groups[i].score) <= or_zero(
                groups[k].score,
            )
        })
}

/// Whether `tag` stands at `k`, none has more votes, none with as many has a
/// longer name, and none that follows has as many and as long a name.
pub open spec fn is_most_voted(tags: Seq<GenreTagView>, k: int, tag: GenreTagView) -> bool {
    &&& tags[k] == tag
    &&& forall|i: int|
        0 <= i < tags.len() ==> {
            let votes = at_least_zero(tag.count);
            let other = at_least_zero((#[trigger] tags[i]).count);
            let length = vstd::utf8::encode_utf8(tag.name).len();
            let other_length = vstd::utf8::encode_utf8(tags[i].name).len();
            &&& other <= votes
            &&& other == votes ==> other_length <= length
            &&& i > k && other == votes ==> other_length < length
        }
}

/// The genre of an album is the one with the most votes among its genres. Only an
/// album without genres takes it from its tags, and then from those alone that may
/// be genres.
pub proof fn law_album_genre(group: ReleaseGroupView)
    ensures
        ({
            let tags = group.tags.filter(|other: GenreTagView| is_genre_like(other.name));
            match group_genre(group) {
                Some(genre) => if group.genres.len() != 0 {
                    exists|k: int|
                        0 <= k < group.genres.len() && #[trigger] is_most_voted(
                            group.genres,
                            k,
                            genre,
                        )
                } else {
                    exists|k: int|
                        0 <= k < tags.len() && #[trigger] is_most_voted(tags, k, genre)
                },
                None => group.genres.len() == 0 && tags.len() == 0,
            }
        }),
{
    let list = genre_candidates(group);
    law_best_tag(list);
    if let Some(genre) = group_genre(group) {
        let k = choose|k: int|
            0 <= k < list.len() && #[trigger] list[k] == genre && is_last_best(list, k);
        assert forall|i: int| 0 <= i < list.len() implies {
            let votes = at_least_zero(genre.count);
            let other = at_least_zero((#[trigger] list[i]).count);
            let length = vstd::utf8::encode_utf8(genre.name).len();
            let other_length = vstd::utf8::encode_utf8(list[i].name).len();
            &&& other <= votes
            &&& other == votes ==> other_length <= length
            &&& i > k && other == votes ==> other_length < length
        } by {
            assert(is_no_worse(list[k], list[i]));
        }
        assert(is_most_voted(list, k, genre));
    }
}

/// A tag may be a genre unless it is blank or one of these, in capital or small
/// letters and with white space around it or not.
pub proof fn law_idle_tags(s: Seq<char>)
    ensures
        ({
            let word = strings::lower_text(strings::trim_both(s, CharSet::Space));
            is_genre_like(s) <==> {
                &&& word.len() > 0
                &&& word != "favorites"@ && word != "favourite"@ && word != "favorite"@
                &&& word != "seen live"@ && word != "live"@
                &&& word != "american"@ && word != "british"@
                &&& word != "male vocalists"@ && word != "female vocalists"@
                &&& word != "albums i own"@ && word != "awesome"@ && word != "my favorites"@
            }
        }),
{
    let word = strings::lower_text(strings::trim_both(s, CharSet::Space));
    let all = idle_tags();
    assert(all[0] == "favorites"@ && all[1] == "favourite"@ && all[2] == "favorite"@);
    assert(all[3] == "seen live"@ && all[4] == "live"@ && all[5] == "american"@);
    assert(all[6] == "british"@ && all[7] == "male vocalists"@);
    assert(all[8] == "female vocalists"@ && all[9] == "albums i own"@);
    assert(all[10] == "awesome"@ && all[11] == "my favorites"@);
    assert(all.len() == 12);
}

proof fn lemma_title_after_break(front: Seq<char>, b: Seq<char>)
    requires
        front.len() > 0,
        is_word_break(front.last()),
    ensures
        title_cased(front + b) == title_cased(front) + title_cased(b),
    decreases b.len(),
{
    if b.len() == 0 {
        assert(front + b =~= front);
        assert(title_cased(front) + title_cased(b) =~= title_cased(front));
    } else {
        let rest = b.drop_last();
        let all = front + b;
        lemma_title_after_break(front, rest);
        assert(all.drop_last() =~= front + rest);
        assert(all.last() == b.last());
        if b.len() > 1 {
            assert(all[all.len() - 2] == b[b.len() - 2]);
        } else {
            assert(all[all.len() - 2] == front.last());
        }
        assert(title_cased(all) =~= title_cased(front) + title_cased(b));
    }
}

/// A new word begins behind white space, a hyphen and a slash. Its first letter is
/// put in upper case and all others in lower case.
pub proof fn law_title_case(a: Seq<char>, c: char, b: Seq<char>)
    ensures
        c == '/' || c == '-' || chars::is_space_char(c) ==> title_cased(a + seq![c] + b)
            == title_cased(a) + seq![c] + title_cased(b),
        !(c == '/' || c == '-' || chars::is_space_char(c)) ==> title_cased(seq![c])
            == chars::char_uppercase(c),
        !(c == '/' || c == '-' || chars::is_space_char(c)) && a.len() > 0 && !(chars::is_space_char(
            a.last(),
        ) || a.last() == '-' || a.last() == '/') ==> title_cased(a + seq![c]) == title_cased(a)
            + chars::char_lowercase(c),
{
    let front = a + seq![c];
    assert(front.drop_last() =~= a);
    assert(front.last() == c);
    if is_word_break(c) {
        lemma_title_after_break(front, b);
        assert(title_cased(front) =~= title_cased(a) + seq![c]);
    } else {
        let one = seq![c];
        assert(one.drop_last() =~= Seq::empty());
        assert(title_cased(one.drop_last()) =~= Seq::empty());
        assert(title_cased(one) =~= chars::char_uppercase(c));
        if a.len() > 0 {
            assert(front[front.len() - 2] == a.last());
        }
    }
}

/// Some genres have a spelling of their own, whatever letters they come in; a name
/// that is missing stays so; all others are spelled as titles.
pub proof fn law_genre_spelling(s: Seq<char>)
    ensures
        ({
            let plain = text::normal_text(s, false);
            let small = strings::lower_text(plain);
            &&& plain == "Unknown"@ ==> genre_name(s).len() == 0
            &&& plain != "Unknown"@ ==> {
                &&& small == "hip hop"@ ==> genre_name(s) == "Hip Hop"@
                &&& small == "r&b"@ ==> genre_name(s) == "R&B"@
                &&& small == "drum and bass"@ ==> genre_name(s) == "Drum and Bass"@
                &&& small == "idm"@ ==> genre_name(s) == "IDM"@
                &&& small != "hip hop"@ && small != "r&b"@ && small != "drum and bass"@ && small
                    != "idm"@ ==> genre_name(s) == title_cased(plain)
            }
        }),
{
    reveal_strlit("hip hop");
    reveal_strlit("r&b");
    reveal_strlit("drum and bass");
    reveal_strlit("idm");
    assert("hip hop"@.len() == 7 && "r&b"@.len() == 3 && "drum and bass"@.len() == 13
        && "idm"@.len() == 3);
    assert("r&b"@[0] == 'r' && "idm"@[0] == 'i');
}

/// The genre remembered for an album is the one chosen from the answer, in its
/// spelling; none, if that is empty.
pub proof fn law_answered_genre(groups: Seq<ReleaseGroupView>)
    ensures
        chosen_genre(groups) is None ==> answered_genre(groups) is None,
        chosen_genre(groups) matches Some(name) ==> {
            &&& genre_name(name).len() == 0 ==> answered_genre(groups) is None
            &&& genre_name(name).len() > 0 ==> answered_genre(groups) == Some(genre_name(name))
        },
{
}

/// An album is looked up under the one name of its first artist and its own name,
/// both in normal form, and is asked for unless it has no name or is known.
pub proof fn law_lookup_names(
    known: Map<AlbumKeyView, Option<Seq<char>>>,
    track: audio::TrackView,
)
    ensures
        lookup_key(track).artist == text::normal_text(text::artist_name(track.albumartist), false),
        lookup_key(track).album == text::normal_text(track.album, false),
        lookup_step(known, track) is None <==> lookup_key(track).album != "Unknown"@
            && !known.contains_key(lookup_key(track)),
{
}

/// The query names the album and the artist, each quoted and escaped.
pub proof fn law_album_query(key: AlbumKeyView)
    ensures
        album_query(key) == "releasegroup:\""@ + escaped(key.album) + "\" AND artist:\""@ + escaped(
            key.artist,
        ) + "\""@,
{
}

} // verus!
