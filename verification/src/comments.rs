//! The comment block of a FLAC file: text values filed under keys.

use metaflac::block::VorbisComment;
use vstd::prelude::*;

use crate::strings;

verus! {

/// The comment block of the `metaflac` crate, taken as opaque.
#[verifier::external_type_specification]
#[verifier::external_body]
pub struct ExVorbisComment(metaflac::block::VorbisComment);

/// The values that a comment block files under each key.
pub uninterp spec fn comment_values(
    comments: metaflac::block::VorbisComment,
) -> Map<Seq<char>, Seq<Seq<char>>>;

/// The values of an optional block; a missing block files nothing.
pub open spec fn block_values(
    comments: Option<&metaflac::block::VorbisComment>,
) -> Map<Seq<char>, Seq<Seq<char>>> {
    match comments {
        Some(comments) => comment_values(*comments),
        None => Map::empty(),
    }
}

/// `VorbisComment::get` of `metaflac`: the values filed under `key`, or none if
/// nothing is filed under it.
#[verifier::external_body]
pub(crate) fn comment_list<'a>(comments: &'a VorbisComment, key: &str) -> (res: Option<
    &'a Vec<String>,
>)
    ensures
        match res {
            Some(values) => comment_values(*comments).contains_key(key@) && comment_values(
                *comments,
            )[key@] == strings::text_views(values@),
            None => !comment_values(*comments).contains_key(key@),
        },
{
    comments.get(key)
}

/// `VorbisComment::remove` of `metaflac`: drops `key` and its values, and
/// nothing else.
#[verifier::external_body]
pub(crate) fn comment_remove(comments: &mut VorbisComment, key: &str)
    ensures
        comment_values(*final(comments)) == comment_values(*old(comments)).remove(key@),
{
    comments.remove(key)
}

/// `VorbisComment::set` of `metaflac`: files exactly `values` under `key` and
/// leaves the other keys alone.
#[verifier::external_body]
pub(crate) fn comment_set(comments: &mut VorbisComment, key: String, values: Vec<String>)
    ensures
        comment_values(*final(comments)) == comment_values(*old(comments)).insert(
            key@,
            strings::text_views(values@),
        ),
{
    comments.set(key, values)
}

/// The public map `comments` of `VorbisComment` of `metaflac`, copied out entry
/// by entry: each key once, with its values. The order of the entries is that of
/// a hash map and is not stated.
#[verifier::external_body]
pub(crate) fn comment_entries(comments: &VorbisComment) -> (res: Vec<(String, Vec<String>)>)
    ensures
        forall|i: int|
            0 <= i < res.len() ==> comment_values(*comments).contains_key(
                (#[trigger] res@[i]).0@,
            ) && comment_values(*comments)[res@[i].0@] == strings::text_views(res@[i].1@),
        forall|i: int, j: int|
            0 <= i < j < res.len() ==> (#[trigger] res@[i]).0@ != (#[trigger] res@[j]).0@,
        forall|key: Seq<char>| #[trigger]
            comment_values(*comments).contains_key(key) ==> exists|i: int|
                0 <= i < res.len() && (#[trigger] res@[i]).0@ == key,
{
    comments.comments.iter().map(|entry| (entry.0.clone(), entry.1.clone())).collect()
}

} // verus!
