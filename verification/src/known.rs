//! What is known of which files exist.

use vstd::prelude::*;

use crate::path;
use crate::path::FilePath;

verus! {

/// Answers to the question whether a file exists, as far as they are known.
pub struct KnownFiles {
    answers: Vec<(FilePath, bool)>,
}

spec fn answered(answers: Seq<(FilePath, bool)>) -> Map<Seq<path::PartView>, bool>
    decreases answers.len(),
{
    if answers.len() == 0 {
        Map::empty()
    } else {
        answered(answers.drop_last()).insert(answers.last().0@, answers.last().1)
    }
}

impl View for KnownFiles {
    type V = Map<Seq<path::PartView>, bool>;

    closed spec fn view(&self) -> Map<Seq<path::PartView>, bool> {
        answered(self.answers@)
    }
}

impl KnownFiles {
    /// Nothing is known.
    pub fn new() -> (res: KnownFiles)
        ensures
            res@ == Map::<Seq<path::PartView>, bool>::empty(),
    {
        KnownFiles { answers: Vec::new() }
    }

    /// Takes in whether a file exists.
    pub fn record(&mut self, path: FilePath, present: bool)
        ensures
            final(self)@ == old(self)@.insert(path@, present),
    {
        let ghost before = self.answers@;
        self.answers.push((path, present));
        assert(self.answers@.drop_last() == before);
    }

    /// Whether a file exists, if that is known.
    pub fn is_present(&self, path: &FilePath) -> (res: Option<bool>)
        ensures
            match res {
                Some(present) => self@.contains_key(path@) && self@[path@] == present,
                None => !self@.contains_key(path@),
            },
    {
        let mut end = self.answers.len();
        assert(self.answers@.take(end as int) == self.answers@);
        while end > 0
            invariant
                end <= self.answers.len(),
                self@.contains_key(path@) == answered(
                    self.answers@.take(end as int),
                ).contains_key(path@),
                self@.contains_key(path@) ==> self@[path@] == answered(
                    self.answers@.take(end as int),
                )[path@],
            decreases end,
        {
            let entry = &self.answers[end - 1];
            proof {
                let upto = self.answers@.take(end as int);
                assert(upto.drop_last() == self.answers@.take(end - 1));
                assert(upto.last() == entry);
            }
            if entry.0.is_same(path) {
                return Some(entry.1);
            }
            end = end - 1;
        }
        None
    }
}

} // verus!
