//! The dictionary: an immutable set of valid words.
//!
//! Loaded once at startup from an external word-list source (the reading
//! itself happens outside this core), then queried read-only for the
//! lifetime of the process. Matching is exact on the stored casing.

use vstd::prelude::*;

verus! {

/// Element-wise equality of two character vectors.
fn chars_equal(a: &Vec<char>, b: &Vec<char>) -> (r: bool)
    ensures
        r == (a@ == b@),
{
    if a.len() != b.len() {
        return false;
    }
    let mut i: usize = 0;
    while i < a.len()
        invariant
            i <= a@.len(),
            a@.len() == b@.len(),
            forall|k: int| 0 <= k < i ==> a@[k] == b@[k],
        decreases a@.len() - i,
    {
        if a[i] != b[i] {
            return false;
        }
        i = i + 1;
    }
    proof {
        assert(a@ =~= b@);
    }
    true
}

/// An immutable word-membership oracle over a vocabulary.
pub struct Dictionary {
    words: Vec<Vec<char>>,
}

impl Dictionary {
    /// Whether `w` belongs to the vocabulary.
    pub closed spec fn spec_contains(&self, w: Seq<char>) -> bool {
        exists|i: int| 0 <= i < self.words@.len() && #[trigger] self.words@[i]@ == w
    }

    /// Build the dictionary from a word list. Duplicate entries collapse
    /// silently: membership is the only observable.
    pub fn new(words: Vec<Vec<char>>) -> (r: Dictionary)
        ensures
            forall|w: Seq<char>|
                r.spec_contains(w) <==> exists|i: int|
                    0 <= i < words@.len() && #[trigger] words@[i]@ == w,
    {
        let r = Dictionary { words };
        proof {
            assert forall|w: Seq<char>|
                r.spec_contains(w) <==> exists|i: int|
                    0 <= i < words@.len() && #[trigger] words@[i]@ == w by {
                if r.spec_contains(w) {
                    let i = choose|i: int|
                        0 <= i < r.words@.len() && #[trigger] r.words@[i]@ == w;
                    assert(words@[i]@ == w);
                }
                if exists|i: int| 0 <= i < words@.len() && #[trigger] words@[i]@ == w {
                    let i = choose|i: int| 0 <= i < words@.len() && #[trigger] words@[i]@ == w;
                    assert(r.words@[i]@ == w);
                }
            }
        }
        r
    }

    /// Exact-match membership query.
    pub fn contains(&self, word: &Vec<char>) -> (r: bool)
        ensures
            r == self.spec_contains(word@),
    {
        let mut i: usize = 0;
        while i < self.words.len()
            invariant
                i <= self.words@.len(),
                forall|k: int| 0 <= k < i ==> #[trigger] self.words@[k]@ != word@,
            decreases self.words@.len() - i,
        {
            if chars_equal(&self.words[i], word) {
                return true;
            }
            i = i + 1;
        }
        false
    }
}

} // verus!
