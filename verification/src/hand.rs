//! A player's hand of letter tiles.

use crate::board::is_game_letter;
use vstd::prelude::*;

verus! {

/// Most tiles a hand can hold at once.
pub const HAND_CAPACITY: usize = 7;

/// How many times `ch` occurs in `s`.
pub open spec fn letter_count(s: Seq<char>, ch: char) -> nat
    decreases s.len(),
{
    if s.len() == 0 {
        0
    } else {
        letter_count(s.drop_last(), ch) + (if s.last() == ch {
            1nat
        } else {
            0nat
        })
    }
}

/// Removing one element lowers its letter's count by one and no other.
pub proof fn lemma_count_remove(s: Seq<char>, i: int, ch: char)
    requires
        0 <= i < s.len(),
    ensures
        letter_count(s.remove(i), ch) + (if s[i] == ch {
            1nat
        } else {
            0nat
        }) == letter_count(s, ch),
    decreases s.len(),
{
    if i == s.len() - 1 {
        assert(s.remove(i) =~= s.drop_last());
    } else {
        assert(s.remove(i).drop_last() =~= s.drop_last().remove(i));
        lemma_count_remove(s.drop_last(), i, ch);
        assert(s.remove(i).last() == s.last());
    }
}

/// Appending one element raises its letter's count by one and no other.
pub proof fn lemma_count_push(s: Seq<char>, a: char, ch: char)
    ensures
        letter_count(s.push(a), ch) == letter_count(s, ch) + (if a == ch {
            1nat
        } else {
            0nat
        }),
{
    assert(s.push(a).drop_last() =~= s);
    assert(s.push(a).last() == a);
}

/// A letter occurring nowhere has count zero.
pub proof fn lemma_count_absent(s: Seq<char>, ch: char)
    requires
        forall|i: int| 0 <= i < s.len() ==> s[i] != ch,
    ensures
        letter_count(s, ch) == 0,
    decreases s.len(),
{
    if s.len() > 0 {
        lemma_count_absent(s.drop_last(), ch);
    }
}

/// Counts only grow along prefixes.
pub proof fn lemma_count_take_mono(s: Seq<char>, ch: char, k: int)
    requires
        0 <= k <= s.len(),
    ensures
        letter_count(s.take(k), ch) <= letter_count(s, ch),
    decreases s.len() - k,
{
    if k < s.len() {
        assert(s.take(k + 1).drop_last() =~= s.take(k));
        assert(s.take(k + 1).last() == s[k]);
        lemma_count_take_mono(s, ch, k + 1);
    } else {
        assert(s.take(k) =~= s);
    }
}

/// A positive count names an occurrence.
pub proof fn lemma_count_pos(s: Seq<char>, ch: char)
    requires
        letter_count(s, ch) > 0,
    ensures
        exists|i: int| 0 <= i < s.len() && s[i] == ch,
    decreases s.len(),
{
    if s.len() > 0 {
        if s.last() == ch {
            assert(s[s.len() - 1] == ch);
        } else {
            lemma_count_pos(s.drop_last(), ch);
            let i = choose|i: int| 0 <= i < s.drop_last().len() && s.drop_last()[i] == ch;
            assert(s[i] == ch);
        }
    }
}

/// Every element's letter has a positive count.
pub proof fn lemma_count_of_elem(s: Seq<char>, i: int)
    requires
        0 <= i < s.len(),
    ensures
        letter_count(s, s[i]) > 0,
    decreases s.len(),
{
    if i == s.len() - 1 {
        assert(s.last() == s[i]);
    } else {
        lemma_count_of_elem(s.drop_last(), i);
        assert(s.drop_last()[i] == s[i]);
    }
}

/// If one sequence's letter counts all fit under another's, it is no
/// longer.
pub proof fn lemma_len_le(s1: Seq<char>, s2: Seq<char>)
    requires
        forall|ch: char| #[trigger] letter_count(s1, ch) <= letter_count(s2, ch),
    ensures
        s1.len() <= s2.len(),
    decreases s1.len(),
{
    if s1.len() > 0 {
        let c = s1.last();
        lemma_count_of_elem(s1, s1.len() - 1);
        assert(letter_count(s2, c) > 0);
        lemma_count_pos(s2, c);
        let j = choose|j: int| 0 <= j < s2.len() && s2[j] == c;
        let s1p = s1.drop_last();
        let s2p = s2.remove(j);
        assert forall|ch: char| #[trigger] letter_count(s1p, ch) <= letter_count(s2p, ch) by {
            assert(letter_count(s1, ch) <= letter_count(s2, ch));
            lemma_count_remove(s2, j, ch);
            assert(letter_count(s1, ch) == letter_count(s1p, ch) + (if c == ch {
                1nat
            } else {
                0nat
            }));
        }
        lemma_len_le(s1p, s2p);
    }
}

/// The multiset of letters one player holds, bounded by `HAND_CAPACITY`.
/// Letters leave when a committed placement consumes them; letters drawn
/// from the (external) tile source enter through `draw`.
pub struct Hand {
    letters: Vec<char>,
}

impl View for Hand {
    type V = Seq<char>;

    closed spec fn view(&self) -> Seq<char> {
        self.letters@
    }
}

impl Hand {
    /// Structural invariant: within capacity, game letters only.
    pub open spec fn wf(&self) -> bool {
        &&& self@.len() <= HAND_CAPACITY
        &&& forall|i: int| 0 <= i < self@.len() ==> is_game_letter(#[trigger] self@[i])
    }

    /// A hand holding exactly `letters`.
    pub fn new(letters: Vec<char>) -> (r: Hand)
        requires
            letters@.len() <= HAND_CAPACITY,
            forall|i: int| 0 <= i < letters@.len() ==> is_game_letter(#[trigger] letters@[i]),
        ensures
            r.wf(),
            r@ == letters@,
    {
        Hand { letters }
    }

    /// How many tiles the hand holds.
    pub fn len(&self) -> (r: usize)
        ensures
            r == self@.len(),
    {
        self.letters.len()
    }

    /// The letters currently held, in order.
    pub fn letters(&self) -> (r: &Vec<char>)
        ensures
            r@ == self@,
    {
        &self.letters
    }

    /// Add one drawn tile; fails (returning false) only when the hand is
    /// already at capacity.
    pub fn draw(&mut self, letter: char) -> (r: bool)
        requires
            old(self).wf(),
            is_game_letter(letter),
        ensures
            final(self).wf(),
            r == (old(self)@.len() < HAND_CAPACITY),
            r ==> final(self)@ == old(self)@.push(letter),
            !r ==> final(self)@ == old(self)@,
    {
        if self.letters.len() < HAND_CAPACITY {
            self.letters.push(letter);
            true
        } else {
            false
        }
    }

    /// The hand left once `needed` is consumed, or `None` when some
    /// needed letter is missing, counting multiplicity.
    pub fn remove_letters(&self, needed: &Vec<char>) -> (r: Option<Hand>)
        requires
            self.wf(),
        ensures
            r is Some <==> forall|ch: char|
                letter_count(needed@, ch) <= letter_count(self@, ch),
            r matches Some(h) ==> h.wf() && forall|ch: char|
                #[trigger] letter_count(h@, ch) + letter_count(needed@, ch) == letter_count(
                    self@,
                    ch,
                ),
    {
        let mut rest: Vec<char> = Vec::new();
        let mut i: usize = 0;
        while i < self.letters.len()
            invariant
                i <= self@.len(),
                rest@ =~= self@.take(i as int),
            decreases self@.len() - i,
        {
            rest.push(self.letters[i]);
            i = i + 1;
        }
        proof {
            assert(rest@ =~= self@);
        }
        let mut k: usize = 0;
        while k < needed.len()
            invariant
                self.wf(),
                k <= needed@.len(),
                rest@.len() + needed@.take(k as int).len() == self@.len(),
                forall|idx: int| 0 <= idx < rest@.len() ==> is_game_letter(#[trigger] rest@[idx]),
                forall|ch: char|
                    #[trigger] letter_count(rest@, ch) + letter_count(
                        needed@.take(k as int),
                        ch,
                    ) == letter_count(self@, ch),
            decreases needed@.len() - k,
        {
            let target = needed[k];
            let mut j: usize = 0;
            let mut found = false;
            while j < rest.len() && !found
                invariant
                    j <= rest@.len(),
                    !found ==> forall|idx: int| 0 <= idx < j ==> rest@[idx] != target,
                    found ==> j < rest@.len() && rest@[j as int] == target,
                decreases rest@.len() - j + (if found {
                    0int
                } else {
                    1int
                }),
            {
                if rest[j] == target {
                    found = true;
                } else {
                    j = j + 1;
                }
            }
            if !found {
                proof {
                    lemma_count_absent(rest@, target);
                    assert(needed@.take(k as int + 1).drop_last() =~= needed@.take(k as int));
                    assert(needed@.take(k as int + 1).last() == target);
                    lemma_count_take_mono(needed@, target, k as int + 1);
                    assert(letter_count(needed@, target) > letter_count(self@, target));
                }
                return None;
            }
            let ghost rest0 = rest@;
            rest.remove(j);
            proof {
                assert forall|ch: char|
                    #[trigger] letter_count(rest@, ch) + letter_count(
                        needed@.take(k as int + 1),
                        ch,
                    ) == letter_count(self@, ch) by {
                    lemma_count_remove(rest0, j as int, ch);
                    assert(needed@.take(k as int + 1).drop_last() =~= needed@.take(k as int));
                    lemma_count_push(needed@.take(k as int), target, ch);
                    assert(needed@.take(k as int + 1) =~= needed@.take(k as int).push(target));
                }
            }
            k = k + 1;
        }
        proof {
            assert(needed@.take(needed@.len() as int) =~= needed@);
        }
        let h = Hand { letters: rest };
        proof {
            assert forall|ch: char|
                letter_count(needed@, ch) <= letter_count(self@, ch) by {
                assert(letter_count(h@, ch) + letter_count(needed@, ch) == letter_count(
                    self@,
                    ch,
                ));
            }
        }
        Some(h)
    }
}

} // verus!
