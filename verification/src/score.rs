//! The scorer: point value of the formed words under the board's
//! position-dependent multipliers.
//!
//! Letter values come from a configuration table external to this core
//! (a letter absent from the table is worth one point). A multiplier
//! applies only when the move itself first covers its bonus cell: cells
//! covered on earlier turns keep their tag but no longer trigger it.

use crate::board::Board;
use crate::board::Multiplier;
use crate::connect::Tile;
use crate::connect::covers;
use crate::connect::tile_coord;
use vstd::prelude::*;

verus! {

/// The configured value of `ch`: the first matching table entry, or one
/// for a letter the table does not name.
pub open spec fn letter_value(vals: Seq<(char, u16)>, ch: char) -> int
    decreases vals.len(),
{
    if vals.len() == 0 {
        1
    } else if vals[0].0 == ch {
        vals[0].1 as int
    } else {
        letter_value(vals.drop_first(), ch)
    }
}

/// The letter multiplier acting at `c` this move: two or three on a
/// letter-bonus cell first covered by the move, one otherwise.
pub open spec fn letter_factor(b: &Board, p: Seq<Tile>, c: (int, int)) -> int {
    if covers(p, c) {
        match b.spec_cell(c.0, c.1).bonus {
            Some(Multiplier::DoubleLetter) => 2,
            Some(Multiplier::TripleLetter) => 3,
            _ => 1,
        }
    } else {
        1
    }
}

/// The word multiplier contributed at `c` this move: two or three on a
/// word-bonus cell first covered by the move, one otherwise.
pub open spec fn word_factor_at(b: &Board, p: Seq<Tile>, c: (int, int)) -> int {
    if covers(p, c) {
        match b.spec_cell(c.0, c.1).bonus {
            Some(Multiplier::DoubleWord) => 2,
            Some(Multiplier::TripleWord) => 3,
            _ => 1,
        }
    } else {
        1
    }
}

/// Sum of the first `n` letters' values, each scaled by its cell's
/// letter factor.
pub open spec fn word_base(b: &Board, p: Seq<Tile>, vals: Seq<(char, u16)>, w: Seq<Tile>, n: int) -> int
    decreases n when 0 <= n
{
    if n <= 0 {
        0
    } else {
        word_base(b, p, vals, w, n - 1) + letter_value(vals, w[n - 1].2) * letter_factor(
            b,
            p,
            tile_coord(w[n - 1]),
        )
    }
}

/// Product of the word factors of the first `n` cells.
pub open spec fn word_factor(b: &Board, p: Seq<Tile>, w: Seq<Tile>, n: int) -> int
    decreases n when 0 <= n
{
    if n <= 0 {
        1
    } else {
        word_factor(b, p, w, n - 1) * word_factor_at(b, p, tile_coord(w[n - 1]))
    }
}

/// The score of one formed word: its letter sum times its word factors.
pub open spec fn word_score(b: &Board, p: Seq<Tile>, vals: Seq<(char, u16)>, w: Seq<Tile>) -> int {
    word_base(b, p, vals, w, w.len() as int) * word_factor(b, p, w, w.len() as int)
}

/// Sum of the scores of the first `n` words.
pub open spec fn score_upto(
    b: &Board,
    p: Seq<Tile>,
    vals: Seq<(char, u16)>,
    ws: Seq<Vec<Tile>>,
    n: int,
) -> int
    decreases n when 0 <= n
{
    if n <= 0 {
        0
    } else {
        score_upto(b, p, vals, ws, n - 1) + word_score(b, p, vals, ws[n - 1]@)
    }
}

/// The move's total score across all its formed words.
pub open spec fn spec_move_score(
    b: &Board,
    p: Seq<Tile>,
    vals: Seq<(char, u16)>,
    ws: Seq<Vec<Tile>>,
) -> int {
    score_upto(b, p, vals, ws, ws.len() as int)
}

/// Powers of three, for bounding multiplier products.
pub open spec fn pow3(n: nat) -> nat
    decreases n,
{
    if n == 0 {
        1
    } else {
        3 * pow3((n - 1) as nat)
    }
}

proof fn lemma_letter_value_bounds(vals: Seq<(char, u16)>, ch: char)
    ensures
        0 <= letter_value(vals, ch) <= 65535,
    decreases vals.len(),
{
    if vals.len() > 0 && vals[0].0 != ch {
        lemma_letter_value_bounds(vals.drop_first(), ch);
    }
}

proof fn lemma_word_base_bounds(b: &Board, p: Seq<Tile>, vals: Seq<(char, u16)>, w: Seq<Tile>, n: int)
    requires
        0 <= n,
    ensures
        0 <= word_base(b, p, vals, w, n) <= n * 196605,
    decreases n,
{
    if n > 0 {
        lemma_word_base_bounds(b, p, vals, w, n - 1);
        lemma_letter_value_bounds(vals, w[n - 1].2);
        let v = letter_value(vals, w[n - 1].2);
        let f = letter_factor(b, p, tile_coord(w[n - 1]));
        assert(1 <= f <= 3);
        assert(0 <= v * f <= 196605) by (nonlinear_arith)
            requires
                0 <= v <= 65535,
                1 <= f <= 3,
        ;
    }
}

proof fn lemma_word_factor_bounds(b: &Board, p: Seq<Tile>, w: Seq<Tile>, n: int)
    requires
        0 <= n,
    ensures
        1 <= word_factor(b, p, w, n) <= pow3(n as nat),
    decreases n,
{
    if n > 0 {
        lemma_word_factor_bounds(b, p, w, n - 1);
        let g = word_factor(b, p, w, n - 1);
        let f = word_factor_at(b, p, tile_coord(w[n - 1]));
        assert(1 <= f <= 3);
        assert(pow3(n as nat) == 3 * pow3((n - 1) as nat));
        assert(g * 1 <= g * f <= g * 3) by (nonlinear_arith)
            requires
                1 <= g,
                1 <= f <= 3,
        ;
    }
}

proof fn lemma_pow3_mono(m: nat, n: nat)
    requires
        m <= n,
    ensures
        pow3(m) <= pow3(n),
    decreases n,
{
    if m < n {
        lemma_pow3_mono(m, (n - 1) as nat);
    }
}

/// The configured value of one letter.
fn value_of(values: &Vec<(char, u16)>, ch: char) -> (r: u16)
    ensures
        r as int == letter_value(values@, ch),
{
    proof {
        assert(values@.skip(0) =~= values@);
    }
    let mut i: usize = 0;
    while i < values.len()
        invariant
            i <= values@.len(),
            letter_value(values@.skip(i as int), ch) == letter_value(values@, ch),
        decreases values@.len() - i,
    {
        proof {
            assert(values@.skip(i as int)[0] == values@[i as int]);
            assert(values@.skip(i as int).drop_first() =~= values@.skip(i as int + 1));
        }
        if values[i].0 == ch {
            return values[i].1;
        }
        i = i + 1;
    }
    proof {
        assert(values@.skip(values@.len() as int).len() == 0);
    }
    1
}

/// The letter factor acting at the in-bounds cell `(x, y)` this move.
fn letter_factor_at(b: &Board, p: &Vec<Tile>, x: usize, y: usize) -> (r: u64)
    requires
        b.wf(),
        b.spec_in_bounds((x as int, y as int)),
    ensures
        r as int == letter_factor(b, p@, (x as int, y as int)),
        1 <= r <= 3,
{
    if crate::connect::covered_by(p, x, y) {
        match b.cell_at(x, y) {
            Ok(c) => match c.bonus {
                Some(Multiplier::DoubleLetter) => 2,
                Some(Multiplier::TripleLetter) => 3,
                _ => 1,
            },
            Err(e) => {
                proof {
                    assert(false);
                }
                1
            },
        }
    } else {
        1
    }
}

/// The word factor contributed at the in-bounds cell `(x, y)` this move.
fn word_factor_at_cell(b: &Board, p: &Vec<Tile>, x: usize, y: usize) -> (r: u64)
    requires
        b.wf(),
        b.spec_in_bounds((x as int, y as int)),
    ensures
        r as int == word_factor_at(b, p@, (x as int, y as int)),
        1 <= r <= 3,
{
    if crate::connect::covered_by(p, x, y) {
        match b.cell_at(x, y) {
            Ok(c) => match c.bonus {
                Some(Multiplier::DoubleWord) => 2,
                Some(Multiplier::TripleWord) => 3,
                _ => 1,
            },
            Err(e) => {
                proof {
                    assert(false);
                }
                1
            },
        }
    } else {
        1
    }
}

/// Total score of a move: for each formed word, the sum of its letter
/// values (letter bonuses applied on cells the move first covers) times
/// the product of the word bonuses the move first covers, summed over
/// the words.
///
/// The size bounds are overflow limits; every word list the validator
/// produces satisfies them.
pub fn score_move(
    b: &Board,
    p: &Vec<Tile>,
    words: &Vec<Vec<Tile>>,
    values: &Vec<(char, u16)>,
) -> (r: u64)
    requires
        b.wf(),
        words@.len() <= 16,
        forall|k: int| 0 <= k < words@.len() ==> (#[trigger] words@[k])@.len() <= 15,
        forall|k: int, j: int| #![trigger words@[k]@[j]]
            0 <= k < words@.len() && 0 <= j < words@[k]@.len() ==> b.spec_in_bounds(
                tile_coord(words@[k]@[j]),
            ),
    ensures
        r as int == spec_move_score(b, p@, values@, words@),
{
    let mut total: u64 = 0;
    let mut k: usize = 0;
    while k < words.len()
        invariant
            b.wf(),
            words@.len() <= 16,
            forall|k2: int| 0 <= k2 < words@.len() ==> (#[trigger] words@[k2])@.len() <= 15,
            forall|k2: int, j: int| #![trigger words@[k2]@[j]]
                0 <= k2 < words@.len() && 0 <= j < words@[k2]@.len() ==> b.spec_in_bounds(
                    tile_coord(words@[k2]@[j]),
                ),
            k <= words@.len(),
            total as int == score_upto(b, p@, values@, words@, k as int),
            total <= k * 42316002911025,
        decreases words@.len() - k,
    {
        let w = &words[k];
        let mut base: u64 = 0;
        let mut factor: u64 = 1;
        let mut j: usize = 0;
        while j < w.len()
            invariant
                b.wf(),
                w@.len() <= 15,
                forall|j2: int|
                    0 <= j2 < w@.len() ==> b.spec_in_bounds(tile_coord(#[trigger] w@[j2])),
                j <= w@.len(),
                base as int == word_base(b, p@, values@, w@, j as int),
                base <= j * 196605,
                factor as int == word_factor(b, p@, w@, j as int),
                1 <= factor,
                factor as int <= pow3(j as nat),
            decreases w@.len() - j,
        {
            let t = w[j];
            let v = value_of(values, t.2);
            let lf = letter_factor_at(b, p, t.0, t.1);
            let wf = word_factor_at_cell(b, p, t.0, t.1);
            proof {
                lemma_letter_value_bounds(values@, t.2);
                assert((v as int) * (lf as int) <= 196605) by (nonlinear_arith)
                    requires
                        0 <= v as int <= 65535,
                        1 <= lf as int <= 3,
                ;
                lemma_pow3_mono(j as nat + 1, 15);
                reveal_with_fuel(pow3, 16);
                assert(pow3(15) == 14348907);
                assert(pow3(j as nat + 1) == 3 * pow3(j as nat));
                assert((factor as int) * (wf as int) <= pow3(j as nat + 1)) by (nonlinear_arith)
                    requires
                        1 <= factor as int <= pow3(j as nat),
                        1 <= wf as int <= 3,
                        pow3(j as nat + 1) == 3 * pow3(j as nat),
                ;
                assert(1 <= (factor as int) * (wf as int)) by (nonlinear_arith)
                    requires
                        1 <= factor as int,
                        1 <= wf as int,
                ;
            }
            base = base + v as u64 * lf;
            factor = factor * wf;
            j = j + 1;
        }
        proof {
            assert(base <= 2949075);
            lemma_pow3_mono(w@.len() as nat, 15);
            reveal_with_fuel(pow3, 16);
            assert(pow3(15) == 14348907);
            assert(factor as int <= 14348907);
            assert((base as int) * (factor as int) <= 42316002911025) by (nonlinear_arith)
                requires
                    0 <= base as int <= 2949075,
                    1 <= factor as int <= 14348907,
            ;
            assert(0 <= (base as int) * (factor as int)) by (nonlinear_arith)
                requires
                    0 <= base as int,
                    1 <= factor as int,
            ;
            assert((base as int) * (factor as int) == word_score(b, p@, values@, w@));
        }
        total = total + base * factor;
        k = k + 1;
    }
    total
}

} // verus!
