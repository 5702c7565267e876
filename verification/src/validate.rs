//! The move validator: decides whether a candidate placement is legal
//! against the current board and hand, and extracts the words it forms.
//!
//! Checks run in order, stopping at the first failure: bounds and
//! occupancy, hand letters, single contiguous line, center cover (first
//! move) or adjacency to the cluster, global connectivity, then
//! dictionary membership of every formed word.

use crate::board::Board;
use crate::connect::Tile;
use crate::connect::covers;
use crate::connect::occ;
use crate::connect::tile_coord;
use crate::connect::tiles_connected;
use crate::connect::touches_any_tile;
use crate::dict::Dictionary;
use crate::error::MoveError;
use crate::hand::Hand;
use crate::hand::letter_count;
use crate::words::all_words_match;
use crate::words::distinct_tiles;
use crate::words::extract_words;
use crate::words::formed_words;
use crate::words::is_same_col;
use crate::words::is_same_row;
use crate::words::letters_of;
use crate::words::same_col;
use crate::words::same_row;
use crate::words::word_letters;
use vstd::prelude::*;

verus! {

/// Candidate `i` names an in-bounds, currently empty cell that no
/// earlier candidate already claims.
pub open spec fn tile_fresh(b: &Board, p: Seq<Tile>, i: int) -> bool {
    &&& b.spec_in_bounds(tile_coord(p[i]))
    &&& !b.placed_at(tile_coord(p[i]))
    &&& forall|j: int| 0 <= j < i ==> tile_coord(#[trigger] p[j]) != tile_coord(p[i])
}

/// Every candidate is fresh (bounds, occupancy, no duplicates).
pub open spec fn tiles_fresh(b: &Board, p: Seq<Tile>) -> bool {
    forall|i: int| 0 <= i < p.len() ==> #[trigger] tile_fresh(b, p, i)
}

/// The first `n` candidates are fresh.
pub open spec fn fresh_upto(b: &Board, p: Seq<Tile>, n: int) -> bool {
    forall|j: int| 0 <= j < n ==> #[trigger] tile_fresh(b, p, j)
}

/// The hand holds every candidate letter, counting multiplicity.
pub open spec fn letters_available(hand: Seq<char>, p: Seq<Tile>) -> bool {
    forall|ch: char| #[trigger] letter_count(letters_of(p), ch) <= letter_count(hand, ch)
}

/// Smallest candidate column.
pub open spec fn min_x(p: Seq<Tile>) -> int
    decreases p.len() when p.len() > 0
{
    if p.len() == 1 {
        p[0].0 as int
    } else {
        let m = min_x(p.drop_last());
        if (p.last().0 as int) < m {
            p.last().0 as int
        } else {
            m
        }
    }
}

/// Largest candidate column.
pub open spec fn max_x(p: Seq<Tile>) -> int
    decreases p.len() when p.len() > 0
{
    if p.len() == 1 {
        p[0].0 as int
    } else {
        let m = max_x(p.drop_last());
        if (p.last().0 as int) > m {
            p.last().0 as int
        } else {
            m
        }
    }
}

/// Smallest candidate row.
pub open spec fn min_y(p: Seq<Tile>) -> int
    decreases p.len() when p.len() > 0
{
    if p.len() == 1 {
        p[0].1 as int
    } else {
        let m = min_y(p.drop_last());
        if (p.last().1 as int) < m {
            p.last().1 as int
        } else {
            m
        }
    }
}

/// Largest candidate row.
pub open spec fn max_y(p: Seq<Tile>) -> int
    decreases p.len() when p.len() > 0
{
    if p.len() == 1 {
        p[0].1 as int
    } else {
        let m = max_y(p.drop_last());
        if (p.last().1 as int) > m {
            p.last().1 as int
        } else {
            m
        }
    }
}

/// On the candidates' row, every cell between the leftmost and the
/// rightmost candidate is occupied once the move is committed.
pub open spec fn row_contiguous(b: &Board, p: Seq<Tile>) -> bool {
    forall|x: int| min_x(p) <= x <= max_x(p) ==> occ(b, p, (x, p[0].1 as int))
}

/// On the candidates' column, every cell between the topmost and the
/// bottommost candidate is occupied once the move is committed.
pub open spec fn col_contiguous(b: &Board, p: Seq<Tile>) -> bool {
    forall|y: int| min_y(p) <= y <= max_y(p) ==> occ(b, p, (p[0].0 as int, y))
}

/// The candidates, together with the placed cells they touch
/// collinearly, lie on a single row or column with no gaps.
pub open spec fn in_line(b: &Board, p: Seq<Tile>) -> bool {
    &&& p.len() > 0
    &&& ((same_row(p) && row_contiguous(b, p)) || (same_col(p) && col_contiguous(b, p)))
}

/// Whether any cell of the board holds a placed letter.
pub open spec fn board_has_tiles(b: &Board) -> bool {
    exists|c: (int, int)| b.placed_at(c)
}

/// The board's center cell, which the first move must cover.
pub open spec fn spec_center(b: &Board) -> (int, int) {
    (b.spec_width() / 2, b.spec_height() / 2)
}

/// Some candidate covers the center cell.
pub open spec fn covers_center(b: &Board, p: Seq<Tile>) -> bool {
    covers(p, spec_center(b))
}

/// Some candidate is 8-adjacent to an already placed tile.
pub open spec fn touches_cluster(b: &Board, p: Seq<Tile>) -> bool {
    exists|i: int| 0 <= i < p.len() && touches_any_tile(b, tile_coord(#[trigger] p[i]))
}

/// The whole shape gate, steps one to five: freshness, hand letters,
/// line, center-or-adjacency, connectivity. Dictionary membership of the
/// formed words is the separate last step.
pub open spec fn placement_allowed(b: &Board, hand: Seq<char>, p: Seq<Tile>) -> bool {
    &&& tiles_fresh(b, p)
    &&& letters_available(hand, p)
    &&& in_line(b, p)
    &&& (if board_has_tiles(b) {
        touches_cluster(b, p)
    } else {
        covers_center(b, p)
    })
    &&& tiles_connected(b, p)
}

/// Every formed word belongs to the dictionary.
pub open spec fn words_all_valid(b: &Board, p: Seq<Tile>, d: &Dictionary) -> bool {
    forall|k: int|
        0 <= k < formed_words(b, p).len() ==> d.spec_contains(
            word_letters(b, p, #[trigger] formed_words(b, p)[k]),
        )
}

/// Step one: every candidate in bounds, on an empty cell, no duplicate
/// coordinates; the first offender decides the error.
fn check_tiles(b: &Board, p: &Vec<Tile>) -> (r: Result<(), MoveError>)
    requires
        b.wf(),
    ensures
        r is Ok <==> tiles_fresh(b, p@),
        r matches Err(e) ==> exists|i: int|
            0 <= i < p@.len() && #[trigger] fresh_upto(b, p@, i) && !tile_fresh(b, p@, i) && e == (
            if b.spec_in_bounds(tile_coord(p@[i])) {
                MoveError::CellOccupied
            } else {
                MoveError::OutOfBounds
            }),
{
    let mut i: usize = 0;
    while i < p.len()
        invariant
            b.wf(),
            i <= p@.len(),
            fresh_upto(b, p@, i as int),
        decreases p@.len() - i,
    {
        let t = p[i];
        if !b.in_bounds(t.0, t.1) {
            proof {
                assert(fresh_upto(b, p@, i as int));
                assert(!tile_fresh(b, p@, i as int));
            }
            return Err(MoveError::OutOfBounds);
        }
        if b.is_placed(t.0, t.1) {
            proof {
                assert(!tile_fresh(b, p@, i as int));
            }
            return Err(MoveError::CellOccupied);
        }
        let mut j: usize = 0;
        while j < i
            invariant
                b.wf(),
                j <= i < p@.len(),
                fresh_upto(b, p@, i as int),
                t == p@[i as int],
                b.spec_in_bounds(tile_coord(p@[i as int])),
                !b.placed_at(tile_coord(p@[i as int])),
                forall|k: int|
                    0 <= k < j ==> tile_coord(#[trigger] p@[k]) != tile_coord(p@[i as int]),
            decreases i - j,
        {
            if p[j].0 == t.0 && p[j].1 == t.1 {
                proof {
                    assert(tile_coord(p@[j as int]) == tile_coord(p@[i as int]));
                    assert(!tile_fresh(b, p@, i as int));
                }
                return Err(MoveError::CellOccupied);
            }
            j = j + 1;
        }
        proof {
            assert(tile_fresh(b, p@, i as int));
        }
        i = i + 1;
    }
    Ok(())
}

/// The candidate letters, in candidate order.
fn collect_letters(p: &Vec<Tile>) -> (r: Vec<char>)
    ensures
        r@ == letters_of(p@),
{
    let mut r: Vec<char> = Vec::new();
    let mut i: usize = 0;
    while i < p.len()
        invariant
            i <= p@.len(),
            r@.len() == i,
            forall|k: int| 0 <= k < i ==> r@[k] == (#[trigger] p@[k]).2,
        decreases p@.len() - i,
    {
        r.push(p[i].2);
        i = i + 1;
    }
    proof {
        assert(r@ =~= letters_of(p@));
    }
    r
}

/// Step three: single row or column, contiguous including existing
/// tiles.
fn check_line(b: &Board, p: &Vec<Tile>) -> (r: bool)
    requires
        b.wf(),
        tiles_fresh(b, p@),
    ensures
        r == in_line(b, p@),
{
    proof {
        crate::board::lemma_wf_dims(b);
    }
    if p.len() == 0 {
        return false;
    }
    let same_r = is_same_row(p);
    let same_c = is_same_col(p);
    if same_r {
        let y0 = p[0].1;
        let mut mn = p[0].0;
        let mut mx = p[0].0;
        let mut i: usize = 1;
        while i < p.len()
            invariant
                p@.len() > 0,
                1 <= i <= p@.len(),
                mn as int == min_x(p@.take(i as int)),
                mx as int == max_x(p@.take(i as int)),
            decreases p@.len() - i,
        {
            proof {
                assert(p@.take(i as int + 1).drop_last() =~= p@.take(i as int));
                assert(p@.take(i as int + 1).last() == p@[i as int]);
            }
            if p[i].0 < mn {
                mn = p[i].0;
            }
            if p[i].0 > mx {
                mx = p[i].0;
            }
            i = i + 1;
        }
        proof {
            assert(p@.take(p@.len() as int) =~= p@);
            assert(tile_fresh(b, p@, 0));
            lemma_min_max_x_range(b, p@);
        }
        let mut x = mn;
        while x <= mx
            invariant
                b.wf(),
                b.spec_width() <= 15,
                tiles_fresh(b, p@),
                p@.len() > 0,
                same_row(p@),
                y0 == p@[0].1,
                mn as int == min_x(p@),
                mx as int == max_x(p@),
                mx < b.spec_width(),
                mn <= x,
                x <= mx + 1,
                forall|x2: int| mn <= x2 < x ==> occ(b, p@, (x2, p@[0].1 as int)),
            decreases mx + 1 - x,
        {
            if !b.occupied_at(p, x, y0) {
                proof {
                    assert(!row_contiguous(b, p@));
                    if same_col(p@) && p@.len() >= 2 {
                        assert(tile_fresh(b, p@, 1));
                        assert(tile_coord(p@[0]) != tile_coord(p@[1]));
                        assert((p@[1]).1 == p@[0].1 && (p@[1]).0 == p@[0].0);
                        assert(false);
                    }
                    if p@.len() == 1 {
                        assert(min_x(p@) == p@[0].0 as int && max_x(p@) == p@[0].0 as int);
                        assert(tile_fresh(b, p@, 0));
                        assert(b.spec_in_bounds((x as int, y0 as int)));
                        assert(tile_coord(p@[0]) == (x as int, y0 as int));
                        assert(covers(p@, (x as int, y0 as int)));
                        assert(occ(b, p@, (x as int, y0 as int)));
                        assert(false);
                    }
                    assert(!in_line(b, p@));
                }
                return false;
            }
            x = x + 1;
        }
        proof {
            assert(row_contiguous(b, p@));
        }
        return true;
    }
    if same_c {
        let x0 = p[0].0;
        let mut mn = p[0].1;
        let mut mx = p[0].1;
        let mut i: usize = 1;
        while i < p.len()
            invariant
                p@.len() > 0,
                1 <= i <= p@.len(),
                mn as int == min_y(p@.take(i as int)),
                mx as int == max_y(p@.take(i as int)),
            decreases p@.len() - i,
        {
            proof {
                assert(p@.take(i as int + 1).drop_last() =~= p@.take(i as int));
                assert(p@.take(i as int + 1).last() == p@[i as int]);
            }
            if p[i].1 < mn {
                mn = p[i].1;
            }
            if p[i].1 > mx {
                mx = p[i].1;
            }
            i = i + 1;
        }
        proof {
            assert(p@.take(p@.len() as int) =~= p@);
            assert(tile_fresh(b, p@, 0));
            lemma_min_max_y_range(b, p@);
        }
        let mut y = mn;
        while y <= mx
            invariant
                b.wf(),
                b.spec_height() <= 15,
                tiles_fresh(b, p@),
                p@.len() > 0,
                same_col(p@),
                !same_row(p@),
                x0 == p@[0].0,
                mn as int == min_y(p@),
                mx as int == max_y(p@),
                mx < b.spec_height(),
                mn <= y,
                y <= mx + 1,
                forall|y2: int| mn <= y2 < y ==> occ(b, p@, (p@[0].0 as int, y2)),
            decreases mx + 1 - y,
        {
            if !b.occupied_at(p, x0, y) {
                proof {
                    assert(!col_contiguous(b, p@));
                    assert(!in_line(b, p@));
                }
                return false;
            }
            y = y + 1;
        }
        proof {
            assert(col_contiguous(b, p@));
        }
        return true;
    }
    false
}

/// The candidate columns stay within the board.
proof fn lemma_min_max_x_range(b: &Board, p: Seq<Tile>)
    requires
        p.len() > 0,
        tiles_fresh(b, p),
    ensures
        0 <= min_x(p),
        max_x(p) < b.spec_width(),
        min_x(p) <= max_x(p),
        forall|i: int| 0 <= i < p.len() ==> min_x(p) <= (#[trigger] p[i]).0 as int <= max_x(p),
    decreases p.len(),
{
    if p.len() == 1 {
        assert(tile_fresh(b, p, 0));
    } else {
        let q = p.drop_last();
        assert(tiles_fresh(b, q)) by {
            assert forall|i: int| 0 <= i < q.len() implies #[trigger] tile_fresh(b, q, i) by {
                assert(tile_fresh(b, p, i));
                assert(q[i] == p[i]);
                assert(forall|j: int| 0 <= j < i ==> q[j] == p[j]);
            }
        }
        lemma_min_max_x_range(b, q);
        assert(tile_fresh(b, p, p.len() - 1));
        assert forall|i: int|
            0 <= i < p.len() implies min_x(p) <= (#[trigger] p[i]).0 as int <= max_x(p) by {
            if i < p.len() - 1 {
                assert(q[i] == p[i]);
            }
        }
    }
}

/// The candidate rows stay within the board.
proof fn lemma_min_max_y_range(b: &Board, p: Seq<Tile>)
    requires
        p.len() > 0,
        tiles_fresh(b, p),
    ensures
        0 <= min_y(p),
        max_y(p) < b.spec_height(),
        min_y(p) <= max_y(p),
        forall|i: int| 0 <= i < p.len() ==> min_y(p) <= (#[trigger] p[i]).1 as int <= max_y(p),
    decreases p.len(),
{
    if p.len() == 1 {
        assert(tile_fresh(b, p, 0));
    } else {
        let q = p.drop_last();
        assert(tiles_fresh(b, q)) by {
            assert forall|i: int| 0 <= i < q.len() implies #[trigger] tile_fresh(b, q, i) by {
                assert(tile_fresh(b, p, i));
                assert(q[i] == p[i]);
                assert(forall|j: int| 0 <= j < i ==> q[j] == p[j]);
            }
        }
        lemma_min_max_y_range(b, q);
        assert(tile_fresh(b, p, p.len() - 1));
        assert forall|i: int|
            0 <= i < p.len() implies min_y(p) <= (#[trigger] p[i]).1 as int <= max_y(p) by {
            if i < p.len() - 1 {
                assert(q[i] == p[i]);
            }
        }
    }
}

/// Whether the board holds any placed tile at all.
fn board_has_any(b: &Board) -> (r: bool)
    requires
        b.wf(),
    ensures
        r == board_has_tiles(b),
{
    let w = b.width();
    let h = b.height();
    let mut y: usize = 0;
    while y < h
        invariant
            b.wf(),
            w == b.spec_width(),
            h == b.spec_height(),
            y <= h,
            forall|c: (int, int)| b.spec_in_bounds(c) && c.1 < y ==> !b.placed_at(c),
        decreases h - y,
    {
        let mut x: usize = 0;
        while x < w
            invariant
                b.wf(),
                w == b.spec_width(),
                h == b.spec_height(),
                x <= w,
                y < h,
                forall|c: (int, int)|
                    b.spec_in_bounds(c) && (c.1 < y || (c.1 == y && c.0 < x)) ==> !b.placed_at(c),
            decreases w - x,
        {
            if b.is_placed(x, y) {
                return true;
            }
            x = x + 1;
        }
        y = y + 1;
    }
    proof {
        assert forall|c: (int, int)| !b.placed_at(c) by {
            if b.spec_in_bounds(c) {
                assert(c.1 < h);
            }
        }
    }
    false
}

/// Step four, first move: some candidate covers the center cell.
fn check_covers_center(b: &Board, p: &Vec<Tile>) -> (r: bool)
    requires
        b.wf(),
    ensures
        r == covers_center(b, p@),
{
    let cx = b.width() / 2;
    let cy = b.height() / 2;
    proof {
        assert(cx as int == spec_center(b).0 && cy as int == spec_center(b).1);
    }
    let mut i: usize = 0;
    while i < p.len()
        invariant
            i <= p@.len(),
            cx as int == spec_center(b).0,
            cy as int == spec_center(b).1,
            forall|k: int| 0 <= k < i ==> tile_coord(#[trigger] p@[k]) != spec_center(b),
        decreases p@.len() - i,
    {
        if p[i].0 == cx && p[i].1 == cy {
            proof {
                assert(tile_coord(p@[i as int]) == spec_center(b));
            }
            return true;
        }
        i = i + 1;
    }
    false
}

/// Step four, later moves: some candidate touches the existing cluster.
fn check_touches(b: &Board, p: &Vec<Tile>) -> (r: bool)
    requires
        b.wf(),
    ensures
        r == touches_cluster(b, p@),
{
    let mut i: usize = 0;
    while i < p.len()
        invariant
            b.wf(),
            i <= p@.len(),
            forall|k: int|
                0 <= k < i ==> !touches_any_tile(b, tile_coord(#[trigger] p@[k])),
        decreases p@.len() - i,
    {
        if b.adjacent_to_existing_tile(p[i].0, p[i].1) {
            return true;
        }
        i = i + 1;
    }
    false
}

/// A legal move's yield: the formed words (each an ordered run of board
/// cells with its letters) and the hand after consuming the candidates.
pub struct MoveResult {
    /// The formed words, main word first, then cross words in candidate
    /// order; every run has length at least two.
    pub words: Vec<Vec<Tile>>,
    /// The proposing hand with the consumed letters removed.
    pub hand_after: Hand,
}

/// Validate one candidate placement against the board, the proposing
/// hand and the dictionary. Nothing is mutated; on success the caller
/// commits the placement and scores the words.
pub fn validate_move(b: &Board, hand: &Hand, p: &Vec<Tile>, dict: &Dictionary) -> (r: Result<
    MoveResult,
    MoveError,
>)
    requires
        b.wf(),
        hand.wf(),
    ensures
        r is Ok <==> placement_allowed(b, hand@, p@) && words_all_valid(b, p@, dict),
        r matches Ok(mr) ==> {
            &&& all_words_match(b, p@, mr.words@, formed_words(b, p@))
            &&& mr.words@.len() <= p@.len() + 1
            &&& forall|k: int|
                0 <= k < mr.words@.len() ==> 2 <= (#[trigger] mr.words@[k])@.len() <= 15
            &&& forall|k: int, j: int| #![trigger mr.words@[k]@[j]]
                0 <= k < mr.words@.len() && 0 <= j < mr.words@[k]@.len() ==> b.spec_in_bounds(
                    tile_coord(mr.words@[k]@[j]),
                )
            &&& mr.hand_after.wf()
            &&& forall|ch: char|
                #[trigger] letter_count(mr.hand_after@, ch) + letter_count(letters_of(p@), ch)
                    == letter_count(hand@, ch)
        },
        r matches Err(MoveError::OutOfBounds) ==> exists|i: int|
            0 <= i < p@.len() && #[trigger] fresh_upto(b, p@, i) && !b.spec_in_bounds(
                tile_coord(p@[i]),
            ),
        r matches Err(MoveError::CellOccupied) ==> exists|i: int|
            0 <= i < p@.len() && #[trigger] fresh_upto(b, p@, i) && !tile_fresh(b, p@, i)
                && b.spec_in_bounds(tile_coord(p@[i])),
        r matches Err(MoveError::LetterNotInHand) ==> tiles_fresh(b, p@) && !letters_available(
            hand@,
            p@,
        ),
        r matches Err(MoveError::NotInLine) ==> tiles_fresh(b, p@) && letters_available(
            hand@,
            p@,
        ) && !in_line(b, p@),
        r matches Err(MoveError::MustCoverCenter) ==> tiles_fresh(b, p@) && letters_available(
            hand@,
            p@,
        ) && in_line(b, p@) && !board_has_tiles(b) && !covers_center(b, p@),
        r matches Err(MoveError::Disconnected) ==> tiles_fresh(b, p@) && letters_available(
            hand@,
            p@,
        ) && in_line(b, p@) && (if board_has_tiles(b) {
            !touches_cluster(b, p@) || !tiles_connected(b, p@)
        } else {
            covers_center(b, p@) && !tiles_connected(b, p@)
        }),
        r matches Err(MoveError::InvalidWord(w)) ==> placement_allowed(b, hand@, p@)
            && exists|k: int|
            {
                &&& 0 <= k < formed_words(b, p@).len()
                &&& w@ == word_letters(b, p@, #[trigger] formed_words(b, p@)[k])
                &&& !dict.spec_contains(word_letters(b, p@, formed_words(b, p@)[k]))
                &&& forall|j: int|
                    0 <= j < k ==> dict.spec_contains(
                        word_letters(b, p@, #[trigger] formed_words(b, p@)[j]),
                    )
            },
        !(r matches Err(MoveError::IoError)),
{
    match check_tiles(b, p) {
        Err(e) => {
            return Err(e);
        },
        Ok(u) => {},
    }
    let letters = collect_letters(p);
    let hand_after = match hand.remove_letters(&letters) {
        None => {
            return Err(MoveError::LetterNotInHand);
        },
        Some(h) => h,
    };
    if !check_line(b, p) {
        return Err(MoveError::NotInLine);
    }
    if board_has_any(b) {
        if !check_touches(b, p) {
            return Err(MoveError::Disconnected);
        }
    } else {
        if !check_covers_center(b, p) {
            return Err(MoveError::MustCoverCenter);
        }
    }
    if !b.connected_with(p) {
        return Err(MoveError::Disconnected);
    }
    proof {
        assert(distinct_tiles(p@)) by {
            assert forall|i: int, j: int|
                0 <= i < j < p@.len() implies tile_coord(#[trigger] p@[i]) != tile_coord(
                #[trigger] p@[j],
            ) by {
                assert(tile_fresh(b, p@, j));
            }
        }
        assert forall|i: int|
            0 <= i < p@.len() implies b.spec_in_bounds(tile_coord(#[trigger] p@[i])) by {
            assert(tile_fresh(b, p@, i));
        }
    }
    let words = extract_words(b, p);
    let ghost formed = formed_words(b, p@);
    let mut k: usize = 0;
    while k < words.len()
        invariant
            b.wf(),
            placement_allowed(b, hand@, p@),
            formed == formed_words(b, p@),
            all_words_match(b, p@, words@, formed),
            forall|k2: int| 0 <= k2 < words@.len() ==> 2 <= (#[trigger] words@[k2])@.len() <= 15,
            words@.len() <= p@.len() + 1,
            forall|k2: int, j: int| #![trigger words@[k2]@[j]]
                0 <= k2 < words@.len() && 0 <= j < words@[k2]@.len() ==> b.spec_in_bounds(
                    tile_coord(words@[k2]@[j]),
                ),
            k <= words@.len(),
            forall|j: int|
                0 <= j < k ==> dict.spec_contains(word_letters(b, p@, #[trigger] formed[j])),
        decreases words@.len() - k,
    {
        let lv = collect_letters(&words[k]);
        proof {
            assert(lv@ =~= word_letters(b, p@, formed[k as int]));
        }
        if !dict.contains(&lv) {
            proof {
                assert((k as int) < formed_words(b, p@).len());
                assert(lv@ == word_letters(b, p@, formed_words(b, p@)[k as int]));
                assert(!dict.spec_contains(word_letters(b, p@, formed_words(b, p@)[k as int])));
                assert(forall|j: int|
                    0 <= j < k as int ==> dict.spec_contains(
                        word_letters(b, p@, #[trigger] formed_words(b, p@)[j]),
                    ));
            }
            return Err(MoveError::InvalidWord(lv));
        }
        k = k + 1;
    }
    Ok(MoveResult { words, hand_after })
}

impl Board {
    /// Raw commit of an approved placement: turn every candidate cell
    /// into a placed letter, keeping bonus tags. The move validator has
    /// approved the placement before this runs.
    pub fn commit_placement(&mut self, p: &Vec<Tile>)
        requires
            old(self).wf(),
            tiles_fresh(old(self), p@),
            forall|i: int| 0 <= i < p@.len() ==> crate::board::is_game_letter((#[trigger] p@[i]).2),
        ensures
            final(self).wf(),
            final(self).spec_width() == old(self).spec_width(),
            final(self).spec_height() == old(self).spec_height(),
            forall|i: int| #![trigger p@[i]]
                0 <= i < p@.len() ==> final(self).spec_cell(
                    tile_coord(p@[i]).0,
                    tile_coord(p@[i]).1,
                ).letter == Some(p@[i].2) && final(self).spec_cell(
                    tile_coord(p@[i]).0,
                    tile_coord(p@[i]).1,
                ).bonus == old(self).spec_cell(tile_coord(p@[i]).0, tile_coord(p@[i]).1).bonus,
            forall|c: (int, int)|
                old(self).spec_in_bounds(c) && !covers(p@, c) ==> #[trigger] final(self).spec_cell(
                    c.0,
                    c.1,
                ) == old(self).spec_cell(c.0, c.1),
            forall|c: (int, int)| #[trigger] final(self).placed_at(c) <==> occ(old(self), p@, c),
    {
        let mut i: usize = 0;
        while i < p.len()
            invariant
                self.wf(),
                self.spec_width() == old(self).spec_width(),
                self.spec_height() == old(self).spec_height(),
                tiles_fresh(old(self), p@),
                forall|k: int|
                    0 <= k < p@.len() ==> crate::board::is_game_letter((#[trigger] p@[k]).2),
                i <= p@.len(),
                forall|k: int| #![trigger p@[k]]
                    0 <= k < i ==> self.spec_cell(
                        tile_coord(p@[k]).0,
                        tile_coord(p@[k]).1,
                    ).letter == Some(p@[k].2) && self.spec_cell(
                        tile_coord(p@[k]).0,
                        tile_coord(p@[k]).1,
                    ).bonus == old(self).spec_cell(
                        tile_coord(p@[k]).0,
                        tile_coord(p@[k]).1,
                    ).bonus,
                forall|c: (int, int)|
                    old(self).spec_in_bounds(c) && !covers(p@.take(i as int), c)
                        ==> #[trigger] self.spec_cell(c.0, c.1) == old(self).spec_cell(c.0, c.1),
            decreases p@.len() - i,
        {
            let t = p[i];
            let ghost ci = tile_coord(p@[i as int]);
            proof {
                assert(tile_fresh(old(self), p@, i as int));
                assert(!covers(p@.take(i as int), ci)) by {
                    if covers(p@.take(i as int), ci) {
                        let j = choose|j: int|
                            0 <= j < p@.take(i as int).len() && tile_coord(
                                #[trigger] p@.take(i as int)[j],
                            ) == ci;
                        assert(tile_coord(p@[j]) == ci);
                    }
                }
                assert(self.spec_cell(ci.0, ci.1) == old(self).spec_cell(ci.0, ci.1));
                assert(!old(self).placed_at(ci));
            }
            let r = self.place(t.0, t.1, t.2);
            proof {
                assert(r is Ok);
                assert(p@.take(i as int + 1) =~= p@.take(i as int).push(p@[i as int]));
                assert forall|c: (int, int)|
                    old(self).spec_in_bounds(c) && !covers(p@.take(i as int + 1), c)
                        implies #[trigger] self.spec_cell(c.0, c.1) == old(self).spec_cell(
                    c.0,
                    c.1,
                ) by {
                    assert(!covers(p@.take(i as int), c)) by {
                        if covers(p@.take(i as int), c) {
                            let j = choose|j: int|
                                0 <= j < p@.take(i as int).len() && tile_coord(
                                    #[trigger] p@.take(i as int)[j],
                                ) == c;
                            assert(tile_coord(p@.take(i as int + 1)[j]) == c);
                        }
                    }
                    assert(tile_coord(p@.take(i as int + 1)[i as int]) == ci);
                    assert(c != ci);
                }
                assert forall|k: int| #![trigger p@[k]]
                    0 <= k < i + 1 implies self.spec_cell(
                    tile_coord(p@[k]).0,
                    tile_coord(p@[k]).1,
                ).letter == Some(p@[k].2) && self.spec_cell(
                    tile_coord(p@[k]).0,
                    tile_coord(p@[k]).1,
                ).bonus == old(self).spec_cell(
                    tile_coord(p@[k]).0,
                    tile_coord(p@[k]).1,
                ).bonus by {
                    if k < i {
                        assert(tile_fresh(old(self), p@, i as int));
                        assert(tile_coord(p@[k]) != ci);
                        assert(old(self).spec_in_bounds(tile_coord(p@[k]))) by {
                            assert(tile_fresh(old(self), p@, k));
                        }
                    } else {
                        assert(self.spec_cell(ci.0, ci.1).letter == Some(t.2));
                    }
                }
            }
            i = i + 1;
        }
        proof {
            assert(p@.take(p@.len() as int) =~= p@);
            assert forall|c: (int, int)| #[trigger] final(self).placed_at(c) <==> occ(
                old(self),
                p@,
                c,
            ) by {
                if covers(p@, c) {
                    let j = choose|j: int|
                        0 <= j < p@.len() && tile_coord(#[trigger] p@[j]) == c;
                    assert(tile_fresh(old(self), p@, j));
                    assert(final(self).spec_cell(c.0, c.1).letter == Some(p@[j].2));
                }
            }
        }
    }
}

/// A committed move's yield for the game loop: the formed words, their
/// score, and the hand after consuming the placed letters.
pub struct MoveOutcome {
    /// The formed words, main word first, then cross words.
    pub words: Vec<Vec<Tile>>,
    /// The move's total score.
    pub score: u64,
    /// The proposing hand with the consumed letters removed.
    pub hand_after: Hand,
}

/// Validate a candidate placement, and if it is legal score it and
/// commit it to the board. A rejected move leaves the board untouched;
/// an accepted one places exactly the candidate letters, and the board's
/// placed tiles stay one 4-connected component.
pub fn play_move(
    board: &mut Board,
    hand: &Hand,
    p: &Vec<Tile>,
    dict: &Dictionary,
    values: &Vec<(char, u16)>,
) -> (r: Result<MoveOutcome, MoveError>)
    requires
        old(board).wf(),
        hand.wf(),
    ensures
        final(board).wf(),
        final(board).spec_width() == old(board).spec_width(),
        final(board).spec_height() == old(board).spec_height(),
        r is Ok <==> placement_allowed(old(board), hand@, p@) && words_all_valid(
            old(board),
            p@,
            dict,
        ),
        r matches Err(e) ==> *final(board) == *old(board),
        r matches Ok(out) ==> {
            &&& all_words_match(old(board), p@, out.words@, formed_words(old(board), p@))
            &&& out.score as int == crate::score::spec_move_score(
                old(board),
                p@,
                values@,
                out.words@,
            )
            &&& out.hand_after.wf()
            &&& forall|ch: char|
                #[trigger] letter_count(out.hand_after@, ch) + letter_count(letters_of(p@), ch)
                    == letter_count(hand@, ch)
            &&& forall|i: int| #![trigger p@[i]]
                0 <= i < p@.len() ==> final(board).spec_cell(
                    tile_coord(p@[i]).0,
                    tile_coord(p@[i]).1,
                ).letter == Some(p@[i].2)
            &&& forall|c: (int, int)|
                old(board).spec_in_bounds(c) && !covers(p@, c)
                    ==> #[trigger] final(board).spec_cell(c.0, c.1) == old(board).spec_cell(
                    c.0,
                    c.1,
                )
            &&& crate::connect::all_connected(final(board))
        },
{
    let vr = validate_move(board, hand, p, dict);
    match vr {
        Err(e) => Err(e),
        Ok(mr) => {
            proof {
                assert(letters_of(p@).len() == p@.len());
                crate::hand::lemma_len_le(letters_of(p@), hand@);
            }
            let score = crate::score::score_move(board, p, &mr.words, values);
            proof {
                assert forall|i: int|
                    0 <= i < p@.len() implies crate::board::is_game_letter(
                    (#[trigger] p@[i]).2,
                ) by {
                    assert(letters_of(p@)[i] == p@[i].2);
                    crate::hand::lemma_count_of_elem(letters_of(p@), i);
                    assert(letter_count(letters_of(p@), p@[i].2) <= letter_count(
                        hand@,
                        p@[i].2,
                    ));
                    crate::hand::lemma_count_pos(hand@, p@[i].2);
                    let j = choose|j: int| 0 <= j < hand@.len() && hand@[j] == p@[i].2;
                    assert(crate::board::is_game_letter(hand@[j]));
                }
            }
            board.commit_placement(p);
            proof {
                crate::connect::lemma_connected_after_commit(old(board), p@, board);
            }
            Ok(MoveOutcome { words: mr.words, score, hand_after: mr.hand_after })
        },
    }
}

} // verus!
