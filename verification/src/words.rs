//! Formed words: maximal contiguous runs of occupied cells through the
//! candidate tiles of a move, along the placement's own line and across
//! it. A run of length at least two is a formed word.

use crate::board::Board;
use crate::board::lemma_wf_dims;
use crate::connect::Tile;
use crate::connect::covers;
use crate::connect::occ;
use crate::connect::tile_coord;
use vstd::prelude::*;

verus! {

/// All candidates lie on the row of the first one.
pub open spec fn same_row(p: Seq<Tile>) -> bool {
    forall|i: int| 0 <= i < p.len() ==> (#[trigger] p[i]).1 == p[0].1
}

/// All candidates lie on the column of the first one.
pub open spec fn same_col(p: Seq<Tile>) -> bool {
    forall|i: int| 0 <= i < p.len() ==> (#[trigger] p[i]).0 == p[0].0
}

/// No two candidates name the same coordinate.
pub open spec fn distinct_tiles(p: Seq<Tile>) -> bool {
    forall|i: int, j: int|
        0 <= i < j < p.len() ==> tile_coord(#[trigger] p[i]) != tile_coord(#[trigger] p[j])
}

/// The letters of the candidates, in order.
pub open spec fn letters_of(p: Seq<Tile>) -> Seq<char> {
    p.map_values(|t: Tile| t.2)
}

/// The letter at `c` once `p` is committed: the candidate letter where a
/// candidate covers `c`, else the placed letter (a blank off such cells).
pub open spec fn letter_at(b: &Board, p: Seq<Tile>, c: (int, int)) -> char {
    if covers(p, c) {
        let i = choose|i: int| 0 <= i < p.len() && tile_coord(#[trigger] p[i]) == c;
        p[i].2
    } else {
        match b.spec_cell(c.0, c.1).letter {
            Some(l) => l,
            None => ' ',
        }
    }
}

/// The letters spelled along `coords`.
pub open spec fn word_letters(b: &Board, p: Seq<Tile>, coords: Seq<(int, int)>) -> Seq<char> {
    coords.map_values(|c: (int, int)| letter_at(b, p, c))
}

/// Leftmost column of the occupied horizontal run through `(x, y)`.
pub open spec fn run_start_h(b: &Board, p: Seq<Tile>, x: int, y: int) -> int
    decreases x when 0 <= x
{
    if x > 0 && occ(b, p, (x - 1, y)) {
        run_start_h(b, p, x - 1, y)
    } else {
        x
    }
}

/// Rightmost column of the occupied horizontal run through `(x, y)`.
pub open spec fn run_end_h(b: &Board, p: Seq<Tile>, x: int, y: int) -> int
    decreases b.spec_width() - x when x < b.spec_width()
{
    if occ(b, p, (x + 1, y)) {
        run_end_h(b, p, x + 1, y)
    } else {
        x
    }
}

/// Topmost row of the occupied vertical run through `(x, y)`.
pub open spec fn run_start_v(b: &Board, p: Seq<Tile>, x: int, y: int) -> int
    decreases y when 0 <= y
{
    if y > 0 && occ(b, p, (x, y - 1)) {
        run_start_v(b, p, x, y - 1)
    } else {
        y
    }
}

/// Bottommost row of the occupied vertical run through `(x, y)`.
pub open spec fn run_end_v(b: &Board, p: Seq<Tile>, x: int, y: int) -> int
    decreases b.spec_height() - y when y < b.spec_height()
{
    if occ(b, p, (x, y + 1)) {
        run_end_v(b, p, x, y + 1)
    } else {
        y
    }
}

/// The coordinates of the horizontal run through `c`, left to right.
pub open spec fn word_h(b: &Board, p: Seq<Tile>, c: (int, int)) -> Seq<(int, int)> {
    let s = run_start_h(b, p, c.0, c.1);
    let e = run_end_h(b, p, c.0, c.1);
    Seq::new((e + 1 - s) as nat, |k: int| (s + k, c.1))
}

/// The coordinates of the vertical run through `c`, top to bottom.
pub open spec fn word_v(b: &Board, p: Seq<Tile>, c: (int, int)) -> Seq<(int, int)> {
    let s = run_start_v(b, p, c.0, c.1);
    let e = run_end_v(b, p, c.0, c.1);
    Seq::new((e + 1 - s) as nat, |k: int| (c.0, s + k))
}

/// The run along the placement's own line, through the first candidate.
/// A single-tile placement counts as horizontal here; its vertical run is
/// still collected as a cross word.
pub open spec fn main_word(b: &Board, p: Seq<Tile>) -> Seq<(int, int)> {
    if same_row(p) {
        word_h(b, p, tile_coord(p[0]))
    } else {
        word_v(b, p, tile_coord(p[0]))
    }
}

/// The run through candidate `i`, perpendicular to the placement's line.
pub open spec fn cross_word(b: &Board, p: Seq<Tile>, i: int) -> Seq<(int, int)> {
    if same_row(p) {
        word_v(b, p, tile_coord(p[i]))
    } else {
        word_h(b, p, tile_coord(p[i]))
    }
}

/// The cross words of the first `n` candidates that have length at least
/// two, in candidate order.
pub open spec fn cross_words_upto(b: &Board, p: Seq<Tile>, n: int) -> Seq<Seq<(int, int)>>
    decreases n when 0 <= n
{
    if n <= 0 {
        Seq::empty()
    } else {
        cross_words_upto(b, p, n - 1) + (if cross_word(b, p, n - 1).len() >= 2 {
            seq![cross_word(b, p, n - 1)]
        } else {
            Seq::empty()
        })
    }
}

/// Every word the move forms, as ordered coordinate sequences: the main
/// run if it has length at least two, then the qualifying cross words.
pub open spec fn formed_words(b: &Board, p: Seq<Tile>) -> Seq<Seq<(int, int)>> {
    (if main_word(b, p).len() >= 2 {
        seq![main_word(b, p)]
    } else {
        Seq::<Seq<(int, int)>>::empty()
    }) + cross_words_upto(b, p, p.len() as int)
}

/// An extracted word `w` realizes the spec coordinates `coords`: same
/// cells in the same order, each carrying the letter occupying it.
pub open spec fn word_matches(b: &Board, p: Seq<Tile>, w: Seq<Tile>, coords: Seq<(int, int)>) -> bool {
    &&& w.len() == coords.len()
    &&& forall|k: int|
        0 <= k < w.len() ==> tile_coord(#[trigger] w[k]) == coords[k] && w[k].2 == letter_at(
            b,
            p,
            coords[k],
        )
}

/// Every extracted word realizes its spec counterpart.
pub open spec fn all_words_match(
    b: &Board,
    p: Seq<Tile>,
    ws: Seq<Vec<Tile>>,
    specs: Seq<Seq<(int, int)>>,
) -> bool {
    &&& ws.len() == specs.len()
    &&& forall|k: int| 0 <= k < ws.len() ==> word_matches(b, p, (#[trigger] ws[k])@, specs[k])
}

/// The horizontal run start lies in `[0, x]` and is maximal.
pub proof fn lemma_run_start_h_props(b: &Board, p: Seq<Tile>, x: int, y: int)
    requires
        0 <= x,
    ensures
        0 <= run_start_h(b, p, x, y) <= x,
        run_start_h(b, p, x, y) > 0 ==> !occ(b, p, (run_start_h(b, p, x, y) - 1, y)),
    decreases x,
{
    if x > 0 && occ(b, p, (x - 1, y)) {
        lemma_run_start_h_props(b, p, x - 1, y);
    }
}

/// The horizontal run end lies in `[x, width)` and is maximal.
pub proof fn lemma_run_end_h_props(b: &Board, p: Seq<Tile>, x: int, y: int)
    requires
        0 <= x < b.spec_width(),
    ensures
        x <= run_end_h(b, p, x, y) < b.spec_width(),
        !occ(b, p, (run_end_h(b, p, x, y) + 1, y)),
    decreases b.spec_width() - x,
{
    if occ(b, p, (x + 1, y)) {
        lemma_run_end_h_props(b, p, x + 1, y);
    }
}

/// Every cell from the run start up to `x` is occupied.
pub proof fn lemma_run_start_h_occ(b: &Board, p: Seq<Tile>, x: int, y: int, x2: int)
    requires
        0 <= x,
        occ(b, p, (x, y)),
        run_start_h(b, p, x, y) <= x2 <= x,
    ensures
        occ(b, p, (x2, y)),
        run_start_h(b, p, x2, y) == run_start_h(b, p, x, y),
    decreases x - x2,
{
    if x2 < x {
        assert(run_start_h(b, p, x, y) < x);
        assert(occ(b, p, (x - 1, y)));
        lemma_run_start_h_occ(b, p, x - 1, y, x2);
    }
}

/// Every cell from `x` up to the run end is occupied.
pub proof fn lemma_run_end_h_occ(b: &Board, p: Seq<Tile>, x: int, y: int, x2: int)
    requires
        0 <= x < b.spec_width(),
        occ(b, p, (x, y)),
        x <= x2 <= run_end_h(b, p, x, y),
    ensures
        occ(b, p, (x2, y)),
        run_end_h(b, p, x2, y) == run_end_h(b, p, x, y),
    decreases x2 - x,
{
    if x < x2 {
        assert(run_end_h(b, p, x, y) > x);
        assert(occ(b, p, (x + 1, y)));
        lemma_run_end_h_occ(b, p, x + 1, y, x2);
    }
}

/// The vertical run start lies in `[0, y]` and is maximal.
pub proof fn lemma_run_start_v_props(b: &Board, p: Seq<Tile>, x: int, y: int)
    requires
        0 <= y,
    ensures
        0 <= run_start_v(b, p, x, y) <= y,
        run_start_v(b, p, x, y) > 0 ==> !occ(b, p, (x, run_start_v(b, p, x, y) - 1)),
    decreases y,
{
    if y > 0 && occ(b, p, (x, y - 1)) {
        lemma_run_start_v_props(b, p, x, y - 1);
    }
}

/// The vertical run end lies in `[y, height)` and is maximal.
pub proof fn lemma_run_end_v_props(b: &Board, p: Seq<Tile>, x: int, y: int)
    requires
        0 <= y < b.spec_height(),
    ensures
        y <= run_end_v(b, p, x, y) < b.spec_height(),
        !occ(b, p, (x, run_end_v(b, p, x, y) + 1)),
    decreases b.spec_height() - y,
{
    if occ(b, p, (x, y + 1)) {
        lemma_run_end_v_props(b, p, x, y + 1);
    }
}

/// Every cell from the run start up to `y` is occupied.
pub proof fn lemma_run_start_v_occ(b: &Board, p: Seq<Tile>, x: int, y: int, y2: int)
    requires
        0 <= y,
        occ(b, p, (x, y)),
        run_start_v(b, p, x, y) <= y2 <= y,
    ensures
        occ(b, p, (x, y2)),
        run_start_v(b, p, x, y2) == run_start_v(b, p, x, y),
    decreases y - y2,
{
    if y2 < y {
        assert(run_start_v(b, p, x, y) < y);
        assert(occ(b, p, (x, y - 1)));
        lemma_run_start_v_occ(b, p, x, y - 1, y2);
    }
}

/// Every cell from `y` up to the run end is occupied.
pub proof fn lemma_run_end_v_occ(b: &Board, p: Seq<Tile>, x: int, y: int, y2: int)
    requires
        0 <= y < b.spec_height(),
        occ(b, p, (x, y)),
        y <= y2 <= run_end_v(b, p, x, y),
    ensures
        occ(b, p, (x, y2)),
        run_end_v(b, p, x, y2) == run_end_v(b, p, x, y),
    decreases y2 - y,
{
    if y < y2 {
        assert(run_end_v(b, p, x, y) > y);
        assert(occ(b, p, (x, y + 1)));
        lemma_run_end_v_occ(b, p, x, y + 1, y2);
    }
}

/// Exec test matching `same_row`.
pub(crate) fn is_same_row(p: &Vec<Tile>) -> (r: bool)
    requires
        p@.len() > 0,
    ensures
        r == same_row(p@),
{
    let y0 = p[0].1;
    let mut i: usize = 0;
    while i < p.len()
        invariant
            i <= p@.len(),
            p@.len() > 0,
            y0 == p@[0].1,
            forall|k: int| 0 <= k < i ==> (#[trigger] p@[k]).1 == y0,
        decreases p@.len() - i,
    {
        if p[i].1 != y0 {
            return false;
        }
        i = i + 1;
    }
    true
}

/// Exec test matching `same_col`.
pub(crate) fn is_same_col(p: &Vec<Tile>) -> (r: bool)
    requires
        p@.len() > 0,
    ensures
        r == same_col(p@),
{
    let x0 = p[0].0;
    let mut i: usize = 0;
    while i < p.len()
        invariant
            i <= p@.len(),
            p@.len() > 0,
            x0 == p@[0].0,
            forall|k: int| 0 <= k < i ==> (#[trigger] p@[k]).0 == x0,
        decreases p@.len() - i,
    {
        if p[i].0 != x0 {
            return false;
        }
        i = i + 1;
    }
    true
}

/// The letter occupying `(x, y)`: a candidate's letter where one covers
/// the cell, else the letter already placed there.
fn letter_lookup(b: &Board, p: &Vec<Tile>, x: usize, y: usize) -> (r: char)
    requires
        b.wf(),
        distinct_tiles(p@),
        occ(b, p@, (x as int, y as int)),
    ensures
        r == letter_at(b, p@, (x as int, y as int)),
{
    let mut i: usize = 0;
    while i < p.len()
        invariant
            distinct_tiles(p@),
            i <= p@.len(),
            forall|k: int|
                0 <= k < i ==> tile_coord(#[trigger] p@[k]) != (x as int, y as int),
        decreases p@.len() - i,
    {
        if p[i].0 == x && p[i].1 == y {
            proof {
                let c: (int, int) = (x as int, y as int);
                assert(tile_coord(p@[i as int]) == c);
                assert(covers(p@, c));
                let j = choose|j: int| 0 <= j < p@.len() && tile_coord(#[trigger] p@[j]) == c;
                if j < i as int {
                    assert(tile_coord(p@[j]) != tile_coord(p@[i as int]));
                } else if j > i as int {
                    assert(tile_coord(p@[i as int]) != tile_coord(p@[j]));
                }
                assert(j == i as int);
            }
            return p[i].2;
        }
        i = i + 1;
    }
    proof {
        assert(!covers(p@, (x as int, y as int)));
        assert(b.placed_at((x as int, y as int)));
    }
    match b.cell_at(x, y) {
        Ok(c) => match c.letter {
            Some(l) => l,
            None => {
                proof {
                    assert(false);
                }
                ' '
            },
        },
        Err(_) => {
            proof {
                assert(false);
            }
            ' '
        },
    }
}

/// The horizontal word through `(x0, y0)`, as placed tiles.
fn extract_word_h(b: &Board, p: &Vec<Tile>, x0: usize, y0: usize) -> (w: Vec<Tile>)
    requires
        b.wf(),
        distinct_tiles(p@),
        occ(b, p@, (x0 as int, y0 as int)),
    ensures
        word_matches(b, p@, w@, word_h(b, p@, (x0 as int, y0 as int))),
        1 <= w@.len() <= b.spec_width(),
        forall|k: int| 0 <= k < w@.len() ==> b.spec_in_bounds(tile_coord(#[trigger] w@[k])),
{
    proof {
        lemma_wf_dims(b);
        lemma_run_start_h_props(b, p@, x0 as int, y0 as int);
        lemma_run_end_h_props(b, p@, x0 as int, y0 as int);
    }
    let mut s = x0;
    while s > 0 && b.occupied_at(p, s - 1, y0)
        invariant
            b.wf(),
            s <= x0,
            run_start_h(b, p@, s as int, y0 as int) == run_start_h(
                b,
                p@,
                x0 as int,
                y0 as int,
            ),
        decreases s,
    {
        s = s - 1;
    }
    assert(s as int == run_start_h(b, p@, x0 as int, y0 as int));
    let mut e = x0;
    while b.occupied_at(p, e + 1, y0)
        invariant
            b.wf(),
            b.spec_width() <= 15,
            x0 <= e < b.spec_width(),
            run_end_h(b, p@, e as int, y0 as int) == run_end_h(b, p@, x0 as int, y0 as int),
        decreases b.spec_width() - e,
    {
        e = e + 1;
    }
    assert(e as int == run_end_h(b, p@, x0 as int, y0 as int));
    let ghost coords = word_h(b, p@, (x0 as int, y0 as int));
    let mut w: Vec<Tile> = Vec::new();
    let mut x = s;
    while x <= e
        invariant
            b.wf(),
            b.spec_width() <= 15,
            distinct_tiles(p@),
            occ(b, p@, (x0 as int, y0 as int)),
            s as int == run_start_h(b, p@, x0 as int, y0 as int),
            e as int == run_end_h(b, p@, x0 as int, y0 as int),
            s <= x0 <= e < b.spec_width(),
            coords == word_h(b, p@, (x0 as int, y0 as int)),
            s <= x <= e + 1,
            w@.len() == x - s,
            forall|k: int|
                0 <= k < w@.len() ==> tile_coord(#[trigger] w@[k]) == coords[k] && w@[k].2
                    == letter_at(b, p@, coords[k]) && b.spec_in_bounds(tile_coord(w@[k])),
        decreases e + 1 - x,
    {
        proof {
            if x <= x0 {
                lemma_run_start_h_occ(b, p@, x0 as int, y0 as int, x as int);
            } else {
                lemma_run_end_h_occ(b, p@, x0 as int, y0 as int, x as int);
            }
            assert(coords[x - s] == (x as int, y0 as int));
        }
        let l = letter_lookup(b, p, x, y0);
        w.push((x, y0, l));
        x = x + 1;
    }
    w
}

/// The vertical word through `(x0, y0)`, as placed tiles.
fn extract_word_v(b: &Board, p: &Vec<Tile>, x0: usize, y0: usize) -> (w: Vec<Tile>)
    requires
        b.wf(),
        distinct_tiles(p@),
        occ(b, p@, (x0 as int, y0 as int)),
    ensures
        word_matches(b, p@, w@, word_v(b, p@, (x0 as int, y0 as int))),
        1 <= w@.len() <= b.spec_height(),
        forall|k: int| 0 <= k < w@.len() ==> b.spec_in_bounds(tile_coord(#[trigger] w@[k])),
{
    proof {
        lemma_wf_dims(b);
        lemma_run_start_v_props(b, p@, x0 as int, y0 as int);
        lemma_run_end_v_props(b, p@, x0 as int, y0 as int);
    }
    let mut s = y0;
    while s > 0 && b.occupied_at(p, x0, s - 1)
        invariant
            b.wf(),
            s <= y0,
            run_start_v(b, p@, x0 as int, s as int) == run_start_v(
                b,
                p@,
                x0 as int,
                y0 as int,
            ),
        decreases s,
    {
        s = s - 1;
    }
    assert(s as int == run_start_v(b, p@, x0 as int, y0 as int));
    let mut e = y0;
    while b.occupied_at(p, x0, e + 1)
        invariant
            b.wf(),
            b.spec_height() <= 15,
            y0 <= e < b.spec_height(),
            run_end_v(b, p@, x0 as int, e as int) == run_end_v(b, p@, x0 as int, y0 as int),
        decreases b.spec_height() - e,
    {
        e = e + 1;
    }
    assert(e as int == run_end_v(b, p@, x0 as int, y0 as int));
    let ghost coords = word_v(b, p@, (x0 as int, y0 as int));
    let mut w: Vec<Tile> = Vec::new();
    let mut y = s;
    while y <= e
        invariant
            b.wf(),
            b.spec_height() <= 15,
            distinct_tiles(p@),
            occ(b, p@, (x0 as int, y0 as int)),
            s as int == run_start_v(b, p@, x0 as int, y0 as int),
            e as int == run_end_v(b, p@, x0 as int, y0 as int),
            s <= y0 <= e < b.spec_height(),
            coords == word_v(b, p@, (x0 as int, y0 as int)),
            s <= y <= e + 1,
            w@.len() == y - s,
            forall|k: int|
                0 <= k < w@.len() ==> tile_coord(#[trigger] w@[k]) == coords[k] && w@[k].2
                    == letter_at(b, p@, coords[k]) && b.spec_in_bounds(tile_coord(w@[k])),
        decreases e + 1 - y,
    {
        proof {
            if y <= y0 {
                lemma_run_start_v_occ(b, p@, x0 as int, y0 as int, y as int);
            } else {
                lemma_run_end_v_occ(b, p@, x0 as int, y0 as int, y as int);
            }
            assert(coords[y - s] == (x0 as int, y as int));
        }
        let l = letter_lookup(b, p, x0, y);
        w.push((x0, y, l));
        y = y + 1;
    }
    w
}

/// Extract every formed word of the placement `p`: the main run along
/// the placement's line, then the perpendicular cross runs, keeping
/// those of length at least two.
pub(crate) fn extract_words(b: &Board, p: &Vec<Tile>) -> (words: Vec<Vec<Tile>>)
    requires
        b.wf(),
        p@.len() > 0,
        distinct_tiles(p@),
        same_row(p@) || same_col(p@),
        forall|i: int| 0 <= i < p@.len() ==> b.spec_in_bounds(tile_coord(#[trigger] p@[i])),
    ensures
        all_words_match(b, p@, words@, formed_words(b, p@)),
        words@.len() <= p@.len() + 1,
        forall|k: int| 0 <= k < words@.len() ==> 2 <= (#[trigger] words@[k])@.len() <= 15,
        forall|k: int, j: int| #![trigger words@[k]@[j]]
            0 <= k < words@.len() && 0 <= j < words@[k]@.len() ==> b.spec_in_bounds(
                tile_coord(words@[k]@[j]),
            ),
{
    proof {
        lemma_wf_dims(b);
    }
    let same_r = is_same_row(p);
    let t0 = p[0];
    proof {
        assert(tile_coord(p@[0]) == (t0.0 as int, t0.1 as int));
        assert(covers(p@, (t0.0 as int, t0.1 as int)));
        assert(occ(b, p@, (t0.0 as int, t0.1 as int)));
    }
    let mw = if same_r {
        extract_word_h(b, p, t0.0, t0.1)
    } else {
        extract_word_v(b, p, t0.0, t0.1)
    };
    proof {
        assert(word_matches(b, p@, mw@, main_word(b, p@)));
    }
    let ghost main_part: Seq<Seq<(int, int)>> = if main_word(b, p@).len() >= 2 {
        seq![main_word(b, p@)]
    } else {
        Seq::empty()
    };
    let mut words: Vec<Vec<Tile>> = Vec::new();
    if mw.len() >= 2 {
        words.push(mw);
    }
    proof {
        assert(all_words_match(b, p@, words@, main_part));
        assert(cross_words_upto(b, p@, 0) =~= Seq::<Seq<(int, int)>>::empty());
        assert(main_part + cross_words_upto(b, p@, 0) =~= main_part);
    }
    let mut i: usize = 0;
    while i < p.len()
        invariant
            b.wf(),
            b.spec_width() <= 15,
            b.spec_height() <= 15,
            p@.len() > 0,
            distinct_tiles(p@),
            same_r == same_row(p@),
            same_row(p@) || same_col(p@),
            forall|k: int| 0 <= k < p@.len() ==> b.spec_in_bounds(tile_coord(#[trigger] p@[k])),
            i <= p@.len(),
            all_words_match(b, p@, words@, main_part + cross_words_upto(b, p@, i as int)),
            words@.len() <= 1 + i,
            forall|k: int| 0 <= k < words@.len() ==> 2 <= (#[trigger] words@[k])@.len() <= 15,
            forall|k: int, j: int| #![trigger words@[k]@[j]]
                0 <= k < words@.len() && 0 <= j < words@[k]@.len() ==> b.spec_in_bounds(
                    tile_coord(words@[k]@[j]),
                ),
        decreases p@.len() - i,
    {
        let ti = p[i];
        proof {
            assert(tile_coord(p@[i as int]) == (ti.0 as int, ti.1 as int));
            assert(covers(p@, (ti.0 as int, ti.1 as int)));
            assert(occ(b, p@, (ti.0 as int, ti.1 as int)));
        }
        let cw = if same_r {
            extract_word_v(b, p, ti.0, ti.1)
        } else {
            extract_word_h(b, p, ti.0, ti.1)
        };
        proof {
            assert(word_matches(b, p@, cw@, cross_word(b, p@, i as int)));
        }
        let ghost words0 = words@;
        if cw.len() >= 2 {
            words.push(cw);
        }
        proof {
            let up1 = cross_words_upto(b, p@, i as int + 1);
            assert(up1 == cross_words_upto(b, p@, i as int) + (if cross_word(
                b,
                p@,
                i as int,
            ).len() >= 2 {
                seq![cross_word(b, p@, i as int)]
            } else {
                Seq::<Seq<(int, int)>>::empty()
            }));
            if cw@.len() >= 2 {
                assert(main_part + up1 =~= (main_part + cross_words_upto(b, p@, i as int)).push(
                    cross_word(b, p@, i as int),
                ));
            } else {
                assert(main_part + up1 =~= main_part + cross_words_upto(b, p@, i as int));
            }
            assert(all_words_match(b, p@, words@, main_part + up1));
        }
        i = i + 1;
    }
    proof {
        assert(formed_words(b, p@) == main_part + cross_words_upto(b, p@, p@.len() as int));
    }
    words
}

} // verus!
