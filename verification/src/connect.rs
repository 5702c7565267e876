//! Connectivity of the placed tiles.
//!
//! The board is connected when its placed cells form at most one
//! 4-connected component (von Neumann neighborhood: up, down, left, right;
//! never diagonal). The definitions here are parametrized by a sequence of
//! hypothetical extra tiles, so the same notion serves both the committed
//! board and a candidate placement being validated.

use crate::board::Board;
use crate::board::lemma_flat_in_range;
use crate::board::lemma_wf_dims;
use crate::board::lemma_flat_injective;
use vstd::prelude::*;

verus! {

/// One candidate tile: column, row, letter.
pub type Tile = (usize, usize, char);

/// The board coordinate a candidate tile covers.
pub open spec fn tile_coord(t: Tile) -> (int, int) {
    (t.0 as int, t.1 as int)
}

/// 4-adjacency (rook move of length one).
pub open spec fn adj4(a: (int, int), b: (int, int)) -> bool {
    ||| (a.0 == b.0 && (a.1 == b.1 + 1 || a.1 + 1 == b.1))
    ||| (a.1 == b.1 && (a.0 == b.0 + 1 || a.0 + 1 == b.0))
}

/// 8-adjacency (king move of length one).
pub open spec fn adj8(a: (int, int), b: (int, int)) -> bool {
    a != b && -1 <= a.0 - b.0 <= 1 && -1 <= a.1 - b.1 <= 1
}

/// Whether some tile of `p` covers coordinate `c`.
pub open spec fn covers(p: Seq<Tile>, c: (int, int)) -> bool {
    exists|i: int| 0 <= i < p.len() && tile_coord(#[trigger] p[i]) == c
}

/// Whether `c` holds a letter once the tiles of `p` are hypothetically
/// committed onto `b`: already placed, or covered in-bounds by `p`.
pub open spec fn occ(b: &Board, p: Seq<Tile>, c: (int, int)) -> bool {
    b.placed_at(c) || (b.spec_in_bounds(c) && covers(p, c))
}

/// A nonempty sequence of occupied coordinates, each 4-adjacent to its
/// predecessor.
pub open spec fn is_path(b: &Board, p: Seq<Tile>, path: Seq<(int, int)>) -> bool {
    &&& path.len() > 0
    &&& forall|i: int| 0 <= i < path.len() ==> occ(b, p, #[trigger] path[i])
    &&& forall|i: int| 0 < i < path.len() ==> adj4(path[i - 1], #[trigger] path[i])
}

/// Whether a 4-adjacency path of occupied cells leads from `c` to `d`.
pub open spec fn reaches(b: &Board, p: Seq<Tile>, c: (int, int), d: (int, int)) -> bool {
    exists|path: Seq<(int, int)>|
        #[trigger] is_path(b, p, path) && path.first() == c && path.last() == d
}

/// Whether the occupied cells of `b` plus `p` form at most one 4-connected
/// component (an empty board is vacuously connected).
pub open spec fn tiles_connected(b: &Board, p: Seq<Tile>) -> bool {
    forall|c: (int, int), d: (int, int)| #![trigger occ(b, p, c), occ(b, p, d)]
        occ(b, p, c) && occ(b, p, d) ==> reaches(b, p, c, d)
}

/// Connectivity of the board's own placed tiles.
pub open spec fn all_connected(b: &Board) -> bool {
    tiles_connected(b, Seq::<Tile>::empty())
}

/// An occupied cell reaches itself.
pub proof fn lemma_reach_self(b: &Board, p: Seq<Tile>, c: (int, int))
    requires
        occ(b, p, c),
    ensures
        reaches(b, p, c, c),
{
    let path = seq![c];
    assert(is_path(b, p, path));
}

/// One 4-adjacent hop between occupied cells is a path.
pub proof fn lemma_reach_step(b: &Board, p: Seq<Tile>, c: (int, int), d: (int, int))
    requires
        occ(b, p, c),
        occ(b, p, d),
        adj4(c, d),
    ensures
        reaches(b, p, c, d),
{
    let path = seq![c, d];
    assert(path[0] == c && path[1] == d);
    assert(is_path(b, p, path));
}

/// Reachability is symmetric: reverse the path.
pub proof fn lemma_reach_sym(b: &Board, p: Seq<Tile>, c: (int, int), d: (int, int))
    requires
        reaches(b, p, c, d),
    ensures
        reaches(b, p, d, c),
{
    let path = choose|path: Seq<(int, int)>|
        #[trigger] is_path(b, p, path) && path.first() == c && path.last() == d;
    let n = path.len() as int;
    let rev = Seq::new(path.len(), |i: int| path[n - 1 - i]);
    assert(is_path(b, p, rev)) by {
        assert forall|i: int| 0 < i < rev.len() implies adj4(rev[i - 1], #[trigger] rev[i]) by {
            assert(rev[i - 1] == path[n - i]);
            assert(rev[i] == path[n - 1 - i]);
            assert(adj4(path[n - 1 - i], path[n - i]));
        }
    }
    assert(rev.first() == d && rev.last() == c);
}

/// Reachability is transitive: concatenate the paths.
pub proof fn lemma_reach_trans(b: &Board, p: Seq<Tile>, c: (int, int), d: (int, int), e: (int, int))
    requires
        reaches(b, p, c, d),
        reaches(b, p, d, e),
    ensures
        reaches(b, p, c, e),
{
    let p1 = choose|path: Seq<(int, int)>|
        #[trigger] is_path(b, p, path) && path.first() == c && path.last() == d;
    let p2 = choose|path: Seq<(int, int)>|
        #[trigger] is_path(b, p, path) && path.first() == d && path.last() == e;
    let cat = p1 + p2.drop_first();
    let n1 = p1.len() as int;
    assert(is_path(b, p, cat)) by {
        assert forall|i: int| 0 <= i < cat.len() implies occ(b, p, #[trigger] cat[i]) by {
            if i < n1 {
                assert(cat[i] == p1[i]);
            } else {
                assert(cat[i] == p2[i - n1 + 1]);
            }
        }
        assert forall|i: int| 0 < i < cat.len() implies adj4(cat[i - 1], #[trigger] cat[i]) by {
            if i < n1 {
                assert(cat[i - 1] == p1[i - 1] && cat[i] == p1[i]);
            } else if i == n1 {
                assert(cat[i - 1] == p1[n1 - 1]);
                assert(cat[i] == p2[1]);
                assert(p1[n1 - 1] == d && p2[0] == d);
                assert(adj4(p2[0], p2[1]));
            } else {
                assert(cat[i - 1] == p2[i - n1]);
                assert(cat[i] == p2[i - n1 + 1]);
                assert(adj4(p2[i - n1], p2[i - n1 + 1]));
            }
        }
    }
    assert(cat.first() == c);
    assert(cat.last() == e) by {
        if p2.len() == 1 {
            assert(cat =~= p1);
        } else {
            assert(cat.last() == p2.last());
        }
    }
}

/// A path survives any change of board or hypothetical tiles that keeps
/// (or grows) the set of occupied cells.
pub proof fn lemma_reach_monotone(
    b1: &Board,
    p1: Seq<Tile>,
    b2: &Board,
    p2: Seq<Tile>,
    c: (int, int),
    d: (int, int),
)
    requires
        reaches(b1, p1, c, d),
        forall|e: (int, int)| occ(b1, p1, e) ==> occ(b2, p2, e),
    ensures
        reaches(b2, p2, c, d),
{
    let path = choose|path: Seq<(int, int)>|
        #[trigger] is_path(b1, p1, path) && path.first() == c && path.last() == d;
    assert(is_path(b2, p2, path)) by {
        assert forall|i: int| 0 <= i < path.len() implies occ(b2, p2, #[trigger] path[i]) by {
            assert(occ(b1, p1, path[i]));
        }
    }
}

/// An all-empty board is vacuously connected.
pub proof fn lemma_empty_board_connected(b: &Board)
    requires
        forall|c: (int, int)| !b.placed_at(c),
    ensures
        all_connected(b),
{
    let p = Seq::<Tile>::empty();
    assert forall|c: (int, int), d: (int, int)| #![trigger occ(b, p, c), occ(b, p, d)]
        occ(b, p, c) && occ(b, p, d) implies reaches(b, p, c, d) by {
        assert(!covers(p, c));
        assert(!b.placed_at(c));
        assert(false);
    }
}

/// A board whose only placed cell is `t` is connected.
pub proof fn lemma_single_tile_connected(b: &Board, t: (int, int))
    requires
        b.placed_at(t),
        forall|c: (int, int)| b.placed_at(c) ==> c == t,
    ensures
        all_connected(b),
{
    let p = Seq::<Tile>::empty();
    assert forall|c: (int, int), d: (int, int)| #![trigger occ(b, p, c), occ(b, p, d)]
        occ(b, p, c) && occ(b, p, d) implies reaches(b, p, c, d) by {
        assert(!covers(p, c));
        assert(!covers(p, d));
        assert(c == t && d == t);
        lemma_reach_self(b, p, t);
    }
}

/// Adding one tile 4-adjacent to some placed cell of a connected board
/// keeps everything connected.
pub proof fn lemma_extend_cluster(b: &Board, t: Tile, d: (int, int))
    requires
        all_connected(b),
        b.placed_at(d),
        b.spec_in_bounds(tile_coord(t)),
        adj4(tile_coord(t), d),
    ensures
        tiles_connected(b, seq![t]),
{
    let p = seq![t];
    let empty_p = Seq::<Tile>::empty();
    let c0 = tile_coord(t);
    assert(occ(b, p, c0)) by {
        assert(tile_coord(p[0]) == c0);
    }
    assert forall|e: (int, int)| occ(b, empty_p, e) implies occ(b, p, e) by {}
    assert(occ(b, p, d));
    assert forall|u: (int, int)| occ(b, p, u) implies reaches(b, p, u, c0) by {
        if u == c0 {
            lemma_reach_self(b, p, c0);
        } else {
            assert(covers(p, u) ==> u == c0);
            assert(b.placed_at(u));
            assert(occ(b, empty_p, u));
            assert(occ(b, empty_p, d));
            assert(reaches(b, empty_p, u, d));
            lemma_reach_monotone(b, empty_p, b, p, u, d);
            assert(adj4(d, c0));
            lemma_reach_step(b, p, d, c0);
            lemma_reach_trans(b, p, u, d, c0);
        }
    }
    assert forall|u: (int, int), v: (int, int)| #![trigger occ(b, p, u), occ(b, p, v)]
        occ(b, p, u) && occ(b, p, v) implies reaches(b, p, u, v) by {
        assert(reaches(b, p, u, c0));
        assert(reaches(b, p, v, c0));
        lemma_reach_sym(b, p, v, c0);
        lemma_reach_trans(b, p, u, c0, v);
    }
}

/// Two placed cells with no 4-adjacency path between them make the board
/// disconnected.
pub proof fn lemma_unreachable_pair_disconnected(b: &Board, c: (int, int), d: (int, int))
    requires
        b.placed_at(c),
        b.placed_at(d),
        !reaches(b, Seq::<Tile>::empty(), c, d),
    ensures
        !all_connected(b),
{
    let p = Seq::<Tile>::empty();
    if all_connected(b) {
        assert(occ(b, p, c));
        assert(occ(b, p, d));
        assert(reaches(b, p, c, d));
    }
}

/// Placing one tile 4-adjacent to a placed cell of a connected board
/// leaves the resulting board connected: `b2` here is `b1` with exactly
/// the tile `t` added.
pub proof fn lemma_place_adjacent_preserves_connected(
    b1: &Board,
    t: Tile,
    d: (int, int),
    b2: &Board,
)
    requires
        all_connected(b1),
        b1.placed_at(d),
        b1.spec_in_bounds(tile_coord(t)),
        adj4(tile_coord(t), d),
        forall|c: (int, int)| #[trigger] b2.placed_at(c) <==> occ(b1, seq![t], c),
    ensures
        all_connected(b2),
{
    lemma_extend_cluster(b1, t, d);
    lemma_connected_after_commit(b1, seq![t], b2);
}

/// Connectivity carries over from "board plus hypothetical tiles" to the
/// board that actually holds those tiles, and back.
pub proof fn lemma_connected_after_commit(b1: &Board, p: Seq<Tile>, b2: &Board)
    requires
        forall|c: (int, int)| #[trigger] b2.placed_at(c) <==> occ(b1, p, c),
    ensures
        all_connected(b2) == tiles_connected(b1, p),
{
    let empty_p = Seq::<Tile>::empty();
    assert forall|e: (int, int)| #![trigger occ(b2, empty_p, e)] #![trigger occ(b1, p, e)]
        occ(b2, empty_p, e) == occ(b1, p, e) by {
        assert(!covers(empty_p, e));
    }
    if tiles_connected(b1, p) {
        assert forall|u: (int, int), v: (int, int)|
            #![trigger occ(b2, empty_p, u), occ(b2, empty_p, v)]
            occ(b2, empty_p, u) && occ(b2, empty_p, v) implies reaches(b2, empty_p, u, v) by {
            assert(occ(b1, p, u) && occ(b1, p, v));
            assert(reaches(b1, p, u, v));
            lemma_reach_monotone(b1, p, b2, empty_p, u, v);
        }
        assert(all_connected(b2));
    }
    if all_connected(b2) {
        assert forall|u: (int, int), v: (int, int)| #![trigger occ(b1, p, u), occ(b1, p, v)]
            occ(b1, p, u) && occ(b1, p, v) implies reaches(b1, p, u, v) by {
            assert(occ(b2, empty_p, u) && occ(b2, empty_p, v));
            assert(reaches(b2, empty_p, u, v));
            lemma_reach_monotone(b2, empty_p, b1, p, u, v);
        }
        assert(tiles_connected(b1, p));
    }
}

/// Whether any of the up-to-8 king-move neighbors of `c` holds a placed
/// letter.
pub open spec fn touches_any_tile(b: &Board, c: (int, int)) -> bool {
    exists|d: (int, int)| #[trigger] adj8(c, d) && b.placed_at(d)
}

/// The row-major index of coordinate `c` on board `b`.
pub open spec fn flat_index(b: &Board, c: (int, int)) -> int {
    c.1 * b.spec_width() + c.0
}

/// The coordinate a queue entry denotes.
pub open spec fn coord_of(t: (usize, usize)) -> (int, int) {
    (t.0 as int, t.1 as int)
}

/// Number of `true` entries in a boolean sequence.
pub open spec fn count_true(s: Seq<bool>) -> nat
    decreases s.len(),
{
    if s.len() == 0 {
        0
    } else {
        count_true(s.drop_last()) + (if s.last() {
            1nat
        } else {
            0nat
        })
    }
}

proof fn lemma_count_true_le(s: Seq<bool>)
    ensures
        count_true(s) <= s.len(),
    decreases s.len(),
{
    if s.len() > 0 {
        lemma_count_true_le(s.drop_last());
    }
}

proof fn lemma_count_true_update(s: Seq<bool>, i: int)
    requires
        0 <= i < s.len(),
        !s[i],
    ensures
        count_true(s.update(i, true)) == count_true(s) + 1,
    decreases s.len(),
{
    let t = s.update(i, true);
    if i == s.len() - 1 {
        assert(t.drop_last() =~= s.drop_last());
    } else {
        assert(t.drop_last() =~= s.drop_last().update(i, true));
        lemma_count_true_update(s.drop_last(), i);
        assert(t.last() == s.last());
    }
}

/// Whether some candidate tile of `extra` covers `(x, y)`.
pub(crate) fn covered_by(extra: &Vec<Tile>, x: usize, y: usize) -> (r: bool)
    ensures
        r == covers(extra@, (x as int, y as int)),
{
    let mut i: usize = 0;
    while i < extra.len()
        invariant
            i <= extra@.len(),
            forall|k: int|
                0 <= k < i ==> tile_coord(#[trigger] extra@[k]) != (x as int, y as int),
        decreases extra@.len() - i,
    {
        if extra[i].0 == x && extra[i].1 == y {
            return true;
        }
        i = i + 1;
    }
    false
}

/// The invariant of the breadth-first traversal. `visited` marks cells by
/// row-major index; entries of `queue` before `qh` have been expanded;
/// `vc` counts the marked cells; `sc` is the traversal's start.
pub open spec fn bfs_inv(
    b: &Board,
    p: Seq<Tile>,
    visited: Seq<bool>,
    vc: int,
    queue: Seq<(usize, usize)>,
    qh: int,
    sc: (int, int),
) -> bool {
    &&& b.wf()
    &&& visited.len() == b.spec_width() * b.spec_height()
    &&& 0 <= qh <= queue.len()
    &&& occ(b, p, sc)
    &&& b.spec_in_bounds(sc)
    &&& visited[flat_index(b, sc)]
    &&& vc == count_true(visited)
    &&& vc <= visited.len()
    &&& queue.len() <= vc
    &&& forall|j: int|
        0 <= j < queue.len() ==> b.spec_in_bounds(coord_of(#[trigger] queue[j]))
            && visited[flat_index(b, coord_of(queue[j]))]
    &&& forall|c: (int, int)|
        b.spec_in_bounds(c) && visited[#[trigger] flat_index(b, c)] ==> occ(b, p, c) && reaches(
            b,
            p,
            sc,
            c,
        )
    &&& forall|c: (int, int)|
        b.spec_in_bounds(c) && visited[#[trigger] flat_index(b, c)] ==> exists|j: int|
            0 <= j < queue.len() && coord_of(queue[j]) == c
    &&& forall|j: int, d: (int, int)|
        0 <= j < qh && #[trigger] adj4(coord_of(#[trigger] queue[j]), d) && occ(b, p, d)
            ==> visited[flat_index(b, d)]
}

/// Along any path of occupied cells, once the first cell is marked and
/// every queue entry's occupied neighbors are marked, the last cell is
/// marked too.
proof fn lemma_path_visited(
    b: &Board,
    p: Seq<Tile>,
    visited: Seq<bool>,
    queue: Seq<(usize, usize)>,
    path: Seq<(int, int)>,
)
    requires
        b.wf(),
        visited.len() == b.spec_width() * b.spec_height(),
        forall|c: (int, int)|
            b.spec_in_bounds(c) && visited[#[trigger] flat_index(b, c)] ==> exists|j: int|
                0 <= j < queue.len() && coord_of(queue[j]) == c,
        forall|j: int, d: (int, int)|
            0 <= j < queue.len() && #[trigger] adj4(coord_of(#[trigger] queue[j]), d) && occ(
                b,
                p,
                d,
            ) ==> visited[flat_index(b, d)],
        is_path(b, p, path),
        b.spec_in_bounds(path.first()),
        visited[flat_index(b, path.first())],
    ensures
        visited[flat_index(b, path.last())],
    decreases path.len(),
{
    if path.len() > 1 {
        let pre = path.drop_last();
        assert(is_path(b, p, pre)) by {
            assert(forall|i: int| 0 <= i < pre.len() ==> #[trigger] pre[i] == path[i]);
        }
        lemma_path_visited(b, p, visited, queue, pre);
        let u = pre.last();
        assert(occ(b, p, u));
        assert(b.spec_in_bounds(u));
        let j = choose|j: int| 0 <= j < queue.len() && coord_of(queue[j]) == u;
        let d = path.last();
        assert(adj4(path[path.len() - 2], path[path.len() - 1]));
        assert(adj4(coord_of(queue[j]), d));
        assert(occ(b, p, d));
    }
}

impl Board {
    /// Whether `(x, y)` is occupied once `extra` is hypothetically
    /// committed.
    pub(crate) fn occupied_at(&self, extra: &Vec<Tile>, x: usize, y: usize) -> (r: bool)
        requires
            self.wf(),
        ensures
            r == occ(self, extra@, (x as int, y as int)),
    {
        if self.is_placed(x, y) {
            return true;
        }
        if x < self.width() && y < self.height() {
            covered_by(extra, x, y)
        } else {
            false
        }
    }

    /// One step of the traversal: mark and enqueue the neighbor
    /// `(nx, ny)` of the expanded cell `cur` if it is occupied and new.
    #[verifier::rlimit(100)]
    fn bfs_visit(
        &self,
        extra: &Vec<Tile>,
        visited: &mut Vec<bool>,
        visited_count: &mut usize,
        queue: &mut Vec<(usize, usize)>,
        Ghost(qh): Ghost<int>,
        Ghost(sc): Ghost<(int, int)>,
        cur: (usize, usize),
        nx: usize,
        ny: usize,
    )
        requires
            bfs_inv(self, extra@, old(visited)@, *old(visited_count) as int, old(queue)@, qh, sc),
            self.spec_in_bounds(coord_of(cur)),
            old(visited)@[flat_index(self, coord_of(cur))],
            self.spec_in_bounds((nx as int, ny as int)),
            adj4(coord_of(cur), (nx as int, ny as int)),
        ensures
            bfs_inv(
                self,
                extra@,
                final(visited)@,
                *final(visited_count) as int,
                final(queue)@,
                qh,
                sc,
            ),
            final(queue)@.len() >= old(queue)@.len(),
            forall|j: int| 0 <= j < old(queue)@.len() ==> final(queue)@[j] == old(queue)@[j],
            forall|i: int|
                0 <= i < old(visited)@.len() && old(visited)@[i] ==> final(visited)@[i],
            occ(self, extra@, (nx as int, ny as int)) ==> final(visited)@[flat_index(
                self,
                (nx as int, ny as int),
            )],
            *final(visited_count) >= *old(visited_count),
            final(queue)@.len() > old(queue)@.len() ==> *final(visited_count) > *old(
                visited_count,
            ),
            final(queue)@.len() == old(queue)@.len() ==> *final(visited_count) == *old(
                visited_count,
            ),
    {
        let ghost nc: (int, int) = (nx as int, ny as int);
        proof {
            lemma_wf_dims(self);
            lemma_flat_in_range(self.spec_width(), self.spec_height(), nx as int, ny as int);
        }
        let idx = ny * self.width() + nx;
        if self.occupied_at(extra, nx, ny) && !visited[idx] {
            proof {
                lemma_count_true_update(visited@, idx as int);
                lemma_count_true_le(visited@.update(idx as int, true));
            }
            visited[idx] = true;
            *visited_count = *visited_count + 1;
            queue.push((nx, ny));
            proof {
                assert(visited@ =~= old(visited)@.update(idx as int, true));
                assert(queue@ =~= old(queue)@.push((nx, ny)));
                assert forall|jj: int|
                    0 <= jj < old(queue)@.len() implies queue@[jj] == old(queue)@[jj] by {}
                assert forall|i: int|
                    0 <= i < old(visited)@.len() && old(visited)@[i] implies visited@[i] by {}
                lemma_flat_in_range(self.spec_width(), self.spec_height(), sc.0, sc.1);
                assert(visited@[flat_index(self, sc)]);
                assert forall|j: int|
                    0 <= j < queue@.len() implies self.spec_in_bounds(
                    coord_of(#[trigger] queue@[j]),
                ) && visited@[flat_index(self, coord_of(queue@[j]))] by {
                    if j < old(queue)@.len() {
                        let c = coord_of(old(queue)@[j]);
                        lemma_flat_in_range(self.spec_width(), self.spec_height(), c.0, c.1);
                    }
                }
                // the newly marked cell is occupied and reachable from the start
                assert(occ(self, extra@, coord_of(cur)));
                assert(reaches(self, extra@, sc, coord_of(cur)));
                lemma_reach_step(self, extra@, coord_of(cur), nc);
                lemma_reach_trans(self, extra@, sc, coord_of(cur), nc);
                // the mark changed no other cell
                assert forall|c: (int, int)|
                    self.spec_in_bounds(c) && c != nc implies #[trigger] flat_index(self, c)
                        != idx as int by {
                    lemma_flat_in_range(self.spec_width(), self.spec_height(), c.0, c.1);
                    if flat_index(self, c) == idx as int {
                        lemma_flat_injective(self.spec_width(), nx as int, ny as int, c.0, c.1);
                    }
                }
                // every marked cell is occupied, reached, and names a queue entry
                assert forall|c: (int, int)|
                    self.spec_in_bounds(c) && visited@[#[trigger] flat_index(self, c)] implies occ(
                    self,
                    extra@,
                    c,
                ) && reaches(self, extra@, sc, c) && exists|j: int|
                    0 <= j < queue@.len() && coord_of(queue@[j]) == c by {
                    if c == nc {
                        assert(coord_of(queue@[queue@.len() - 1]) == c);
                    } else {
                        lemma_flat_in_range(self.spec_width(), self.spec_height(), c.0, c.1);
                        assert(flat_index(self, c) != idx as int);
                        assert(old(visited)@[flat_index(self, c)]);
                        let j = choose|j: int|
                            0 <= j < old(queue)@.len() && coord_of(old(queue)@[j]) == c;
                        assert(coord_of(queue@[j]) == c);
                    }
                }
            }
        }
    }

    /// Whether the placed tiles, together with the hypothetical extra
    /// tiles of `extra`, form at most one 4-connected component.
    ///
    /// Breadth-first traversal from an arbitrary occupied cell, following
    /// only occupied 4-neighbors; connected iff no occupied cell is left
    /// unvisited when the queue drains.
    #[verifier::rlimit(60)]
    pub fn connected_with(&self, extra: &Vec<Tile>) -> (r: bool)
        requires
            self.wf(),
        ensures
            r == tiles_connected(self, extra@),
    {
        let w = self.width();
        let h = self.height();
        proof {
            lemma_wf_dims(self);
            lemma_flat_in_range(w as int, h as int, 0, 0);
        }
        let n = w * h;

        // find an arbitrary occupied cell to start from
        let mut found: bool = false;
        let mut sx: usize = 0;
        let mut sy: usize = 0;
        let mut y: usize = 0;
        while y < h
            invariant
                self.wf(),
                w == self.spec_width(),
                h == self.spec_height(),
                y <= h,
                !found ==> forall|c: (int, int)|
                    self.spec_in_bounds(c) && c.1 < y ==> !occ(self, extra@, c),
                found ==> self.spec_in_bounds((sx as int, sy as int)) && occ(
                    self,
                    extra@,
                    (sx as int, sy as int),
                ),
            decreases h - y,
        {
            let mut x: usize = 0;
            while x < w
                invariant
                    self.wf(),
                    w == self.spec_width(),
                    h == self.spec_height(),
                    x <= w,
                    y < h,
                    !found ==> forall|c: (int, int)|
                        self.spec_in_bounds(c) && (c.1 < y || (c.1 == y && c.0 < x)) ==> !occ(
                            self,
                            extra@,
                            c,
                        ),
                    found ==> self.spec_in_bounds((sx as int, sy as int)) && occ(
                        self,
                        extra@,
                        (sx as int, sy as int),
                    ),
                decreases w - x,
            {
                if !found && self.occupied_at(extra, x, y) {
                    found = true;
                    sx = x;
                    sy = y;
                }
                x = x + 1;
            }
            y = y + 1;
        }
        if !found {
            proof {
                assert forall|c: (int, int)| !occ(self, extra@, c) by {
                    if self.spec_in_bounds(c) {
                        assert(c.1 < h);
                    }
                }
            }
            return true;
        }

        // breadth-first traversal from (sx, sy)
        let ghost sc: (int, int) = (sx as int, sy as int);
        let mut visited: Vec<bool> = Vec::new();
        let mut i: usize = 0;
        while i < n
            invariant
                i <= n,
                visited@.len() == i,
                count_true(visited@) == 0,
                forall|k: int| 0 <= k < i ==> !(#[trigger] visited@[k]),
            decreases n - i,
        {
            let ghost pre = visited@;
            visited.push(false);
            proof {
                assert(visited@.drop_last() =~= pre);
            }
            i = i + 1;
        }
        proof {
            lemma_wf_dims(self);
            lemma_flat_in_range(w as int, h as int, sx as int, sy as int);
            lemma_count_true_update(visited@, sy as int * w as int + sx as int);
        }
        let start_flat = sy * w + sx;
        visited[start_flat] = true;
        let mut visited_count: usize = 1;
        let mut queue: Vec<(usize, usize)> = Vec::new();
        queue.push((sx, sy));
        let mut qh: usize = 0;
        proof {
            lemma_reach_self(self, extra@, sc);
            assert forall|c: (int, int)|
                self.spec_in_bounds(c) && visited@[#[trigger] flat_index(self, c)] implies c
                == sc by {
                lemma_flat_in_range(w as int, h as int, c.0, c.1);
                if flat_index(self, c) == start_flat as int {
                    lemma_flat_injective(w as int, sx as int, sy as int, c.0, c.1);
                } else {
                    assert(!visited@[flat_index(self, c)]);
                }
            }
            assert(coord_of(queue@[0]) == sc);
            lemma_count_true_le(visited@);
            assert(bfs_inv(self, extra@, visited@, visited_count as int, queue@, qh as int, sc));
        }
        while qh < queue.len()
            invariant
                bfs_inv(self, extra@, visited@, visited_count as int, queue@, qh as int, sc),
                w == self.spec_width(),
                h == self.spec_height(),
                n == w * h,
            decreases n - visited_count, queue@.len() - qh,
        {
            let cur = queue[qh];
            let cx = cur.0;
            let cy = cur.1;
            let ghost qh0: int = qh as int;
            let ghost queue0 = queue@;
            assert(self.spec_in_bounds(coord_of(cur)));
            if cx > 0 {
                self.bfs_visit(
                    extra,
                    &mut visited,
                    &mut visited_count,
                    &mut queue,
                    Ghost(qh0),
                    Ghost(sc),
                    cur,
                    cx - 1,
                    cy,
                );
            }
            if cx + 1 < w {
                self.bfs_visit(
                    extra,
                    &mut visited,
                    &mut visited_count,
                    &mut queue,
                    Ghost(qh0),
                    Ghost(sc),
                    cur,
                    cx + 1,
                    cy,
                );
            }
            if cy > 0 {
                self.bfs_visit(
                    extra,
                    &mut visited,
                    &mut visited_count,
                    &mut queue,
                    Ghost(qh0),
                    Ghost(sc),
                    cur,
                    cx,
                    cy - 1,
                );
            }
            if cy + 1 < h {
                self.bfs_visit(
                    extra,
                    &mut visited,
                    &mut visited_count,
                    &mut queue,
                    Ghost(qh0),
                    Ghost(sc),
                    cur,
                    cx,
                    cy + 1,
                );
            }
            proof {
                // the expanded cell's occupied neighbors are now all marked
                assert forall|d: (int, int)|
                    #[trigger] adj4(coord_of(cur), d) && occ(self, extra@, d) implies visited@[flat_index(
                    self,
                    d,
                )] by {
                    assert(self.spec_in_bounds(d));
                }
                assert(queue@[qh0] == cur);
            }
            qh = qh + 1;
        }

        // the queue drained: check for an occupied cell never reached
        let mut fy: usize = 0;
        while fy < h
            invariant
                bfs_inv(self, extra@, visited@, visited_count as int, queue@, qh as int, sc),
                qh == queue@.len(),
                w == self.spec_width(),
                h == self.spec_height(),
                fy <= h,
                forall|c: (int, int)|
                    self.spec_in_bounds(c) && c.1 < fy && occ(self, extra@, c)
                        ==> visited@[flat_index(self, c)],
            decreases h - fy,
        {
            let mut fx: usize = 0;
            while fx < w
                invariant
                    bfs_inv(self, extra@, visited@, visited_count as int, queue@, qh as int, sc),
                    qh == queue@.len(),
                    w == self.spec_width(),
                    h == self.spec_height(),
                    fx <= w,
                    fy < h,
                    forall|c: (int, int)|
                        self.spec_in_bounds(c) && (c.1 < fy || (c.1 == fy && c.0 < fx)) && occ(
                            self,
                            extra@,
                            c,
                        ) ==> visited@[flat_index(self, c)],
                decreases w - fx,
            {
                proof {
                    lemma_wf_dims(self);
                    lemma_flat_in_range(w as int, h as int, fx as int, fy as int);
                }
                if self.occupied_at(extra, fx, fy) && !visited[fy * w + fx] {
                    proof {
                        let ghost bad: (int, int) = (fx as int, fy as int);
                        assert(!reaches(self, extra@, sc, bad)) by {
                            if reaches(self, extra@, sc, bad) {
                                let path = choose|path: Seq<(int, int)>|
                                    #[trigger] is_path(self, extra@, path) && path.first() == sc
                                        && path.last() == bad;
                                lemma_path_visited(self, extra@, visited@, queue@, path);
                            }
                        }
                        assert(!tiles_connected(self, extra@)) by {
                            if tiles_connected(self, extra@) {
                                assert(occ(self, extra@, sc) && occ(self, extra@, bad));
                                assert(reaches(self, extra@, sc, bad));
                            }
                        }
                    }
                    return false;
                }
                fx = fx + 1;
            }
            fy = fy + 1;
        }
        proof {
            assert forall|c: (int, int), d: (int, int)|
                occ(self, extra@, c) && occ(self, extra@, d) implies reaches(
                self,
                extra@,
                c,
                d,
            ) by {
                assert(self.spec_in_bounds(c) && c.1 < h);
                assert(self.spec_in_bounds(d) && d.1 < h);
                assert(visited@[flat_index(self, c)]);
                assert(visited@[flat_index(self, d)]);
                assert(reaches(self, extra@, sc, c));
                assert(reaches(self, extra@, sc, d));
                lemma_reach_sym(self, extra@, sc, c);
                lemma_reach_trans(self, extra@, c, sc, d);
            }
        }
        true
    }

    /// Whether any of the up-to-8 king-move neighbors of `(x, y)`
    /// (diagonals included) currently holds a placed letter.
    ///
    /// Placement legality deliberately uses the permissive 8-neighborhood,
    /// while connectedness of the result uses the stricter 4-neighborhood.
    pub fn adjacent_to_existing_tile(&self, x: usize, y: usize) -> (r: bool)
        requires
            self.wf(),
        ensures
            r == touches_any_tile(self, (x as int, y as int)),
    {
        proof {
            lemma_wf_dims(self);
        }
        let w = self.width();
        let h = self.height();
        if x >= 1 {
            if self.is_placed(x - 1, y) {
                proof {
                    assert(adj8((x as int, y as int), (x as int - 1, y as int)));
                }
                return true;
            }
            if y >= 1 && self.is_placed(x - 1, y - 1) {
                proof {
                    assert(adj8((x as int, y as int), (x as int - 1, y as int - 1)));
                }
                return true;
            }
            if y < h && self.is_placed(x - 1, y + 1) {
                proof {
                    assert(adj8((x as int, y as int), (x as int - 1, y as int + 1)));
                }
                return true;
            }
        }
        if y >= 1 && self.is_placed(x, y - 1) {
            proof {
                assert(adj8((x as int, y as int), (x as int, y as int - 1)));
            }
            return true;
        }
        if y < h && self.is_placed(x, y + 1) {
            proof {
                assert(adj8((x as int, y as int), (x as int, y as int + 1)));
            }
            return true;
        }
        if x < w {
            if self.is_placed(x + 1, y) {
                proof {
                    assert(adj8((x as int, y as int), (x as int + 1, y as int)));
                }
                return true;
            }
            if y >= 1 && self.is_placed(x + 1, y - 1) {
                proof {
                    assert(adj8((x as int, y as int), (x as int + 1, y as int - 1)));
                }
                return true;
            }
            if y < h && self.is_placed(x + 1, y + 1) {
                proof {
                    assert(adj8((x as int, y as int), (x as int + 1, y as int + 1)));
                }
                return true;
            }
        }
        proof {
            assert forall|d: (int, int)|
                #[trigger] adj8((x as int, y as int), d) implies !self.placed_at(d) by {
                if self.placed_at(d) {
                    assert(0 <= d.0 < w && 0 <= d.1 < h);
                }
            }
        }
        false
    }

    /// Whether the set of placed cells forms exactly one 4-connected
    /// component or is empty (vacuously connected).
    pub fn all_tiles_connected(&self) -> (r: bool)
        requires
            self.wf(),
        ensures
            r == all_connected(self),
    {
        let no_extra: Vec<Tile> = Vec::new();
        let r = self.connected_with(&no_extra);
        proof {
            assert(no_extra@ =~= Seq::<Tile>::empty());
        }
        r
    }
}

} // verus!
