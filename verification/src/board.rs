//! The board model: cell contents, the row-major cell indexing, orthogonal
//! adjacency, and connectivity of same-valued cells along adjacency paths.
//! Groups of stones and empty regions are both maximal connected components
//! under this one notion of connectivity.

use vstd::prelude::*;
use vstd::arithmetic::div_mod::lemma_fundamental_div_mod_converse;

verus! {

/// The contents of one intersection of the board.
#[derive(Clone, Copy, Debug, PartialEq, Eq, Structural)]
pub enum Stone {
    Empty,
    Black,
    White,
}

/// A (row, col) pair addresses an intersection of the board.
pub open spec fn pos_ok(row: int, col: int) -> bool {
    0 <= row < 19 && 0 <= col < 19
}

/// A flat row-major cell index addresses an intersection of the board.
pub open spec fn idx_ok(i: int) -> bool {
    0 <= i < 361
}

pub open spec fn row_of(i: int) -> int {
    i / 19
}

pub open spec fn col_of(i: int) -> int {
    i % 19
}

/// Row-major flat index of a (row, col) position.
pub open spec fn cell_index(row: int, col: int) -> int {
    row * 19 + col
}

/// A board is a flat row-major sequence of 361 cells.
pub open spec fn board_ok(b: Seq<Stone>) -> bool {
    b.len() == 361
}

/// Two cells are orthogonal neighbors: same column and rows one apart, or
/// same row and columns one apart.
pub open spec fn adjacent(i: int, j: int) -> bool {
    &&& idx_ok(i)
    &&& idx_ok(j)
    &&& {
        ||| (col_of(i) == col_of(j) && (row_of(j) == row_of(i) + 1 || row_of(i) == row_of(j) + 1))
        ||| (row_of(i) == row_of(j) && (col_of(j) == col_of(i) + 1 || col_of(i) == col_of(j) + 1))
    }
}

/// Row and column of a row-major index recover the position it was built from.
pub proof fn lemma_cell_index(row: int, col: int)
    requires
        pos_ok(row, col),
    ensures
        idx_ok(cell_index(row, col)),
        row_of(cell_index(row, col)) == row,
        col_of(cell_index(row, col)) == col,
{
    lemma_fundamental_div_mod_converse(row * 19 + col, 19, row, col);
}

/// Every cell index is the row-major index of its own row and column.
pub proof fn lemma_index_cell(i: int)
    requires
        idx_ok(i),
    ensures
        pos_ok(row_of(i), col_of(i)),
        cell_index(row_of(i), col_of(i)) == i,
{
    lemma_fundamental_div_mod_converse(i, 19, i / 19, i % 19);
}

/// The cell one row up is adjacent.
pub proof fn lemma_adjacent_up(i: int)
    requires
        idx_ok(i),
        row_of(i) >= 1,
    ensures
        adjacent(i, i - 19),
        row_of(i - 19) == row_of(i) - 1,
        col_of(i - 19) == col_of(i),
{
    lemma_index_cell(i);
    lemma_fundamental_div_mod_converse(i - 19, 19, row_of(i) - 1, col_of(i));
}

/// The cell one row down is adjacent.
pub proof fn lemma_adjacent_down(i: int)
    requires
        idx_ok(i),
        row_of(i) <= 17,
    ensures
        adjacent(i, i + 19),
        row_of(i + 19) == row_of(i) + 1,
        col_of(i + 19) == col_of(i),
{
    lemma_index_cell(i);
    lemma_fundamental_div_mod_converse(i + 19, 19, row_of(i) + 1, col_of(i));
}

/// The cell one column left is adjacent.
pub proof fn lemma_adjacent_left(i: int)
    requires
        idx_ok(i),
        col_of(i) >= 1,
    ensures
        adjacent(i, i - 1),
        row_of(i - 1) == row_of(i),
        col_of(i - 1) == col_of(i) - 1,
{
    lemma_index_cell(i);
    lemma_fundamental_div_mod_converse(i - 1, 19, row_of(i), col_of(i) - 1);
}

/// The cell one column right is adjacent.
pub proof fn lemma_adjacent_right(i: int)
    requires
        idx_ok(i),
        col_of(i) <= 17,
    ensures
        adjacent(i, i + 1),
        row_of(i + 1) == row_of(i),
        col_of(i + 1) == col_of(i) + 1,
{
    lemma_index_cell(i);
    lemma_fundamental_div_mod_converse(i + 1, 19, row_of(i), col_of(i) + 1);
}

/// The neighbors of a cell are exactly the four offset cells that exist.
pub proof fn lemma_adjacent_enum(i: int, j: int)
    requires
        adjacent(i, j),
    ensures
        j == i - 19 || j == i + 19 || j == i - 1 || j == i + 1,
        j == i - 19 ==> row_of(i) >= 1,
        j == i + 19 ==> row_of(i) <= 17,
        j == i - 1 ==> col_of(i) >= 1,
        j == i + 1 ==> col_of(i) <= 17,
{
    lemma_index_cell(i);
    lemma_index_cell(j);
}

/// A path is a nonempty sequence of cells from `from` to `to`, every cell on
/// the board and holding the same value as the starting cell, with each
/// consecutive pair adjacent.
pub open spec fn is_path(b: Seq<Stone>, p: Seq<int>, from: int, to: int) -> bool {
    &&& p.len() >= 1
    &&& p[0] == from
    &&& p[p.len() - 1] == to
    &&& forall|k: int| 0 <= k < p.len() ==> idx_ok(#[trigger] p[k]) && b[p[k]] == b[from]
    &&& forall|k: int| 0 <= k < p.len() - 1 ==> adjacent(#[trigger] p[k], p[k + 1])
}

/// Two cells are connected when a path of same-valued cells joins them.
/// For stones this is membership in one group; for empty cells it is
/// membership in one empty region.
pub open spec fn connected(b: Seq<Stone>, i: int, j: int) -> bool {
    exists|p: Seq<int>| is_path(b, p, i, j)
}

/// Some adjacent cell holds the given value.
pub open spec fn cell_has_neighbor(b: Seq<Stone>, i: int, v: Stone) -> bool {
    exists|k: int| adjacent(i, k) && b[k] == v
}

/// The group (or region) of a cell touches an empty cell: for a stone this
/// is having at least one liberty.
pub open spec fn group_has_liberty(b: Seq<Stone>, i: int) -> bool {
    exists|j: int| #[trigger] connected(b, i, j) && cell_has_neighbor(b, j, Stone::Empty)
}

pub proof fn lemma_connected_refl(b: Seq<Stone>, i: int)
    requires
        idx_ok(i),
    ensures
        connected(b, i, i),
{
    let p = seq![i];
    assert(is_path(b, p, i, i));
}

/// Connected cells hold the same value and lie on the board.
pub proof fn lemma_connected_bounds(b: Seq<Stone>, i: int, j: int)
    requires
        connected(b, i, j),
    ensures
        idx_ok(i),
        idx_ok(j),
        b[j] == b[i],
{
    let p = choose|p: Seq<int>| is_path(b, p, i, j);
    assert(p[0] == i && idx_ok(p[0]));
    assert(p[p.len() - 1] == j && idx_ok(p[p.len() - 1]) && b[p[p.len() - 1]] == b[i]);
}

/// Connectivity extends across one adjacency step to a same-valued cell.
pub proof fn lemma_connected_step(b: Seq<Stone>, i: int, j: int, k: int)
    requires
        connected(b, i, j),
        adjacent(j, k),
        b[k] == b[i],
    ensures
        connected(b, i, k),
{
    let p = choose|p: Seq<int>| is_path(b, p, i, j);
    let q = p.push(k);
    assert forall|m: int| 0 <= m < q.len() implies idx_ok(#[trigger] q[m]) && b[q[m]] == b[i] by {
        if m < p.len() {
            assert(q[m] == p[m]);
        } else {
            assert(q[m] == k);
        }
    }
    assert forall|m: int| 0 <= m < q.len() - 1 implies adjacent(#[trigger] q[m], q[m + 1]) by {
        if m < p.len() - 1 {
            assert(q[m] == p[m] && q[m + 1] == p[m + 1]);
        } else {
            assert(q[m] == p[p.len() - 1] && q[m + 1] == k);
        }
    }
    assert(is_path(b, q, i, k));
}

pub proof fn lemma_connected_trans(b: Seq<Stone>, i: int, j: int, k: int)
    requires
        connected(b, i, j),
        connected(b, j, k),
    ensures
        connected(b, i, k),
{
    let p1 = choose|p: Seq<int>| is_path(b, p, i, j);
    let p2 = choose|p: Seq<int>| is_path(b, p, j, k);
    lemma_connected_bounds(b, i, j);
    let q = p1 + p2.subrange(1, p2.len() as int);
    assert(q.len() == p1.len() + p2.len() - 1);
    assert(q[0] == p1[0]);
    assert(q[q.len() - 1] == if p2.len() == 1 {
        p1[p1.len() - 1]
    } else {
        p2[p2.len() - 1]
    });
    assert forall|m: int| 0 <= m < q.len() implies idx_ok(#[trigger] q[m]) && b[q[m]] == b[i] by {
        if m < p1.len() {
            assert(q[m] == p1[m]);
        } else {
            assert(q[m] == p2[m - p1.len() + 1]);
            assert(b[q[m]] == b[j]);
        }
    }
    assert forall|m: int| 0 <= m < q.len() - 1 implies adjacent(#[trigger] q[m], q[m + 1]) by {
        if m < p1.len() - 1 {
            assert(q[m] == p1[m] && q[m + 1] == p1[m + 1]);
        } else if m == p1.len() - 1 {
            assert(q[m] == p1[p1.len() - 1] && p1[p1.len() - 1] == p2[0]);
            assert(q[m + 1] == p2[1]);
            assert(adjacent(p2[0], p2[1]));
        } else {
            assert(q[m] == p2[m - p1.len() + 1] && q[m + 1] == p2[m - p1.len() + 2]);
            assert(adjacent(p2[m - p1.len() + 1], p2[m - p1.len() + 2]));
        }
    }
    assert(is_path(b, q, i, k));
}

proof fn lemma_path_sym(b: Seq<Stone>, p: Seq<int>, i: int, j: int)
    requires
        is_path(b, p, i, j),
    ensures
        connected(b, j, i),
    decreases p.len(),
{
    if p.len() == 1 {
        lemma_connected_refl(b, i);
    } else {
        let q = p.subrange(0, p.len() - 1);
        let m = p[p.len() - 2];
        assert(is_path(b, q, i, m));
        lemma_path_sym(b, q, i, m);
        assert(adjacent(m, j));
        let two = seq![j, m];
        assert(b[j] == b[i] && b[m] == b[i]);
        assert(is_path(b, two, j, m));
        assert(connected(b, j, m));
        lemma_connected_trans(b, j, m, i);
    }
}

pub proof fn lemma_connected_sym(b: Seq<Stone>, i: int, j: int)
    requires
        connected(b, i, j),
    ensures
        connected(b, j, i),
{
    let p = choose|p: Seq<int>| is_path(b, p, i, j);
    lemma_path_sym(b, p, i, j);
}

/// Having a liberty is a property of the whole group: connected cells agree
/// on it.
pub proof fn lemma_connected_liberty(b: Seq<Stone>, i: int, j: int)
    requires
        connected(b, i, j),
    ensures
        group_has_liberty(b, i) == group_has_liberty(b, j),
{
    if group_has_liberty(b, i) {
        let x = choose|x: int| #[trigger] connected(b, i, x) && cell_has_neighbor(b, x, Stone::Empty);
        lemma_connected_sym(b, i, j);
        lemma_connected_trans(b, j, i, x);
        assert(connected(b, j, x) && cell_has_neighbor(b, x, Stone::Empty));
    }
    if group_has_liberty(b, j) {
        let x = choose|x: int| #[trigger] connected(b, j, x) && cell_has_neighbor(b, x, Stone::Empty);
        lemma_connected_trans(b, i, j, x);
        assert(connected(b, i, x) && cell_has_neighbor(b, x, Stone::Empty));
    }
}

/// A set of cells closed under same-valued adjacency, all of the value of a
/// reference cell `q` outside it, cannot be entered by a path from `q`.
pub proof fn lemma_closed_set_avoids(b: Seq<Stone>, d: Set<int>, p: Seq<int>, q: int, j: int)
    requires
        is_path(b, p, q, j),
        !d.contains(q),
        forall|x: int, y: int| d.contains(x) && adjacent(x, y) && b[y] == b[q] ==> d.contains(y),
    ensures
        !d.contains(j),
    decreases p.len(),
{
    if p.len() == 1 {
    } else {
        let r = p.subrange(0, p.len() - 1);
        let m = p[p.len() - 2];
        assert(is_path(b, r, q, m));
        lemma_closed_set_avoids(b, d, r, q, m);
        if d.contains(j) {
            assert(adjacent(m, j));
            assert(adjacent(j, m));
            assert(b[m] == b[q]);
            assert(d.contains(m));
            assert(false);
        }
    }
}

/// Everything connected to a cell inside a set closed under same-valued
/// adjacency stays inside the set.
pub proof fn lemma_closed_set_covers(b: Seq<Stone>, d: Set<int>, q: int, j: int)
    requires
        connected(b, q, j),
        d.contains(q),
        forall|x: int, y: int| d.contains(x) && adjacent(x, y) && b[y] == b[q] ==> d.contains(y),
    ensures
        d.contains(j),
{
    let p = choose|p: Seq<int>| is_path(b, p, q, j);
    lemma_closed_path_covers(b, d, p, q, j);
}

proof fn lemma_closed_path_covers(b: Seq<Stone>, d: Set<int>, p: Seq<int>, q: int, j: int)
    requires
        is_path(b, p, q, j),
        d.contains(q),
        forall|x: int, y: int| d.contains(x) && adjacent(x, y) && b[y] == b[q] ==> d.contains(y),
    ensures
        d.contains(j),
    decreases p.len(),
{
    if p.len() == 1 {
    } else {
        let r = p.subrange(0, p.len() - 1);
        let m = p[p.len() - 2];
        assert(is_path(b, r, q, m));
        lemma_closed_path_covers(b, d, r, q, m);
        assert(adjacent(m, j));
        assert(b[j] == b[q]);
    }
}

/// The board with the cells of `d` emptied and everything else kept.
pub open spec fn mask_board(b: Seq<Stone>, d: Set<int>) -> Seq<Stone> {
    Seq::new(361, |x: int| if d.contains(x) { Stone::Empty } else { b[x] })
}

/// Emptying a union of whole same-colored components does not disturb a
/// component disjoint from it: the cells connected to `q`, and whether they
/// touch an empty cell, are the same before and after the removal.
pub proof fn lemma_mask_component(b: Seq<Stone>, d: Set<int>, q: int)
    requires
        board_ok(b),
        idx_ok(q),
        b[q] != Stone::Empty,
        !d.contains(q),
        forall|x: int, y: int| d.contains(x) && adjacent(x, y) && b[y] == b[q] ==> d.contains(y),
    ensures
        forall|j: int| connected(mask_board(b, d), q, j) <==> connected(b, q, j),
        group_has_liberty(mask_board(b, d), q) == group_has_liberty(b, q),
{
    let m = mask_board(b, d);
    assert(m[q] == b[q]);
    assert forall|j: int| connected(b, q, j) implies connected(m, q, j) by {
        let path = choose|pp: Seq<int>| is_path(b, pp, q, j);
        assert forall|k: int| 0 <= k < path.len() implies !d.contains(#[trigger] path[k])
            && m[path[k]] == b[path[k]] by {
            let sub = path.subrange(0, k + 1);
            assert(is_path(b, sub, q, path[k]));
            lemma_closed_set_avoids(b, d, sub, q, path[k]);
        }
        assert(is_path(m, path, q, j));
    }
    assert forall|j: int| connected(m, q, j) implies connected(b, q, j) by {
        let path = choose|pp: Seq<int>| is_path(m, pp, q, j);
        assert forall|k: int| 0 <= k < path.len() implies b[#[trigger] path[k]] == b[q] by {
            assert(m[path[k]] == m[q]);
        }
        assert(is_path(b, path, q, j));
    }
    if group_has_liberty(b, q) {
        let j = choose|j: int| #[trigger] connected(b, q, j) && cell_has_neighbor(b, j, Stone::Empty);
        let k = choose|k: int| adjacent(j, k) && b[k] == Stone::Empty;
        assert(m[k] == Stone::Empty);
        assert(adjacent(j, k) && m[k] == Stone::Empty);
        assert(cell_has_neighbor(m, j, Stone::Empty));
        assert(connected(m, q, j) && cell_has_neighbor(m, j, Stone::Empty));
        assert(group_has_liberty(m, q));
    }
    if group_has_liberty(m, q) {
        let j = choose|j: int| #[trigger] connected(m, q, j) && cell_has_neighbor(m, j, Stone::Empty);
        let k = choose|k: int| adjacent(j, k) && m[k] == Stone::Empty;
        assert(connected(b, q, j));
        lemma_connected_bounds(b, q, j);
        let path = choose|pp: Seq<int>| is_path(b, pp, q, j);
        lemma_closed_set_avoids(b, d, path, q, j);
        if d.contains(k) {
            assert(adjacent(k, j));
            assert(d.contains(j));
            assert(false);
        }
        assert(b[k] == Stone::Empty);
        assert(adjacent(j, k) && b[k] == Stone::Empty);
        assert(cell_has_neighbor(b, j, Stone::Empty));
        assert(group_has_liberty(b, q));
    }
}

/// Emptying cells that all hold values other than that of `q` leaves the
/// component of `q` untouched (its liberties may only grow).
pub proof fn lemma_mask_other_color(b: Seq<Stone>, d: Set<int>, q: int)
    requires
        board_ok(b),
        idx_ok(q),
        b[q] != Stone::Empty,
        forall|x: int| #[trigger] d.contains(x) ==> idx_ok(x) && b[x] != b[q] && b[x] != Stone::Empty,
    ensures
        forall|j: int| connected(mask_board(b, d), q, j) <==> connected(b, q, j),
{
    let m = mask_board(b, d);
    assert(!d.contains(q));
    assert(m[q] == b[q]);
    assert forall|j: int| connected(b, q, j) implies connected(m, q, j) by {
        let path = choose|pp: Seq<int>| is_path(b, pp, q, j);
        assert forall|k: int| 0 <= k < path.len() implies m[#[trigger] path[k]] == b[q] by {
            assert(b[path[k]] == b[q]);
            assert(!d.contains(path[k]));
        }
        assert(is_path(m, path, q, j));
    }
    assert forall|j: int| connected(m, q, j) implies connected(b, q, j) by {
        let path = choose|pp: Seq<int>| is_path(m, pp, q, j);
        assert forall|k: int| 0 <= k < path.len() implies b[#[trigger] path[k]] == b[q] by {
            assert(m[path[k]] == m[q]);
            assert(!d.contains(path[k]));
        }
        assert(is_path(b, path, q, j));
    }
}

/// Putting a stone on an empty cell `p` never severs an existing component,
/// and severs nothing into one of a different value than the new stone.
pub proof fn lemma_update_frame(b0: Seq<Stone>, p: int, v: Stone, q: int)
    requires
        board_ok(b0),
        idx_ok(p),
        b0[p] == Stone::Empty,
        idx_ok(q),
        b0[q] != Stone::Empty,
    ensures
        forall|j: int| connected(b0, q, j) ==> connected(b0.update(p, v), q, j),
        b0[q] != v ==> (forall|j: int| connected(b0.update(p, v), q, j) ==> connected(b0, q, j)),
{
    let b1 = b0.update(p, v);
    assert(q != p);
    assert(b1[q] == b0[q]);
    assert forall|j: int| connected(b0, q, j) implies connected(b1, q, j) by {
        let path = choose|pp: Seq<int>| is_path(b0, pp, q, j);
        assert forall|k: int| 0 <= k < path.len() implies b1[#[trigger] path[k]] == b1[q] by {
            assert(b0[path[k]] == b0[q]);
            assert(path[k] != p);
        }
        assert(is_path(b1, path, q, j));
    }
    if b0[q] != v {
        assert forall|j: int| connected(b1, q, j) implies connected(b0, q, j) by {
            let path = choose|pp: Seq<int>| is_path(b1, pp, q, j);
            assert forall|k: int| 0 <= k < path.len() implies b0[#[trigger] path[k]] == b0[q] by {
                assert(b1[path[k]] == b1[q]);
                assert(path[k] != p);
            }
            assert(is_path(b0, path, q, j));
        }
    }
}

/// A visited grid that contains a seed and is closed under same-valued
/// adjacency covers the whole connected component of the seed.
pub proof fn lemma_closed_grid_covers(b: Seq<Stone>, vis: Seq<bool>, seed: int, j: int)
    requires
        board_ok(b),
        vis.len() == 361,
        idx_ok(seed),
        vis[seed],
        forall|x: int, y: int|
            idx_ok(x) && vis[x] && adjacent(x, y) && b[y] == b[seed] ==> vis[y],
        connected(b, seed, j),
    ensures
        vis[j],
{
    let d = Set::new(|x: int| idx_ok(x) && vis[x]);
    assert forall|x: int, y: int| d.contains(x) && adjacent(x, y) && b[y] == b[seed] implies d.contains(y) by {
        assert(idx_ok(y));
    }
    lemma_closed_set_covers(b, d, seed, j);
}

} // verus!
