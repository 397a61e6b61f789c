//! Executable board traversal: building and copying boards, computing the
//! connected component of a cell by flood fill, scanning a component for
//! bordering values, and removing a component. Everything is proved against
//! the path-based connectivity of `board`.

use vstd::prelude::*;
use crate::board::{
    Stone, idx_ok, adjacent, connected, cell_has_neighbor, lemma_index_cell, lemma_adjacent_up,
    lemma_adjacent_down, lemma_adjacent_left, lemma_adjacent_right, lemma_adjacent_enum,
    lemma_connected_refl, lemma_connected_step, lemma_connected_bounds, lemma_closed_grid_covers,
};

verus! {

/// Number of `true` entries of a boolean sequence.
pub open spec fn count_true(s: Seq<bool>) -> int
    decreases s.len(),
{
    if s.len() == 0 {
        0
    } else {
        count_true(s.drop_last()) + if s.last() {
            1int
        } else {
            0int
        }
    }
}

pub proof fn lemma_count_true_bounds(s: Seq<bool>)
    ensures
        0 <= count_true(s) <= s.len(),
    decreases s.len(),
{
    if s.len() > 0 {
        lemma_count_true_bounds(s.drop_last());
    }
}

/// Counting one more prefix entry adds one exactly when that entry is true.
pub proof fn lemma_count_true_take_step(s: Seq<bool>, n: int)
    requires
        0 <= n < s.len(),
    ensures
        count_true(s.take(n + 1)) == count_true(s.take(n)) + if s[n] {
            1int
        } else {
            0int
        },
{
    let t = s.take(n + 1);
    assert(t.drop_last() =~= s.take(n));
    assert(t.last() == s[n]);
}

pub proof fn lemma_count_true_all(s: Seq<bool>)
    ensures
        (forall|j: int| 0 <= j < s.len() ==> !s[j]) ==> count_true(s) == 0,
        (forall|j: int| 0 <= j < s.len() ==> s[j]) ==> count_true(s) == s.len(),
    decreases s.len(),
{
    if s.len() > 0 {
        lemma_count_true_all(s.drop_last());
    }
}

/// A true entry makes the count positive.
pub proof fn lemma_count_true_pos(s: Seq<bool>, j: int)
    requires
        0 <= j < s.len(),
        s[j],
    ensures
        count_true(s) > 0,
    decreases s.len(),
{
    lemma_count_true_bounds(s.drop_last());
    if j < s.len() - 1 {
        lemma_count_true_pos(s.drop_last(), j);
    }
}

/// Setting a false entry to true raises the count by one.
pub proof fn lemma_count_true_update(s: Seq<bool>, j: int)
    requires
        0 <= j < s.len(),
        !s[j],
    ensures
        count_true(s.update(j, true)) == count_true(s) + 1,
    decreases s.len(),
{
    let t = s.update(j, true);
    if j == s.len() - 1 {
        assert(t.drop_last() =~= s.drop_last());
    } else {
        assert(t.drop_last() =~= s.drop_last().update(j, true));
        lemma_count_true_update(s.drop_last(), j);
    }
}

/// Counts of two disjoint masks add up over their pointwise disjunction.
pub proof fn lemma_count_true_disjoint_or(s1: Seq<bool>, s2: Seq<bool>, o: Seq<bool>)
    requires
        s1.len() == s2.len(),
        o.len() == s1.len(),
        forall|j: int| 0 <= j < s1.len() ==> !(s1[j] && s2[j]),
        forall|j: int| 0 <= j < s1.len() ==> o[j] == (s1[j] || s2[j]),
    ensures
        count_true(o) == count_true(s1) + count_true(s2),
    decreases s1.len(),
{
    if s1.len() > 0 {
        lemma_count_true_disjoint_or(s1.drop_last(), s2.drop_last(), o.drop_last());
    }
}

/// A positive count exhibits a true entry.
pub proof fn lemma_count_true_nonzero(s: Seq<bool>)
    requires
        count_true(s) > 0,
    ensures
        exists|j: int| 0 <= j < s.len() && s[j],
    decreases s.len(),
{
    if s.len() > 0 {
        if s.last() {
            assert(s[s.len() - 1]);
        } else {
            lemma_count_true_nonzero(s.drop_last());
            let j = choose|j: int| 0 <= j < s.len() - 1 && s.drop_last()[j];
            assert(s[j]);
        }
    }
}

/// A fresh board with every cell holding the same value.
pub fn filled_board(v: Stone) -> (b: Vec<Stone>)
    ensures
        b@.len() == 361,
        forall|j: int| 0 <= j < 361 ==> b@[j] == v,
{
    let mut b: Vec<Stone> = Vec::new();
    let mut i: usize = 0;
    while i < 361
        invariant
            i <= 361,
            b@.len() == i,
            forall|j: int| 0 <= j < i ==> b@[j] == v,
        decreases 361 - i,
    {
        b.push(v);
        i = i + 1;
    }
    b
}

/// An independent copy of a board.
pub fn copy_board(b: &Vec<Stone>) -> (c: Vec<Stone>)
    ensures
        c@ == b@,
{
    let mut c: Vec<Stone> = Vec::new();
    let mut i: usize = 0;
    while i < b.len()
        invariant
            i <= b@.len(),
            c@.len() == i,
            forall|j: int| 0 <= j < i ==> c@[j] == b@[j],
        decreases b@.len() - i,
    {
        c.push(b[i]);
        i = i + 1;
    }
    assert(c@ =~= b@);
    c
}

/// Cell-by-cell equality of two boards.
pub fn boards_equal(a: &Vec<Stone>, b: &Vec<Stone>) -> (r: bool)
    requires
        a@.len() == b@.len(),
    ensures
        r == (a@ == b@),
{
    let mut i: usize = 0;
    while i < a.len()
        invariant
            i <= a@.len(),
            a@.len() == b@.len(),
            forall|j: int| 0 <= j < i ==> a@[j] == b@[j],
        decreases a@.len() - i,
    {
        if a[i] != b[i] {
            assert(a@[i as int] != b@[i as int]);
            return false;
        }
        i = i + 1;
    }
    assert(a@ =~= b@);
    true
}

/// Whether some orthogonal neighbor of cell `i` holds value `v`.
pub fn neighbor_holds(board: &Vec<Stone>, i: usize, v: Stone) -> (r: bool)
    requires
        board@.len() == 361,
        i < 361,
    ensures
        r == cell_has_neighbor(board@, i as int, v),
{
    let row = i / 19;
    let col = i % 19;
    proof {
        lemma_index_cell(i as int);
    }
    if row >= 1 {
        proof {
            lemma_adjacent_up(i as int);
        }
        if board[i - 19] == v {
            return true;
        }
    }
    if row <= 17 {
        proof {
            lemma_adjacent_down(i as int);
        }
        if board[i + 19] == v {
            return true;
        }
    }
    if col >= 1 {
        proof {
            lemma_adjacent_left(i as int);
        }
        if board[i - 1] == v {
            return true;
        }
    }
    if col <= 17 {
        proof {
            lemma_adjacent_right(i as int);
        }
        if board[i + 1] == v {
            return true;
        }
    }
    proof {
        if cell_has_neighbor(board@, i as int, v) {
            let k = choose|k: int| adjacent(i as int, k) && board@[k] == v;
            lemma_adjacent_enum(i as int, k);
        }
    }
    false
}

/// The connected component of `seed`, as a 361-entry membership grid,
/// computed by flood fill over same-valued orthogonal neighbors.
pub fn find_group(board: &Vec<Stone>, seed: usize) -> (group: Vec<bool>)
    requires
        board@.len() == 361,
        seed < 361,
    ensures
        group@.len() == 361,
        forall|j: int| 0 <= j < 361 ==> (group@[j] <==> connected(board@, seed as int, j)),
{
    let mut vis: Vec<bool> = Vec::new();
    let mut i: usize = 0;
    while i < 361
        invariant
            i <= 361,
            vis@.len() == i,
            forall|j: int| 0 <= j < i ==> !vis@[j],
        decreases 361 - i,
    {
        vis.push(false);
        i = i + 1;
    }
    let mut stack: Vec<usize> = Vec::new();
    proof {
        lemma_connected_refl(board@, seed as int);
        lemma_count_true_all(vis@);
        lemma_count_true_update(vis@, seed as int);
    }
    vis[seed] = true;
    stack.push(seed);
    proof {
        assert(stack@[0] == seed);
        assert(stack_holds(stack@, seed as int));
    }
    while stack.len() > 0
        invariant
            board@.len() == 361,
            seed < 361,
            vis@.len() == 361,
            vis@[seed as int],
            forall|t: int|
                0 <= t < stack@.len() ==> (#[trigger] stack@[t]) < 361 && vis@[stack@[t] as int],
            forall|j: int| 0 <= j < 361 && vis@[j] ==> connected(board@, seed as int, j),
            forall|x: int, y: int|
                idx_ok(x) && vis@[x] && !stack_holds(stack@, x) && adjacent(x, y)
                    && board@[y] == board@[seed as int] ==> vis@[y],
            count_true(vis@) <= 361,
        decreases 2 * (361 - count_true(vis@)) + stack@.len(),
    {
        let ghost old_vis = vis@;
        let ghost old_stack = stack@;
        let cur = stack.pop().unwrap();
        let row = cur / 19;
        let col = cur % 19;
        proof {
            lemma_index_cell(cur as int);
        }
        if row >= 1 {
            proof {
                lemma_adjacent_up(cur as int);
            }
            flood_visit(board, &mut vis, &mut stack, seed, cur, cur - 19);
        }
        if row <= 17 {
            proof {
                lemma_adjacent_down(cur as int);
            }
            flood_visit(board, &mut vis, &mut stack, seed, cur, cur + 19);
        }
        if col >= 1 {
            proof {
                lemma_adjacent_left(cur as int);
            }
            flood_visit(board, &mut vis, &mut stack, seed, cur, cur - 1);
        }
        if col <= 17 {
            proof {
                lemma_adjacent_right(cur as int);
            }
            flood_visit(board, &mut vis, &mut stack, seed, cur, cur + 1);
        }
        proof {
            assert forall|x: int, y: int|
                idx_ok(x) && vis@[x] && !stack_holds(stack@, x) && adjacent(x, y)
                    && board@[y] == board@[seed as int] implies vis@[y] by {
                if x == cur as int {
                    lemma_adjacent_enum(cur as int, y);
                } else if !old_vis[x] {
                    // newly visited this iteration: the visit that set it also
                    // pushed it, and the stack only grows afterwards
                    assert(stack_holds(stack@, x));
                    assert(false);
                } else if stack_holds(old_stack, x) {
                    // x sat below the popped cell, so it is still on the stack
                    let t = choose|t: int|
                        0 <= t < old_stack.len() && (#[trigger] old_stack[t]) as int == x;
                    assert(old_stack[old_stack.len() - 1] == cur);
                    assert(t < old_stack.len() - 1);
                    assert(old_stack.drop_last()[t] as int == x);
                    assert(stack_holds(old_stack.drop_last(), x));
                    assert(false);
                } else {
                    // settled before this iteration: the invariant applies
                }
            }
        }
    }
    proof {
        assert forall|j: int| 0 <= j < 361 && connected(board@, seed as int, j) implies vis@[j] by {
            lemma_closed_grid_covers(board@, vis@, seed as int, j);
        }
    }
    vis
}

/// Whether any cell of the component of `seed` has a neighbor holding `v`.
/// With `v` empty this is exactly whether the group of `seed` has a liberty.
pub fn group_touches(board: &Vec<Stone>, group: &Vec<bool>, seed: usize, v: Stone) -> (r: bool)
    requires
        board@.len() == 361,
        group@.len() == 361,
        seed < 361,
        forall|j: int| 0 <= j < 361 ==> (group@[j] <==> connected(board@, seed as int, j)),
    ensures
        r == exists|j: int| #[trigger] connected(board@, seed as int, j)
            && cell_has_neighbor(board@, j, v),
{
    let mut i: usize = 0;
    while i < 361
        invariant
            i <= 361,
            board@.len() == 361,
            group@.len() == 361,
            seed < 361,
            forall|j: int| 0 <= j < 361 ==> (group@[j] <==> connected(board@, seed as int, j)),
            forall|j: int| 0 <= j < i ==> !(group@[j] && cell_has_neighbor(board@, j, v)),
        decreases 361 - i,
    {
        if group[i] {
            if neighbor_holds(board, i, v) {
                assert(connected(board@, seed as int, i as int));
                return true;
            }
        }
        i = i + 1;
    }
    proof {
        if exists|j: int| #[trigger] connected(board@, seed as int, j)
            && cell_has_neighbor(board@, j, v) {
            let j = choose|j: int| #[trigger] connected(board@, seed as int, j)
                && cell_has_neighbor(board@, j, v);
            lemma_connected_bounds(board@, seed as int, j);
            assert(group@[j]);
            assert(false);
        }
    }
    false
}

/// Empty every cell of the given membership grid; the result counts the
/// removed cells.
pub fn remove_group(board: &mut Vec<Stone>, group: &Vec<bool>) -> (n: usize)
    requires
        old(board)@.len() == 361,
        group@.len() == 361,
    ensures
        final(board)@.len() == 361,
        forall|j: int|
            0 <= j < 361 ==> final(board)@[j] == (if group@[j] {
                Stone::Empty
            } else {
                old(board)@[j]
            }),
        n == count_true(group@),
{
    let mut n: usize = 0;
    let mut i: usize = 0;
    while i < 361
        invariant
            i <= 361,
            board@.len() == 361,
            group@.len() == 361,
            forall|j: int|
                0 <= j < i ==> board@[j] == (if group@[j] {
                    Stone::Empty
                } else {
                    old(board)@[j]
                }),
            forall|j: int| i <= j < 361 ==> board@[j] == old(board)@[j],
            n == count_true(group@.take(i as int)),
            n <= i,
        decreases 361 - i,
    {
        proof {
            lemma_count_true_take_step(group@, i as int);
            lemma_count_true_bounds(group@.take(i as int + 1));
        }
        if group[i] {
            board[i] = Stone::Empty;
            n = n + 1;
        }
        i = i + 1;
    }
    proof {
        assert(group@.take(361) =~= group@);
    }
    n
}

/// Some position of the stack holds cell `x`.
pub open spec fn stack_holds(s: Seq<usize>, x: int) -> bool {
    exists|t: int| 0 <= t < s.len() && (#[trigger] s[t]) as int == x
}

/// One flood-fill expansion step: visit neighbor `n` of `cur` when it holds
/// the seed's value and is still unvisited.
fn flood_visit(
    board: &Vec<Stone>,
    vis: &mut Vec<bool>,
    stack: &mut Vec<usize>,
    seed: usize,
    cur: usize,
    n: usize,
)
    requires
        board@.len() == 361,
        seed < 361,
        cur < 361,
        n < 361,
        adjacent(cur as int, n as int),
        old(vis)@.len() == 361,
        old(vis)@[seed as int],
        old(vis)@[cur as int],
        forall|t: int|
            0 <= t < old(stack)@.len() ==> (#[trigger] old(stack)@[t]) < 361
                && old(vis)@[old(stack)@[t] as int],
        forall|j: int| 0 <= j < 361 && old(vis)@[j] ==> connected(board@, seed as int, j),
        count_true(old(vis)@) <= 361,
    ensures
        final(vis)@.len() == 361,
        final(vis)@[seed as int],
        final(vis)@[cur as int],
        forall|t: int|
            0 <= t < final(stack)@.len() ==> (#[trigger] final(stack)@[t]) < 361 && final(vis)@[final(stack)@[t] as int],
        forall|j: int| 0 <= j < 361 && final(vis)@[j] ==> connected(board@, seed as int, j),
        count_true(final(vis)@) <= 361,
        // only n can become newly visited, and only onto the stack
        forall|j: int| 0 <= j < 361 && old(vis)@[j] ==> final(vis)@[j],
        forall|j: int| 0 <= j < 361 && final(vis)@[j] && j != n as int ==> old(vis)@[j],
        forall|x: int| stack_holds(old(stack)@, x) ==> stack_holds(final(stack)@, x),
        forall|x: int| stack_holds(final(stack)@, x) ==> stack_holds(old(stack)@, x) || x == n as int,
        // the step settles the neighbor: afterwards it is visited if it matches
        board@[n as int] == board@[seed as int] ==> final(vis)@[n as int],
        // a newly visited cell goes onto the stack
        !old(vis)@[n as int] && final(vis)@[n as int] ==> stack_holds(final(stack)@, n as int),
        // termination measure never grows
        2 * (361 - count_true(final(vis)@)) + final(stack)@.len() <= 2 * (361 - count_true(old(vis)@))
            + old(stack)@.len(),
{
    if board[n] == board[seed] && !vis[n] {
        proof {
            lemma_connected_step(board@, seed as int, cur as int, n as int);
            lemma_count_true_update(vis@, n as int);
            lemma_count_true_bounds(vis@.update(n as int, true));
        }
        vis[n] = true;
        stack.push(n);
        proof {
            assert forall|x: int| stack_holds(old(stack)@, x) implies stack_holds(stack@, x) by {
                let t = choose|t: int| 0 <= t < old(stack)@.len() && (#[trigger] old(stack)@[t]) as int == x;
                assert(stack@[t] as int == x);
            }
            assert(stack_holds(stack@, n as int)) by {
                assert(stack@[stack@.len() - 1] as int == n as int);
            }
        }
    }
}

} // verus!
