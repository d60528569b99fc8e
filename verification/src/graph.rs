//! The abstract graph induced by a grid: cells are nodes and open wall
//! pairs are edges. This module defines edge counting, the set of live
//! group ids, reachability through open walls, and the invariants that
//! tie them together, with the lemmas the generation algorithm uses to
//! maintain them across a merge.

use vstd::prelude::*;
use vstd::set_lib::{lemma_len_subset, lemma_int_range, set_int_range};
use crate::grid::{Cell, Direction, Neighbor};

verus! {

/// The cell at index `i` has a neighbor to its right within the same row.
pub open spec fn has_right(c: Seq<Cell>, cx: int, i: int) -> bool {
    0 <= i && i + 1 < c.len() && cx >= 1 && (i + 1) % cx != 0
}

/// The cell at index `i` has a neighbor in the row below.
pub open spec fn has_down(c: Seq<Cell>, cx: int, i: int) -> bool {
    0 <= i && i + cx < c.len() && cx >= 1
}

/// How many of the two canonical edges at index `i` (to the right and
/// downward) are open. Each undirected wall pair is counted exactly once,
/// on its left or upper side.
pub open spec fn open_sides(c: Seq<Cell>, cx: int, i: int) -> nat {
    (if has_right(c, cx, i) && c[i].right {
        1nat
    } else {
        0nat
    }) + (if has_down(c, cx, i) && c[i].bot {
        1nat
    } else {
        0nat
    })
}

/// The number of open wall pairs whose canonical side lies below index `k`.
pub open spec fn edge_count_to(c: Seq<Cell>, cx: int, k: int) -> nat
    decreases k,
{
    if k <= 0 {
        0nat
    } else {
        edge_count_to(c, cx, k - 1) + open_sides(c, cx, k - 1)
    }
}

/// The total number of open wall pairs of the grid.
pub open spec fn edge_count(c: Seq<Cell>, cx: int) -> nat {
    edge_count_to(c, cx, c.len() as int)
}

/// When the contribution changes at a single index `j`, the edge count
/// changes by exactly the difference at `j`.
pub proof fn lemma_edge_count_to_one_change(c1: Seq<Cell>, c2: Seq<Cell>, cx: int, k: int, j: int)
    requires
        c1.len() == c2.len(),
        0 <= j,
        forall|i: int| 0 <= i < k && i != j ==> open_sides(c1, cx, i) == open_sides(c2, cx, i),
    ensures
        j < k ==> edge_count_to(c2, cx, k) + open_sides(c1, cx, j) == edge_count_to(c1, cx, k)
            + open_sides(c2, cx, j),
        k <= j ==> edge_count_to(c2, cx, k) == edge_count_to(c1, cx, k),
    decreases k,
{
    if k > 0 {
        lemma_edge_count_to_one_change(c1, c2, cx, k - 1, j);
    }
}

/// The set of group ids still alive in the grid.
pub open spec fn group_set(c: Seq<Cell>) -> Set<int> {
    Set::new(|g: int| exists|i: int| 0 <= i < c.len() && (#[trigger] c[i]).path_id == g)
}

/// The number of distinct group ids still alive in the grid.
pub open spec fn group_count(c: Seq<Cell>) -> nat {
    group_set(c).len()
}

/// With every group id below the cell count, the set of live ids is
/// finite and no larger than the cell count.
pub proof fn lemma_group_set_finite(c: Seq<Cell>)
    requires
        forall|i: int| 0 <= i < c.len() ==> (#[trigger] c[i]).path_id < c.len(),
    ensures
        group_set(c).finite(),
        group_set(c).len() <= c.len(),
{
    lemma_int_range(0, c.len() as int);
    assert(group_set(c).subset_of(set_int_range(0, c.len() as int)));
    lemma_len_subset(group_set(c), set_int_range(0, c.len() as int));
}

/// Cells `i` and `j` are grid-adjacent and the wall pair between them is
/// open. Symmetric by construction; only the canonical right/bottom flags
/// are consulted.
pub open spec fn edge_open(c: Seq<Cell>, cx: int, i: int, j: int) -> bool {
    ||| (j == i + 1 && has_right(c, cx, i) && c[i].right)
    ||| (i == j + 1 && has_right(c, cx, j) && c[j].right)
    ||| (j == i + cx && has_down(c, cx, i) && c[i].bot)
    ||| (i == j + cx && has_down(c, cx, j) && c[j].bot)
}

/// `p` walks from `i` to `j` through open walls: consecutive entries are
/// adjacent cells whose shared wall is open.
pub open spec fn is_path(c: Seq<Cell>, cx: int, p: Seq<int>, i: int, j: int) -> bool {
    &&& p.len() >= 1
    &&& p[0] == i
    &&& p[p.len() - 1] == j
    &&& forall|k: int| 0 <= k < p.len() - 1 ==> edge_open(c, cx, #[trigger] p[k], p[k + 1])
}

/// Cell `j` is reachable from cell `i` through open walls.
pub open spec fn connected(c: Seq<Cell>, cx: int, i: int, j: int) -> bool {
    exists|p: Seq<int>| is_path(c, cx, p, i, j)
}

/// Every cell reaches itself.
pub proof fn lemma_connected_refl(c: Seq<Cell>, cx: int, i: int)
    ensures
        connected(c, cx, i, i),
{
    let p = seq![i];
    assert(is_path(c, cx, p, i, i));
}

/// An open wall connects its two cells.
pub proof fn lemma_connected_step(c: Seq<Cell>, cx: int, i: int, j: int)
    requires
        edge_open(c, cx, i, j),
    ensures
        connected(c, cx, i, j),
{
    let p = seq![i, j];
    assert(is_path(c, cx, p, i, j));
}

/// Reachability is symmetric: a path read backwards is still a path.
pub proof fn lemma_connected_sym(c: Seq<Cell>, cx: int, i: int, j: int)
    requires
        connected(c, cx, i, j),
    ensures
        connected(c, cx, j, i),
{
    let p = choose|p: Seq<int>| is_path(c, cx, p, i, j);
    let len = p.len() as int;
    let q = Seq::new(p.len(), |k: int| p[len - 1 - k]);
    assert forall|k: int| 0 <= k < q.len() - 1 implies edge_open(c, cx, #[trigger] q[k], q[k + 1]) by {
        assert(edge_open(c, cx, p[len - 2 - k], p[len - 1 - k]));
    }
    assert(is_path(c, cx, q, j, i));
}

/// Reachability is transitive: two paths sharing an endpoint concatenate.
pub proof fn lemma_connected_trans(c: Seq<Cell>, cx: int, i: int, j: int, k: int)
    requires
        connected(c, cx, i, j),
        connected(c, cx, j, k),
    ensures
        connected(c, cx, i, k),
{
    let p1 = choose|p: Seq<int>| is_path(c, cx, p, i, j);
    let p2 = choose|p: Seq<int>| is_path(c, cx, p, j, k);
    if p2.len() == 1 {
        assert(is_path(c, cx, p1, i, k));
    } else {
        let q = p1 + p2.subrange(1, p2.len() as int);
        let l1 = p1.len() as int;
        assert(q[q.len() - 1] == p2[p2.len() - 1]);
        assert forall|m: int| 0 <= m < q.len() - 1 implies edge_open(c, cx, #[trigger] q[m], q[m + 1]) by {
            if m < l1 - 1 {
                assert(edge_open(c, cx, p1[m], p1[m + 1]));
            } else if m == l1 - 1 {
                assert(q[m] == p1[l1 - 1]);
                assert(q[m + 1] == p2[1]);
                assert(edge_open(c, cx, p2[0], p2[1]));
            } else {
                assert(q[m] == p2[m - l1 + 1]);
                assert(q[m + 1] == p2[m - l1 + 2]);
                assert(edge_open(c, cx, p2[m - l1 + 1], p2[m - l1 + 2]));
            }
        }
        assert(is_path(c, cx, q, i, k));
    }
}

/// Opening further walls never disconnects anything: any path stays a
/// path when the edge set only grows.
pub proof fn lemma_connected_mono(c1: Seq<Cell>, c2: Seq<Cell>, cx: int, i: int, j: int)
    requires
        connected(c1, cx, i, j),
        forall|a: int, b: int| #[trigger] edge_open(c1, cx, a, b) ==> edge_open(c2, cx, a, b),
    ensures
        connected(c2, cx, i, j),
{
    let p = choose|p: Seq<int>| is_path(c1, cx, p, i, j);
    assert forall|k: int| 0 <= k < p.len() - 1 implies edge_open(c2, cx, #[trigger] p[k], p[k + 1]) by {
        assert(edge_open(c1, cx, p[k], p[k + 1]));
    }
    assert(is_path(c2, cx, p, i, j));
}

/// `nb` is a genuine grid neighbor of the cell at index `ci`: its index
/// is in bounds and matches its direction.
pub open spec fn nb_ok(ci: int, nb: Neighbor, cx: int, n: int) -> bool {
    &&& cx >= 1
    &&& 0 <= ci < n
    &&& 0 <= nb.cell_idx < n
    &&& match nb.direction {
        Direction::Up => ci >= cx && nb.cell_idx == ci - cx,
        Direction::Down => nb.cell_idx == ci + cx,
        Direction::Left => ci % cx > 0 && nb.cell_idx == ci - 1,
        Direction::Right => nb.cell_idx == ci + 1 && (ci + 1) % cx != 0,
    }
}

/// In a full rectangular grid every entry of a cell's neighbor list is a
/// genuine neighbor; in particular its index is in bounds.
pub proof fn lemma_neighbor_seq_ok(i: int, cx: int, cy: int, k: int)
    requires
        cx >= 1,
        cy >= 0,
        cx * cy <= usize::MAX,
        0 <= i < cx * cy,
        0 <= k < crate::grid::neighbor_seq(i, cx * cy, cx).len(),
    ensures
        nb_ok(i, crate::grid::neighbor_seq(i, cx * cy, cx)[k], cx, cx * cy),
{
    let n = cx * cy;
    let s = crate::grid::neighbor_seq(i, n, cx);
    vstd::arithmetic::div_mod::lemma_mod_multiples_basic(cy, cx);
    assert(cx * cy == cy * cx) by (nonlinear_arith);
    assert(n % cx == 0);
    let su: int = if i >= cx {
        1
    } else {
        0
    };
    let sd: int = if i + cx < n {
        1
    } else {
        0
    };
    let sl: int = if i % cx > 0 {
        1
    } else {
        0
    };
    assert(0int % cx == 0);
    if k < su {
        assert(s[k] == Neighbor { direction: Direction::Up, cell_idx: (i - cx) as usize });
    } else if k < su + sd {
        assert(s[k] == Neighbor { direction: Direction::Down, cell_idx: (i + cx) as usize });
    } else if k < su + sd + sl {
        assert(s[k] == Neighbor { direction: Direction::Left, cell_idx: (i - 1) as usize });
    } else {
        assert(s[k] == Neighbor { direction: Direction::Right, cell_idx: (i + 1) as usize });
        assert(i + 1 != n);
    }
}

/// The grid after merging the group on `nb`'s side into the group of the
/// cell at `ci` and opening the mirrored wall pair between them: every
/// cell that carried `nb`'s old group id is relabeled with `ci`'s, and
/// the two flags facing each other across the shared wall are set.
pub open spec fn merged_cells(c: Seq<Cell>, ci: int, nb: Neighbor) -> Seq<Cell> {
    let g_new = c[ci].path_id;
    let g_old = c[nb.cell_idx as int].path_id;
    Seq::new(
        c.len(),
        |i: int|
            {
                let c0 = c[i];
                let pid = if c0.path_id == g_old {
                    g_new
                } else {
                    c0.path_id
                };
                if i == ci {
                    match nb.direction {
                        Direction::Up => Cell {
                            idx: c0.idx,
                            path_id: pid,
                            top: true,
                            bot: c0.bot,
                            left: c0.left,
                            right: c0.right,
                        },
                        Direction::Down => Cell {
                            idx: c0.idx,
                            path_id: pid,
                            top: c0.top,
                            bot: true,
                            left: c0.left,
                            right: c0.right,
                        },
                        Direction::Left => Cell {
                            idx: c0.idx,
                            path_id: pid,
                            top: c0.top,
                            bot: c0.bot,
                            left: true,
                            right: c0.right,
                        },
                        Direction::Right => Cell {
                            idx: c0.idx,
                            path_id: pid,
                            top: c0.top,
                            bot: c0.bot,
                            left: c0.left,
                            right: true,
                        },
                    }
                } else if i == nb.cell_idx {
                    match nb.direction {
                        Direction::Up => Cell {
                            idx: c0.idx,
                            path_id: pid,
                            top: c0.top,
                            bot: true,
                            left: c0.left,
                            right: c0.right,
                        },
                        Direction::Down => Cell {
                            idx: c0.idx,
                            path_id: pid,
                            top: true,
                            bot: c0.bot,
                            left: c0.left,
                            right: c0.right,
                        },
                        Direction::Left => Cell {
                            idx: c0.idx,
                            path_id: pid,
                            top: c0.top,
                            bot: c0.bot,
                            left: c0.left,
                            right: true,
                        },
                        Direction::Right => Cell {
                            idx: c0.idx,
                            path_id: pid,
                            top: c0.top,
                            bot: c0.bot,
                            left: true,
                            right: c0.right,
                        },
                    }
                } else {
                    Cell {
                        idx: c0.idx,
                        path_id: pid,
                        top: c0.top,
                        bot: c0.bot,
                        left: c0.left,
                        right: c0.right,
                    }
                }
            },
    )
}

/// Wall flags come in mirrored pairs: the flag on one side of a shared
/// wall is open iff the flag facing it on the other side is open.
pub open spec fn mirrored(c: Seq<Cell>, cx: int) -> bool {
    &&& forall|i: int| #[trigger] has_right(c, cx, i) ==> c[i].right == c[i + 1].left
    &&& forall|i: int| #[trigger] has_down(c, cx, i) ==> c[i].bot == c[i + cx].top
}

/// An open wall only ever stands between cells of the same group.
pub open spec fn open_same_group(c: Seq<Cell>, cx: int) -> bool {
    &&& forall|i: int|
        #[trigger] has_right(c, cx, i) && c[i].right ==> c[i].path_id == c[i + 1].path_id
    &&& forall|i: int|
        #[trigger] has_down(c, cx, i) && c[i].bot ==> c[i].path_id == c[i + cx].path_id
}

/// Cells sharing a group id are mutually reachable through open walls.
pub open spec fn groups_linked(c: Seq<Cell>, cx: int) -> bool {
    forall|i: int, j: int|
        0 <= i < c.len() && 0 <= j < c.len() && c[i].path_id == c[j].path_id
            ==> #[trigger] connected(c, cx, i, j)
}

/// The full invariant of a grid's cell array, established at construction
/// and preserved by every merge: structural well-formedness, mirrored
/// flags, walls only open within a group, the count identity (live groups
/// plus open wall pairs equals the cell count, which makes the final
/// graph acyclic), and reachability within each group.
pub open spec fn cells_inv(c: Seq<Cell>, cx: int, cy: int) -> bool {
    &&& cx >= 0 && cy >= 0
    &&& c.len() == cx * cy
    &&& forall|i: int| 0 <= i < c.len() ==> (#[trigger] c[i]).idx == i
    &&& forall|i: int| 0 <= i < c.len() ==> (#[trigger] c[i]).path_id < c.len()
    &&& mirrored(c, cx)
    &&& open_same_group(c, cx)
    &&& group_count(c) + edge_count(c, cx) == c.len()
    &&& groups_linked(c, cx)
}

/// Pointwise richer right/bottom flags give a superset of open edges.
pub proof fn lemma_edge_open_mono_cells(c1: Seq<Cell>, c2: Seq<Cell>, cx: int)
    requires
        c1.len() == c2.len(),
        forall|i: int|
            0 <= i < c1.len() ==> ((c1[i].right ==> (#[trigger] c2[i]).right) && (c1[i].bot
                ==> c2[i].bot)),
    ensures
        forall|a: int, b: int| #[trigger] edge_open(c1, cx, a, b) ==> edge_open(c2, cx, a, b),
{
}

/// The heart of the generation argument: merging the group on `nb`'s
/// side of a closed wall into the group of the cell at `ci` preserves the
/// grid invariant, retires exactly one group id, opens exactly one wall
/// pair, and relabels exactly the cells of the retired group.
pub proof fn lemma_merge_preserves_inv(c: Seq<Cell>, cx: int, cy: int, ci: int, nb: Neighbor)
    requires
        cells_inv(c, cx, cy),
        nb_ok(ci, nb, cx, c.len() as int),
        c[ci].path_id != c[nb.cell_idx as int].path_id,
    ensures
        cells_inv(merged_cells(c, ci, nb), cx, cy),
        merged_cells(c, ci, nb).len() == c.len(),
        group_count(merged_cells(c, ci, nb)) + 1 == group_count(c),
        edge_count(merged_cells(c, ci, nb), cx) == edge_count(c, cx) + 1,
        forall|i: int|
            0 <= i < c.len() ==> (#[trigger] merged_cells(c, ci, nb)[i]).path_id == (
            if c[i].path_id == c[nb.cell_idx as int].path_id {
                c[ci].path_id
            } else {
                c[i].path_id
            }),
{
    let c2 = merged_cells(c, ci, nb);
    let n = c.len() as int;
    let m = nb.cell_idx as int;
    let g1 = c[ci].path_id as int;
    let g2 = c[m].path_id as int;

    assert(c2.len() == n);
    assert forall|i: int| 0 <= i < n implies (#[trigger] c2[i]).idx == i && c2[i].path_id < n by {
        assert(c[i].idx == i);
        assert(c[i].path_id < n);
        assert(c[ci].path_id < n);
    }

    // Mirroring survives: untouched pairs keep their old equal flags, and
    // the opened pair gets both sides set together.
    assert forall|i: int| #[trigger] has_right(c2, cx, i) implies c2[i].right == c2[i + 1].left by {
        assert(has_right(c, cx, i));
        assert(c[i].right == c[i + 1].left);
    }
    assert forall|i: int| #[trigger] has_down(c2, cx, i) implies c2[i].bot == c2[i + cx].top by {
        assert(has_down(c, cx, i));
        assert(c[i].bot == c[i + cx].top);
    }

    // An open wall still stands only within one group: old open walls had
    // equal ids, and relabeling maps equal ids to equal ids; the newly
    // opened wall joins two cells that both end up labeled `g1`.
    assert forall|i: int| #[trigger] has_right(c2, cx, i) && c2[i].right implies c2[i].path_id
        == c2[i + 1].path_id by {
        assert(has_right(c, cx, i));
        if c[i].right {
            assert(c[i].path_id == c[i + 1].path_id);
        }
    }
    assert forall|i: int| #[trigger] has_down(c2, cx, i) && c2[i].bot implies c2[i].path_id == c2[i
        + cx].path_id by {
        assert(has_down(c, cx, i));
        if c[i].bot {
            assert(c[i].path_id == c[i + cx].path_id);
        }
    }

    // Exactly one canonical flag flips, and it was closed before (an open
    // wall would have meant the two groups were already the same).
    let jj = match nb.direction {
        Direction::Up => m,
        Direction::Down => ci,
        Direction::Left => m,
        Direction::Right => ci,
    };
    match nb.direction {
        Direction::Up => {
            assert(has_down(c, cx, m));
            assert(!c[m].bot);
            assert(open_sides(c2, cx, m) == open_sides(c, cx, m) + 1);
        },
        Direction::Down => {
            assert(has_down(c, cx, ci));
            assert(!c[ci].bot);
            assert(open_sides(c2, cx, ci) == open_sides(c, cx, ci) + 1);
        },
        Direction::Left => {
            assert(has_right(c, cx, m));
            assert(!c[m].right);
            assert(open_sides(c2, cx, m) == open_sides(c, cx, m) + 1);
        },
        Direction::Right => {
            assert(has_right(c, cx, ci));
            assert(!c[ci].right);
            assert(open_sides(c2, cx, ci) == open_sides(c, cx, ci) + 1);
        },
    }
    assert forall|i: int| 0 <= i < n && i != jj implies open_sides(c2, cx, i) == open_sides(
        c,
        cx,
        i,
    ) by {
        assert(c2[i].right == c[i].right);
        assert(c2[i].bot == c[i].bot);
    }
    lemma_edge_count_to_one_change(c, c2, cx, n, jj);
    assert(edge_count(c2, cx) == edge_count(c, cx) + 1);

    // The live group ids lose exactly `g2`.
    lemma_group_set_finite(c);
    assert(c[m].path_id == g2);
    assert(group_set(c).contains(g2));
    assert forall|g: int| group_set(c2).contains(g) implies group_set(c).remove(g2).contains(
        g,
    ) by {
        let i = choose|i: int| 0 <= i < c2.len() && (#[trigger] c2[i]).path_id == g;
        if c[i].path_id == g2 {
            assert(c2[i].path_id == g1);
            assert(c[ci].path_id == g1);
        } else {
            assert(c[i].path_id == g);
        }
    }
    assert forall|g: int| group_set(c).remove(g2).contains(g) implies group_set(c2).contains(
        g,
    ) by {
        let i = choose|i: int| 0 <= i < c.len() && (#[trigger] c[i]).path_id == g;
        assert(c2[i].path_id == g);
    }
    assert(group_set(c2) =~= group_set(c).remove(g2));
    vstd::set::axiom_set_remove_len(group_set(c), g2);
    assert(group_count(c2) + 1 == group_count(c));

    // Reachability within each group survives the relabeling: old paths
    // persist (flags only gained), and the two merged groups are joined
    // through the newly opened wall.
    lemma_edge_open_mono_cells(c, c2, cx);
    assert(edge_open(c2, cx, ci, m));
    lemma_connected_step(c2, cx, ci, m);
    lemma_connected_sym(c2, cx, ci, m);
    assert forall|i: int, j: int|
        0 <= i < n && 0 <= j < n && c2[i].path_id == c2[j].path_id implies #[trigger] connected(
        c2,
        cx,
        i,
        j,
    ) by {
        if c[i].path_id == c[j].path_id {
            assert(connected(c, cx, i, j));
            lemma_connected_mono(c, c2, cx, i, j);
        } else if c[i].path_id == g2 {
            assert(c[j].path_id == g1);
            assert(connected(c, cx, i, m));
            lemma_connected_mono(c, c2, cx, i, m);
            assert(connected(c, cx, ci, j));
            lemma_connected_mono(c, c2, cx, ci, j);
            lemma_connected_trans(c2, cx, i, m, ci);
            lemma_connected_trans(c2, cx, i, ci, j);
        } else {
            assert(c[i].path_id == g1 && c[j].path_id == g2);
            assert(connected(c, cx, i, ci));
            lemma_connected_mono(c, c2, cx, i, ci);
            assert(connected(c, cx, m, j));
            lemma_connected_mono(c, c2, cx, m, j);
            lemma_connected_trans(c2, cx, i, ci, m);
            lemma_connected_trans(c2, cx, i, m, j);
        }
    }
}

/// A prefix with no open canonical flag counts no edges.
proof fn lemma_edge_count_to_zero(c: Seq<Cell>, cx: int, k: int)
    requires
        forall|i: int| 0 <= i < k ==> open_sides(c, cx, i) == 0,
    ensures
        edge_count_to(c, cx, k) == 0,
    decreases k,
{
    if k > 0 {
        lemma_edge_count_to_zero(c, cx, k - 1);
    }
}

/// A freshly built grid satisfies the full invariant: every cell is its
/// own singleton group, no wall is open, and the count identity holds
/// with `n` groups and `0` edges.
pub proof fn lemma_initial_inv(c: Seq<Cell>, cx: int, cy: int)
    requires
        cx >= 0,
        cy >= 0,
        c.len() <= usize::MAX,
        c.len() == cx * cy,
        forall|i: int| 0 <= i < c.len() ==> #[trigger] c[i] == crate::grid::initial_cell(i),
    ensures
        cells_inv(c, cx, cy),
        edge_count(c, cx) == 0,
        group_count(c) == c.len(),
{
    let n = c.len() as int;
    assert forall|i: int| 0 <= i < n implies open_sides(c, cx, i) == 0 by {
        assert(c[i] == crate::grid::initial_cell(i));
    }
    lemma_edge_count_to_zero(c, cx, n);
    assert forall|g: int| group_set(c).contains(g) implies set_int_range(0, n).contains(g) by {
        let i = choose|i: int| 0 <= i < c.len() && (#[trigger] c[i]).path_id == g;
        assert(c[i] == crate::grid::initial_cell(i));
    }
    assert forall|g: int| set_int_range(0, n).contains(g) implies group_set(c).contains(g) by {
        assert(c[g] == crate::grid::initial_cell(g));
        assert(c[g].path_id == g);
    }
    assert(group_set(c) =~= set_int_range(0, n));
    lemma_int_range(0, n);
    assert(group_count(c) == n);
    assert forall|i: int, j: int|
        0 <= i < n && 0 <= j < n && c[i].path_id == c[j].path_id implies #[trigger] connected(
        c,
        cx,
        i,
        j,
    ) by {
        assert(c[i] == crate::grid::initial_cell(i));
        assert(c[j] == crate::grid::initial_cell(j));
        assert(i == j);
        lemma_connected_refl(c, cx, i);
    }
}

/// The spanning-tree property of a completed grid: once a single group
/// id labels every cell, the open-wall graph connects all `n` cells with
/// exactly `n - 1` open wall pairs, so it is a spanning tree and carries
/// no cycle.
pub proof fn lemma_complete_spanning_tree(c: Seq<Cell>, cx: int, cy: int)
    requires
        cells_inv(c, cx, cy),
        c.len() >= 1,
        forall|i: int, j: int|
            0 <= i < c.len() && 0 <= j < c.len() ==> (#[trigger] c[i]).path_id == (
            #[trigger] c[j]).path_id,
    ensures
        edge_count(c, cx) == c.len() - 1,
        forall|i: int, j: int|
            0 <= i < c.len() && 0 <= j < c.len() ==> #[trigger] connected(c, cx, i, j),
{
    let n = c.len() as int;
    let g0 = c[0].path_id as int;
    assert forall|g: int| group_set(c).contains(g) implies Set::empty().insert(g0).contains(g) by {
        let i = choose|i: int| 0 <= i < c.len() && (#[trigger] c[i]).path_id == g;
        assert(c[i].path_id == c[0].path_id);
    }
    assert(group_set(c).contains(g0)) by {
        assert(c[0].path_id == g0);
    }
    assert(group_set(c) =~= Set::empty().insert(g0));
    assert(group_set(c).len() == 1) by {
        assert(Set::<int>::empty().len() == 0);
        vstd::set::axiom_set_insert_len(Set::<int>::empty(), g0);
    }
    assert(edge_count(c, cx) == n - 1);
    assert forall|i: int, j: int| 0 <= i < n && 0 <= j < n implies #[trigger] connected(
        c,
        cx,
        i,
        j,
    ) by {
        assert(c[i].path_id == c[j].path_id);
    }
}

/// Walks the row-major order back to cell `0`: with every adjacent pair
/// in the same group, each cell shares its group with cell `0`.
proof fn lemma_pairwise_to_zero(c: Seq<Cell>, cx: int, cy: int, i: int)
    requires
        cx >= 1,
        cy >= 1,
        c.len() == cx * cy,
        forall|a: int| #[trigger] has_right(c, cx, a) ==> c[a].path_id == c[a + 1].path_id,
        forall|a: int| #[trigger] has_down(c, cx, a) ==> c[a].path_id == c[a + cx].path_id,
        0 <= i < c.len(),
    ensures
        c[i].path_id == c[0].path_id,
    decreases i,
{
    if i > 0 {
        if i % cx > 0 {
            assert(has_right(c, cx, i - 1)) by {
                assert(i < c.len());
            };
            lemma_pairwise_to_zero(c, cx, cy, i - 1);
        } else {
            vstd::arithmetic::div_mod::lemma_fundamental_div_mod(i, cx);
            assert(i == cx * (i / cx));
            assert(i / cx >= 1) by {
                if i / cx <= 0 {
                    assert(cx * (i / cx) <= 0) by (nonlinear_arith)
                        requires
                            cx >= 1,
                            i / cx <= 0,
                    ;
                }
            }
            assert(i - cx >= 0) by {
                assert(cx * (i / cx) >= cx * 1) by (nonlinear_arith)
                    requires
                        cx >= 1,
                        i / cx >= 1,
                ;
            }
            assert(has_down(c, cx, i - cx));
            lemma_pairwise_to_zero(c, cx, cy, i - cx);
        }
    }
}

/// If every adjacent pair of cells already shares a group id, a single
/// group id spans the whole grid.
pub proof fn lemma_pairwise_equal_is_complete(c: Seq<Cell>, cx: int, cy: int)
    requires
        cx >= 1,
        cy >= 1,
        c.len() == cx * cy,
        forall|a: int| #[trigger] has_right(c, cx, a) ==> c[a].path_id == c[a + 1].path_id,
        forall|a: int| #[trigger] has_down(c, cx, a) ==> c[a].path_id == c[a + cx].path_id,
    ensures
        forall|i: int, j: int|
            0 <= i < c.len() && 0 <= j < c.len() ==> (#[trigger] c[i]).path_id == (
            #[trigger] c[j]).path_id,
{
    assert forall|i: int, j: int|
        0 <= i < c.len() && 0 <= j < c.len() implies (#[trigger] c[i]).path_id == (
    #[trigger] c[j]).path_id by {
        lemma_pairwise_to_zero(c, cx, cy, i);
        lemma_pairwise_to_zero(c, cx, cy, j);
    }
}

/// Bridges the per-neighbor-list view to the per-pair view: if every cell
/// agrees with every entry of its neighbor list, then every adjacent pair
/// agrees.
pub proof fn lemma_neighbor_equal_gives_pairs(c: Seq<Cell>, cx: int, cy: int)
    requires
        cx >= 1,
        cy >= 1,
        c.len() <= usize::MAX,
        c.len() == cx * cy,
        forall|a: int, k: int|
            0 <= a < c.len() && 0 <= k < crate::grid::neighbor_seq(a, c.len() as int, cx).len()
                ==> c[a].path_id == c[(#[trigger] crate::grid::neighbor_seq(
                a,
                c.len() as int,
                cx,
            )[k]).cell_idx as int].path_id,
    ensures
        forall|a: int| #[trigger] has_right(c, cx, a) ==> c[a].path_id == c[a + 1].path_id,
        forall|a: int| #[trigger] has_down(c, cx, a) ==> c[a].path_id == c[a + cx].path_id,
{
    let n = c.len() as int;
    assert forall|a: int| #[trigger] has_right(c, cx, a) implies c[a].path_id == c[a
        + 1].path_id by {
        let s = crate::grid::neighbor_seq(a, n, cx);
        assert(s[s.len() - 1] == Neighbor {
            direction: Direction::Right,
            cell_idx: (a + 1) as usize,
        });
        assert(c[a].path_id == c[(s[s.len() - 1]).cell_idx as int].path_id);
    }
    assert forall|a: int| #[trigger] has_down(c, cx, a) implies c[a].path_id == c[a
        + cx].path_id by {
        let s = crate::grid::neighbor_seq(a, n, cx);
        let iu: int = if a >= cx {
            1
        } else {
            0
        };
        assert(s[iu] == Neighbor { direction: Direction::Down, cell_idx: (a + cx) as usize });
        assert(c[a].path_id == c[(s[iu]).cell_idx as int].path_id);
    }
}

} // verus!
