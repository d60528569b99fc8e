//! The maze generation algorithm: a randomized incremental merge process
//! that opens walls between cells of different groups until a single
//! connected, cycle-free group remains.

use vstd::prelude::*;
use rand::seq::SliceRandom;
use crate::geom::MazeError;
use crate::grid::{Cell, Direction, Grid, Neighbor, neighbor_seq};
use crate::graph::{
    nb_ok,
    merged_cells,
    group_count,
    edge_count,
    lemma_merge_preserves_inv,
    lemma_neighbor_seq_ok,
    lemma_group_set_finite,
    lemma_neighbor_equal_gives_pairs,
    lemma_pairwise_equal_is_complete,
};

verus! {

/// Relies on rand::seq::SliceRandom::shuffle: an in-place Fisher-Yates
/// pass over the slice, which permutes its elements and so leaves their
/// multiset (and length) unchanged.
#[verifier::external_body]
fn shuffle_vec<T>(v: &mut Vec<T>)
    ensures
        final(v)@.to_multiset() == old(v)@.to_multiset(),
        final(v)@.len() == old(v)@.len(),
{
    v.shuffle(&mut rand::thread_rng());
}

/// Relies on rand::random::<bool>: a fresh draw from the thread-local
/// generator. Nothing can be promised of the value.
#[verifier::external_body]
fn random_bool() -> bool {
    rand::random::<bool>()
}

/// Opens the wall pair between the cell at `ci` and its neighbor `nb`
/// (both facing flags at once) and relabels the neighbor's whole group
/// with `ci`'s group id: one group retires, one wall pair opens.
pub fn open_wall(grid: &mut Grid, ci: usize, nb: Neighbor)
    requires
        old(grid).inv(),
        nb_ok(ci as int, nb, old(grid).cellsx as int, old(grid).cells@.len() as int),
        old(grid).cells@[ci as int].path_id != old(grid).cells@[nb.cell_idx as int].path_id,
    ensures
        final(grid).inv(),
        final(grid).cellsx == old(grid).cellsx,
        final(grid).cellsy == old(grid).cellsy,
        final(grid).cells@ == merged_cells(old(grid).cells@, ci as int, nb),
        group_count(final(grid).cells@) + 1 == group_count(old(grid).cells@),
        edge_count(final(grid).cells@, final(grid).cellsx as int) == edge_count(
            old(grid).cells@,
            old(grid).cellsx as int,
        ) + 1,
{
    let ghost c0 = grid.cells@;
    let n = grid.cells.len();
    let g_new = grid.cells[ci].path_id;
    let g_old = grid.cells[nb.cell_idx].path_id;
    let mut pi: usize = 0;
    while pi < n
        invariant
            grid.cellsx == old(grid).cellsx,
            grid.cellsy == old(grid).cellsy,
            n == grid.cells@.len(),
            n == c0.len(),
            pi <= n,
            g_new == c0[ci as int].path_id,
            g_old == c0[nb.cell_idx as int].path_id,
            forall|i: int|
                0 <= i < pi ==> {
                    let u = #[trigger] grid.cells@[i];
                    let v = c0[i];
                    u.idx == v.idx && u.path_id == (if v.path_id == g_old {
                        g_new
                    } else {
                        v.path_id
                    }) && u.top == v.top && u.bot == v.bot && u.left == v.left && u.right
                        == v.right
                },
            forall|i: int| pi <= i < n ==> #[trigger] grid.cells@[i] == c0[i],
        decreases n - pi,
    {
        let cell = grid.cells[pi];
        if cell.path_id == g_old {
            let updated = Cell {
                idx: cell.idx,
                path_id: g_new,
                top: cell.top,
                bot: cell.bot,
                left: cell.left,
                right: cell.right,
            };
            grid.cells.set(pi, updated);
        }
        pi += 1;
    }
    let mut side_a = grid.cells[ci];
    let mut side_b = grid.cells[nb.cell_idx];
    match nb.direction {
        Direction::Up => {
            side_a.top = true;
            side_b.bot = true;
        },
        Direction::Down => {
            side_a.bot = true;
            side_b.top = true;
        },
        Direction::Left => {
            side_a.left = true;
            side_b.right = true;
        },
        Direction::Right => {
            side_a.right = true;
            side_b.left = true;
        },
    }
    grid.cells.set(ci, side_a);
    grid.cells.set(nb.cell_idx, side_b);
    proof {
        assert(grid.cells@ =~= merged_cells(c0, ci as int, nb));
        lemma_merge_preserves_inv(
            c0,
            grid.cellsx as int,
            grid.cellsy as int,
            ci as int,
            nb,
        );
    }
}

/// Visits the listed neighbors of the cell at `ci` in order and merges
/// each one whose group differs, opening the shared wall pair. Once at
/// least two neighbors have been merged, each further neighbor is first
/// gated on a coin: a `true` coin stops the cell early, which throttles
/// branching and keeps the tree sparse. Returns the number of merges;
/// a cell that merges nothing leaves the grid untouched, and then every
/// listed neighbor already shared its group.
pub fn process_cell(grid: &mut Grid, ci: usize, neighbors: &Vec<Neighbor>, coins: &Vec<bool>) -> (r:
    usize)
    requires
        old(grid).inv(),
        coins@.len() >= neighbors@.len(),
        forall|k: int|
            0 <= k < neighbors@.len() ==> nb_ok(
                ci as int,
                #[trigger] neighbors@[k],
                old(grid).cellsx as int,
                old(grid).cells@.len() as int,
            ),
    ensures
        final(grid).inv(),
        final(grid).cellsx == old(grid).cellsx,
        final(grid).cellsy == old(grid).cellsy,
        final(grid).cells@.len() == old(grid).cells@.len(),
        group_count(final(grid).cells@) + r == group_count(old(grid).cells@),
        r == 0 ==> final(grid).cells@ == old(grid).cells@ && forall|k: int|
            0 <= k < neighbors@.len() ==> old(grid).cells@[(#[trigger] neighbors@[k]).cell_idx as int].path_id
                == old(grid).cells@[ci as int].path_id,
{
    let ghost c_in = grid.cells@;
    let mut merges: usize = 0;
    let mut k: usize = 0;
    while k < neighbors.len()
        invariant
            grid.inv(),
            grid.cellsx == old(grid).cellsx,
            grid.cellsy == old(grid).cellsy,
            grid.cells@.len() == c_in.len(),
            c_in == old(grid).cells@,
            k <= neighbors@.len(),
            coins@.len() >= neighbors@.len(),
            merges <= k,
            forall|q: int|
                0 <= q < neighbors@.len() ==> nb_ok(
                    ci as int,
                    #[trigger] neighbors@[q],
                    grid.cellsx as int,
                    grid.cells@.len() as int,
                ),
            group_count(grid.cells@) + merges == group_count(c_in),
            merges == 0 ==> grid.cells@ == c_in && forall|q: int|
                0 <= q < k ==> c_in[(#[trigger] neighbors@[q]).cell_idx as int].path_id
                    == c_in[ci as int].path_id,
        decreases neighbors@.len() - k,
    {
        if merges > 1 && coins[k] {
            return merges;
        }
        let nb = neighbors[k];
        if grid.cells[nb.cell_idx].path_id != grid.cells[ci].path_id {
            open_wall(grid, ci, nb);
            merges = merges + 1;
        }
        k = k + 1;
    }
    merges
}

/// One full generation pass: visits every cell once in a freshly
/// shuffled order, shuffles each cell's neighbor list, and merges the
/// cell with neighbors of differing groups under the early-stop coin.
/// Returns the number of merges. A pass that merges nothing proves the
/// grid already complete: every cell then agrees with all its neighbors,
/// and agreement spreads across the whole rectangle.
pub fn generate_pass(grid: &mut Grid) -> (r: usize)
    requires
        old(grid).inv(),
        old(grid).cellsx >= 1,
        old(grid).cellsy >= 1,
        old(grid).cells@.len() + old(grid).cellsx <= usize::MAX,
    ensures
        final(grid).inv(),
        final(grid).cellsx == old(grid).cellsx,
        final(grid).cellsy == old(grid).cellsy,
        final(grid).cells@.len() == old(grid).cells@.len(),
        group_count(final(grid).cells@) + r == group_count(old(grid).cells@),
        r == 0 ==> final(grid).complete(),
{
    let n = grid.cells.len();
    let cx = grid.cellsx;
    let mut order: Vec<usize> = Vec::new();
    let mut i: usize = 0;
    while i < n
        invariant
            i <= n,
            order@.len() == i,
            forall|q: int| 0 <= q < i ==> order@[q] == q,
        decreases n - i,
    {
        order.push(i);
        i = i + 1;
    }
    let ghost order0 = order@;
    shuffle_vec(&mut order);
    proof {
        broadcast use vstd::seq_lib::group_to_multiset_ensures;

        assert forall|q: int| 0 <= q < order@.len() implies (#[trigger] order@[q]) < n by {
            let x = order@[q];
            assert(order@.contains(x));
            assert(order@.to_multiset().count(x) > 0);
            assert(order0.to_multiset().count(x) > 0);
            assert(order0.contains(x));
            let j = choose|j: int| 0 <= j < order0.len() && order0[j] == x;
            assert(order0[j] == j);
        }
        assert forall|a: int| 0 <= a < n implies order@.contains(#[trigger] (a as usize)) by {
            assert(order0[a] == a as usize);
            assert(order0.contains(a as usize));
            assert(order0.to_multiset().count(a as usize) > 0);
            assert(order@.to_multiset().count(a as usize) > 0);
        }
    }
    let ghost c_start = grid.cells@;
    proof {
        lemma_group_set_finite(c_start);
    }
    let mut total: usize = 0;
    let mut k: usize = 0;
    while k < order.len()
        invariant
            grid.inv(),
            grid.cellsx == old(grid).cellsx,
            grid.cellsy == old(grid).cellsy,
            grid.cells@.len() == c_start.len(),
            c_start == old(grid).cells@,
            n == c_start.len(),
            cx == grid.cellsx,
            n + cx <= usize::MAX,
            cx >= 1,
            grid.cellsy >= 1,
            order@.len() == n,
            forall|q: int| 0 <= q < order@.len() ==> (#[trigger] order@[q]) < n,
            forall|a: int| 0 <= a < n ==> order@.contains(#[trigger] (a as usize)),
            k <= n,
            group_count(grid.cells@) + total == group_count(c_start),
            group_count(c_start) <= n,
            total == 0 ==> grid.cells@ == c_start && (forall|ai: int, q: int|
                0 <= ai < k && 0 <= q < neighbor_seq(order@[ai] as int, n as int, cx as int).len()
                    ==> c_start[(#[trigger] neighbor_seq(order@[ai] as int, n as int, cx as int)[q]).cell_idx as int].path_id
                    == c_start[order@[ai] as int].path_id),
        decreases order@.len() - k,
    {
        let ci = order[k];
        let cell = grid.cells[ci];
        proof {
            assert(grid.cells@[ci as int].idx == ci);
        }
        let mut nbs = cell.neighbors(n, cx);
        proof {
            assert forall|q: int| 0 <= q < nbs@.len() implies nb_ok(
                ci as int,
                #[trigger] nbs@[q],
                cx as int,
                n as int,
            ) by {
                lemma_neighbor_seq_ok(ci as int, cx as int, grid.cellsy as int, q);
            }
        }
        let ghost nbs0 = nbs@;
        shuffle_vec(&mut nbs);
        proof {
            broadcast use vstd::seq_lib::group_to_multiset_ensures;

            assert forall|q: int| 0 <= q < nbs@.len() implies nb_ok(
                ci as int,
                #[trigger] nbs@[q],
                cx as int,
                n as int,
            ) by {
                let x = nbs@[q];
                assert(nbs@.contains(x));
                assert(nbs@.to_multiset().count(x) > 0);
                assert(nbs0.to_multiset().count(x) > 0);
                assert(nbs0.contains(x));
                let j = choose|j: int| 0 <= j < nbs0.len() && nbs0[j] == x;
                assert(nb_ok(ci as int, nbs0[j], cx as int, n as int));
            }
        }
        let mut coins: Vec<bool> = Vec::new();
        let mut t: usize = 0;
        while t < nbs.len()
            invariant
                t <= nbs@.len(),
                coins@.len() == t,
            decreases nbs@.len() - t,
        {
            coins.push(random_bool());
            t = t + 1;
        }
        let ghost c_before = grid.cells@;
        let local = process_cell(grid, ci, &nbs, &coins);
        proof {
            if local == 0 && total == 0 {
                broadcast use vstd::seq_lib::group_to_multiset_ensures;

                assert forall|q: int|
                    0 <= q < neighbor_seq(ci as int, n as int, cx as int).len() implies c_start[(
                #[trigger] neighbor_seq(ci as int, n as int, cx as int)[q]).cell_idx as int].path_id
                    == c_start[ci as int].path_id by {
                    let x = neighbor_seq(ci as int, n as int, cx as int)[q];
                    assert(nbs0 == neighbor_seq(ci as int, n as int, cx as int));
                    assert(nbs0[q] == x);
                    assert(nbs0.contains(x));
                    assert(nbs0.to_multiset().count(x) > 0);
                    assert(nbs@.to_multiset().count(x) > 0);
                    assert(nbs@.contains(x));
                    let j = choose|j: int| 0 <= j < nbs@.len() && nbs@[j] == x;
                    assert(c_before[(nbs@[j]).cell_idx as int].path_id == c_before[ci as int].path_id);
                }
            }
        }
        total = total + local;
        k = k + 1;
    }
    proof {
        if total == 0 {
            assert forall|a: int, q: int|
                0 <= a < grid.cells@.len() && 0 <= q < neighbor_seq(
                    a,
                    grid.cells@.len() as int,
                    cx as int,
                ).len() implies grid.cells@[(#[trigger] neighbor_seq(
                a,
                grid.cells@.len() as int,
                cx as int,
            )[q]).cell_idx as int].path_id == grid.cells@[a].path_id by {
                assert(order@.contains(a as usize));
                let ai = choose|ai: int| 0 <= ai < order@.len() && order@[ai] == a as usize;
                assert(c_start[(neighbor_seq(order@[ai] as int, n as int, cx as int)[q]).cell_idx as int].path_id
                    == c_start[order@[ai] as int].path_id);
            }
            lemma_neighbor_equal_gives_pairs(grid.cells@, cx as int, grid.cellsy as int);
            lemma_pairwise_equal_is_complete(grid.cells@, cx as int, grid.cellsy as int);
        }
    }
    total
}

/// Repeats shuffled merge passes until a single group id spans all
/// cells. Each pass on an incomplete grid is proved to merge at least
/// one pair, so the stall check never fires and the result is always
/// `Ok`; the finished grid is a spanning tree over grid adjacency.
pub fn generate(grid: &mut Grid) -> (r: Result<(), MazeError>)
    requires
        old(grid).inv(),
        old(grid).cellsx >= 1,
        old(grid).cellsy >= 1,
        old(grid).cells@.len() + old(grid).cellsx <= usize::MAX,
    ensures
        final(grid).inv(),
        final(grid).cellsx == old(grid).cellsx,
        final(grid).cellsy == old(grid).cellsy,
        final(grid).cells@.len() == old(grid).cells@.len(),
        r == Ok::<(), MazeError>(()),
        final(grid).complete(),
{
    loop
        invariant
            grid.inv(),
            grid.cellsx == old(grid).cellsx,
            grid.cellsy == old(grid).cellsy,
            grid.cells@.len() == old(grid).cells@.len(),
            grid.cellsx >= 1,
            grid.cellsy >= 1,
            grid.cells@.len() + grid.cellsx <= usize::MAX,
        decreases group_count(grid.cells@),
    {
        if grid.is_complete() {
            return Ok(());
        }
        let merged = generate_pass(grid);
        if merged == 0 {
            // A pass that merges nothing certifies completeness; the
            // stall check is kept for the shape of the algorithm but is
            // proved unreachable.
            if !grid.is_complete() {
                return Err(MazeError::GenerationStalled);
            }
            return Ok(());
        }
    }
}

/// The spanning-tree law: the open-wall graph of a completed grid
/// connects every pair of cells and has exactly `cellsx * cellsy - 1`
/// open wall pairs, so it is a spanning tree over grid adjacency and
/// carries no cycle.
pub proof fn lemma_spanning_tree(g: Grid)
    requires
        g.inv(),
        g.complete(),
        g.cells@.len() >= 1,
    ensures
        edge_count(g.cells@, g.cellsx as int) == g.cells@.len() - 1,
        forall|i: int, j: int|
            0 <= i < g.cells@.len() && 0 <= j < g.cells@.len()
                ==> #[trigger] crate::graph::connected(g.cells@, g.cellsx as int, i, j),
{
    crate::graph::lemma_complete_spanning_tree(g.cells@, g.cellsx as int, g.cellsy as int);
}

/// Wall-flag mirroring: under the grid invariant, for every pair of
/// adjacent cells the flag on one side of the shared wall is open iff
/// the flag facing it on the other side is open.
pub proof fn lemma_wall_mirroring(g: Grid, i: int)
    requires
        g.inv(),
    ensures
        crate::graph::has_right(g.cells@, g.cellsx as int, i) ==> g.cells@[i].right == g.cells@[i
            + 1].left,
        crate::graph::has_down(g.cells@, g.cellsx as int, i) ==> g.cells@[i].bot == g.cells@[i
            + g.cellsx].top,
{
    if crate::graph::has_right(g.cells@, g.cellsx as int, i) {
        assert(g.cells@[i].right == g.cells@[i + 1].left);
    }
    if crate::graph::has_down(g.cells@, g.cellsx as int, i) {
        assert(g.cells@[i].bot == g.cells@[i + g.cellsx].top);
    }
}

} // verus!
