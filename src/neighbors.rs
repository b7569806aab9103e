//! Neighbor search: for each particle, the particles of the touching cells
//! that pass the exact distance test.
use crate::grid::{inner, near, Grid};
use vstd::prelude::*;

verus! {

/// `close` gives one answer for each pair of particles.
pub open spec fn functional<F: Fn(usize, usize) -> bool>(close: F, n: nat) -> bool {
    forall|i: usize, j: usize, a: bool, b: bool|
        i < n && j < n && #[trigger] close.ensures((i, j), a) && #[trigger] close.ensures((i, j), b)
            ==> a == b
}

/// `lists` holds, for each particle `i`, the particles `j` whose cell
/// touches that of `i` and for which `close(i, j)` holds, each once.
pub open spec fn neighbor_lists<F: Fn(usize, usize) -> bool>(
    cells: Seq<(i64, i64)>,
    close: F,
    lists: Seq<Seq<usize>>,
) -> bool {
    &&& lists.len() == cells.len()
    &&& forall|i: usize, j: usize|
        i < cells.len() && j < cells.len() ==> (#[trigger] lists[i as int].contains(j) <==> (near(
            cells[j as int],
            cells[i as int],
        ) && close.ensures((i, j), true)))
    &&& forall|i: usize, j: usize|
        i < cells.len() && #[trigger] lists[i as int].contains(j) ==> j < cells.len()
    &&& forall|i: int| 0 <= i < cells.len() ==> #[trigger] lists[i].no_duplicates()
}

/// The contents of each list.
pub open spec fn list_views(r: Seq<Vec<usize>>) -> Seq<Seq<usize>> {
    r.map_values(|b: Vec<usize>| b@)
}

/// For each particle `i`, the candidates of the grid around its cell that
/// pass `close(i, j)`, the exact distance test.
pub fn find_neighbors<F: Fn(usize, usize) -> bool>(
    grid: &Grid,
    cells: &Vec<(i64, i64)>,
    close: &F,
) -> (r: Vec<Vec<usize>>)
    requires
        grid.wf(),
        grid.model() == cells@,
        forall|i: int| 0 <= i < cells.len() ==> inner(#[trigger] cells[i]),
        forall|i: usize, j: usize|
            i < cells.len() && j < cells.len() ==> #[trigger] close.requires((i, j)),
        functional(*close, cells.len() as nat),
    ensures
        neighbor_lists(cells@, *close, list_views(r@)),
{
    let mut lists: Vec<Vec<usize>> = Vec::new();
    let mut i: usize = 0;
    while i < cells.len()
        invariant
            grid.wf(),
            grid.model() == cells@,
            forall|i: int| 0 <= i < cells.len() ==> inner(#[trigger] cells[i]),
            forall|i: usize, j: usize|
                i < cells.len() && j < cells.len() ==> #[trigger] close.requires((i, j)),
            functional(*close, cells.len() as nat),
            i <= cells.len(),
            lists.len() == i,
            forall|a: usize, j: usize|
                a < i && j < cells.len() ==> (#[trigger] lists[a as int]@.contains(j) <==> (near(
                    cells[j as int],
                    cells[a as int],
                ) && close.ensures((a, j), true))),
            forall|a: usize, j: usize|
                a < i && #[trigger] lists[a as int]@.contains(j) ==> j < cells.len(),
            forall|a: int| 0 <= a < i ==> #[trigger] lists[a]@.no_duplicates(),
        decreases cells.len() - i,
    {
        let cands = grid.candidates(cells[i]);
        let mut kept: Vec<usize> = Vec::new();
        let mut m: usize = 0;
        while m < cands.len()
            invariant
                forall|i: usize, j: usize|
                    i < cells.len() && j < cells.len() ==> #[trigger] close.requires((i, j)),
                functional(*close, cells.len() as nat),
                i < cells.len(),
                m <= cands.len(),
                cands@.no_duplicates(),
                kept@.no_duplicates(),
                forall|j: usize|
                    #[trigger] cands@.contains(j) <==> (j < cells.len() && near(
                        cells[j as int],
                        cells[i as int],
                    )),
                forall|j: usize|
                    #[trigger] kept@.contains(j) <==> (cands@.take(m as int).contains(j)
                        && close.ensures((i, j), true)),
            decreases cands.len() - m,
        {
            let j = cands[m];
            proof {
                assert(cands@.contains(j));
            }
            let keep = close(i, j);
            let ghost before = kept@;
            proof {
                assert(!cands@.take(m as int).contains(j)) by {
                    if cands@.take(m as int).contains(j) {
                        let y = choose|y: int| 0 <= y < m && #[trigger] cands@.take(m as int)[y] == j;
                        assert(cands@[y] == cands@[m as int]);
                    }
                }
                assert(!before.contains(j));
            }
            if keep {
                kept.push(j);
            }
            proof {
                assert(cands@.take(m + 1) =~= cands@.take(m as int).push(j));
                assert forall|a: int, b: int|
                    0 <= a < kept@.len() && 0 <= b < kept@.len() && a != b implies kept@[a]
                    != kept@[b] by {
                    if a < before.len() && b == before.len() {
                        assert(before.contains(before[a]));
                    }
                    if b < before.len() && a == before.len() {
                        assert(before.contains(before[b]));
                    }
                }
                assert forall|x: usize| #[trigger] kept@.contains(x) <==> (cands@.take(
                    m + 1,
                ).contains(x) && close.ensures((i, x), true)) by {
                    if before.contains(x) {
                        let y = choose|y: int| 0 <= y < before.len() && before[y] == x;
                        assert(kept@[y] == x);
                    }
                    if kept@.contains(x) && x != j {
                        let y = choose|y: int| 0 <= y < kept@.len() && kept@[y] == x;
                        assert(before[y] == x);
                    }
                    if cands@.take(m + 1).contains(x) && x != j {
                        let y = choose|y: int| 0 <= y < m + 1 && #[trigger] cands@.take(m + 1)[y] == x;
                        assert(cands@.take(m as int)[y] == x);
                    }
                    if keep {
                        assert(kept@[kept@.len() - 1] == j);
                    }
                    if x == j {
                        assert(cands@.take(m + 1)[m as int] == j);
                    }
                }
            }
            m += 1;
        }
        proof {
            assert(cands@.take(cands.len() as int) =~= cands@);
        }
        lists.push(kept);
        i += 1;
    }
    proof {
        assert(list_views(lists@).len() == cells.len());
        assert forall|a: usize, j: usize|
            a < cells.len() && j < cells.len() implies (#[trigger] list_views(lists@)[a as int].contains(j)
                <==> (near(cells@[j as int], cells@[a as int]) && close.ensures((a, j), true))) by {
            assert(list_views(lists@)[a as int] == lists[a as int]@);
        }
        assert forall|a: usize, j: usize|
            a < cells.len() && #[trigger] list_views(lists@)[a as int].contains(j) implies j
                < cells.len() by {
            assert(list_views(lists@)[a as int] == lists[a as int]@);
        }
        assert forall|a: int| 0 <= a < cells.len() implies #[trigger] list_views(lists@)[a].no_duplicates() by {
            assert(list_views(lists@)[a] == lists[a]@);
        }
    }
    lists
}

/// A particle is in its own neighbor list whenever the distance test
/// accepts it against itself (a separation of zero is within the radius).
pub proof fn lemma_self_neighbor<F: Fn(usize, usize) -> bool>(
    cells: Seq<(i64, i64)>,
    close: F,
    lists: Seq<Seq<usize>>,
    i: usize,
)
    requires
        neighbor_lists(cells, close, lists),
        i < cells.len(),
        close.ensures((i, i), true),
    ensures
        lists[i as int].contains(i),
{
}

/// With a symmetric distance test, the neighbor relation is symmetric: if
/// `j` is in the list of `i`, then `i` is in the list of `j`.
pub proof fn lemma_neighbors_symmetric<F: Fn(usize, usize) -> bool>(
    cells: Seq<(i64, i64)>,
    close: F,
    lists: Seq<Seq<usize>>,
    i: usize,
    j: usize,
)
    requires
        neighbor_lists(cells, close, lists),
        i < cells.len(),
        j < cells.len(),
        close.ensures((i, j), true) ==> close.ensures((j, i), true),
    ensures
        lists[i as int].contains(j) ==> lists[j as int].contains(i),
{
}

} // verus!
