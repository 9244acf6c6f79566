//! Flood fill: discovery of the connected same-colored region around a
//! seed cell.
//!
//! The search works over flat cell indices with [`crate::grid::is_neighbor`]
//! as the connectivity relation, walks an explicit worklist instead of
//! recursing (the grid may hold up to `MAX_DIM * MAX_DIM` cells), and marks
//! every visited cell exactly once. The discovered region is painted in a
//! separate pass, so the predicate "has the seed's color" never changes
//! while the search runs.

use vstd::prelude::*;

use crate::color::Color;
use crate::grid::PixelGrid;
use crate::grid::is_neighbor;
use vstd::set_lib::lemma_int_range;
use vstd::set_lib::lemma_len_subset;
use vstd::set_lib::set_int_range;

verus! {

broadcast use vstd::seq_lib::lemma_seq_contains_after_push;

/// Whether cell `i` can be reached from `seed` in at most `n` neighbor
/// steps, crossing only cells whose color is exactly `wanted`.
pub open spec fn fill_reaches(
    cells: Seq<Option<Color>>,
    w: int,
    h: int,
    wanted: Option<Color>,
    seed: int,
    i: int,
    n: nat,
) -> bool
    decreases n,
{
    if i == seed {
        &&& 0 <= seed < cells.len()
        &&& cells[seed] == wanted
    } else if n == 0 {
        false
    } else {
        &&& 0 <= i < cells.len()
        &&& cells[i] == wanted
        &&& exists|p: int|
            #![auto]
            fill_reaches(cells, w, h, wanted, seed, p, (n - 1) as nat) && is_neighbor(w, h, p, i)
    }
}

/// Whether cell `i` lies in the connected `wanted`-colored region around
/// `seed`: reachable in some number of steps.
pub open spec fn fill_reachable(
    cells: Seq<Option<Color>>,
    w: int,
    h: int,
    wanted: Option<Color>,
    seed: int,
    i: int,
) -> bool {
    exists|n: nat| fill_reaches(cells, w, h, wanted, seed, i, n)
}

/// Every cell on a reach path lies in range and carries the wanted color,
/// and so does the seed itself.
pub proof fn lemma_reaches_in_region(
    cells: Seq<Option<Color>>,
    w: int,
    h: int,
    wanted: Option<Color>,
    seed: int,
    i: int,
    n: nat,
)
    requires
        fill_reaches(cells, w, h, wanted, seed, i, n),
    ensures
        0 <= i < cells.len(),
        cells[i] == wanted,
        0 <= seed < cells.len(),
        cells[seed] == wanted,
    decreases n,
{
    if i != seed {
        let p = choose|p: int|
            #![auto]
            fill_reaches(cells, w, h, wanted, seed, p, (n - 1) as nat) && is_neighbor(w, h, p, i);
        lemma_reaches_in_region(cells, w, h, wanted, seed, p, (n - 1) as nat);
    }
}

/// Extending a reach path by one neighbor keeps it a reach path.
pub proof fn lemma_reachable_step(
    cells: Seq<Option<Color>>,
    w: int,
    h: int,
    wanted: Option<Color>,
    seed: int,
    p: int,
    u: int,
)
    requires
        fill_reachable(cells, w, h, wanted, seed, p),
        is_neighbor(w, h, p, u),
        0 <= u < cells.len(),
        cells[u] == wanted,
    ensures
        fill_reachable(cells, w, h, wanted, seed, u),
{
    let n = choose|n: nat| fill_reaches(cells, w, h, wanted, seed, p, n);
    lemma_reaches_in_region(cells, w, h, wanted, seed, p, n);
    if u == seed {
        assert(fill_reaches(cells, w, h, wanted, seed, u, 0));
    } else {
        assert(((n + 1) as nat - 1) as nat == n);
        assert(fill_reaches(cells, w, h, wanted, seed, u, (n + 1) as nat));
    }
}

/// A set of cells that holds the seed and is closed under wanted-colored
/// neighbor steps holds the whole reachable region.
pub proof fn lemma_closed_set_holds_region(
    cells: Seq<Option<Color>>,
    w: int,
    h: int,
    wanted: Option<Color>,
    seed: usize,
    vs: Seq<usize>,
    j: int,
    n: nat,
)
    requires
        vs.contains(seed),
        forall|v: usize, u: usize|
            #![trigger vs.contains(v), is_neighbor(w, h, v as int, u as int)]
            vs.contains(v) && is_neighbor(w, h, v as int, u as int) && u < cells.len() && cells[u
                as int] == wanted ==> vs.contains(u),
        fill_reaches(cells, w, h, wanted, seed as int, j, n),
        cells.len() <= usize::MAX,
    ensures
        0 <= j < cells.len(),
        vs.contains(j as usize),
    decreases n,
{
    lemma_reaches_in_region(cells, w, h, wanted, seed as int, j, n);
    if j != seed as int {
        let p = choose|p: int|
            #![auto]
            fill_reaches(cells, w, h, wanted, seed as int, p, (n - 1) as nat) && is_neighbor(
                w,
                h,
                p,
                j,
            );
        lemma_reaches_in_region(cells, w, h, wanted, seed as int, p, (n - 1) as nat);
        lemma_closed_set_holds_region(cells, w, h, wanted, seed, vs, p, (n - 1) as nat);
        assert((p as usize) as int == p && (j as usize) as int == j);
        assert(is_neighbor(w, h, (p as usize) as int, (j as usize) as int));
    }
}

/// A sequence of distinct indices below `n` cannot be longer than `n`.
proof fn lemma_distinct_bounded_len(vs: Seq<usize>, n: int)
    requires
        vs.no_duplicates(),
        forall|k: int| 0 <= k < vs.len() ==> (vs[k] as int) < n,
        0 <= n,
    ensures
        vs.len() <= n,
{
    let m = vs.map_values(|v: usize| v as int);
    vs.lemma_no_duplicates_injective(|v: usize| v as int);
    m.unique_seq_to_set();
    assert(m.to_set().subset_of(set_int_range(0, n))) by {
        assert forall|x: int| m.to_set().contains(x) implies set_int_range(0, n).contains(x) by {
            let k = choose|k: int| 0 <= k < m.len() && m[k] == x;
            assert(vs[k] as int == x);
        }
    }
    lemma_int_range(0, n);
    lemma_len_subset(m.to_set(), set_int_range(0, n));
}

/// What the flood-fill search promises about its result `r`, for a grid of
/// `cells` with dimensions `w` by `h`, a seed cell and a wanted color: the
/// result lists, exactly once each, exactly the cells of the connected
/// `wanted`-colored region around the seed, and is empty when the seed is
/// out of range or does not carry the wanted color.
pub open spec fn fill_region_result(
    cells: Seq<Option<Color>>,
    w: int,
    h: int,
    wanted: Option<Color>,
    seed: usize,
    r: Seq<usize>,
) -> bool {
    &&& r.no_duplicates()
    &&& (!(seed < cells.len() && cells[seed as int] == wanted) ==> r.len() == 0)
    &&& ((seed < cells.len() && cells[seed as int] == wanted) ==> r.contains(seed))
    &&& (forall|j: usize| #[trigger]
        r.contains(j) ==> j < cells.len() && cells[j as int] == wanted && fill_reachable(
            cells,
            w,
            h,
            wanted,
            seed as int,
            j as int,
        ))
    &&& (forall|j: usize|
        j < cells.len() && #[trigger] fill_reachable(cells, w, h, wanted, seed as int, j as int)
            ==> r.contains(j))
}

/// Whether the vector holds `x`.
pub fn vec_contains(v: &Vec<usize>, x: usize) -> (r: bool)
    ensures
        r == v@.contains(x),
{
    let mut i: usize = 0;
    while i < v.len()
        invariant
            i <= v@.len(),
            forall|k: int| 0 <= k < i ==> v@[k] != x,
        decreases v@.len() - i,
    {
        if v[i] == x {
            return true;
        }
        i = i + 1;
    }
    false
}

/// Whether two cell values are the same: both unset, or set to exactly the
/// same color.
pub fn cell_eq(a: Option<Color>, b: Option<Color>) -> (r: bool)
    ensures
        r == (a == b),
{
    match (a, b) {
        (None, None) => true,
        (Some(x), Some(y)) => x == y,
        _ => false,
    }
}

/// Collect into `visited` the connected region of cells around
/// `pixel_index` whose color is exactly `wanted_color`, walking an
/// explicit worklist. Each cell of the region appears exactly once; cells
/// outside the region are never listed. When the seed is out of range or
/// does not carry the wanted color, nothing is collected.
pub fn fill_get_all_pixels(
    pixel_index: usize,
    grid: &PixelGrid,
    visited: &mut Vec<usize>,
    wanted_color: Option<Color>,
)
    requires
        grid.wf(),
        old(visited)@.len() == 0,
    ensures
        fill_region_result(
            grid@,
            grid.spec_width() as int,
            grid.spec_height() as int,
            wanted_color,
            pixel_index,
            final(visited)@,
        ),
{
    let ghost cells = grid@;
    let ghost w = grid.spec_width() as int;
    let ghost h = grid.spec_height() as int;
    let n: usize = grid.len();
    if pixel_index >= n {
        proof {
            assert forall|j: usize|
                j < cells.len() && fill_reachable(
                    cells,
                    w,
                    h,
                    wanted_color,
                    pixel_index as int,
                    j as int,
                ) implies visited@.contains(j) by {
                let nn = choose|nn: nat|
                    fill_reaches(cells, w, h, wanted_color, pixel_index as int, j as int, nn);
                lemma_reaches_in_region(
                    cells,
                    w,
                    h,
                    wanted_color,
                    pixel_index as int,
                    j as int,
                    nn,
                );
            }
        }
        return ;
    }
    let seed_color = grid.get_index(pixel_index);
    if !cell_eq(seed_color, wanted_color) {
        proof {
            assert forall|j: usize|
                j < cells.len() && fill_reachable(
                    cells,
                    w,
                    h,
                    wanted_color,
                    pixel_index as int,
                    j as int,
                ) implies visited@.contains(j) by {
                let nn = choose|nn: nat|
                    fill_reaches(cells, w, h, wanted_color, pixel_index as int, j as int, nn);
                lemma_reaches_in_region(
                    cells,
                    w,
                    h,
                    wanted_color,
                    pixel_index as int,
                    j as int,
                    nn,
                );
            }
        }
        return ;
    }
    let mut worklist: Vec<usize> = Vec::new();
    visited.push(pixel_index);
    worklist.push(pixel_index);
    proof {
        assert(fill_reaches(cells, w, h, wanted_color, pixel_index as int, pixel_index as int, 0));
    }
    loop
        invariant
            grid.wf(),
            cells == grid@,
            w == grid.spec_width() as int,
            h == grid.spec_height() as int,
            n == cells.len(),
            visited@.no_duplicates(),
            worklist@.no_duplicates(),
            visited@.contains(pixel_index),
            forall|j: usize| #[trigger]
                visited@.contains(j) ==> j < n && cells[j as int] == wanted_color
                    && fill_reachable(cells, w, h, wanted_color, pixel_index as int, j as int),
            forall|k: int| 0 <= k < worklist@.len() ==> visited@.contains(worklist@[k]),
            forall|v: usize, u: usize|
                #![trigger visited@.contains(v), is_neighbor(w, h, v as int, u as int)]
                visited@.contains(v) && !worklist@.contains(v) && is_neighbor(
                    w,
                    h,
                    v as int,
                    u as int,
                ) && u < n && cells[u as int] == wanted_color ==> visited@.contains(u),
            visited@.len() <= n,
        ensures
            visited@.no_duplicates(),
            visited@.contains(pixel_index),
            forall|j: usize| #[trigger]
                visited@.contains(j) ==> j < n && cells[j as int] == wanted_color
                    && fill_reachable(cells, w, h, wanted_color, pixel_index as int, j as int),
            forall|v: usize, u: usize|
                #![trigger visited@.contains(v), is_neighbor(w, h, v as int, u as int)]
                visited@.contains(v) && is_neighbor(w, h, v as int, u as int) && u < n && cells[u
                    as int] == wanted_color ==> visited@.contains(u),
        decreases n - visited@.len(), worklist@.len(),
    {
        let ghost wl_before = worklist@;
        let cur_opt = worklist.pop();
        let cur: usize = match cur_opt {
            Some(c) => c,
            None => {
                break ;
            },
        };
        let ghost visited_at_pop = visited@;
        proof {
            assert(cur == wl_before[wl_before.len() - 1]);
            assert forall|v: usize| wl_before.contains(v) implies worklist@.contains(v) || v
                == cur by {
                let k = choose|k: int| 0 <= k < wl_before.len() && wl_before[k] == v;
                if k < wl_before.len() - 1 {
                    assert(worklist@[k] == v);
                }
            }
            assert(!worklist@.contains(cur)) by {
                if worklist@.contains(cur) {
                    let k = choose|k: int| 0 <= k < worklist@.len() && worklist@[k] == cur;
                    assert(wl_before[k] == cur);
                }
            }
            assert(worklist@.no_duplicates()) by {
                assert forall|i1: int, j1: int|
                    0 <= i1 < worklist@.len() && 0 <= j1 < worklist@.len() && i1
                        != j1 implies worklist@[i1] != worklist@[j1] by {
                    assert(wl_before[i1] == worklist@[i1] && wl_before[j1] == worklist@[j1]);
                }
            }
            assert(visited@.contains(cur));
        }
        let nbs = grid.neighbors(cur);
        let mut i: usize = 0;
        while i < nbs.len()
            invariant
                grid.wf(),
                cells == grid@,
                w == grid.spec_width() as int,
                h == grid.spec_height() as int,
                n == cells.len(),
                i <= nbs@.len(),
                forall|j: usize| nbs@.contains(j) <==> is_neighbor(w, h, cur as int, j as int),
                visited@.no_duplicates(),
                worklist@.no_duplicates(),
                visited@.contains(pixel_index),
                visited@.contains(cur),
                forall|j: usize| #[trigger]
                    visited@.contains(j) ==> j < n && cells[j as int] == wanted_color
                        && fill_reachable(cells, w, h, wanted_color, pixel_index as int, j as int),
                forall|k: int| 0 <= k < worklist@.len() ==> visited@.contains(worklist@[k]),
                forall|j: usize| visited_at_pop.contains(j) ==> visited@.contains(j),
                !worklist@.contains(cur),
                forall|v: usize, u: usize|
                    #![trigger visited@.contains(v), is_neighbor(w, h, v as int, u as int)]
                    visited@.contains(v) && v != cur && !worklist@.contains(v) && is_neighbor(
                        w,
                        h,
                        v as int,
                        u as int,
                    ) && u < n && cells[u as int] == wanted_color ==> visited@.contains(u),
                forall|k: int|
                    0 <= k < i ==> (cells[nbs@[k] as int] != wanted_color || visited@.contains(
                        nbs@[k],
                    )),
                visited@.len() <= n,
                visited@.len() >= visited_at_pop.len(),
                visited@.len() > visited_at_pop.len() || worklist@ == wl_before.subrange(
                    0,
                    wl_before.len() - 1,
                ),
            decreases nbs@.len() - i,
        {
            let nb: usize = nbs[i];
            proof {
                assert(nbs@.contains(nb));
            }
            let nbc = grid.get_index(nb);
            if !cell_eq(nbc, wanted_color) {
                i = i + 1;
                continue ;
            }
            if vec_contains(visited, nb) {
                i = i + 1;
                continue ;
            }
            proof {
                lemma_reachable_step(
                    cells,
                    w,
                    h,
                    wanted_color,
                    pixel_index as int,
                    cur as int,
                    nb as int,
                );
                assert(!worklist@.contains(nb)) by {
                    if worklist@.contains(nb) {
                        let k = choose|k: int|
                            0 <= k < worklist@.len() && worklist@[k] == nb;
                    }
                }
            }
            visited.push(nb);
            worklist.push(nb);
            proof {
                assert forall|k1: int|
                    0 <= k1 < visited@.len() implies (visited@[k1] as int) < n as int by {
                    assert(visited@.contains(visited@[k1]));
                }
                lemma_distinct_bounded_len(visited@, n as int);
            }
            i = i + 1;
        }
        proof {
            assert forall|u: usize|
                is_neighbor(w, h, cur as int, u as int) && u < n && cells[u as int]
                    == wanted_color implies visited@.contains(u) by {
                assert(nbs@.contains(u));
                let k = choose|k: int| 0 <= k < nbs@.len() && nbs@[k] == u;
            }
        }
    }
    proof {
        assert forall|j: usize|
            j < cells.len() && fill_reachable(
                cells,
                w,
                h,
                wanted_color,
                pixel_index as int,
                j as int,
            ) implies visited@.contains(j) by {
            let nn = choose|nn: nat|
                fill_reaches(cells, w, h, wanted_color, pixel_index as int, j as int, nn);
            lemma_closed_set_holds_region(
                cells,
                w,
                h,
                wanted_color,
                pixel_index,
                visited@,
                j as int,
                nn,
            );
        }
    }
}

/// Cells after painting every index in `ps` with `c`, in order.
pub open spec fn paint_cells(
    cells: Seq<Option<Color>>,
    ps: Seq<usize>,
    c: Option<Color>,
) -> Seq<Option<Color>>
    decreases ps.len(),
{
    if ps.len() == 0 {
        cells
    } else {
        paint_cells(cells, ps.drop_last(), c).update(ps.last() as int, c)
    }
}

/// Painting writes `c` exactly at the listed cells and nowhere else.
pub proof fn lemma_paint_cells_props(cells: Seq<Option<Color>>, ps: Seq<usize>, c: Option<Color>)
    requires
        forall|k: int| 0 <= k < ps.len() ==> (ps[k] as int) < cells.len(),
    ensures
        paint_cells(cells, ps, c).len() == cells.len(),
        forall|j: int|
            0 <= j < cells.len() && !ps.contains(j as usize) ==> paint_cells(cells, ps, c)[j]
                == cells[j],
        forall|j: usize| ps.contains(j) ==> paint_cells(cells, ps, c)[j as int] == c,
    decreases ps.len(),
{
    if ps.len() > 0 {
        let front = ps.drop_last();
        assert(forall|k: int| 0 <= k < front.len() ==> front[k] == ps[k]);
        lemma_paint_cells_props(cells, front, c);
        assert(forall|j: usize| front.contains(j) ==> ps.contains(j));
        assert(ps.contains(ps.last()));
        assert forall|j: int|
            0 <= j < cells.len() && !ps.contains(j as usize) implies paint_cells(cells, ps, c)[j]
            == cells[j] by {
            assert(!front.contains(j as usize));
            assert(ps.last() as int != j);
        }
        assert forall|j: usize| ps.contains(j) implies paint_cells(cells, ps, c)[j as int]
            == c by {
            if j != ps.last() {
                let k = choose|k: int| 0 <= k < ps.len() && ps[k] == j;
                assert(front[k] == j);
                assert(front.contains(j));
            }
        }
    }
}


/// Flood fill is idempotent: after filling the region around a seed with a
/// color, filling again from the same seed with the same color changes
/// nothing. The second search hunts for cells of the fill color itself, and
/// every cell it can find already carries that color.
pub proof fn lemma_fill_idempotent(
    cells0: Seq<Option<Color>>,
    w: int,
    h: int,
    seed: usize,
    c: Color,
    r1: Seq<usize>,
    r2: Seq<usize>,
)
    requires
        seed < cells0.len(),
        cells0.len() <= usize::MAX,
        fill_region_result(cells0, w, h, cells0[seed as int], seed, r1),
        fill_region_result(
            paint_cells(cells0, r1, Some(c)),
            w,
            h,
            paint_cells(cells0, r1, Some(c))[seed as int],
            seed,
            r2,
        ),
    ensures
        paint_cells(paint_cells(cells0, r1, Some(c)), r2, Some(c)) == paint_cells(
            cells0,
            r1,
            Some(c),
        ),
{
    let cells1 = paint_cells(cells0, r1, Some(c));
    assert(forall|k: int| 0 <= k < r1.len() ==> (r1[k] as int) < cells0.len()) by {
        assert forall|k: int| 0 <= k < r1.len() implies (r1[k] as int) < cells0.len() by {
            assert(r1.contains(r1[k]));
        }
    }
    lemma_paint_cells_props(cells0, r1, Some(c));
    assert(r1.contains(seed));
    assert(cells1[seed as int] == Some(c));
    assert(forall|k: int| 0 <= k < r2.len() ==> (r2[k] as int) < cells1.len()) by {
        assert forall|k: int| 0 <= k < r2.len() implies (r2[k] as int) < cells1.len() by {
            assert(r2.contains(r2[k]));
        }
    }
    lemma_paint_cells_props(cells1, r2, Some(c));
    assert forall|j: int|
        0 <= j < cells1.len() implies paint_cells(cells1, r2, Some(c))[j] == cells1[j] by {
        if r2.contains(j as usize) {
            assert(cells1[j] == Some(c));
        }
    }
    assert(paint_cells(cells1, r2, Some(c)) =~= cells1);
}

/// Flood fill touches the connected region only: a cell that cannot be
/// reached from the seed through same-colored cells keeps its value, so
/// filling one region never alters another region of the same color that a
/// differently-colored cell separates from it.
pub proof fn lemma_fill_connected_only(
    cells: Seq<Option<Color>>,
    w: int,
    h: int,
    wanted: Option<Color>,
    seed: usize,
    r: Seq<usize>,
    c: Option<Color>,
    j: int,
)
    requires
        fill_region_result(cells, w, h, wanted, seed, r),
        cells.len() <= usize::MAX,
        0 <= j < cells.len(),
        !fill_reachable(cells, w, h, wanted, seed as int, j),
    ensures
        paint_cells(cells, r, c)[j] == cells[j],
{
    assert(forall|k: int| 0 <= k < r.len() ==> (r[k] as int) < cells.len()) by {
        assert forall|k: int| 0 <= k < r.len() implies (r[k] as int) < cells.len() by {
            assert(r.contains(r[k]));
        }
    }
    lemma_paint_cells_props(cells, r, c);
    assert(!r.contains(j as usize));
}

} // verus!
