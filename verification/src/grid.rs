//! The spatial hash grid: a fixed array of cell buckets over the toroidal
//! world. Each bucket holds the indices of the agents whose position lies
//! in that cell, in increasing order. The 9-cell neighborhood of a cell
//! (itself and its 8 toroidally wrapped neighbors) collapses duplicates
//! when the grid is a single cell wide in a dimension.
use vstd::prelude::*;
use vstd::arithmetic::div_mod::lemma_fundamental_div_mod;
use vstd::arithmetic::div_mod::lemma_fundamental_div_mod_converse;
use vstd::arithmetic::div_mod::lemma_div_is_ordered;
use vstd::arithmetic::div_mod::lemma_div_multiples_vanish;
use vstd::arithmetic::div_mod::lemma_div_pos_is_pos;
use vstd::arithmetic::div_mod::lemma_mod_bound;
use vstd::arithmetic::mul::lemma_mul_inequality;
use crate::params::{GRID_COLS, GRID_ROWS, GRID_CELLS, VISION_RANGE, WORLD_WIDTH, WORLD_HEIGHT};
use crate::boid::{Boid, boid_ok, lemma_div_below};
use crate::num::mag;

verus! {

/// The cell index one step down (toward zero) along an axis of `n` cells,
/// wrapping around.
pub open spec fn wrap_dec_idx(a: usize, n: usize) -> usize
    recommends
        a < n,
{
    if a == 0 {
        (n - 1) as usize
    } else {
        (a - 1) as usize
    }
}

/// The cell index one step up along an axis of `n` cells, wrapping around.
pub open spec fn wrap_inc_idx(a: usize, n: usize) -> usize
    recommends
        a < n,
{
    if a + 1 == n {
        0
    } else {
        (a + 1) as usize
    }
}

/// `b` is `a` or one of its two wrapped neighbors along an axis of `n`
/// cells.
pub open spec fn axis_adjacent(b: usize, a: usize, n: usize) -> bool {
    b == a || b == wrap_dec_idx(a, n) || b == wrap_inc_idx(a, n)
}

/// The distinct cells adjacent to `a` along an axis of `n` cells: `a`
/// itself and its wrapped neighbors, each listed once.
pub open spec fn axis_cells(a: usize, n: usize) -> Seq<usize>
    recommends
        a < n,
{
    let d = wrap_dec_idx(a, n);
    let u = wrap_inc_idx(a, n);
    seq![a] + (if d != a {
        seq![d]
    } else {
        Seq::<usize>::empty()
    }) + (if u != a && u != d {
        seq![u]
    } else {
        Seq::<usize>::empty()
    })
}

/// The cells of row `r` at each column of `cs`.
pub open spec fn row_cells(cs: Seq<usize>, r: usize, cols: usize) -> Seq<usize>
    decreases cs.len(),
{
    if cs.len() == 0 {
        Seq::empty()
    } else {
        row_cells(cs.drop_last(), r, cols) + seq![(cs.last() + cols * r) as usize]
    }
}

/// The cells at every column of `cs` and row of `rs`.
pub open spec fn cross_cells(cs: Seq<usize>, rs: Seq<usize>, cols: usize) -> Seq<usize>
    decreases rs.len(),
{
    if rs.len() == 0 {
        Seq::empty()
    } else {
        cross_cells(cs, rs.drop_last(), cols) + row_cells(cs, rs.last(), cols)
    }
}

/// Column of a cell index.
pub open spec fn col_of(cell: usize, cols: usize) -> usize
    recommends
        cols >= 1,
{
    (cell as int % cols as int) as usize
}

/// Row of a cell index.
pub open spec fn row_of(cell: usize, cols: usize) -> usize
    recommends
        cols >= 1,
{
    (cell as int / cols as int) as usize
}

/// The up-to-9-cell toroidal neighborhood of a cell, duplicates collapsed.
pub open spec fn neighbor_cell_list(cell: usize, cols: usize, rows: usize) -> Seq<usize>
    recommends
        cols >= 1,
        rows >= 1,
{
    cross_cells(axis_cells(col_of(cell, cols), cols), axis_cells(row_of(cell, cols), rows), cols)
}

/// Every cell of `axis_cells` is adjacent to `a`, below `n`, listed once;
/// and every adjacent cell is listed.
pub proof fn lemma_axis_cells(a: usize, n: usize)
    requires
        a < n,
    ensures
        forall|x: usize| axis_cells(a, n).contains(x) <==> axis_adjacent(x, a, n),
        forall|k: int| 0 <= k < axis_cells(a, n).len() ==> (#[trigger] axis_cells(a, n)[k]) < n,
        forall|k1: int, k2: int|
            0 <= k1 < k2 < axis_cells(a, n).len() ==> axis_cells(a, n)[k1] != axis_cells(a, n)[k2],
{
    let s = axis_cells(a, n);
    let d = wrap_dec_idx(a, n);
    let u = wrap_inc_idx(a, n);
    assert(s[0] == a);
    assert forall|x: usize| s.contains(x) implies axis_adjacent(x, a, n) by {
        let k = choose|k: int| 0 <= k < s.len() && s[k] == x;
        assert(s[k] == x);
    }
    assert forall|x: usize| axis_adjacent(x, a, n) implies s.contains(x) by {
        if x == a {
            assert(s[0] == x);
        } else if x == d {
            assert(s[1] == x);
        } else if x == u {
            if d != a {
                assert(s[2] == x);
            } else {
                assert(s[1] == x);
            }
        }
    }
}

/// `row_cells` places each column at its offset in row `r`.
pub proof fn lemma_row_cells(cs: Seq<usize>, r: usize, cols: usize)
    requires
        forall|k: int| 0 <= k < cs.len() ==> (#[trigger] cs[k]) < cols,
        (r + 1) * (cols as int) <= usize::MAX,
    ensures
        row_cells(cs, r, cols).len() == cs.len(),
        forall|k: int|
            0 <= k < cs.len() ==> (#[trigger] row_cells(cs, r, cols)[k]) == cs[k] + cols * r,
    decreases cs.len(),
{
    if cs.len() > 0 {
        lemma_row_cells(cs.drop_last(), r, cols);
        assert(cs.last() + (cols as int) * r < (r + 1) * (cols as int)) by (nonlinear_arith)
            requires
                cs.last() < cols,
        ;
        assert((r + 1) * (cols as int) <= usize::MAX);
    }
}

/// Every cell of the cross of in-range columns and rows is below
/// `cols * rows`, and the cross contains the combination of every listed
/// column and row.
pub proof fn lemma_cross_cells(cs: Seq<usize>, rs: Seq<usize>, cols: usize, rows: usize)
    requires
        forall|k: int| 0 <= k < cs.len() ==> (#[trigger] cs[k]) < cols,
        forall|k: int| 0 <= k < rs.len() ==> (#[trigger] rs[k]) < rows,
        (cols as int) * (rows as int) <= usize::MAX,
    ensures
        forall|k: int|
            0 <= k < cross_cells(cs, rs, cols).len() ==> (#[trigger] cross_cells(cs, rs, cols)[k])
                < (cols as int) * (rows as int),
        forall|c: usize, r: usize|
            cs.contains(c) && rs.contains(r) ==> cross_cells(cs, rs, cols).contains(
                (c + cols * r) as usize,
            ),
    decreases rs.len(),
{
    if rs.len() == 0 {
        assert(forall|r: usize| !(#[trigger] rs.contains(r)));
    } else {
        lemma_cross_cells(cs, rs.drop_last(), cols, rows);
        let rl = rs.last();
        assert((rl + 1) * (cols as int) <= (cols as int) * (rows as int)) by (nonlinear_arith)
            requires
                rl < rows,
                cols >= 0,
        ;
        lemma_row_cells(cs, rl, cols);
        let prefix = cross_cells(cs, rs.drop_last(), cols);
        let tail = row_cells(cs, rl, cols);
        assert forall|k: int|
            0 <= k < cross_cells(cs, rs, cols).len() implies (#[trigger] cross_cells(
            cs,
            rs,
            cols,
        )[k]) < (cols as int) * (rows as int) by {
            if k < prefix.len() {
                assert(cross_cells(cs, rs, cols)[k] == prefix[k]);
            } else {
                assert(cross_cells(cs, rs, cols)[k] == tail[k - prefix.len()]);
                assert(tail[k - prefix.len()] == cs[k - prefix.len()] + cols * rl);
                assert(cs[k - prefix.len()] + (cols as int) * rl < (rl + 1) * (cols as int))
                    by (nonlinear_arith)
                    requires
                        cs[k - prefix.len()] < cols,
                ;
            }
        }
        assert forall|c: usize, r: usize| cs.contains(c) && rs.contains(r) implies cross_cells(
            cs,
            rs,
            cols,
        ).contains((c + cols * r) as usize) by {
            if rs.drop_last().contains(r) {
                let k = choose|k: int|
                    0 <= k < prefix.len() && prefix[k] == ((c + cols * r) as usize);
                assert(cross_cells(cs, rs, cols)[k] == ((c + cols * r) as usize));
            } else {
                let kr = choose|k: int| 0 <= k < rs.len() && rs[k] == r;
                assert(rs.last() == r) by {
                    if kr < rs.len() - 1 {
                        assert(rs.drop_last()[kr] == r);
                    }
                }
                let kc = choose|k: int| 0 <= k < cs.len() && cs[k] == c;
                assert(tail[kc] == cs[kc] + cols * r);
                assert(cross_cells(cs, rs, cols)[prefix.len() + kc] == ((c + cols * r) as usize));
            }
        }
    }
}

/// The distinct cells adjacent to `a` along one axis.
pub fn axis_vec(a: usize, n: usize) -> (r: Vec<usize>)
    requires
        a < n,
    ensures
        r@ == axis_cells(a, n),
{
    let d: usize = if a == 0 {
        n - 1
    } else {
        a - 1
    };
    let u: usize = if a + 1 == n {
        0
    } else {
        a + 1
    };
    let mut v: Vec<usize> = Vec::new();
    v.push(a);
    if d != a {
        v.push(d);
    }
    if u != a && u != d {
        v.push(u);
    }
    proof {
        assert(v@ =~= axis_cells(a, n));
    }
    v
}

/// The up-to-9-cell toroidal neighborhood of `cell` on a `cols` by `rows`
/// grid, duplicates collapsed. Grids a single cell wide in a dimension
/// visit the wrapped cell that coincides with its neighbor only once.
pub fn neighbor_cells(cell: usize, cols: usize, rows: usize) -> (r: Vec<usize>)
    requires
        cols >= 1,
        rows >= 1,
        cell < (cols as int) * (rows as int),
        (cols as int) * (rows as int) <= usize::MAX,
    ensures
        r@ == neighbor_cell_list(cell, cols, rows),
        forall|k: int| 0 <= k < r@.len() ==> (#[trigger] r@[k]) < (cols as int) * (rows as int),
        r@.len() <= 9,
{
    let col: usize = cell % cols;
    let row: usize = cell / cols;
    proof {
        lemma_mod_bound(cell as int, cols as int);
        lemma_div_below(cell as int, cols as int, rows as int);
        lemma_div_pos_is_pos(cell as int, cols as int);
    }
    let cvec = axis_vec(col, cols);
    let rvec = axis_vec(row, rows);
    proof {
        lemma_axis_cells(col, cols);
        lemma_axis_cells(row, rows);
    }
    let mut out: Vec<usize> = Vec::new();
    let mut ri: usize = 0;
    while ri < rvec.len()
        invariant
            ri <= rvec.len(),
            out@ == cross_cells(cvec@, rvec@.take(ri as int), cols),
        decreases rvec.len() - ri,
    {
        let r = rvec[ri];
        let mut ci: usize = 0;
        while ci < cvec.len()
            invariant
                ci <= cvec.len(),
                ri < rvec.len(),
                r == rvec@[ri as int],
                out@ == cross_cells(cvec@, rvec@.take(ri as int), cols) + row_cells(
                    cvec@.take(ci as int),
                    r,
                    cols,
                ),
            decreases cvec.len() - ci,
        {
            let c = cvec[ci];
            proof {
                assert(c + (cols as int) * r < (cols as int) * (rows as int)) by (nonlinear_arith)
                    requires
                        c < cols,
                        r < rows,
                ;
                assert(cvec@.take(ci as int + 1).drop_last() =~= cvec@.take(ci as int));
            }
            out.push(c + cols * r);
            ci = ci + 1;
        }
        proof {
            assert(cvec@.take(cvec@.len() as int) =~= cvec@);
            assert(rvec@.take(ri as int + 1).drop_last() =~= rvec@.take(ri as int));
        }
        ri = ri + 1;
    }
    proof {
        assert(rvec@.take(rvec@.len() as int) =~= rvec@);
        lemma_cross_cells(cvec@, rvec@, cols, rows);
        lemma_cross_cells_len(cvec@, rvec@, cols);
        assert(cvec@.len() * rvec@.len() <= 9) by (nonlinear_arith)
            requires
                0 <= cvec@.len() <= 3,
                0 <= rvec@.len() <= 3,
        ;
    }
    out
}

/// The bucket of cell `c`: the indices of the agents whose cached cell is
/// `c`, in increasing order.
pub open spec fn bucket_of(boids: Seq<Boid>, c: int) -> Seq<usize>
    decreases boids.len(),
{
    if boids.len() == 0 {
        Seq::empty()
    } else {
        bucket_of(boids.drop_last(), c) + (if boids.last().hash == c {
            seq![(boids.len() - 1) as usize]
        } else {
            Seq::<usize>::empty()
        })
    }
}

/// The grid is exactly the bucket partition of the agents.
pub open spec fn grid_ok(boids: Seq<Boid>, table: Seq<Vec<usize>>) -> bool {
    &&& table.len() == GRID_CELLS
    &&& forall|c: int| 0 <= c < GRID_CELLS ==> (#[trigger] table[c])@ == bucket_of(boids, c)
}

/// A bucket holds an index if and only if that agent's cached cell is the
/// bucket's cell.
pub proof fn lemma_bucket_membership(boids: Seq<Boid>, c: int)
    requires
        boids.len() <= usize::MAX,
    ensures
        forall|j: usize|
            #[trigger] bucket_of(boids, c).contains(j) <==> (j < boids.len() && boids[j as int].hash
                == c),
    decreases boids.len(),
{
    if boids.len() == 0 {
    } else {
        lemma_bucket_membership(boids.drop_last(), c);
        let prev = bucket_of(boids.drop_last(), c);
        let s = bucket_of(boids, c);
        assert forall|j: usize| #[trigger] s.contains(j) implies (j < boids.len() && boids[j as int].hash
            == c) by {
            let k = choose|k: int| 0 <= k < s.len() && s[k] == j;
            if k < prev.len() {
                assert(prev[k] == j);
                assert(prev.contains(j));
                assert(boids.drop_last()[j as int] == boids[j as int]);
            } else {
                if boids.last().hash == c {
                    assert(s[k] == seq![(boids.len() - 1) as usize][k - prev.len()]);
                } else {
                    assert(s.len() == prev.len());
                }
            }
        }
        assert forall|j: usize| (j < boids.len() && boids[j as int].hash == c) implies #[trigger] s.contains(
            j,
        ) by {
            if j < boids.len() - 1 {
                assert(boids.drop_last()[j as int] == boids[j as int]);
                assert(prev.contains(j));
                let k = choose|k: int| 0 <= k < prev.len() && prev[k] == j;
                assert(s[k] == j);
            } else {
                assert(boids.last().hash == c);
                assert(s[s.len() - 1] == j);
            }
        }
    }
}

/// Buckets are strictly increasing, so no index appears twice.
pub proof fn lemma_bucket_increasing(boids: Seq<Boid>, c: int)
    requires
        boids.len() <= usize::MAX,
    ensures
        forall|k1: int, k2: int|
            0 <= k1 < k2 < bucket_of(boids, c).len() ==> #[trigger] bucket_of(boids, c)[k1]
                < #[trigger] bucket_of(boids, c)[k2],
    decreases boids.len(),
{
    if boids.len() > 0 {
        lemma_bucket_increasing(boids.drop_last(), c);
        lemma_bucket_membership(boids.drop_last(), c);
        let prev = bucket_of(boids.drop_last(), c);
        let s = bucket_of(boids, c);
        assert forall|k1: int, k2: int| 0 <= k1 < k2 < s.len() implies #[trigger] s[k1]
            < #[trigger] s[k2] by {
            if k2 < prev.len() {
                assert(s[k1] == prev[k1] && s[k2] == prev[k2]);
            } else {
                if boids.last().hash == c {
                    assert(s[k2] == seq![(boids.len() - 1) as usize][k2 - prev.len()]);
                    assert(s[k1] == prev[k1]);
                    assert(prev.contains(prev[k1]));
                } else {
                    assert(s.len() == prev.len());
                }
            }
        }
    }
}

/// Grid consistency: under `grid_ok`, the buckets partition the agent
/// indices — every index sits in the bucket of its own cell, a bucket
/// holds only indices of agents in its cell, and no bucket repeats an
/// index. Together: each of `0 .. boids.len()` appears exactly once
/// across all buckets.
pub proof fn lemma_grid_partition(boids: Seq<Boid>, table: Seq<Vec<usize>>)
    requires
        grid_ok(boids, table),
        boids.len() <= usize::MAX,
        forall|i: int| 0 <= i < boids.len() ==> (#[trigger] boids[i]).hash < GRID_CELLS,
    ensures
        forall|i: usize|
            i < boids.len() ==> (#[trigger] table[boids[i as int].hash as int])@.contains(i),
        forall|c: int, k: int|
            0 <= c < GRID_CELLS && 0 <= k < table[c]@.len() ==> (#[trigger] table[c]@[k])
                < boids.len() && boids[table[c]@[k] as int].hash == c,
        forall|c: int, k1: int, k2: int|
            0 <= c < GRID_CELLS && 0 <= k1 < k2 < table[c]@.len() ==> (#[trigger] table[c]@[k1])
                != (#[trigger] table[c]@[k2]),
{
    assert forall|i: usize| i < boids.len() implies (#[trigger] table[boids[i as int].hash as int])@.contains(
        i,
    ) by {
        lemma_bucket_membership(boids, boids[i as int].hash as int);
    }
    assert forall|c: int, k: int|
        0 <= c < GRID_CELLS && 0 <= k < table[c]@.len() implies (#[trigger] table[c]@[k])
        < boids.len() && boids[table[c]@[k] as int].hash == c by {
        lemma_bucket_membership(boids, c);
        assert(bucket_of(boids, c).contains(bucket_of(boids, c)[k]));
    }
    assert forall|c: int, k1: int, k2: int|
        0 <= c < GRID_CELLS && 0 <= k1 < k2 < table[c]@.len() implies (#[trigger] table[c]@[k1])
        != (#[trigger] table[c]@[k2]) by {
        lemma_bucket_increasing(boids, c);
    }
}

/// The candidate neighbor indices seen from a cell: the concatenation of
/// the buckets of its up-to-9-cell toroidal neighborhood.
pub open spec fn cands_from(table: Seq<Vec<usize>>, cells: Seq<usize>) -> Seq<usize>
    decreases cells.len(),
{
    if cells.len() == 0 {
        Seq::empty()
    } else if cells.last() < table.len() {
        cands_from(table, cells.drop_last()) + table[cells.last() as int]@
    } else {
        cands_from(table, cells.drop_last())
    }
}

/// The candidate list of an agent in cell `cell`.
pub open spec fn candidates(table: Seq<Vec<usize>>, cell: usize) -> Seq<usize> {
    cands_from(table, neighbor_cell_list(cell, GRID_COLS, GRID_ROWS))
}

/// Whatever one visited bucket holds, the concatenation holds.
pub proof fn lemma_cands_contains(table: Seq<Vec<usize>>, cells: Seq<usize>, c: usize, j: usize)
    requires
        cells.contains(c),
        c < table.len(),
        table[c as int]@.contains(j),
    ensures
        cands_from(table, cells).contains(j),
    decreases cells.len(),
{
    let prefix = cands_from(table, cells.drop_last());
    if cells.drop_last().contains(c) {
        lemma_cands_contains(table, cells.drop_last(), c, j);
        let k = choose|k: int| 0 <= k < prefix.len() && prefix[k] == j;
        assert(cands_from(table, cells)[k] == j);
    } else {
        let kc = choose|k: int| 0 <= k < cells.len() && cells[k] == c;
        assert(cells.last() == c) by {
            if kc < cells.len() - 1 {
                assert(cells.drop_last()[kc] == c);
            }
        }
        let k = choose|k: int| 0 <= k < table[c as int]@.len() && table[c as int]@[k] == j;
        assert(cands_from(table, cells)[prefix.len() + k] == j);
    }
}

/// Every entry of a candidate list is the index of an agent.
pub proof fn lemma_cands_valid(boids: Seq<Boid>, table: Seq<Vec<usize>>, cells: Seq<usize>)
    requires
        grid_ok(boids, table),
        boids.len() <= usize::MAX,
    ensures
        forall|k: int|
            0 <= k < cands_from(table, cells).len() ==> (#[trigger] cands_from(table, cells)[k])
                < boids.len(),
    decreases cells.len(),
{
    if cells.len() > 0 {
        lemma_cands_valid(boids, table, cells.drop_last());
        let prefix = cands_from(table, cells.drop_last());
        let s = cands_from(table, cells);
        if cells.last() < table.len() {
            lemma_bucket_membership(boids, cells.last() as int);
            let bucket = table[cells.last() as int]@;
            assert forall|k: int| 0 <= k < s.len() implies (#[trigger] s[k]) < boids.len() by {
                if k < prefix.len() {
                    assert(s[k] == prefix[k]);
                } else {
                    assert(s[k] == bucket[k - prefix.len()]);
                    assert(bucket.contains(bucket[k - prefix.len()]));
                }
            }
        }
    }
}

/// Positions of the cross: block `ri` holds row `rs[ri]` at each column.
pub proof fn lemma_cross_index(cs: Seq<usize>, rs: Seq<usize>, cols: usize)
    requires
        forall|k: int| 0 <= k < cs.len() ==> (#[trigger] cs[k]) < cols,
        forall|k: int| 0 <= k < rs.len() ==> ((#[trigger] rs[k]) + 1) * (cols as int) <= usize::MAX,
    ensures
        cross_cells(cs, rs, cols).len() == cs.len() * rs.len(),
        forall|ri: int, ci: int|
            0 <= ri < rs.len() && 0 <= ci < cs.len() ==> (#[trigger] cross_cells(cs, rs, cols)[ri
                * cs.len() + ci]) == cs[ci] + cols * rs[ri],
    decreases rs.len(),
{
    lemma_cross_cells_len(cs, rs, cols);
    if rs.len() > 0 {
        lemma_cross_index(cs, rs.drop_last(), cols);
        lemma_row_cells(cs, rs.last(), cols);
        let prefix = cross_cells(cs, rs.drop_last(), cols);
        let tail = row_cells(cs, rs.last(), cols);
        assert forall|ri: int, ci: int|
            0 <= ri < rs.len() && 0 <= ci < cs.len() implies (#[trigger] cross_cells(cs, rs, cols)[
        ri * cs.len() + ci]) == cs[ci] + cols * rs[ri] by {
            assert(0 <= ri * cs.len()) by (nonlinear_arith)
                requires
                    ri >= 0,
                    cs.len() >= 0,
            ;
            if ri < rs.len() - 1 {
                assert(ri * cs.len() + ci < prefix.len()) by (nonlinear_arith)
                    requires
                        prefix.len() == cs.len() * (rs.len() - 1),
                        0 <= ri < rs.len() - 1,
                        0 <= ci < cs.len(),
                ;
                assert(cross_cells(cs, rs, cols)[ri * cs.len() + ci] == prefix[ri * cs.len() + ci]);
                assert(rs.drop_last()[ri] == rs[ri]);
            } else {
                assert(ri == rs.len() - 1);
                assert(ri * cs.len() == prefix.len()) by (nonlinear_arith)
                    requires
                        prefix.len() == cs.len() * (rs.len() - 1),
                        ri == rs.len() - 1,
                ;
                assert(cross_cells(cs, rs, cols)[ri * cs.len() + ci] == tail[ci]);
            }
        }
    }
}

/// Distinct columns crossed with distinct rows give distinct cells: a
/// cell determines its row and column uniquely.
pub proof fn lemma_cross_distinct(cs: Seq<usize>, rs: Seq<usize>, cols: usize, rows: usize)
    requires
        cols >= 1,
        (cols as int) * (rows as int) <= usize::MAX,
        forall|k: int| 0 <= k < cs.len() ==> (#[trigger] cs[k]) < cols,
        forall|k: int| 0 <= k < rs.len() ==> (#[trigger] rs[k]) < rows,
        forall|k1: int, k2: int| 0 <= k1 < k2 < cs.len() ==> cs[k1] != cs[k2],
        forall|k1: int, k2: int| 0 <= k1 < k2 < rs.len() ==> rs[k1] != rs[k2],
    ensures
        forall|k1: int, k2: int|
            0 <= k1 < k2 < cross_cells(cs, rs, cols).len() ==> (#[trigger] cross_cells(
                cs,
                rs,
                cols,
            )[k1]) != (#[trigger] cross_cells(cs, rs, cols)[k2]),
{
    assert forall|k: int| 0 <= k < rs.len() implies ((#[trigger] rs[k]) + 1) * (cols as int)
        <= usize::MAX by {
        assert((rs[k] + 1) * (cols as int) <= (cols as int) * (rows as int)) by (nonlinear_arith)
            requires
                rs[k] < rows,
                cols >= 0,
        ;
    }
    lemma_cross_index(cs, rs, cols);
    let s = cross_cells(cs, rs, cols);
    let n = cs.len() as int;
    assert forall|k1: int, k2: int| 0 <= k1 < k2 < s.len() implies (#[trigger] s[k1])
        != (#[trigger] s[k2]) by {
        assert(n > 0) by (nonlinear_arith)
            requires
                s.len() == n * rs.len(),
                s.len() > 0,
                n >= 0,
        ;
        assert(k2 < n * (rs.len() as int)) by (nonlinear_arith)
            requires
                s.len() == n * rs.len(),
                k2 < s.len(),
        ;
        let ri1 = k1 / n;
        let ci1 = k1 % n;
        let ri2 = k2 / n;
        let ci2 = k2 % n;
        lemma_fundamental_div_mod(k1, n);
        lemma_mod_bound(k1, n);
        lemma_fundamental_div_mod(k2, n);
        lemma_mod_bound(k2, n);
        lemma_div_pos_is_pos(k1, n);
        lemma_div_pos_is_pos(k2, n);
        lemma_div_below(k1, n, rs.len() as int);
        lemma_div_below(k2, n, rs.len() as int);
        assert(k1 == ri1 * n + ci1) by (nonlinear_arith)
            requires
                k1 == n * ri1 + ci1,
        ;
        assert(k2 == ri2 * n + ci2) by (nonlinear_arith)
            requires
                k2 == n * ri2 + ci2,
        ;
        assert(s[ri1 * (cs.len() as int) + ci1] == cs[ci1] + cols * rs[ri1]);
        assert(s[ri2 * (cs.len() as int) + ci2] == cs[ci2] + cols * rs[ri2]);
        assert(s[k1] == cs[ci1] + cols * rs[ri1]);
        assert(s[k2] == cs[ci2] + cols * rs[ri2]);
        let v1 = cs[ci1] + (cols as int) * rs[ri1];
        let v2 = cs[ci2] + (cols as int) * rs[ri2];
        if v1 == v2 {
            lemma_fundamental_div_mod_converse(v1, cols as int, rs[ri1] as int, cs[ci1] as int);
            lemma_fundamental_div_mod_converse(v2, cols as int, rs[ri2] as int, cs[ci2] as int);
            assert(rs[ri1] == rs[ri2] && cs[ci1] == cs[ci2]);
            assert(ri1 == ri2);
            assert(ci1 == ci2);
            assert(k1 == k2);
        }
    }
}

/// A candidate index comes from the bucket of some visited cell.
pub proof fn lemma_cands_source(table: Seq<Vec<usize>>, cells: Seq<usize>, k: int)
    requires
        0 <= k < cands_from(table, cells).len(),
    ensures
        exists|ci: int|
            0 <= ci < cells.len() && cells[ci] < table.len() && (#[trigger] table[cells[ci] as int]@).contains(
                cands_from(table, cells)[k],
            ),
    decreases cells.len(),
{
    if cells.len() > 0 {
        let prefix = cands_from(table, cells.drop_last());
        if k < prefix.len() {
            lemma_cands_source(table, cells.drop_last(), k);
            let ci = choose|ci: int|
                0 <= ci < cells.drop_last().len() && cells.drop_last()[ci] < table.len() && (
                #[trigger] table[cells.drop_last()[ci] as int]@).contains(prefix[k]);
            assert(cells[ci] == cells.drop_last()[ci]);
            assert(table[cells[ci] as int]@.contains(cands_from(table, cells)[k]));
        } else {
            assert(cells.last() < table.len());
            let bucket = table[cells.last() as int]@;
            assert(cands_from(table, cells)[k] == bucket[k - prefix.len()]);
            assert(bucket.contains(bucket[k - prefix.len()]));
            assert(cells[cells.len() - 1] == cells.last());
            assert(table[cells[cells.len() - 1] as int]@.contains(cands_from(table, cells)[k]));
        }
    }
}

/// Right-once interaction: concatenating the buckets of distinct cells
/// repeats no agent index — the buckets are disjoint, and each is
/// strictly increasing.
pub proof fn lemma_cands_distinct(boids: Seq<Boid>, table: Seq<Vec<usize>>, cells: Seq<usize>)
    requires
        grid_ok(boids, table),
        boids.len() <= usize::MAX,
        forall|k1: int, k2: int| 0 <= k1 < k2 < cells.len() ==> cells[k1] != cells[k2],
    ensures
        forall|k1: int, k2: int|
            0 <= k1 < k2 < cands_from(table, cells).len() ==> (#[trigger] cands_from(
                table,
                cells,
            )[k1]) != (#[trigger] cands_from(table, cells)[k2]),
    decreases cells.len(),
{
    if cells.len() > 0 {
        lemma_cands_distinct(boids, table, cells.drop_last());
        let prefix = cands_from(table, cells.drop_last());
        let s = cands_from(table, cells);
        assert forall|k1: int, k2: int| 0 <= k1 < k2 < s.len() implies (#[trigger] s[k1])
            != (#[trigger] s[k2]) by {
            if cells.last() < table.len() {
                let c = cells.last();
                let bucket = table[c as int]@;
                lemma_bucket_membership(boids, c as int);
                lemma_bucket_increasing(boids, c as int);
                if k2 < prefix.len() {
                    assert(s[k1] == prefix[k1] && s[k2] == prefix[k2]);
                } else if k1 >= prefix.len() {
                    assert(s[k1] == bucket[k1 - prefix.len()]);
                    assert(s[k2] == bucket[k2 - prefix.len()]);
                } else {
                    // One index from an earlier bucket, one from this
                    // cell's bucket: the cells differ, so the agents'
                    // cached cells differ.
                    assert(s[k1] == prefix[k1]);
                    assert(s[k2] == bucket[k2 - prefix.len()]);
                    assert(bucket.contains(bucket[k2 - prefix.len()]));
                    lemma_cands_source(table, cells.drop_last(), k1);
                    let ci = choose|ci: int|
                        0 <= ci < cells.drop_last().len() && cells.drop_last()[ci] < table.len()
                            && (#[trigger] table[cells.drop_last()[ci] as int]@).contains(
                            prefix[k1],
                        );
                    let c1 = cells.drop_last()[ci];
                    assert(cells[ci] == c1);
                    assert(c1 != c);
                    lemma_bucket_membership(boids, c1 as int);
                    assert(boids[s[k1] as int].hash == c1);
                    assert(boids[s[k2] as int].hash == c);
                }
            } else {
                assert(s[k1] == prefix[k1] && s[k2] == prefix[k2]);
            }
        }
    }
}

/// Right-once interaction for a cell's candidate list: the up-to-9
/// neighbor cells are pairwise distinct, their buckets are disjoint, and
/// so no agent index appears twice among the candidates.
pub proof fn lemma_candidates_distinct(boids: Seq<Boid>, table: Seq<Vec<usize>>, cell: usize)
    requires
        grid_ok(boids, table),
        boids.len() <= usize::MAX,
        cell < GRID_CELLS,
    ensures
        forall|k1: int, k2: int|
            0 <= k1 < k2 < candidates(table, cell).len() ==> (#[trigger] candidates(
                table,
                cell,
            )[k1]) != (#[trigger] candidates(table, cell)[k2]),
{
    let col = col_of(cell, GRID_COLS);
    let row = row_of(cell, GRID_COLS);
    lemma_mod_bound(cell as int, GRID_COLS as int);
    lemma_div_below(cell as int, GRID_COLS as int, GRID_ROWS as int);
    lemma_div_pos_is_pos(cell as int, GRID_COLS as int);
    lemma_axis_cells(col, GRID_COLS);
    lemma_axis_cells(row, GRID_ROWS);
    lemma_cross_distinct(
        axis_cells(col, GRID_COLS),
        axis_cells(row, GRID_ROWS),
        GRID_COLS,
        GRID_ROWS,
    );
    lemma_cands_distinct(boids, table, neighbor_cell_list(cell, GRID_COLS, GRID_ROWS));
}

/// A bucket never holds more entries than there are agents.
pub proof fn lemma_bucket_len(boids: Seq<Boid>, c: int)
    ensures
        bucket_of(boids, c).len() <= boids.len(),
    decreases boids.len(),
{
    if boids.len() > 0 {
        lemma_bucket_len(boids.drop_last(), c);
    }
}

/// A candidate list is at most the cell count times the agent count long.
pub proof fn lemma_cands_len(boids: Seq<Boid>, table: Seq<Vec<usize>>, cells: Seq<usize>)
    requires
        grid_ok(boids, table),
    ensures
        cands_from(table, cells).len() <= cells.len() * boids.len(),
    decreases cells.len(),
{
    if cells.len() > 0 {
        lemma_cands_len(boids, table, cells.drop_last());
        if cells.last() < table.len() {
            lemma_bucket_len(boids, cells.last() as int);
        }
        assert((cells.len() - 1) * boids.len() + boids.len() == cells.len() * boids.len())
            by (nonlinear_arith);
    }
}

/// `row_cells` is as long as its column list.
pub proof fn lemma_row_cells_len(cs: Seq<usize>, r: usize, cols: usize)
    ensures
        row_cells(cs, r, cols).len() == cs.len(),
    decreases cs.len(),
{
    if cs.len() > 0 {
        lemma_row_cells_len(cs.drop_last(), r, cols);
    }
}

/// The cross is the product of the two axis list lengths long.
pub proof fn lemma_cross_cells_len(cs: Seq<usize>, rs: Seq<usize>, cols: usize)
    ensures
        cross_cells(cs, rs, cols).len() == cs.len() * rs.len(),
    decreases rs.len(),
{
    if rs.len() > 0 {
        lemma_cross_cells_len(cs, rs.drop_last(), cols);
        lemma_row_cells_len(cs, rs.last(), cols);
        assert(cs.len() * (rs.len() - 1) + cs.len() == cs.len() * rs.len()) by (nonlinear_arith);
    }
}

/// Toroidal distance of two coordinates on a circle of circumference `m`:
/// the shorter way around.
pub open spec fn tor_dist(a: int, b: int, m: int) -> int {
    if mag(a - b) <= m - mag(a - b) {
        mag(a - b)
    } else {
        m - mag(a - b)
    }
}

/// A quotient is at least `k` when the dividend reaches `d * k`.
pub proof fn lemma_div_at_least(x: int, d: int, k: int)
    requires
        d > 0,
        x >= d * k,
    ensures
        x / d >= k,
{
    lemma_div_is_ordered(d * k, x, d);
    lemma_div_multiples_vanish(k, d);
}

/// Two coordinates within one cell size of each other around the torus
/// land in the same or in adjacent cells of their axis.
pub proof fn lemma_axis_reach(a: int, b: int, n: usize)
    requires
        n >= 1,
        (n as int) * (VISION_RANGE as int) <= WORLD_WIDTH,
        0 <= a < (n as int) * (VISION_RANGE as int),
        0 <= b < (n as int) * (VISION_RANGE as int),
        tor_dist(a, b, (n as int) * (VISION_RANGE as int)) < VISION_RANGE,
    ensures
        axis_adjacent(
            ((b / (VISION_RANGE as int)) as usize),
            ((a / (VISION_RANGE as int)) as usize),
            n,
        ),
{
    let c = VISION_RANGE as int;
    let ca = a / c;
    let cb = b / c;
    lemma_div_below(a, c, n as int);
    lemma_div_below(b, c, n as int);
    lemma_fundamental_div_mod(a, c);
    lemma_mod_bound(a, c);
    lemma_fundamental_div_mod(b, c);
    lemma_mod_bound(b, c);
    if mag(a - b) < c {
        if cb >= ca + 2 {
            lemma_mul_inequality(ca + 2, cb, c);
            assert(false);
        }
        if ca >= cb + 2 {
            lemma_mul_inequality(cb + 2, ca, c);
            assert(false);
        }
        if cb == ca + 1 {
            assert(wrap_inc_idx((ca as usize), n) == cb);
        } else if cb == ca - 1 {
            assert(wrap_dec_idx((ca as usize), n) == cb);
        }
    } else {
        let m = (n as int) * c;
        assert(mag(a - b) > (n - 1) * c);
        if a < b {
            lemma_div_at_least(b, c, n as int - 1);
            assert(a < c) by {
                assert(b < m);
                assert(m - (n - 1) * c == c) by (nonlinear_arith)
                    requires
                        m == (n as int) * c,
                ;
            }
            lemma_div_below(a, c, 1);
            assert(ca == 0);
            assert(cb == n - 1);
            assert(wrap_dec_idx((ca as usize), n) == cb);
        } else {
            lemma_div_at_least(a, c, n as int - 1);
            assert(b < c) by {
                assert(a < m);
                assert(m - (n - 1) * c == c) by (nonlinear_arith)
                    requires
                        m == (n as int) * c,
                ;
            }
            lemma_div_below(b, c, 1);
            assert(cb == 0);
            assert(ca == n - 1);
            assert(wrap_inc_idx((ca as usize), n) == cb);
        }
    }
}

/// Neighbor completeness: an agent within vision range of another around
/// the torus, axis by axis, appears in that agent's candidate list. The
/// premises are symmetric in `i` and `j`, so each of the two appears in
/// the other's list; and the toroidal Euclidean distance being below the
/// vision range implies both per-axis premises.
pub proof fn lemma_neighbor_complete(boids: Seq<Boid>, table: Seq<Vec<usize>>, i: int, j: int)
    requires
        grid_ok(boids, table),
        boids.len() <= usize::MAX,
        0 <= i < boids.len(),
        0 <= j < boids.len(),
        boid_ok(boids[i]),
        boid_ok(boids[j]),
        tor_dist(boids[i].position_x as int, boids[j].position_x as int, WORLD_WIDTH as int)
            < VISION_RANGE,
        tor_dist(boids[i].position_y as int, boids[j].position_y as int, WORLD_HEIGHT as int)
            < VISION_RANGE,
    ensures
        candidates(table, boids[i].hash).contains(j as usize),
{
    let c = VISION_RANGE as int;
    let p = boids[i];
    let q = boids[j];
    let pax = p.position_x as int / c;
    let pay = p.position_y as int / c;
    let qax = q.position_x as int / c;
    let qay = q.position_y as int / c;
    lemma_div_below(p.position_x as int, c, GRID_COLS as int);
    lemma_div_below(p.position_y as int, c, GRID_ROWS as int);
    lemma_div_below(q.position_x as int, c, GRID_COLS as int);
    lemma_div_below(q.position_y as int, c, GRID_ROWS as int);
    lemma_div_pos_is_pos(p.position_x as int, c);
    lemma_div_pos_is_pos(p.position_y as int, c);
    lemma_div_pos_is_pos(q.position_x as int, c);
    lemma_div_pos_is_pos(q.position_y as int, c);
    lemma_fundamental_div_mod_converse(p.hash as int, GRID_COLS as int, pay, pax);
    assert(col_of(p.hash, GRID_COLS) == pax);
    assert(row_of(p.hash, GRID_COLS) == pay);
    lemma_axis_reach(p.position_x as int, q.position_x as int, GRID_COLS);
    lemma_axis_reach(p.position_y as int, q.position_y as int, GRID_ROWS);
    lemma_axis_cells((pax as usize), GRID_COLS);
    lemma_axis_cells((pay as usize), GRID_ROWS);
    lemma_cross_cells(
        axis_cells((pax as usize), GRID_COLS),
        axis_cells((pay as usize), GRID_ROWS),
        GRID_COLS,
        GRID_ROWS,
    );
    assert(neighbor_cell_list(p.hash, GRID_COLS, GRID_ROWS).contains(
        (((qax as usize) + GRID_COLS * (qay as usize)) as usize),
    ));
    assert(q.hash == qax + GRID_COLS * qay);
    lemma_bucket_membership(boids, q.hash as int);
    assert(table[q.hash as int]@.contains(j as usize));
    lemma_cands_contains(
        table,
        neighbor_cell_list(p.hash, GRID_COLS, GRID_ROWS),
        q.hash,
        j as usize,
    );
}

/// Rebuild the grid from the agents' cached cells: clear every bucket,
/// then reinsert every agent index in order.
pub fn rebuild(table: &mut Vec<Vec<usize>>, boids: &Vec<Boid>)
    requires
        old(table)@.len() == GRID_CELLS,
        forall|i: int| 0 <= i < boids@.len() ==> (#[trigger] boids@[i]).hash < GRID_CELLS,
    ensures
        grid_ok(boids@, final(table)@),
{
    let mut c: usize = 0;
    while c < table.len()
        invariant
            table@.len() == GRID_CELLS,
            c <= GRID_CELLS,
            forall|k: int| 0 <= k < c ==> (#[trigger] table@[k])@ == Seq::<usize>::empty(),
        decreases GRID_CELLS - c,
    {
        table[c].clear();
        c = c + 1;
    }
    let mut i: usize = 0;
    while i < boids.len()
        invariant
            table@.len() == GRID_CELLS,
            i <= boids@.len(),
            forall|k: int|
                0 <= k < GRID_CELLS ==> (#[trigger] table@[k])@ == bucket_of(
                    boids@.take(i as int),
                    k,
                ),
        decreases boids@.len() - i,
    {
        let h = boids[i].hash;
        table[h].push(i);
        proof {
            assert forall|k: int| 0 <= k < GRID_CELLS implies (#[trigger] table@[k])@ == bucket_of(
                boids@.take(i as int + 1),
                k,
            ) by {
                assert(boids@.take(i as int + 1).drop_last() =~= boids@.take(i as int));
                assert(boids@.take(i as int + 1).last() == boids@[i as int]);
                if k == h {
                    assert(table@[k]@ =~= bucket_of(boids@.take(i as int), k) + seq![i]);
                } else {
                    assert(table@[k]@ == bucket_of(boids@.take(i as int), k));
                }
            }
        }
        i = i + 1;
    }
    proof {
        assert(boids@.take(boids@.len() as int) =~= boids@);
    }
}

} // verus!
