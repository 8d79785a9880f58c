//! The grid model: rectangular character grids, passability, and breadth-first
//! reachability between labeled waypoint cells.
//!
//! A cell holds floor (`.`), a wall, or an alphabetic waypoint label.  A
//! search that starts from a waypoint labeled `c` may step onto floor cells
//! and onto waypoint cells of any other label; cells carrying `c` itself
//! block the way.

use vstd::prelude::*;

verus! {

/// Whether `c` is a waypoint label: an ASCII letter.
pub open spec fn is_label(c: u8) -> bool {
    (65 <= c <= 90) || (97 <= c <= 122)
}

/// Whether `c` is passable floor.
pub open spec fn is_floor(c: u8) -> bool {
    c == 46
}

/// A rectangular, nonempty grid.
pub open spec fn grid_wf(g: Seq<Seq<u8>>) -> bool {
    &&& g.len() >= 1
    &&& forall|y: int| 0 <= y < g.len() ==> (#[trigger] g[y]).len() == g[0].len()
}

pub open spec fn in_bounds(g: Seq<Seq<u8>>, x: int, y: int) -> bool {
    0 <= y < g.len() && 0 <= x < g[y].len()
}

pub open spec fn cell(g: Seq<Seq<u8>>, x: int, y: int) -> u8 {
    g[y][x]
}

/// Whether a search that started on a waypoint labeled `src_ch` may step
/// onto `(x, y)`.
pub open spec fn open_from(g: Seq<Seq<u8>>, src_ch: u8, x: int, y: int) -> bool {
    &&& in_bounds(g, x, y)
    &&& (is_floor(cell(g, x, y)) || (is_label(cell(g, x, y)) && cell(g, x, y) != src_ch))
}

/// Orthogonal grid adjacency.
pub open spec fn adjacent(x1: int, y1: int, x2: int, y2: int) -> bool {
    ||| (x1 == x2 && (y1 == y2 + 1 || y2 == y1 + 1))
    ||| (y1 == y2 && (x1 == x2 + 1 || x2 == x1 + 1))
}

/// The cells reachable from `(sx, sy)` in at most `n` steps, stepping only
/// onto cells open from `src_ch`.
#[verifier::opaque]
pub open spec fn reach(g: Seq<Seq<u8>>, src_ch: u8, sx: int, sy: int, n: nat) -> Set<(int, int)>
    decreases n,
{
    if n == 0 {
        Set::<(int, int)>::empty().insert((sx, sy))
    } else {
        reach(g, src_ch, sx, sy, (n - 1) as nat).union(
            Set::new(
                |p: (int, int)|
                    open_from(g, src_ch, p.0, p.1) && exists|q: (int, int)|
                        reach(g, src_ch, sx, sy, (n - 1) as nat).contains(q) && adjacent(
                            q.0,
                            q.1,
                            p.0,
                            p.1,
                        ),
            ),
        )
    }
}

/// The breadth-first distance from `(sx, sy)` to `(tx, ty)` is exactly `n`.
pub open spec fn grid_dist_is(
    g: Seq<Seq<u8>>,
    src_ch: u8,
    sx: int,
    sy: int,
    tx: int,
    ty: int,
    n: nat,
) -> bool {
    &&& reach(g, src_ch, sx, sy, n).contains((tx, ty))
    &&& (n == 0 || !reach(g, src_ch, sx, sy, (n - 1) as nat).contains((tx, ty)))
}

/// A walkable path for a search from a cell labeled `src_ch`: consecutive
/// cells are adjacent and every cell after the first is open.
pub open spec fn path_ok(g: Seq<Seq<u8>>, src_ch: u8, p: Seq<(int, int)>) -> bool {
    &&& p.len() >= 1
    &&& forall|k: int|
        1 <= k < p.len() ==> open_from(g, src_ch, (#[trigger] p[k]).0, p[k].1) && adjacent(
            p[k - 1].0,
            p[k - 1].1,
            p[k].0,
            p[k].1,
        )
}

/// Reach sets only grow with the step budget.
pub proof fn lemma_reach_mono(g: Seq<Seq<u8>>, src_ch: u8, sx: int, sy: int, n1: nat, n2: nat)
    requires
        n1 <= n2,
    ensures
        reach(g, src_ch, sx, sy, n1).subset_of(reach(g, src_ch, sx, sy, n2)),
    decreases n2 - n1,
{
    reveal(reach);
    if n1 < n2 {
        lemma_reach_mono(g, src_ch, sx, sy, n1, (n2 - 1) as nat);
    }
}

/// A path of `n` steps lands inside the `n`-step reach set.
pub proof fn lemma_path_to_reach(g: Seq<Seq<u8>>, src_ch: u8, p: Seq<(int, int)>)
    requires
        path_ok(g, src_ch, p),
    ensures
        reach(g, src_ch, p[0].0, p[0].1, (p.len() - 1) as nat).contains(p.last()),
    decreases p.len(),
{
    reveal(reach);
    if p.len() == 1 {
    } else {
        let q = p.drop_last();
        assert(path_ok(g, src_ch, q)) by {
            assert forall|k: int| 1 <= k < q.len() implies open_from(
                g,
                src_ch,
                (#[trigger] q[k]).0,
                q[k].1,
            ) && adjacent(q[k - 1].0, q[k - 1].1, q[k].0, q[k].1) by {
                assert(q[k] == p[k] && q[k - 1] == p[k - 1]);
            }
        }
        lemma_path_to_reach(g, src_ch, q);
        let n = (p.len() - 1) as nat;
        assert(q[0] == p[0]);
        assert(reach(g, src_ch, p[0].0, p[0].1, (n - 1) as nat).contains(q.last()));
        assert(open_from(g, src_ch, p.last().0, p.last().1) && adjacent(
            q.last().0,
            q.last().1,
            p.last().0,
            p.last().1,
        )) by {
            assert(p[p.len() - 2] == q.last());
        }
        assert(reach(g, src_ch, p[0].0, p[0].1, n).contains(p.last()));
    }
}

/// Some path of at most `maxlen` cells runs from the source to `(vx, vy)`.
pub open spec fn has_path(
    g: Seq<Seq<u8>>,
    src_ch: u8,
    sx: int,
    sy: int,
    vx: int,
    vy: int,
    maxlen: int,
) -> bool {
    exists|p: Seq<(int, int)>|
        {
            &&& #[trigger] path_ok(g, src_ch, p)
            &&& p[0] == (sx, sy)
            &&& p.last() == (vx, vy)
            &&& p.len() <= maxlen
        }
}

/// Whatever the reach set holds, a path leads to it.
proof fn lemma_reach_to_path(g: Seq<Seq<u8>>, src_ch: u8, sx: int, sy: int, n: nat, vx: int, vy: int)
    requires
        reach(g, src_ch, sx, sy, n).contains((vx, vy)),
    ensures
        has_path(g, src_ch, sx, sy, vx, vy, n as int + 1),
    decreases n,
{
    reveal(reach);
    if n == 0 {
        let p = Seq::<(int, int)>::empty().push((sx, sy));
        assert(path_ok(g, src_ch, p));
        assert(p[0] == (sx, sy) && p.last() == (vx, vy));
    } else if reach(g, src_ch, sx, sy, (n - 1) as nat).contains((vx, vy)) {
        lemma_reach_to_path(g, src_ch, sx, sy, (n - 1) as nat, vx, vy);
        let p = choose|p: Seq<(int, int)>|
            {
                &&& #[trigger] path_ok(g, src_ch, p)
                &&& p[0] == (sx, sy)
                &&& p.last() == (vx, vy)
                &&& p.len() <= n
            };
        assert(path_ok(g, src_ch, p) && p.len() <= n + 1);
    } else {
        let q = choose|q: (int, int)|
            reach(g, src_ch, sx, sy, (n - 1) as nat).contains(q) && adjacent(q.0, q.1, vx, vy);
        lemma_reach_to_path(g, src_ch, sx, sy, (n - 1) as nat, q.0, q.1);
        let p = choose|p: Seq<(int, int)>|
            {
                &&& #[trigger] path_ok(g, src_ch, p)
                &&& p[0] == (sx, sy)
                &&& p.last() == (q.0, q.1)
                &&& p.len() <= n
            };
        let p2 = p.push((vx, vy));
        assert(path_ok(g, src_ch, p2)) by {
            assert forall|k: int| 1 <= k < p2.len() implies open_from(
                g,
                src_ch,
                (#[trigger] p2[k]).0,
                p2[k].1,
            ) && adjacent(p2[k - 1].0, p2[k - 1].1, p2[k].0, p2[k].1) by {
                if k < p.len() {
                    assert(p2[k] == p[k] && p2[k - 1] == p[k - 1]);
                } else {
                    assert(p2[k] == (vx, vy));
                    assert(p2[k - 1] == p.last());
                }
            }
        }
        assert(p2[0] == (sx, sy) && p2.last() == (vx, vy) && p2.len() <= n + 1);
    }
}

/// From any path to `v` a path whose interior avoids `v` can be cut.
proof fn lemma_first_visit(g: Seq<Seq<u8>>, src_ch: u8, p: Seq<(int, int)>, vx: int, vy: int)
    requires
        path_ok(g, src_ch, p),
        p.last() == (vx, vy),
    ensures
        exists|p2: Seq<(int, int)>|
            {
                &&& #[trigger] path_ok(g, src_ch, p2)
                &&& p2[0] == p[0]
                &&& p2.last() == (vx, vy)
                &&& p2.len() <= p.len()
                &&& forall|k: int| 0 <= k < p2.len() - 1 ==> p2[k] != (vx, vy)
            },
    decreases p.len(),
{
    if exists|k: int| 0 <= k < p.len() - 1 && p[k] == (vx, vy) {
        let k = choose|k: int| 0 <= k < p.len() - 1 && p[k] == (vx, vy);
        let q = p.take(k + 1);
        assert(path_ok(g, src_ch, q)) by {
            assert forall|kk: int| 1 <= kk < q.len() implies open_from(
                g,
                src_ch,
                (#[trigger] q[kk]).0,
                q[kk].1,
            ) && adjacent(q[kk - 1].0, q[kk - 1].1, q[kk].0, q[kk].1) by {
                assert(q[kk] == p[kk] && q[kk - 1] == p[kk - 1]);
            }
        }
        assert(q.last() == p[k]);
        assert(q.len() < p.len());
        lemma_first_visit(g, src_ch, q, vx, vy);
        let p2 = choose|p2: Seq<(int, int)>|
            {
                &&& #[trigger] path_ok(g, src_ch, p2)
                &&& p2[0] == q[0]
                &&& p2.last() == (vx, vy)
                &&& p2.len() <= q.len()
                &&& forall|kk: int| 0 <= kk < p2.len() - 1 ==> p2[kk] != (vx, vy)
            };
        assert(p2[0] == p[0]);
    } else {
        assert(path_ok(g, src_ch, p) && p[0] == p[0] && p.last() == (vx, vy) && p.len() <= p.len()
            && forall|k: int| 0 <= k < p.len() - 1 ==> p[k] != (vx, vy));
    }
}

/// Reversing reachability: if `v` lies in the reach set of the search from
/// `u`, then `u` lies in the reach set of the search from `v` with the same
/// budget, provided each endpoint is the only cell carrying its label.
pub proof fn lemma_reach_symmetric(
    g: Seq<Seq<u8>>,
    ux: int,
    uy: int,
    vx: int,
    vy: int,
    n: nat,
)
    requires
        grid_wf(g),
        in_bounds(g, ux, uy),
        in_bounds(g, vx, vy),
        is_label(cell(g, ux, uy)),
        is_label(cell(g, vx, vy)),
        cell(g, ux, uy) != cell(g, vx, vy),
        forall|x: int, y: int|
            in_bounds(g, x, y) && cell(g, x, y) == cell(g, ux, uy) ==> (x, y) == (ux, uy),
        forall|x: int, y: int|
            in_bounds(g, x, y) && cell(g, x, y) == cell(g, vx, vy) ==> (x, y) == (vx, vy),
        reach(g, cell(g, ux, uy), ux, uy, n).contains((vx, vy)),
    ensures
        reach(g, cell(g, vx, vy), vx, vy, n).contains((ux, uy)),
{
    reveal(reach);
    let cu = cell(g, ux, uy);
    let cv = cell(g, vx, vy);
    lemma_reach_to_path(g, cu, ux, uy, n, vx, vy);
    let p0 = choose|p: Seq<(int, int)>|
        {
            &&& #[trigger] path_ok(g, cu, p)
            &&& p[0] == (ux, uy)
            &&& p.last() == (vx, vy)
            &&& p.len() <= n + 1
        };
    lemma_first_visit(g, cu, p0, vx, vy);
    let p = choose|p2: Seq<(int, int)>|
        {
            &&& #[trigger] path_ok(g, cu, p2)
            &&& p2[0] == p0[0]
            &&& p2.last() == (vx, vy)
            &&& p2.len() <= p0.len()
            &&& forall|k: int| 0 <= k < p2.len() - 1 ==> p2[k] != (vx, vy)
        };
    let len = p.len();
    let q = Seq::<(int, int)>::new(len, |k: int| p[len - 1 - k]);
    assert(q[0] == (vx, vy) && q.last() == (ux, uy));
    assert(path_ok(g, cv, q)) by {
        assert forall|k: int| 1 <= k < q.len() implies open_from(
            g,
            cv,
            (#[trigger] q[k]).0,
            q[k].1,
        ) && adjacent(q[k - 1].0, q[k - 1].1, q[k].0, q[k].1) by {
            let j = len - 1 - k;
            assert(q[k] == p[j] && q[k - 1] == p[j + 1]);
            if j == 0 {
                assert(p[j] == (ux, uy));
                assert(is_label(cu) && cu != cv);
                assert(open_from(g, cv, ux, uy));
            } else {
                assert(open_from(g, cu, p[j].0, p[j].1));
                if is_label(cell(g, p[j].0, p[j].1)) && cell(g, p[j].0, p[j].1) == cv {
                    assert(p[j] == (vx, vy));
                    assert(j < len - 1);
                    assert(false);
                }
            }
            assert(adjacent(p[j].0, p[j].1, p[j + 1].0, p[j + 1].1));
        }
    }
    lemma_path_to_reach(g, cv, q);
    lemma_reach_mono(g, cv, vx, vy, (q.len() - 1) as nat, n);
}

/// The base distance between two uniquely labeled waypoints is the same
/// whichever endpoint the breadth-first search starts from.
pub proof fn lemma_base_distance_symmetric(
    g: Seq<Seq<u8>>,
    ux: int,
    uy: int,
    vx: int,
    vy: int,
    n: nat,
)
    requires
        grid_wf(g),
        in_bounds(g, ux, uy),
        in_bounds(g, vx, vy),
        is_label(cell(g, ux, uy)),
        is_label(cell(g, vx, vy)),
        cell(g, ux, uy) != cell(g, vx, vy),
        forall|x: int, y: int|
            in_bounds(g, x, y) && cell(g, x, y) == cell(g, ux, uy) ==> (x, y) == (ux, uy),
        forall|x: int, y: int|
            in_bounds(g, x, y) && cell(g, x, y) == cell(g, vx, vy) ==> (x, y) == (vx, vy),
        grid_dist_is(g, cell(g, ux, uy), ux, uy, vx, vy, n),
    ensures
        grid_dist_is(g, cell(g, vx, vy), vx, vy, ux, uy, n),
{
    lemma_reach_symmetric(g, ux, uy, vx, vy, n);
    if n > 0 && reach(g, cell(g, vx, vy), vx, vy, (n - 1) as nat).contains((ux, uy)) {
        lemma_reach_symmetric(g, vx, vy, ux, uy, (n - 1) as nat);
        assert(false);
    }
}

} // verus!
