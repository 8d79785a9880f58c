//! Minimum-cost collection tours over a waypoint edge map.
//!
//! A tour starts at a designated waypoint with an initial collected-set, moves
//! along edges of the waypoint graph, unions each crossed label set into the
//! collected-set, and is complete when it stands on the start waypoint again
//! holding the full required set.  The search explores states
//! `(current waypoint, collected-set)` in order of increasing total distance,
//! using a bucketed work queue keyed by distance and a sparse distance table
//! keyed by state.

use vstd::prelude::*;

use crate::errors::SolveError;

verus! {

/// A weighted transition of the waypoint graph.
#[derive(Clone, Copy, Debug, PartialEq, Eq, Structural)]
pub struct Edge {
    /// Index of the waypoint this edge leads to.
    pub to: usize,
    /// Grid distance along the path that discovered the edge.
    pub dist: usize,
    /// The label bit of the target waypoint, alone.
    pub last: u32,
    /// Union of all label bits crossed on the discovering path, `last` included.
    pub crossed: u32,
}

/// The edge lists of a waypoint graph, one list per waypoint index.
pub open spec fn em_view(em: Seq<Vec<Edge>>) -> Seq<Seq<Edge>> {
    em.map_values(|v: Vec<Edge>| v@)
}

/// Every edge leads to a valid waypoint index and costs at least one step.
pub open spec fn wf_edges(em: Seq<Seq<Edge>>) -> bool {
    forall|i: int, j: int|
        0 <= i < em.len() && 0 <= j < em[i].len() ==> (#[trigger] em[i][j]).to < em.len()
            && em[i][j].dist >= 1
}

/// Whether the search may take edge `e` from waypoint `at` holding mask `m`.
/// With the full set collected only edges straight home are taken; otherwise
/// an edge is skipped when its target label is already collected or when the
/// whole crossed set is already collected.
pub open spec fn step_allowed(
    em: Seq<Seq<Edge>>,
    full: u32,
    start: int,
    at: int,
    m: u32,
    e: Edge,
) -> bool {
    &&& 0 <= at < em.len()
    &&& em[at].contains(e)
    &&& if m == full {
        e.to == start
    } else {
        e.last & m == 0 && m | e.crossed != m
    }
}

/// The collected-set after taking edge `e` while holding `m`.
pub open spec fn mask_step(m: u32, full: u32, e: Edge) -> u32 {
    if m == full {
        m
    } else {
        m | e.crossed
    }
}

/// The waypoint a walk stands on after its first `k` edges.
pub open spec fn walk_at(start: int, w: Seq<Edge>, k: int) -> int {
    if k <= 0 {
        start
    } else {
        w[k - 1].to as int
    }
}

/// The collected-set a walk holds after its first `k` edges.
pub open spec fn walk_mask(init: u32, full: u32, w: Seq<Edge>, k: int) -> u32
    decreases k,
{
    if k <= 0 {
        init
    } else {
        mask_step(walk_mask(init, full, w, k - 1), full, w[k - 1])
    }
}

/// The total distance of the first `k` edges of a walk.
pub open spec fn walk_cost(w: Seq<Edge>, k: int) -> int
    decreases k,
{
    if k <= 0 {
        0
    } else {
        walk_cost(w, k - 1) + w[k - 1].dist
    }
}

/// Every edge of `w` is allowed from the state the walk is in when it takes it.
pub open spec fn walk_ok(em: Seq<Seq<Edge>>, full: u32, start: int, init: u32, w: Seq<Edge>) -> bool {
    forall|k: int|
        0 <= k < w.len() ==> step_allowed(
            em,
            full,
            start,
            walk_at(start, w, k),
            walk_mask(init, full, w, k),
            #[trigger] w[k],
        )
}

/// A complete tour: a walk from the start state that stands on the start
/// waypoint again holding the full collected-set.
pub open spec fn reaches_goal(
    em: Seq<Seq<Edge>>,
    full: u32,
    start: int,
    init: u32,
    w: Seq<Edge>,
) -> bool {
    &&& walk_ok(em, full, start, init, w)
    &&& walk_at(start, w, w.len() as int) == start
    &&& walk_mask(init, full, w, w.len() as int) == full
}

/// Some walk from the start state ends in state `(at, m)` with total cost `c`.
pub open spec fn has_walk(
    em: Seq<Seq<Edge>>,
    full: u32,
    start: int,
    init: u32,
    at: int,
    m: u32,
    c: int,
) -> bool {
    exists|w: Seq<Edge>|
        {
            &&& #[trigger] walk_ok(em, full, start, init, w)
            &&& walk_at(start, w, w.len() as int) == at
            &&& walk_mask(init, full, w, w.len() as int) == m
            &&& walk_cost(w, w.len() as int) == c
        }
}

/// Full correctness of a tour search outcome: an `Ok` distance is `base` plus
/// the cost of an actual tour, and no tour is cheaper; an error is always
/// `Unsolved` and is returned only when no tour fits in the distance type.
pub open spec fn tour_outcome(
    em: Seq<Seq<Edge>>,
    full: u32,
    start: int,
    init: u32,
    base: int,
    r: Result<usize, SolveError>,
) -> bool {
    match r {
        Ok(d) => {
            &&& base <= d
            &&& exists|w: Seq<Edge>|
                #[trigger] reaches_goal(em, full, start, init, w) && base + walk_cost(
                    w,
                    w.len() as int,
                ) == d
            &&& forall|w: Seq<Edge>|
                #[trigger] reaches_goal(em, full, start, init, w) ==> base + walk_cost(
                    w,
                    w.len() as int,
                ) >= d
        },
        Err(e) => {
            &&& e == SolveError::Unsolved
            &&& forall|w: Seq<Edge>|
                #[trigger] reaches_goal(em, full, start, init, w) ==> base + walk_cost(
                    w,
                    w.len() as int,
                ) > usize::MAX
        },
    }
}

/// Walk costs only grow with the number of edges taken.
proof fn lemma_cost_mono(w: Seq<Edge>, k1: int, k2: int)
    requires
        0 <= k1 <= k2,
    ensures
        walk_cost(w, k1) <= walk_cost(w, k2),
    decreases k2 - k1,
{
    if k1 < k2 {
        lemma_cost_mono(w, k1, k2 - 1);
    }
}

/// The first `k` edges of `w.push(e)` behave exactly like those of `w`.
proof fn lemma_walk_prefix_push(init: u32, full: u32, w: Seq<Edge>, e: Edge, k: int)
    requires
        0 <= k <= w.len(),
    ensures
        walk_mask(init, full, w.push(e), k) == walk_mask(init, full, w, k),
        walk_cost(w.push(e), k) == walk_cost(w, k),
    decreases k,
{
    if k > 0 {
        lemma_walk_prefix_push(init, full, w, e, k - 1);
    }
}

/// Extending a walk by one allowed edge keeps it a walk and moves its end
/// state and cost by exactly that edge.
proof fn lemma_walk_push(
    em: Seq<Seq<Edge>>,
    full: u32,
    start: int,
    init: u32,
    w: Seq<Edge>,
    e: Edge,
)
    requires
        walk_ok(em, full, start, init, w),
        step_allowed(
            em,
            full,
            start,
            walk_at(start, w, w.len() as int),
            walk_mask(init, full, w, w.len() as int),
            e,
        ),
    ensures
        walk_ok(em, full, start, init, w.push(e)),
        walk_at(start, w.push(e), w.len() as int + 1) == e.to,
        walk_mask(init, full, w.push(e), w.len() as int + 1) == mask_step(
            walk_mask(init, full, w, w.len() as int),
            full,
            e,
        ),
        walk_cost(w.push(e), w.len() as int + 1) == walk_cost(w, w.len() as int) + e.dist,
{
    let w2 = w.push(e);
    assert forall|k: int| 0 <= k < w2.len() implies step_allowed(
        em,
        full,
        start,
        walk_at(start, w2, k),
        walk_mask(init, full, w2, k),
        #[trigger] w2[k],
    ) by {
        lemma_walk_prefix_push(init, full, w, e, k);
        if k < w.len() {
            assert(w2[k] == w[k]);
            assert(walk_at(start, w2, k) == walk_at(start, w, k));
        } else {
            assert(w2[k] == e);
            assert(walk_at(start, w2, k) == walk_at(start, w, w.len() as int));
        }
    }
    lemma_walk_prefix_push(init, full, w, e, w.len() as int);
}

/// The empty walk: the start state is reached at cost zero.
proof fn lemma_walk_empty(em: Seq<Seq<Edge>>, full: u32, start: int, init: u32)
    ensures
        has_walk(em, full, start, init, start, init, 0),
{
    let w = Seq::<Edge>::empty();
    assert(walk_ok(em, full, start, init, w));
    assert(walk_at(start, w, 0) == start);
    assert(walk_mask(init, full, w, 0) == init);
    assert(walk_cost(w, 0) == 0);
}

// ---------------------------------------------------------------------------
// Sums used by the termination measure of the search.
// ---------------------------------------------------------------------------

spec fn sum_vals(s: Seq<(u64, usize)>) -> int
    decreases s.len(),
{
    if s.len() == 0 {
        0
    } else {
        sum_vals(s.drop_last()) + s.last().1
    }
}

proof fn lemma_sum_vals_nonneg(s: Seq<(u64, usize)>)
    ensures
        sum_vals(s) >= 0,
    decreases s.len(),
{
    if s.len() > 0 {
        lemma_sum_vals_nonneg(s.drop_last());
    }
}

proof fn lemma_sum_vals_push(s: Seq<(u64, usize)>, p: (u64, usize))
    ensures
        sum_vals(s.push(p)) == sum_vals(s) + p.1,
{
    assert(s.push(p).drop_last() =~= s);
}

proof fn lemma_sum_vals_update(s: Seq<(u64, usize)>, i: int, p: (u64, usize))
    requires
        0 <= i < s.len(),
    ensures
        sum_vals(s.update(i, p)) == sum_vals(s) - s[i].1 + p.1,
    decreases s.len(),
{
    if i == s.len() - 1 {
        assert(s.update(i, p).drop_last() =~= s.drop_last());
        assert(s.update(i, p).last() == p);
    } else {
        lemma_sum_vals_update(s.drop_last(), i, p);
        assert(s.update(i, p).drop_last() =~= s.drop_last().update(i, p));
        assert(s.update(i, p).last() == s.last());
    }
}

spec fn total_len(bs: Seq<(usize, Vec<(usize, u32)>)>) -> int
    decreases bs.len(),
{
    if bs.len() == 0 {
        0
    } else {
        total_len(bs.drop_last()) + bs.last().1@.len()
    }
}

proof fn lemma_total_len_nonneg(bs: Seq<(usize, Vec<(usize, u32)>)>)
    ensures
        total_len(bs) >= 0,
    decreases bs.len(),
{
    if bs.len() > 0 {
        lemma_total_len_nonneg(bs.drop_last());
    }
}

proof fn lemma_total_len_first(bs: Seq<(usize, Vec<(usize, u32)>)>)
    requires
        bs.len() >= 1,
    ensures
        total_len(bs) == bs[0].1@.len() + total_len(bs.drop_first()),
    decreases bs.len(),
{
    if bs.len() == 1 {
        assert(bs.drop_first().len() == 0);
        assert(total_len(bs.drop_first()) == 0);
        assert(bs.drop_last().len() == 0);
        assert(total_len(bs.drop_last()) == 0);
        assert(bs.last() == bs[0]);
    } else {
        lemma_total_len_first(bs.drop_last());
        assert(bs.drop_last().drop_first() =~= bs.drop_first().drop_last());
        assert(bs.drop_first().last() == bs.last());
    }
}

proof fn lemma_total_len_update(bs: Seq<(usize, Vec<(usize, u32)>)>, i: int, b: (usize, Vec<(usize, u32)>))
    requires
        0 <= i < bs.len(),
    ensures
        total_len(bs.update(i, b)) == total_len(bs) - bs[i].1@.len() + b.1@.len(),
    decreases bs.len(),
{
    if i == bs.len() - 1 {
        assert(bs.update(i, b).drop_last() =~= bs.drop_last());
        assert(bs.update(i, b).last() == b);
    } else {
        lemma_total_len_update(bs.drop_last(), i, b);
        assert(bs.update(i, b).drop_last() =~= bs.drop_last().update(i, b));
        assert(bs.update(i, b).last() == bs.last());
    }
}

proof fn lemma_total_len_insert(bs: Seq<(usize, Vec<(usize, u32)>)>, i: int, b: (usize, Vec<(usize, u32)>))
    requires
        0 <= i <= bs.len(),
    ensures
        total_len(bs.insert(i, b)) == total_len(bs) + b.1@.len(),
    decreases bs.len(),
{
    if i == bs.len() {
        assert(bs.insert(i, b).drop_last() =~= bs);
        assert(bs.insert(i, b).last() == b);
    } else {
        lemma_total_len_insert(bs.drop_last(), i, b);
        assert(bs.insert(i, b).drop_last() =~= bs.drop_last().insert(i, b));
        assert(bs.insert(i, b).last() == bs.last());
    }
}

// ---------------------------------------------------------------------------
// Sparse distance table keyed by packed (waypoint, mask) states.
// ---------------------------------------------------------------------------

/// The packed table key of state `(at, m)`.
pub open spec fn key_of(at: int, m: u32) -> int {
    at * 0x1_0000_0000 + m
}

proof fn lemma_key_injective(a1: int, m1: u32, a2: int, m2: u32)
    requires
        0 <= a1,
        0 <= a2,
        key_of(a1, m1) == key_of(a2, m2),
    ensures
        a1 == a2 && m1 == m2,
{
    if a1 < a2 {
        assert(a1 * 0x1_0000_0000 + 0x1_0000_0000 <= a2 * 0x1_0000_0000);
    }
    if a2 < a1 {
        assert(a2 * 0x1_0000_0000 + 0x1_0000_0000 <= a1 * 0x1_0000_0000);
    }
}

/// A sparse map from packed state keys to the best distance recorded so far,
/// stored as an association list with pairwise-distinct keys.
struct DistTable {
    entries: Vec<(u64, usize)>,
}

spec fn keys_distinct(s: Seq<(u64, usize)>) -> bool {
    forall|i: int, j: int| 0 <= i < j < s.len() ==> (#[trigger] s[i]).0 != (#[trigger] s[j]).0
}

spec fn table_get(s: Seq<(u64, usize)>, k: u64) -> Option<usize>
    decreases s.len(),
{
    if s.len() == 0 {
        Option::None
    } else if s[0].0 == k {
        Option::Some(s[0].1)
    } else {
        table_get(s.drop_first(), k)
    }
}

proof fn lemma_table_get_index(s: Seq<(u64, usize)>, k: u64, i: int)
    requires
        keys_distinct(s),
        0 <= i < s.len(),
        s[i].0 == k,
    ensures
        table_get(s, k) == Option::Some(s[i].1),
    decreases s.len(),
{
    if i > 0 {
        assert(s[0].0 != k);
        assert(s.drop_first()[i - 1] == s[i]);
        assert(keys_distinct(s.drop_first())) by {
            assert forall|x: int, y: int| 0 <= x < y < s.drop_first().len() implies (#[trigger] s.drop_first()[x]).0 != (#[trigger] s.drop_first()[y]).0 by {
                assert(s.drop_first()[x] == s[x + 1]);
                assert(s.drop_first()[y] == s[y + 1]);
            }
        }
        lemma_table_get_index(s.drop_first(), k, i - 1);
    }
}

proof fn lemma_table_get_none(s: Seq<(u64, usize)>, k: u64)
    requires
        forall|i: int| 0 <= i < s.len() ==> (#[trigger] s[i]).0 != k,
    ensures
        table_get(s, k) == Option::None::<usize>,
    decreases s.len(),
{
    if s.len() > 0 {
        assert forall|i: int| 0 <= i < s.drop_first().len() implies (#[trigger] s.drop_first()[i]).0 != k by {
            assert(s.drop_first()[i] == s[i + 1]);
        }
        lemma_table_get_none(s.drop_first(), k);
    }
}

impl DistTable {
    spec fn wf(self) -> bool {
        keys_distinct(self.entries@)
    }

    spec fn spec_get(self, k: u64) -> Option<usize> {
        table_get(self.entries@, k)
    }

    spec fn len(self) -> int {
        self.entries@.len() as int
    }

    spec fn sum(self) -> int {
        sum_vals(self.entries@)
    }

    spec fn keys_below(self, bound: int) -> bool {
        forall|i: int| 0 <= i < self.entries@.len() ==> (#[trigger] self.entries@[i]).0 < bound
    }

    fn new() -> (r: Self)
        ensures
            r.wf(),
            r.len() == 0,
            r.sum() == 0,
            forall|k: u64| r.spec_get(k) == Option::None::<usize>,
    {
        let r = DistTable { entries: Vec::new() };
        proof {
            assert forall|k: u64| r.spec_get(k) == Option::None::<usize> by {
                lemma_table_get_none(r.entries@, k);
            }
        }
        r
    }

    fn get(&self, k: u64) -> (r: Option<usize>)
        requires
            self.wf(),
        ensures
            r == self.spec_get(k),
    {
        let n = self.entries.len();
        let mut i: usize = 0;
        while i < n
            invariant
                i <= n,
                n == self.entries@.len(),
                self.wf(),
                forall|j: int| 0 <= j < i ==> (#[trigger] self.entries@[j]).0 != k,
            decreases n - i,
        {
            let (ek, ev) = self.entries[i];
            if ek == k {
                proof {
                    lemma_table_get_index(self.entries@, k, i as int);
                }
                return Option::Some(ev);
            }
            i = i + 1;
        }
        proof {
            lemma_table_get_none(self.entries@, k);
        }
        Option::None
    }

    /// Records `v` for key `k`; `v` must strictly improve on any value the
    /// table already holds for `k`.
    fn set(&mut self, k: u64, v: usize)
        requires
            old(self).wf(),
            match old(self).spec_get(k) {
                Option::Some(o) => v < o,
                Option::None => true,
            },
        ensures
            final(self).wf(),
            final(self).spec_get(k) == Option::Some(v),
            forall|k2: u64| k2 != k ==> final(self).spec_get(k2) == old(self).spec_get(k2),
            forall|i: int|
                0 <= i < final(self).entries@.len() ==> (#[trigger] final(self).entries@[i]).0 == k
                    || exists|j: int|
                    0 <= j < old(self).entries@.len() && (#[trigger] old(self).entries@[j]).0
                        == final(self).entries@[i].0,
            match old(self).spec_get(k) {
                Option::Some(o) => final(self).len() == old(self).len() && final(self).sum()
                    == old(self).sum() - o + v,
                Option::None => final(self).len() == old(self).len() + 1 && final(self).sum()
                    == old(self).sum() + v,
            },
    {
        let n = self.entries.len();
        let mut i: usize = 0;
        while i < n
            invariant
                i <= n,
                n == self.entries@.len(),
                self.wf(),
                self.entries@ == old(self).entries@,
                forall|j: int| 0 <= j < i ==> (#[trigger] self.entries@[j]).0 != k,
            decreases n - i,
        {
            let (ek, ev) = self.entries[i];
            if ek == k {
                proof {
                    lemma_table_get_index(self.entries@, k, i as int);
                    lemma_sum_vals_update(self.entries@, i as int, (k, v));
                }
                let ghost olds = self.entries@;
                self.entries[i] = (k, v);
                proof {
                    assert(self.entries@ =~= olds.update(i as int, (k, v)));
                    assert(self.wf()) by {
                        assert forall|x: int, y: int|
                            0 <= x < y < self.entries@.len() implies (#[trigger] self.entries@[x]).0
                            != (#[trigger] self.entries@[y]).0 by {
                            assert(olds[x].0 != olds[y].0);
                        }
                    }
                    lemma_table_get_index(self.entries@, k, i as int);
                    assert forall|k2: u64| k2 != k implies self.spec_get(k2) == table_get(olds, k2) by {
                        Self::lemma_update_other(olds, i as int, k, v, k2);
                    }
                }
                return ;
            }
            i = i + 1;
        }
        proof {
            lemma_table_get_none(self.entries@, k);
            lemma_sum_vals_push(self.entries@, (k, v));
        }
        let ghost olds = self.entries@;
        self.entries.push((k, v));
        proof {
            assert(self.entries@ =~= olds.push((k, v)));
            assert(self.wf()) by {
                assert forall|x: int, y: int|
                    0 <= x < y < self.entries@.len() implies (#[trigger] self.entries@[x]).0
                    != (#[trigger] self.entries@[y]).0 by {
                    if y < olds.len() {
                        assert(olds[x].0 != olds[y].0);
                    } else {
                        assert(self.entries@[y] == (k, v));
                        assert(olds[x].0 != k);
                    }
                }
            }
            lemma_table_get_index(self.entries@, k, olds.len() as int);
            assert forall|k2: u64| k2 != k implies self.spec_get(k2) == table_get(olds, k2) by {
                Self::lemma_push_other(olds, k, v, k2);
            }
        }
    }

    proof fn lemma_update_other(s: Seq<(u64, usize)>, i: int, k: u64, v: usize, k2: u64)
        requires
            0 <= i < s.len(),
            s[i].0 == k,
            k2 != k,
        ensures
            table_get(s.update(i, (k, v)), k2) == table_get(s, k2),
        decreases s.len(),
    {
        let s2 = s.update(i, (k, v));
        if i == 0 {
            assert(s[0].0 == k);
            assert(s2[0].0 == k);
            assert(s2.drop_first() =~= s.drop_first());
        } else {
            assert(s2[0] == s[0]);
            assert(s2.drop_first() =~= s.drop_first().update(i - 1, (k, v)));
            assert(s.drop_first()[i - 1] == s[i]);
            Self::lemma_update_other(s.drop_first(), i - 1, k, v, k2);
        }
    }

    proof fn lemma_push_other(s: Seq<(u64, usize)>, k: u64, v: usize, k2: u64)
        requires
            k2 != k,
        ensures
            table_get(s.push((k, v)), k2) == table_get(s, k2),
        decreases s.len(),
    {
        let s2 = s.push((k, v));
        if s.len() == 0 {
            assert(s2[0].0 == k);
            assert(s2.drop_first() =~= Seq::<(u64, usize)>::empty());
            assert(table_get(s2.drop_first(), k2) == Option::None::<usize>);
            assert(table_get(s2, k2) == Option::None::<usize>);
            assert(table_get(s, k2) == Option::None::<usize>);
        } else {
            assert(s2[0] == s[0]);
            assert(s2.drop_first() =~= s.drop_first().push((k, v)));
            Self::lemma_push_other(s.drop_first(), k, v, k2);
            assert(table_get(s2, k2) == if s2[0].0 == k2 {
                Option::Some(s2[0].1)
            } else {
                table_get(s2.drop_first(), k2)
            });
            assert(table_get(s, k2) == if s[0].0 == k2 {
                Option::Some(s[0].1)
            } else {
                table_get(s.drop_first(), k2)
            });
        }
    }
}

// ---------------------------------------------------------------------------
// Bucketed work queue keyed by distance.
// ---------------------------------------------------------------------------

/// Frontier states to explore, grouped into buckets by total distance; the
/// bucket list is kept sorted by strictly increasing distance and every
/// bucket is nonempty.
struct BucketQueue {
    buckets: Vec<(usize, Vec<(usize, u32)>)>,
}

impl BucketQueue {
    spec fn wf(self) -> bool {
        &&& forall|i: int, j: int|
            0 <= i < j < self.buckets@.len() ==> (#[trigger] self.buckets@[i]).0 < (
            #[trigger] self.buckets@[j]).0
        &&& forall|i: int| 0 <= i < self.buckets@.len() ==> (#[trigger] self.buckets@[i]).1@.len() >= 1
    }

    /// Some bucket at distance `d` holds state `(a, m)`.
    spec fn has_entry(self, d: int, a: int, m: u32) -> bool {
        exists|i: int, j: int|
            {
                &&& 0 <= i < self.buckets@.len()
                &&& 0 <= j < self.buckets@[i].1@.len()
                &&& self.buckets@[i].0 == d
                &&& (#[trigger] self.buckets@[i].1@[j]).0 == a
                &&& self.buckets@[i].1@[j].1 == m
            }
    }

    /// State `(a, m)` is queued at some distance at most `bound`.
    spec fn has_le(self, a: int, m: u32, bound: int) -> bool {
        exists|d: int| #![auto] d <= bound && self.has_entry(d, a, m)
    }

    /// Every queued bucket lies at distance at least `d`.
    spec fn all_ge(self, d: int) -> bool {
        forall|i: int| 0 <= i < self.buckets@.len() ==> (#[trigger] self.buckets@[i]).0 >= d
    }

    spec fn total(self) -> int {
        total_len(self.buckets@)
    }

    fn new() -> (r: Self)
        ensures
            r.wf(),
            r.buckets@.len() == 0,
            r.total() == 0,
            forall|d: int, a: int, m: u32| !r.has_entry(d, a, m),
    {
        BucketQueue { buckets: Vec::new() }
    }

    fn is_empty(&self) -> (r: bool)
        ensures
            r <==> self.buckets@.len() == 0,
    {
        self.buckets.is_empty()
    }

    fn push(&mut self, d: usize, a: usize, m: u32)
        requires
            old(self).wf(),
        ensures
            final(self).wf(),
            final(self).total() == old(self).total() + 1,
            final(self).has_entry(d as int, a as int, m),
            forall|dd: int, aa: int, mm: u32|
                #[trigger] old(self).has_entry(dd, aa, mm) ==> final(self).has_entry(dd, aa, mm),
            forall|dd: int, aa: int, mm: u32|
                #[trigger] final(self).has_entry(dd, aa, mm) ==> old(self).has_entry(dd, aa, mm)
                    || (dd == d && aa == a && mm == m),
            forall|x: int|
                #[trigger] old(self).all_ge(x) && x <= d ==> final(self).all_ge(x),
    {
        let ghost olds = self.buckets@;
        let n = self.buckets.len();
        let mut i: usize = 0;
        while i < n && self.buckets[i].0 < d
            invariant
                i <= n,
                n == self.buckets@.len(),
                self.buckets@ == olds,
                forall|j: int| 0 <= j < i ==> (#[trigger] self.buckets@[j]).0 < d,
            decreases n - i,
        {
            i = i + 1;
        }
        if i < n && self.buckets[i].0 == d {
            let mut entry = self.buckets.remove(i);
            let ghost oldstates = entry.1@;
            entry.1.push((a, m));
            self.buckets.insert(i, entry);
            proof {
                let news = self.buckets@;
                assert(news =~= olds.update(i as int, news[i as int]));
                assert(news[i as int].0 == d);
                assert(news[i as int].1@ =~= oldstates.push((a, m)));
                lemma_total_len_update(olds, i as int, news[i as int]);
                assert(self.wf()) by {
                    assert forall|x: int, y: int| 0 <= x < y < news.len() implies (
                    #[trigger] news[x]).0 < (#[trigger] news[y]).0 by {
                        assert(news[x].0 == olds[x].0);
                        assert(news[y].0 == olds[y].0);
                    }
                }
                assert(self.has_entry(d as int, a as int, m)) by {
                    assert(news[i as int].1@[oldstates.len() as int].0 == a);
                }
                assert forall|dd: int, aa: int, mm: u32| #[trigger] old(self).has_entry(dd, aa, mm)
                    implies self.has_entry(dd, aa, mm) by {
                    let (bi, bj) = choose|bi: int, bj: int|
                        {
                            &&& 0 <= bi < olds.len()
                            &&& 0 <= bj < olds[bi].1@.len()
                            &&& olds[bi].0 == dd
                            &&& (#[trigger] olds[bi].1@[bj]).0 == aa
                            &&& olds[bi].1@[bj].1 == mm
                        };
                    assert(news[bi].1@[bj].0 == aa && news[bi].1@[bj].1 == mm && news[bi].0 == dd);
                }
                assert forall|dd: int, aa: int, mm: u32| #[trigger] self.has_entry(dd, aa, mm)
                    implies old(self).has_entry(dd, aa, mm) || (dd == d && aa == a && mm == m) by {
                    let (bi, bj) = choose|bi: int, bj: int|
                        {
                            &&& 0 <= bi < news.len()
                            &&& 0 <= bj < news[bi].1@.len()
                            &&& news[bi].0 == dd
                            &&& (#[trigger] news[bi].1@[bj]).0 == aa
                            &&& news[bi].1@[bj].1 == mm
                        };
                    if bi == i as int && bj == oldstates.len() as int {
                        assert(dd == d && aa == a && mm == m);
                    } else {
                        assert(olds[bi].1@[bj].0 == aa && olds[bi].1@[bj].1 == mm && olds[bi].0
                            == dd);
                    }
                }
            }
        } else {
            let mut states: Vec<(usize, u32)> = Vec::new();
            states.push((a, m));
            self.buckets.insert(i, (d, states));
            proof {
                let news = self.buckets@;
                let nb = news[i as int];
                assert(news =~= olds.insert(i as int, nb));
                assert(nb.0 == d && nb.1@.len() == 1 && nb.1@[0].0 == a && nb.1@[0].1 == m);
                lemma_total_len_insert(olds, i as int, nb);
                assert(self.wf()) by {
                    assert forall|x: int, y: int| 0 <= x < y < news.len() implies (
                    #[trigger] news[x]).0 < (#[trigger] news[y]).0 by {
                        if y < i as int {
                            assert(news[x] == olds[x] && news[y] == olds[y]);
                        } else if x > i as int {
                            assert(news[x] == olds[x - 1] && news[y] == olds[y - 1]);
                        } else if x == i as int {
                            assert(news[y] == olds[y - 1]);
                            assert(olds[y - 1].0 >= d);
                            assert(olds[y - 1].0 != d);
                        } else if y == i as int {
                            assert(news[x] == olds[x]);
                            assert(olds[x].0 < d);
                        } else {
                            assert(x < i as int && y > i as int);
                            assert(news[x] == olds[x] && news[y] == olds[y - 1]);
                            assert(olds[y - 1].0 >= d);
                            assert(olds[x].0 < d);
                        }
                    }
                    assert forall|x: int| 0 <= x < news.len() implies (#[trigger] news[x]).1@.len()
                        >= 1 by {
                        if x < i as int {
                            assert(news[x] == olds[x]);
                        } else if x > i as int {
                            assert(news[x] == olds[x - 1]);
                        }
                    }
                }
                assert(self.has_entry(d as int, a as int, m)) by {
                    assert(news[i as int].1@[0].0 == a);
                }
                assert forall|dd: int, aa: int, mm: u32| #[trigger] old(self).has_entry(dd, aa, mm)
                    implies self.has_entry(dd, aa, mm) by {
                    let (bi, bj) = choose|bi: int, bj: int|
                        {
                            &&& 0 <= bi < olds.len()
                            &&& 0 <= bj < olds[bi].1@.len()
                            &&& olds[bi].0 == dd
                            &&& (#[trigger] olds[bi].1@[bj]).0 == aa
                            &&& olds[bi].1@[bj].1 == mm
                        };
                    if bi < i as int {
                        assert(news[bi].1@[bj].0 == aa && news[bi].1@[bj].1 == mm && news[bi].0
                            == dd);
                    } else {
                        assert(news[bi + 1] == olds[bi]);
                        assert(news[bi + 1].1@[bj].0 == aa && news[bi + 1].1@[bj].1 == mm && news[bi
                            + 1].0 == dd);
                    }
                }
                assert forall|dd: int, aa: int, mm: u32| #[trigger] self.has_entry(dd, aa, mm)
                    implies old(self).has_entry(dd, aa, mm) || (dd == d && aa == a && mm == m) by {
                    let (bi, bj) = choose|bi: int, bj: int|
                        {
                            &&& 0 <= bi < news.len()
                            &&& 0 <= bj < news[bi].1@.len()
                            &&& news[bi].0 == dd
                            &&& (#[trigger] news[bi].1@[bj]).0 == aa
                            &&& news[bi].1@[bj].1 == mm
                        };
                    if bi == i as int {
                        assert(dd == d && aa == a && mm == m);
                    } else if bi < i as int {
                        assert(olds[bi].1@[bj].0 == aa && olds[bi].1@[bj].1 == mm && olds[bi].0
                            == dd);
                    } else {
                        assert(news[bi] == olds[bi - 1]);
                        assert(olds[bi - 1].1@[bj].0 == aa && olds[bi - 1].1@[bj].1 == mm && olds[bi
                            - 1].0 == dd);
                    }
                }
            }
        }
    }

    fn pop_min(&mut self) -> (r: (usize, Vec<(usize, u32)>))
        requires
            old(self).wf(),
            old(self).buckets@.len() >= 1,
        ensures
            final(self).wf(),
            r.1@.len() >= 1,
            final(self).total() == old(self).total() - r.1@.len(),
            final(self).all_ge(r.0 + 1),
            forall|dd: int, aa: int, mm: u32|
                #[trigger] old(self).has_entry(dd, aa, mm) ==> dd >= r.0,
            forall|j: int|
                0 <= j < r.1@.len() ==> old(self).has_entry(
                    r.0 as int,
                    (#[trigger] r.1@[j]).0 as int,
                    r.1@[j].1,
                ),
            forall|dd: int, aa: int, mm: u32|
                #[trigger] final(self).has_entry(dd, aa, mm) ==> old(self).has_entry(dd, aa, mm)
                    && dd > r.0,
            forall|dd: int, aa: int, mm: u32|
                #[trigger] old(self).has_entry(dd, aa, mm) && dd != r.0 ==> final(self).has_entry(
                    dd,
                    aa,
                    mm,
                ),
            forall|aa: int, mm: u32|
                #[trigger] old(self).has_entry(r.0 as int, aa, mm) ==> exists|j: int|
                    0 <= j < r.1@.len() && (#[trigger] r.1@[j]).0 == aa && r.1@[j].1 == mm,
    {
        let ghost olds = self.buckets@;
        let b = self.buckets.remove(0);
        proof {
            let news = self.buckets@;
            assert(news =~= olds.drop_first());
            lemma_total_len_first(olds);
            assert(self.wf()) by {
                assert forall|x: int, y: int| 0 <= x < y < news.len() implies (
                #[trigger] news[x]).0 < (#[trigger] news[y]).0 by {
                    assert(news[x] == olds[x + 1] && news[y] == olds[y + 1]);
                }
                assert forall|x: int| 0 <= x < news.len() implies (#[trigger] news[x]).1@.len()
                    >= 1 by {
                    assert(news[x] == olds[x + 1]);
                }
            }
            assert forall|x: int| 0 <= x < news.len() implies (#[trigger] news[x]).0 >= b.0 + 1 by {
                assert(news[x] == olds[x + 1]);
                assert(olds[0].0 < olds[x + 1].0);
            }
            assert forall|dd: int, aa: int, mm: u32| #[trigger] old(self).has_entry(dd, aa, mm)
                implies dd >= b.0 by {
                let (bi, bj) = choose|bi: int, bj: int|
                    {
                        &&& 0 <= bi < olds.len()
                        &&& 0 <= bj < olds[bi].1@.len()
                        &&& olds[bi].0 == dd
                        &&& (#[trigger] olds[bi].1@[bj]).0 == aa
                        &&& olds[bi].1@[bj].1 == mm
                    };
                if bi > 0 {
                    assert(olds[0].0 < olds[bi].0);
                }
            }
            assert forall|j: int| 0 <= j < b.1@.len() implies old(self).has_entry(
                b.0 as int,
                (#[trigger] b.1@[j]).0 as int,
                b.1@[j].1,
            ) by {
                assert(olds[0].1@[j].0 == b.1@[j].0 as int && olds[0].1@[j].1 == b.1@[j].1);
            }
            assert forall|dd: int, aa: int, mm: u32| #[trigger] self.has_entry(dd, aa, mm)
                implies old(self).has_entry(dd, aa, mm) && dd > b.0 by {
                let (bi, bj) = choose|bi: int, bj: int|
                    {
                        &&& 0 <= bi < news.len()
                        &&& 0 <= bj < news[bi].1@.len()
                        &&& news[bi].0 == dd
                        &&& (#[trigger] news[bi].1@[bj]).0 == aa
                        &&& news[bi].1@[bj].1 == mm
                    };
                assert(news[bi] == olds[bi + 1]);
                assert(olds[bi + 1].1@[bj].0 == aa && olds[bi + 1].1@[bj].1 == mm && olds[bi
                    + 1].0 == dd);
                assert(olds[0].0 < olds[bi + 1].0);
            }
            assert forall|dd: int, aa: int, mm: u32|
                #[trigger] old(self).has_entry(dd, aa, mm) && dd != b.0 implies self.has_entry(
                dd,
                aa,
                mm,
            ) by {
                let (bi, bj) = choose|bi: int, bj: int|
                    {
                        &&& 0 <= bi < olds.len()
                        &&& 0 <= bj < olds[bi].1@.len()
                        &&& olds[bi].0 == dd
                        &&& (#[trigger] olds[bi].1@[bj]).0 == aa
                        &&& olds[bi].1@[bj].1 == mm
                    };
                assert(bi != 0);
                assert(news[bi - 1] == olds[bi]);
                assert(news[bi - 1].1@[bj].0 == aa && news[bi - 1].1@[bj].1 == mm && news[bi
                    - 1].0 == dd);
            }
            assert forall|aa: int, mm: u32| #[trigger] old(self).has_entry(b.0 as int, aa, mm)
                implies exists|j: int|
                0 <= j < b.1@.len() && (#[trigger] b.1@[j]).0 == aa && b.1@[j].1 == mm by {
                let (bi, bj) = choose|bi: int, bj: int|
                    {
                        &&& 0 <= bi < olds.len()
                        &&& 0 <= bj < olds[bi].1@.len()
                        &&& olds[bi].0 == b.0 as int
                        &&& (#[trigger] olds[bi].1@[bj]).0 == aa
                        &&& olds[bi].1@[bj].1 == mm
                    };
                if bi > 0 {
                    assert(olds[0].0 < olds[bi].0);
                }
                assert(bi == 0);
                assert(b.1@[bj].0 == aa && b.1@[bj].1 == mm);
            }
        }
        b
    }
}

// ---------------------------------------------------------------------------
// Search invariants.
// ---------------------------------------------------------------------------

/// State `(a, m)` is reachable at total distance at most `bound` through the
/// queue, through the not-yet-processed tail of the popped bucket (whose
/// distance is `d`), or through an already-settled state.
#[verifier::opaque]
spec fn covered(
    work: BucketQueue,
    states: Seq<(usize, u32)>,
    i: int,
    d: int,
    done: Map<(int, u32), int>,
    a: int,
    m: u32,
    bound: int,
) -> bool {
    ||| work.has_le(a, m, bound)
    ||| (d <= bound && exists|j: int|
        i <= j < states.len() && (#[trigger] states[j]).0 == a && states[j].1 == m)
    ||| (done.contains_key((a, m)) && done[(a, m)] <= bound)
}

/// Every queued state was reached by an actual walk of exactly its distance.
spec fn queue_sound(
    gem: Seq<Seq<Edge>>,
    full: u32,
    start: int,
    init: u32,
    base: int,
    work: BucketQueue,
) -> bool {
    forall|dd: int, aa: int, mm: u32|
        #[trigger] work.has_entry(dd, aa, mm) ==> base <= dd <= usize::MAX && 0 <= aa < gem.len()
            && has_walk(gem, full, start, init, aa, mm, dd - base)
}

/// Every not-yet-processed state of the popped bucket was reached by a walk
/// of exactly the bucket distance.
spec fn rest_sound(
    gem: Seq<Seq<Edge>>,
    full: u32,
    start: int,
    init: u32,
    base: int,
    states: Seq<(usize, u32)>,
    i: int,
    d: int,
) -> bool {
    &&& (i < states.len() ==> base <= d <= usize::MAX)
    &&& forall|j: int|
        #![trigger states[j]]
        i <= j < states.len() ==> states[j].0 < gem.len() && has_walk(
            gem,
            full,
            start,
            init,
            states[j].0 as int,
            states[j].1,
            d - base,
        )
}

/// Every settled state was reached by a walk of exactly its settle distance.
spec fn done_sound(
    gem: Seq<Seq<Edge>>,
    full: u32,
    start: int,
    init: u32,
    base: int,
    done: Map<(int, u32), int>,
) -> bool {
    forall|s: (int, u32)|
        #[trigger] done.contains_key(s) ==> 0 <= s.0 < gem.len() && base <= done[s] <= usize::MAX
            && has_walk(gem, full, start, init, s.0, s.1, done[s] - base)
}

/// Every allowed step out of a settled state leads somewhere already covered
/// at the stepped distance, unless that distance overflows.
#[verifier::opaque]
spec fn done_relaxed(
    gem: Seq<Seq<Edge>>,
    full: u32,
    start: int,
    work: BucketQueue,
    states: Seq<(usize, u32)>,
    i: int,
    d: int,
    done: Map<(int, u32), int>,
) -> bool {
    forall|s: (int, u32), e: Edge|
        #[trigger] done.contains_key(s) && #[trigger] step_allowed(gem, full, start, s.0, s.1, e)
            ==> done[s] + e.dist > usize::MAX || covered(
            work,
            states,
            i,
            d,
            done,
            e.to as int,
            mask_step(s.1, full, e),
            done[s] + e.dist,
        )
}

/// Every recorded distance is witnessed by a queue entry, a pending state, or
/// a settled state at most that distance.
#[verifier::opaque]
spec fn seen_linked(
    work: BucketQueue,
    states: Seq<(usize, u32)>,
    i: int,
    d: int,
    done: Map<(int, u32), int>,
    seen: DistTable,
) -> bool {
    forall|a: int, m: u32|
        0 <= a < 0x1_0000_0000 && (#[trigger] seen.spec_get(key_of(a, m) as u64)) is Some
            ==> covered(
            work,
            states,
            i,
            d,
            done,
            a,
            m,
            seen.spec_get(key_of(a, m) as u64)->Some_0 as int,
        )
}

/// Every walk from the start state has a prefix whose end state is covered at
/// the prefix cost.
#[verifier::opaque]
spec fn walks_covered(
    gem: Seq<Seq<Edge>>,
    full: u32,
    start: int,
    init: u32,
    base: int,
    work: BucketQueue,
    states: Seq<(usize, u32)>,
    i: int,
    d: int,
    done: Map<(int, u32), int>,
) -> bool {
    forall|w: Seq<Edge>|
        #[trigger] walk_ok(gem, full, start, init, w) ==> exists|k: int|
            0 <= k <= w.len() && #[trigger] covered(
                work,
                states,
                i,
                d,
                done,
                walk_at(start, w, k),
                walk_mask(init, full, w, k),
                base + walk_cost(w, k),
            )
}

/// Covers carry over to a wider bound, an extended queue, and a lowered
/// settled map.
proof fn lemma_covered_extend(
    work1: BucketQueue,
    work2: BucketQueue,
    states: Seq<(usize, u32)>,
    i: int,
    d: int,
    done1: Map<(int, u32), int>,
    done2: Map<(int, u32), int>,
    a: int,
    m: u32,
    b1: int,
    b2: int,
)
    requires
        covered(work1, states, i, d, done1, a, m, b1),
        b1 <= b2,
        forall|dd: int, aa: int, mm: u32|
            #[trigger] work1.has_entry(dd, aa, mm) ==> work2.has_entry(dd, aa, mm),
        forall|s: (int, u32)|
            #[trigger] done1.contains_key(s) ==> done2.contains_key(s) && done2[s] <= done1[s],
    ensures
        covered(work2, states, i, d, done2, a, m, b2),
{
    reveal(covered);
    if work1.has_le(a, m, b1) {
        let dd = choose|dd: int| dd <= b1 && work1.has_entry(dd, a, m);
        assert(work2.has_entry(dd, a, m));
        assert(dd <= b2);
    }
}

/// A cover at index `i` survives settling `states[i]`.
proof fn lemma_covered_settle(
    work: BucketQueue,
    states: Seq<(usize, u32)>,
    i: int,
    d: int,
    done1: Map<(int, u32), int>,
    done2: Map<(int, u32), int>,
    a: int,
    m: u32,
    bound: int,
)
    requires
        covered(work, states, i, d, done1, a, m, bound),
        0 <= i < states.len(),
        forall|s: (int, u32)|
            #[trigger] done1.contains_key(s) ==> done2.contains_key(s) && done2[s] <= done1[s],
        done2.contains_key((states[i].0 as int, states[i].1)),
        done2[(states[i].0 as int, states[i].1)] <= d,
    ensures
        covered(work, states, i + 1, d, done2, a, m, bound),
{
    reveal(covered);
    if !work.has_le(a, m, bound) && !(done1.contains_key((a, m)) && done1[(a, m)] <= bound) {
        let j = choose|j: int|
            i <= j < states.len() && (#[trigger] states[j]).0 == a && states[j].1 == m;
        if j == i {
            assert(done2.contains_key((a, m)) && done2[(a, m)] <= d <= bound);
        }
    }
}

/// Any complete tour costs at least the distance of the bucket now being
/// processed: chase the covering prefix; it either exits into the queue or
/// the pending bucket (both at distance at least `d`), oversteps the distance
/// type, or walks settled states all the way to the goal, which is never
/// settled.
proof fn lemma_goal_floor(
    gem: Seq<Seq<Edge>>,
    full: u32,
    start: int,
    init: u32,
    base: int,
    work: BucketQueue,
    states: Seq<(usize, u32)>,
    i: int,
    d: int,
    done: Map<(int, u32), int>,
    w: Seq<Edge>,
    k: int,
)
    requires
        walk_ok(gem, full, start, init, w),
        walk_at(start, w, w.len() as int) == start,
        walk_mask(init, full, w, w.len() as int) == full,
        !done.contains_key((start, full)),
        done_relaxed(gem, full, start, work, states, i, d, done),
        work.all_ge(d),
        d <= usize::MAX + 1,
        0 <= k <= w.len(),
        covered(
            work,
            states,
            i,
            d,
            done,
            walk_at(start, w, k),
            walk_mask(init, full, w, k),
            base + walk_cost(w, k),
        ),
    ensures
        base + walk_cost(w, w.len() as int) >= d,
    decreases w.len() - k,
{
    reveal(covered);
    reveal(done_relaxed);
    let a = walk_at(start, w, k);
    let m = walk_mask(init, full, w, k);
    let bound = base + walk_cost(w, k);
    lemma_cost_mono(w, k, w.len() as int);
    if work.has_le(a, m, bound) {
        let dd = choose|dd: int| dd <= bound && work.has_entry(dd, a, m);
        let (bi, bj) = choose|bi: int, bj: int|
            {
                &&& 0 <= bi < work.buckets@.len()
                &&& 0 <= bj < work.buckets@[bi].1@.len()
                &&& work.buckets@[bi].0 == dd
                &&& (#[trigger] work.buckets@[bi].1@[bj]).0 == a
                &&& work.buckets@[bi].1@[bj].1 == m
            };
        assert(work.buckets@[bi].0 >= d);
    } else if d <= bound && exists|j: int|
        i <= j < states.len() && (#[trigger] states[j]).0 == a && states[j].1 == m {
    } else {
        assert(done.contains_key((a, m)) && done[(a, m)] <= bound);
        if k == w.len() {
            assert(a == start && m == full);
            assert(false);
        } else {
            let e = w[k];
            assert(step_allowed(gem, full, start, a, m, e));
            let s: (int, u32) = (a, m);
            assert(done.contains_key(s) && step_allowed(gem, full, start, s.0, s.1, e));
            if done[s] + e.dist > usize::MAX {
                assert(base + walk_cost(w, k + 1) == bound + e.dist >= done[s] + e.dist);
                lemma_cost_mono(w, k + 1, w.len() as int);
            } else {
                assert(covered(
                    work,
                    states,
                    i,
                    d,
                    done,
                    e.to as int,
                    mask_step(m, full, e),
                    done[s] + e.dist,
                ));
                lemma_covered_extend(
                    work,
                    work,
                    states,
                    i,
                    d,
                    done,
                    done,
                    e.to as int,
                    mask_step(m, full, e),
                    done[s] + e.dist,
                    base + walk_cost(w, k + 1),
                );
                assert(walk_at(start, w, k + 1) == e.to as int);
                assert(walk_mask(init, full, w, k + 1) == mask_step(m, full, e));
                lemma_goal_floor(
                    gem,
                    full,
                    start,
                    init,
                    base,
                    work,
                    states,
                    i,
                    d,
                    done,
                    w,
                    k + 1,
                );
            }
        }
    }
}

/// Keys can only run out when the table already holds every packed state.
proof fn lemma_table_capacity(s: Seq<(u64, usize)>, k: u64, bound: int)
    requires
        keys_distinct(s),
        forall|i: int| 0 <= i < s.len() ==> (#[trigger] s[i]).0 < bound,
        k < bound,
        forall|i: int| 0 <= i < s.len() ==> (#[trigger] s[i]).0 != k,
        0 <= bound,
    ensures
        s.len() + 1 <= bound,
{
    let keys = s.map_values(|p: (u64, usize)| p.0 as int).push(k as int);
    assert(keys.len() == s.len() + 1);
    assert forall|x: int, y: int| 0 <= x < y < keys.len() implies keys[x] != keys[y] by {
        if y < s.len() {
            assert(s[x].0 != s[y].0);
        } else {
            assert(keys[y] == k as int);
            assert(s[x].0 != k);
        }
    }
    assert(keys.no_duplicates());
    keys.unique_seq_to_set();
    vstd::set_lib::lemma_int_range(0, bound);
    assert(keys.to_set().subset_of(vstd::set_lib::set_int_range(0, bound))) by {
        assert forall|x: int| keys.to_set().contains(x) implies vstd::set_lib::set_int_range(
            0,
            bound,
        ).contains(x) by {
            let idx = choose|idx: int| 0 <= idx < keys.len() && keys[idx] == x;
            if idx < s.len() {
                assert(s[idx].0 < bound);
            }
        }
    }
    vstd::set_lib::lemma_len_subset(
        keys.to_set(),
        vstd::set_lib::set_int_range(0, bound),
    );
}

/// Covers survive a pop: entries of the popped bucket are now pending states,
/// all other entries stay queued.
proof fn lemma_covered_pop(
    work_old: BucketQueue,
    work_new: BucketQueue,
    states: Seq<(usize, u32)>,
    d: int,
    done: Map<(int, u32), int>,
    a: int,
    m: u32,
    bound: int,
)
    requires
        covered(work_old, Seq::<(usize, u32)>::empty(), 0, 0, done, a, m, bound),
        forall|aa: int, mm: u32|
            #[trigger] work_old.has_entry(d, aa, mm) ==> exists|j: int|
                0 <= j < states.len() && (#[trigger] states[j]).0 == aa && states[j].1 == mm,
        forall|dd: int, aa: int, mm: u32|
            #[trigger] work_old.has_entry(dd, aa, mm) && dd != d ==> work_new.has_entry(
                dd,
                aa,
                mm,
            ),
        forall|dd: int, aa: int, mm: u32| #[trigger] work_old.has_entry(dd, aa, mm) ==> dd >= d,
    ensures
        covered(work_new, states, 0, d, done, a, m, bound),
{
    reveal(covered);
    if work_old.has_le(a, m, bound) {
        let dd = choose|dd: int| dd <= bound && work_old.has_entry(dd, a, m);
        if dd == d {
            assert(exists|j: int|
                0 <= j < states.len() && (#[trigger] states[j]).0 == a && states[j].1 == m);
        } else {
            assert(work_new.has_entry(dd, a, m));
        }
    }
}

// ---------------------------------------------------------------------------
// The search itself.
// ---------------------------------------------------------------------------

/// The first `j` edges out of `at` have been relaxed for a state holding `m`
/// at distance `d`: each allowed one is covered at its stepped distance or
/// oversteps the distance type.
#[verifier::opaque]
spec fn relaxed_upto(
    gem: Seq<Seq<Edge>>,
    full: u32,
    start: int,
    work: BucketQueue,
    states: Seq<(usize, u32)>,
    i: int,
    d: int,
    done: Map<(int, u32), int>,
    at: int,
    m: u32,
    j: int,
) -> bool {
    forall|jj: int|
        0 <= jj < j && step_allowed(gem, full, start, at, m, #[trigger] gem[at][jj]) ==> d
            + gem[at][jj].dist > usize::MAX || covered(
            work,
            states,
            i,
            d,
            done,
            gem[at][jj].to as int,
            mask_step(m, full, gem[at][jj]),
            d + gem[at][jj].dist,
        )
}

/// All invariants hold of a freshly seeded search.
proof fn lemma_init(
    gem: Seq<Seq<Edge>>,
    full: u32,
    start: int,
    init: u32,
    base: int,
    work: BucketQueue,
    done: Map<(int, u32), int>,
    seen: DistTable,
)
    requires
        0 <= start < gem.len(),
        0 <= base <= usize::MAX,
        work.has_entry(base, start, init),
        forall|dd: int, aa: int, mm: u32|
            #[trigger] work.has_entry(dd, aa, mm) ==> dd == base && aa == start && mm == init,
        done == Map::<(int, u32), int>::empty(),
        forall|k: u64| seen.spec_get(k) == Option::None::<usize>,
    ensures
        queue_sound(gem, full, start, init, base, work),
        done_sound(gem, full, start, init, base, done),
        done_relaxed(gem, full, start, work, Seq::<(usize, u32)>::empty(), 0, 0, done),
        seen_linked(work, Seq::<(usize, u32)>::empty(), 0, 0, done, seen),
        walks_covered(
            gem,
            full,
            start,
            init,
            base,
            work,
            Seq::<(usize, u32)>::empty(),
            0,
            0,
            done,
        ),
{
    reveal(done_relaxed);
    reveal(seen_linked);
    reveal(walks_covered);
    reveal(covered);
    lemma_walk_empty(gem, full, start, init);
    assert forall|dd: int, aa: int, mm: u32| #[trigger] work.has_entry(dd, aa, mm) implies base
        <= dd <= usize::MAX && 0 <= aa < gem.len() && has_walk(gem, full, start, init, aa, mm, dd
        - base) by {
        assert(dd == base && aa == start && mm == init);
    }
    assert forall|w: Seq<Edge>| #[trigger] walk_ok(gem, full, start, init, w) implies exists|k: int|
        0 <= k <= w.len() && #[trigger] covered(
            work,
            Seq::<(usize, u32)>::empty(),
            0,
            0,
            done,
            walk_at(start, w, k),
            walk_mask(init, full, w, k),
            base + walk_cost(w, k),
        ) by {
        assert(work.has_le(start, init, base + walk_cost(w, 0)));
        assert(covered(
            work,
            Seq::<(usize, u32)>::empty(),
            0,
            0,
            done,
            walk_at(start, w, 0),
            walk_mask(init, full, w, 0),
            base + walk_cost(w, 0),
        ));
    }
}

/// The popped bucket's states are sound pending work.
proof fn lemma_pop_rest_sound(
    gem: Seq<Seq<Edge>>,
    full: u32,
    start: int,
    init: u32,
    base: int,
    w0: BucketQueue,
    d: int,
    states: Seq<(usize, u32)>,
)
    requires
        queue_sound(gem, full, start, init, base, w0),
        forall|j: int|
            0 <= j < states.len() ==> w0.has_entry(d, (#[trigger] states[j]).0 as int, states[j].1),
    ensures
        rest_sound(gem, full, start, init, base, states, 0, d),
{
    if 0 < states.len() {
        assert(w0.has_entry(d, states[0].0 as int, states[0].1));
    }
    assert forall|j: int|
        #![trigger states[j]]
        0 <= j < states.len() implies states[j].0 < gem.len() && has_walk(
        gem,
        full,
        start,
        init,
        states[j].0 as int,
        states[j].1,
        d - base,
    ) by {
        assert(w0.has_entry(d, states[j].0 as int, states[j].1));
    }
}

/// Queued states stay sound when a bucket leaves the queue.
proof fn lemma_pop_queue_sound(
    gem: Seq<Seq<Edge>>,
    full: u32,
    start: int,
    init: u32,
    base: int,
    w0: BucketQueue,
    w1: BucketQueue,
)
    requires
        queue_sound(gem, full, start, init, base, w0),
        forall|dd: int, aa: int, mm: u32|
            #[trigger] w1.has_entry(dd, aa, mm) ==> w0.has_entry(dd, aa, mm),
    ensures
        queue_sound(gem, full, start, init, base, w1),
{
}

/// Every cover survives a pop.
proof fn lemma_pop_covers(
    gem: Seq<Seq<Edge>>,
    full: u32,
    start: int,
    init: u32,
    base: int,
    w0: BucketQueue,
    w1: BucketQueue,
    d: int,
    states: Seq<(usize, u32)>,
    done: Map<(int, u32), int>,
    seen: DistTable,
)
    requires
        done_relaxed(gem, full, start, w0, Seq::<(usize, u32)>::empty(), 0, 0, done),
        seen_linked(w0, Seq::<(usize, u32)>::empty(), 0, 0, done, seen),
        walks_covered(
            gem,
            full,
            start,
            init,
            base,
            w0,
            Seq::<(usize, u32)>::empty(),
            0,
            0,
            done,
        ),
        forall|aa: int, mm: u32|
            #[trigger] w0.has_entry(d, aa, mm) ==> exists|j: int|
                0 <= j < states.len() && (#[trigger] states[j]).0 == aa && states[j].1 == mm,
        forall|dd: int, aa: int, mm: u32|
            #[trigger] w0.has_entry(dd, aa, mm) && dd != d ==> w1.has_entry(dd, aa, mm),
        forall|dd: int, aa: int, mm: u32| #[trigger] w0.has_entry(dd, aa, mm) ==> dd >= d,
    ensures
        done_relaxed(gem, full, start, w1, states, 0, d, done),
        seen_linked(w1, states, 0, d, done, seen),
        walks_covered(gem, full, start, init, base, w1, states, 0, d, done),
{
    reveal(done_relaxed);
    reveal(seen_linked);
    reveal(walks_covered);
    assert forall|s: (int, u32), e: Edge|
        #[trigger] done.contains_key(s) && #[trigger] step_allowed(gem, full, start, s.0, s.1, e)
            && done[s] + e.dist <= usize::MAX implies covered(
        w1,
        states,
        0,
        d,
        done,
        e.to as int,
        mask_step(s.1, full, e),
        done[s] + e.dist,
    ) by {
        lemma_covered_pop(
            w0,
            w1,
            states,
            d,
            done,
            e.to as int,
            mask_step(s.1, full, e),
            done[s] + e.dist,
        );
    }
    assert forall|a: int, m: u32|
        0 <= a < 0x1_0000_0000 && (#[trigger] seen.spec_get(key_of(a, m) as u64)) is Some
            implies covered(
        w1,
        states,
        0,
        d,
        done,
        a,
        m,
        seen.spec_get(key_of(a, m) as u64)->Some_0 as int,
    ) by {
        lemma_covered_pop(
            w0,
            w1,
            states,
            d,
            done,
            a,
            m,
            seen.spec_get(key_of(a, m) as u64)->Some_0 as int,
        );
    }
    assert forall|w: Seq<Edge>| #[trigger] walk_ok(gem, full, start, init, w) implies exists|k: int|
        0 <= k <= w.len() && #[trigger] covered(
            w1,
            states,
            0,
            d,
            done,
            walk_at(start, w, k),
            walk_mask(init, full, w, k),
            base + walk_cost(w, k),
        ) by {
        let k = choose|k: int|
            0 <= k <= w.len() && #[trigger] covered(
                w0,
                Seq::<(usize, u32)>::empty(),
                0,
                0,
                done,
                walk_at(start, w, k),
                walk_mask(init, full, w, k),
                base + walk_cost(w, k),
            );
        lemma_covered_pop(
            w0,
            w1,
            states,
            d,
            done,
            walk_at(start, w, k),
            walk_mask(init, full, w, k),
            base + walk_cost(w, k),
        );
    }
}

/// The pending state at index `i` is backed by a walk of cost `d - base`.
proof fn lemma_rest_at(
    gem: Seq<Seq<Edge>>,
    full: u32,
    start: int,
    init: u32,
    base: int,
    states: Seq<(usize, u32)>,
    i: int,
    d: int,
)
    requires
        rest_sound(gem, full, start, init, base, states, i, d),
        0 <= i < states.len(),
    ensures
        base <= d <= usize::MAX,
        states[i].0 < gem.len(),
        has_walk(gem, full, start, init, states[i].0 as int, states[i].1, d - base),
{
    assert(states[i].0 >= 0);
}

/// Pending soundness is kept as the processed index advances.
proof fn lemma_rest_advance(
    gem: Seq<Seq<Edge>>,
    full: u32,
    start: int,
    init: u32,
    base: int,
    states: Seq<(usize, u32)>,
    i: int,
    d: int,
)
    requires
        rest_sound(gem, full, start, init, base, states, i, d),
    ensures
        rest_sound(gem, full, start, init, base, states, i + 1, d),
{
    assert forall|j: int|
        #![trigger states[j]]
        i + 1 <= j < states.len() implies states[j].0 < gem.len() && has_walk(
        gem,
        full,
        start,
        init,
        states[j].0 as int,
        states[j].1,
        d - base,
    ) by {
        assert(i <= j < states.len());
    }
}

/// Before any edge is relaxed, the relaxed range is empty.
proof fn lemma_relaxed_upto_zero(
    gem: Seq<Seq<Edge>>,
    full: u32,
    start: int,
    work: BucketQueue,
    states: Seq<(usize, u32)>,
    i: int,
    d: int,
    done: Map<(int, u32), int>,
    at: int,
    m: u32,
)
    ensures
        relaxed_upto(gem, full, start, work, states, i, d, done, at, m, 0),
{
    reveal(relaxed_upto);
}

/// The new queue entry pushed by a relaxation is backed by a walk.
proof fn lemma_relax_queue_sound(
    gem: Seq<Seq<Edge>>,
    full: u32,
    start: int,
    init: u32,
    base: int,
    w0: BucketQueue,
    w1: BucketQueue,
    at: int,
    m: u32,
    e: Edge,
    d: int,
    nd: usize,
    nm: u32,
)
    requires
        queue_sound(gem, full, start, init, base, w0),
        step_allowed(gem, full, start, at, m, e),
        nm == mask_step(m, full, e),
        base <= d <= usize::MAX,
        nd == d + e.dist,
        wf_edges(gem),
        has_walk(gem, full, start, init, at, m, d - base),
        forall|dd: int, aa: int, mm: u32|
            #[trigger] w1.has_entry(dd, aa, mm) ==> w0.has_entry(dd, aa, mm) || (dd == nd as int
                && aa == e.to as int && mm == nm),
    ensures
        queue_sound(gem, full, start, init, base, w1),
        has_walk(gem, full, start, init, e.to as int, nm, nd - base),
{
    let wt = choose|w: Seq<Edge>|
        {
            &&& #[trigger] walk_ok(gem, full, start, init, w)
            &&& walk_at(start, w, w.len() as int) == at
            &&& walk_mask(init, full, w, w.len() as int) == m
            &&& walk_cost(w, w.len() as int) == d - base
        };
    lemma_walk_push(gem, full, start, init, wt, e);
    assert(has_walk(gem, full, start, init, e.to as int, nm, nd - base)) by {
        let w2 = wt.push(e);
        assert(walk_ok(gem, full, start, init, w2));
        assert(walk_at(start, w2, w2.len() as int) == e.to as int);
        assert(walk_mask(init, full, w2, w2.len() as int) == nm);
        assert(walk_cost(w2, w2.len() as int) == nd - base);
    }
    assert forall|dd: int, aa: int, mm: u32| #[trigger] w1.has_entry(dd, aa, mm) implies base <= dd
        <= usize::MAX && 0 <= aa < gem.len() && has_walk(gem, full, start, init, aa, mm, dd - base)
        by {
        if !w0.has_entry(dd, aa, mm) {
            assert(dd == nd as int && aa == e.to as int && mm == nm);
        }
    }
}

/// Settled-state relaxations survive a queue extension.
proof fn lemma_extend_done_relaxed(
    gem: Seq<Seq<Edge>>,
    full: u32,
    start: int,
    w0: BucketQueue,
    w1: BucketQueue,
    states: Seq<(usize, u32)>,
    i: int,
    d: int,
    done: Map<(int, u32), int>,
)
    requires
        done_relaxed(gem, full, start, w0, states, i, d, done),
        forall|dd: int, aa: int, mm: u32|
            #[trigger] w0.has_entry(dd, aa, mm) ==> w1.has_entry(dd, aa, mm),
    ensures
        done_relaxed(gem, full, start, w1, states, i, d, done),
{
    reveal(done_relaxed);
    assert forall|s: (int, u32), e2: Edge|
        #[trigger] done.contains_key(s) && #[trigger] step_allowed(gem, full, start, s.0, s.1, e2)
            && done[s] + e2.dist <= usize::MAX implies covered(
        w1,
        states,
        i,
        d,
        done,
        e2.to as int,
        mask_step(s.1, full, e2),
        done[s] + e2.dist,
    ) by {
        lemma_covered_extend(
            w0,
            w1,
            states,
            i,
            d,
            done,
            done,
            e2.to as int,
            mask_step(s.1, full, e2),
            done[s] + e2.dist,
            done[s] + e2.dist,
        );
    }
}

/// The distance table stays linked after recording an improved distance and
/// queueing its state.
proof fn lemma_relax_seen_linked(
    w0: BucketQueue,
    w1: BucketQueue,
    states: Seq<(usize, u32)>,
    i: int,
    d: int,
    done: Map<(int, u32), int>,
    s0: DistTable,
    s1: DistTable,
    eto: int,
    nm: u32,
    nd: usize,
    key: u64,
)
    requires
        seen_linked(w0, states, i, d, done, s0),
        0 <= eto < 0x1_0000_0000,
        key == key_of(eto, nm),
        s1.spec_get(key) == Option::Some(nd),
        forall|k2: u64| k2 != key ==> s1.spec_get(k2) == s0.spec_get(k2),
        w1.has_entry(nd as int, eto, nm),
        forall|dd: int, aa: int, mm: u32|
            #[trigger] w0.has_entry(dd, aa, mm) ==> w1.has_entry(dd, aa, mm),
    ensures
        seen_linked(w1, states, i, d, done, s1),
{
    reveal(seen_linked);
    assert forall|a2: int, m2: u32|
        0 <= a2 < 0x1_0000_0000 && (#[trigger] s1.spec_get(key_of(a2, m2) as u64)) is Some
            implies covered(
        w1,
        states,
        i,
        d,
        done,
        a2,
        m2,
        s1.spec_get(key_of(a2, m2) as u64)->Some_0 as int,
    ) by {
        assert(0 <= key_of(a2, m2) < 0x1_0000_0000_0000_0000);
        if key_of(a2, m2) as u64 == key {
            lemma_key_injective(a2, m2, eto, nm);
            assert(covered(w1, states, i, d, done, a2, m2, nd as int)) by {
                reveal(covered);
                assert(w1.has_le(a2, m2, nd as int));
            }
        } else {
            assert(s1.spec_get(key_of(a2, m2) as u64) == s0.spec_get(key_of(a2, m2) as u64));
            lemma_covered_extend(
                w0,
                w1,
                states,
                i,
                d,
                done,
                done,
                a2,
                m2,
                s0.spec_get(key_of(a2, m2) as u64)->Some_0 as int,
                s1.spec_get(key_of(a2, m2) as u64)->Some_0 as int,
            );
        }
    }
}

/// Walk covers survive a queue extension.
proof fn lemma_extend_walks_covered(
    gem: Seq<Seq<Edge>>,
    full: u32,
    start: int,
    init: u32,
    base: int,
    w0: BucketQueue,
    w1: BucketQueue,
    states: Seq<(usize, u32)>,
    i: int,
    d: int,
    done: Map<(int, u32), int>,
)
    requires
        walks_covered(gem, full, start, init, base, w0, states, i, d, done),
        forall|dd: int, aa: int, mm: u32|
            #[trigger] w0.has_entry(dd, aa, mm) ==> w1.has_entry(dd, aa, mm),
    ensures
        walks_covered(gem, full, start, init, base, w1, states, i, d, done),
{
    reveal(walks_covered);
    assert forall|w: Seq<Edge>| #[trigger] walk_ok(gem, full, start, init, w) implies exists|k: int|
        0 <= k <= w.len() && #[trigger] covered(
            w1,
            states,
            i,
            d,
            done,
            walk_at(start, w, k),
            walk_mask(init, full, w, k),
            base + walk_cost(w, k),
        ) by {
        let k = choose|k: int|
            0 <= k <= w.len() && #[trigger] covered(
                w0,
                states,
                i,
                d,
                done,
                walk_at(start, w, k),
                walk_mask(init, full, w, k),
                base + walk_cost(w, k),
            );
        lemma_covered_extend(
            w0,
            w1,
            states,
            i,
            d,
            done,
            done,
            walk_at(start, w, k),
            walk_mask(init, full, w, k),
            base + walk_cost(w, k),
            base + walk_cost(w, k),
        );
    }
}

/// One more edge is relaxed: the new queue entry covers it, earlier ones
/// carry over.
proof fn lemma_relax_upto_push(
    gem: Seq<Seq<Edge>>,
    full: u32,
    start: int,
    w0: BucketQueue,
    w1: BucketQueue,
    states: Seq<(usize, u32)>,
    i: int,
    d: int,
    done: Map<(int, u32), int>,
    at: int,
    m: u32,
    e: Edge,
    j: int,
    nd: usize,
    nm: u32,
)
    requires
        relaxed_upto(gem, full, start, w0, states, i, d, done, at, m, j),
        0 <= at < gem.len(),
        0 <= j < gem[at].len(),
        gem[at][j] == e,
        nm == mask_step(m, full, e),
        nd == d + e.dist,
        w1.has_entry(nd as int, e.to as int, nm),
        forall|dd: int, aa: int, mm: u32|
            #[trigger] w0.has_entry(dd, aa, mm) ==> w1.has_entry(dd, aa, mm),
    ensures
        relaxed_upto(gem, full, start, w1, states, i, d, done, at, m, j + 1),
{
    reveal(relaxed_upto);
    assert forall|jj: int|
        0 <= jj < j + 1 && step_allowed(gem, full, start, at, m, #[trigger] gem[at][jj]) implies d
        + gem[at][jj].dist > usize::MAX || covered(
        w1,
        states,
        i,
        d,
        done,
        gem[at][jj].to as int,
        mask_step(m, full, gem[at][jj]),
        d + gem[at][jj].dist,
    ) by {
        let e3 = gem[at][jj];
        if jj == j {
            assert(covered(w1, states, i, d, done, e.to as int, nm, nd as int)) by {
                reveal(covered);
                assert(w1.has_le(e.to as int, nm, nd as int));
            }
        } else if d + e3.dist <= usize::MAX && step_allowed(gem, full, start, at, m, e3) {
            lemma_covered_extend(
                w0,
                w1,
                states,
                i,
                d,
                done,
                done,
                e3.to as int,
                mask_step(m, full, e3),
                d + e3.dist,
                d + e3.dist,
            );
        }
    }
}

/// A skipped relaxation is already covered: the edge is not allowed, its
/// distance oversteps the type, or the recorded distance is no worse.
proof fn lemma_relax_skip(
    gem: Seq<Seq<Edge>>,
    full: u32,
    start: int,
    work: BucketQueue,
    states: Seq<(usize, u32)>,
    i: int,
    d: int,
    done: Map<(int, u32), int>,
    seen: DistTable,
    at: int,
    m: u32,
    e: Edge,
    j: int,
    prev: Option<usize>,
)
    requires
        0 <= at < gem.len(),
        0 <= j < gem[at].len(),
        gem[at][j] == e,
        seen_linked(work, states, i, d, done, seen),
        relaxed_upto(gem, full, start, work, states, i, d, done, at, m, j),
        gem.len() <= 0x1_0000_0000,
        wf_edges(gem),
        !step_allowed(gem, full, start, at, m, e) || d + e.dist > usize::MAX || {
            &&& prev == seen.spec_get(key_of(e.to as int, mask_step(m, full, e)) as u64)
            &&& prev is Some
            &&& d + e.dist >= prev->Some_0
        },
    ensures
        relaxed_upto(gem, full, start, work, states, i, d, done, at, m, j + 1),
{
    reveal(relaxed_upto);
    assert forall|jj: int|
        0 <= jj < j + 1 && step_allowed(gem, full, start, at, m, #[trigger] gem[at][jj]) implies d
        + gem[at][jj].dist > usize::MAX || covered(
        work,
        states,
        i,
        d,
        done,
        gem[at][jj].to as int,
        mask_step(m, full, gem[at][jj]),
        d + gem[at][jj].dist,
    ) by {
        if jj == j && step_allowed(gem, full, start, at, m, e) && d + e.dist <= usize::MAX {
            let nm = mask_step(m, full, e);
            let p = prev->Some_0;
            assert(seen.spec_get(key_of(e.to as int, nm) as u64) == Option::Some(p));
            assert(covered(work, states, i, d, done, e.to as int, nm, p as int)) by {
                reveal(seen_linked);
            }
            lemma_covered_extend(
                work,
                work,
                states,
                i,
                d,
                done,
                done,
                e.to as int,
                nm,
                p as int,
                d + e.dist,
            );
        }
    }
}

/// Settling the processed state once all its edges are relaxed.
#[verifier::rlimit(100)]
#[verifier::spinoff_prover]
proof fn lemma_settle(
    gem: Seq<Seq<Edge>>,
    full: u32,
    start: int,
    init: u32,
    base: int,
    work: BucketQueue,
    states: Seq<(usize, u32)>,
    i: int,
    d: int,
    done0: Map<(int, u32), int>,
    done1: Map<(int, u32), int>,
    seen: DistTable,
    at: int,
    m: u32,
)
    requires
        0 <= i < states.len(),
        states[i].0 == at,
        states[i].1 == m,
        0 <= at < gem.len(),
        wf_edges(gem),
        base <= d <= usize::MAX,
        has_walk(gem, full, start, init, at, m, d - base),
        (done0.contains_key((at, m)) && done1 == done0) || (!done0.contains_key((at, m)) && done1
            == done0.insert((at, m), d)),
        forall|s: (int, u32)| #[trigger] done0.contains_key(s) ==> done0[s] <= d,
        done_sound(gem, full, start, init, base, done0),
        done_relaxed(gem, full, start, work, states, i, d, done0),
        seen_linked(work, states, i, d, done0, seen),
        walks_covered(gem, full, start, init, base, work, states, i, d, done0),
        relaxed_upto(gem, full, start, work, states, i, d, done0, at, m, gem[at].len() as int),
        !(at == start && m == full),
        !done0.contains_key((start, full)),
    ensures
        done_sound(gem, full, start, init, base, done1),
        forall|s: (int, u32)| #[trigger] done1.contains_key(s) ==> done1[s] <= d,
        !done1.contains_key((start, full)),
        done_relaxed(gem, full, start, work, states, i + 1, d, done1),
        seen_linked(work, states, i + 1, d, done1, seen),
        walks_covered(gem, full, start, init, base, work, states, i + 1, d, done1),
{
    let t: (int, u32) = (at, m);
    assert(done1.contains_key(t) && done1[t] <= d);
    assert(forall|s: (int, u32)|
        #[trigger] done0.contains_key(s) ==> done1.contains_key(s) && done1[s] <= done0[s]);
    assert(done_sound(gem, full, start, init, base, done1)) by {
            assert forall|s: (int, u32)| #[trigger] done1.contains_key(s) implies 0 <= s.0 < gem.len()
            && base <= done1[s] <= usize::MAX && has_walk(
            gem,
            full,
            start,
            init,
            s.0,
            s.1,
            done1[s] - base,
        ) by {
            if !done0.contains_key(s) {
                assert(s == t && done1[s] == d);
            }
        }
    }
    assert(done_relaxed(gem, full, start, work, states, i + 1, d, done1)) by {
        reveal(done_relaxed);
        assert forall|s: (int, u32), e2: Edge|
            #[trigger] done1.contains_key(s) && #[trigger] step_allowed(
                gem,
                full,
                start,
                s.0,
                s.1,
                e2,
            ) && done1[s] + e2.dist <= usize::MAX implies covered(
            work,
            states,
            i + 1,
            d,
            done1,
            e2.to as int,
            mask_step(s.1, full, e2),
            done1[s] + e2.dist,
        ) by {
            if done0.contains_key(s) {
                lemma_covered_settle(
                    work,
                    states,
                    i,
                    d,
                    done0,
                    done1,
                    e2.to as int,
                    mask_step(s.1, full, e2),
                    done0[s] + e2.dist,
                );
                lemma_covered_extend(
                    work,
                    work,
                    states,
                    i + 1,
                    d,
                    done1,
                    done1,
                    e2.to as int,
                    mask_step(s.1, full, e2),
                    done0[s] + e2.dist,
                    done1[s] + e2.dist,
                );
            } else {
                assert(s == t && done1[s] == d);
                let jj = choose|jj: int| 0 <= jj < gem[at].len() && gem[at][jj] == e2;
                assert(step_allowed(gem, full, start, at, m, gem[at][jj]));
                assert(covered(
                    work,
                    states,
                    i,
                    d,
                    done0,
                    e2.to as int,
                    mask_step(m, full, e2),
                    d + e2.dist,
                )) by {
                    reveal(relaxed_upto);
                }
                lemma_covered_settle(
                    work,
                    states,
                    i,
                    d,
                    done0,
                    done1,
                    e2.to as int,
                    mask_step(m, full, e2),
                    d + e2.dist,
                );
            }
        }
    }
    assert(seen_linked(work, states, i + 1, d, done1, seen)) by {
        reveal(seen_linked);
        assert forall|a2: int, m2: u32|
            0 <= a2 < 0x1_0000_0000 && (#[trigger] seen.spec_get(key_of(a2, m2) as u64)) is Some
                implies covered(
            work,
            states,
            i + 1,
            d,
            done1,
            a2,
            m2,
            seen.spec_get(key_of(a2, m2) as u64)->Some_0 as int,
        ) by {
            lemma_covered_settle(
                work,
                states,
                i,
                d,
                done0,
                done1,
                a2,
                m2,
                seen.spec_get(key_of(a2, m2) as u64)->Some_0 as int,
            );
        }
    }
    assert(walks_covered(gem, full, start, init, base, work, states, i + 1, d, done1)) by {
        reveal(walks_covered);
        assert forall|w: Seq<Edge>| #[trigger] walk_ok(gem, full, start, init, w) implies exists|
            k: int,
        |
            0 <= k <= w.len() && #[trigger] covered(
                work,
                states,
                i + 1,
                d,
                done1,
                walk_at(start, w, k),
                walk_mask(init, full, w, k),
                base + walk_cost(w, k),
            ) by {
            let k = choose|k: int|
                0 <= k <= w.len() && #[trigger] covered(
                    work,
                    states,
                    i,
                    d,
                    done0,
                    walk_at(start, w, k),
                    walk_mask(init, full, w, k),
                    base + walk_cost(w, k),
                );
            lemma_covered_settle(
                work,
                states,
                i,
                d,
                done0,
                done1,
                walk_at(start, w, k),
                walk_mask(init, full, w, k),
                base + walk_cost(w, k),
            );
        }
    }
}

/// With the popped bucket fully processed, covers no longer need it.
proof fn lemma_end_of_bucket(
    gem: Seq<Seq<Edge>>,
    full: u32,
    start: int,
    init: u32,
    base: int,
    work: BucketQueue,
    states: Seq<(usize, u32)>,
    d: int,
    done: Map<(int, u32), int>,
    seen: DistTable,
)
    requires
        done_relaxed(gem, full, start, work, states, states.len() as int, d, done),
        seen_linked(work, states, states.len() as int, d, done, seen),
        walks_covered(
            gem,
            full,
            start,
            init,
            base,
            work,
            states,
            states.len() as int,
            d,
            done,
        ),
    ensures
        done_relaxed(gem, full, start, work, Seq::<(usize, u32)>::empty(), 0, 0, done),
        seen_linked(work, Seq::<(usize, u32)>::empty(), 0, 0, done, seen),
        walks_covered(
            gem,
            full,
            start,
            init,
            base,
            work,
            Seq::<(usize, u32)>::empty(),
            0,
            0,
            done,
        ),
{
    reveal(done_relaxed);
    reveal(seen_linked);
    reveal(walks_covered);
    reveal(covered);
    assert forall|s: (int, u32), e2: Edge|
        #[trigger] done.contains_key(s) && #[trigger] step_allowed(gem, full, start, s.0, s.1, e2)
            && done[s] + e2.dist <= usize::MAX implies covered(
        work,
        Seq::<(usize, u32)>::empty(),
        0,
        0,
        done,
        e2.to as int,
        mask_step(s.1, full, e2),
        done[s] + e2.dist,
    ) by {
        assert(covered(
            work,
            states,
            states.len() as int,
            d,
            done,
            e2.to as int,
            mask_step(s.1, full, e2),
            done[s] + e2.dist,
        ));
    }
    assert forall|a2: int, m2: u32|
        0 <= a2 < 0x1_0000_0000 && (#[trigger] seen.spec_get(key_of(a2, m2) as u64)) is Some
            implies covered(
        work,
        Seq::<(usize, u32)>::empty(),
        0,
        0,
        done,
        a2,
        m2,
        seen.spec_get(key_of(a2, m2) as u64)->Some_0 as int,
    ) by {
        assert(covered(
            work,
            states,
            states.len() as int,
            d,
            done,
            a2,
            m2,
            seen.spec_get(key_of(a2, m2) as u64)->Some_0 as int,
        ));
    }
    assert forall|w: Seq<Edge>| #[trigger] walk_ok(gem, full, start, init, w) implies exists|k: int|
        0 <= k <= w.len() && #[trigger] covered(
            work,
            Seq::<(usize, u32)>::empty(),
            0,
            0,
            done,
            walk_at(start, w, k),
            walk_mask(init, full, w, k),
            base + walk_cost(w, k),
        ) by {
        let k = choose|k: int|
            0 <= k <= w.len() && #[trigger] covered(
                work,
                states,
                states.len() as int,
                d,
                done,
                walk_at(start, w, k),
                walk_mask(init, full, w, k),
                base + walk_cost(w, k),
            );
        assert(covered(
            work,
            Seq::<(usize, u32)>::empty(),
            0,
            0,
            done,
            walk_at(start, w, k),
            walk_mask(init, full, w, k),
            base + walk_cost(w, k),
        ));
    }
}

/// Popping the goal state: the bucket distance is the optimal tour distance.
proof fn lemma_found(
    gem: Seq<Seq<Edge>>,
    full: u32,
    start: int,
    init: u32,
    base: int,
    work: BucketQueue,
    states: Seq<(usize, u32)>,
    i: int,
    d: usize,
    done: Map<(int, u32), int>,
)
    requires
        0 <= i < states.len(),
        states[i].0 == start,
        states[i].1 == full,
        rest_sound(gem, full, start, init, base, states, i, d as int),
        done_relaxed(gem, full, start, work, states, i, d as int, done),
        walks_covered(gem, full, start, init, base, work, states, i, d as int, done),
        work.all_ge(d as int),
        !done.contains_key((start, full)),
    ensures
        tour_outcome(gem, full, start, init, base, Ok(d)),
{
    assert(has_walk(gem, full, start, init, start, full, d - base));
    let wt = choose|w: Seq<Edge>|
        {
            &&& #[trigger] walk_ok(gem, full, start, init, w)
            &&& walk_at(start, w, w.len() as int) == start
            &&& walk_mask(init, full, w, w.len() as int) == full
            &&& walk_cost(w, w.len() as int) == d - base
        };
    assert(reaches_goal(gem, full, start, init, wt));
    assert forall|w: Seq<Edge>| #[trigger] reaches_goal(gem, full, start, init, w)
        implies base + walk_cost(w, w.len() as int) >= d as int by {
        reveal(walks_covered);
        let k = choose|k: int|
            0 <= k <= w.len() && #[trigger] covered(
                work,
                states,
                i,
                d as int,
                done,
                walk_at(start, w, k),
                walk_mask(init, full, w, k),
                base + walk_cost(w, k),
            );
        lemma_goal_floor(gem, full, start, init, base, work, states, i, d as int, done, w, k);
    }
}

/// An exhausted queue: every tour, if any, oversteps the distance type.
proof fn lemma_unsolved(
    gem: Seq<Seq<Edge>>,
    full: u32,
    start: int,
    init: u32,
    base: int,
    work: BucketQueue,
    done: Map<(int, u32), int>,
)
    requires
        work.buckets@.len() == 0,
        done_relaxed(gem, full, start, work, Seq::<(usize, u32)>::empty(), 0, 0, done),
        walks_covered(
            gem,
            full,
            start,
            init,
            base,
            work,
            Seq::<(usize, u32)>::empty(),
            0,
            0,
            done,
        ),
        !done.contains_key((start, full)),
    ensures
        tour_outcome(gem, full, start, init, base, Err(SolveError::Unsolved)),
{
    let big: int = usize::MAX as int + 1;
    assert(done_relaxed(gem, full, start, work, Seq::<(usize, u32)>::empty(), 0, big, done)) by {
        reveal(done_relaxed);
        reveal(covered);
    }
    assert forall|w: Seq<Edge>| #[trigger] reaches_goal(gem, full, start, init, w)
        implies base + walk_cost(w, w.len() as int) > usize::MAX by {
        reveal(walks_covered);
        let k = choose|k: int|
            0 <= k <= w.len() && #[trigger] covered(
                work,
                Seq::<(usize, u32)>::empty(),
                0,
                0,
                done,
                walk_at(start, w, k),
                walk_mask(init, full, w, k),
                base + walk_cost(w, k),
            );
        assert(covered(
            work,
            Seq::<(usize, u32)>::empty(),
            0,
            big,
            done,
            walk_at(start, w, k),
            walk_mask(init, full, w, k),
            base + walk_cost(w, k),
        )) by {
            reveal(covered);
        }
        assert(work.all_ge(big));
        lemma_goal_floor(
            gem,
            full,
            start,
            init,
            base,
            work,
            Seq::<(usize, u32)>::empty(),
            0,
            big,
            done,
            w,
            k,
        );
    }
}

/// Finds the cost of a cheapest complete tour: starting from `(start, init)`
/// at distance `base`, buckets of states are processed in order of strictly
/// increasing total distance; the first time the start waypoint is reached
/// holding the full collected-set, that distance is optimal.  An exhausted
/// queue means no tour exists within the distance type.
pub fn find_full_path(
    em: &Vec<Vec<Edge>>,
    start: usize,
    full: u32,
    init: u32,
    base: usize,
) -> (r: Result<usize, SolveError>)
    requires
        1 <= em@.len() <= 0x1_0000_0000,
        (start as int) < em@.len(),
        wf_edges(em_view(em@)),
    ensures
        tour_outcome(em_view(em@), full, start as int, init, base as int, r),
{
    let ghost gem = em_view(em@);
    let n = em.len();
    let ghost ncap: int = n as int * 0x1_0000_0000;
    let mut seen = DistTable::new();
    let mut work = BucketQueue::new();
    work.push(base, start, init);
    let ghost mut done: Map<(int, u32), int> = Map::empty();
    let ghost mut last_d: int = 0;
    proof {
        lemma_init(gem, full, start as int, init, base as int, work, done, seen);
        lemma_sum_vals_nonneg(seen.entries@);
        lemma_total_len_nonneg(work.buckets@);
    }
    let mut queue_empty = work.is_empty();
    while !queue_empty
        invariant
            gem == em_view(em@),
            n == em@.len(),
            1 <= n <= 0x1_0000_0000,
            (start as int) < n as int,
            wf_edges(gem),
            ncap == n as int * 0x1_0000_0000,
            queue_empty <==> work.buckets@.len() == 0,
            seen.wf(),
            work.wf(),
            seen.keys_below(ncap),
            seen.len() <= ncap,
            seen.sum() >= 0,
            work.total() >= 0,
            0 <= last_d <= usize::MAX,
            work.all_ge(last_d),
            forall|s: (int, u32)| #[trigger] done.contains_key(s) ==> done[s] <= last_d,
            queue_sound(gem, full, start as int, init, base as int, work),
            done_sound(gem, full, start as int, init, base as int, done),
            done_relaxed(
                gem,
                full,
                start as int,
                work,
                Seq::<(usize, u32)>::empty(),
                0,
                0,
                done,
            ),
            seen_linked(work, Seq::<(usize, u32)>::empty(), 0, 0, done, seen),
            walks_covered(
                gem,
                full,
                start as int,
                init,
                base as int,
                work,
                Seq::<(usize, u32)>::empty(),
                0,
                0,
                done,
            ),
            !done.contains_key((start as int, full)),
        decreases 2 * (seen.sum() + (ncap - seen.len()) * 0x1_0000_0000_0000_0000) + work.total(),
    {
        let ghost work_before = work;
        let (d, states) = work.pop_min();
        proof {
            lemma_total_len_nonneg(work.buckets@);
            lemma_pop_rest_sound(
                gem,
                full,
                start as int,
                init,
                base as int,
                work_before,
                d as int,
                states@,
            );
            lemma_pop_queue_sound(
                gem,
                full,
                start as int,
                init,
                base as int,
                work_before,
                work,
            );
            lemma_pop_covers(
                gem,
                full,
                start as int,
                init,
                base as int,
                work_before,
                work,
                d as int,
                states@,
                done,
                seen,
            );
            lemma_rest_at(gem, full, start as int, init, base as int, states@, 0, d as int);
            assert(forall|s: (int, u32)| #[trigger] done.contains_key(s) ==> done[s] <= d as int);
        }
        let ghost pot0 = 2 * (seen.sum() + (ncap - seen.len()) * 0x1_0000_0000_0000_0000)
            + work.total();
        let mut i: usize = 0;
        while i < states.len()
            invariant
                gem == em_view(em@),
                n == em@.len(),
                1 <= n <= 0x1_0000_0000,
                (start as int) < n as int,
                wf_edges(gem),
                ncap == n as int * 0x1_0000_0000,
                i <= states@.len(),
                d <= usize::MAX,
                rest_sound(gem, full, start as int, init, base as int, states@, i as int, d as int),
                seen.wf(),
                work.wf(),
                seen.keys_below(ncap),
                seen.len() <= ncap,
                seen.sum() >= 0,
                work.total() >= 0,
                work.all_ge(d as int + 1),
                forall|s: (int, u32)| #[trigger] done.contains_key(s) ==> done[s] <= d as int,
                queue_sound(gem, full, start as int, init, base as int, work),
                done_sound(gem, full, start as int, init, base as int, done),
                done_relaxed(gem, full, start as int, work, states@, i as int, d as int, done),
                seen_linked(work, states@, i as int, d as int, done, seen),
                walks_covered(
                    gem,
                    full,
                    start as int,
                    init,
                    base as int,
                    work,
                    states@,
                    i as int,
                    d as int,
                    done,
                ),
                !done.contains_key((start as int, full)),
                2 * (seen.sum() + (ncap - seen.len()) * 0x1_0000_0000_0000_0000) + work.total()
                    <= pot0,
            decreases states@.len() - i,
        {
            let (at, m) = states[i];
            proof {
                lemma_rest_at(
                    gem,
                    full,
                    start as int,
                    init,
                    base as int,
                    states@,
                    i as int,
                    d as int,
                );
                assert(states@[i as int].0 == at && states@[i as int].1 == m);
                assert(at < n);
            }
            if m == full && at == start {
                proof {
                    assert(work.all_ge(d as int));
                    lemma_found(
                        gem,
                        full,
                        start as int,
                        init,
                        base as int,
                        work,
                        states@,
                        i as int,
                        d,
                        done,
                    );
                }
                return Ok(d);
            }
            let elist = &em[at];
            let elen = elist.len();
            let mut j: usize = 0;
            proof {
                assert(elist@ == gem[at as int]);
                lemma_relaxed_upto_zero(
                    gem,
                    full,
                    start as int,
                    work,
                    states@,
                    i as int,
                    d as int,
                    done,
                    at as int,
                    m,
                );
            }
            while j < elen
                invariant
                    gem == em_view(em@),
                    n == em@.len(),
                    1 <= n <= 0x1_0000_0000,
                    (start as int) < n as int,
                    wf_edges(gem),
                    ncap == n as int * 0x1_0000_0000,
                    j <= elen,
                    i < states@.len(),
                    states@[i as int].0 == at,
                    states@[i as int].1 == m,
                    at < n,
                    d <= usize::MAX,
                    rest_sound(
                        gem,
                        full,
                        start as int,
                        init,
                        base as int,
                        states@,
                        i as int,
                        d as int,
                    ),
                    elen == elist@.len(),
                    elist@ == gem[at as int],
                    seen.wf(),
                    work.wf(),
                    seen.keys_below(ncap),
                    seen.len() <= ncap,
                    seen.sum() >= 0,
                    work.total() >= 0,
                    work.all_ge(d as int + 1),
                    forall|s: (int, u32)| #[trigger] done.contains_key(s) ==> done[s] <= d as int,
                    queue_sound(gem, full, start as int, init, base as int, work),
                    done_sound(gem, full, start as int, init, base as int, done),
                    done_relaxed(gem, full, start as int, work, states@, i as int, d as int, done),
                    seen_linked(work, states@, i as int, d as int, done, seen),
                    walks_covered(
                        gem,
                        full,
                        start as int,
                        init,
                        base as int,
                        work,
                        states@,
                        i as int,
                        d as int,
                        done,
                    ),
                    relaxed_upto(
                        gem,
                        full,
                        start as int,
                        work,
                        states@,
                        i as int,
                        d as int,
                        done,
                        at as int,
                        m,
                        j as int,
                    ),
                    !done.contains_key((start as int, full)),
                    2 * (seen.sum() + (ncap - seen.len()) * 0x1_0000_0000_0000_0000)
                        + work.total() <= pot0,
                decreases elen - j,
            {
                let e = elist[j];
                proof {
                    assert(gem[at as int][j as int] == e);
                }
                let allowed = if m == full {
                    e.to == start
                } else {
                    (e.last & m == 0) && (m | e.crossed) != m
                };
                if allowed && d <= usize::MAX - e.dist {
                    proof {
                        assert(gem[at as int].contains(e));
                        assert(step_allowed(gem, full, start as int, at as int, m, e));
                        assert(e.to < n);
                    }
                    let nd = d + e.dist;
                    let nm = if m == full {
                        m
                    } else {
                        m | e.crossed
                    };
                    proof {
                        assert(nm == mask_step(m, full, e));
                    }
                    let key: u64 = (e.to as u64) * 0x1_0000_0000u64 + (nm as u64);
                    proof {
                        assert(key == key_of(e.to as int, nm));
                        assert(key_of(e.to as int, nm) < ncap) by {
                            assert(e.to as int * 0x1_0000_0000 + 0x1_0000_0000 <= n as int
                                * 0x1_0000_0000);
                        }
                    }
                    let prev = seen.get(key);
                    let improve = match prev {
                        Option::Some(p) => nd < p,
                        Option::None => true,
                    };
                    if improve {
                        proof {
                            if prev is None {
                                assert forall|ii: int| 0 <= ii < seen.entries@.len() implies (
                                #[trigger] seen.entries@[ii]).0 != key by {
                                    if seen.entries@[ii].0 == key {
                                        lemma_table_get_index(seen.entries@, key, ii);
                                    }
                                }
                                lemma_table_capacity(seen.entries@, key, ncap);
                            }
                            lemma_rest_at(
                                gem,
                                full,
                                start as int,
                                init,
                                base as int,
                                states@,
                                i as int,
                                d as int,
                            );
                        }
                        let ghost seen_old = seen;
                        let ghost work_old = work;
                        seen.set(key, nd);
                        work.push(nd, e.to, nm);
                        proof {
                            lemma_relax_queue_sound(
                                gem,
                                full,
                                start as int,
                                init,
                                base as int,
                                work_old,
                                work,
                                at as int,
                                m,
                                e,
                                d as int,
                                nd,
                                nm,
                            );
                            lemma_extend_done_relaxed(
                                gem,
                                full,
                                start as int,
                                work_old,
                                work,
                                states@,
                                i as int,
                                d as int,
                                done,
                            );
                            lemma_relax_seen_linked(
                                work_old,
                                work,
                                states@,
                                i as int,
                                d as int,
                                done,
                                seen_old,
                                seen,
                                e.to as int,
                                nm,
                                nd,
                                key,
                            );
                            lemma_extend_walks_covered(
                                gem,
                                full,
                                start as int,
                                init,
                                base as int,
                                work_old,
                                work,
                                states@,
                                i as int,
                                d as int,
                                done,
                            );
                            lemma_relax_upto_push(
                                gem,
                                full,
                                start as int,
                                work_old,
                                work,
                                states@,
                                i as int,
                                d as int,
                                done,
                                at as int,
                                m,
                                e,
                                j as int,
                                nd,
                                nm,
                            );
                            assert(seen.keys_below(ncap)) by {
                                assert forall|ii: int| 0 <= ii < seen.entries@.len() implies (
                                #[trigger] seen.entries@[ii]).0 < ncap by {
                                    if seen.entries@[ii].0 != key {
                                        let jj = choose|jj: int|
                                            0 <= jj < seen_old.entries@.len() && (
                                            #[trigger] seen_old.entries@[jj]).0
                                                == seen.entries@[ii].0;
                                        assert(seen_old.entries@[jj].0 < ncap);
                                    }
                                }
                            }
                            lemma_sum_vals_nonneg(seen.entries@);
                            lemma_total_len_nonneg(work.buckets@);
                            match seen_old.spec_get(key) {
                                Option::Some(p) => {
                                    assert(seen.sum() == seen_old.sum() - p + nd);
                                },
                                Option::None => {
                                    assert(seen.sum() == seen_old.sum() + nd);
                                    assert((ncap - seen_old.len()) * 0x1_0000_0000_0000_0000 == (
                                    ncap - seen.len()) * 0x1_0000_0000_0000_0000
                                        + 0x1_0000_0000_0000_0000);
                                },
                            }
                        }
                    } else {
                        proof {
                            lemma_relax_skip(
                                gem,
                                full,
                                start as int,
                                work,
                                states@,
                                i as int,
                                d as int,
                                done,
                                seen,
                                at as int,
                                m,
                                e,
                                j as int,
                                prev,
                            );
                        }
                    }
                } else {
                    proof {
                        lemma_relax_skip(
                            gem,
                            full,
                            start as int,
                            work,
                            states@,
                            i as int,
                            d as int,
                            done,
                            seen,
                            at as int,
                            m,
                            e,
                            j as int,
                            Option::None,
                        );
                    }
                }
                j = j + 1;
            }
            proof {
                let t: (int, u32) = (at as int, m);
                let done_old = done;
                if !done.contains_key(t) {
                    done = done.insert(t, d as int);
                }
                lemma_rest_at(
                    gem,
                    full,
                    start as int,
                    init,
                    base as int,
                    states@,
                    i as int,
                    d as int,
                );
                lemma_settle(
                    gem,
                    full,
                    start as int,
                    init,
                    base as int,
                    work,
                    states@,
                    i as int,
                    d as int,
                    done_old,
                    done,
                    seen,
                    at as int,
                    m,
                );
                lemma_rest_advance(
                    gem,
                    full,
                    start as int,
                    init,
                    base as int,
                    states@,
                    i as int,
                    d as int,
                );
            }
            i = i + 1;
        }
        proof {
            last_d = d as int;
            lemma_end_of_bucket(
                gem,
                full,
                start as int,
                init,
                base as int,
                work,
                states@,
                d as int,
                done,
                seen,
            );
            assert forall|x: int| 0 <= x < work.buckets@.len() implies (
            #[trigger] work.buckets@[x]).0 >= last_d by {
                assert(work.buckets@[x].0 >= d as int + 1);
            }
        }
        queue_empty = work.is_empty();
    }
    proof {
        lemma_unsolved(gem, full, start as int, init, base as int, work, done);
    }
    Err(SolveError::Unsolved)
}


// ---------------------------------------------------------------------------
// Laws of the tour search.
// ---------------------------------------------------------------------------

/// Determinism: the tour contract pins the outcome, so any two searches over
/// the same edge map, start, masks and base distance return the same result.
pub proof fn lemma_tour_deterministic(
    em: Seq<Seq<Edge>>,
    full: u32,
    start: int,
    init: u32,
    base: int,
    r1: Result<usize, SolveError>,
    r2: Result<usize, SolveError>,
)
    requires
        tour_outcome(em, full, start, init, base, r1),
        tour_outcome(em, full, start, init, base, r2),
    ensures
        r1 == r2,
{
    match (r1, r2) {
        (Ok(d1), Ok(d2)) => {
            let w1 = choose|w: Seq<Edge>|
                #[trigger] reaches_goal(em, full, start, init, w) && base + walk_cost(
                    w,
                    w.len() as int,
                ) == d1;
            let w2 = choose|w: Seq<Edge>|
                #[trigger] reaches_goal(em, full, start, init, w) && base + walk_cost(
                    w,
                    w.len() as int,
                ) == d2;
            assert(base + walk_cost(w1, w1.len() as int) >= d2);
            assert(base + walk_cost(w2, w2.len() as int) >= d1);
        },
        (Ok(d1), Err(_)) => {
            let w1 = choose|w: Seq<Edge>|
                #[trigger] reaches_goal(em, full, start, init, w) && base + walk_cost(
                    w,
                    w.len() as int,
                ) == d1;
            assert(base + walk_cost(w1, w1.len() as int) > usize::MAX);
        },
        (Err(_), Ok(d2)) => {
            let w2 = choose|w: Seq<Edge>|
                #[trigger] reaches_goal(em, full, start, init, w) && base + walk_cost(
                    w,
                    w.len() as int,
                ) == d2;
            assert(base + walk_cost(w2, w2.len() as int) > usize::MAX);
        },
        (Err(_), Err(_)) => {},
    }
}

/// A tour with nothing left to collect: when the initial collected-set is
/// already the full set, the search returns exactly the base distance.
pub proof fn lemma_tour_trivial(
    em: Seq<Seq<Edge>>,
    full: u32,
    start: int,
    init: u32,
    base: int,
    r: Result<usize, SolveError>,
)
    requires
        init == full,
        0 <= base <= usize::MAX,
        tour_outcome(em, full, start, init, base, r),
    ensures
        r is Ok,
        r->Ok_0 == base,
{
    let w = Seq::<Edge>::empty();
    assert(walk_ok(em, full, start, init, w));
    assert(reaches_goal(em, full, start, init, w));
    assert(walk_cost(w, 0) == 0);
    if r is Ok {
        assert(base + walk_cost(w, 0) >= r->Ok_0);
    } else {
        assert(base + walk_cost(w, 0) > usize::MAX);
    }
}

/// A nonempty tour leaves the start and comes back: its first edge is an edge
/// out of the start waypoint and its last edge leads into it.
proof fn lemma_goal_walk_shape(
    em: Seq<Seq<Edge>>,
    full: u32,
    start: int,
    init: u32,
    w: Seq<Edge>,
)
    requires
        reaches_goal(em, full, start, init, w),
        init != full,
        0 <= start < em.len(),
        forall|e: Edge| #[trigger] em[start].contains(e) ==> e.to != start,
    ensures
        w.len() >= 2,
        em[start].contains(w[0]),
        em[walk_at(start, w, w.len() - 1)].contains(w[w.len() - 1]),
        w[w.len() - 1].to == start,
        walk_cost(w, w.len() as int) >= w[0].dist + w[w.len() - 1].dist,
{
    assert(w.len() != 0) by {
        if w.len() == 0 {
            assert(walk_mask(init, full, w, 0) == init);
        }
    }
    assert(step_allowed(em, full, start, walk_at(start, w, 0), walk_mask(init, full, w, 0), w[0]));
    assert(walk_at(start, w, 0) == start);
    assert(em[start].contains(w[0]));
    assert(w.len() != 1) by {
        if w.len() == 1 {
            assert(walk_at(start, w, 1) == w[0].to);
            assert(w[0].to != start);
        }
    }
    let last = w.len() - 1;
    assert(step_allowed(
        em,
        full,
        start,
        walk_at(start, w, last),
        walk_mask(init, full, w, last),
        w[last],
    ));
    assert(walk_at(start, w, w.len() as int) == w[last].to);
    assert(walk_cost(w, 0) == 0);
    assert(walk_cost(w, 1) == w[0].dist);
    lemma_cost_mono(w, 1, last);
    assert(walk_cost(w, w.len() as int) == walk_cost(w, last) + w[last].dist);
}

/// Lower-bound sanity: when something is left to collect, a successful tour
/// costs at least the cheapest edge out of the start plus the cheapest edge
/// back into it.
pub proof fn lemma_tour_lower_bound(
    em: Seq<Seq<Edge>>,
    full: u32,
    start: int,
    init: u32,
    base: int,
    r: Result<usize, SolveError>,
    dout: int,
    dback: int,
)
    requires
        tour_outcome(em, full, start, init, base, r),
        init != full,
        0 <= start < em.len(),
        forall|e: Edge| #[trigger] em[start].contains(e) ==> e.to != start && e.dist >= dout,
        forall|a: int, e: Edge|
            0 <= a < em.len() && #[trigger] em[a].contains(e) && e.to == start ==> e.dist >= dback,
        r is Ok,
    ensures
        r->Ok_0 >= base + dout + dback,
{
    let d = r->Ok_0;
    let w = choose|w: Seq<Edge>|
        #[trigger] reaches_goal(em, full, start, init, w) && base + walk_cost(w, w.len() as int)
            == d;
    lemma_goal_walk_shape(em, full, start, init, w);
    let last = w.len() - 1;
    assert(0 <= walk_at(start, w, last) < em.len()) by {
        assert(step_allowed(
            em,
            full,
            start,
            walk_at(start, w, last),
            walk_mask(init, full, w, last),
            w[last],
        ));
    }
    assert(w[0].dist >= dout);
    assert(w[last].dist >= dback);
}

/// A tour over exactly one remaining waypoint: with a single edge out to it
/// and a single edge back, the search returns the base plus both edge
/// distances -- out and home again.
pub proof fn lemma_single_waypoint_tour(
    em: Seq<Seq<Edge>>,
    full: u32,
    start: int,
    init: u32,
    base: int,
    r: Result<usize, SolveError>,
    a: int,
)
    requires
        tour_outcome(em, full, start, init, base, r),
        0 <= start < em.len(),
        0 <= a < em.len(),
        a != start,
        em[start].len() == 1,
        em[a].len() == 1,
        em[start][0].to == a,
        em[a][0].to == start,
        init != full,
        em[start][0].last & init == 0,
        init | em[start][0].crossed == full,
        0 <= base,
        base + em[start][0].dist + em[a][0].dist <= usize::MAX,
    ensures
        r is Ok,
        r->Ok_0 == base + em[start][0].dist + em[a][0].dist,
{
    let e1 = em[start][0];
    let e2 = em[a][0];
    // The out-and-back walk is a complete tour.
    let w = Seq::<Edge>::empty().push(e1).push(e2);
    assert(w.len() == 2);
    assert(w[0] == e1 && w[1] == e2);
    assert(em[start].contains(e1));
    assert(em[a].contains(e2));
    assert(walk_at(start, w, 0) == start && walk_mask(init, full, w, 0) == init);
    assert(init | e1.crossed != init);
    assert(step_allowed(em, full, start, start, init, e1));
    assert(walk_at(start, w, 1) == a);
    assert(walk_mask(init, full, w, 1) == full) by {
        assert(walk_mask(init, full, w, 1) == mask_step(init, full, e1));
    }
    assert(step_allowed(em, full, start, a, full, e2));
    assert(walk_ok(em, full, start, init, w)) by {
        assert forall|k: int| 0 <= k < w.len() implies step_allowed(
            em,
            full,
            start,
            walk_at(start, w, k),
            walk_mask(init, full, w, k),
            #[trigger] w[k],
        ) by {
            if k == 0 {
            } else {
                assert(k == 1);
            }
        }
    }
    assert(walk_at(start, w, 2) == start);
    assert(walk_mask(init, full, w, 2) == full) by {
        assert(walk_mask(init, full, w, 2) == mask_step(full, full, e2));
    }
    assert(reaches_goal(em, full, start, init, w));
    assert(walk_cost(w, 2) == e1.dist + e2.dist) by {
        assert(walk_cost(w, 1) == walk_cost(w, 0) + e1.dist);
    }
    // Every tour takes that walk first: the only edge out of the start is e1
    // and the only edge back in is e2.
    assert forall|w2: Seq<Edge>| #[trigger] reaches_goal(em, full, start, init, w2)
        implies base + walk_cost(w2, w2.len() as int) >= base + e1.dist + e2.dist by {
        assert forall|e: Edge| #[trigger] em[start].contains(e) implies e.to != start by {
            let idx = choose|idx: int| 0 <= idx < em[start].len() && em[start][idx] == e;
            assert(idx == 0);
        }
        lemma_goal_walk_shape(em, full, start, init, w2);
        assert(w2[0] == e1) by {
            let idx = choose|idx: int| 0 <= idx < em[start].len() && em[start][idx] == w2[0];
            assert(idx == 0);
        }
        let last = w2.len() - 1;
        // The walk stands on `a` before its last edge only if the last edge
        // is e2; any other stand would contradict the edge shape.
        assert(w2[last].to == start);
        let at_last = walk_at(start, w2, last);
        assert(step_allowed(
            em,
            full,
            start,
            at_last,
            walk_mask(init, full, w2, last),
            w2[last],
        ));
        assert(em[at_last].contains(w2[last]));
        if at_last == start {
            let idx = choose|idx: int| 0 <= idx < em[start].len() && em[start][idx] == w2[last];
            assert(idx == 0);
            assert(w2[last].to == a);
            assert(false);
        }
        if at_last != a {
            // The walk can only ever stand on start or on a: every edge leads
            // to one of them.
            assert(last >= 1);
            assert(at_last == w2[last - 1].to);
            assert(step_allowed(
                em,
                full,
                start,
                walk_at(start, w2, last - 1),
                walk_mask(init, full, w2, last - 1),
                w2[last - 1],
            ));
            let at_prev = walk_at(start, w2, last - 1);
            assert(em[at_prev].contains(w2[last - 1]));
            if at_prev == start {
                let idx = choose|idx: int|
                    0 <= idx < em[start].len() && em[start][idx] == w2[last - 1];
                assert(idx == 0);
                assert(w2[last - 1].to == a);
                assert(false);
            } else {
                // at_prev is some waypoint with an edge list; the edge taken
                // leads to at_last, which is neither start nor a, so at_prev
                // can be neither start nor a; walk the contradiction back one
                // step: the edge into at_prev must come from such a list too.
                // Both possible lists lead only to start or a.
                if at_prev == a {
                    let idx = choose|idx: int|
                        0 <= idx < em[a].len() && em[a][idx] == w2[last - 1];
                    assert(idx == 0);
                    assert(w2[last - 1].to == start);
                    assert(false);
                } else {
                    // at_prev is outside {start, a}; show by induction down
                    // the walk that this cannot happen: the first such stand
                    // would have to be entered by an edge from start or a.
                    lemma_walk_stays(em, full, start, init, w2, last - 1, a);
                    assert(false);
                }
            }
        }
        let idx = choose|idx: int| 0 <= idx < em[a].len() && em[a][idx] == w2[last];
        assert(idx == 0);
        assert(w2[last] == e2);
        assert(walk_cost(w2, 0) == 0);
        assert(walk_cost(w2, 1) == w2[0].dist);
        lemma_cost_mono(w2, 1, last);
        assert(walk_cost(w2, w2.len() as int) == walk_cost(w2, last) + w2[last].dist);
    }
    if r is Ok {
        let dd = r->Ok_0;
        assert(base + walk_cost(w, 2) >= dd);
        assert(dd >= base + e1.dist + e2.dist);
    } else {
        assert(base + walk_cost(w, 2) > usize::MAX);
    }
}

/// In a two-waypoint edge map whose edges only join `start` and `a`, a walk
/// never stands anywhere else.
proof fn lemma_walk_stays(
    em: Seq<Seq<Edge>>,
    full: u32,
    start: int,
    init: u32,
    w: Seq<Edge>,
    k: int,
    a: int,
)
    requires
        walk_ok(em, full, start, init, w),
        0 <= start < em.len(),
        0 <= a < em.len(),
        em[start].len() == 1,
        em[a].len() == 1,
        em[start][0].to == a,
        em[a][0].to == start,
        0 <= k <= w.len(),
    ensures
        walk_at(start, w, k) == start || walk_at(start, w, k) == a,
    decreases k,
{
    if k > 0 {
        lemma_walk_stays(em, full, start, init, w, k - 1, a);
        assert(step_allowed(
            em,
            full,
            start,
            walk_at(start, w, k - 1),
            walk_mask(init, full, w, k - 1),
            w[k - 1],
        ));
        let prev = walk_at(start, w, k - 1);
        assert(em[prev].contains(w[k - 1]));
        if prev == start {
            let idx = choose|idx: int| 0 <= idx < em[start].len() && em[start][idx] == w[k - 1];
            assert(idx == 0);
        } else {
            let idx = choose|idx: int| 0 <= idx < em[a].len() && em[a][idx] == w[k - 1];
            assert(idx == 0);
        }
    }
}


} // verus!
