//! Nail leveling: strikes needed to hammer every nail to a common level.

use vstd::prelude::*;

verus! {

/// Sum of the distances from every nail to `level`.
pub open spec fn strikes_to(nails: Seq<i64>, level: int) -> int
    decreases nails.len(),
{
    if nails.len() == 0 {
        0
    } else {
        strikes_to(nails.drop_last(), level) + (if nails.last() >= level {
            nails.last() - level
        } else {
            level - nails.last()
        })
    }
}

/// Smallest nail height.
pub open spec fn min_nail(nails: Seq<i64>) -> int
    decreases nails.len(),
{
    if nails.len() <= 1 {
        nails[0] as int
    } else if nails.last() < min_nail(nails.drop_last()) {
        nails.last() as int
    } else {
        min_nail(nails.drop_last())
    }
}

/// Nail solver: holds the parsed nail heights.
pub struct Day04 {
    nails: Vec<i64>,
}

impl Day04 {
    /// No nails yet.
    pub fn new() -> (r: Self)
        ensures
            r.nails_view().len() == 0,
    {
        Day04 { nails: Vec::new() }
    }

    pub closed spec fn nails_view(&self) -> Seq<i64> {
        self.nails@
    }

    /// Adds one parsed nail height.
    pub fn push_nail(&mut self, n: i64)
        requires
            -0x1000_0000 <= n <= 0x1000_0000,
            old(self).nails_view().len() < 0x1000_0000,
        ensures
            final(self).nails_view() == old(self).nails_view().push(n),
    {
        self.nails.push(n);
    }

    pub open spec fn nails_bounded(&self) -> bool {
        &&& self.nails_view().len() <= 0x1000_0000
        &&& forall|i: int|
            0 <= i < self.nails_view().len() ==> -0x1000_0000 <= (#[trigger] self.nails_view()[i])
                <= 0x1000_0000
    }

    /// Strikes needed to bring every nail to `level`.
    pub fn level_to(&self, level: i64) -> (r: u64)
        requires
            self.nails_bounded(),
            -0x1000_0000 <= level <= 0x1000_0000,
        ensures
            r == strikes_to(self.nails_view(), level as int),
    {
        let n = self.nails.len();
        let mut sum: u64 = 0;
        let mut i: usize = 0;
        while i < n
            invariant
                i <= n,
                n == self.nails_view().len(),
                self.nails_bounded(),
                -0x1000_0000 <= level <= 0x1000_0000,
                sum == strikes_to(self.nails_view().take(i as int), level as int),
                sum <= i * 0x2000_0000,
            decreases n - i,
        {
            let v = self.nails[i];
            proof {
                assert(self.nails_view()[i as int] == v);
                assert(self.nails_view().take(i + 1).drop_last() =~= self.nails_view().take(
                    i as int,
                ));
                assert(self.nails_view().take(i + 1).last() == v);
            }
            let gap: u64 = if v >= level {
                (v - level) as u64
            } else {
                (level - v) as u64
            };
            sum = sum + gap;
            i = i + 1;
        }
        proof {
            assert(self.nails_view().take(n as int) =~= self.nails_view());
        }
        sum
    }

    /// The lowest nail height.
    pub fn min_height(&self) -> (r: i64)
        requires
            self.nails_view().len() >= 1,
        ensures
            r == min_nail(self.nails_view()),
    {
        let n = self.nails.len();
        let mut best = self.nails[0];
        let mut i: usize = 1;
        proof {
            assert(min_nail(self.nails_view().take(1)) == self.nails_view()[0]);
        }
        while i < n
            invariant
                1 <= i <= n,
                n == self.nails_view().len(),
                best == min_nail(self.nails_view().take(i as int)),
            decreases n - i,
        {
            let v = self.nails[i];
            proof {
                assert(self.nails_view().take(i + 1).drop_last() =~= self.nails_view().take(
                    i as int,
                ));
                assert(self.nails_view().take(i + 1).last() == v);
                assert(self.nails_view().take(i + 1).len() == i + 1);
            }
            if v < best {
                best = v;
            }
            i = i + 1;
        }
        proof {
            assert(self.nails_view().take(n as int) =~= self.nails_view());
        }
        best
    }

    /// Strikes needed to bring every nail down to the lowest one.
    pub fn level(&self) -> (r: u64)
        requires
            self.nails_view().len() >= 1,
            self.nails_bounded(),
        ensures
            r == strikes_to(self.nails_view(), min_nail(self.nails_view())),
    {
        let m = self.min_height();
        proof {
            assert(-0x1000_0000 <= min_nail(self.nails_view()) <= 0x1000_0000) by {
                assert(self.nails_view()[0] == self.nails_view()[0]);
                lemma_min_nail_bounds(self.nails_view());
            }
        }
        self.level_to(m)
    }
}

/// The lowest nail is one of the nails.
proof fn lemma_min_nail_bounds(nails: Seq<i64>)
    requires
        nails.len() >= 1,
    ensures
        exists|i: int| 0 <= i < nails.len() && (#[trigger] nails[i]) == min_nail(nails),
    decreases nails.len(),
{
    if nails.len() == 1 {
        assert(nails[0] == min_nail(nails));
    } else if nails.last() < min_nail(nails.drop_last()) {
        assert(nails[nails.len() - 1] == min_nail(nails));
    } else {
        lemma_min_nail_bounds(nails.drop_last());
        let i = choose|i: int|
            0 <= i < nails.drop_last().len() && (#[trigger] nails.drop_last()[i]) == min_nail(
                nails.drop_last(),
            );
        assert(nails[i] == min_nail(nails));
    }
}

} // verus!
