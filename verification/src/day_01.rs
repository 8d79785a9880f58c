//! Potion accounting for battle groups.
//!
//! A battle list is a sequence of monster kinds, fought in groups of one, two
//! or three.  Each monster kind has a base potion cost, and every non-empty
//! slot in a group adds an extra cost per monster that grows with the number
//! of non-empty slots in the group.

use vstd::prelude::*;

verus! {

/// Potions needed for one slot holding `c`, when each non-empty slot of the
/// group costs `extra` additional potions.
pub open spec fn potions_for(c: char, extra: nat) -> nat {
    match c {
        'B' => 1 + extra,
        'C' => 3 + extra,
        'D' => 5 + extra,
        'x' => 0,
        _ => extra,
    }
}

/// Number of empty (`x`) slots in a group.
pub open spec fn empty_slots(s: Seq<char>) -> nat
    decreases s.len(),
{
    if s.len() == 0 {
        0
    } else {
        empty_slots(s.drop_last()) + (if s.last() == 'x' { 1nat } else { 0nat })
    }
}

/// Extra potions added to every monster of a group: two for a full group of
/// three, one for a group of three with one empty slot or a full group of
/// two, and none otherwise.
pub open spec fn group_extra(s: Seq<char>) -> nat {
    if s.len() == 3 && empty_slots(s) == 0 {
        2
    } else if (s.len() == 3 && empty_slots(s) == 1) || (s.len() == 2 && empty_slots(s) == 0) {
        1
    } else {
        0
    }
}

/// Sum of the slot costs of a group at a fixed per-monster extra.
pub open spec fn group_sum(s: Seq<char>, extra: nat) -> nat
    decreases s.len(),
{
    if s.len() == 0 {
        0
    } else {
        group_sum(s.drop_last(), extra) + potions_for(s.last(), extra)
    }
}

/// Potions needed for one battle group.
pub open spec fn group_potions(s: Seq<char>) -> nat {
    group_sum(s, group_extra(s))
}

/// Potions needed for a battle list fought in groups of `n`; a shorter final
/// group is fought as-is.
pub open spec fn total_potions(s: Seq<char>, n: nat) -> nat
    decreases s.len(),
{
    if n == 0 || s.len() == 0 {
        0
    } else if s.len() <= n {
        group_potions(s)
    } else {
        group_potions(s.take(n as int)) + total_potions(s.skip(n as int), n)
    }
}

/// Battle list solver: holds the parsed list of monster kinds.
pub struct Day01 {
    battles: Vec<char>,
}

impl Day01 {
    /// An empty battle list.
    pub fn new() -> (r: Self)
        ensures
            r.battles_view().len() == 0,
    {
        Day01 { battles: Vec::new() }
    }

    pub closed spec fn battles_view(&self) -> Seq<char> {
        self.battles@
    }

    /// Appends one input line of monster kinds to the battle list.
    pub fn parse(&mut self, line: &[char])
        ensures
            final(self).battles_view() == old(self).battles_view() + line@,
    {
        let mut i: usize = 0;
        while i < line.len()
            invariant
                i <= line@.len(),
                self.battles@ == old(self).battles@ + line@.take(i as int),
            decreases line@.len() - i,
        {
            self.battles.push(line[i]);
            i = i + 1;
            proof {
                assert(line@.take(i as int) == line@.take(i - 1).push(line@[i - 1]));
            }
        }
        proof {
            assert(line@.take(line@.len() as int) == line@);
        }
    }

    /// Potions needed for one group of battles.
    pub fn potions_needed(a: &[char]) -> (r: usize)
        requires
            a@.len() <= 0x1000_0000,
        ensures
            r == group_potions(a@),
            r <= 7 * a@.len(),
    {
        let mut xs: usize = 0;
        let mut i: usize = 0;
        while i < a.len()
            invariant
                i <= a@.len(),
                xs == empty_slots(a@.take(i as int)),
                xs <= i,
            decreases a@.len() - i,
        {
            if a[i] == 'x' {
                xs = xs + 1;
            }
            i = i + 1;
            proof {
                assert(a@.take(i as int).drop_last() == a@.take(i - 1));
            }
        }
        proof {
            assert(a@.take(a@.len() as int) == a@);
        }
        let extra: usize = if a.len() == 3 && xs == 0 {
            2
        } else if (a.len() == 3 && xs == 1) || (a.len() == 2 && xs == 0) {
            1
        } else {
            0
        };
        assert(extra == group_extra(a@));
        let mut sum: usize = 0;
        let mut j: usize = 0;
        while j < a.len()
            invariant
                j <= a@.len(),
                extra <= 2,
                a@.len() <= 0x1000_0000,
                sum == group_sum(a@.take(j as int), extra as nat),
                sum <= 7 * j,
            decreases a@.len() - j,
        {
            let c = a[j];
            let cost: usize = if c == 'B' {
                1 + extra
            } else if c == 'C' {
                3 + extra
            } else if c == 'D' {
                5 + extra
            } else if c == 'x' {
                0
            } else {
                extra
            };
            assert(cost == potions_for(a@[j as int], extra as nat));
            sum = sum + cost;
            j = j + 1;
            proof {
                assert(a@.take(j as int).drop_last() == a@.take(j - 1));
            }
        }
        proof {
            assert(a@.take(a@.len() as int) == a@);
        }
        sum
    }

    /// Potions needed for the whole battle list fought in groups of `n`.
    fn run_groups(&self, n: usize) -> (r: usize)
        requires
            1 <= n,
            self.battles_view().len() <= 0x1000_0000,
        ensures
            r == total_potions(self.battles_view(), n as nat),
    {
        let len = self.battles.len();
        let mut total: usize = 0;
        let mut i: usize = 0;
        proof {
            assert(self.battles@.skip(0) == self.battles@);
        }
        while i < len
            invariant
                i <= len,
                len == self.battles@.len(),
                len <= 0x1000_0000,
                1 <= n,
                total + total_potions(self.battles@.skip(i as int), n as nat) == total_potions(
                    self.battles@,
                    n as nat,
                ),
                total <= 7 * i,
            decreases len - i,
        {
            let end = if len - i < n {
                len
            } else {
                i + n
            };
            let mut chunk: Vec<char> = Vec::new();
            let mut k = i;
            while k < end
                invariant
                    i <= k <= end <= len,
                    len == self.battles@.len(),
                    chunk@ == self.battles@.subrange(i as int, k as int),
                decreases end - k,
            {
                chunk.push(self.battles[k]);
                k = k + 1;
                proof {
                    assert(self.battles@.subrange(i as int, k as int) == self.battles@.subrange(
                        i as int,
                        k - 1,
                    ).push(self.battles@[k - 1]));
                }
            }
            let part = Self::potions_needed(chunk.as_slice());
            proof {
                let rest = self.battles@.skip(i as int);
                if end == len {
                    assert(chunk@ == rest);
                    assert(total_potions(rest, n as nat) == group_potions(chunk@));
                } else {
                    assert(chunk@ == rest.take(n as int));
                    assert(rest.skip(n as int) == self.battles@.skip(end as int));
                }
            }
            total = total + part;
            i = end;
        }
        proof {
            assert(self.battles@.skip(len as int).len() == 0);
        }
        total
    }

    /// Potions for the list fought one battle at a time.
    pub fn part1(&self) -> (r: usize)
        requires
            self.battles_view().len() <= 0x1000_0000,
        ensures
            r == total_potions(self.battles_view(), 1),
    {
        self.run_groups(1)
    }

    /// Potions for the list fought in pairs.
    pub fn part2(&self) -> (r: usize)
        requires
            self.battles_view().len() <= 0x1000_0000,
        ensures
            r == total_potions(self.battles_view(), 2),
    {
        self.run_groups(2)
    }

    /// Potions for the list fought in groups of three.
    pub fn part3(&self) -> (r: usize)
        requires
            self.battles_view().len() <= 0x1000_0000,
        ensures
            r == total_potions(self.battles_view(), 3),
    {
        self.run_groups(3)
    }
}

} // verus!
