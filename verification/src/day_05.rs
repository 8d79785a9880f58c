//! The clap dance: numbered dancers stand in columns; each round a clapper
//! leaves one column and dives back into the next.

use vstd::prelude::*;

verus! {

/// Dance solver: the columns of dancer numbers.
pub struct Day05 {
    columns: Vec<Vec<u64>>,
}

impl Day05 {
    /// An empty dance floor.
    pub fn new() -> (r: Self)
        ensures
            r.columns_view().len() == 0,
    {
        Day05 { columns: Vec::new() }
    }

    pub closed spec fn columns_view(&self) -> Seq<Seq<u64>> {
        self.columns@.map_values(|c: Vec<u64>| c@)
    }

    /// Adds one column of dancers.
    pub fn push_column(&mut self, col: Vec<u64>)
        ensures
            final(self).columns_view() == old(self).columns_view().push(col@),
    {
        let ghost oldc = self.columns@;
        self.columns.push(col);
        proof {
            assert(self.columns@.map_values(|c: Vec<u64>| c@) =~= oldc.map_values(
                |c: Vec<u64>| c@,
            ).push(self.columns@.last()@));
        }
    }

    /// Plays round number `round` (counted from one): the clapper leaves the
    /// front of its column and is inserted into the next column at the
    /// position its own number dictates, counting down the left side and up
    /// the right.
    pub fn round(&mut self, round: usize)
        requires
            old(self).columns_view().len() >= 1,
            ((round - 1) as int % old(self).columns_view().len() as int) < old(
                self,
            ).columns_view().len(),
            round >= 1,
            old(self).columns_view()[(round - 1) as int % old(self).columns_view().len() as int].len()
                >= 1,
            old(self).columns_view()[((round - 1) as int + 1) % old(self).columns_view().len() as int].len()
                >= 1,
            old(self).columns_view()[(round - 1) as int % old(self).columns_view().len() as int][0]
                >= 1,
            old(self).columns_view()[((round - 1) as int + 1) % old(self).columns_view().len() as int].len()
                <= 0x1000_0000,
            ((round - 1) as int % old(self).columns_view().len() as int) == (((round - 1) as int
                + 1) % old(self).columns_view().len() as int) ==> old(self).columns_view()[(round
                - 1) as int % old(self).columns_view().len() as int].len() >= 2,
        ensures
            final(self).columns_view().len() == old(self).columns_view().len(),
            ({
                let n = old(self).columns_view().len() as int;
                let from = (round - 1) as int % n;
                let to = ((round - 1) as int + 1) % n;
                let clapper = old(self).columns_view()[from][0];
                let rest = old(self).columns_view()[from].drop_first();
                let target = if from == to {
                    rest
                } else {
                    old(self).columns_view()[to]
                };
                let cycle = 2 * target.len() as int;
                let pos = (clapper - 1) as int % cycle;
                let inserted = if pos > cycle / 2 {
                    let back = cycle - (pos + 1);
                    if back == target.len() {
                        target.push(clapper)
                    } else {
                        target.insert(back + 1, clapper)
                    }
                } else {
                    target.insert(pos, clapper)
                };
                &&& final(self).columns_view()[from] == (if from == to {
                    inserted
                } else {
                    rest
                })
                &&& (from == to || final(self).columns_view()[to] == inserted)
                &&& forall|i: int|
                    0 <= i < n && i != from && i != to ==> final(self).columns_view()[i] == old(
                        self,
                    ).columns_view()[i]
            }),
    {
        let n = self.columns.len();
        let from = (round - 1) % n;
        let to = round % n;
        proof {
            assert(round as int == (round - 1) as int + 1);
        }
        let ghost oldcols = self.columns_view();
        proof {
            assert(self.columns@[from as int]@ == self.columns_view()[from as int]);
        }
        let clapper = self.columns[from].remove(0);
        proof {
            assert(self.columns@.map_values(|c: Vec<u64>| c@) =~= oldcols.update(
                from as int,
                oldcols[from as int].drop_first(),
            ));
        }
        let ghost midcols = self.columns_view();
        let target_len = self.columns[to].len();
        proof {
            assert(self.columns@[to as int]@ == self.columns_view()[to as int]);
            assert(self.columns_view() == oldcols.update(
                from as int,
                oldcols[from as int].drop_first(),
            ));
            if to == from {
                assert(self.columns_view()[to as int] == oldcols[from as int].drop_first());
            } else {
                assert(self.columns_view()[to as int] == oldcols[to as int]);
            }
            assert(target_len <= 0x1000_0000);
            assert(target_len >= 1);
        }
        let cycle = 2 * target_len;
        let pos = (((clapper - 1) as u64) % (cycle as u64)) as usize;
        proof {
            assert(pos as int == (clapper - 1) as int % (cycle as int));
        }
        if pos > cycle / 2 {
            let back = cycle - (pos + 1);
            if back == target_len {
                self.columns[to].push(clapper);
                proof {
                    assert(self.columns@.map_values(|c: Vec<u64>| c@) =~= midcols.update(
                        to as int,
                        midcols[to as int].push(clapper),
                    ));
                    assert(midcols[to as int].push(clapper) =~= midcols[to as int].insert(
                        midcols[to as int].len() as int,
                        clapper,
                    ));
                }
            } else {
                self.columns[to].insert(back + 1, clapper);
                proof {
                    assert(self.columns@.map_values(|c: Vec<u64>| c@) =~= midcols.update(
                        to as int,
                        midcols[to as int].insert(back + 1, clapper),
                    ));
                }
            }
        } else {
            self.columns[to].insert(pos, clapper);
            proof {
                assert(self.columns@.map_values(|c: Vec<u64>| c@) =~= midcols.update(
                    to as int,
                    midcols[to as int].insert(pos as int, clapper),
                ));
            }
        }
    }

    /// The number shouted by the front dancer of column `i`.
    pub fn front(&self, i: usize) -> (r: u64)
        requires
            (i as int) < self.columns_view().len(),
            self.columns_view()[i as int].len() >= 1,
        ensures
            r == self.columns_view()[i as int][0],
    {
        self.columns[i][0]
    }
}

} // verus!
