//! Slot machine wheels: each wheel spins by a fixed amount and shows one of
//! its slot faces; the shown faces form a sequence and their edge symbols a
//! score.

use vstd::prelude::*;

verus! {

/// Whether `c` is ASCII whitespace, as face padding is trimmed by.
pub open spec fn is_space(c: u8) -> bool {
    c == 32 || (9 <= c <= 13)
}

/// `s` without its leading whitespace.
pub open spec fn trim_start(s: Seq<u8>) -> Seq<u8>
    decreases s.len(),
{
    if s.len() > 0 && is_space(s[0]) {
        trim_start(s.drop_first())
    } else {
        s
    }
}

/// `s` without its trailing whitespace.
pub open spec fn trim_end(s: Seq<u8>) -> Seq<u8>
    decreases s.len(),
{
    if s.len() > 0 && is_space(s.last()) {
        trim_end(s.drop_last())
    } else {
        s
    }
}

/// `s` without leading and trailing whitespace.
pub open spec fn trimmed(s: Seq<u8>) -> Seq<u8> {
    trim_end(trim_start(s))
}

/// The dense id of symbol `c` in the first-encounter table `t`: its first
/// index where present, the next fresh id (the table size) where not.
pub open spec fn sym_id(t: Seq<u8>, c: u8) -> int
    decreases t.len(),
{
    if t.len() == 0 {
        0
    } else if t[0] == c {
        0
    } else {
        1 + sym_id(t.drop_first(), c)
    }
}

/// The table after encountering symbol `c`: unchanged where known, extended
/// by `c` where fresh.
pub open spec fn sym_add(t: Seq<u8>, c: u8) -> Seq<u8> {
    if t.contains(c) {
        t
    } else {
        t.push(c)
    }
}

proof fn lemma_sym_id_at(t: Seq<u8>, c: u8, i: int)
    requires
        0 <= i < t.len(),
        t[i] == c,
        forall|j: int| 0 <= j < i ==> t[j] != c,
    ensures
        sym_id(t, c) == i,
    decreases t.len(),
{
    if i > 0 {
        assert(t.drop_first()[i - 1] == t[i]);
        assert forall|j: int| 0 <= j < i - 1 implies t.drop_first()[j] != c by {
            assert(t.drop_first()[j] == t[j + 1]);
        }
        lemma_sym_id_at(t.drop_first(), c, i - 1);
    }
}

proof fn lemma_sym_id_absent(t: Seq<u8>, c: u8)
    requires
        forall|j: int| 0 <= j < t.len() ==> t[j] != c,
    ensures
        sym_id(t, c) == t.len(),
        !t.contains(c),
    decreases t.len(),
{
    if t.len() > 0 {
        assert forall|j: int| 0 <= j < t.drop_first().len() implies t.drop_first()[j] != c by {
            assert(t.drop_first()[j] == t[j + 1]);
        }
        lemma_sym_id_absent(t.drop_first(), c);
    }
}

/// Looks a symbol up in the first-encounter table, assigning it the next
/// dense id where it is new.
fn lookup_or_add(table: &mut Vec<u8>, c: u8) -> (r: u8)
    requires
        old(table)@.len() < 255,
    ensures
        r as int == sym_id(old(table)@, c),
        final(table)@ == sym_add(old(table)@, c),
{
    let n = table.len();
    let mut i: usize = 0;
    while i < n
        invariant
            i <= n,
            n == table@.len(),
            n < 255,
            forall|j: int| 0 <= j < i ==> table@[j] != c,
        decreases n - i,
    {
        if table[i] == c {
            proof {
                lemma_sym_id_at(table@, c, i as int);
                assert(table@.contains(c));
            }
            return i as u8;
        }
        i = i + 1;
    }
    proof {
        lemma_sym_id_absent(table@, c);
    }
    table.push(c);
    n as u8
}

/// One wheel: its spin step, its slot faces, and the first/last symbol pair
/// of each face as dense symbol ids.
pub struct Wheel {
    spin: u8,
    slots: Vec<Vec<u8>>,
    map: Vec<[u8; 2]>,
}

impl Wheel {
    /// A wheel with the given spin step and no slots yet.
    pub fn new(spin: u8) -> (r: Self)
        ensures
            r.spec_spin() == spin,
            r.slots_view().len() == 0,
            r.map_view().len() == 0,
    {
        Wheel { spin, slots: Vec::new(), map: Vec::new() }
    }

    pub closed spec fn spec_spin(&self) -> u8 {
        self.spin
    }

    pub closed spec fn slots_view(&self) -> Seq<Seq<u8>> {
        self.slots@.map_values(|s: Vec<u8>| s@)
    }

    pub closed spec fn map_view(&self) -> Seq<[u8; 2]> {
        self.map@
    }

    /// The face and symbol pair at slot `idx`.
    pub fn get(&self, idx: u8) -> (r: (&Vec<u8>, &[u8; 2]))
        requires
            (idx as int) < self.slots_view().len(),
            self.map_view().len() == self.slots_view().len(),
        ensures
            r.0@ == self.slots_view()[idx as int],
            r.1@ == self.map_view()[idx as int]@,
    {
        (&self.slots[idx as usize], &self.map[idx as usize])
    }

    /// Adds one slot face: whitespace padding is trimmed, a blank face is
    /// skipped, and the face's first and last symbols are assigned dense
    /// first-encounter ids through the shared symbol table.
    pub fn add_slot(&mut self, slot: &[u8], table: &mut Vec<u8>)
        requires
            old(table)@.len() + 2 <= 255,
        ensures
            trimmed(slot@).len() == 0 ==> *final(self) == *old(self) && final(table)@ == old(
                table,
            )@,
            trimmed(slot@).len() >= 1 ==> {
                let face = trimmed(slot@);
                let t1 = sym_add(old(table)@, face[0]);
                &&& final(self).slots_view() == old(self).slots_view().push(face)
                &&& final(self).map_view() == old(self).map_view().push(
                    [sym_id(old(table)@, face[0]) as u8, sym_id(t1, face.last()) as u8],
                )
                &&& final(table)@ == sym_add(t1, face.last())
                &&& final(self).spec_spin() == old(self).spec_spin()
            },
    {
        let n = slot.len();
        let mut start: usize = 0;
        proof {
            assert(slot@.skip(0) =~= slot@);
        }
        while start < n && (slot[start] == 32 || (9 <= slot[start] && slot[start] <= 13))
            invariant
                start <= n,
                n == slot@.len(),
                trim_start(slot@) == trim_start(slot@.skip(start as int)),
                forall|j: int| 0 <= j < start ==> is_space(slot@[j]),
            decreases n - start,
        {
            proof {
                assert(slot@.skip(start as int).drop_first() =~= slot@.skip(start + 1));
            }
            start = start + 1;
        }
        proof {
            assert(slot@.skip(start as int).len() == n - start);
            if start < n {
                assert(slot@.skip(start as int)[0] == slot@[start as int]);
                assert(trim_start(slot@) == slot@.skip(start as int));
            } else {
                assert(slot@.skip(start as int) =~= Seq::<u8>::empty());
                assert(trim_start(slot@) == slot@.skip(start as int));
            }
        }
        let mut end: usize = n;
        proof {
            assert(slot@.skip(start as int).take(n - start) =~= slot@.skip(start as int));
        }
        while end > start && (slot[end - 1] == 32 || (9 <= slot[end - 1] && slot[end - 1] <= 13))
            invariant
                start <= end <= n,
                n == slot@.len(),
                trim_start(slot@) == slot@.skip(start as int),
                trim_end(slot@.skip(start as int)) == trim_end(
                    slot@.skip(start as int).take(end - start),
                ),
            decreases end,
        {
            proof {
                let cur = slot@.skip(start as int).take(end - start);
                assert(cur.last() == slot@[end - 1]);
                assert(cur.drop_last() =~= slot@.skip(start as int).take(end - 1 - start));
            }
            end = end - 1;
        }
        proof {
            let cur = slot@.skip(start as int).take(end - start);
            if end > start {
                assert(cur.last() == slot@[end - 1]);
                assert(!is_space(cur.last()));
                assert(trim_end(cur) == cur);
            } else {
                assert(cur =~= Seq::<u8>::empty());
                assert(trim_end(cur) == cur);
            }
            assert(trimmed(slot@) == slot@.skip(start as int).take(end - start));
        }
        if end == start {
            return ;
        }
        let first = slot[start];
        let last = slot[end - 1];
        proof {
            let face = trimmed(slot@);
            assert(face[0] == slot@[start as int]);
            assert(face.last() == slot@[end - 1]);
        }
        let id1 = lookup_or_add(table, first);
        let id2 = lookup_or_add(table, last);
        let mut face: Vec<u8> = Vec::new();
        let mut i = start;
        while i < end
            invariant
                start <= i <= end <= n,
                n == slot@.len(),
                face@ == slot@.subrange(start as int, i as int),
            decreases end - i,
        {
            face.push(slot[i]);
            proof {
                assert(slot@.subrange(start as int, i + 1) =~= slot@.subrange(
                    start as int,
                    i as int,
                ).push(slot@[i as int]));
            }
            i = i + 1;
        }
        proof {
            assert(face@ =~= trimmed(slot@));
        }
        let ghost olds = self.slots@;
        self.slots.push(face);
        self.map.push([id1, id2]);
        proof {
            assert(self.slots@.map_values(|s: Vec<u8>| s@) =~= olds.map_values(
                |s: Vec<u8>| s@,
            ).push(self.slots@.last()@));
        }
    }
}

/// The symbol pairs of the faces shown by the first `n` wheels at the given
/// offsets.
pub open spec fn chosen_pairs(ws: Seq<Wheel>, off: Seq<u8>, n: int) -> Seq<[u8; 2]> {
    Seq::new(n as nat, |i: int| ws[i].map_view()[off[i] as int])
}

/// How often symbol `s` occurs among the pair entries.
pub open spec fn pair_count(ps: Seq<[u8; 2]>, s: int) -> int
    decreases ps.len(),
{
    if ps.len() == 0 {
        0
    } else {
        pair_count(ps.drop_last(), s) + (if ps.last()[0] == s {
            1int
        } else {
            0int
        }) + (if ps.last()[1] == s {
            1int
        } else {
            0int
        })
    }
}

/// The score contributed by symbols below `upto`: each symbol pays its
/// occurrence count beyond two.
pub open spec fn score_sum(ps: Seq<[u8; 2]>, upto: int) -> int
    decreases upto,
{
    if upto <= 0 {
        0
    } else {
        score_sum(ps, upto - 1) + (if pair_count(ps, upto - 1) > 2 {
            pair_count(ps, upto - 1) - 2
        } else {
            0int
        })
    }
}

/// The shown faces joined by single spaces.
pub open spec fn faces_joined(fs: Seq<Seq<u8>>) -> Seq<u8>
    decreases fs.len(),
{
    if fs.len() == 0 {
        Seq::<u8>::empty()
    } else if fs.len() == 1 {
        fs[0]
    } else {
        faces_joined(fs.drop_last()) + seq![32u8] + fs.last()
    }
}

/// Slot machine solver: the wheels.
pub struct Day16 {
    wheels: Vec<Wheel>,
}

impl Day16 {
    /// A machine with no wheels.
    pub fn new() -> (r: Self)
        ensures
            r.wheels_view().len() == 0,
    {
        Day16 { wheels: Vec::new() }
    }

    pub closed spec fn wheels_view(&self) -> Seq<Wheel> {
        self.wheels@
    }

    /// Adds one wheel.
    pub fn push_wheel(&mut self, w: Wheel)
        ensures
            final(self).wheels_view() == old(self).wheels_view().push(w),
    {
        self.wheels.push(w);
    }

    /// Whether the offsets select a valid slot of every wheel considered:
    /// the first `n` wheels, where `n` caps at the offset count.
    pub open spec fn offsets_ok(&self, off: Seq<u8>, n: int) -> bool {
        &&& n <= self.wheels_view().len()
        &&& n <= off.len()
        &&& forall|i: int|
            0 <= i < n ==> ((#[trigger] off[i]) as int) < self.wheels_view()[i].slots_view().len()
                && self.wheels_view()[i].map_view().len()
                == self.wheels_view()[i].slots_view().len()
    }

    /// The faces shown at the given offsets, joined by single spaces.
    pub fn sequence(&self, offset: &[u8; 12]) -> (r: Vec<u8>)
        requires
            self.offsets_ok(offset@, if self.wheels_view().len() <= 12 {
                self.wheels_view().len() as int
            } else {
                12
            }),
        ensures
            r@ == faces_joined(
                Seq::new(
                    (if self.wheels_view().len() <= 12 {
                        self.wheels_view().len() as int
                    } else {
                        12
                    }) as nat,
                    |i: int| self.wheels_view()[i].slots_view()[offset@[i] as int],
                ),
    ),
    {
        let n = if self.wheels.len() <= 12 {
            self.wheels.len()
        } else {
            12
        };
        let ghost faces = Seq::new(
            n as nat,
            |i: int| self.wheels_view()[i].slots_view()[offset@[i] as int],
        );
        let mut out: Vec<u8> = Vec::new();
        let mut i: usize = 0;
        while i < n
            invariant
                i <= n,
                n as int == (if self.wheels_view().len() <= 12 {
                    self.wheels_view().len() as int
                } else {
                    12int
                }),
                self.offsets_ok(offset@, n as int),
                faces == Seq::new(
                    n as nat,
                    |j: int| self.wheels_view()[j].slots_view()[offset@[j] as int],
                ),
                out@ == faces_joined(faces.take(i as int)),
            decreases n - i,
        {
            if i != 0 {
                out.push(32);
            }
            let w = &self.wheels[i];
            let (face, _) = w.get(offset[i]);
            let m = face.len();
            let ghost out_before = out@;
            let mut k: usize = 0;
            while k < m
                invariant
                    k <= m,
                    m == face@.len(),
                    out@ == out_before + face@.take(k as int),
                decreases m - k,
            {
                out.push(face[k]);
                proof {
                    assert(face@.take(k + 1) =~= face@.take(k as int).push(face@[k as int]));
                }
                k = k + 1;
            }
            proof {
                assert(face@.take(m as int) =~= face@);
                assert(face@ == faces[i as int]);
                assert(faces.take(i + 1).drop_last() =~= faces.take(i as int));
                assert(faces.take(i + 1).last() == faces[i as int]);
                if i == 0 {
                    assert(out@ =~= faces_joined(faces.take(1)));
                } else {
                    assert(out@ =~= faces_joined(faces.take(i as int)) + seq![32u8]
                        + faces[i as int]);
                }
            }
            i = i + 1;
        }
        proof {
            assert(faces.take(n as int) =~= faces);
        }
        out
    }

    /// The score of the faces shown at the given offsets: every edge symbol
    /// pays its occurrence count beyond two.
    pub fn score(&self, offset: &[u8; 12]) -> (r: u64)
        requires
            self.offsets_ok(offset@, if self.wheels_view().len() <= 12 {
                self.wheels_view().len() as int
            } else {
                12
            }),
            forall|i: int, b: int|
                0 <= i < (if self.wheels_view().len() <= 12 {
                    self.wheels_view().len() as int
                } else {
                    12int
                }) && 0 <= b < 2 ==> ((#[trigger] self.wheels_view()[i].map_view()[offset@[i] as int]@[b])
                    as int) < 64,
        ensures
            r == score_sum(
                chosen_pairs(
                    self.wheels_view(),
                    offset@,
                    if self.wheels_view().len() <= 12 {
                        self.wheels_view().len() as int
                    } else {
                        12
                    },
                ),
                64,
            ),
    {
        let n = if self.wheels.len() <= 12 {
            self.wheels.len()
        } else {
            12
        };
        let ghost ps = chosen_pairs(self.wheels_view(), offset@, n as int);
        let mut counts: Vec<u8> = Vec::new();
        let mut s: usize = 0;
        while s < 64
            invariant
                s <= 64,
                counts@.len() == s,
                forall|j: int| 0 <= j < s ==> (#[trigger] counts@[j]) == 0,
            decreases 64 - s,
        {
            counts.push(0);
            s = s + 1;
        }
        proof {
            assert forall|j: int| 0 <= j < 64 implies (#[trigger] counts@[j]) as int == pair_count(
                ps.take(0),
                j,
            ) by {
                assert(ps.take(0).len() == 0);
            }
        }
        let mut i: usize = 0;
        while i < n
            invariant
                i <= n,
                n as int == (if self.wheels_view().len() <= 12 {
                    self.wheels_view().len() as int
                } else {
                    12int
                }),
                n <= 12,
                self.offsets_ok(offset@, n as int),
                forall|ii: int, b: int|
                    0 <= ii < n && 0 <= b < 2 ==> ((
                    #[trigger] self.wheels_view()[ii].map_view()[offset@[ii] as int]@[b]) as int)
                        < 64,
                ps == chosen_pairs(self.wheels_view(), offset@, n as int),
                counts@.len() == 64,
                forall|j: int|
                    0 <= j < 64 ==> (#[trigger] counts@[j]) as int == pair_count(
                        ps.take(i as int),
                        j,
                    ) && counts@[j] <= 2 * i,
            decreases n - i,
        {
            let w = &self.wheels[i];
            let (_, pair) = w.get(offset[i]);
            let a = pair[0];
            let b = pair[1];
            proof {
                assert(ps[i as int] == self.wheels_view()[i as int].map_view()[offset@[i as int] as int]);
                assert(ps[i as int]@[0] == a && ps[i as int]@[1] == b);
                assert((a as int) < 64 && (b as int) < 64);
                assert(ps.take(i + 1).drop_last() =~= ps.take(i as int));
                assert(ps.take(i + 1).last() == ps[i as int]);
            }
            let ca = counts[a as usize];
            counts[a as usize] = ca + 1;
            let cb = counts[b as usize];
            counts[b as usize] = cb + 1;
            proof {
                assert forall|j: int| 0 <= j < 64 implies (#[trigger] counts@[j]) as int
                    == pair_count(ps.take(i + 1), j) && counts@[j] <= 2 * (i + 1) by {
                    assert(pair_count(ps.take(i + 1), j) == pair_count(ps.take(i as int), j) + (
                    if ps[i as int][0] == j {
                        1int
                    } else {
                        0int
                    }) + (if ps[i as int][1] == j {
                        1int
                    } else {
                        0int
                    }));
                }
            }
            i = i + 1;
        }
        proof {
            assert(ps.take(n as int) =~= ps);
        }
        let mut total: u64 = 0;
        let mut s2: usize = 0;
        while s2 < 64
            invariant
                s2 <= 64,
                counts@.len() == 64,
                forall|j: int| 0 <= j < 64 ==> (#[trigger] counts@[j]) as int == pair_count(ps, j),
                total == score_sum(ps, s2 as int),
                total <= 255 * s2,
            decreases 64 - s2,
        {
            let c = counts[s2];
            let add: u64 = if c > 2 {
                (c - 2) as u64
            } else {
                0
            };
            total = total + add;
            s2 = s2 + 1;
        }
        total
    }
}

} // verus!
