//! Rune word scanning over a grid of inscription lines.

use vstd::prelude::*;

verus! {

/// Inscription solver: holds the rune words and the inscription lines.
pub struct Day02 {
    words: Vec<Vec<u8>>,
    lines: Vec<Vec<u8>>,
}

/// Whether `word` stands at position `i` of `line`.
pub open spec fn word_at(line: Seq<u8>, word: Seq<u8>, i: int) -> bool {
    &&& 0 <= i
    &&& i + word.len() <= line.len()
    &&& forall|k: int| 0 <= k < word.len() ==> line[i + k] == (#[trigger] word[k])
}

impl Day02 {
    /// An empty inscription.
    pub fn new() -> (r: Self)
        ensures
            r.words_view().len() == 0,
            r.lines_view().len() == 0,
    {
        Day02 { words: Vec::new(), lines: Vec::new() }
    }

    pub closed spec fn words_view(&self) -> Seq<Seq<u8>> {
        self.words@.map_values(|w: Vec<u8>| w@)
    }

    pub closed spec fn lines_view(&self) -> Seq<Seq<u8>> {
        self.lines@.map_values(|l: Vec<u8>| l@)
    }

    /// Adds one rune word.
    pub fn add_word(&mut self, word: Vec<u8>)
        ensures
            final(self).words_view() == old(self).words_view().push(word@),
            final(self).lines_view() == old(self).lines_view(),
    {
        let ghost oldw = self.words@;
        self.words.push(word);
        proof {
            assert(self.words@.map_values(|w: Vec<u8>| w@) =~= oldw.map_values(
                |w: Vec<u8>| w@,
            ).push(self.words@.last()@));
        }
    }

    /// Adds one inscription line.
    pub fn add_line(&mut self, line: Vec<u8>)
        ensures
            final(self).lines_view() == old(self).lines_view().push(line@),
            final(self).words_view() == old(self).words_view(),
    {
        let ghost oldl = self.lines@;
        self.lines.push(line);
        proof {
            assert(self.lines@.map_values(|l: Vec<u8>| l@) =~= oldl.map_values(
                |l: Vec<u8>| l@,
            ).push(self.lines@.last()@));
        }
    }

    /// Whether some rune word stands at position `i` of line `li`.
    pub fn word_starts_at(&self, li: usize, i: usize) -> (r: bool)
        requires
            (li as int) < self.lines_view().len(),
            (i as int) <= self.lines_view()[li as int].len(),
        ensures
            r <==> exists|wi: int|
                0 <= wi < self.words_view().len() && word_at(
                    self.lines_view()[li as int],
                    #[trigger] self.words_view()[wi],
                    i as int,
                ),
    {
        let line = &self.lines[li];
        let nw = self.words.len();
        let mut wi: usize = 0;
        while wi < nw
            invariant
                wi <= nw,
                nw == self.words@.len(),
                (li as int) < self.lines@.len(),
                i <= line@.len(),
                line@ == self.lines_view()[li as int],
                forall|w: int|
                    0 <= w < wi ==> !word_at(
                        self.lines_view()[li as int],
                        #[trigger] self.words_view()[w],
                        i as int,
                    ),
            decreases nw - wi,
        {
            let word = &self.words[wi];
            let wl = word.len();
            proof {
                assert(word@ == self.words_view()[wi as int]);
            }
            if wl <= line.len() - i {
                let mut k: usize = 0;
                let mut matches = true;
                while k < wl
                    invariant
                        k <= wl,
                        wl == word@.len(),
                        i + wl <= line@.len(),
                        line@.len() <= usize::MAX,
                        matches <==> forall|kk: int|
                            0 <= kk < k ==> line@[i + kk] == (#[trigger] word@[kk]),
                    decreases wl - k,
                {
                    if line[i + k] != word[k] {
                        matches = false;
                        proof {
                            assert(line@[i + k] != word@[k as int]);
                        }
                        k = wl;
                    } else {
                        k = k + 1;
                    }
                }
                if matches {
                    proof {
                        assert(word_at(self.lines_view()[li as int], word@, i as int));
                    }
                    return true;
                }
                proof {
                    assert(!word_at(self.lines_view()[li as int], word@, i as int));
                }
            } else {
                proof {
                    assert(!word_at(self.lines_view()[li as int], word@, i as int));
                }
            }
            wi = wi + 1;
        }
        false
    }
}

} // verus!
