//! The modelled physical memory: a contiguous run of 4 KiB frames, each held
//! as 512 little-endian 64-bit words. Page tables live in these frames
//! bit-for-bit; user data is read and written through the byte view.
use vstd::prelude::*;

use crate::address::PPN_BOUND;
use crate::config::WORDS_PER_PAGE;

verus! {

/// Physical memory: frames `first_ppn .. first_ppn + pages.len()`.
pub struct PhysMem {
    /// Frame number of the first modelled frame.
    pub first_ppn: u64,
    /// Word contents of each modelled frame, in frame-number order.
    pub pages: Vec<Vec<u64>>,
}

/// One byte of a 64-bit word: byte `k` counts from the low end, as a
/// little-endian RV64 hart stores it.
pub open spec fn word_byte(w: u64, k: u64) -> u8
    recommends
        k < 8,
{
    ((w >> ((8 * k) as u64)) & 0xff) as u8
}

/// The word with byte `k` replaced by `b` and every other byte kept.
pub open spec fn word_set_byte(w: u64, b: u8, k: u64) -> u64
    recommends
        k < 8,
{
    (w & !(0xffu64 << ((8 * k) as u64))) | ((b as u64) << ((8 * k) as u64))
}

/// Replacing one byte of a word changes that byte to the new value and no
/// other byte.
pub proof fn lemma_word_set_byte(w: u64, b: u8, k: u64, j: u64)
    by (bit_vector)
    requires
        k < 8,
        j < 8,
    ensures
        word_byte(word_set_byte(w, b, k), j) == if j == k {
            b
        } else {
            word_byte(w, j)
        },
{
}

impl PhysMem {
    /// Every modelled frame holds exactly `WORDS_PER_PAGE` words, and the
    /// modelled range stays below the 44-bit frame-number bound.
    pub open spec fn wf(self) -> bool {
        &&& forall|k: int|
            0 <= k < self.pages@.len() ==> (#[trigger] self.pages@[k])@.len() == WORDS_PER_PAGE
        &&& self.first_ppn + self.pages@.len() <= PPN_BOUND
    }

    /// True iff frame `ppn` is modelled.
    pub open spec fn contains_ppn(self, ppn: u64) -> bool {
        self.first_ppn <= ppn < self.first_ppn + self.pages@.len()
    }

    /// Word `i` of frame `ppn`; out-of-range reads yield zero, which every
    /// walker treats as an invalid entry.
    pub open spec fn word_at(self, ppn: u64, i: int) -> u64 {
        if self.contains_ppn(ppn) && 0 <= i < WORDS_PER_PAGE {
            self.pages@[ppn - self.first_ppn]@[i]
        } else {
            0
        }
    }

    /// Byte `off` of frame `ppn`, read out of the word view.
    pub open spec fn byte_at(self, ppn: u64, off: int) -> u8 {
        word_byte(self.word_at(ppn, off / 8), (off % 8) as u64)
    }

    /// Build a memory of `count` zeroed frames starting at frame
    /// `first_ppn`.
    pub fn new_zeroed(first_ppn: u64, count: usize) -> (r: PhysMem)
        requires
            first_ppn + count <= PPN_BOUND,
        ensures
            r.wf(),
            r.first_ppn == first_ppn,
            r.pages@.len() == count,
            forall|p: u64, i: int| r.word_at(p, i) == 0,
    {
        let mut pages: Vec<Vec<u64>> = Vec::new();
        let mut k: usize = 0;
        while k < count
            invariant
                k <= count,
                pages@.len() == k,
                forall|j: int|
                    0 <= j < k ==> (#[trigger] pages@[j])@ =~= Seq::<u64>::new(
                        WORDS_PER_PAGE as nat,
                        |i: int| 0u64,
                    ),
            decreases count - k,
        {
            let mut page: Vec<u64> = Vec::new();
            let mut i: usize = 0;
            while i < WORDS_PER_PAGE
                invariant
                    i <= WORDS_PER_PAGE,
                    page@ =~= Seq::<u64>::new(i as nat, |j: int| 0u64),
                decreases WORDS_PER_PAGE - i,
            {
                page.push(0);
                i = i + 1;
            }
            pages.push(page);
            k = k + 1;
        }
        let r = PhysMem { first_ppn, pages };
        assert forall|p: u64, i: int| r.word_at(p, i) == 0 by {
            if r.contains_ppn(p) && 0 <= i < WORDS_PER_PAGE {
                assert(r.pages@[p - r.first_ppn]@[i] == 0);
            }
        }
        r
    }

    /// Number of modelled frames.
    pub fn frame_count(&self) -> (r: usize)
        ensures
            r == self.pages@.len(),
    {
        self.pages.len()
    }

    /// Runtime test of `contains_ppn`.
    pub fn contains(&self, ppn: u64) -> (r: bool)
        ensures
            r == self.contains_ppn(ppn),
    {
        self.first_ppn <= ppn && ppn - self.first_ppn < self.pages.len() as u64
    }

    /// Read word `idx` of frame `ppn`.
    pub fn read_word(&self, ppn: u64, idx: usize) -> (r: u64)
        requires
            self.wf(),
            self.contains_ppn(ppn),
            idx < WORDS_PER_PAGE,
        ensures
            r == self.word_at(ppn, idx as int),
    {
        let n = self.pages.len();
        let k = (ppn - self.first_ppn) as usize;
        let page: &Vec<u64> = &self.pages[k];
        page[idx]
    }

    /// Write word `idx` of frame `ppn`, leaving every other word of every
    /// frame unchanged.
    pub fn write_word(&mut self, ppn: u64, idx: usize, val: u64)
        requires
            old(self).wf(),
            old(self).contains_ppn(ppn),
            idx < WORDS_PER_PAGE,
        ensures
            final(self).wf(),
            final(self).first_ppn == old(self).first_ppn,
            final(self).pages@.len() == old(self).pages@.len(),
            final(self).word_at(ppn, idx as int) == val,
            forall|p: u64, i: int|
                p != ppn || i != idx ==> #[trigger] final(self).word_at(p, i) == old(self).word_at(
                    p,
                    i,
                ),
    {
        let n = self.pages.len();
        let k = (ppn - self.first_ppn) as usize;
        let mut page = self.pages.remove(k);
        page.set(idx, val);
        self.pages.insert(k, page);
    }

    /// Read byte `off` of frame `ppn`.
    pub fn read_byte(&self, ppn: u64, off: usize) -> (r: u8)
        requires
            self.wf(),
            self.contains_ppn(ppn),
            off < 8 * WORDS_PER_PAGE,
        ensures
            r == self.byte_at(ppn, off as int),
    {
        let w = self.read_word(ppn, off / 8);
        let k: u64 = (off % 8) as u64;
        ((w >> (8 * k)) & 0xff) as u8
    }

    /// Write byte `off` of frame `ppn`, leaving every other byte of the
    /// frame and every other frame unchanged.
    pub fn write_byte(&mut self, ppn: u64, off: usize, b: u8)
        requires
            old(self).wf(),
            old(self).contains_ppn(ppn),
            off < 8 * WORDS_PER_PAGE,
        ensures
            final(self).wf(),
            final(self).first_ppn == old(self).first_ppn,
            final(self).pages@.len() == old(self).pages@.len(),
            final(self).byte_at(ppn, off as int) == b,
            forall|o: int|
                0 <= o < 8 * WORDS_PER_PAGE && o != off ==> #[trigger] final(self).byte_at(
                    ppn,
                    o,
                ) == old(self).byte_at(ppn, o),
            forall|p: u64, i: int|
                p != ppn ==> #[trigger] final(self).word_at(p, i) == old(self).word_at(p, i),
    {
        let idx: usize = off / 8;
        let k: u64 = (off % 8) as u64;
        let w = self.read_word(ppn, idx);
        let shift: u64 = 8 * k;
        let neww: u64 = (w & !(0xffu64 << shift)) | ((b as u64) << shift);
        assert(neww == word_set_byte(w, b, k));
        self.write_word(ppn, idx, neww);
        assert forall|o: int|
            0 <= o < 8 * WORDS_PER_PAGE && o != off implies #[trigger] self.byte_at(ppn, o) == old(
            self,
        ).byte_at(ppn, o) by {
            lemma_word_set_byte(w, b, k, (o % 8) as u64);
            if o / 8 == idx {
                assert(o % 8 != k as int);
            } else {
                assert(self.word_at(ppn, o / 8) == old(self).word_at(ppn, o / 8));
            }
        }
        proof {
            lemma_word_set_byte(w, b, k, k);
        }
    }

    /// Zero every word of frame `ppn`, leaving every other frame unchanged.
    pub fn zero_page(&mut self, ppn: u64)
        requires
            old(self).wf(),
            old(self).contains_ppn(ppn),
        ensures
            final(self).wf(),
            final(self).first_ppn == old(self).first_ppn,
            final(self).pages@.len() == old(self).pages@.len(),
            forall|i: int| #[trigger] final(self).word_at(ppn, i) == 0,
            forall|p: u64, i: int|
                p != ppn ==> #[trigger] final(self).word_at(p, i) == old(self).word_at(p, i),
    {
        let mut idx: usize = 0;
        while idx < WORDS_PER_PAGE
            invariant
                idx <= WORDS_PER_PAGE,
                self.wf(),
                self.first_ppn == old(self).first_ppn,
                self.pages@.len() == old(self).pages@.len(),
                self.contains_ppn(ppn),
                forall|i: int| 0 <= i < idx ==> #[trigger] self.word_at(ppn, i) == 0,
                forall|p: u64, i: int|
                    p != ppn ==> #[trigger] self.word_at(p, i) == old(self).word_at(p, i),
            decreases WORDS_PER_PAGE - idx,
        {
            self.write_word(ppn, idx, 0);
            idx = idx + 1;
        }
    }
}

} // verus!
