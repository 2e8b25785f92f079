//! The memory that translation tables live in, seen as 512 words per frame.

use vstd::prelude::*;

use crate::mm::definitions::Frame;

verus! {

/// Word-wise access to the frames that can hold translation tables.
///
/// The kernel implements this over its window onto physical memory;
/// `TableArena` implements it over a vector. An implementation promises that
/// a word reads back as it was last written and that a write or a clearing
/// touches nothing else. Of an implementation that is not verified this
/// promise is taken on trust; such an implementation leaves `holds` and
/// `word` as they stand here, where they say nothing.
pub trait TableMemory {
    /// Whether frame `frame` can be read and written through `self`.
    open spec fn holds(&self, frame: int) -> bool {
        arbitrary()
    }

    /// The content of word `index` of frame `frame`.
    open spec fn word(&self, frame: int, index: int) -> u64 {
        arbitrary()
    }

    /// Whether `frame` can be read and written through `self`.
    fn has(&self, frame: Frame) -> (r: bool)
        ensures
            r == self.holds(frame@),
    ;

    fn read(&self, frame: Frame, index: usize) -> (r: u64)
        requires
            self.holds(frame@),
            index < 512,
        ensures
            r == self.word(frame@, index as int),
    ;

    fn write(&mut self, frame: Frame, index: usize, value: u64)
        requires
            old(self).holds(frame@),
            index < 512,
        ensures
            forall|f: int| final(self).holds(f) == old(self).holds(f),
            forall|f: int, i: int| #[trigger]
                final(self).word(f, i) == if f == frame@ && i == index {
                    value
                } else {
                    old(self).word(f, i)
                },
    ;

    /// Sets all 512 words of `frame` to zero.
    fn clear(&mut self, frame: Frame)
        requires
            old(self).holds(frame@),
        ensures
            forall|f: int| final(self).holds(f) == old(self).holds(f),
            forall|f: int, i: int| #[trigger]
                final(self).word(f, i) == if f == frame@ && 0 <= i < 512 {
                    0
                } else {
                    old(self).word(f, i)
                },
    ;
}

/// Table memory for the frames `0..n`, kept in a vector.
pub struct TableArena {
    words: Vec<u64>,
}

impl TableArena {
    /// The words of all frames, frame after frame.
    pub closed spec fn contents(&self) -> Seq<u64> {
        self.words@
    }

    /// An arena of `frames` frames, all words zero.
    pub fn new(frames: usize) -> (r: Self)
        requires
            frames * 512 <= usize::MAX,
        ensures
            forall|f: int| r.holds(f) == (0 <= f < frames),
            forall|f: int, i: int| r.holds(f) && 0 <= i < 512 ==> #[trigger] r.word(f, i) == 0,
    {
        let n: usize = frames * 512;
        let mut words: Vec<u64> = Vec::new();
        let mut k: usize = 0;
        while k < n
            invariant
                k <= n,
                words@.len() == k,
                forall|j: int| 0 <= j < k ==> words@[j] == 0,
            decreases n - k,
        {
            words.push(0);
            k += 1;
        }
        Self { words }
    }

    /// The number of frames in the arena.
    pub fn frame_count(&self) -> (r: usize)
        ensures
            forall|f: int| self.holds(f) == (0 <= f < r),
    {
        self.words.len() / 512
    }
}

impl TableMemory for TableArena {
    open spec fn holds(&self, frame: int) -> bool {
        0 <= frame && (frame + 1) * 512 <= self.contents().len()
    }

    open spec fn word(&self, frame: int, index: int) -> u64 {
        if self.holds(frame) && 0 <= index < 512 {
            self.contents()[frame * 512 + index]
        } else {
            0
        }
    }

    fn has(&self, frame: Frame) -> (r: bool) {
        let n: usize = self.words.len() / 512;
        frame.0 < n as u64
    }

    fn read(&self, frame: Frame, index: usize) -> (r: u64) {
        let n = self.words.len();
        assert(frame@ * 512 + index < n);
        let at: usize = (frame.0 as usize) * 512 + index;
        self.words[at]
    }

    fn write(&mut self, frame: Frame, index: usize, value: u64) {
        let n = self.words.len();
        assert(frame@ * 512 + index < n);
        let at: usize = (frame.0 as usize) * 512 + index;
        self.words.set(at, value);
        proof {
            assert forall|f: int, i: int| #[trigger]
                final(self).word(f, i) == if f == frame@ && i == index {
                    value
                } else {
                    old(self).word(f, i)
                } by {
                if self.holds(f) && 0 <= i < 512 {
                    assert(f * 512 + i == at <==> f == frame@ && i == index);
                }
            }
        }
    }

    fn clear(&mut self, frame: Frame) {
        let n = self.words.len();
        assert(frame@ * 512 + 512 <= n);
        let base: usize = (frame.0 as usize) * 512;
        let mut k: usize = 0;
        while k < 512
            invariant
                k <= 512,
                base == frame@ * 512,
                base + 512 <= self.words@.len(),
                self.words@.len() == old(self).words@.len(),
                forall|j: int|
                    0 <= j < self.words@.len() ==> self.words@[j] == if base <= j < base + k {
                        0
                    } else {
                        old(self).words@[j]
                    },
            decreases 512 - k,
        {
            self.words.set(base + k, 0);
            k += 1;
        }
        proof {
            assert forall|f: int, i: int| #[trigger]
                final(self).word(f, i) == if f == frame@ && 0 <= i < 512 {
                    0
                } else {
                    old(self).word(f, i)
                } by {
                if self.holds(f) && 0 <= i < 512 {
                    assert(base <= f * 512 + i < base + 512 <==> f == frame@);
                }
            }
        }
    }
}

} // verus!
