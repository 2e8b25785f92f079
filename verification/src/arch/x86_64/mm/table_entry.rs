//! One 64-bit entry of a translation table, and the split of a page number
//! into the four table indices.

use vstd::prelude::*;

use crate::mm::definitions::{Frame, Page, PageFlags};

verus! {

/// Bit 0: the entry is in use.
pub const PRESENT: u64 = 0x1;

/// Bit 1: writes are allowed.
pub const WRITABLE: u64 = 0x2;

/// Bit 2: user mode may use the translation.
pub const USERMODE: u64 = 0x4;

/// Bit 7: at level three or two, the entry maps a large page itself.
pub const HUGE: u64 = 0x80;

/// Bit 8: the translation survives a switch of address space.
pub const GLOBAL: u64 = 0x100;

/// Bit 63: instruction fetches are refused.
pub const NO_EXECUTE: u64 = 0x8000_0000_0000_0000;

/// Bits 12 to 51: the physical frame index.
pub const FRAME_MASK: u64 = 0x000f_ffff_ffff_f000;

/// One more than the largest frame index that an entry can hold.
pub const FRAME_LIMIT: u64 = 0x100_0000_0000;

/// The number of entries in a table.
pub const TABLE_ENTRIES: usize = 512;

pub open spec fn raw_present(e: u64) -> bool {
    e & 0x1 != 0
}

pub open spec fn raw_writable(e: u64) -> bool {
    e & 0x2 != 0
}

pub open spec fn raw_usermode(e: u64) -> bool {
    e & 0x4 != 0
}

pub open spec fn raw_huge(e: u64) -> bool {
    e & 0x80 != 0
}

pub open spec fn raw_global(e: u64) -> bool {
    e & 0x100 != 0
}

pub open spec fn raw_executable(e: u64) -> bool {
    e & 0x8000_0000_0000_0000 == 0
}

pub open spec fn raw_frame(e: u64) -> u64 {
    (e >> 12) & 0xff_ffff_ffff
}

/// Every field of `a` but the one under `mask` equals that of `b`.
pub open spec fn same_but(a: u64, b: u64, mask: u64) -> bool {
    &&& mask == 0x1 || raw_present(a) == raw_present(b)
    &&& mask == 0x2 || raw_writable(a) == raw_writable(b)
    &&& mask == 0x4 || raw_usermode(a) == raw_usermode(b)
    &&& raw_huge(a) == raw_huge(b)
    &&& mask == 0x100 || raw_global(a) == raw_global(b)
    &&& mask == 0x8000_0000_0000_0000 || raw_executable(a) == raw_executable(b)
    &&& mask == 0x000f_ffff_ffff_f000 || raw_frame(a) == raw_frame(b)
}

proof fn lemma_present(e: u64)
    by (bit_vector)
    ensures
        raw_present(e | 0x1),
        !raw_present(e & !0x1u64),
        same_but(e | 0x1, e, 0x1),
        same_but(e & !0x1u64, e, 0x1),
{
}

proof fn lemma_writable(e: u64)
    by (bit_vector)
    ensures
        raw_writable(e | 0x2),
        !raw_writable(e & !0x2u64),
        same_but(e | 0x2, e, 0x2),
        same_but(e & !0x2u64, e, 0x2),
{
}

proof fn lemma_usermode(e: u64)
    by (bit_vector)
    ensures
        raw_usermode(e | 0x4),
        !raw_usermode(e & !0x4u64),
        same_but(e | 0x4, e, 0x4),
        same_but(e & !0x4u64, e, 0x4),
{
}

proof fn lemma_global(e: u64)
    by (bit_vector)
    ensures
        raw_global(e | 0x100),
        !raw_global(e & !0x100u64),
        same_but(e | 0x100, e, 0x100),
        same_but(e & !0x100u64, e, 0x100),
{
}

proof fn lemma_executable(e: u64)
    by (bit_vector)
    ensures
        !raw_executable(e | 0x8000_0000_0000_0000),
        raw_executable(e & !0x8000_0000_0000_0000u64),
        same_but(e | 0x8000_0000_0000_0000, e, 0x8000_0000_0000_0000),
        same_but(e & !0x8000_0000_0000_0000u64, e, 0x8000_0000_0000_0000),
{
}

proof fn lemma_frame(e: u64, f: u64)
    by (bit_vector)
    requires
        f < 0x100_0000_0000,
    ensures
        raw_frame((e & 0xfff0_0000_0000_03ffu64) | (f << 12)) == f,
        same_but((e & 0xfff0_0000_0000_03ffu64) | (f << 12), e, 0x000f_ffff_ffff_f000),
        f << 12 == f * 4096,
{
}

proof fn lemma_frame_bound(e: u64)
    by (bit_vector)
    ensures
        raw_frame(e) < 0x100_0000_0000,
{
}

/// The entry with no bit set grants nothing and names frame zero.
pub proof fn lemma_zero_entry()
    by (bit_vector)
    ensures
        !raw_present(0),
        !raw_writable(0),
        !raw_usermode(0),
        !raw_huge(0),
        !raw_global(0),
        raw_executable(0),
        raw_frame(0) == 0,
{
}

/// One entry of a translation table.
#[derive(Clone, Copy, Debug, PartialEq, Eq, Structural)]
pub struct TableEntry(pub u64);

impl TableEntry {
    pub open spec fn present(self) -> bool {
        raw_present(self.0)
    }

    pub open spec fn writable(self) -> bool {
        raw_writable(self.0)
    }

    pub open spec fn usermode(self) -> bool {
        raw_usermode(self.0)
    }

    pub open spec fn huge(self) -> bool {
        raw_huge(self.0)
    }

    pub open spec fn global(self) -> bool {
        raw_global(self.0)
    }

    /// Whether instructions may be fetched: the no-execute bit is clear.
    pub open spec fn executable(self) -> bool {
        raw_executable(self.0)
    }

    pub open spec fn frame(self) -> int {
        raw_frame(self.0) as int
    }

    /// The permissions that the entry grants.
    pub open spec fn flags(self) -> PageFlags {
        PageFlags {
            writable: self.writable(),
            usermode: self.usermode(),
            executable: self.executable(),
        }
    }

    /// Every field of `self` but the one under `mask` equals that of `other`.
    pub open spec fn same_but(self, other: Self, mask: u64) -> bool {
        same_but(self.0, other.0, mask)
    }

    pub fn get_present(&self) -> (r: bool)
        ensures
            r == self.present(),
    {
        self.0 & PRESENT != 0
    }

    pub fn set_present(self, val: bool) -> (r: Self)
        ensures
            r.present() == val,
            r.same_but(self, PRESENT),
    {
        proof {
            lemma_present(self.0);
        }
        if val {
            Self(self.0 | PRESENT)
        } else {
            Self(self.0 & !PRESENT)
        }
    }

    pub fn get_writable(&self) -> (r: bool)
        ensures
            r == self.writable(),
    {
        self.0 & WRITABLE != 0
    }

    pub fn set_writable(self, val: bool) -> (r: Self)
        ensures
            r.writable() == val,
            r.same_but(self, WRITABLE),
    {
        proof {
            lemma_writable(self.0);
        }
        if val {
            Self(self.0 | WRITABLE)
        } else {
            Self(self.0 & !WRITABLE)
        }
    }

    pub fn get_usermode(&self) -> (r: bool)
        ensures
            r == self.usermode(),
    {
        self.0 & USERMODE != 0
    }

    pub fn set_usermode(self, val: bool) -> (r: Self)
        ensures
            r.usermode() == val,
            r.same_but(self, USERMODE),
    {
        proof {
            lemma_usermode(self.0);
        }
        if val {
            Self(self.0 | USERMODE)
        } else {
            Self(self.0 & !USERMODE)
        }
    }

    pub fn get_global(&self) -> (r: bool)
        ensures
            r == self.global(),
    {
        self.0 & GLOBAL != 0
    }

    pub fn set_global(self, val: bool) -> (r: Self)
        ensures
            r.global() == val,
            r.same_but(self, GLOBAL),
    {
        proof {
            lemma_global(self.0);
        }
        if val {
            Self(self.0 | GLOBAL)
        } else {
            Self(self.0 & !GLOBAL)
        }
    }

    pub fn get_executable(&self) -> (r: bool)
        ensures
            r == self.executable(),
    {
        self.0 & NO_EXECUTE == 0
    }

    /// Allows or refuses instruction fetches, by clearing or setting the
    /// no-execute bit.
    pub fn set_executable(self, val: bool) -> (r: Self)
        ensures
            r.executable() == val,
            r.same_but(self, NO_EXECUTE),
    {
        proof {
            lemma_executable(self.0);
        }
        if val {
            Self(self.0 & !NO_EXECUTE)
        } else {
            Self(self.0 | NO_EXECUTE)
        }
    }

    pub fn get_frame(&self) -> (r: Frame)
        ensures
            r@ == self.frame(),
            r@ < FRAME_LIMIT,
    {
        proof {
            lemma_frame_bound(self.0);
        }
        Frame::new((self.0 >> 12) & 0xff_ffff_ffff)
    }

    /// Stores the frame index, which must fit the forty bits of the field.
    pub fn set_frame(self, frame: Frame) -> (r: Self)
        requires
            frame@ < FRAME_LIMIT,
        ensures
            r.frame() == frame@,
            r.same_but(self, FRAME_MASK),
    {
        proof {
            lemma_frame(self.0, frame.0);
        }
        Self((self.0 & 0xfff0_0000_0000_03ff) | (frame.0 << 12))
    }

    pub fn get_huge(self) -> (r: bool)
        ensures
            r == self.huge(),
    {
        self.0 & HUGE != 0
    }

    /// The entry with no bit set: not present.
    pub fn empty() -> (r: Self)
        ensures
            r.0 == 0,
            !r.present(),
            !r.writable(),
            !r.usermode(),
            !r.huge(),
            !r.global(),
            r.executable(),
            r.frame() == 0,
    {
        proof {
            lemma_zero_entry();
        }
        Self(0)
    }

    pub fn is_empty(self) -> (r: bool)
        ensures
            r == (self.0 == 0),
    {
        self.0 == 0
    }
}

/// The index into the level-four table for page number `page`.
pub open spec fn index4(page: int) -> int {
    (page / 0x800_0000) % 512
}

/// The index into the level-three table for page number `page`.
pub open spec fn index3(page: int) -> int {
    (page / 0x4_0000) % 512
}

/// The index into the level-two table for page number `page`.
pub open spec fn index2(page: int) -> int {
    (page / 0x200) % 512
}

/// The index into the level-one table for page number `page`.
pub open spec fn index1(page: int) -> int {
    page % 512
}

/// The part of a page number that translation looks at: its low 36 bits.
pub open spec fn slot(page: int) -> int {
    page % 0x10_0000_0000
}

proof fn lemma_indices(p: u64)
    by (bit_vector)
    ensures
        (p >> 27) & 0x1ff == (p / 0x800_0000) % 512,
        (p >> 18) & 0x1ff == (p / 0x4_0000) % 512,
        (p >> 9) & 0x1ff == (p / 0x200) % 512,
        p & 0x1ff == p % 512,
{
}

pub fn get_page_index_4(page: Page) -> (r: usize)
    ensures
        r == index4(page@),
        r < 512,
{
    proof {
        lemma_indices(page.0);
    }
    ((page.0 >> 27) & 0x1ff) as usize
}

pub fn get_page_index_3(page: Page) -> (r: usize)
    ensures
        r == index3(page@),
        r < 512,
{
    proof {
        lemma_indices(page.0);
    }
    ((page.0 >> 18) & 0x1ff) as usize
}

pub fn get_page_index_2(page: Page) -> (r: usize)
    ensures
        r == index2(page@),
        r < 512,
{
    proof {
        lemma_indices(page.0);
    }
    ((page.0 >> 9) & 0x1ff) as usize
}

pub fn get_page_index_1(page: Page) -> (r: usize)
    ensures
        r == index1(page@),
        r < 512,
{
    proof {
        lemma_indices(page.0);
    }
    (page.0 & 0x1ff) as usize
}

/// The page number whose four table indices are `indices`, highest level
/// first.
pub fn index_to_page(indices: &[usize; 4]) -> (r: Page)
    requires
        forall|i: int| 0 <= i < 4 ==> indices[i] < 512,
    ensures
        r@ == ((indices[0] * 512 + indices[1]) * 512 + indices[2]) * 512 + indices[3],
        index4(r@) == indices[0],
        index3(r@) == indices[1],
        index2(r@) == indices[2],
        index1(r@) == indices[3],
        slot(r@) == r@,
{
    let mut idx: u64 = indices[0] as u64;
    let mut i: usize = 1;
    while i < 4
        invariant
            1 <= i <= 4,
            forall|k: int| 0 <= k < 4 ==> indices[k] < 512,
            i == 1 ==> idx == indices[0],
            i == 2 ==> idx == indices[0] * 512 + indices[1],
            i == 3 ==> idx == (indices[0] * 512 + indices[1]) * 512 + indices[2],
            i == 4 ==> idx == ((indices[0] * 512 + indices[1]) * 512 + indices[2]) * 512
                + indices[3],
        decreases 4 - i,
    {
        idx = idx * 512 + indices[i] as u64;
        i += 1;
    }
    Page::new(idx)
}

} // verus!
