//! Addresses, frames, pages and contiguous regions of them.

use vstd::prelude::*;

verus! {

/// Bytes in one physical frame and in one virtual page.
pub const FRAME_SIZE: u64 = 4096;

/// First address of the kernel half of virtual memory.
pub const KERNEL_REGION_BEGIN: u64 = 0xffff_8000_0000_0000;

/// Base of the window through which all physical memory is visible.
pub const PHYSICAL_MAP_BEGIN: u64 = 0xffff_8100_0000_0000;

pub const PHYSICAL_MAP_SIZE: u64 = 0x0000_0100_0000_0000;

pub const PHYSICAL_MAP_END: u64 = PHYSICAL_MAP_BEGIN + PHYSICAL_MAP_SIZE;

pub const KERNEL_HEAP_BEGIN: u64 = 0xffff_8200_0000_0000;

pub const KERNEL_HEAP_SIZE: u64 = 16 * 1024 * 1024;

pub const KERNEL_HEAP_END: u64 = KERNEL_HEAP_BEGIN + KERNEL_HEAP_SIZE;

/// Base of the per-task kernel stack slots.
pub const KERNEL_STACK_BEGIN: u64 = 0xffff_8800_0000_0000;

pub const KERNEL_STACK_SIZE: u64 = 0x0000_0100_0000_0000;

/// Top of the interrupt stack that every task shares.
pub const KERNEL_ISTACK_END: u64 = 0xffff_8900_0000_0000;

pub const APP_STACK_END: u64 = 0x8000_0000_0000;

pub const APP_STACK_BEGIN: u64 = APP_STACK_END - FRAME_SIZE;

/// A physical address.
#[derive(Debug, Clone, Copy, PartialEq, Eq, Structural, PartialOrd, Ord)]
pub struct PhysAddress(pub u64);

impl View for PhysAddress {
    type V = int;

    open spec fn view(&self) -> int {
        self.0 as int
    }
}

impl PhysAddress {
    pub fn new(addr: u64) -> (r: Self)
        ensures
            r@ == addr,
    {
        Self(addr)
    }

    /// The frame that contains this address.
    pub fn get_frame(self) -> (r: Frame)
        ensures
            r@ == self@ / 4096,
    {
        Frame::new(self.0 / FRAME_SIZE)
    }

    pub fn as_u64(self) -> (r: u64)
        ensures
            r == self@,
    {
        self.0
    }

    /// The address as a machine word, where it fits one.
    pub fn as_usize(self) -> (r: usize)
        requires
            self@ <= usize::MAX,
        ensures
            r == self@,
    {
        self.0 as usize
    }
}

/// A virtual address.
#[derive(Debug, Clone, Copy, PartialEq, Eq, Structural, PartialOrd, Ord)]
pub struct VirtAddress(pub u64);

impl View for VirtAddress {
    type V = int;

    open spec fn view(&self) -> int {
        self.0 as int
    }
}

impl VirtAddress {
    pub fn new(addr: u64) -> (r: Self)
        ensures
            r@ == addr,
    {
        Self(addr)
    }

    /// The page that contains this address.
    pub fn get_page(self) -> (r: Page)
        ensures
            r@ == self@ / 4096,
    {
        Page::new(self.0 / FRAME_SIZE)
    }

    pub fn as_u64(self) -> (r: u64)
        ensures
            r == self@,
    {
        self.0
    }

    /// The address as a machine word, where it fits one.
    pub fn as_usize(self) -> (r: usize)
        requires
            self@ <= usize::MAX,
        ensures
            r == self@,
    {
        self.0 as usize
    }
}

/// The index of one physical frame.
#[derive(Debug, Clone, Copy, PartialEq, Eq, Structural, PartialOrd, Ord)]
pub struct Frame(pub u64);

impl View for Frame {
    type V = int;

    open spec fn view(&self) -> int {
        self.0 as int
    }
}

impl Frame {
    pub fn new(index: u64) -> (r: Self)
        ensures
            r@ == index,
    {
        Self(index)
    }

    pub fn zero() -> (r: Self)
        ensures
            r@ == 0,
    {
        Self::new(0)
    }

    pub fn is_zero(self) -> (r: bool)
        ensures
            r == (self@ == 0),
    {
        self.0 == 0
    }

    pub fn get_index(self) -> (r: u64)
        ensures
            r == self@,
    {
        self.0
    }

    /// The frame `o` places after this one (before it, for a negative `o`).
    pub fn offset(self, o: i64) -> (r: Self)
        requires
            0 <= self@ + o <= u64::MAX,
        ensures
            r@ == self@ + o,
    {
        Self::new(displaced(self.0, o))
    }

    /// The signed distance from `other` to this frame.
    pub fn offset_from(self, other: Self) -> (r: i64)
        requires
            i64::MIN <= self@ - other@ <= i64::MAX,
        ensures
            r == self@ - other@,
    {
        signed_difference(self.0, other.0)
    }

    /// The address of the first byte of this frame.
    pub fn address(self) -> (r: PhysAddress)
        requires
            self@ * 4096 <= u64::MAX,
        ensures
            r@ == self@ * 4096,
    {
        PhysAddress::new(self.0 * FRAME_SIZE)
    }
}

/// The index of one virtual page.
#[derive(Debug, Clone, Copy, PartialEq, Eq, Structural, PartialOrd, Ord)]
pub struct Page(pub u64);

impl View for Page {
    type V = int;

    open spec fn view(&self) -> int {
        self.0 as int
    }
}

impl Page {
    pub fn new(index: u64) -> (r: Self)
        ensures
            r@ == index,
    {
        Self(index)
    }

    pub fn zero() -> (r: Self)
        ensures
            r@ == 0,
    {
        Self::new(0)
    }

    pub fn is_zero(self) -> (r: bool)
        ensures
            r == (self@ == 0),
    {
        self.0 == 0
    }

    pub fn get_index(self) -> (r: u64)
        ensures
            r == self@,
    {
        self.0
    }

    /// The page `o` places after this one (before it, for a negative `o`).
    pub fn offset(self, o: i64) -> (r: Self)
        requires
            0 <= self@ + o <= u64::MAX,
        ensures
            r@ == self@ + o,
    {
        Self::new(displaced(self.0, o))
    }

    /// The signed distance from `other` to this page.
    pub fn offset_from(self, other: Self) -> (r: i64)
        requires
            i64::MIN <= self@ - other@ <= i64::MAX,
        ensures
            r == self@ - other@,
    {
        signed_difference(self.0, other.0)
    }

    /// The address of the first byte of this page.
    pub fn address(self) -> (r: VirtAddress)
        requires
            self@ * 4096 <= u64::MAX,
        ensures
            r@ == self@ * 4096,
    {
        VirtAddress::new(self.0 * FRAME_SIZE)
    }
}

fn displaced(base: u64, o: i64) -> (r: u64)
    requires
        0 <= base + o <= u64::MAX,
    ensures
        r == base + o,
{
    if o >= 0 {
        base + (o as u64)
    } else if o == i64::MIN {
        base - 0x8000_0000_0000_0000
    } else {
        base - ((-o) as u64)
    }
}

fn signed_difference(a: u64, b: u64) -> (r: i64)
    requires
        i64::MIN <= a - b <= i64::MAX,
    ensures
        r == a - b,
{
    if a >= b {
        (a - b) as i64
    } else if b - a == 0x8000_0000_0000_0000 {
        i64::MIN
    } else {
        -((b - a) as i64)
    }
}

/// A run of `num` pages at `virt_begin` backed by the `num` frames at
/// `phys_begin`, in order.
#[derive(Debug, Clone, Copy)]
pub struct MappingRegion {
    pub phys_begin: Frame,
    pub virt_begin: Page,
    pub num: u64,
}

impl MappingRegion {
    /// The frame that backs `page`, for a page inside the region.
    pub open spec fn frame_for(self, page: int) -> int {
        self.phys_begin@ + (page - self.virt_begin@)
    }

    pub open spec fn contains(self, page: int) -> bool {
        self.virt_begin@ <= page < self.virt_begin@ + self.num
    }
}

/// A contiguous run of virtual pages.
#[derive(Debug, Clone, Copy)]
pub struct PageRegion {
    pub begin: Page,
    pub num: u64,
}

impl PageRegion {
    /// A region is valid when it is not empty and ends inside the address
    /// space.
    pub open spec fn wf(self) -> bool {
        self.num > 0 && self.begin@ + self.num <= u64::MAX
    }

    pub open spec fn contains(self, page: int) -> bool {
        self.begin@ <= page < self.begin@ + self.num
    }

    pub fn new(begin: Page, num: u64) -> (r: Self)
        ensures
            r.begin == begin,
            r.num == num,
    {
        Self { begin, num }
    }

    #[inline]
    pub fn start(&self) -> (r: Page)
        ensures
            r == self.begin,
    {
        self.begin
    }

    #[inline]
    pub fn size(&self) -> (r: u64)
        ensures
            r == self.num,
    {
        self.num
    }

    /// The first page after the region.
    #[inline]
    pub fn end(&self) -> (r: Page)
        requires
            self.begin@ + self.num <= u64::MAX,
        ensures
            r@ == self.begin@ + self.num,
    {
        Page::new(self.begin.0 + self.num)
    }
}

/// A contiguous run of physical frames.
#[derive(Debug, Clone, Copy)]
pub struct FrameRegion {
    pub begin: Frame,
    pub num: u64,
}

impl FrameRegion {
    /// A region is valid when it is not empty and ends inside the address
    /// space.
    pub open spec fn wf(self) -> bool {
        self.num > 0 && self.begin@ + self.num <= u64::MAX
    }

    pub open spec fn contains(self, frame: int) -> bool {
        self.begin@ <= frame < self.begin@ + self.num
    }

    /// The frames of the region, as a set of frame indices.
    pub open spec fn frames(self) -> Set<int> {
        Set::new(|f: int| self.contains(f))
    }

    pub fn new(begin: Frame, num: u64) -> (r: Self)
        ensures
            r.begin == begin,
            r.num == num,
    {
        Self { begin, num }
    }

    #[inline]
    pub fn start(&self) -> (r: Frame)
        ensures
            r == self.begin,
    {
        self.begin
    }

    #[inline]
    pub fn size(&self) -> (r: u64)
        ensures
            r == self.num,
    {
        self.num
    }

    /// The first frame after the region.
    #[inline]
    pub fn end(&self) -> (r: Frame)
        requires
            self.begin@ + self.num <= u64::MAX,
        ensures
            r@ == self.begin@ + self.num,
    {
        Frame::new(self.begin.0 + self.num)
    }
}

/// The permissions of a mapping: writable, reachable from user mode,
/// executable. Each is independent of the others.
#[derive(Debug, Clone, Copy, PartialEq, Eq, Structural)]
pub struct PageFlags {
    pub writable: bool,
    pub usermode: bool,
    pub executable: bool,
}

impl PageFlags {
    pub const WRITABLE: u8 = 1;

    pub const USERMODE: u8 = 2;

    pub const EXECUTABLE: u8 = 4;

    /// The flags as a bit set: 1 for writable, 2 for user mode, 4 for
    /// executable.
    pub open spec fn spec_bits(self) -> int {
        (if self.writable { 1int } else { 0 }) + (if self.usermode { 2int } else { 0 }) + (
        if self.executable { 4int } else { 0 })
    }

    /// No permission beyond reading from kernel mode.
    pub fn empty() -> (r: Self)
        ensures
            !r.writable && !r.usermode && !r.executable,
    {
        Self { writable: false, usermode: false, executable: false }
    }

    pub fn writable() -> (r: Self)
        ensures
            r.writable && !r.usermode && !r.executable,
    {
        Self { writable: true, usermode: false, executable: false }
    }

    pub fn usermode() -> (r: Self)
        ensures
            !r.writable && r.usermode && !r.executable,
    {
        Self { writable: false, usermode: true, executable: false }
    }

    pub fn executable() -> (r: Self)
        ensures
            !r.writable && !r.usermode && r.executable,
    {
        Self { writable: false, usermode: false, executable: true }
    }

    #[verifier::when_used_as_spec(spec_bits_u8)]
    pub fn bits(self) -> (r: u8)
        ensures
            r == self.spec_bits(),
            r == self.spec_bits_u8(),
    {
        let w: u8 = if self.writable { 1 } else { 0 };
        let u: u8 = if self.usermode { 2 } else { 0 };
        let x: u8 = if self.executable { 4 } else { 0 };
        w + u + x
    }

    pub open spec fn spec_bits_u8(self) -> u8 {
        self.spec_bits() as u8
    }

    /// The flags whose bit set is the low three bits of `bits`.
    pub fn from_bits_truncate(bits: u8) -> (r: Self)
        ensures
            r.writable == (bits % 2 == 1),
            r.usermode == ((bits / 2) % 2 == 1),
            r.executable == ((bits / 4) % 2 == 1),
    {
        Self {
            writable: bits % 2 == 1,
            usermode: (bits / 2) % 2 == 1,
            executable: (bits / 4) % 2 == 1,
        }
    }

    /// Whether every permission of `other` is also one of `self`.
    pub fn contains(self, other: Self) -> (r: bool)
        ensures
            r == ((other.writable ==> self.writable) && (other.usermode ==> self.usermode) && (
            other.executable ==> self.executable)),
    {
        (!other.writable || self.writable) && (!other.usermode || self.usermode) && (
        !other.executable || self.executable)
    }

    /// The permissions of either.
    pub fn union(self, other: Self) -> (r: Self)
        ensures
            r.writable == (self.writable || other.writable),
            r.usermode == (self.usermode || other.usermode),
            r.executable == (self.executable || other.executable),
    {
        Self {
            writable: self.writable || other.writable,
            usermode: self.usermode || other.usermode,
            executable: self.executable || other.executable,
        }
    }

    /// Flips each permission that `other` holds.
    pub fn toggle(&mut self, other: Self)
        ensures
            final(self).writable == (old(self).writable != other.writable),
            final(self).usermode == (old(self).usermode != other.usermode),
            final(self).executable == (old(self).executable != other.executable),
    {
        self.writable = self.writable != other.writable;
        self.usermode = self.usermode != other.usermode;
        self.executable = self.executable != other.executable;
    }
}

/// Why a frame allocation failed.
#[derive(Debug, Clone, Copy, PartialEq, Eq, Structural)]
pub enum FrameAllocError {
    OutOfMemory,
    Unknown,
}

/// Why a release of frames failed.
#[derive(Debug, Clone, Copy, PartialEq, Eq, Structural)]
pub enum FrameFreeError {
    Unknown,
}

} // verus!

verus! {

/// Whether the `count` frames from `start` on all belong to `free`.
pub open spec fn is_free_run(free: Set<int>, start: int, count: int) -> bool {
    forall|f: int| start <= f < start + count ==> #[trigger] free.contains(f)
}

/// Whether `free` holds `count` frames in a row.
pub open spec fn long_run(free: Set<int>, count: int) -> bool {
    exists|s: int| #[trigger] is_free_run(free, s, count)
}

/// Whether no `count` contiguous frames belong to `free`.
pub open spec fn no_free_run(free: Set<int>, count: int) -> bool {
    forall|s: int| !#[trigger] is_free_run(free, s, count)
}

/// What an allocation does to the free pool: `region` leaves it, and nothing
/// else changes.
pub open spec fn taken_from(before: Set<int>, after: Set<int>, region: FrameRegion) -> bool {
    region.frames().subset_of(before) && after == before.difference(region.frames())
}

/// What a release does to the free pool: `region`, none of which was free
/// before, joins it, and nothing else changes.
pub open spec fn given_to(before: Set<int>, after: Set<int>, region: FrameRegion) -> bool {
    region.frames().disjoint(before) && after == before.union(region.frames())
}

/// A pool of physical frames, handed out and taken back in contiguous runs.
pub trait FrameAllocator {
    /// The invariant of the allocator.
    spec fn wf(&self) -> bool;

    /// The frames that are free, by index.
    spec fn free_frames(&self) -> Set<int>;

    /// Whether a release of `region` would succeed.
    spec fn can_free(&self, region: FrameRegion) -> bool;

    /// Takes `count` contiguous frames out of the pool. Fails, and changes
    /// nothing, exactly when `count` is zero or no `count` contiguous frames
    /// are free.
    fn allocate(&mut self, count: u64) -> (r: Result<FrameRegion, FrameAllocError>)
        requires
            old(self).wf(),
        ensures
            final(self).wf(),
            match r {
                Ok(region) => {
                    &&& region.wf()
                    &&& region.num == count
                    &&& taken_from(old(self).free_frames(), final(self).free_frames(), region)
                },
                Err(_) => {
                    &&& final(self).free_frames() == old(self).free_frames()
                    &&& count == 0 || forall|s: int|
                        !is_free_run(old(self).free_frames(), s, count as int)
                },
            },
    ;

    /// Whether `frame` is free.
    fn is_free_frame(&self, frame: Frame) -> (r: bool)
        requires
            self.wf(),
        ensures
            r == self.free_frames().contains(frame@),
    ;

    /// Puts the frames of `region` back into the pool. Succeeds exactly
    /// when `can_free` says so, which it never does for a region that is not
    /// valid or holds a free frame. On failure nothing changes.
    fn free(&mut self, region: &FrameRegion) -> (r: Result<(), FrameFreeError>)
        requires
            old(self).wf(),
        ensures
            final(self).wf(),
            r is Ok <==> old(self).can_free(*region),
            match r {
                Ok(_) => {
                    &&& region.wf()
                    &&& given_to(old(self).free_frames(), final(self).free_frames(), *region)
                },
                Err(_) => {
                    &&& final(self).free_frames() == old(self).free_frames()
                    &&& !final(self).can_free(*region)
                },
            },
    ;
}

/// Whether an allocator of the kind `A` refused the region `u` while its
/// free frames went from `before` to `after`: in some valid state on the
/// way it would not take the region back.
pub open spec fn refused_between<A: FrameAllocator>(
    before: Set<int>,
    after: Set<int>,
    u: FrameRegion,
) -> bool {
    exists|a: A|
        #![trigger a.can_free(u)]
        a.wf() && before.subset_of(a.free_frames()) && a.free_frames().subset_of(after)
            && !a.can_free(u)
}

/// Whether the region `u` was given back, as far as the allocator took it,
/// while the free frames went from `before` to `after`: its frames are free
/// in the end, or the allocator refused it on the way.
pub open spec fn returned_or_refused<A: FrameAllocator>(
    before: Set<int>,
    after: Set<int>,
    u: FrameRegion,
) -> bool {
    u.frames().subset_of(after) || refused_between::<A>(before, after, u)
}

/// What was given back or refused stays so while more frames become free.
pub proof fn lemma_still_returned<A: FrameAllocator>(
    before: Set<int>,
    between: Set<int>,
    after: Set<int>,
    u: FrameRegion,
)
    requires
        returned_or_refused::<A>(before, between, u),
        between.subset_of(after),
    ensures
        returned_or_refused::<A>(before, after, u),
{
    if !u.frames().subset_of(between) {
        let a = choose|a: A|
            #![trigger a.can_free(u)]
            a.wf() && before.subset_of(a.free_frames()) && a.free_frames().subset_of(between)
                && !a.can_free(u);
        assert(a.free_frames().subset_of(after));
        assert(!a.can_free(u));
    }
}

/// A refusal on the way stays one while more frames become free.
pub proof fn lemma_still_refused<A: FrameAllocator>(
    before: Set<int>,
    between: Set<int>,
    after: Set<int>,
    u: FrameRegion,
)
    requires
        refused_between::<A>(before, between, u),
        between.subset_of(after),
    ensures
        refused_between::<A>(before, after, u),
{
    let a = choose|a: A|
        #![trigger a.can_free(u)]
        a.wf() && before.subset_of(a.free_frames()) && a.free_frames().subset_of(between)
            && !a.can_free(u);
    assert(a.free_frames().subset_of(after));
    assert(!a.can_free(u));
}

/// Frames are conserved by an allocation: the frames that are free or held
/// by someone are the same before and after, and no frame is both.
pub proof fn law_alloc_conserves_frames(
    before: Set<int>,
    after: Set<int>,
    region: FrameRegion,
    held: Set<int>,
)
    requires
        taken_from(before, after, region),
        before.disjoint(held),
    ensures
        after.union(held.union(region.frames())) == before.union(held),
        after.disjoint(held.union(region.frames())),
{
    assert(after.union(held.union(region.frames())) =~= before.union(held));
}

/// Frames are conserved by a release of frames that were held: the frames
/// that are free or held are the same before and after, and no frame is both.
pub proof fn law_free_conserves_frames(
    before: Set<int>,
    after: Set<int>,
    region: FrameRegion,
    held: Set<int>,
)
    requires
        given_to(before, after, region),
        before.disjoint(held),
        region.frames().subset_of(held),
    ensures
        after.union(held.difference(region.frames())) == before.union(held),
        after.disjoint(held.difference(region.frames())),
{
    assert(after.union(held.difference(region.frames())) =~= before.union(held));
}

} // verus!
