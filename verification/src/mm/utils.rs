//! Bringing memory management up: the usable frames of the machine, the
//! places of the kernel's sections, and the frames that every address space
//! shares.

use vstd::prelude::*;
use crate::mm::definitions::{is_free_run, long_run, no_free_run};

use super::definitions::{
    Frame, FrameAllocator, FrameFreeError, FrameRegion, MappingRegion, Page, PageFlags,
    PhysAddress, VirtAddress, FRAME_SIZE, KERNEL_HEAP_BEGIN, PHYSICAL_MAP_BEGIN,
};
use crate::arch::x86_64::mm::page_table::{
    at_most_taken, backs, lemma_run_left, lemma_run_taken, lemma_taken_twice, tables_for, MapError,
    PageTable,
};
use crate::arch::x86_64::mm::table_memory::TableMemory;

verus! {

/// The number of frames of the stack that interrupts run on.
pub const INTERRUPT_STACK_FRAMES: u64 = 2;

/// The number of frames of the kernel heap.
pub const KERNEL_HEAP_FRAMES: u64 = 4096;

/// The physical address that the kernel reaches at `pptr` in its window
/// onto physical memory.
pub fn calculate_phys_addr_from_pptr(pptr: u64) -> (r: PhysAddress)
    requires
        pptr >= PHYSICAL_MAP_BEGIN,
    ensures
        r@ == pptr - PHYSICAL_MAP_BEGIN,
{
    PhysAddress::new(pptr - PHYSICAL_MAP_BEGIN)
}

/// The address in the kernel's window onto physical memory at which it
/// reaches the physical address `addr`.
pub fn calculate_pptr_from_phys_addr(addr: PhysAddress) -> (r: u64)
    requires
        addr@ + PHYSICAL_MAP_BEGIN <= u64::MAX,
    ensures
        r == addr@ + PHYSICAL_MAP_BEGIN,
{
    addr.as_u64() + PHYSICAL_MAP_BEGIN
}

/// The frames that the bootstrap hands to the allocator for the usable
/// range of addresses from `start` to `end`: those from the first frame that
/// begins at or after `start` up to, and without, the frame before the one
/// that holds the address `end - 4095`.
pub open spec fn usable_frames_of(start: int, end: int) -> Option<FrameRegion> {
    let first = (start + 4095) / 4096;
    let last = (end - 4095) / 4096;
    if end >= 4095 && last - first - 1 > 0 {
        Some(FrameRegion { begin: Frame(first as u64), num: (last - first - 1) as u64 })
    } else {
        None
    }
}

/// The frames of the usable range from `start` to `end`, if it holds any.
pub fn usable_frames(start: u64, end: u64) -> (r: Option<FrameRegion>)
    requires
        start + 4095 <= u64::MAX,
    ensures
        r == usable_frames_of(start as int, end as int),
        r matches Some(region) ==> region.wf() && start <= region.begin@ * 4096 && (region.begin@
            + region.num) * 4096 <= end,
{
    if end < FRAME_SIZE - 1 {
        return None;
    }
    let frame_begin = PhysAddress::new(start + (FRAME_SIZE - 1)).get_frame();
    let frame_end = PhysAddress::new(end - (FRAME_SIZE - 1)).get_frame();
    if frame_end.get_index() <= frame_begin.get_index() + 1 {
        return None;
    }
    Some(FrameRegion::new(frame_begin, frame_end.get_index() - frame_begin.get_index() - 1))
}

/// Hands the frames of the usable range from `start` to `end` to `alloc`.
/// Returns whether the allocator has them now: it has not if the range holds
/// no such frames or if the allocator refused them.
pub fn add_usable_range<A: FrameAllocator>(alloc: &mut A, start: u64, end: u64) -> (r: bool)
    requires
        old(alloc).wf(),
        start + 4095 <= u64::MAX,
    ensures
        final(alloc).wf(),
        r == (usable_frames_of(start as int, end as int) matches Some(region) && old(
            alloc,
        ).can_free(region)),
        final(alloc).free_frames() == if r {
            old(alloc).free_frames().union(usable_frames_of(start as int, end as int)->0.frames())
        } else {
            old(alloc).free_frames()
        },
{
    match usable_frames(start, end) {
        Some(region) => alloc.free(&region).is_ok(),
        None => false,
    }
}

/// Where the kernel's sections lie: each with its pages and the frames
/// behind them.
#[derive(Clone, Copy, Debug)]
pub struct KernelMappingInfo {
    pub text: MappingRegion,
    pub rodata: MappingRegion,
    pub data: MappingRegion,
    pub bss: MappingRegion,
}

/// The address and the size in bytes of one section of the kernel.
#[derive(Clone, Copy, Debug)]
pub struct Section {
    pub start: u64,
    pub size: u64,
}

/// The sections of the kernel, as the linker laid them out.
#[derive(Clone, Copy, Debug)]
pub struct KernelSections {
    pub text: Section,
    pub rodata: Section,
    pub data: Section,
    pub bss: Section,
}

/// The frames that every address space maps: the kernel's sections, the
/// interrupt stack and the kernel heap.
#[derive(Clone, Copy, Debug)]
pub struct KernelLayout {
    pub mapping: KernelMappingInfo,
    /// The first of the two frames of the interrupt stack.
    pub interrupt_stack: Frame,
    /// The frames of the kernel heap.
    pub heap: FrameRegion,
}

/// Why memory management did not come up.
#[derive(Clone, Copy, Debug, PartialEq, Eq, Structural)]
pub enum InitError {
    /// A section of the kernel does not translate in the initial tree.
    SectionUnmapped,
    /// No frames for the kernel heap or the interrupt stack.
    OutOfFrames,
    /// The heap could not be mapped.
    Unmappable(MapError),
}

/// The mapping of a section that begins at the frame that its first page
/// translates to.
pub open spec fn section_mapping(section: Section, frame: int) -> MappingRegion {
    MappingRegion {
        phys_begin: Frame(frame as u64),
        virt_begin: Page((section.start / 4096) as u64),
        num: (section.size / 4096) as u64,
    }
}

/// The mapping of `section`, found by translating its first page in `pt`.
pub fn locate_section<M: TableMemory>(pt: &PageTable, mem: &M, section: &Section) -> (r: Option<
    MappingRegion,
>)
    requires
        pt.wf(mem),
    ensures
        match r {
            Some(region) => pt.translate(mem, section.start as int / 4096) matches Some(t)
                && region == section_mapping(*section, t.frame),
            None => pt.translate(mem, section.start as int / 4096) is None,
        },
{
    let page = VirtAddress::new(section.start).get_page();
    proof {
        pt.lemma_walk_held(mem, page@);
    }
    match pt.resolve(mem, page) {
        Some(frame) => Some(
            MappingRegion {
                phys_begin: frame,
                virt_begin: page,
                num: section.size / FRAME_SIZE,
            },
        ),
        None => None,
    }
}

/// The mapping of the kernel heap onto `heap`.
pub open spec fn heap_mapping(heap: FrameRegion) -> MappingRegion {
    MappingRegion {
        phys_begin: heap.begin,
        virt_begin: Page((KERNEL_HEAP_BEGIN / 4096) as u64),
        num: heap.num,
    }
}

/// Whether the first page of each section of the kernel translates in the
/// tree `ipt`.
pub open spec fn sections_translate<M: TableMemory>(
    ipt: &PageTable,
    mem: &M,
    sections: &KernelSections,
) -> bool {
    &&& ipt.translate(mem, sections.text.start as int / 4096) is Some
    &&& ipt.translate(mem, sections.rodata.start as int / 4096) is Some
    &&& ipt.translate(mem, sections.data.start as int / 4096) is Some
    &&& ipt.translate(mem, sections.bss.start as int / 4096) is Some
}

/// Whether `free` cannot give the kernel heap and then the interrupt stack:
/// it holds no run of frames for the heap, or, with the frames that went to
/// the heap gone, none for the stack.
pub open spec fn lacks_frames(free: Set<int>) -> bool {
    ||| no_free_run(free, KERNEL_HEAP_FRAMES as int)
    ||| exists|heap: FrameRegion|
        #![trigger heap.frames()]
        heap.wf() && heap.num == KERNEL_HEAP_FRAMES && heap.frames().subset_of(free)
            && no_free_run(free.difference(heap.frames()), INTERRUPT_STACK_FRAMES as int)
}

/// Whether memory management comes up in the tree `ipt` with the frames
/// `free`, whatever frames the allocator picks: the sections translate, the
/// pages of the heap do not, and `free` holds a run of frames for the heap,
/// a run so long that two frames in a row are left for the stack when the
/// heap's are gone, and frames for the tables besides.
pub open spec fn comes_up<M: TableMemory>(
    ipt: &PageTable,
    mem: &M,
    sections: &KernelSections,
    free: Set<int>,
) -> bool {
    &&& sections_translate(ipt, mem, sections)
    &&& ipt.unmapped(mem, KERNEL_HEAP_BEGIN as int / 4096, KERNEL_HEAP_FRAMES as int)
    &&& free.finite()
    &&& long_run(free, KERNEL_HEAP_FRAMES as int)
    &&& long_run(free, (KERNEL_HEAP_FRAMES + 1) * INTERRUPT_STACK_FRAMES)
    &&& free.len() >= KERNEL_HEAP_FRAMES + INTERRUPT_STACK_FRAMES + tables_for(
        KERNEL_HEAP_FRAMES as int,
    )
}

/// Brings memory management up in the initial tree `ipt`: finds the frames
/// of the kernel's sections, takes the frames of the kernel heap and of the
/// interrupt stack from `alloc`, and maps the heap, writable, at its place.
///
/// Fails where a section does not translate, where `alloc` has no run of
/// frames for the heap or then for the stack, where a page of the heap
/// translates already, or where no frame is left for a table; what was
/// taken goes back to `alloc` then. It does not fail where `comes_up`
/// holds.
pub fn init_mm<M: TableMemory, A: FrameAllocator>(
    ipt: &mut PageTable,
    mem: &mut M,
    alloc: &mut A,
    sections: &KernelSections,
) -> (r: Result<KernelLayout, InitError>)
    requires
        old(ipt).wf(old(mem)),
        old(alloc).wf(),
        backs(old(alloc), old(mem)),
        old(ipt).tables().disjoint(old(alloc).free_frames()),
    ensures
        final(ipt).wf(final(mem)),
        final(alloc).wf(),
        backs(final(alloc), final(mem)),
        final(ipt).tables().disjoint(final(alloc).free_frames()),
        final(ipt).root() == old(ipt).root(),
        final(ipt).extends(old(ipt), final(mem), old(mem)),
        final(alloc).free_frames().subset_of(old(alloc).free_frames()),
        match r {
            Ok(layout) => {
                &&& old(ipt).translate(old(mem), sections.text.start as int / 4096) matches Some(t)
                    && layout.mapping.text == section_mapping(sections.text, t.frame)
                &&& old(ipt).translate(old(mem), sections.rodata.start as int / 4096) matches Some(
                    t,
                ) && layout.mapping.rodata == section_mapping(sections.rodata, t.frame)
                &&& old(ipt).translate(old(mem), sections.data.start as int / 4096) matches Some(t)
                    && layout.mapping.data == section_mapping(sections.data, t.frame)
                &&& old(ipt).translate(old(mem), sections.bss.start as int / 4096) matches Some(t)
                    && layout.mapping.bss == section_mapping(sections.bss, t.frame)
                &&& layout.heap.num == KERNEL_HEAP_FRAMES
                &&& layout.heap.frames().subset_of(old(alloc).free_frames())
                &&& layout.heap.frames().disjoint(final(alloc).free_frames())
                &&& FrameRegion {
                    begin: layout.interrupt_stack,
                    num: INTERRUPT_STACK_FRAMES,
                }.frames().subset_of(old(alloc).free_frames())
                &&& FrameRegion {
                    begin: layout.interrupt_stack,
                    num: INTERRUPT_STACK_FRAMES,
                }.frames().disjoint(final(alloc).free_frames())
                &&& FrameRegion {
                    begin: layout.interrupt_stack,
                    num: INTERRUPT_STACK_FRAMES,
                }.frames().disjoint(layout.heap.frames())
                &&& final(ipt).maps(final(mem), heap_mapping(layout.heap), PageFlags {
                    writable: true,
                    usermode: false,
                    executable: false,
                })
            },
            Err(e) => {
                &&& e == InitError::SectionUnmapped <==> !sections_translate(
                    old(ipt),
                    old(mem),
                    sections,
                )
                &&& e == InitError::OutOfFrames ==> sections_translate(old(ipt), old(mem), sections)
                    && lacks_frames(old(alloc).free_frames())
                &&& e matches InitError::Unmappable(x) ==> {
                    &&& sections_translate(old(ipt), old(mem), sections)
                    &&& x != MapError::OutOfRange
                    &&& x == MapError::Overlap <==> !old(ipt).unmapped(
                        old(mem),
                        KERNEL_HEAP_BEGIN as int / 4096,
                        KERNEL_HEAP_FRAMES as int,
                    )
                    &&& x == MapError::OutOfFrames ==> at_most_taken(
                        old(alloc).free_frames(),
                        Set::<int>::empty(),
                        KERNEL_HEAP_FRAMES + INTERRUPT_STACK_FRAMES + tables_for(
                            KERNEL_HEAP_FRAMES as int,
                        ),
                    )
                }
            },
        },
        sections_translate(old(ipt), old(mem), sections) && no_free_run(
            old(alloc).free_frames(),
            KERNEL_HEAP_FRAMES as int,
        ) ==> r == Err::<KernelLayout, InitError>(InitError::OutOfFrames),
        comes_up(old(ipt), old(mem), sections, old(alloc).free_frames()) ==> r is Ok,
{
    proof {
        assert(ipt.extends(old(ipt), mem, old(mem)));
    }
    let text = match locate_section(ipt, mem, &sections.text) {
        Some(r) => r,
        None => {
            return Err(InitError::SectionUnmapped);
        },
    };
    let rodata = match locate_section(ipt, mem, &sections.rodata) {
        Some(r) => r,
        None => {
            return Err(InitError::SectionUnmapped);
        },
    };
    let data = match locate_section(ipt, mem, &sections.data) {
        Some(r) => r,
        None => {
            return Err(InitError::SectionUnmapped);
        },
    };
    let bss = match locate_section(ipt, mem, &sections.bss) {
        Some(r) => r,
        None => {
            return Err(InitError::SectionUnmapped);
        },
    };
    let heap = match alloc.allocate(KERNEL_HEAP_FRAMES) {
        Ok(r) => r,
        Err(_) => {
            return Err(InitError::OutOfFrames);
        },
    };
    proof {
        assert(heap.frames().subset_of(old(alloc).free_frames()));
        assert forall|f: int| heap.begin@ <= f < heap.begin@ + KERNEL_HEAP_FRAMES implies old(
            alloc,
        ).free_frames().contains(f) by {
            assert(heap.frames().contains(f));
        }
        assert(is_free_run(old(alloc).free_frames(), heap.begin@, KERNEL_HEAP_FRAMES as int));
    }
    let ghost after_heap = alloc.free_frames();
    let stack = match alloc.allocate(INTERRUPT_STACK_FRAMES) {
        Ok(r) => r,
        Err(_) => {
            proof {
                assert(after_heap == old(alloc).free_frames().difference(heap.frames()));
                assert(no_free_run(after_heap, INTERRUPT_STACK_FRAMES as int));
                assert(lacks_frames(old(alloc).free_frames()));
                if comes_up(old(ipt), old(mem), sections, old(alloc).free_frames()) {
                    let s = choose|s: int| #[trigger]
                        is_free_run(
                            old(alloc).free_frames(),
                            s,
                            (KERNEL_HEAP_FRAMES + 1) * INTERRUPT_STACK_FRAMES,
                        );
                    lemma_run_taken(old(alloc).free_frames(), after_heap, heap);
                    lemma_run_left(
                        old(alloc).free_frames(),
                        after_heap,
                        s,
                        INTERRUPT_STACK_FRAMES as int,
                        KERNEL_HEAP_FRAMES as int,
                    );
                }
            }
            let _ = alloc.free(&heap);
            return Err(InitError::OutOfFrames);
        },
    };
    let region = MappingRegion {
        phys_begin: heap.start(),
        virt_begin: VirtAddress::new(KERNEL_HEAP_BEGIN).get_page(),
        num: heap.size(),
    };
    let ghost after_stack = alloc.free_frames();
    proof {
        lemma_run_taken(old(alloc).free_frames(), after_heap, heap);
        lemma_run_taken(after_heap, after_stack, stack);
        lemma_taken_twice(
            old(alloc).free_frames(),
            after_heap,
            after_stack,
            KERNEL_HEAP_FRAMES as int,
            INTERRUPT_STACK_FRAMES as int,
        );
        assert(heap.frames().contains(heap.begin@ + KERNEL_HEAP_FRAMES - 1));
        assert(PageTable::mappable(region));
    }
    let mapped = ipt.try_map(mem, alloc, &region, PageFlags::writable());
    proof {
        lemma_taken_twice(
            old(alloc).free_frames(),
            after_stack,
            alloc.free_frames(),
            KERNEL_HEAP_FRAMES + INTERRUPT_STACK_FRAMES,
            tables_for(KERNEL_HEAP_FRAMES as int),
        );
    }
    match mapped {
        Ok(()) => {},
        Err(e) => {
            let _ = alloc.free(&stack);
            let _ = alloc.free(&heap);
            return Err(InitError::Unmappable(e));
        },
    }
    Ok(
        KernelLayout {
            mapping: KernelMappingInfo { text, rodata, data, bss },
            interrupt_stack: stack.start(),
            heap,
        },
    )
}

/// Takes the initial tree down once no processor uses it any more: the
/// frames of its tables go back to `alloc`. What it mapped stays with its
/// owners.
pub fn free_initial_page_table<M: TableMemory, A: FrameAllocator>(
    ipt: PageTable,
    mem: &M,
    alloc: &mut A,
) -> (r: Result<(), FrameFreeError>)
    requires
        ipt.wf(mem),
        old(alloc).wf(),
        ipt.tables().disjoint(old(alloc).free_frames()),
    ensures
        final(alloc).wf(),
        old(alloc).free_frames().subset_of(final(alloc).free_frames()),
        final(alloc).free_frames().subset_of(old(alloc).free_frames().union(ipt.tables())),
        match r {
            Ok(_) => final(alloc).free_frames() == old(alloc).free_frames().union(ipt.tables()),
            Err(_) => ipt.refused(final(alloc)),
        },
{
    ipt.release(mem, alloc)
}

} // verus!
