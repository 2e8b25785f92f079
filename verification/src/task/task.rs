//! A task: its saved registers, its address space and the frames that it
//! owns.

use vstd::prelude::*;

use super::elf::{
    explains, file_fault, has_unsound_segment, law_image_loads, lemma_explains_after,
    lemma_frames_for_segments, load_elf, loads_freely, translating, ElfError, ElfHeader,
    LoadedImage, Readable, ELF_HEADER_SIZE,
};
use crate::arch::x86_64::mm::page_table::{
    at_most_taken, backs, lemma_no_single_frame, lemma_one_taken, lemma_taken_twice,
    lemma_touches, lemma_touches_range, tables_for, touches, MapError, PageTable,
};
use crate::arch::x86_64::mm::table_entry::{slot, FRAME_LIMIT};
use crate::arch::x86_64::mm::table_memory::TableMemory;
use crate::arch::x86_64::task::{InterruptionStackFrame, RegisterStore};
use crate::mm::definitions::{
    lemma_still_refused, lemma_still_returned, refused_between, returned_or_refused, Frame,
    FrameAllocator,
    FrameRegion, MappingRegion, Page, PageFlags, APP_STACK_BEGIN,
    APP_STACK_END, FRAME_SIZE, KERNEL_HEAP_BEGIN, KERNEL_ISTACK_END, KERNEL_STACK_BEGIN,
    PHYSICAL_MAP_BEGIN,
};
use crate::mm::utils::{heap_mapping, KernelLayout, INTERRUPT_STACK_FRAMES};

verus! {

/// The number of frames of physical memory that every address space sees
/// through the kernel's window: 128 MiB.
pub const PHYSICAL_WINDOW_FRAMES: u64 = 32768;

/// One more than the largest task identifier: each task has a slot of two
/// pages among the kernel stacks, and the last slot is the interrupt
/// stack's.
pub const MAX_TASKS: u64 = 0x7ff_ffff;

/// Why a task was not made.
#[derive(Debug, Clone, Copy, PartialEq, Eq, Structural)]
pub enum TaskError {
    /// The identifier is zero, which stands for no task, or has no slot
    /// among the kernel stacks.
    BadIdentifier,
    /// No frame for the root table or for a stack.
    OutOfFrames,
    /// A region of the address space could not be mapped.
    Unmappable(MapError),
    /// The image could not be loaded.
    Image(ElfError),
}

/// The address of the kernel stack slot of task `id`.
pub open spec fn kernel_stack_slot(id: int) -> int {
    KERNEL_STACK_BEGIN + 2 * id * 4096
}

/// The initial kernel stack pointer of task `id`: the end of the one page of
/// its slot that is mapped.
pub open spec fn kernel_stack_top(id: int) -> int {
    kernel_stack_slot(id) + 4096
}

/// Writable, and neither reachable from user mode nor executable.
pub open spec fn writable_only() -> PageFlags {
    PageFlags { writable: true, usermode: false, executable: false }
}

/// The mapping of the kernel's window onto physical memory.
pub open spec fn window_mapping() -> MappingRegion {
    MappingRegion {
        phys_begin: Frame(0),
        virt_begin: Page((PHYSICAL_MAP_BEGIN / 4096) as u64),
        num: PHYSICAL_WINDOW_FRAMES,
    }
}

/// The mapping of the interrupt stack, which ends at its fixed address.
pub open spec fn interrupt_stack_mapping(stack: Frame) -> MappingRegion {
    MappingRegion {
        phys_begin: stack,
        virt_begin: Page((KERNEL_ISTACK_END / 4096 - 2) as u64),
        num: INTERRUPT_STACK_FRAMES,
    }
}

/// The mapping of the kernel stack of task `id`.
pub open spec fn kernel_stack_mapping(id: int, stack: Frame) -> MappingRegion {
    MappingRegion {
        phys_begin: stack,
        virt_begin: Page((kernel_stack_slot(id) / 4096) as u64),
        num: 1,
    }
}

/// The mapping of the user stack, which ends where user space ends.
pub open spec fn user_stack_mapping(stack: Frame) -> MappingRegion {
    MappingRegion {
        phys_begin: stack,
        virt_begin: Page((APP_STACK_BEGIN / 4096) as u64),
        num: 1,
    }
}

/// What every address space maps of the kernel, in the order in which it
/// is mapped: the text, executable; the read-only data; the data and the
/// zeroed data, writable; the window onto physical memory, the interrupt
/// stack and the kernel heap, writable. None of it is reachable from user
/// mode.
pub open spec fn shared_mappings(layout: KernelLayout) -> Seq<(MappingRegion, PageFlags)> {
    seq![
        (layout.mapping.text, PageFlags { writable: false, usermode: false, executable: true }),
        (layout.mapping.rodata, PageFlags { writable: false, usermode: false, executable: false }),
        (layout.mapping.data, writable_only()),
        (layout.mapping.bss, writable_only()),
        (window_mapping(), writable_only()),
        (interrupt_stack_mapping(layout.interrupt_stack), writable_only()),
        (heap_mapping(layout.heap), writable_only()),
    ]
}

/// Whether `pt` is the address space of task `id` before its image is
/// loaded: it maps what every address space maps, the task's kernel stack
/// at the task's slot, writable, and its user stack, writable and reachable
/// from user mode.
pub open spec fn address_space<M: TableMemory>(
    pt: &PageTable,
    mem: &M,
    id: int,
    layout: KernelLayout,
    kernel_stack: Frame,
    user_stack: Frame,
) -> bool {
    &&& forall|i: int|
        0 <= i < 7 ==> pt.maps(
            mem,
            (#[trigger] shared_mappings(layout)[i]).0,
            shared_mappings(layout)[i].1,
        )
    &&& pt.maps(mem, kernel_stack_mapping(id, kernel_stack), writable_only())
    &&& pt.maps(
        mem,
        user_stack_mapping(user_stack),
        PageFlags { writable: true, usermode: true, executable: false },
    )
}

/// The runs of pages of the address space of task `id`, each with its first
/// page and its length, in the order in which they are mapped: the seven
/// that every address space has, the task's kernel stack and its user
/// stack.
pub open spec fn page_runs(layout: KernelLayout, id: int) -> Seq<(int, int)> {
    seq![
        (layout.mapping.text.virt_begin@, layout.mapping.text.num as int),
        (layout.mapping.rodata.virt_begin@, layout.mapping.rodata.num as int),
        (layout.mapping.data.virt_begin@, layout.mapping.data.num as int),
        (layout.mapping.bss.virt_begin@, layout.mapping.bss.num as int),
        (PHYSICAL_MAP_BEGIN as int / 4096, PHYSICAL_WINDOW_FRAMES as int),
        (KERNEL_ISTACK_END as int / 4096 - 2, INTERRUPT_STACK_FRAMES as int),
        (KERNEL_HEAP_BEGIN as int / 4096, layout.heap.num as int),
        (kernel_stack_slot(id) / 4096, 1int),
        (APP_STACK_BEGIN as int / 4096, 1int),
    ]
}

/// Whether translation can tell every page of run `a` from every page of
/// run `b`.
pub open spec fn runs_apart(a: (int, int), b: (int, int)) -> bool {
    forall|q: int|
        0 <= q <= u64::MAX ==> !(#[trigger] touches(a.0, a.1, q) && touches(b.0, b.1, q))
}

/// Whether one of the first `n` runs touches page `q`.
pub open spec fn touched_by(runs: Seq<(int, int)>, n: int, q: int) -> bool {
    exists|j: int| 0 <= j < n && touches((#[trigger] runs[j]).0, runs[j].1, q)
}

/// Whether `e` is explained as the reason why the address space of task
/// `id` was not made, where `free` were the free frames: the frames ran out
/// where `free` holds no more than the address space can need, and a run
/// of pages cannot be mapped only where the address space does not fit.
pub open spec fn space_explains(e: TaskError, layout: KernelLayout, id: int, free: Set<int>) -> bool {
    match e {
        TaskError::OutOfFrames => at_most_taken(
            free,
            Set::<int>::empty(),
            frames_for_address_space(layout, id),
        ),
        TaskError::Unmappable(MapError::OutOfFrames) => at_most_taken(
            free,
            Set::<int>::empty(),
            frames_for_address_space(layout, id),
        ),
        TaskError::Unmappable(_) => !fits(layout, id),
        _ => true,
    }
}

/// The pages of the address space of task `id` before its image is loaded,
/// as far as translation can tell.
pub open spec fn address_space_pages(layout: KernelLayout, id: int) -> spec_fn(int) -> bool {
    |q: int| touched_by(page_runs(layout, id), 9, q)
}

/// Whether the address space of task `id` can be made at all: every run of
/// pages can be mapped, the frames of the shared runs fit an entry, and
/// translation can tell the pages of any two runs apart.
pub open spec fn fits(layout: KernelLayout, id: int) -> bool {
    let runs = page_runs(layout, id);
    &&& forall|i: int|
        0 <= i < 9 ==> 0 <= (#[trigger] runs[i]).1 <= 0x10_0000_0000 && runs[i].0 + runs[i].1
            <= u64::MAX
    &&& forall|i: int|
        0 <= i < 7 ==> (#[trigger] shared_mappings(layout)[i]).0.phys_begin@ + shared_mappings(
            layout,
        )[i].0.num <= FRAME_LIMIT
    &&& forall|i: int, j: int|
        0 <= i < j < 9 ==> runs_apart(#[trigger] runs[i], #[trigger] runs[j])
}

/// The most tables that the first `n` runs can need.
pub open spec fn tables_upto(runs: Seq<(int, int)>, n: int) -> int
    decreases n,
{
    if n <= 0 {
        0
    } else {
        tables_upto(runs, n - 1) + tables_for(runs[n - 1].1)
    }
}

/// The most frames that the address space of task `id` can need: the root,
/// the tables of its nine runs, and the two stacks.
pub open spec fn frames_for_address_space(layout: KernelLayout, id: int) -> int {
    3 + tables_upto(page_runs(layout, id), 9)
}

/// More runs need no fewer tables.
proof fn lemma_tables_upto(runs: Seq<(int, int)>, n: int, m: int)
    requires
        0 <= n <= m <= runs.len(),
        forall|i: int| 0 <= i < runs.len() ==> (#[trigger] runs[i]).1 >= 0,
    ensures
        0 <= tables_upto(runs, n) <= tables_upto(runs, m),
        n < m ==> tables_upto(runs, n) + tables_for(runs[n].1) <= tables_upto(runs, m),
    decreases m,
{
    if n < m {
        lemma_tables_upto(runs, n, m - 1);
        assert(runs[m - 1].1 >= 0);
    } else if n > 0 {
        lemma_tables_upto(runs, n - 1, n - 1);
        assert(runs[n - 1].1 >= 0);
    }
}

/// A run that is apart from the runs before it does not translate while
/// only those have been mapped.
proof fn lemma_run_unmapped<M: TableMemory>(pt: &PageTable, mem: &M, runs: Seq<(int, int)>, i: int)
    requires
        0 <= i < runs.len(),
        0 <= runs[i].0,
        0 <= runs[i].1 <= 0x10_0000_0000,
        runs[i].0 + runs[i].1 <= u64::MAX,
        forall|j: int| 0 <= j < i ==> runs_apart(#[trigger] runs[j], runs[i]),
        forall|q: int|
            0 <= q <= u64::MAX && !touched_by(runs, i, q) ==> (#[trigger] pt.translate(mem, q))
                is None,
    ensures
        pt.unmapped(mem, runs[i].0, runs[i].1),
{
    assert forall|p: int| runs[i].0 <= p < runs[i].0 + runs[i].1 implies (#[trigger] pt.translate(
        mem,
        p,
    )) is None by {
        lemma_touches(runs[i].0, p - runs[i].0, p);
        assert(touches(runs[i].0, runs[i].1, p));
        if touched_by(runs, i, p) {
            let j = choose|j: int| 0 <= j < i && touches((#[trigger] runs[j]).0, runs[j].1, p);
            assert(runs_apart(runs[j], runs[i]));
        }
    }
}

/// After one more run is mapped, a page that no run touches still does not
/// translate.
proof fn lemma_untouched_still<M: TableMemory>(
    pt: &PageTable,
    mem: &M,
    before: &PageTable,
    mem_before: &M,
    runs: Seq<(int, int)>,
    i: int,
)
    requires
        0 <= i < runs.len(),
        forall|q: int|
            0 <= q <= u64::MAX && !touched_by(runs, i, q) ==> (#[trigger] before.translate(
                mem_before,
                q,
            )) is None,
        forall|q: int|
            0 <= q <= u64::MAX && !touches(runs[i].0, runs[i].1, q) ==> #[trigger] pt.translate(
                mem,
                q,
            ) == before.translate(mem_before, q),
    ensures
        forall|q: int|
            0 <= q <= u64::MAX && !touched_by(runs, i + 1, q) ==> (#[trigger] pt.translate(mem, q))
                is None,
{
    assert forall|q: int| 0 <= q <= u64::MAX && !touched_by(runs, i + 1, q) implies (
    #[trigger] pt.translate(mem, q)) is None by {
        if touches(runs[i].0, runs[i].1, q) {
            assert(touches(runs[i].0, runs[i].1, q));
        }
        if touched_by(runs, i, q) {
            let j = choose|j: int| 0 <= j < i && touches((#[trigger] runs[j]).0, runs[j].1, q);
            assert(touches(runs[j].0, runs[j].1, q));
        }
        assert(before.translate(mem_before, q) is None);
    }
}

/// Whether two runs of pages, each given by its first page and its length,
/// lie apart in the 36 bits that translation looks at: neither run passes
/// the end of those bits, and one ends where the other begins or before.
pub open spec fn separate(a: (int, int), b: (int, int)) -> bool {
    &&& slot(a.0) + a.1 <= 0x10_0000_0000
    &&& slot(b.0) + b.1 <= 0x10_0000_0000
    &&& (slot(a.0) + a.1 <= slot(b.0) || slot(b.0) + b.1 <= slot(a.0))
}

/// Translation can tell the pages of two runs that lie apart from each
/// other.
pub proof fn lemma_separate_apart(a: (int, int), b: (int, int))
    requires
        0 <= a.0,
        0 <= a.1,
        0 <= b.0,
        0 <= b.1,
        separate(a, b),
    ensures
        runs_apart(a, b),
{
    assert forall|q: int| 0 <= q <= u64::MAX implies !(#[trigger] touches(a.0, a.1, q) && touches(
        b.0,
        b.1,
        q,
    )) by {
        lemma_touches_range(a.0, a.1, q);
        lemma_touches_range(b.0, b.1, q);
    }
}

/// Whether the two runs of pages, each given by its first page and its
/// length, lie apart in the 36 bits that translation looks at, neither
/// passing their end. Translation can tell the pages of such runs apart.
pub fn runs_separate(a: (u64, u64), b: (u64, u64)) -> (r: bool)
    ensures
        r == separate((a.0 as int, a.1 as int), (b.0 as int, b.1 as int)),
        r ==> runs_apart((a.0 as int, a.1 as int), (b.0 as int, b.1 as int)),
{
    let m: u64 = 0x10_0000_0000;
    let sa = a.0 % m;
    let sb = b.0 % m;
    if a.1 > m - sa || b.1 > m - sb {
        return false;
    }
    let r = sa + a.1 <= sb || sb + b.1 <= sa;
    proof {
        if r {
            lemma_separate_apart((a.0 as int, a.1 as int), (b.0 as int, b.1 as int));
        }
    }
    r
}

/// Whether the address space of task `id` can be made without a run of
/// pages that passes the end of the 36 bits that translation looks at: the
/// identifier has a slot, every run can be mapped, the frames of the shared
/// runs fit an entry, and any two runs lie apart.
pub open spec fn fits_apart(layout: KernelLayout, id: int) -> bool {
    let runs = page_runs(layout, id);
    &&& 0 < id < MAX_TASKS
    &&& forall|i: int|
        0 <= i < 9 ==> (#[trigger] runs[i]).1 <= 0x10_0000_0000 && runs[i].0 + runs[i].1
            <= u64::MAX
    &&& forall|i: int|
        0 <= i < 7 ==> (#[trigger] shared_mappings(layout)[i]).0.phys_begin@ + shared_mappings(
            layout,
        )[i].0.num <= FRAME_LIMIT
    &&& forall|i: int, j: int|
        0 <= i < j < 9 ==> separate(#[trigger] runs[i], #[trigger] runs[j])
}

/// Tests whether the address space of task `id` can be made: the
/// identifier has a slot, every run of pages can be mapped and stays inside
/// the 36 bits that translation looks at, the frames of the shared runs fit
/// an entry, and no two runs meet.
pub fn address_space_fits(id: u64, layout: &KernelLayout) -> (r: bool)
    ensures
        r == fits_apart(*layout, id as int),
        r ==> 0 < id < MAX_TASKS && fits(*layout, id as int),
{
    if id == 0 || id >= MAX_TASKS {
        return false;
    }
    let text = layout.mapping.text;
    let rodata = layout.mapping.rodata;
    let data = layout.mapping.data;
    let bss = layout.mapping.bss;
    let runs: [(u64, u64); 9] = [
        (text.virt_begin.0, text.num),
        (rodata.virt_begin.0, rodata.num),
        (data.virt_begin.0, data.num),
        (bss.virt_begin.0, bss.num),
        (PHYSICAL_MAP_BEGIN / FRAME_SIZE, PHYSICAL_WINDOW_FRAMES),
        (KERNEL_ISTACK_END / FRAME_SIZE - 2, INTERRUPT_STACK_FRAMES),
        (KERNEL_HEAP_BEGIN / FRAME_SIZE, layout.heap.num),
        (KERNEL_STACK_BEGIN / FRAME_SIZE + 2 * id, 1),
        (APP_STACK_BEGIN / FRAME_SIZE, 1),
    ];
    let ghost wanted = page_runs(*layout, id as int);
    assert forall|k: int| 0 <= k < 9 implies (runs@[k].0 as int, runs@[k].1 as int)
        == #[trigger] wanted[k] by {}
    let firsts: [u64; 7] = [
        text.phys_begin.0,
        rodata.phys_begin.0,
        data.phys_begin.0,
        bss.phys_begin.0,
        0,
        layout.interrupt_stack.0,
        layout.heap.begin.0,
    ];
    assert forall|k: int| 0 <= k < 7 implies firsts@[k] == (#[trigger] shared_mappings(
        *layout,
    )[k]).0.phys_begin@ && runs@[k].1 == shared_mappings(*layout)[k].0.num by {}
    let mut i: usize = 0;
    while i < 9
        invariant
            i <= 9,
            0 < id < MAX_TASKS,
            wanted == page_runs(*layout, id as int),
            forall|k: int|
                0 <= k < 9 ==> (runs@[k].0 as int, runs@[k].1 as int) == #[trigger] wanted[k],
            forall|k: int|
                0 <= k < 7 ==> firsts@[k] == (#[trigger] shared_mappings(*layout)[k]).0.phys_begin@
                    && runs@[k].1 == shared_mappings(*layout)[k].0.num,
            forall|k: int|
                0 <= k < i ==> 0 <= (#[trigger] wanted[k]).1 <= 0x10_0000_0000 && wanted[k].0
                    + wanted[k].1 <= u64::MAX,
            forall|k: int|
                0 <= k < i && k < 7 ==> (#[trigger] shared_mappings(*layout)[k]).0.phys_begin@
                    + shared_mappings(*layout)[k].0.num <= FRAME_LIMIT,
            forall|k: int, l: int|
                0 <= k < l < 9 && k < i ==> separate(#[trigger] wanted[k], #[trigger] wanted[l]),
        decreases 9 - i,
    {
        let run = runs[i];
        assert((run.0 as int, run.1 as int) == wanted[i as int]);
        if run.1 > 0x10_0000_0000 || run.0 > u64::MAX - run.1 {
            return false;
        }
        if i < 7 {
            let first = firsts[i];
            assert(first == shared_mappings(*layout)[i as int].0.phys_begin@);
            if first > FRAME_LIMIT || run.1 > FRAME_LIMIT - first {
                return false;
            }
        }
        let mut j: usize = i + 1;
        while j < 9
            invariant
                i < j <= 9,
                run == runs@[i as int],
                wanted == page_runs(*layout, id as int),
                forall|k: int|
                    0 <= k < 9 ==> (runs@[k].0 as int, runs@[k].1 as int) == #[trigger] wanted[k],
                forall|l: int| i < l < j ==> separate(wanted[i as int], #[trigger] wanted[l]),
            decreases 9 - j,
        {
            let other = runs[j];
            assert((other.0 as int, other.1 as int) == wanted[j as int]);
            if !runs_separate(run, other) {
                assert(!separate(wanted[i as int], wanted[j as int]));
                return false;
            }
            j += 1;
        }
        i += 1;
    }
    proof {
        assert forall|k: int, l: int| 0 <= k < l < 9 implies runs_apart(
            #[trigger] wanted[k],
            #[trigger] wanted[l],
        ) by {
            assert(wanted[k].1 >= 0 && wanted[l].1 >= 0);
            assert(wanted[k].0 >= 0 && wanted[l].0 >= 0) by {
                assert((runs@[k].0 as int, runs@[k].1 as int) == wanted[k]);
                assert((runs@[l].0 as int, runs@[l].1 as int) == wanted[l]);
            }
            lemma_separate_apart(wanted[k], wanted[l]);
        }
    }
    true
}

/// What making a task leaves of the state before it: the allocator is valid
/// and its frames still back tables; every frame that is free now was free
/// before; and no word of a frame that was not free has changed.
pub open spec fn only_free_touched<M: TableMemory, A: FrameAllocator>(
    mem: &M,
    alloc: &A,
    mem_before: &M,
    free_before: Set<int>,
) -> bool {
    &&& alloc.wf()
    &&& backs(alloc, mem)
    &&& alloc.free_frames().subset_of(free_before)
    &&& forall|f: int| mem.holds(f) == mem_before.holds(f)
    &&& forall|f: int, i: int|
        !free_before.contains(f) ==> #[trigger] mem.word(f, i) == mem_before.word(f, i)
}

/// What the processor is given to run a task: the frame from which it
/// resumes the task, the registers to load before, and the root table of
/// the task's address space.
pub struct Dispatch {
    pub id: u64,
    pub frame: InterruptionStackFrame,
    pub registers: RegisterStore,
    pub root: Frame,
}

/// The registers that are saved for a task that was interrupted with the
/// general-purpose registers of `general` at the frame `frame`: those
/// registers, the instruction pointer, stack pointer and flags of the
/// frame, and the task's own kernel stack pointer.
pub open spec fn saved_registers(
    own: RegisterStore,
    general: RegisterStore,
    frame: InterruptionStackFrame,
) -> RegisterStore {
    RegisterStore {
        rsp: frame.rsp,
        rip: frame.rip,
        rflags: frame.rflags,
        kernel_rsp: own.kernel_rsp,
        ..general
    }
}

/// A task.
pub struct Task {
    pub registers: RegisterStore,
    page_table: PageTable,
    id: u64,
    kernel_stack: Frame,
    user_stack: Frame,
    segments: Vec<FrameRegion>,
}

/// Gives the tables of `pt` and the frames of the two stacks, where there
/// are any, back to `alloc`, as far as `alloc` takes them: first the tree,
/// up to a table that is refused, then each stack, whatever became of what
/// came before. Nothing else becomes free, and nothing that was free is
/// taken.
fn abandon<M: TableMemory, A: FrameAllocator>(
    pt: PageTable,
    mem: &M,
    alloc: &mut A,
    kernel_stack: Option<FrameRegion>,
    user_stack: Option<FrameRegion>,
    Ghost(free_before): Ghost<Set<int>>,
)
    requires
        pt.wf(mem),
        old(alloc).wf(),
        backs(old(alloc), mem),
        pt.tables().disjoint(old(alloc).free_frames()),
        old(alloc).free_frames().subset_of(free_before),
        pt.tables().subset_of(free_before),
        forall|f: int| free_before.contains(f) ==> mem.holds(f) && 0 <= f < 0x100_0000_0000,
        kernel_stack matches Some(r) ==> r.frames().subset_of(free_before),
        user_stack matches Some(r) ==> r.frames().subset_of(free_before),
    ensures
        final(alloc).wf(),
        backs(final(alloc), mem),
        final(alloc).free_frames().subset_of(free_before),
        old(alloc).free_frames().subset_of(final(alloc).free_frames()),
        forall|f: int|
            final(alloc).free_frames().contains(f) ==> {
                ||| old(alloc).free_frames().contains(f)
                ||| pt.tables().contains(f)
                ||| (kernel_stack matches Some(r) && r.contains(f))
                ||| (user_stack matches Some(r) && r.contains(f))
            },
        pt.released_or_refused::<A>(old(alloc).free_frames(), final(alloc).free_frames()),
        kernel_stack matches Some(r) ==> returned_or_refused::<A>(
            old(alloc).free_frames(),
            final(alloc).free_frames(),
            r,
        ),
        user_stack matches Some(r) ==> returned_or_refused::<A>(
            old(alloc).free_frames(),
            final(alloc).free_frames(),
            r,
        ),
{
    let ghost free0 = old(alloc).free_frames();
    let released = pt.release(mem, alloc);
    let ghost free1 = alloc.free_frames();
    proof {
        if released is Err {
            assert(pt.refused(alloc));
        }
        assert(pt.released_or_refused::<A>(free0, free1));
    }
    if let Some(r) = kernel_stack {
        let freed = alloc.free(&r);
        proof {
            if freed is Err {
                assert(!alloc.can_free(r));
            }
            assert(returned_or_refused::<A>(free0, alloc.free_frames(), r));
        }
    }
    let ghost free2 = alloc.free_frames();
    if let Some(r) = user_stack {
        let freed = alloc.free(&r);
        proof {
            if freed is Err {
                assert(!alloc.can_free(r));
            }
            assert(returned_or_refused::<A>(free0, alloc.free_frames(), r));
        }
    }
    proof {
        let free3 = alloc.free_frames();
        pt.lemma_still_released::<A>(free0, free1, free3);
        if let Some(r) = kernel_stack {
            lemma_still_returned::<A>(free0, free2, free3, r);
        }
    }
}

impl Task {
    pub closed spec fn page_table(&self) -> PageTable {
        self.page_table
    }

    /// The saved registers of the task.
    pub closed spec fn saved(&self) -> RegisterStore {
        self.registers
    }

    /// The saved registers of the task.
    pub fn get_registers(&self) -> (r: RegisterStore)
        ensures
            r == self.saved(),
    {
        self.registers
    }

    /// Replaces the saved registers of the task.
    pub fn set_registers(&mut self, registers: RegisterStore)
        ensures
            final(self).saved() == registers,
            final(self).page_table() == old(self).page_table(),
            final(self).spec_id() == old(self).spec_id(),
            final(self).kernel_stack() == old(self).kernel_stack(),
            final(self).user_stack() == old(self).user_stack(),
            final(self).segments() == old(self).segments(),
    {
        self.registers = registers;
    }

    pub closed spec fn spec_id(&self) -> u64 {
        self.id
    }

    /// The frame of the task's kernel stack.
    pub closed spec fn kernel_stack(&self) -> Frame {
        self.kernel_stack
    }

    /// The frame of the task's user stack.
    pub closed spec fn user_stack(&self) -> Frame {
        self.user_stack
    }

    /// The frames of the segments of the task's image, segment by segment.
    pub closed spec fn segments(&self) -> Seq<FrameRegion> {
        self.segments@
    }

    /// The frames that the task owns beside the tables of its address
    /// space: those of its two stacks and of the segments of its image.
    pub open spec fn owned(&self) -> Set<int> {
        Set::new(
            |f: int|
                f == self.kernel_stack()@ || f == self.user_stack()@ || exists|i: int|
                    0 <= i < self.segments().len() && (#[trigger] self.segments()[i]).contains(f),
        )
    }

    /// The frames that the task holds: the tables of its address space and
    /// the frames that it owns beside them.
    pub open spec fn footprint(&self) -> Set<int> {
        self.page_table().tables().union(self.owned())
    }

    /// Whether the task is whole in `mem`: its address space is valid, and
    /// none of its tables is one of its stacks or segments.
    pub open spec fn intact<M: TableMemory>(&self, mem: &M) -> bool {
        self.page_table().wf(mem) && self.page_table().tables().disjoint(self.owned())
    }

    /// Other saved registers leave the frames of a task alone.
    pub proof fn lemma_with_registers(self, registers: RegisterStore)
        ensures
            self.with_registers(registers).page_table() == self.page_table(),
            self.with_registers(registers).owned() == self.owned(),
            self.with_registers(registers).footprint() == self.footprint(),
            self.with_registers(registers).spec_id() == self.spec_id(),
            self.with_registers(registers).saved() == registers,
    {
        assert(self.with_registers(registers).owned() =~= self.owned());
    }

    /// The frame of the task's kernel stack, as a region.
    pub open spec fn kernel_stack_region(&self) -> FrameRegion {
        FrameRegion { begin: self.kernel_stack(), num: 1 }
    }

    /// The frame of the task's user stack, as a region.
    pub open spec fn user_stack_region(&self) -> FrameRegion {
        FrameRegion { begin: self.user_stack(), num: 1 }
    }

    /// Whether an allocator of the kind `A` refused something of the task
    /// while its free frames went from `before` to `after`: a table of the
    /// address space, a stack, or a segment.
    pub open spec fn refused_between<A: FrameAllocator>(
        &self,
        before: Set<int>,
        after: Set<int>,
    ) -> bool {
        ||| self.page_table().refused_between::<A>(before, after)
        ||| refused_between::<A>(before, after, self.kernel_stack_region())
        ||| refused_between::<A>(before, after, self.user_stack_region())
        ||| exists|i: int|
            0 <= i < self.segments().len() && refused_between::<A>(
                before,
                after,
                #[trigger] self.segments()[i],
            )
    }

    /// A refusal on the way stays one while more frames become free.
    proof fn lemma_still_refused<A: FrameAllocator>(
        &self,
        before: Set<int>,
        between: Set<int>,
        after: Set<int>,
    )
        requires
            self.refused_between::<A>(before, between),
            between.subset_of(after),
        ensures
            self.refused_between::<A>(before, after),
    {
        if self.page_table().refused_between::<A>(before, between) {
            self.page_table().lemma_still_refused::<A>(before, between, after);
        } else if refused_between::<A>(before, between, self.kernel_stack_region()) {
            lemma_still_refused::<A>(before, between, after, self.kernel_stack_region());
        } else if refused_between::<A>(before, between, self.user_stack_region()) {
            lemma_still_refused::<A>(before, between, after, self.user_stack_region());
        } else {
            let i = choose|i: int|
                0 <= i < self.segments().len() && refused_between::<A>(
                    before,
                    between,
                    #[trigger] self.segments()[i],
                );
            lemma_still_refused::<A>(before, between, after, self.segments()[i]);
        }
    }

    /// Gives the frames of the task back to `alloc`, as far as `alloc`
    /// takes them: first the tables of its address space, up to one that is
    /// refused, then its kernel stack, its user stack and the segments of
    /// its image, each whatever became of what came before. Nothing else
    /// becomes free, and nothing that was free is taken.
    ///
    /// Where it returns `true`, the free frames are those of before and all
    /// frames of the task. It returns `false` only where `alloc` refused a
    /// table, a stack or a segment.
    pub fn release<M: TableMemory, A: FrameAllocator>(self, mem: &M, alloc: &mut A) -> (r: bool)
        requires
            self.page_table().wf(mem),
            old(alloc).wf(),
            self.page_table().tables().disjoint(old(alloc).free_frames()),
        ensures
            final(alloc).wf(),
            old(alloc).free_frames().subset_of(final(alloc).free_frames()),
            final(alloc).free_frames().subset_of(
                old(alloc).free_frames().union(self.page_table().tables()).union(self.owned()),
            ),
            self.page_table().released_or_refused::<A>(
                old(alloc).free_frames(),
                final(alloc).free_frames(),
            ),
            returned_or_refused::<A>(
                old(alloc).free_frames(),
                final(alloc).free_frames(),
                self.kernel_stack_region(),
            ),
            returned_or_refused::<A>(
                old(alloc).free_frames(),
                final(alloc).free_frames(),
                self.user_stack_region(),
            ),
            forall|i: int|
                0 <= i < self.segments().len() ==> returned_or_refused::<A>(
                    old(alloc).free_frames(),
                    final(alloc).free_frames(),
                    #[trigger] self.segments()[i],
                ),
            r ==> final(alloc).free_frames() == old(alloc).free_frames().union(self.footprint()),
            !r ==> self.refused_between::<A>(old(alloc).free_frames(), final(alloc).free_frames()),
    {
        let ghost owned = self.owned();
        let ghost pt = self.page_table;
        let ghost tables = self.page_table.tables();
        let ghost free0 = old(alloc).free_frames();
        let released = self.page_table.release(mem, alloc);
        let mut all = released.is_ok();
        let ghost free1 = alloc.free_frames();
        let kstack = FrameRegion::new(self.kernel_stack, 1);
        let ustack = FrameRegion::new(self.user_stack, 1);
        proof {
            if released is Err {
                assert(pt.refused(alloc));
                assert(pt.refused_between::<A>(free0, free1));
            }
            assert(kstack == self.kernel_stack_region());
            assert(ustack == self.user_stack_region());
            assert(kstack.frames().subset_of(owned)) by {
                assert forall|f: int| kstack.frames().contains(f) implies owned.contains(f) by {}
            }
            assert(ustack.frames().subset_of(owned)) by {
                assert forall|f: int| ustack.frames().contains(f) implies owned.contains(f) by {}
            }
        }
        if alloc.free(&kstack).is_err() {
            proof {
                assert(!alloc.can_free(kstack));
                assert(refused_between::<A>(free0, alloc.free_frames(), kstack));
            }
            let is_free = alloc.is_free_frame(self.kernel_stack);
            proof {
                if !all {
                    self.lemma_still_refused::<A>(free0, free1, alloc.free_frames());
                }
            }
            all = all && is_free;
        } else {
            proof {
                if !all {
                    self.lemma_still_refused::<A>(free0, free1, alloc.free_frames());
                }
            }
        }
        assert(kstack.frames().contains(self.kernel_stack@));
        let ghost free2 = alloc.free_frames();
        if alloc.free(&ustack).is_err() {
            proof {
                assert(!alloc.can_free(ustack));
                assert(refused_between::<A>(free0, alloc.free_frames(), ustack));
            }
            let is_free = alloc.is_free_frame(self.user_stack);
            proof {
                if !all {
                    self.lemma_still_refused::<A>(free0, free2, alloc.free_frames());
                }
            }
            all = all && is_free;
        } else {
            proof {
                if !all {
                    self.lemma_still_refused::<A>(free0, free2, alloc.free_frames());
                }
            }
        }
        assert(ustack.frames().contains(self.user_stack@));
        proof {
            pt.lemma_still_released::<A>(free0, free1, alloc.free_frames());
            lemma_still_returned::<A>(free0, free2, alloc.free_frames(), kstack);
        }
        let mut i: usize = 0;
        while i < self.segments.len()
            invariant
                i <= self.segments@.len(),
                alloc.wf(),
                owned == self.owned(),
                pt == self.page_table(),
                tables == pt.tables(),
                kstack == self.kernel_stack_region(),
                ustack == self.user_stack_region(),
                free0.subset_of(alloc.free_frames()),
                alloc.free_frames().subset_of(free0.union(tables).union(owned)),
                all ==> tables.subset_of(alloc.free_frames()),
                all ==> alloc.free_frames().contains(self.kernel_stack()@),
                all ==> alloc.free_frames().contains(self.user_stack()@),
                all ==> forall|j: int|
                    0 <= j < i ==> (#[trigger] self.segments()[j]).frames().subset_of(
                        alloc.free_frames(),
                    ),
                !all ==> self.refused_between::<A>(free0, alloc.free_frames()),
                pt.released_or_refused::<A>(free0, alloc.free_frames()),
                returned_or_refused::<A>(free0, alloc.free_frames(), kstack),
                returned_or_refused::<A>(free0, alloc.free_frames(), ustack),
                forall|j: int|
                    0 <= j < i ==> returned_or_refused::<A>(
                        free0,
                        alloc.free_frames(),
                        #[trigger] self.segments()[j],
                    ),
            decreases self.segments@.len() - i,
        {
            let region = self.segments[i];
            let ghost before = alloc.free_frames();
            proof {
                assert(region == self.segments()[i as int]);
                assert(region.frames().subset_of(owned)) by {
                    assert forall|f: int| region.frames().contains(f) implies owned.contains(f) by {
                        assert(self.segments()[i as int].contains(f));
                    }
                }
            }
            let freed = alloc.free(&region);
            proof {
                let now = alloc.free_frames();
                if !all {
                    self.lemma_still_refused::<A>(free0, before, now);
                }
                if freed is Err {
                    assert(!alloc.can_free(region));
                    assert(refused_between::<A>(free0, now, self.segments()[i as int]));
                }
                pt.lemma_still_released::<A>(free0, before, now);
                lemma_still_returned::<A>(free0, before, now, kstack);
                lemma_still_returned::<A>(free0, before, now, ustack);
                assert forall|j: int| 0 <= j < i + 1 implies returned_or_refused::<A>(
                    free0,
                    now,
                    #[trigger] self.segments()[j],
                ) by {
                    if j < i {
                        lemma_still_returned::<A>(free0, before, now, self.segments()[j]);
                    }
                }
            }
            if freed.is_err() {
                all = false;
            }
            i += 1;
        }
        proof {
            if all {
                assert forall|f: int| owned.contains(f) implies alloc.free_frames().contains(f) by {
                    if f != self.kernel_stack()@ && f != self.user_stack()@ {
                        let j = choose|j: int|
                            0 <= j < self.segments().len() && (#[trigger] self.segments()[j]).contains(
                                f,
                            );
                        assert(self.segments()[j].frames().contains(f));
                    }
                }
                assert(alloc.free_frames() =~= free0.union(self.footprint()));
            }
        }
        all
    }

    /// The task with other saved registers.
    pub closed spec fn with_registers(self, registers: RegisterStore) -> Task {
        Task { registers, ..self }
    }

    /// What the processor is given to run the task.
    pub open spec fn spec_dispatch(&self) -> Dispatch {
        Dispatch {
            id: self.spec_id(),
            frame: self.saved().spec_return_frame(),
            registers: self.saved(),
            root: Frame(self.page_table().root() as u64),
        }
    }

    /// Saves the state of the task, which was interrupted with the
    /// general-purpose registers of `general` at the frame `frame`.
    pub fn preempt(&mut self, general: &RegisterStore, frame: &InterruptionStackFrame)
        ensures
            *final(self) == old(self).with_registers(
                saved_registers(old(self).saved(), *general, *frame),
            ),
            final(self).saved() == saved_registers(old(self).saved(), *general, *frame),
            final(self).page_table() == old(self).page_table(),
            final(self).spec_id() == old(self).spec_id(),
            final(self).kernel_stack() == old(self).kernel_stack(),
            final(self).user_stack() == old(self).user_stack(),
            final(self).segments() == old(self).segments(),
    {
        let kernel_rsp = self.registers.kernel_rsp;
        self.registers = *general;
        self.registers.kernel_rsp = kernel_rsp;
        self.registers.preempt(frame);
    }

    /// What the processor is given to run the task: the frame from which
    /// it resumes where its saved registers say, with the selectors of the
    /// half of virtual memory in which it runs; the saved registers; and the
    /// root of its address space.
    pub fn jump_to(&self) -> (r: Dispatch)
        ensures
            r == self.spec_dispatch(),
    {
        Dispatch {
            id: self.id,
            frame: self.registers.return_frame(),
            registers: self.registers,
            root: self.page_table.root_frame(),
        }
    }

    #[verifier::when_used_as_spec(spec_id)]
    pub fn id(&self) -> (r: u64)
        ensures
            r == self.spec_id(),
    {
        self.id
    }

    /// The address space of the task.
    pub fn get_page_table(&self) -> (r: &PageTable)
        ensures
            *r == self.page_table(),
    {
        &self.page_table
    }

    /// The kernel stack slot of task `id`, as a page.
    fn kernel_stack_page(id: u64) -> (r: Page)
        requires
            0 < id < MAX_TASKS,
        ensures
            r@ == kernel_stack_slot(id as int) / 4096,
            r@ * 4096 == kernel_stack_slot(id as int),
    {
        Page::new(KERNEL_STACK_BEGIN / FRAME_SIZE + 2 * id)
    }

    /// Makes the address space of task `id`: a new tree that maps the
    /// kernel's sections, the window onto physical memory, the interrupt
    /// stack, the kernel heap, and one new frame each for the task's kernel
    /// stack and its user stack. Returns the tree and the two frames.
    ///
    /// On failure whatever was taken from `alloc` goes back to it, as far
    /// as it takes it.
    pub fn create_page_table<M: TableMemory, A: FrameAllocator>(
        id: u64,
        layout: &KernelLayout,
        mem: &mut M,
        alloc: &mut A,
    ) -> (r: Result<(PageTable, Frame, Frame), TaskError>)
        requires
            0 < id < MAX_TASKS,
            old(alloc).wf(),
            backs(old(alloc), old(mem)),
        ensures
            only_free_touched(final(mem), final(alloc), old(mem), old(alloc).free_frames()),
            match r {
                Ok((pt, kernel_stack, user_stack)) => {
                    &&& pt.wf(final(mem))
                    &&& pt.permissive(final(mem))
                    &&& pt.tables().subset_of(old(alloc).free_frames())
                    &&& pt.tables().disjoint(final(alloc).free_frames())
                    &&& address_space(&pt, final(mem), id as int, *layout, kernel_stack, user_stack)
                    &&& old(alloc).free_frames().contains(kernel_stack@)
                    &&& old(alloc).free_frames().contains(user_stack@)
                    &&& !final(alloc).free_frames().contains(kernel_stack@)
                    &&& !final(alloc).free_frames().contains(user_stack@)
                    &&& !pt.tables().contains(kernel_stack@)
                    &&& !pt.tables().contains(user_stack@)
                    &&& kernel_stack@ != user_stack@
                    &&& at_most_taken(
                        old(alloc).free_frames(),
                        final(alloc).free_frames(),
                        frames_for_address_space(*layout, id as int),
                    )
                    &&& forall|q: int|
                        0 <= q <= u64::MAX && (#[trigger] pt.translate(final(mem), q)) is Some
                            ==> touched_by(page_runs(*layout, id as int), 9, q)
                },
                Err(e) => e != TaskError::BadIdentifier && !(e matches TaskError::Image(_))
                    && space_explains(e, *layout, id as int, old(alloc).free_frames()),
            },
            fits(*layout, id as int) && old(alloc).free_frames().finite() && old(
                alloc,
            ).free_frames().len() >= frames_for_address_space(*layout, id as int) ==> r is Ok,
    {
        let ghost free0 = old(alloc).free_frames();
        let ghost runs = page_runs(*layout, id as int);
        let ghost fit = fits(*layout, id as int);
        let ghost enough = fit && free0.finite() && free0.len() >= frames_for_address_space(
            *layout,
            id as int,
        );
        proof {
            lemma_tables_upto(runs, 0, 9);
            lemma_tables_upto(runs, 7, 9);
            assert(tables_upto(runs, 9) == tables_upto(runs, 7) + tables_for(1) + tables_for(1)) by {
                assert(tables_upto(runs, 9) == tables_upto(runs, 8) + tables_for(runs[8].1));
                assert(tables_upto(runs, 8) == tables_upto(runs, 7) + tables_for(runs[7].1));
            }
        }
        let mut pt = match PageTable::new(mem, alloc) {
            Ok(pt) => pt,
            Err(_) => {
                return Err(TaskError::OutOfFrames);
            },
        };
        let regions: [(MappingRegion, PageFlags); 7] = [
            (layout.mapping.text, PageFlags::executable()),
            (layout.mapping.rodata, PageFlags::empty()),
            (layout.mapping.data, PageFlags::writable()),
            (layout.mapping.bss, PageFlags::writable()),
            (
                MappingRegion {
                    phys_begin: Frame::zero(),
                    virt_begin: Page::new(PHYSICAL_MAP_BEGIN / FRAME_SIZE),
                    num: PHYSICAL_WINDOW_FRAMES,
                },
                PageFlags::writable(),
            ),
            (
                MappingRegion {
                    phys_begin: layout.interrupt_stack,
                    virt_begin: Page::new(KERNEL_ISTACK_END / FRAME_SIZE - 2),
                    num: INTERRUPT_STACK_FRAMES,
                },
                PageFlags::writable(),
            ),
            (
                MappingRegion {
                    phys_begin: layout.heap.start(),
                    virt_begin: Page::new(KERNEL_HEAP_BEGIN / FRAME_SIZE),
                    num: layout.heap.size(),
                },
                PageFlags::writable(),
            ),
        ];
        assert(regions@ =~= shared_mappings(*layout));
        let mut i: usize = 0;
        proof {
            assert forall|q: int| 0 <= q <= u64::MAX && !touched_by(runs, 0, q) implies (
            #[trigger] pt.translate(mem, q)) is None by {}
        }
        while i < 7
            invariant
                i <= 7,
                regions@ == shared_mappings(*layout),
                runs == page_runs(*layout, id as int),
                fit == fits(*layout, id as int),
                enough == (fit && free0.finite() && free0.len() >= frames_for_address_space(
                    *layout,
                    id as int,
                )),
                enough ==> alloc.free_frames().finite() && alloc.free_frames().len() >= free0.len()
                    - 1 - tables_upto(runs, i as int),
                at_most_taken(free0, alloc.free_frames(), 1 + tables_upto(runs, i as int)),
                forall|q: int|
                    0 <= q <= u64::MAX && !touched_by(runs, i as int, q) ==> (
                    #[trigger] pt.translate(mem, q)) is None,
                pt.wf(mem),
                pt.permissive(mem),
                alloc.wf(),
                backs(alloc, mem),
                backs(old(alloc), old(mem)),
                free0 == old(alloc).free_frames(),
                pt.tables().disjoint(alloc.free_frames()),
                alloc.free_frames().subset_of(free0),
                pt.tables().subset_of(free0),
                forall|f: int| mem.holds(f) == old(mem).holds(f),
                forall|f: int, k: int|
                    !free0.contains(f) ==> #[trigger] mem.word(f, k) == old(mem).word(f, k),
                forall|j: int|
                    0 <= j < i ==> pt.maps(mem, (#[trigger] regions@[j]).0, regions@[j].1),
            decreases 7 - i,
        {
            let ghost pt0 = pt;
            let ghost mem0 = *mem;
            let ghost free1 = alloc.free_frames();
            let item = regions[i];
            proof {
                assert(item.0.virt_begin@ == runs[i as int].0 && item.0.num == runs[i as int].1);
                assert(runs[i as int].1 >= 0);
                lemma_tables_upto(runs, i as int, 9);
                if fit {
                    lemma_run_unmapped(&pt, mem, runs, i as int);
                    assert(shared_mappings(*layout)[i as int].0.phys_begin@ + shared_mappings(
                        *layout,
                    )[i as int].0.num <= FRAME_LIMIT);
                    assert(PageTable::mappable(item.0));
                }
            }
            let mapped = pt.try_map(mem, alloc, &item.0, item.1);
            proof {
                lemma_taken_twice(
                    free0,
                    free1,
                    alloc.free_frames(),
                    1 + tables_upto(runs, i as int),
                    tables_for(runs[i as int].1),
                );
            }
            match mapped {
                Ok(()) => {},
                Err(e) => {
                    abandon(pt, mem, alloc, None, None, Ghost(free0));
                    return Err(TaskError::Unmappable(e));
                },
            }
            proof {
                assert forall|j: int| 0 <= j < i implies pt.maps(
                    mem,
                    (#[trigger] regions@[j]).0,
                    regions@[j].1,
                ) by {
                    pt.lemma_extended_maps(&pt0, mem, &mem0, regions@[j].0, regions@[j].1);
                }
                lemma_untouched_still(&pt, mem, &pt0, &mem0, runs, i as int);
            }
            i += 1;
        }
        let ghost free7 = alloc.free_frames();
        let kstack = match alloc.allocate(1) {
            Ok(r) => r,
            Err(_) => {
                proof {
                    lemma_no_single_frame(free7);
                }
                abandon(pt, mem, alloc, None, None, Ghost(free0));
                return Err(TaskError::OutOfFrames);
            },
        };
        assert(kstack.frames().contains(kstack.begin@));
        let ghost free8 = alloc.free_frames();
        proof {
            lemma_one_taken(free7, free8, kstack);
            lemma_taken_twice(free0, free7, free8, 1 + tables_upto(runs, 7), 1);
        }
        let ustack = match alloc.allocate(1) {
            Ok(r) => r,
            Err(_) => {
                proof {
                    lemma_no_single_frame(free8);
                }
                abandon(pt, mem, alloc, Some(kstack), None, Ghost(free0));
                return Err(TaskError::OutOfFrames);
            },
        };
        assert(ustack.frames().contains(ustack.begin@));
        let ghost free9 = alloc.free_frames();
        proof {
            lemma_one_taken(free8, free9, ustack);
            lemma_taken_twice(free0, free8, free9, 2 + tables_upto(runs, 7), 1);
        }
        let ghost pt1 = pt;
        let ghost mem1 = *mem;
        let kregion = MappingRegion {
            phys_begin: kstack.start(),
            virt_begin: Self::kernel_stack_page(id),
            num: 1,
        };
        proof {
            assert(kregion.virt_begin@ == runs[7].0 && kregion.num == runs[7].1);
            assert(free0.contains(kstack.begin@));
            if fit {
                lemma_run_unmapped(&pt, mem, runs, 7);
                assert(PageTable::mappable(kregion));
            }
        }
        let mapped = pt.try_map(mem, alloc, &kregion, PageFlags::writable());
        let ghost free10 = alloc.free_frames();
        proof {
            lemma_taken_twice(free0, free9, free10, 3 + tables_upto(runs, 7), tables_for(1));
        }
        match mapped {
            Ok(()) => {},
            Err(e) => {
                abandon(pt, mem, alloc, Some(kstack), Some(ustack), Ghost(free0));
                return Err(TaskError::Unmappable(e));
            },
        }
        let ghost pt2 = pt;
        let ghost mem2 = *mem;
        proof {
            lemma_untouched_still(&pt, mem, &pt1, &mem1, runs, 7);
        }
        let uregion = MappingRegion {
            phys_begin: ustack.start(),
            virt_begin: Page::new(APP_STACK_BEGIN / FRAME_SIZE),
            num: 1,
        };
        proof {
            assert(uregion.virt_begin@ == runs[8].0 && uregion.num == runs[8].1);
            assert(free0.contains(ustack.begin@));
            if fit {
                lemma_run_unmapped(&pt, mem, runs, 8);
                assert(PageTable::mappable(uregion));
            }
            if enough {
                lemma_taken_twice(free9, free10, free10, tables_for(1), 0);
            }
        }
        let mapped = pt.try_map(
            mem,
            alloc,
            &uregion,
            PageFlags::usermode().union(PageFlags::writable()),
        );
        proof {
            lemma_taken_twice(
                free0,
                free10,
                alloc.free_frames(),
                3 + tables_upto(runs, 7) + tables_for(1),
                tables_for(1),
            );
        }
        match mapped {
            Ok(()) => {},
            Err(e) => {
                abandon(pt, mem, alloc, Some(kstack), Some(ustack), Ghost(free0));
                return Err(TaskError::Unmappable(e));
            },
        }
        proof {
            lemma_untouched_still(&pt, mem, &pt2, &mem2, runs, 8);
            assert forall|j: int| 0 <= j < 7 implies pt.maps(
                mem,
                (#[trigger] shared_mappings(*layout)[j]).0,
                shared_mappings(*layout)[j].1,
            ) by {
                pt2.lemma_extended_maps(&pt1, &mem2, &mem1, regions@[j].0, regions@[j].1);
                pt.lemma_extended_maps(&pt2, mem, &mem2, regions@[j].0, regions@[j].1);
            }
            pt.lemma_extended_maps(&pt2, mem, &mem2, kregion, writable_only());
        }
        Ok((pt, kstack.start(), ustack.start()))
    }

    /// Makes task `id` from the image that `elf_file` holds: its address
    /// space, with the image's segments loaded into it, and its registers,
    /// which start the task at the image's entry point on an empty user
    /// stack, with its kernel stack at the top of its slot and interrupts
    /// enabled. Returns the task and what is to be written into the frames
    /// of its segments.
    ///
    /// An identifier without a slot is refused. With an identifier that has
    /// one, a layout whose runs of pages fit, and as many free frames as
    /// the address space can need, it fails only where the image does not
    /// load, with the loader's reason; and an image that loads freely into
    /// the address space is loaded.
    pub fn new<R: Readable, M: TableMemory, A: FrameAllocator>(
        id: u64,
        elf_file: &R,
        layout: &KernelLayout,
        mem: &mut M,
        alloc: &mut A,
    ) -> (r: Result<(Task, LoadedImage), TaskError>)
        requires
            old(alloc).wf(),
            backs(old(alloc), old(mem)),
        ensures
            only_free_touched(final(mem), final(alloc), old(mem), old(alloc).free_frames()),
            r == Err::<(Task, LoadedImage), TaskError>(TaskError::BadIdentifier) <==> id == 0 || id
                >= MAX_TASKS,
            0 < id < MAX_TASKS && fits(*layout, id as int) && old(alloc).free_frames().finite()
                && old(alloc).free_frames().len() >= frames_for_address_space(*layout, id as int)
                ==> r is Ok || r matches Err(TaskError::Image(_)),
            r == Err::<(Task, LoadedImage), TaskError>(TaskError::Image(ElfError::BadSegment))
                ==> has_unsound_segment(elf_file.contents()),
            r matches Err(TaskError::Image(e)) ==> explains(
                elf_file,
                e,
                old(alloc).free_frames(),
                frames_for_address_space(*layout, id as int),
                address_space_pages(*layout, id as int),
            ),
            r is Ok ==> file_fault(elf_file) is None,
            r matches Err(e) ==> space_explains(e, *layout, id as int, old(alloc).free_frames()),
            0 < id < MAX_TASKS && fits(*layout, id as int) && loads_freely(
                elf_file,
                old(alloc).free_frames(),
                frames_for_address_space(*layout, id as int),
                address_space_pages(*layout, id as int),
            ) ==> r is Ok,
            match r {
                Ok((task, image)) => {
                    &&& task.id() == id
                    &&& task.saved() == RegisterStore::fresh(
                        image.entry,
                        APP_STACK_END,
                        kernel_stack_top(id as int) as u64,
                    )
                    &&& task.page_table().wf(final(mem))
                    &&& task.page_table().permissive(final(mem))
                    &&& task.page_table().tables().subset_of(old(alloc).free_frames())
                    &&& task.page_table().tables().disjoint(final(alloc).free_frames())
                    &&& address_space(
                        &task.page_table(),
                        final(mem),
                        id as int,
                        *layout,
                        task.kernel_stack(),
                        task.user_stack(),
                    )
                    &&& image.loads(elf_file.contents())
                    &&& image.mapped_by(&task.page_table(), final(mem))
                    &&& task.segments().len() == image.segments@.len()
                    &&& forall|i: int|
                        0 <= i < image.segments@.len() ==> (#[trigger] task.segments()[i])
                            == image.segments@[i].frames
                    &&& task.intact(final(mem))
                    &&& task.footprint().subset_of(old(alloc).free_frames())
                    &&& task.footprint().disjoint(final(alloc).free_frames())
                },
                Err(_) => true,
            },
    {
        if id == 0 || id >= MAX_TASKS {
            return Err(TaskError::BadIdentifier);
        }
        let ghost free0 = old(alloc).free_frames();
        proof {
            lemma_frames_for_segments(
                elf_file.contents(),
                0,
                ElfHeader::decode(
                    elf_file.contents().subrange(0, ELF_HEADER_SIZE as int),
                ).phnum as int,
            );
        }
        let (mut page_table, kernel_stack, user_stack) = match Self::create_page_table(
            id,
            layout,
            mem,
            alloc,
        ) {
            Ok(made) => made,
            Err(e) => {
                return Err(e);
            },
        };
        let ghost pt1 = page_table;
        let ghost mem1 = *mem;
        let ghost free1 = alloc.free_frames();
        let image = match load_elf(elf_file, &mut page_table, mem, alloc) {
            Ok(image) => image,
            Err(e) => {
                proof {
                    assert forall|q: int|
                        0 <= q <= u64::MAX && #[trigger] translating(
                            &pt1,
                            &mem1,
                        )(q) implies address_space_pages(*layout, id as int)(q) by {
                        assert(pt1.translate(&mem1, q) is Some);
                    }
                    lemma_explains_after(
                        elf_file,
                        e,
                        free0,
                        free1,
                        frames_for_address_space(*layout, id as int),
                        address_space_pages(*layout, id as int),
                        translating(&pt1, &mem1),
                    );
                    if loads_freely(
                        elf_file,
                        free0,
                        frames_for_address_space(*layout, id as int),
                        address_space_pages(*layout, id as int),
                    ) {
                        law_image_loads(
                            elf_file,
                            e,
                            free0,
                            frames_for_address_space(*layout, id as int),
                            address_space_pages(*layout, id as int),
                        );
                    }
                }
                abandon(
                    page_table,
                    mem,
                    alloc,
                    Some(FrameRegion::new(kernel_stack, 1)),
                    Some(FrameRegion::new(user_stack, 1)),
                    Ghost(free0),
                );
                return Err(TaskError::Image(e));
            },
        };
        proof {
            assert forall|j: int| 0 <= j < 7 implies page_table.maps(
                mem,
                (#[trigger] shared_mappings(*layout)[j]).0,
                shared_mappings(*layout)[j].1,
            ) by {
                page_table.lemma_extended_maps(
                    &pt1,
                    mem,
                    &mem1,
                    shared_mappings(*layout)[j].0,
                    shared_mappings(*layout)[j].1,
                );
            }
            page_table.lemma_extended_maps(
                &pt1,
                mem,
                &mem1,
                kernel_stack_mapping(id as int, kernel_stack),
                writable_only(),
            );
            page_table.lemma_extended_maps(
                &pt1,
                mem,
                &mem1,
                user_stack_mapping(user_stack),
                PageFlags { writable: true, usermode: true, executable: false },
            );
        }
        let registers = RegisterStore::new(
            image.entry,
            APP_STACK_END,
            KERNEL_STACK_BEGIN + (2 * id + 1) * FRAME_SIZE,
        );
        let mut segments: Vec<FrameRegion> = Vec::new();
        let mut i: usize = 0;
        while i < image.segments.len()
            invariant
                i <= image.segments@.len(),
                segments@.len() == i,
                forall|j: int| 0 <= j < i ==> (#[trigger] segments@[j]) == image.segments@[j].frames,
            decreases image.segments@.len() - i,
        {
            segments.push(image.segments[i].frames);
            i += 1;
        }
        let task = Task { registers, page_table, id, kernel_stack, user_stack, segments };
        proof {
            assert forall|f: int| task.owned().contains(f) implies free0.contains(f)
                && !alloc.free_frames().contains(f) && !task.page_table().tables().contains(f) by {
                if f != kernel_stack@ && f != user_stack@ {
                    let j = choose|j: int|
                        0 <= j < task.segments().len() && (#[trigger] task.segments()[j]).contains(f);
                    assert(image.segments@[j].frames.frames().contains(f));
                }
            }
        }
        Ok((task, image))
    }
}

/// A task that is preempted resumes where it was: the frame from which it
/// is run again holds the instruction pointer, the stack pointer and the
/// flags at which it was interrupted, the registers that are loaded are the
/// ones it was interrupted with, and it runs in its own address space. A
/// task that was interrupted in user mode resumes with the user's
/// selectors.
pub proof fn law_task_resumes(task: Task, general: RegisterStore, frame: InterruptionStackFrame)
    ensures
        ({
            let saved = task.with_registers(saved_registers(task.saved(), general, frame));
            let d = saved.spec_dispatch();
            &&& d.frame.rip == frame.rip
            &&& d.frame.rsp == frame.rsp
            &&& d.frame.rflags == frame.rflags
            &&& d.registers.same_general(
                RegisterStore { kernel_rsp: task.saved().kernel_rsp, ..general },
            )
            &&& d.root@ == task.page_table().root()
            &&& d.id == task.spec_id()
            &&& frame.rip < crate::mm::definitions::KERNEL_REGION_BEGIN ==> d.frame.cs == 0x2b
                && d.frame.ss == 0x23
        }),
{
    assert(task.page_table().root() >= 0 && task.page_table().root() <= u64::MAX) by {
        task.page_table().lemma_root_is_frame();
    }
}

} // verus!
