use kernel::arch::x86_64::mm::page_table::{MapError, PageTable};
use kernel::arch::x86_64::mm::table_memory::TableArena;
use kernel::arch::x86_64::io::PortWrite;
use kernel::arch::x86_64::task::{InterruptionStackFrame, RegisterStore};
use kernel::mm::definitions::{
    Frame, FrameAllocator, FrameRegion, MappingRegion, Page, PageFlags, APP_STACK_END,
};
use kernel::mm::frame_allocator::StaticFrameAllocator;
use kernel::mm::utils::{
    init_mm, InitError, KernelLayout, KernelMappingInfo, KernelSections, Section,
};
use kernel::task::elf::{ElfError, MemoryReader};
use kernel::task::task::{address_space_fits, runs_separate, Task, TaskError};
use kernel::task::task_mgr::{IdentifierGenerator, TaskManager};

const KERNEL_PAGE: u64 = 0xffff_8000_0000_0000 >> 12;

fn put(out: &mut Vec<u8>, at: usize, bytes: &[u8]) {
    out[at..at + bytes.len()].copy_from_slice(bytes);
}

/// An image with one segment of `data` at `vaddr`, readable and executable.
fn image(entry: u64, vaddr: u64, data: &[u8]) -> Vec<u8> {
    let mut out = vec![0u8; 120];
    put(&mut out, 24, &entry.to_le_bytes());
    put(&mut out, 32, &64u64.to_le_bytes());
    put(&mut out, 54, &56u16.to_le_bytes());
    put(&mut out, 56, &1u16.to_le_bytes());
    put(&mut out, 64, &1u32.to_le_bytes());
    put(&mut out, 68, &5u32.to_le_bytes());
    put(&mut out, 72, &120u64.to_le_bytes());
    put(&mut out, 80, &vaddr.to_le_bytes());
    put(&mut out, 96, &(data.len() as u64).to_le_bytes());
    put(&mut out, 104, &(data.len() as u64).to_le_bytes());
    out.extend_from_slice(data);
    out.push(0);
    out
}

fn layout() -> KernelLayout {
    let region = |virt: u64, phys: u64, num: u64| MappingRegion {
        phys_begin: Frame::new(phys),
        virt_begin: Page::new(KERNEL_PAGE + virt),
        num,
    };
    KernelLayout {
        mapping: KernelMappingInfo {
            text: region(0, 0x100, 8),
            rodata: region(8, 0x108, 2),
            data: region(10, 0x10a, 3),
            bss: region(13, 0x10d, 5),
        },
        interrupt_stack: Frame::new(0x400),
        heap: FrameRegion::new(Frame::new(0x1_0000), 4096),
    }
}

fn world() -> (TableArena, StaticFrameAllocator) {
    let mem = TableArena::new(1024);
    let mut alloc = StaticFrameAllocator::new();
    alloc.free(&FrameRegion::new(Frame::new(1), 1023)).unwrap();
    (mem, alloc)
}

fn free_count(alloc: &StaticFrameAllocator) -> u64 {
    let mut n = 0;
    let mut i = 0;
    while let Some(r) = alloc.region(i) {
        n += r.size();
        i += 1;
    }
    n
}

#[test]
fn identifiers_count_up_from_the_first() {
    let mut ids = IdentifierGenerator::new(1);
    assert_eq!(ids.allocate(), 1);
    assert_eq!(ids.allocate(), 2);
    assert_eq!(ids.allocate(), 3);
    assert!(ids.has_next());
}

#[test]
fn identifiers_come_back_last_in_first_out() {
    let mut ids = IdentifierGenerator::new(1);
    for _ in 0..5 {
        ids.allocate();
    }
    ids.free(2);
    ids.free(4);
    assert_eq!(ids.allocate(), 4);
    assert_eq!(ids.allocate(), 2);
    assert_eq!(ids.allocate(), 6);
}

#[test]
fn identifiers_end_at_the_largest() {
    let mut ids = IdentifierGenerator::new(u64::MAX - 1);
    assert_eq!(ids.allocate(), u64::MAX - 1);
    assert!(!ids.has_next());
    ids.free(7);
    assert!(ids.has_next());
    assert_eq!(ids.allocate(), 7);
}

#[test]
fn task_starts_at_the_entry_on_an_empty_stack() {
    let (mut mem, mut alloc) = world();
    let file = MemoryReader::new(image(0x20_1000, 0x20_1000, &[0x90; 32]));
    let (task, loaded) = Task::new(3, &file, &layout(), &mut mem, &mut alloc).unwrap();
    assert_eq!(task.id(), 3);
    assert_eq!(loaded.entry, 0x20_1000);
    // The third slot of two pages each; the stack ends with its first page.
    let ksp = 0xffff_8800_0000_0000 + 3 * 2 * 4096 + 4096;
    assert_eq!(task.get_registers(), RegisterStore::new(0x20_1000, APP_STACK_END, ksp));
    assert_eq!(task.get_registers().rip, 0x20_1000);
    assert_eq!(task.get_registers().rsp, 0x8000_0000_0000);
    assert_eq!(task.get_registers().ksp(), ksp);
    assert_eq!(task.get_registers().rflags, 0x200);
    assert_eq!(task.registers.rax, 0);
}

#[test]
fn task_address_space_maps_kernel_and_stacks() {
    let (mut mem, mut alloc) = world();
    let file = MemoryReader::new(image(0x20_1000, 0x20_1000, &[0x90; 32]));
    let (task, loaded) = Task::new(2, &file, &layout(), &mut mem, &mut alloc).unwrap();
    let pt = task.get_page_table();
    let w = PageFlags::writable();
    let lookup = |page: u64| pt.lookup(&mem, Page::new(page));
    // The kernel's sections.
    assert_eq!(lookup(KERNEL_PAGE), Some((Frame::new(0x100), PageFlags::executable())));
    assert_eq!(lookup(KERNEL_PAGE + 7), Some((Frame::new(0x107), PageFlags::executable())));
    assert_eq!(lookup(KERNEL_PAGE + 9), Some((Frame::new(0x109), PageFlags::empty())));
    assert_eq!(lookup(KERNEL_PAGE + 12), Some((Frame::new(0x10c), w)));
    assert_eq!(lookup(KERNEL_PAGE + 17), Some((Frame::new(0x111), w)));
    assert_eq!(lookup(KERNEL_PAGE + 18), None);
    // 128 MiB of physical memory behind the window.
    let window = 0xffff_8100_0000_0000u64 >> 12;
    assert_eq!(lookup(window), Some((Frame::new(0), w)));
    assert_eq!(lookup(window + 32767), Some((Frame::new(32767), w)));
    assert_eq!(lookup(window + 32768), None);
    // The interrupt stack ends at its fixed address.
    let istack_end = 0xffff_8900_0000_0000u64 >> 12;
    assert_eq!(lookup(istack_end - 2), Some((Frame::new(0x400), w)));
    assert_eq!(lookup(istack_end - 1), Some((Frame::new(0x401), w)));
    assert_eq!(lookup(istack_end - 3), None);
    // The kernel heap.
    let heap = 0xffff_8200_0000_0000u64 >> 12;
    assert_eq!(lookup(heap), Some((Frame::new(0x1_0000), w)));
    assert_eq!(lookup(heap + 4095), Some((Frame::new(0x1_0fff), w)));
    assert_eq!(lookup(heap + 4096), None);
    // The task's kernel stack: the first page of its slot.
    let slot = (0xffff_8800_0000_0000u64 >> 12) + 2 * 2;
    let kstack = lookup(slot).unwrap();
    assert_eq!(kstack.1, w);
    assert_eq!(lookup(slot + 1), None);
    assert_eq!(lookup(slot - 1), None);
    // The user stack: the last page of user space.
    let ustack = lookup((0x8000_0000_0000u64 >> 12) - 1).unwrap();
    assert_eq!(ustack.1, PageFlags::usermode().union(PageFlags::writable()));
    assert_ne!(kstack.0, ustack.0);
    assert!(!alloc.is_free(kstack.0));
    assert!(!alloc.is_free(ustack.0));
    // The image.
    let seg = &loaded.segments[0];
    assert_eq!(
        lookup(0x201),
        Some((seg.frames.start(), PageFlags::usermode().union(PageFlags::executable())))
    );
    assert_eq!(seg.data, vec![0x90; 32]);
}

#[test]
fn task_with_a_bad_identifier_is_refused() {
    let (mut mem, mut alloc) = world();
    let file = MemoryReader::new(image(0x20_1000, 0x20_1000, &[1]));
    let before = free_count(&alloc);
    for id in [0, (1 << 27) - 1, 1 << 27, u64::MAX] {
        let r = Task::new(id, &file, &layout(), &mut mem, &mut alloc);
        assert_eq!(r.err(), Some(TaskError::BadIdentifier));
    }
    assert_eq!(free_count(&alloc), before);
    // The last slot but one is the last that a task can have.
    let (task, _) = Task::new((1 << 27) - 2, &file, &layout(), &mut mem, &mut alloc).unwrap();
    let istack = (0xffff_8900_0000_0000u64 >> 12) - 2;
    assert!(task.get_page_table().resolve(&mem, Page::new(istack - 2)).is_some());
    assert_eq!(task.get_registers().ksp(), 0xffff_8900_0000_0000 - 3 * 4096);
}

#[test]
fn failed_task_gives_its_frames_back() {
    let (mut mem, mut alloc) = world();
    let before = free_count(&alloc);
    // The image's segment lies where the user stack is.
    let file = MemoryReader::new(image(0, 0x7fff_ffff_f000, &[1, 2, 3]));
    let r = Task::new(1, &file, &layout(), &mut mem, &mut alloc);
    assert!(matches!(r.err(), Some(TaskError::Image(_))));
    assert_eq!(free_count(&alloc), before);
    // A kernel whose sections lie on each other cannot be mapped.
    let mut bad = layout();
    bad.mapping.rodata = bad.mapping.text;
    let file = MemoryReader::new(image(0x20_1000, 0x20_1000, &[1]));
    let r = Task::new(1, &file, &bad, &mut mem, &mut alloc);
    assert!(matches!(r.err(), Some(TaskError::Unmappable(_))));
    assert_eq!(free_count(&alloc), before);
}

#[test]
fn task_without_frames_is_refused() {
    let mut mem = TableArena::new(64);
    let mut alloc = StaticFrameAllocator::new();
    alloc.free(&FrameRegion::new(Frame::new(1), 40)).unwrap();
    let file = MemoryReader::new(image(0x20_1000, 0x20_1000, &[1]));
    let r = Task::new(1, &file, &layout(), &mut mem, &mut alloc);
    assert!(r.is_err());
    assert_eq!(free_count(&alloc), 40);
    let mut none = StaticFrameAllocator::new();
    let r = Task::create_page_table(1, &layout(), &mut mem, &mut none);
    assert_eq!(r.err(), Some(TaskError::OutOfFrames));
}

#[test]
fn manager_starts_without_tasks() {
    let mut tasks = TaskManager::new();
    assert!(tasks.current_task().is_none());
    assert_eq!(tasks.current_id(), 0);
    assert_eq!(tasks.waiting_count(), 0);
    assert_eq!(tasks.rotate_tasks(), None);
    assert!(tasks.remove_task(1).is_none());
    assert!(tasks.has_identifier());
}

#[test]
fn added_task_runs_after_the_next_rotation() {
    let (mut mem, mut alloc) = world();
    let file = MemoryReader::new(image(0x20_1000, 0x20_1000, &[1]));
    let mut tasks = TaskManager::new();
    tasks.add_task(&file, &layout(), &mut mem, &mut alloc).unwrap();
    assert!(tasks.current_task().is_none());
    assert_eq!(tasks.waiting_count(), 1);
    assert_eq!(tasks.rotate_tasks(), Some(1));
    assert_eq!(tasks.current_task().map(|t| t.id()), Some(1));
    assert_eq!(tasks.waiting_count(), 0);
    // A single task stays current.
    assert_eq!(tasks.rotate_tasks(), Some(1));
    assert_eq!(tasks.current_id(), 1);
}

fn manager_of(n: u64, mem: &mut TableArena, alloc: &mut StaticFrameAllocator) -> TaskManager {
    let file = MemoryReader::new(image(0x20_1000, 0x20_1000, &[1]));
    let mut tasks = TaskManager::new();
    for _ in 0..n {
        tasks.add_task(&file, &layout(), mem, alloc).unwrap();
    }
    tasks.rotate_tasks();
    tasks
}

#[test]
fn tasks_run_in_the_order_in_which_they_were_made() {
    let (mut mem, mut alloc) = world();
    let mut tasks = manager_of(4, &mut mem, &mut alloc);
    assert_eq!(tasks.current_id(), 1);
    assert_eq!(tasks.rotate_tasks(), Some(2));
    assert_eq!(tasks.rotate_tasks(), Some(3));
    assert_eq!(tasks.rotate_tasks(), Some(4));
    assert_eq!(tasks.rotate_tasks(), Some(1));
}

#[test]
fn new_task_joins_behind_the_current_one() {
    let (mut mem, mut alloc) = world();
    let file = MemoryReader::new(image(0x20_1000, 0x20_1000, &[1]));
    let mut tasks = manager_of(3, &mut mem, &mut alloc);
    assert_eq!(tasks.rotate_tasks(), Some(2));
    // The fourth task is made while the second runs: it has its turn last
    // before the second has its next.
    tasks.add_task(&file, &layout(), &mut mem, &mut alloc).unwrap();
    assert_eq!(tasks.current_id(), 2);
    assert_eq!(tasks.rotate_tasks(), Some(3));
    assert_eq!(tasks.rotate_tasks(), Some(1));
    assert_eq!(tasks.rotate_tasks(), Some(4));
    assert_eq!(tasks.rotate_tasks(), Some(2));
}

#[test]
fn as_many_rotations_as_tasks_come_back_to_the_first() {
    for k in 1..=5u64 {
        let (mut mem, mut alloc) = world();
        let before = free_count(&alloc);
        let mut tasks = manager_of(k, &mut mem, &mut alloc);
        let first = tasks.current_id();
        let mut seen = Vec::new();
        for _ in 0..k {
            seen.push(tasks.current_id());
            tasks.rotate_tasks();
        }
        assert_eq!(tasks.current_id(), first);
        // Nobody was passed over and nobody ran twice.
        seen.sort();
        assert_eq!(seen, (1..=k).collect::<Vec<u64>>());
        while tasks.current_id() != 0 {
            let id = tasks.current_id();
            let task = tasks.remove_task(id).unwrap();
            assert_eq!(task.id(), id);
            assert!(task.release(&mem, &mut alloc));
        }
        assert_eq!(free_count(&alloc), before);
    }
}

#[test]
fn removing_a_waiting_task_keeps_the_order() {
    let (mut mem, mut alloc) = world();
    let mut tasks = manager_of(4, &mut mem, &mut alloc);
    assert_eq!(tasks.remove_task(2).map(|t| t.id()), Some(2));
    assert!(tasks.remove_task(2).is_none());
    assert!(tasks.remove_task(9).is_none());
    assert_eq!(tasks.current_id(), 1);
    assert_eq!(tasks.rotate_tasks(), Some(3));
    assert_eq!(tasks.rotate_tasks(), Some(4));
    assert_eq!(tasks.rotate_tasks(), Some(1));
}

#[test]
fn removing_the_current_task_runs_the_next() {
    let (mut mem, mut alloc) = world();
    let mut tasks = manager_of(3, &mut mem, &mut alloc);
    assert_eq!(tasks.current_id(), 1);
    assert_eq!(tasks.remove_task(1).map(|t| t.id()), Some(1));
    // The task whose turn was next is current.
    assert_eq!(tasks.current_id(), 2);
    assert_eq!(tasks.rotate_tasks(), Some(3));
    assert_eq!(tasks.rotate_tasks(), Some(2));
    assert_eq!(tasks.remove_task(2).map(|t| t.id()), Some(2));
    assert_eq!(tasks.current_id(), 3);
    assert_eq!(tasks.remove_task(3).map(|t| t.id()), Some(3));
    // No task is left, and none is current.
    assert!(tasks.current_task().is_none());
    assert_eq!(tasks.current_id(), 0);
}

#[test]
fn identifier_of_a_removed_task_is_used_again() {
    let (mut mem, mut alloc) = world();
    let file = MemoryReader::new(image(0x20_1000, 0x20_1000, &[1]));
    let mut tasks = manager_of(3, &mut mem, &mut alloc);
    tasks.remove_task(2).unwrap();
    tasks.add_task(&file, &layout(), &mut mem, &mut alloc).unwrap();
    assert_eq!(tasks.rotate_tasks(), Some(3));
    assert_eq!(tasks.rotate_tasks(), Some(2));
    tasks.add_task(&file, &layout(), &mut mem, &mut alloc).unwrap();
    assert_eq!(tasks.rotate_tasks(), Some(1));
    assert_eq!(tasks.rotate_tasks(), Some(3));
    assert_eq!(tasks.rotate_tasks(), Some(4));
    assert_eq!(tasks.rotate_tasks(), Some(2));
}

#[test]
fn failed_task_leaves_the_manager_as_it_was() {
    let (mut mem, mut alloc) = world();
    let good = MemoryReader::new(image(0x20_1000, 0x20_1000, &[1]));
    let bad = MemoryReader::new(vec![0u8; 10]);
    let mut tasks = TaskManager::new();
    tasks.add_task(&good, &layout(), &mut mem, &mut alloc).unwrap();
    let before = free_count(&alloc);
    assert!(tasks.add_task(&bad, &layout(), &mut mem, &mut alloc).is_err());
    assert_eq!(free_count(&alloc), before);
    assert_eq!(tasks.waiting_count(), 1);
    tasks.add_task(&good, &layout(), &mut mem, &mut alloc).unwrap();
    assert_eq!(tasks.rotate_tasks(), Some(1));
    assert_eq!(tasks.rotate_tasks(), Some(2));
}

#[test]
fn memory_management_comes_up_in_the_initial_tree() {
    let (mut mem, mut alloc) = world();
    let mut ipt = PageTable::new(&mut mem, &mut alloc).unwrap();
    let w = PageFlags::writable();
    let base = 0xffff_8000_0000_0000u64;
    for (page, frame, num) in [(0, 0x100, 8), (8, 0x108, 2), (10, 0x10a, 3), (13, 0x10d, 5)] {
        let region = MappingRegion {
            phys_begin: Frame::new(frame),
            virt_begin: Page::new(KERNEL_PAGE + page),
            num,
        };
        ipt.map(&mut mem, &mut alloc, &region, w).unwrap();
    }
    let sections = KernelSections {
        text: Section { start: base, size: 8 * 4096 },
        rodata: Section { start: base + 8 * 4096, size: 2 * 4096 },
        data: Section { start: base + 10 * 4096, size: 3 * 4096 },
        bss: Section { start: base + 13 * 4096, size: 5 * 4096 },
    };
    // 4096 frames for the heap are more than the allocator has.
    assert_eq!(
        init_mm(&mut ipt, &mut mem, &mut alloc, &sections).err(),
        Some(InitError::OutOfFrames)
    );
    alloc.free(&FrameRegion::new(Frame::new(0x2000), 5000)).unwrap();
    let found = init_mm(&mut ipt, &mut mem, &mut alloc, &sections).unwrap();
    assert_eq!(found.mapping.text.phys_begin, Frame::new(0x100));
    assert_eq!(found.mapping.text.virt_begin, Page::new(KERNEL_PAGE));
    assert_eq!(found.mapping.text.num, 8);
    assert_eq!(found.mapping.rodata.phys_begin, Frame::new(0x108));
    assert_eq!(found.mapping.data.phys_begin, Frame::new(0x10a));
    assert_eq!(found.mapping.bss.phys_begin, Frame::new(0x10d));
    assert_eq!(found.mapping.bss.num, 5);
    assert_eq!(found.heap.size(), 4096);
    assert_eq!(found.heap.start(), Frame::new(0x2000 + 5000 - 4096));
    for k in 0..2 {
        let frame = Frame::new(found.interrupt_stack.get_index() + k);
        assert!(!alloc.is_free(frame));
        assert!(frame < found.heap.start());
    }
    let heap = 0xffff_8200_0000_0000u64 >> 12;
    assert_eq!(ipt.lookup(&mem, Page::new(heap)), Some((found.heap.start(), w)));
    assert_eq!(
        ipt.lookup(&mem, Page::new(heap + 4095)),
        Some((Frame::new(found.heap.start().get_index() + 4095), w))
    );
    // The heap cannot be mapped twice.
    alloc.free(&FrameRegion::new(Frame::new(0x1_0000), 5000)).unwrap();
    let before = free_count(&alloc);
    assert_eq!(
        init_mm(&mut ipt, &mut mem, &mut alloc, &sections).err(),
        Some(InitError::Unmappable(MapError::Overlap))
    );
    assert_eq!(free_count(&alloc), before);
    // A section that does not translate stops the bring-up.
    let mut missing = sections;
    missing.data.start = base + 100 * 4096;
    assert_eq!(
        init_mm(&mut ipt, &mut mem, &mut alloc, &missing).err(),
        Some(InitError::SectionUnmapped)
    );
}

#[test]
fn first_process_is_made_and_run() {
    let (mut mem, mut alloc) = world();
    let file = MemoryReader::new(image(0x20_1000, 0x20_1000, &[7; 8]));
    let mut tasks = TaskManager::new();
    let (dispatch, loaded) =
        tasks.init_first_process(&file, &layout(), &mut mem, &mut alloc).unwrap();
    assert_eq!(dispatch.id, 1);
    assert_eq!(dispatch.frame.rip, 0x20_1000);
    assert_eq!(dispatch.frame.rsp, 0x8000_0000_0000);
    assert_eq!(dispatch.frame.rflags, 0x200);
    assert_eq!((dispatch.frame.cs, dispatch.frame.ss), (0x2b, 0x23));
    assert_eq!(dispatch.registers.ksp(), 0xffff_8800_0000_0000 + 3 * 4096);
    assert_eq!(dispatch.root, tasks.current_task().unwrap().get_page_table().root_frame());
    assert_eq!(loaded.segments[0].data, vec![7; 8]);
    assert_eq!(tasks.current_id(), 1);
    let bad = MemoryReader::new(vec![]);
    assert!(tasks.init_first_process(&bad, &layout(), &mut mem, &mut alloc).is_err());
    assert_eq!(tasks.current_id(), 1);
}

#[test]
fn timer_tick_saves_the_current_task_and_runs_the_next() {
    let (mut mem, mut alloc) = world();
    let mut tasks = manager_of(2, &mut mem, &mut alloc);
    assert_eq!(tasks.current_id(), 1);
    let mut general = RegisterStore::new(0, 0, 0);
    general.rax = 0xaaaa;
    general.rbp = 0xbbbb;
    let frame = InterruptionStackFrame {
        rip: 0x20_1234,
        cs: 0x2b,
        rflags: 0x286,
        rsp: 0x7fff_ffff_ff00,
        ss: 0x23,
    };
    let (eoi, next) = tasks.timer(&general, &frame);
    assert_eq!(eoi, vec![PortWrite::new(0x20, 0x20)]);
    let next = next.unwrap();
    // The other task starts from its entry.
    assert_eq!(next.id, 2);
    assert_eq!(next.frame.rip, 0x20_1000);
    assert_eq!(next.registers.rax, 0);
    // One more tick brings the first back, where it was interrupted.
    let again = InterruptionStackFrame { rip: 0x20_1008, ..frame };
    let (_, back) = tasks.timer(&RegisterStore::new(0, 0, 0), &again);
    let back = back.unwrap();
    assert_eq!(back.id, 1);
    assert_eq!(back.frame, frame);
    assert_eq!((back.registers.rax, back.registers.rbp), (0xaaaa, 0xbbbb));
    assert_eq!(back.registers.ksp(), 0xffff_8800_0000_0000 + 3 * 4096);
    assert_eq!(
        back.root,
        tasks.current_task().unwrap().get_page_table().root_frame()
    );
}

#[test]
fn timer_tick_without_tasks_runs_nothing() {
    let mut tasks = TaskManager::new();
    let frame = InterruptionStackFrame { rip: 1, cs: 8, rflags: 2, rsp: 3, ss: 16 };
    let (eoi, next) = tasks.timer(&RegisterStore::new(0, 0, 0), &frame);
    assert_eq!(eoi.len(), 1);
    assert!(next.is_none());
    assert!(tasks.schedule_next_task().is_none());
}

#[test]
fn terminated_task_gives_everything_back() {
    let (mut mem, mut alloc) = world();
    let before = free_count(&alloc);
    let mut tasks = manager_of(3, &mut mem, &mut alloc);
    assert!(free_count(&alloc) < before);
    assert_eq!(tasks.terminate(9, &mem, &mut alloc), None);
    assert_eq!(tasks.terminate(1, &mem, &mut alloc), Some(true));
    assert_eq!(tasks.terminate(1, &mem, &mut alloc), None);
    assert_eq!(tasks.current_id(), 2);
    assert_eq!(tasks.terminate(3, &mem, &mut alloc), Some(true));
    assert_eq!(tasks.current_id(), 2);
    assert_eq!(tasks.terminate(2, &mem, &mut alloc), Some(true));
    assert_eq!(tasks.current_id(), 0);
    assert_eq!(free_count(&alloc), before);
}

#[test]
fn task_dispatch_follows_its_saved_registers() {
    let (mut mem, mut alloc) = world();
    let file = MemoryReader::new(image(0x20_1000, 0x20_1000, &[1]));
    let (mut task, _) = Task::new(1, &file, &layout(), &mut mem, &mut alloc).unwrap();
    let mut registers = task.get_registers();
    registers.update(0xffff_8000_0000_4000, 0xffff_8800_0000_2f00);
    task.set_registers(registers);
    let d = task.jump_to();
    assert_eq!((d.frame.cs, d.frame.ss), (0x08, 0x10));
    assert_eq!(d.frame.rip, 0xffff_8000_0000_4000);
    let frame = InterruptionStackFrame { rip: 5, cs: 0x2b, rflags: 0x202, rsp: 6, ss: 0x23 };
    let mut general = RegisterStore::new(0, 0, 0);
    general.r9 = 99;
    task.preempt(&general, &frame);
    let d = task.jump_to();
    assert_eq!(d.frame, frame);
    assert_eq!(d.registers.r9, 99);
    assert_eq!(d.registers.ksp(), 0xffff_8800_0000_0000 + 3 * 4096);
    assert_eq!(d.id, 1);
}

#[test]
fn address_space_fits_a_sound_layout() {
    assert!(address_space_fits(1, &layout()));
    assert!(address_space_fits((1 << 27) - 2, &layout()));
    assert!(!address_space_fits(0, &layout()));
    assert!(!address_space_fits((1 << 27) - 1, &layout()));
    // Sections that lie on each other.
    let mut bad = layout();
    bad.mapping.rodata = bad.mapping.text;
    assert!(!address_space_fits(1, &bad));
    // A section where the user stack is.
    let mut bad = layout();
    bad.mapping.bss.virt_begin = Page::new((0x8000_0000_0000u64 >> 12) - 1);
    assert!(!address_space_fits(1, &bad));
    // A heap on frames that no entry can name.
    let mut bad = layout();
    bad.heap = FrameRegion::new(Frame::new((1 << 40) - 100), 4096);
    assert!(!address_space_fits(1, &bad));
}

#[test]
fn runs_that_share_a_slot_are_not_separate() {
    assert!(runs_separate((0, 10), (10, 5)));
    assert!(runs_separate((10, 5), (0, 10)));
    assert!(!runs_separate((0, 10), (9, 5)));
    // The same low 36 bits in the two halves of the address space.
    assert!(!runs_separate((5, 1), ((1 << 36) + 5, 1)));
    assert!(!runs_separate((0xf_fff8_0000_0000, 4), (0x8_0000_0002, 1)));
    // A run that passes the end of the 36 bits is not judged.
    assert!(!runs_separate(((1 << 36) - 1, 2), (100, 1)));
}

#[test]
fn address_space_is_made_with_the_frames_that_its_runs_can_need() {
    // Three tables for every block of 512 pages that a run can touch: for
    // the four sections, the interrupt stack and the two stacks six each,
    // for the window 198 and for the heap 30; one frame for the root and one
    // for each stack.
    let tables = 4 * 6 + 198 + 6 + 30 + 2 * 6;
    let mut mem = TableArena::new(512);
    let mut alloc = StaticFrameAllocator::new();
    alloc.free(&FrameRegion::new(Frame::new(1), tables + 3)).unwrap();
    assert!(address_space_fits(5, &layout()));
    let (pt, kstack, ustack) = Task::create_page_table(5, &layout(), &mut mem, &mut alloc).unwrap();
    assert!(!alloc.is_free(kstack));
    assert!(!alloc.is_free(ustack));
    assert_eq!(pt.resolve(&mem, Page::new(KERNEL_PAGE)), Some(Frame::new(0x100)));
}

#[test]
fn release_reports_what_the_allocator_refuses() {
    let (mut mem, mut alloc) = world();
    let file = MemoryReader::new(image(0x20_1000, 0x20_1000, &[1]));
    let (task, _) = Task::new(1, &file, &layout(), &mut mem, &mut alloc).unwrap();
    // Nothing is free but 64 frames that touch neither each other nor a
    // frame of the task: the list of regions is full.
    while alloc.allocate(1).is_ok() {}
    for k in 0..64 {
        alloc.free(&FrameRegion::new(Frame::new(5000 + 2 * k), 1)).unwrap();
    }
    assert!(!task.release(&mem, &mut alloc));
    assert_eq!(free_count(&alloc), 64);
}

#[test]
fn memory_management_needs_two_frames_in_a_row_for_the_stack() {
    let mut mem = TableArena::new(64);
    let mut alloc = StaticFrameAllocator::new();
    // Twenty single frames, none next to another, and one run for the heap.
    for k in 0..20 {
        alloc.free(&FrameRegion::new(Frame::new(1 + 2 * k), 1)).unwrap();
    }
    alloc.free(&FrameRegion::new(Frame::new(0x2000), 4096)).unwrap();
    let mut ipt = PageTable::new(&mut mem, &mut alloc).unwrap();
    let base = 0xffff_8000_0000_0000u64;
    let region = MappingRegion {
        phys_begin: Frame::new(0x100),
        virt_begin: Page::new(KERNEL_PAGE),
        num: 4,
    };
    ipt.map(&mut mem, &mut alloc, &region, PageFlags::writable()).unwrap();
    let sections = KernelSections {
        text: Section { start: base, size: 4096 },
        rodata: Section { start: base + 4096, size: 4096 },
        data: Section { start: base + 2 * 4096, size: 4096 },
        bss: Section { start: base + 3 * 4096, size: 4096 },
    };
    let before = free_count(&alloc);
    assert_eq!(before, 16 + 4096);
    // The heap finds its run; the stack finds none, though sixteen frames
    // are free besides. The heap's frames come back.
    assert_eq!(
        init_mm(&mut ipt, &mut mem, &mut alloc, &sections).err(),
        Some(InitError::OutOfFrames)
    );
    assert_eq!(free_count(&alloc), before);
    // With two frames in a row it comes up.
    alloc.free(&FrameRegion::new(Frame::new(41), 2)).unwrap();
    assert!(init_mm(&mut ipt, &mut mem, &mut alloc, &sections).is_ok());
}

#[test]
fn terminate_reports_what_the_allocator_refuses() {
    let (mut mem, mut alloc) = world();
    let mut tasks = manager_of(1, &mut mem, &mut alloc);
    // Nothing is free but 64 frames that touch neither each other nor a
    // frame of the task: the list of regions is full.
    while alloc.allocate(1).is_ok() {}
    for k in 0..64 {
        alloc.free(&FrameRegion::new(Frame::new(5000 + 2 * k), 1)).unwrap();
    }
    assert_eq!(tasks.terminate(1, &mem, &mut alloc), Some(false));
    assert_eq!(free_count(&alloc), 64);
    assert_eq!(tasks.current_id(), 0);
    assert_eq!(tasks.terminate(1, &mem, &mut alloc), None);
}

#[test]
fn segment_on_the_page_of_the_user_stack_is_refused() {
    let (mut mem, mut alloc) = world();
    let before = free_count(&alloc);
    // The segment lies in the last page of user space, where the stack is.
    let file = MemoryReader::new(image(0x20_1000, APP_STACK_END - 4096, &[1, 2, 3]));
    let r = Task::new(1, &file, &layout(), &mut mem, &mut alloc);
    assert_eq!(r.err(), Some(TaskError::Image(ElfError::Unmappable(MapError::Overlap))));
    assert_eq!(free_count(&alloc), before);
    // One page below it loads.
    let file = MemoryReader::new(image(0x20_1000, APP_STACK_END - 2 * 4096, &[1, 2, 3]));
    assert!(Task::new(1, &file, &layout(), &mut mem, &mut alloc).is_ok());
}
