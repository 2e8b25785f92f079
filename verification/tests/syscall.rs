use kernel::arch::x86_64::idt::{page_fault_report, FaultAccess};
use kernel::arch::x86_64::mm::table_memory::TableArena;
use kernel::arch::x86_64::serial::{BufferConsole, Console};
use kernel::arch::x86_64::syscall::handle_syscall_inner;
use kernel::arch::x86_64::task::InterruptionStackFrameWithErrorCode;
use kernel::mm::definitions::{Frame, FrameAllocator, FrameRegion, MappingRegion, Page};
use kernel::mm::frame_allocator::StaticFrameAllocator;
use kernel::mm::utils::{KernelLayout, KernelMappingInfo};
use kernel::task::elf::MemoryReader;
use kernel::task::task::TaskError;
use kernel::task::task_mgr::TaskManager;
use kernel::user::syscall::{
    handle_syscall, syscall_getpid, syscall_spawn, syscall_write, syscall_yield, FlatUserMemory,
    SyscallEffect, UserMemory,
};

const KERNEL_PAGE: u64 = 0xffff_8000_0000_0000 >> 12;

fn put(out: &mut Vec<u8>, at: usize, bytes: &[u8]) {
    out[at..at + bytes.len()].copy_from_slice(bytes);
}

fn init_image() -> MemoryReader {
    let data = [0x90u8; 16];
    let mut out = vec![0u8; 120];
    put(&mut out, 24, &0x20_1000u64.to_le_bytes());
    put(&mut out, 32, &64u64.to_le_bytes());
    put(&mut out, 54, &56u16.to_le_bytes());
    put(&mut out, 56, &1u16.to_le_bytes());
    put(&mut out, 64, &1u32.to_le_bytes());
    put(&mut out, 68, &5u32.to_le_bytes());
    put(&mut out, 72, &120u64.to_le_bytes());
    put(&mut out, 80, &0x20_1000u64.to_le_bytes());
    put(&mut out, 96, &16u64.to_le_bytes());
    put(&mut out, 104, &16u64.to_le_bytes());
    out.extend_from_slice(&data);
    out.push(0);
    MemoryReader::new(out)
}

fn layout() -> KernelLayout {
    let region = |virt: u64, phys: u64, num: u64| MappingRegion {
        phys_begin: Frame::new(phys),
        virt_begin: Page::new(KERNEL_PAGE + virt),
        num,
    };
    KernelLayout {
        mapping: KernelMappingInfo {
            text: region(0, 0x100, 8),
            rodata: region(8, 0x108, 2),
            data: region(10, 0x10a, 3),
            bss: region(13, 0x10d, 5),
        },
        interrupt_stack: Frame::new(0x400),
        heap: FrameRegion::new(Frame::new(0x1_0000), 4096),
    }
}

struct Machine {
    console: BufferConsole,
    memory: FlatUserMemory,
    tasks: TaskManager,
    init: MemoryReader,
    layout: KernelLayout,
    mem: TableArena,
    alloc: StaticFrameAllocator,
}

impl Machine {
    fn new(user_base: u64, user_bytes: &[u8]) -> Machine {
        let mut alloc = StaticFrameAllocator::new();
        alloc.free(&FrameRegion::new(Frame::new(1), 1023)).unwrap();
        Machine {
            console: BufferConsole::new(),
            memory: FlatUserMemory::new(user_base, user_bytes.to_vec()),
            tasks: TaskManager::new(),
            init: init_image(),
            layout: layout(),
            mem: TableArena::new(1024),
            alloc,
        }
    }

    /// A machine on which the first task runs.
    fn booted() -> Machine {
        let mut m = Machine::new(0, &[]);
        m.tasks.add_task(&m.init, &m.layout, &mut m.mem, &mut m.alloc).unwrap();
        m.tasks.rotate_tasks();
        m
    }

    fn syscall(&mut self, num: u64, args: [u64; 6]) -> (u64, SyscallEffect) {
        handle_syscall(
            num,
            &args,
            &mut self.console,
            &self.memory,
            &mut self.tasks,
            &self.init,
            &self.layout,
            &mut self.mem,
            &mut self.alloc,
        )
    }

    fn write(&mut self, fd: u64, ptr: u64, len: u64) -> u64 {
        self.syscall(1, [fd, ptr, len, 0, 0, 0]).0
    }

    fn getpid(&mut self) -> u64 {
        self.syscall(3, [0; 6]).0
    }

    fn spawn(&mut self) -> u64 {
        self.syscall(4, [0; 6]).0
    }

    fn tick(&mut self) {
        self.tasks.rotate_tasks();
    }
}

#[test]
fn write_to_the_console_puts_the_bytes_out() {
    let mut m = Machine::new(0x1000, &[72, 73]);
    assert_eq!(m.write(1, 0x1000, 2), 0);
    assert_eq!(m.console.contents(), &vec![72u8, 73]);
    assert_eq!(m.console.contents().as_slice(), "HI".as_bytes());
}

#[test]
fn write_from_the_kernel_half_is_refused() {
    let mut m = Machine::new(0x1000, &[72, 73]);
    assert_eq!(m.write(1, 0xffff_8000_0000_0000, 2), 1);
    assert!(m.console.contents().is_empty());
}

#[test]
fn write_that_reaches_the_kernel_half_is_refused() {
    let mut m = Machine::new(0xffff_7fff_ffff_fff0, &[1, 2, 3, 4, 5, 6, 7, 8, 9, 10, 11, 12, 13, 14, 15, 16]);
    // The bytes must end below the kernel half.
    assert_eq!(m.write(1, 0xffff_7fff_ffff_fff0, 16), 1);
    assert_eq!(m.write(1, 0xffff_7fff_ffff_fffe, 3), 1);
    assert_eq!(m.write(1, 1, u64::MAX), 1);
    assert_eq!(m.write(1, u64::MAX, 1), 1);
    assert!(m.console.contents().is_empty());
    assert_eq!(m.write(1, 0xffff_7fff_ffff_fff0, 15), 0);
    assert_eq!(m.console.contents().len(), 15);
}

#[test]
fn write_to_another_descriptor_is_refused() {
    let mut m = Machine::new(0x1000, &[72, 73]);
    assert_eq!(m.write(0, 0x1000, 2), 1);
    assert_eq!(m.write(2, 0x1000, 2), 1);
    assert!(m.console.contents().is_empty());
}

#[test]
fn writes_follow_each_other_on_the_console() {
    let mut m = Machine::new(0x1000, "HI there".as_bytes());
    assert_eq!(m.write(1, 0x1000, 2), 0);
    assert_eq!(m.write(1, 0x1008, 0), 0);
    assert_eq!(m.write(1, 0x1002, 6), 0);
    assert_eq!(m.console.contents().as_slice(), "HI there".as_bytes());
}

#[test]
fn syscall_write_reads_the_callers_memory() {
    let memory = FlatUserMemory::new(0x4000, vec![1, 2, 3]);
    assert_eq!(memory.read_byte(0x4001), 2);
    assert_eq!(memory.read_byte(0x3fff), 0);
    assert_eq!(memory.read_byte(0x4003), 0);
    let mut console = BufferConsole::new();
    console.write_byte(9);
    assert_eq!(syscall_write(&[1, 0x3fff, 5, 0, 0, 0], &mut console, &memory), 0);
    assert_eq!(console.contents(), &vec![9u8, 0, 1, 2, 3, 0]);
}

#[test]
fn getpid_of_the_first_task_is_one() {
    let mut m = Machine::booted();
    assert_eq!(m.getpid(), 1);
    assert_eq!(syscall_getpid(&m.tasks), 1);
}

#[test]
fn getpid_without_a_task_is_zero() {
    let mut m = Machine::new(0, &[]);
    assert_eq!(m.getpid(), 0);
    m.tasks.add_task(&m.init, &m.layout, &mut m.mem, &mut m.alloc).unwrap();
    assert_eq!(m.getpid(), 0);
}

#[test]
fn three_tasks_take_turns() {
    // The first task makes two more; the tasks run in the order in which
    // they were made.
    let mut m = Machine::booted();
    assert_eq!(m.spawn(), 0);
    assert_eq!(m.spawn(), 0);
    // Each task asks for its identifier and gives up the processor; the timer
    // brings the next one on.
    let mut seen = Vec::new();
    for _ in 0..6 {
        seen.push(m.getpid());
        let (r, effect) = m.syscall(5, [0; 6]);
        assert_eq!(r, 0);
        assert!(matches!(effect, SyscallEffect::WaitForInterrupt));
        m.tick();
    }
    assert_eq!(seen, vec![1, 2, 3, 1, 2, 3]);
}

#[test]
fn task_made_later_runs_later() {
    // The second task makes the third while it runs: the third still runs
    // after it, and the first after the third.
    let mut m = Machine::booted();
    assert_eq!(m.spawn(), 0);
    m.tick();
    assert_eq!(m.getpid(), 2);
    assert_eq!(m.spawn(), 0);
    let mut seen = Vec::new();
    for _ in 0..6 {
        m.tick();
        seen.push(m.getpid());
    }
    assert_eq!(seen, vec![1, 3, 2, 1, 3, 2]);
}

#[test]
fn spawned_task_has_the_next_identifier() {
    let mut m = Machine::booted();
    let (r, effect) = m.syscall(4, [0; 6]);
    assert_eq!(r, 0);
    match effect {
        SyscallEffect::Spawned(image) => {
            assert_eq!(image.entry, 0x20_1000);
            assert_eq!(image.segments.len(), 1);
            assert_eq!(image.segments[0].data, vec![0x90u8; 16]);
        }
        _ => panic!("no task was made"),
    }
    // The task that asked goes on with its own identifier.
    assert_eq!(m.getpid(), 1);
    m.tick();
    assert_eq!(m.getpid(), 2);
    m.tick();
    assert_eq!(m.getpid(), 1);
}

#[test]
fn spawn_without_frames_fails() {
    let mut m = Machine::booted();
    while m.alloc.allocate(1).is_ok() {}
    let (r, effect) = m.syscall(4, [0; 6]);
    assert_eq!(r, 1);
    assert!(matches!(effect, SyscallEffect::SpawnFailed(TaskError::OutOfFrames)));
    assert_eq!(m.tasks.waiting_count(), 0);
    assert_eq!(m.getpid(), 1);
    let (r, effect) =
        syscall_spawn(&mut m.tasks, &m.init, &m.layout, &mut m.mem, &mut m.alloc);
    assert_eq!(r, 1);
    assert!(matches!(effect, SyscallEffect::SpawnFailed(TaskError::OutOfFrames)));
    assert_eq!(m.getpid(), 1);
}

#[test]
fn yield_waits_for_the_next_interrupt() {
    let (r, effect) = syscall_yield();
    assert_eq!(r, 0);
    assert!(matches!(effect, SyscallEffect::WaitForInterrupt));
}

#[test]
fn unknown_calls_return_all_ones() {
    let mut m = Machine::booted();
    for num in [0u64, 2, 6, 7, 100, u64::MAX] {
        let (r, effect) = m.syscall(num, [1, 0x1000, 2, 0, 0, 0]);
        assert_eq!(r, u64::MAX);
        assert!(matches!(effect, SyscallEffect::Nothing));
    }
    assert!(m.console.contents().is_empty());
    assert_eq!(m.getpid(), 1);
    assert_eq!(m.tasks.waiting_count(), 0);
}

#[test]
fn entry_frame_is_the_number_and_six_arguments() {
    let (num, args) = handle_syscall_inner(&[1, 10, 20, 30, 40, 50, 60]);
    assert_eq!(num, 1);
    assert_eq!(args, [10, 20, 30, 40, 50, 60]);
}

#[test]
fn page_fault_on_an_unmapped_user_read_is_reported() {
    let frame = InterruptionStackFrameWithErrorCode {
        error_code: 0b100,
        rip: 0x20_1008,
        cs: 0x2b,
        rflags: 0x202,
        rsp: 0x7fff_ffff_ff00,
        ss: 0x23,
    };
    let report = page_fault_report(&frame, 0x1000);
    assert_eq!(report.fault_addr, 0x1000);
    assert_eq!(report.rip, 0x20_1008);
    assert_eq!(report.access, FaultAccess::Read);
    assert!(report.from_user);
    assert!(!report.present);
}

#[test]
fn page_fault_error_code_names_the_access() {
    let report = |error_code| {
        let frame = InterruptionStackFrameWithErrorCode {
            error_code,
            rip: 1,
            cs: 8,
            rflags: 2,
            rsp: 3,
            ss: 16,
        };
        page_fault_report(&frame, 0xdead)
    };
    assert_eq!(report(0b00010).access, FaultAccess::Write);
    assert_eq!(report(0b10000).access, FaultAccess::Execute);
    assert_eq!(report(0b10010).access, FaultAccess::Execute);
    assert_eq!(report(0b00001).access, FaultAccess::Read);
    assert!(report(0b00001).present);
    assert!(!report(0b00011).from_user);
    assert!(report(0b00111).from_user);
}
