//! The system calls: write to the console, the identifier of the caller,
//! a new task, and giving up the processor.

use vstd::prelude::*;

use crate::arch::x86_64::mm::page_table::backs;
use crate::arch::x86_64::mm::table_memory::TableMemory;
use crate::arch::x86_64::serial::Console;
use crate::arch::x86_64::task::RegisterStore;
use crate::mm::definitions::{FrameAllocator, APP_STACK_END, KERNEL_REGION_BEGIN};
use crate::mm::utils::KernelLayout;
use crate::task::elf::{
    explains, file_fault, has_unsound_segment, loads_freely, ElfError, LoadedImage, Readable,
};
use crate::task::task::{
    address_space, address_space_pages, fits, frames_for_address_space, kernel_stack_top,
    only_free_touched, space_explains, TaskError, MAX_TASKS,
};
use crate::task::task_mgr::{sound, TaskManager};

verus! {

pub const SYS_WRITE: u64 = 1;

pub const SYS_GETPID: u64 = 3;

pub const SYS_SPAWN: u64 = 4;

pub const SYS_YIELD: u64 = 5;

/// The descriptor of the console.
pub const CONSOLE_DESCRIPTOR: u64 = 1;

/// What a system call returns where it has nothing to report.
pub const SUCCESS: u64 = 0;

/// What a system call returns where it refuses its arguments or cannot do
/// what it was asked.
pub const FAILURE: u64 = 1;

/// What an unknown system call returns.
pub const UNKNOWN_CALL: u64 = 0xffff_ffff_ffff_ffff;

/// The memory of the calling task, byte by byte.
///
/// The kernel implements this over the caller's address space;
/// `FlatUserMemory` implements it over a vector. Of an implementation that
/// is not verified it is taken on trust that a byte reads the same as long
/// as nobody writes it; such an implementation leaves `byte` as it stands
/// here, where it says nothing.
pub trait UserMemory {
    /// The byte at `addr`.
    open spec fn byte(&self, addr: int) -> u8 {
        arbitrary()
    }

    fn read_byte(&self, addr: u64) -> (r: u8)
        requires
            addr < KERNEL_REGION_BEGIN,
        ensures
            r == self.byte(addr as int),
    ;
}

/// User memory that holds some bytes from an address on and zero
/// everywhere else.
pub struct FlatUserMemory {
    base: u64,
    bytes: Vec<u8>,
}

impl FlatUserMemory {
    /// The address of the first byte.
    pub closed spec fn base(&self) -> int {
        self.base as int
    }

    /// The bytes from the base on.
    pub closed spec fn contents(&self) -> Seq<u8> {
        self.bytes@
    }

    pub fn new(base: u64, bytes: Vec<u8>) -> (r: Self)
        ensures
            r.base() == base,
            r.contents() == bytes@,
    {
        Self { base, bytes }
    }
}

impl UserMemory for FlatUserMemory {
    open spec fn byte(&self, addr: int) -> u8 {
        if self.base() <= addr < self.base() + self.contents().len() {
            self.contents()[addr - self.base()]
        } else {
            0
        }
    }

    fn read_byte(&self, addr: u64) -> (r: u8) {
        let n = self.bytes.len();
        if addr >= self.base && addr - self.base < n as u64 {
            self.bytes[(addr - self.base) as usize]
        } else {
            0
        }
    }
}

/// The `len` bytes of `memory` from `ptr` on.
pub open spec fn user_bytes<U: UserMemory>(memory: &U, ptr: int, len: int) -> Seq<u8> {
    Seq::new(len as nat, |i: int| memory.byte(ptr + i))
}

/// Whether a write of `len` bytes at `ptr` to the descriptor `fd` is
/// accepted: the descriptor is the console's, and the bytes end below the
/// kernel half of virtual memory.
pub open spec fn write_accepted(fd: u64, ptr: u64, len: u64) -> bool {
    fd == CONSOLE_DESCRIPTOR && ptr + len < KERNEL_REGION_BEGIN
}

/// What is left to do when a system call returns, or why it did nothing.
pub enum SyscallEffect {
    /// Nothing.
    Nothing,
    /// The bytes of a new task's segments are to be written into their
    /// frames.
    Spawned(LoadedImage),
    /// No task was made, for this reason.
    SpawnFailed(TaskError),
    /// The processor is to wait for the next interrupt.
    WaitForInterrupt,
}

/// Whether `r` is what a spawn returns that found the tasks as
/// `tasks_before` and left them as `tasks`, with the image of `reader`: 0,
/// an image without fault, and the new task directly behind the current
/// one, with the pool's next identifier; or 1, the reason, and the tasks as
/// they were.
pub open spec fn spawn_outcome<R: Readable, M: TableMemory>(
    r: (u64, SyscallEffect),
    tasks_before: &TaskManager,
    tasks: &TaskManager,
    reader: &R,
    layout: KernelLayout,
    mem: &M,
    free: Set<int>,
) -> bool {
    let contents = reader.contents();
    match r.1 {
        SyscallEffect::Spawned(image) => {
            let place = TaskManager::joining_place(tasks_before.running());
            let task = tasks.queue()[place];
            &&& r.0 == SUCCESS
            &&& file_fault(reader) is None
            &&& tasks.queue() == tasks_before.queue().insert(place, task)
            &&& tasks.pool().handed_out_from(&tasks_before.pool())
            &&& task.id() == tasks_before.pool().next()
            &&& task.saved() == RegisterStore::fresh(
                image.entry,
                APP_STACK_END,
                kernel_stack_top(task.id() as int) as u64,
            )
            &&& task.intact(mem)
            &&& address_space(
                &task.page_table(),
                mem,
                task.id() as int,
                layout,
                task.kernel_stack(),
                task.user_stack(),
            )
            &&& image.loads(contents)
            &&& image.mapped_by(&task.page_table(), mem)
        },
        SyscallEffect::SpawnFailed(e) => {
            &&& r.0 == FAILURE
            &&& tasks.queue() == tasks_before.queue()
            &&& tasks.pool().next() == tasks_before.pool().next()
            &&& tasks.pool().live() == tasks_before.pool().live()
            &&& e == TaskError::BadIdentifier <==> tasks_before.pool().next() >= MAX_TASKS
            &&& e == TaskError::Image(ElfError::BadSegment) ==> has_unsound_segment(contents)
            &&& space_explains(e, layout, tasks_before.pool().next(), free)
            &&& e matches TaskError::Image(x) ==> explains(
                reader,
                x,
                free,
                frames_for_address_space(layout, tasks_before.pool().next()),
                address_space_pages(layout, tasks_before.pool().next()),
            )
        },
        _ => false,
    }
}

/// Whether a spawn that finds the tasks as `tasks`, the layout `layout` and
/// the free frames `free` can fail only where the image does not load: the
/// pool's next identifier has a slot, the runs of pages of the new address
/// space fit, and as many frames are free as it can need.
pub open spec fn spawn_owed(tasks: &TaskManager, layout: KernelLayout, free: Set<int>) -> bool {
    &&& tasks.pool().next() < MAX_TASKS
    &&& fits(layout, tasks.pool().next())
    &&& free.finite()
    &&& free.len() >= frames_for_address_space(layout, tasks.pool().next())
}

/// Whether a spawn that finds the tasks as `tasks`, the layout `layout` and
/// the free frames `free` makes a task from the image of `reader`: the
/// pool's next identifier has a slot, the runs of pages of the new address
/// space fit, and the image loads into it whatever frames the allocator
/// picks.
pub open spec fn spawn_succeeds<R: Readable>(
    tasks: &TaskManager,
    reader: &R,
    layout: KernelLayout,
    free: Set<int>,
) -> bool {
    &&& tasks.pool().next() < MAX_TASKS
    &&& fits(layout, tasks.pool().next())
    &&& loads_freely(
        reader,
        free,
        frames_for_address_space(layout, tasks.pool().next()),
        address_space_pages(layout, tasks.pool().next()),
    )
}

/// Writes the `len` bytes at `ptr` in the caller's memory to the console,
/// if the descriptor is the console's and the bytes lie in user space.
/// Returns 0 where it wrote and 1, with nothing written, where it did not.
pub fn syscall_write<C: Console, U: UserMemory>(
    parameters: &[u64; 6],
    console: &mut C,
    memory: &U,
) -> (r: u64)
    ensures
        r == if write_accepted(parameters[0], parameters[1], parameters[2]) {
            SUCCESS
        } else {
            FAILURE
        },
        final(console).output() == if write_accepted(parameters[0], parameters[1], parameters[2]) {
            old(console).output() + user_bytes(
                memory,
                parameters[1] as int,
                parameters[2] as int,
            )
        } else {
            old(console).output()
        },
{
    let fp = parameters[0];
    let data = parameters[1];
    let len = parameters[2];
    if fp == CONSOLE_DESCRIPTOR && data < KERNEL_REGION_BEGIN && len < KERNEL_REGION_BEGIN - data {
        let mut i: u64 = 0;
        while i < len
            invariant
                i <= len,
                data + len < KERNEL_REGION_BEGIN,
                console.output() == old(console).output() + user_bytes(
                    memory,
                    data as int,
                    i as int,
                ),
            decreases len - i,
        {
            let b = memory.read_byte(data + i);
            console.write_byte(b);
            i += 1;
            assert(console.output() =~= old(console).output() + user_bytes(
                memory,
                data as int,
                i as int,
            ));
        }
        SUCCESS
    } else {
        FAILURE
    }
}

/// The identifier of the current task, or zero if no task is current.
pub fn syscall_getpid(tasks: &TaskManager) -> (r: u64)
    ensures
        r == if tasks.running() {
            tasks.order()[0]
        } else {
            0
        },
{
    tasks.current_id()
}

/// Adds a task made from the image that `init` holds, directly behind the
/// current task. Returns 0 and what is to be written into the new task's
/// frames, or 1 and why no task was made.
///
/// No task is made where the pool has no identifier left or its next
/// identifier has no slot. With an identifier that has a slot, a layout
/// whose runs of pages fit, and as many free frames as the address space
/// can need, a task is made unless the image does not load; every reason
/// that comes back is explained, and where the image loads freely a task
/// is made.
pub fn syscall_spawn<R: Readable, M: TableMemory, A: FrameAllocator>(
    tasks: &mut TaskManager,
    init: &R,
    layout: &KernelLayout,
    mem: &mut M,
    alloc: &mut A,
) -> (r: (u64, SyscallEffect))
    requires
        old(tasks).wf(),
        old(alloc).wf(),
        backs(old(alloc), old(mem)),
    ensures
        final(tasks).wf(),
        final(tasks).running() == old(tasks).running(),
        only_free_touched(final(mem), final(alloc), old(mem), old(alloc).free_frames()),
        sound(old(tasks).queue(), old(mem), old(alloc).free_frames()) ==> sound(
            final(tasks).queue(),
            final(mem),
            final(alloc).free_frames(),
        ),
        spawn_outcome(
            r,
            old(tasks),
            final(tasks),
            init,
            *layout,
            final(mem),
            old(alloc).free_frames(),
        ),
        old(tasks).pool().recycled().len() == 0 && old(tasks).pool().next_unused() == u64::MAX
            ==> (r.1 matches SyscallEffect::SpawnFailed(TaskError::BadIdentifier)),
        spawn_owed(old(tasks), *layout, old(alloc).free_frames()) ==> r.1 is Spawned || (r.1
            matches SyscallEffect::SpawnFailed(TaskError::Image(_))),
        spawn_succeeds(old(tasks), init, *layout, old(alloc).free_frames()) ==> r.0 == SUCCESS
            && r.1 is Spawned,
{
    if !tasks.has_identifier() {
        return (FAILURE, SyscallEffect::SpawnFailed(TaskError::BadIdentifier));
    }
    match tasks.add_task(init, layout, mem, alloc) {
        Ok(image) => (SUCCESS, SyscallEffect::Spawned(image)),
        Err(e) => (FAILURE, SyscallEffect::SpawnFailed(e)),
    }
}

/// Gives up the processor until the next interrupt.
pub fn syscall_yield() -> (r: (u64, SyscallEffect))
    ensures
        r.0 == SUCCESS,
        r.1 is WaitForInterrupt,
{
    (SUCCESS, SyscallEffect::WaitForInterrupt)
}

/// Does the system call `num` with the arguments `parameters`: 1 writes to
/// the console, 3 returns the caller's identifier, 4 adds a task made from
/// the image in `init`, as `syscall_spawn` says, 5 gives up the processor,
/// and every other number is answered with all ones and changes nothing.
pub fn handle_syscall<C: Console, U: UserMemory, R: Readable, M: TableMemory, A: FrameAllocator>(
    num: u64,
    parameters: &[u64; 6],
    console: &mut C,
    memory: &U,
    tasks: &mut TaskManager,
    init: &R,
    layout: &KernelLayout,
    mem: &mut M,
    alloc: &mut A,
) -> (r: (u64, SyscallEffect))
    requires
        old(tasks).wf(),
        old(alloc).wf(),
        backs(old(alloc), old(mem)),
    ensures
        final(tasks).wf(),
        final(tasks).running() == old(tasks).running(),
        only_free_touched(final(mem), final(alloc), old(mem), old(alloc).free_frames()),
        sound(old(tasks).queue(), old(mem), old(alloc).free_frames()) ==> sound(
            final(tasks).queue(),
            final(mem),
            final(alloc).free_frames(),
        ),
        num != SYS_WRITE ==> final(console).output() == old(console).output(),
        num != SYS_SPAWN ==> final(tasks).queue() == old(tasks).queue() && final(tasks).pool()
            == old(tasks).pool(),
        num == SYS_WRITE ==> {
            &&& r.1 is Nothing
            &&& r.0 == if write_accepted(parameters[0], parameters[1], parameters[2]) {
                SUCCESS
            } else {
                FAILURE
            }
            &&& final(console).output() == if write_accepted(
                parameters[0],
                parameters[1],
                parameters[2],
            ) {
                old(console).output() + user_bytes(
                    memory,
                    parameters[1] as int,
                    parameters[2] as int,
                )
            } else {
                old(console).output()
            }
        },
        num == SYS_GETPID ==> r.1 is Nothing && r.0 == if old(tasks).running() {
            old(tasks).order()[0]
        } else {
            0
        },
        num == SYS_SPAWN ==> {
            &&& spawn_outcome(
                r,
                old(tasks),
                final(tasks),
                init,
                *layout,
                final(mem),
                old(alloc).free_frames(),
            )
            &&& old(tasks).pool().recycled().len() == 0 && old(tasks).pool().next_unused()
                == u64::MAX ==> (r.1 matches SyscallEffect::SpawnFailed(
                TaskError::BadIdentifier,
            ))
            &&& spawn_owed(old(tasks), *layout, old(alloc).free_frames()) ==> r.1 is Spawned || (
            r.1 matches SyscallEffect::SpawnFailed(TaskError::Image(_)))
            &&& spawn_succeeds(old(tasks), init, *layout, old(alloc).free_frames()) ==> r.0
                == SUCCESS && r.1 is Spawned
        },
        num == SYS_YIELD ==> r.0 == SUCCESS && r.1 is WaitForInterrupt,
        num != SYS_WRITE && num != SYS_GETPID && num != SYS_SPAWN && num != SYS_YIELD ==> r.0
            == UNKNOWN_CALL && r.1 is Nothing,
{
    if num == SYS_WRITE {
        (syscall_write(parameters, console, memory), SyscallEffect::Nothing)
    } else if num == SYS_GETPID {
        (syscall_getpid(tasks), SyscallEffect::Nothing)
    } else if num == SYS_SPAWN {
        syscall_spawn(tasks, init, layout, mem, alloc)
    } else if num == SYS_YIELD {
        syscall_yield()
    } else {
        (UNKNOWN_CALL, SyscallEffect::Nothing)
    }
}

} // verus!
