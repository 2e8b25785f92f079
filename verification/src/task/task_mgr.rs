//! The scheduler's queue of tasks and the pool of their identifiers.

use std::collections::VecDeque;
use vstd::prelude::*;

use super::elf::{
    explains, file_fault, has_unsound_segment, loads_freely, ElfError, LoadedImage, Readable,
};
use super::task::{
    address_space, address_space_pages, fits, frames_for_address_space, kernel_stack_top,
    only_free_touched, saved_registers, space_explains, Dispatch, Task, TaskError, MAX_TASKS,
};
use crate::mm::definitions::APP_STACK_END;
use crate::arch::x86_64::interrupts::{end_of_interrupt, send_eoi_sequence};
use crate::arch::x86_64::io::PortWrite;
use crate::arch::x86_64::task::{InterruptionStackFrame, RegisterStore};
use crate::arch::x86_64::mm::page_table::backs;
use crate::arch::x86_64::mm::table_memory::TableMemory;
use crate::mm::definitions::{returned_or_refused, FrameAllocator};
use crate::mm::utils::KernelLayout;

verus! {

/// A pool of identifiers: those from a first one on that were never handed
/// out, and a stack of those that came back.
pub struct IdentifierGenerator {
    top: u64,
    stack: Vec<u64>,
}

impl IdentifierGenerator {
    /// The smallest identifier that was never handed out.
    pub closed spec fn next_unused(&self) -> int {
        self.top as int
    }

    /// The identifiers that came back, the last one last.
    pub closed spec fn recycled(&self) -> Seq<u64> {
        self.stack@
    }

    /// The identifier that the next allocation hands out.
    pub open spec fn next(&self) -> int {
        if self.recycled().len() > 0 {
            self.recycled().last() as int
        } else {
            self.next_unused()
        }
    }

    /// Whether the pool is what `before` is after it has handed out its
    /// next identifier: the last identifier that came back is gone, or, if
    /// none was left of those, the smallest that was never handed out is
    /// one more.
    pub open spec fn handed_out_from(&self, before: &Self) -> bool {
        if before.recycled().len() > 0 {
            self.recycled() == before.recycled().drop_last() && self.next_unused()
                == before.next_unused()
        } else {
            self.recycled() == before.recycled() && self.next_unused() == before.next_unused() + 1
        }
    }

    /// The identifiers that are handed out and have not come back, among
    /// those from one on.
    pub open spec fn live(&self) -> Set<int> {
        Set::new(|x: int| 1 <= x < self.next_unused() && !self.recycled().contains(x as u64))
    }

    /// The invariant of the pool: no identifier came back twice, and each
    /// that came back was handed out.
    pub open spec fn wf(&self) -> bool {
        &&& self.recycled().no_duplicates()
        &&& forall|i: int|
            0 <= i < self.recycled().len() ==> 1 <= (#[trigger] self.recycled()[i])
                < self.next_unused()
    }

    /// A pool whose first identifier is `top`.
    pub fn new(top: u64) -> (r: Self)
        ensures
            r.next_unused() == top,
            r.recycled() == Seq::<u64>::empty(),
            r.wf(),
    {
        Self { top, stack: Vec::new() }
    }

    /// Whether an identifier is left to hand out.
    pub fn has_next(&self) -> (r: bool)
        ensures
            r == (self.recycled().len() > 0 || self.next_unused() < u64::MAX),
    {
        self.stack.len() > 0 || self.top < u64::MAX
    }

    /// Hands out the identifier that came back last, or, if none is left of
    /// those, the smallest that was never handed out.
    pub fn allocate(&mut self) -> (r: u64)
        requires
            old(self).recycled().len() > 0 || old(self).next_unused() < u64::MAX,
        ensures
            r == old(self).next(),
            old(self).recycled().len() > 0 ==> final(self).recycled() == old(self).recycled().drop_last() && final(self).next_unused() == old(self).next_unused(),
            old(self).recycled().len() == 0 ==> final(self).recycled() == old(self).recycled()
                && final(self).next_unused() == old(self).next_unused() + 1,
            old(self).wf() ==> final(self).wf(),
            old(self).wf() && old(self).next_unused() >= 1 ==> r >= 1 && !old(self).live().contains(
                r as int,
            ) && final(self).live() == old(self).live().insert(r as int),
    {
        if self.stack.len() > 0 {
            let r = self.stack.pop().unwrap();
            proof {
                let before = old(self).recycled();
                let after = self.recycled();
                assert(after =~= before.drop_last());
                if old(self).wf() {
                    assert forall|i: int, j: int|
                        0 <= i < after.len() && 0 <= j < after.len() && i != j implies after[i]
                        != after[j] by {
                        assert(before[i] != before[j]);
                    }
                    assert(!after.contains(r)) by {
                        if after.contains(r) {
                            let k = choose|k: int| 0 <= k < after.len() && after[k] == r;
                            assert(before[k] != before[before.len() - 1]);
                        }
                    }
                    assert(before.contains(r)) by {
                        assert(before[before.len() - 1] == r);
                    }
                    assert forall|x: int|
                        self.live().contains(x) <==> old(self).live().insert(r as int).contains(
                            x,
                        ) by {
                        if 1 <= x < self.next_unused() && x != r {
                            if before.contains(x as u64) {
                                let k = choose|k: int| 0 <= k < before.len() && before[k] == x as u64;
                                assert(after[k] == x as u64);
                            }
                            if after.contains(x as u64) {
                                let k = choose|k: int| 0 <= k < after.len() && after[k] == x as u64;
                                assert(before[k] == x as u64);
                            }
                        }
                    }
                    assert(self.live() =~= old(self).live().insert(r as int));
                }
            }
            r
        } else {
            let r = self.top;
            self.top = self.top + 1;
            proof {
                if old(self).wf() && old(self).next_unused() >= 1 {
                    assert(!old(self).recycled().contains(r)) by {
                        if old(self).recycled().contains(r) {
                            let k = choose|k: int|
                                0 <= k < old(self).recycled().len() && old(self).recycled()[k] == r;
                            assert(old(self).recycled()[k] < old(self).next_unused());
                        }
                    }
                    assert(self.live() =~= old(self).live().insert(r as int));
                }
            }
            r
        }
    }

    /// Takes `id` back; it is the next to be handed out again.
    pub fn free(&mut self, id: u64)
        ensures
            final(self).recycled() == old(self).recycled().push(id),
            final(self).next_unused() == old(self).next_unused(),
            final(self).next() == id,
            old(self).wf() && old(self).live().contains(id as int) ==> final(self).wf() && final(self).live() == old(self).live().remove(id as int),
    {
        self.stack.push(id);
        proof {
            let before = old(self).recycled();
            let after = self.recycled();
            if old(self).wf() && old(self).live().contains(id as int) {
                assert forall|i: int, j: int|
                    0 <= i < after.len() && 0 <= j < after.len() && i != j implies after[i]
                    != after[j] by {
                    if i < before.len() && j < before.len() {
                        assert(before[i] != before[j]);
                    } else if i < before.len() {
                        assert(before.contains(before[i]));
                    } else {
                        assert(before.contains(before[j]));
                    }
                }
                assert forall|x: int|
                    self.live().contains(x) <==> old(self).live().remove(id as int).contains(x) by {
                    if 1 <= x < self.next_unused() {
                        if before.contains(x as u64) {
                            let k = choose|k: int| 0 <= k < before.len() && before[k] == x as u64;
                            assert(after[k] == x as u64);
                        }
                        if after.contains(x as u64) && x != id {
                            let k = choose|k: int| 0 <= k < after.len() && after[k] == x as u64;
                            assert(before[k] == x as u64);
                        }
                        if x == id {
                            assert(after[before.len() as int] == id);
                        }
                    }
                }
                assert(self.live() =~= old(self).live().remove(id as int));
            }
        }
    }
}

/// The sequence that one rotation makes of `s`: its last element comes to
/// the front.
pub open spec fn rotate<T>(s: Seq<T>) -> Seq<T> {
    if s.len() == 0 {
        s
    } else {
        seq![s.last()] + s.drop_last()
    }
}

/// The sequence that `k` rotations make of `s`.
pub open spec fn rotate_by<T>(s: Seq<T>, k: nat) -> Seq<T>
    decreases k,
{
    if k == 0 {
        s
    } else {
        rotate(rotate_by(s, (k - 1) as nat))
    }
}

/// The place `k` places before place `i`, counted round a sequence of `n`
/// places.
pub open spec fn places_before(n: int, i: int, k: int) -> int {
    (i - k) % n
}

proof fn lemma_places_before(n: int, i: int, k: int)
    requires
        0 <= i < n,
        0 <= k,
    ensures
        0 <= places_before(n, i, k) < n,
        k == 0 ==> places_before(n, i, k) == i,
        k > 0 && i > 0 ==> places_before(n, i, k) == places_before(n, i - 1, k - 1),
        k > 0 && i == 0 ==> places_before(n, i, k) == places_before(n, n - 1, k - 1),
        k == n ==> places_before(n, i, k) == i,
        0 < k < n && i == 0 ==> places_before(n, i, k) == n - k,
{
    vstd::arithmetic::div_mod::lemma_mod_bound(i - k, n);
    vstd::arithmetic::div_mod::lemma_small_mod(i as nat, n as nat);
    vstd::arithmetic::div_mod::lemma_mod_add_multiples_vanish(i - k, n);
    if 0 < k < n {
        vstd::arithmetic::div_mod::lemma_small_mod((n - k) as nat, n as nat);
    }
}

/// After `k` rotations the element at place `i` is the one that stood `k`
/// places before it, counted round the sequence.
pub proof fn lemma_rotate_by<T>(s: Seq<T>, k: nat)
    ensures
        rotate_by(s, k).len() == s.len(),
        forall|i: int|
            0 <= i < s.len() ==> #[trigger] rotate_by(s, k)[i] == s[places_before(
                s.len() as int,
                i,
                k as int,
            )],
    decreases k,
{
    let n = s.len() as int;
    if k > 0 {
        lemma_rotate_by(s, (k - 1) as nat);
        let prev = rotate_by(s, (k - 1) as nat);
        assert forall|i: int| 0 <= i < n implies #[trigger] rotate_by(s, k)[i] == s[places_before(
            n,
            i,
            k as int,
        )] by {
            lemma_places_before(n, i, k as int);
            if i == 0 {
                assert(rotate_by(s, k)[0] == prev[n - 1]);
            } else {
                assert(rotate_by(s, k)[i] == prev[i - 1]);
            }
        }
    } else {
        assert forall|i: int| 0 <= i < n implies #[trigger] rotate_by(s, k)[i] == s[places_before(
            n,
            i,
            k as int,
        )] by {
            lemma_places_before(n, i, 0);
        }
    }
}

/// The place, in a sequence of `n` tasks, of the task that is at the front
/// after `k` rotations.
pub open spec fn front_after(n: int, k: int) -> int {
    if k == 0 {
        0
    } else {
        n - k
    }
}

/// Round-robin is fair and cyclic: as many rotations as there are tasks
/// bring every task back to its place; on the way the task at the front
/// after `k` rotations is the one `k` places from the back; no task is at
/// the front twice; and task `i` is at the front after `front_after(n, i)`
/// rotations, so that none is passed over.
pub proof fn law_rotation_cycle<T>(s: Seq<T>)
    ensures
        rotate_by(s, s.len()) == s,
        forall|k: nat|
            k < s.len() ==> (#[trigger] rotate_by(s, k))[0] == s[front_after(
                s.len() as int,
                k as int,
            )],
        forall|k: int, l: int|
            0 <= k < l < s.len() ==> #[trigger] front_after(s.len() as int, k)
                != #[trigger] front_after(s.len() as int, l),
        forall|i: int|
            0 <= i < s.len() ==> 0 <= #[trigger] front_after(s.len() as int, i) < s.len()
                && front_after(s.len() as int, front_after(s.len() as int, i)) == i,
{
    let n = s.len() as int;
    lemma_rotate_by(s, s.len());
    assert forall|i: int| 0 <= i < n implies rotate_by(s, s.len())[i] == s[i] by {
        lemma_places_before(n, i, n);
    }
    assert(rotate_by(s, s.len()) =~= s);
    assert forall|k: nat| k < s.len() implies (#[trigger] rotate_by(s, k))[0] == s[front_after(
        n,
        k as int,
    )] by {
        lemma_rotate_by(s, k);
        lemma_places_before(n, 0, k as int);
    }
}

/// Tasks run in the order in which they were made: a task that joins the
/// queue directly behind the current one has its turn after all the tasks
/// that waited, which have their turns as before, and before the current
/// task has its next.
pub proof fn law_joining_task_runs_last<T>(s: Seq<T>, t: T)
    requires
        s.len() >= 1,
    ensures
        forall|k: nat|
            0 < k < s.len() ==> (#[trigger] rotate_by(s.insert(1, t), k))[0] == rotate_by(s, k)[0],
        rotate_by(s.insert(1, t), s.len())[0] == t,
        rotate_by(s.insert(1, t), (s.len() + 1) as nat)[0] == s[0],
{
    let joined = s.insert(1, t);
    let n = s.len();
    law_rotation_cycle(s);
    law_rotation_cycle(joined);
    assert forall|k: nat| 0 < k < n implies (#[trigger] rotate_by(joined, k))[0] == rotate_by(
        s,
        k,
    )[0] by {
        assert(rotate_by(joined, k)[0] == joined[front_after(n as int + 1, k as int)]);
        assert(rotate_by(s, k)[0] == s[front_after(n as int, k as int)]);
    }
    assert(rotate_by(joined, n)[0] == joined[front_after(n as int + 1, n as int)]);
    assert(rotate_by(joined, (n + 1) as nat) == joined);
}

/// Whether every task of `queue` is whole in `mem` and holds frames of its
/// own: no frame of a task is free, and none is a frame of another task.
pub open spec fn sound<M: TableMemory>(queue: Seq<Task>, mem: &M, free: Set<int>) -> bool {
    &&& forall|i: int|
        0 <= i < queue.len() ==> (#[trigger] queue[i]).intact(mem) && queue[i].footprint().disjoint(
            free,
        )
    &&& forall|i: int, j: int|
        0 <= i < j < queue.len() ==> (#[trigger] queue[i]).footprint().disjoint(
            (#[trigger] queue[j]).footprint(),
        )
}

/// A rotation leaves the tasks whole.
pub proof fn lemma_sound_rotate<M: TableMemory>(queue: Seq<Task>, mem: &M, free: Set<int>)
    requires
        sound(queue, mem, free),
    ensures
        sound(rotate(queue), mem, free),
{
    let after = rotate(queue);
    let n = queue.len() as int;
    assert forall|i: int| 0 <= i < after.len() implies (#[trigger] after[i]).intact(mem)
        && after[i].footprint().disjoint(free) by {
        let a = if i == 0 { n - 1 } else { i - 1 };
        assert(after[i] == queue[a]);
    }
    assert forall|i: int, j: int| 0 <= i < j < after.len() implies (
    #[trigger] after[i]).footprint().disjoint((#[trigger] after[j]).footprint()) by {
        let a = if i == 0 { n - 1 } else { i - 1 };
        let b = j - 1;
        assert(after[i] == queue[a]);
        assert(after[j] == queue[b]);
        if a < b {
            assert(queue[a].footprint().disjoint(queue[b].footprint()));
        } else {
            assert(queue[b].footprint().disjoint(queue[a].footprint()));
        }
    }
}

/// Saving the state of the current task leaves the tasks whole.
pub proof fn law_interrupt_keeps_tasks_whole<M: TableMemory>(
    queue: Seq<Task>,
    running: bool,
    general: RegisterStore,
    frame: InterruptionStackFrame,
    mem: &M,
    free: Set<int>,
)
    requires
        sound(queue, mem, free),
    ensures
        sound(TaskManager::interrupted(queue, running, general, frame), mem, free),
{
    let after = TaskManager::interrupted(queue, running, general, frame);
    if running && queue.len() > 0 {
        queue[0].lemma_with_registers(saved_registers(queue[0].saved(), general, frame));
        assert forall|i: int| 0 <= i < after.len() implies (#[trigger] after[i]).intact(mem)
            && after[i].footprint().disjoint(free) by {
            assert(queue[i].intact(mem));
        }
        assert forall|i: int, j: int| 0 <= i < j < after.len() implies (
        #[trigger] after[i]).footprint().disjoint((#[trigger] after[j]).footprint()) by {
            assert(queue[i].footprint().disjoint(queue[j].footprint()));
        }
    }
}

/// A task that leaves the queue is whole, its frames are its own, and the
/// tasks that stay are whole.
pub proof fn lemma_sound_without<M: TableMemory>(
    queue: Seq<Task>,
    running: bool,
    id: u64,
    mem: &M,
    free: Set<int>,
)
    requires
        sound(queue, mem, free),
        TaskManager::place_of(queue, id) < queue.len(),
    ensures
        sound(TaskManager::without(queue, running, id), mem, free),
        queue[TaskManager::place_of(queue, id)].intact(mem),
        queue[TaskManager::place_of(queue, id)].footprint().disjoint(free),
        forall|i: int|
            0 <= i < TaskManager::without(queue, running, id).len() ==> (
            #[trigger] TaskManager::without(queue, running, id)[i]).footprint().disjoint(
                queue[TaskManager::place_of(queue, id)].footprint(),
            ),
{
    let at = TaskManager::place_of(queue, id);
    TaskManager::lemma_place_bounds(queue, id);
    let rest = queue.remove(at);
    assert(queue[at].intact(mem));
    assert forall|i: int| 0 <= i < rest.len() implies (#[trigger] rest[i]).intact(mem)
        && rest[i].footprint().disjoint(free) && rest[i].footprint().disjoint(
        queue[at].footprint(),
    ) by {
        let a = if i < at { i } else { i + 1 };
        assert(rest[i] == queue[a]);
        if a < at {
            assert(queue[a].footprint().disjoint(queue[at].footprint()));
        } else {
            assert(queue[at].footprint().disjoint(queue[a].footprint()));
        }
    }
    assert forall|i: int, j: int| 0 <= i < j < rest.len() implies (
    #[trigger] rest[i]).footprint().disjoint((#[trigger] rest[j]).footprint()) by {
        let a = if i < at { i } else { i + 1 };
        let b = if j < at { j } else { j + 1 };
        assert(rest[i] == queue[a]);
        assert(rest[j] == queue[b]);
        assert(queue[a].footprint().disjoint(queue[b].footprint()));
    }
    assert(sound(rest, mem, free));
    if running && at == 0 {
        assert(rest =~= queue.drop_first());
        lemma_sound_rotate(rest, mem, free);
        let after = rotate(rest);
        assert forall|i: int| 0 <= i < after.len() implies (#[trigger] after[i]).footprint().disjoint(
            queue[at].footprint(),
        ) by {
            let a = if i == 0 { rest.len() - 1 } else { i - 1 };
            assert(after[i] == rest[a]);
        }
    }
}

/// Tasks stay whole while only frames that are free are written and no
/// frame becomes free.
pub proof fn lemma_sound_carried<M: TableMemory>(
    queue: Seq<Task>,
    mem: &M,
    free: Set<int>,
    mem_before: &M,
    free_before: Set<int>,
)
    requires
        sound(queue, mem_before, free_before),
        free.subset_of(free_before),
        forall|f: int| mem.holds(f) == mem_before.holds(f),
        forall|f: int, i: int|
            !free_before.contains(f) ==> #[trigger] mem.word(f, i) == mem_before.word(f, i),
    ensures
        sound(queue, mem, free),
{
    assert forall|i: int| 0 <= i < queue.len() implies (#[trigger] queue[i]).intact(mem)
        && queue[i].footprint().disjoint(free) by {
        assert(queue[i].intact(mem_before));
        assert(queue[i].footprint().disjoint(free_before));
        let pt = queue[i].page_table();
        pt.lemma_held(mem_before);
        pt.lemma_stable(mem_before, mem);
    }
}

/// Tasks stay whole when frames that are none of theirs become free.
pub proof fn lemma_sound_released<M: TableMemory>(
    queue: Seq<Task>,
    mem: &M,
    free: Set<int>,
    free_before: Set<int>,
    gone: Set<int>,
)
    requires
        sound(queue, mem, free_before),
        free.subset_of(free_before.union(gone)),
        forall|i: int| 0 <= i < queue.len() ==> (#[trigger] queue[i]).footprint().disjoint(gone),
    ensures
        sound(queue, mem, free),
{
    assert forall|i: int| 0 <= i < queue.len() implies (#[trigger] queue[i]).intact(mem)
        && queue[i].footprint().disjoint(free) by {
        assert(queue[i].footprint().disjoint(free_before));
        assert(queue[i].footprint().disjoint(gone));
    }
}

/// The tasks of the system in their round-robin order, and the pool of
/// their identifiers.
pub struct TaskManager {
    tasks: VecDeque<Task>,
    current_task: Option<Task>,
    ids: IdentifierGenerator,
}

impl TaskManager {
    /// The tasks in round-robin order: the current one first, if there is
    /// one, and the task that runs next last.
    pub closed spec fn queue(&self) -> Seq<Task> {
        match self.current_task {
            Some(t) => seq![t] + self.tasks@,
            None => self.tasks@,
        }
    }

    /// Whether a task is current.
    pub closed spec fn running(&self) -> bool {
        self.current_task is Some
    }

    /// The pool of identifiers.
    pub closed spec fn pool(&self) -> IdentifierGenerator {
        self.ids
    }

    /// The identifiers of the tasks, in round-robin order.
    pub open spec fn order(&self) -> Seq<u64> {
        self.queue().map_values(|t: Task| t.id())
    }

    /// The invariant of the manager: no two tasks have the same identifier,
    /// every task's identifier is handed out, none is zero, and the pool is
    /// valid.
    pub open spec fn wf(&self) -> bool {
        &&& self.pool().wf()
        &&& self.pool().next_unused() >= 1
        &&& self.order().no_duplicates()
        &&& forall|i: int|
            0 <= i < self.order().len() ==> self.pool().live().contains(
                (#[trigger] self.order()[i]) as int,
            )
    }

    /// A manager without tasks, whose first task will have the identifier
    /// 1.
    pub fn new() -> (r: Self)
        ensures
            r.wf(),
            r.queue() == Seq::<Task>::empty(),
            !r.running(),
            r.pool().next_unused() == 1,
            r.pool().recycled() == Seq::<u64>::empty(),
    {
        let r = Self { tasks: VecDeque::new(), current_task: None, ids: IdentifierGenerator::new(1) };
        assert(r.order() =~= Seq::<u64>::empty());
        r
    }

    /// The number of tasks that wait for their turn.
    pub fn waiting_count(&self) -> (r: usize)
        ensures
            r == if self.running() {
                self.queue().len() - 1
            } else {
                self.queue().len() as int
            },
    {
        self.tasks.len()
    }

    /// Whether the pool has an identifier left to hand out.
    pub fn has_identifier(&self) -> (r: bool)
        ensures
            r == (self.pool().recycled().len() > 0 || self.pool().next_unused() < u64::MAX),
    {
        self.ids.has_next()
    }

    /// The current task, if there is one.
    pub fn current_task(&self) -> (r: Option<&Task>)
        ensures
            match r {
                Some(t) => self.running() && *t == self.queue()[0],
                None => !self.running(),
            },
    {
        self.current_task.as_ref()
    }

    /// The identifier of the current task, or zero if there is none.
    pub fn current_id(&self) -> (r: u64)
        ensures
            r == if self.running() {
                self.order()[0]
            } else {
                0
            },
    {
        match &self.current_task {
            Some(t) => t.id(),
            None => 0,
        }
    }

    /// The place at which a new task joins the queue: directly behind the
    /// current task, or at the front where no task is current.
    pub open spec fn joining_place(running: bool) -> int {
        if running {
            1
        } else {
            0
        }
    }

    /// Makes a task from the image that `elf_file` holds, with the next
    /// identifier of the pool, and puts it into the queue directly behind
    /// the current task, so that it is the last to have its turn before the
    /// current task has its next: tasks run in the order in which they were
    /// made. Returns what is to be written into the frames of the task's
    /// segments.
    ///
    /// On success the pool has handed out its next identifier. On failure
    /// the queue and the pool's next identifier are what they were. With an
    /// identifier that has a slot, a layout whose runs of pages fit, and as
    /// many free frames as the address space can need, it fails only where
    /// the image does not load.
    pub fn add_task<R: Readable, M: TableMemory, A: FrameAllocator>(
        &mut self,
        elf_file: &R,
        layout: &KernelLayout,
        mem: &mut M,
        alloc: &mut A,
    ) -> (r: Result<LoadedImage, TaskError>)
        requires
            old(self).wf(),
            old(self).pool().recycled().len() > 0 || old(self).pool().next_unused() < u64::MAX,
            old(alloc).wf(),
            backs(old(alloc), old(mem)),
        ensures
            final(self).wf(),
            final(self).running() == old(self).running(),
            only_free_touched(final(mem), final(alloc), old(mem), old(alloc).free_frames()),
            sound(old(self).queue(), old(mem), old(alloc).free_frames()) ==> sound(
                final(self).queue(),
                final(mem),
                final(alloc).free_frames(),
            ),
            match r {
                Ok(image) => {
                    let place = Self::joining_place(old(self).running());
                    let task = final(self).queue()[place];
                    &&& final(self).queue() == old(self).queue().insert(place, task)
                    &&& final(self).pool().handed_out_from(&old(self).pool())
                    &&& task.id() == old(self).pool().next()
                    &&& task.saved() == RegisterStore::fresh(
                        image.entry,
                        APP_STACK_END,
                        kernel_stack_top(task.id() as int) as u64,
                    )
                    &&& task.intact(final(mem))
                    &&& task.footprint().subset_of(old(alloc).free_frames())
                    &&& task.footprint().disjoint(final(alloc).free_frames())
                    &&& address_space(
                        &task.page_table(),
                        final(mem),
                        task.id() as int,
                        *layout,
                        task.kernel_stack(),
                        task.user_stack(),
                    )
                    &&& image.loads(elf_file.contents())
                    &&& image.mapped_by(&task.page_table(), final(mem))
                },
                Err(e) => {
                    &&& final(self).queue() == old(self).queue()
                    &&& final(self).pool().next() == old(self).pool().next()
                    &&& final(self).pool().live() == old(self).pool().live()
                    &&& e == TaskError::BadIdentifier <==> old(self).pool().next() >= MAX_TASKS
                },
            },
            old(self).pool().next() < MAX_TASKS && fits(*layout, old(self).pool().next()) && old(
                alloc,
            ).free_frames().finite() && old(alloc).free_frames().len() >= frames_for_address_space(
                *layout,
                old(self).pool().next(),
            ) ==> r is Ok || r matches Err(TaskError::Image(_)),
            r == Err::<LoadedImage, TaskError>(TaskError::Image(ElfError::BadSegment))
                ==> has_unsound_segment(elf_file.contents()),
            r matches Err(TaskError::Image(e)) ==> explains(
                elf_file,
                e,
                old(alloc).free_frames(),
                frames_for_address_space(*layout, old(self).pool().next()),
                address_space_pages(*layout, old(self).pool().next()),
            ),
            r matches Err(e) ==> space_explains(
                e,
                *layout,
                old(self).pool().next(),
                old(alloc).free_frames(),
            ),
            old(self).pool().next() < MAX_TASKS && fits(*layout, old(self).pool().next())
                && loads_freely(
                elf_file,
                old(alloc).free_frames(),
                frames_for_address_space(*layout, old(self).pool().next()),
                address_space_pages(*layout, old(self).pool().next()),
            ) ==> r is Ok,
            r is Ok ==> file_fault(elf_file) is None,
    {
        let id = self.ids.allocate();
        match Task::new(id, elf_file, layout, mem, alloc) {
            Ok((task, image)) => {
                self.tasks.push_front(task);
                proof {
                    let before = old(self).queue();
                    let after = self.queue();
                    let place = Self::joining_place(old(self).running());
                    assert(after =~= before.insert(place, task));
                    assert(self.order() =~= old(self).order().insert(place, id));
                    if sound(before, old(mem), old(alloc).free_frames()) {
                        lemma_sound_carried(
                            before,
                            mem,
                            alloc.free_frames(),
                            old(mem),
                            old(alloc).free_frames(),
                        );
                        assert forall|i: int, j: int| 0 <= i < j < after.len() implies (
                        #[trigger] after[i]).footprint().disjoint(
                            (#[trigger] after[j]).footprint(),
                        ) by {
                            let a = if i < place { i } else { i - 1 };
                            let b = if j < place { j } else { j - 1 };
                            if i != place && j != place {
                                assert(before[a].footprint().disjoint(before[b].footprint()));
                            } else if i == place {
                                assert(before[b].footprint().disjoint(old(alloc).free_frames()));
                            } else {
                                assert(before[a].footprint().disjoint(old(alloc).free_frames()));
                            }
                        }
                        assert forall|i: int| 0 <= i < after.len() implies (
                        #[trigger] after[i]).intact(mem) && after[i].footprint().disjoint(
                            alloc.free_frames(),
                        ) by {
                            let a = if i < place { i } else { i - 1 };
                            if i != place {
                                assert(before[a].intact(mem));
                            }
                        }
                    }
                    assert forall|i: int, j: int|
                        0 <= i < self.order().len() && 0 <= j < self.order().len() && i
                            != j implies self.order()[i] != self.order()[j] by {
                        let a = if i < place { i } else { i - 1 };
                        let b = if j < place { j } else { j - 1 };
                        if i != place {
                            assert(old(self).pool().live().contains(old(self).order()[a] as int));
                        }
                        if j != place {
                            assert(old(self).pool().live().contains(old(self).order()[b] as int));
                        }
                    }
                    assert forall|i: int| 0 <= i < self.order().len() implies self.pool().live().contains(
                        (#[trigger] self.order()[i]) as int,
                    ) by {
                        let a = if i < place { i } else { i - 1 };
                        if i != place {
                            assert(old(self).pool().live().contains(old(self).order()[a] as int));
                        }
                    }
                }
                Ok(image)
            },
            Err(e) => {
                self.ids.free(id);
                proof {
                    assert(self.queue() =~= old(self).queue());
                    if sound(old(self).queue(), old(mem), old(alloc).free_frames()) {
                        lemma_sound_carried(
                            old(self).queue(),
                            mem,
                            alloc.free_frames(),
                            old(mem),
                            old(alloc).free_frames(),
                        );
                    }
                    assert(self.order() =~= old(self).order());
                    assert(self.pool().live() =~= old(self).pool().live());
                    assert forall|i: int| 0 <= i < self.order().len() implies self.pool().live().contains(
                        (#[trigger] self.order()[i]) as int,
                    ) by {
                        assert(old(self).pool().live().contains(old(self).order()[i] as int));
                    }
                }
                Err(e)
            },
        }
    }

    /// Makes the task at the back of the queue the current one; the task
    /// that was current goes to the front of those that wait. Returns the
    /// identifier of the task that is current then, or nothing if there is
    /// no task at all.
    pub fn rotate_tasks(&mut self) -> (r: Option<u64>)
        ensures
            final(self).queue() == rotate(old(self).queue()),
            final(self).pool() == old(self).pool(),
            final(self).running() == (old(self).queue().len() > 0),
            old(self).wf() ==> final(self).wf(),
            r == if old(self).queue().len() > 0 {
                Some(final(self).order()[0])
            } else {
                None
            },
    {
        let r = match self.tasks.pop_back() {
            None => match &self.current_task {
                Some(t) => Some(t.id()),
                None => None,
            },
            Some(next) => {
                let id = next.id();
                match self.current_task.take() {
                    Some(current) => {
                        self.tasks.push_front(current);
                    },
                    None => {},
                }
                self.current_task = Some(next);
                Some(id)
            },
        };
        proof {
            assert(self.queue() =~= rotate(old(self).queue()));
            if old(self).wf() {
                Self::lemma_rotate_keeps(old(self).order(), old(self).pool());
                assert(self.order() =~= rotate(old(self).order()));
            }
        }
        r
    }

    /// The place of the task with the identifier `id` in a sequence of
    /// tasks, or the length of the sequence if no task has it.
    pub open spec fn place_of(queue: Seq<Task>, id: u64) -> int
        decreases queue.len(),
    {
        if queue.len() == 0 {
            0
        } else if queue[0].id() == id {
            0
        } else {
            1 + Self::place_of(queue.drop_first(), id)
        }
    }

    /// The queue after the task with the identifier `id` has left it: if it
    /// was the current one, the task at the back of the others is current;
    /// if it waited, the others keep their order.
    pub open spec fn without(queue: Seq<Task>, running: bool, id: u64) -> Seq<Task> {
        let at = Self::place_of(queue, id);
        if at >= queue.len() {
            queue
        } else if running && at == 0 {
            rotate(queue.drop_first())
        } else {
            queue.remove(at)
        }
    }

    /// The place of a task is a place of the queue, or its length.
    pub proof fn lemma_place_bounds(queue: Seq<Task>, id: u64)
        ensures
            0 <= Self::place_of(queue, id) <= queue.len(),
            Self::place_of(queue, id) < queue.len() ==> queue[Self::place_of(queue, id)].id()
                == id,
        decreases queue.len(),
    {
        if queue.len() > 0 && queue[0].id() != id {
            Self::lemma_place_bounds(queue.drop_first(), id);
        }
    }

    proof fn lemma_place_of(queue: Seq<Task>, id: u64, n: int)
        requires
            0 <= n <= queue.len(),
            forall|j: int| 0 <= j < n ==> (#[trigger] queue[j]).id() != id,
            n < queue.len() ==> queue[n].id() == id,
        ensures
            Self::place_of(queue, id) == n,
        decreases n,
    {
        if n > 0 {
            let rest = queue.drop_first();
            assert forall|j: int| 0 <= j < n - 1 implies (#[trigger] rest[j]).id() != id by {
                assert(rest[j] == queue[j + 1]);
            }
            Self::lemma_place_of(rest, id, n - 1);
        }
    }

    /// Takes the task with the identifier `id` out of the queue and gives
    /// its identifier back to the pool. If the task was the current one, the
    /// task at the back of the queue becomes current, and no task is
    /// current if none is left. Returns the task, or nothing if no task has
    /// the identifier.
    pub fn remove_task(&mut self, id: u64) -> (r: Option<Task>)
        requires
            old(self).wf(),
        ensures
            final(self).wf(),
            final(self).queue() == Self::without(old(self).queue(), old(self).running(), id),
            match r {
                Some(t) => {
                    &&& Self::place_of(old(self).queue(), id) < old(self).queue().len()
                    &&& t == old(self).queue()[Self::place_of(old(self).queue(), id)]
                    &&& t.id() == id
                    &&& final(self).pool().live() == old(self).pool().live().remove(id as int)
                    &&& final(self).pool().next() == id
                    &&& final(self).pool().recycled() == old(self).pool().recycled().push(id)
                    &&& final(self).pool().next_unused() == old(self).pool().next_unused()
                    &&& final(self).running() == if old(self).running() && Self::place_of(
                        old(self).queue(),
                        id,
                    ) == 0 {
                        final(self).queue().len() > 0
                    } else {
                        old(self).running()
                    }
                },
                None => {
                    &&& Self::place_of(old(self).queue(), id) == old(self).queue().len()
                    &&& final(self).pool() == old(self).pool()
                    &&& final(self).running() == old(self).running()
                },
            },
    {
        let ghost before = old(self).queue();
        let ghost order = old(self).order();
        let is_current = match &self.current_task {
            Some(t) => t.id() == id,
            None => false,
        };
        if is_current {
            let task = self.current_task.take().unwrap();
            let ghost mid = *self;
            proof {
                Self::lemma_place_of(before, id, 0);
                assert(self.queue() =~= before.drop_first());
                assert(self.order() =~= order.drop_first());
                assert(self.wf()) by {
                    assert forall|i: int, j: int|
                        0 <= i < self.order().len() && 0 <= j < self.order().len() && i
                            != j implies self.order()[i] != self.order()[j] by {
                        assert(order[i + 1] != order[j + 1]);
                    }
                    assert forall|i: int| 0 <= i < self.order().len() implies self.pool().live().contains(
                        (#[trigger] self.order()[i]) as int,
                    ) by {
                        assert(self.order()[i] == order[i + 1]);
                    }
                }
            }
            self.rotate_tasks();
            proof {
                assert(old(self).pool().live().contains(order[0] as int));
            }
            self.ids.free(id);
            proof {
                assert forall|i: int| 0 <= i < self.order().len() implies self.pool().live().contains(
                    (#[trigger] self.order()[i]) as int,
                ) by {
                    let was = rotate(mid.order());
                    assert(self.order() =~= was);
                    let k = if i == 0 {
                        mid.order().len() - 1
                    } else {
                        i - 1
                    };
                    assert(was[i] == mid.order()[k]);
                    assert(mid.order()[k] == order[k + 1]);
                    assert(order[k + 1] != order[0]);
                    assert(old(self).pool().live().contains(order[k + 1] as int));
                }
            }
            return Some(task);
        }
        let n = self.tasks.len();
        let ghost waiting = self.tasks@;
        let ghost shift: int = if old(self).running() {
            1
        } else {
            0
        };
        let mut i: usize = 0;
        while i < n && self.tasks[i].id() != id
            invariant
                i <= n,
                n == waiting.len(),
                *self == *old(self),
                waiting == self.tasks@,
                before == old(self).queue(),
                forall|j: int| 0 <= j < i ==> (#[trigger] waiting[j]).id() != id,
            decreases n - i,
        {
            i += 1;
        }
        proof {
            assert forall|j: int| 0 <= j < i + shift implies (#[trigger] before[j]).id() != id by {
                if shift == 1 && j > 0 {
                    assert(before[j] == waiting[j - 1]);
                }
            }
            if i < n {
                assert(before[i + shift] == waiting[i as int]);
            }
            Self::lemma_place_of(before, id, i + shift);
        }
        if i == n {
            return None;
        }
        let task = self.tasks.remove(i).unwrap();
        proof {
            assert(self.queue() =~= before.remove(i + shift));
            assert(self.order() =~= order.remove(i + shift));
            assert(old(self).pool().live().contains(order[i + shift] as int));
        }
        self.ids.free(id);
        proof {
            let at = i + shift;
            assert forall|a: int, b: int|
                0 <= a < self.order().len() && 0 <= b < self.order().len() && a
                    != b implies self.order()[a] != self.order()[b] by {
                let x = if a < at { a } else { a + 1 };
                let y = if b < at { b } else { b + 1 };
                assert(order[x] != order[y]);
            }
            assert forall|a: int| 0 <= a < self.order().len() implies self.pool().live().contains(
                (#[trigger] self.order()[a]) as int,
            ) by {
                let x = if a < at { a } else { a + 1 };
                assert(self.order()[a] == order[x]);
                assert(order[x] != order[at]);
                assert(order[at] == id);
                assert(old(self).pool().live().contains(order[x] as int));
            }
        }
        Some(task)
    }

    /// The queue after the current task, if there is one, was interrupted
    /// with the general-purpose registers of `general` at the frame `frame`:
    /// its saved registers are those of the interruption, and nothing else
    /// has changed.
    pub open spec fn interrupted(
        queue: Seq<Task>,
        running: bool,
        general: RegisterStore,
        frame: InterruptionStackFrame,
    ) -> Seq<Task> {
        if running && queue.len() > 0 {
            queue.update(
                0,
                queue[0].with_registers(saved_registers(queue[0].saved(), general, frame)),
            )
        } else {
            queue
        }
    }

    /// Makes the next task the current one and says what the processor is
    /// given to run it, or nothing if there is no task at all.
    pub fn schedule_next_task(&mut self) -> (r: Option<Dispatch>)
        ensures
            final(self).queue() == rotate(old(self).queue()),
            final(self).pool() == old(self).pool(),
            final(self).running() == (old(self).queue().len() > 0),
            old(self).wf() ==> final(self).wf(),
            r == if old(self).queue().len() > 0 {
                Some(final(self).queue()[0].spec_dispatch())
            } else {
                None
            },
    {
        self.rotate_tasks();
        match &self.current_task {
            Some(t) => Some(t.jump_to()),
            None => None,
        }
    }

    /// Serves a tick of the timer that interrupted the current task with
    /// the general-purpose registers of `general` at the frame `frame`: the
    /// interrupt of the timer's line is ended, the state of the current task
    /// is saved, and the next task becomes the current one. Returns what is
    /// to be written to the interrupt controller and what the processor is
    /// given to run the next task.
    pub fn timer(&mut self, general: &RegisterStore, frame: &InterruptionStackFrame) -> (r: (
        Vec<PortWrite>,
        Option<Dispatch>,
    ))
        ensures
            r.0@ == end_of_interrupt(0),
            final(self).queue() == rotate(
                Self::interrupted(old(self).queue(), old(self).running(), *general, *frame),
            ),
            final(self).pool() == old(self).pool(),
            final(self).running() == (old(self).queue().len() > 0),
            old(self).wf() ==> final(self).wf(),
            r.1 == if old(self).queue().len() > 0 {
                Some(final(self).queue()[0].spec_dispatch())
            } else {
                None
            },
    {
        let eoi = send_eoi_sequence(0);
        match self.current_task.take() {
            Some(mut current) => {
                current.preempt(general, frame);
                self.current_task = Some(current);
            },
            None => {},
        }
        proof {
            let saved = Self::interrupted(old(self).queue(), old(self).running(), *general, *frame);
            assert(self.queue() =~= saved);
            assert(self.order() =~= old(self).order());
        }
        let next = self.schedule_next_task();
        (eoi, next)
    }

    /// Makes a task from the image that `init` holds, as `add_task` does,
    /// and brings the next task on: where there was no task before, the new
    /// one is current then. Returns what the processor is given to run the
    /// current task and what is to be written into the frames of the new
    /// task's segments.
    ///
    /// On failure the queue, the current task and the pool's next
    /// identifier are what they were. It fails for want of a slot exactly
    /// when the pool's next identifier has none; with one that has a slot, a
    /// layout whose runs of pages fit, and as many free frames as the
    /// address space can need, it fails only where the image does not
    /// load.
    pub fn init_first_process<R: Readable, M: TableMemory, A: FrameAllocator>(
        &mut self,
        init: &R,
        layout: &KernelLayout,
        mem: &mut M,
        alloc: &mut A,
    ) -> (r: Result<(Dispatch, LoadedImage), TaskError>)
        requires
            old(self).wf(),
            old(self).pool().recycled().len() > 0 || old(self).pool().next_unused() < u64::MAX,
            old(alloc).wf(),
            backs(old(alloc), old(mem)),
        ensures
            final(self).wf(),
            only_free_touched(final(mem), final(alloc), old(mem), old(alloc).free_frames()),
            sound(old(self).queue(), old(mem), old(alloc).free_frames()) ==> sound(
                final(self).queue(),
                final(mem),
                final(alloc).free_frames(),
            ),
            match r {
                Ok((dispatch, image)) => {
                    let before = old(self).queue();
                    let place = Self::joining_place(old(self).running());
                    let at = if place == before.len() {
                        0
                    } else {
                        place + 1
                    };
                    let task = final(self).queue()[at];
                    &&& final(self).running()
                    &&& final(self).queue() == rotate(before.insert(place, task))
                    &&& final(self).pool().handed_out_from(&old(self).pool())
                    &&& dispatch == final(self).queue()[0].spec_dispatch()
                    &&& before.len() == 0 ==> dispatch.id == old(self).pool().next()
                    &&& task.id() == old(self).pool().next()
                    &&& task.page_table().wf(final(mem))
                    &&& image.loads(init.contents())
                    &&& image.mapped_by(&task.page_table(), final(mem))
                },
                Err(e) => {
                    &&& final(self).queue() == old(self).queue()
                    &&& final(self).running() == old(self).running()
                    &&& final(self).pool().next() == old(self).pool().next()
                    &&& e == TaskError::BadIdentifier <==> old(self).pool().next() >= MAX_TASKS
                },
            },
            old(self).pool().next() < MAX_TASKS && fits(*layout, old(self).pool().next()) && old(
                alloc,
            ).free_frames().finite() && old(alloc).free_frames().len() >= frames_for_address_space(
                *layout,
                old(self).pool().next(),
            ) ==> r is Ok || r matches Err(TaskError::Image(_)),
            r == Err::<(Dispatch, LoadedImage), TaskError>(TaskError::Image(ElfError::BadSegment))
                ==> has_unsound_segment(init.contents()),
            r matches Err(TaskError::Image(e)) ==> explains(
                init,
                e,
                old(alloc).free_frames(),
                frames_for_address_space(*layout, old(self).pool().next()),
                address_space_pages(*layout, old(self).pool().next()),
            ),
            r matches Err(e) ==> space_explains(
                e,
                *layout,
                old(self).pool().next(),
                old(alloc).free_frames(),
            ),
            old(self).pool().next() < MAX_TASKS && fits(*layout, old(self).pool().next())
                && loads_freely(
                init,
                old(alloc).free_frames(),
                frames_for_address_space(*layout, old(self).pool().next()),
                address_space_pages(*layout, old(self).pool().next()),
            ) ==> r is Ok,
            r is Ok ==> file_fault(init) is None,
    {
        let image = match self.add_task(init, layout, mem, alloc) {
            Ok(image) => image,
            Err(e) => {
                return Err(e);
            },
        };
        let ghost added = self.queue();
        let ghost place = Self::joining_place(old(self).running());
        let ghost task = added[place];
        proof {
            if sound(old(self).queue(), old(mem), old(alloc).free_frames()) {
                lemma_sound_rotate(added, mem, alloc.free_frames());
            }
            let after = rotate(added);
            if place == old(self).queue().len() {
                assert(after[0] == task);
            } else {
                assert(after[place + 1] == task);
            }
        }
        match self.schedule_next_task() {
            Some(dispatch) => Ok((dispatch, image)),
            None => vstd::pervasive::unreached(),
        }
    }

    /// Ends the task with the identifier `id`: takes it out of the queue,
    /// gives its identifier back to the pool and its frames back to
    /// `alloc`, as `Task::release` does. Returns nothing if no task has the
    /// identifier, and else whether `alloc` took all the frames; where it
    /// did not, it refused a table, a stack or a segment of the task.
    pub fn terminate<M: TableMemory, A: FrameAllocator>(
        &mut self,
        id: u64,
        mem: &M,
        alloc: &mut A,
    ) -> (r: Option<bool>)
        requires
            old(self).wf(),
            old(alloc).wf(),
            sound(old(self).queue(), mem, old(alloc).free_frames()),
        ensures
            final(self).wf(),
            final(alloc).wf(),
            final(self).queue() == Self::without(old(self).queue(), old(self).running(), id),
            sound(final(self).queue(), mem, final(alloc).free_frames()),
            old(alloc).free_frames().subset_of(final(alloc).free_frames()),
            match r {
                Some(all) => {
                    let at = Self::place_of(old(self).queue(), id);
                    &&& at < old(self).queue().len()
                    &&& final(alloc).free_frames().subset_of(
                        old(alloc).free_frames().union(old(self).queue()[at].footprint()),
                    )
                    &&& all ==> final(alloc).free_frames() == old(alloc).free_frames().union(
                        old(self).queue()[at].footprint(),
                    )
                    &&& !all ==> old(self).queue()[at].refused_between::<A>(
                        old(alloc).free_frames(),
                        final(alloc).free_frames(),
                    )
                    &&& old(self).queue()[at].page_table().released_or_refused::<A>(
                        old(alloc).free_frames(),
                        final(alloc).free_frames(),
                    )
                    &&& returned_or_refused::<A>(
                        old(alloc).free_frames(),
                        final(alloc).free_frames(),
                        old(self).queue()[at].kernel_stack_region(),
                    )
                    &&& returned_or_refused::<A>(
                        old(alloc).free_frames(),
                        final(alloc).free_frames(),
                        old(self).queue()[at].user_stack_region(),
                    )
                    &&& forall|i: int|
                        0 <= i < old(self).queue()[at].segments().len() ==> returned_or_refused::<
                            A,
                        >(
                            old(alloc).free_frames(),
                            final(alloc).free_frames(),
                            #[trigger] old(self).queue()[at].segments()[i],
                        )
                    &&& final(self).pool().next() == id
                },
                None => {
                    &&& Self::place_of(old(self).queue(), id) == old(self).queue().len()
                    &&& final(alloc).free_frames() == old(alloc).free_frames()
                    &&& final(self).pool() == old(self).pool()
                },
            },
    {
        let ghost before = old(self).queue();
        let ghost free0 = old(alloc).free_frames();
        proof {
            Self::lemma_place_bounds(before, id);
        }
        match self.remove_task(id) {
            None => None,
            Some(task) => {
                proof {
                    lemma_sound_without(before, old(self).running(), id, mem, free0);
                }
                let ghost footprint = task.footprint();
                let all = task.release(mem, alloc);
                proof {
                    lemma_sound_released(self.queue(), mem, alloc.free_frames(), free0, footprint);
                    if all {
                        assert(alloc.free_frames() =~= free0.union(footprint));
                    }
                }
                Some(all)
            },
        }
    }

    /// A rotation changes neither which identifiers the tasks have nor that
    /// they differ.
    proof fn lemma_rotate_keeps(order: Seq<u64>, pool: IdentifierGenerator)
        requires
            order.no_duplicates(),
            forall|i: int| 0 <= i < order.len() ==> pool.live().contains((#[trigger] order[i]) as int),
        ensures
            rotate(order).no_duplicates(),
            forall|i: int|
                0 <= i < rotate(order).len() ==> pool.live().contains(
                    (#[trigger] rotate(order)[i]) as int,
                ),
    {
        let after = rotate(order);
        let n = order.len() as int;
        assert forall|i: int| 0 <= i < after.len() implies pool.live().contains(
            (#[trigger] after[i]) as int,
        ) by {
            if i == 0 {
                assert(after[i] == order[n - 1]);
            } else {
                assert(after[i] == order[i - 1]);
            }
        }
        assert forall|i: int, j: int|
            0 <= i < after.len() && 0 <= j < after.len() && i != j implies after[i] != after[j] by {
            let a = if i == 0 { n - 1 } else { i - 1 };
            let b = if j == 0 { n - 1 } else { j - 1 };
            assert(after[i] == order[a]);
            assert(after[j] == order[b]);
        }
    }
}

} // verus!
