//! Cooperative round-robin task scheduler.
//!
//! The scheduler owns the current-task slot and a FIFO queue of runnable
//! tasks, the pair guarded by one lock and the queue held in a growable
//! buffer backed by the heap allocator. A task is created with a
//! synthesized register frame, waits its turn in the ready queue, runs
//! until it voluntarily suspends (re-entering the queue's tail) and is
//! dropped when its entry function returns. The platform's trap layer
//! drives every switch by calling, in order,
//! [`Scheduler::save_current_task_state`],
//! [`Scheduler::switch_task_and_get_new_stack_ptr`] and
//! [`Scheduler::restore_current_task_state`]; the scheduler never
//! transfers control itself, it only mutates the queue and returns
//! addresses. Reads of live processor state (the stack pointer, code
//! segment and flags register) come in as plain arguments from the
//! platform layer.
//!
//! Lock order: task creation allocates while holding the task-queue
//! lock, so the allocator lock must never be held when a scheduler entry
//! point is called; the dispatch step touches no allocator at all.

use vstd::prelude::*;
use crate::heap::Allocator;
use crate::heap::OutOfMemory;
use crate::lock::Mutex;
use crate::vec::GrowVec;

verus! {

/// Bytes in one task stack slab; stacks grow downward, one slab each.
pub const TASK_STACK_SIZE: u32 = 0x1000;

/// A saved processor context, in the fixed layout the trap layer pushes:
/// general-purpose registers, then instruction pointer, code-segment
/// selector and flags register.
#[derive(Clone, Copy, Debug, PartialEq, Eq, Structural)]
pub struct TaskCpuState {
    pub edi: u32,
    pub esi: u32,
    pub ebp: u32,
    pub esp: u32,
    pub ebx: u32,
    pub edx: u32,
    pub ecx: u32,
    pub eax: u32,
    pub eip: u32,
    pub cs: u32,
    pub eflags: u32,
}

/// A task: its identifier and its saved context.
#[derive(Clone, Copy, Debug, PartialEq, Eq, Structural)]
pub struct Task {
    pub tid: usize,
    pub cpu_state: TaskCpuState,
}

/// The current-task slot and the FIFO ready queue, guarded as one value.
struct TaskQueue {
    current: Option<Task>,
    ready: GrowVec<Task>,
}

/// The scheduler: the task queue behind its process-wide lock.
pub struct Scheduler {
    tasks: Mutex<TaskQueue>,
}

/// The all-zero register frame new contexts start from.
pub open spec fn null_state() -> TaskCpuState {
    TaskCpuState {
        edi: 0,
        esi: 0,
        ebp: 0,
        esp: 0,
        ebx: 0,
        edx: 0,
        ecx: 0,
        eax: 0,
        eip: 0,
        cs: 0,
        eflags: 0,
    }
}

fn zeroed_state() -> (r: TaskCpuState)
    ensures
        r == null_state(),
{
    TaskCpuState {
        edi: 0,
        esi: 0,
        ebp: 0,
        esp: 0,
        ebx: 0,
        edx: 0,
        ecx: 0,
        eax: 0,
        eip: 0,
        cs: 0,
        eflags: 0,
    }
}

/// The largest task id in the ready queue; 0 when it is empty.
pub open spec fn max_tid_of(s: Seq<Task>) -> int
    decreases s.len(),
{
    if s.len() == 0 {
        0
    } else if max_tid_of(s.drop_last()) >= s.last().tid {
        max_tid_of(s.drop_last())
    } else {
        s.last().tid as int
    }
}

/// The base of the stack slab a stack pointer lives in.
pub open spec fn page_of(esp: u32) -> int {
    (esp as int / 0x1000) * 0x1000
}

/// The lowest stack-slab base among the given tasks, starting from the
/// current task's.
pub open spec fn min_stack_page(cur_esp: u32, s: Seq<Task>) -> int
    decreases s.len(),
{
    if s.len() == 0 {
        page_of(cur_esp)
    } else if page_of(s.last().cpu_state.esp) < min_stack_page(cur_esp, s.drop_last()) {
        page_of(s.last().cpu_state.esp)
    } else {
        min_stack_page(cur_esp, s.drop_last())
    }
}

/// The stack pointer `init_curr_task` installs: the live stack pointer
/// rounded up to its slab's end, minus one word.
pub open spec fn init_task_esp(cur_sp: u32) -> int {
    ((cur_sp + 0xFFF) / 0x1000) * 0x1000 - 4
}

impl Scheduler {
    /// The task occupying the current slot.
    pub closed spec fn current(self) -> Option<Task> {
        self.tasks.guarded_val().current
    }

    /// The runnable tasks, in the order they will be dispatched.
    pub closed spec fn ready(self) -> Seq<Task> {
        self.tasks.guarded_val().ready@
    }

    /// Room reserved in the ready queue's buffer.
    pub closed spec fn ready_cap(self) -> int {
        self.tasks.guarded_val().ready.spec_cap()
    }

    /// The region block backing the ready queue's buffer.
    pub closed spec fn ready_backing(self) -> Option<int> {
        self.tasks.guarded_val().ready.backing()
    }

    /// The queue lock is free between entry points, and the ready
    /// queue's buffer is well formed.
    pub closed spec fn wf(self) -> bool {
        &&& !self.tasks.is_locked()
        &&& self.tasks.guarded_val().ready.wf()
    }

    /// The ready queue's buffer is backed by a live block of `a`.
    pub closed spec fn backed_by(self, a: Allocator) -> bool {
        self.tasks.guarded_val().ready.backed_by(a)
    }

    /// A scheduler with no current task and an empty ready queue; the
    /// whole pair sits behind a fresh lock.
    pub fn new() -> (s: Scheduler)
        ensures
            s.wf(),
            s.current() is None,
            s.ready() == Seq::<Task>::empty(),
            s.ready_cap() == 0,
            s.ready_backing() is None,
    {
        Scheduler {
            tasks: Mutex::new(TaskQueue { current: None, ready: GrowVec::new() }),
        }
    }

    /// Installs the calling execution context as the current task: its
    /// stack pointer is the live one rounded up to the slab boundary,
    /// minus one word. `cur_sp` is the live stack pointer, read by the
    /// platform layer.
    pub fn init_curr_task(&mut self, ttid: usize, cur_sp: u32)
        requires
            old(self).wf(),
            1 <= cur_sp <= u32::MAX - 0xFFF,
        ensures
            final(self).wf(),
            final(self).ready() == old(self).ready(),
            final(self).ready_cap() == old(self).ready_cap(),
            final(self).ready_backing() == old(self).ready_backing(),
            final(self).current() == Some(
                Task {
                    tid: ttid,
                    cpu_state: TaskCpuState { esp: init_task_esp(cur_sp) as u32, ..null_state() },
                },
            ),
    {
        let mut cur_task = Task { tid: ttid, cpu_state: zeroed_state() };

        proof {
            lemma_round_up_page(cur_sp);
        }
        // rounding the live stack location up to the slab boundary
        let task_sp = ((cur_sp + (TASK_STACK_SIZE - 1)) & !(TASK_STACK_SIZE - 1)) - 4;

        cur_task.cpu_state.esp = task_sp;

        let _guard = self.tasks.lock();
        let mut q = self.tasks.replace_guarded(TaskQueue { current: None, ready: GrowVec::new() });
        q.current = Some(cur_task);
        let _ = self.tasks.replace_guarded(q);
        self.tasks.unlock();
    }

    /// The largest task id in the ready queue, 0 when it is empty; ids
    /// of exited tasks are not consulted — and neither is the current
    /// task's, so a task id can recur when the current task holds the
    /// maximum while the queue drains (ids are meant to be monotonic and
    /// never reused, but this rule, which the data model itself
    /// prescribes, does not quite achieve that).
    pub fn get_max_tid(&mut self) -> (r: usize)
        requires
            old(self).wf(),
        ensures
            *final(self) == *old(self),
            r == max_tid_of(old(self).ready()),
    {
        let mut max_tid: usize = 0;

        let _guard = self.tasks.lock();
        let q = self.tasks.borrow_guarded();

        let n = q.ready.len();
        let mut i: usize = 0;
        while i < n
            invariant
                0 <= i <= n,
                n == q.ready@.len(),
                max_tid == max_tid_of(q.ready@.take(i as int)),
            decreases n - i,
        {
            proof {
                assert(q.ready@.take(i + 1).drop_last() =~= q.ready@.take(i as int));
            }
            let t = q.ready.get(i);
            if t.tid > max_tid {
                max_tid = t.tid;
            }
            i += 1;
        }
        proof {
            assert(q.ready@.take(n as int) =~= q.ready@);
        }

        self.tasks.unlock();
        proof {
            crate::lock::lemma_mutex_parts_equal(self.tasks, old(self).tasks);
        }

        max_tid
    }

    /// The next lower slab's top: scans the stack pointers of the
    /// current task and every queued task for the lowest in-use slab and
    /// points one word below its base. The current task must be set (the
    /// kernel halts otherwise), and the slab below must exist.
    pub fn get_stack_ptr(&mut self) -> (r: u32)
        requires
            old(self).wf(),
            old(self).current() is Some,
            min_stack_page(old(self).current().unwrap().cpu_state.esp, old(self).ready())
                >= 0x1000,
        ensures
            *final(self) == *old(self),
            r == min_stack_page(old(self).current().unwrap().cpu_state.esp, old(self).ready())
                - 4,
    {
        let _guard = self.tasks.lock();
        let q = self.tasks.borrow_guarded();

        let cur_esp = match &q.current {
            Some(cur_task) => cur_task.cpu_state.esp,
            // the current task is always set here; the kernel halts if not
            None => unreached(),
        };
        let mut min_page: u32 = cur_esp & !(TASK_STACK_SIZE - 1);
        proof {
            lemma_page_mask(cur_esp);
        }

        let ghost ready = q.ready@;
        let n = q.ready.len();
        let mut i: usize = 0;
        while i < n
            invariant
                0 <= i <= n,
                n == ready.len(),
                ready == q.ready@,
                min_page == min_stack_page(cur_esp, ready.take(i as int)),
            decreases n - i,
        {
            proof {
                assert(ready.take(i + 1).drop_last() =~= ready.take(i as int));
            }
            let esp = q.ready.get(i).cpu_state.esp;
            let stack_page = esp & !(TASK_STACK_SIZE - 1);
            proof {
                lemma_page_mask(esp);
            }
            if stack_page < min_page {
                min_page = stack_page;
            }
            i += 1;
        }
        proof {
            assert(ready.take(n as int) =~= ready);
        }

        self.tasks.unlock();
        proof {
            crate::lock::lemma_mutex_parts_equal(self.tasks, old(self).tasks);
        }

        min_page - 4
    }

    /// The current task's id, or `usize::MAX` when no task holds the
    /// slot.
    pub fn curr_task_id(&mut self) -> (r: usize)
        requires
            old(self).wf(),
        ensures
            *final(self) == *old(self),
            r == match old(self).current() {
                Some(t) => t.tid as int,
                None => usize::MAX as int,
            },
    {
        let _guard = self.tasks.lock();
        let q = self.tasks.borrow_guarded();

        let r = match &q.current {
            Some(ct) => ct.tid,
            None => usize::MAX,
        };

        self.tasks.unlock();
        proof {
            crate::lock::lemma_mutex_parts_equal(self.tasks, old(self).tasks);
        }
        r
    }

    /// Empties the current slot: the task that occupied it has exited
    /// and its descriptor is dropped.
    pub fn reset_curr_task(&mut self)
        requires
            old(self).wf(),
        ensures
            final(self).wf(),
            final(self).current() is None,
            final(self).ready() == old(self).ready(),
            final(self).ready_cap() == old(self).ready_cap(),
            final(self).ready_backing() == old(self).ready_backing(),
    {
        let _guard = self.tasks.lock();
        let mut q = self.tasks.replace_guarded(TaskQueue { current: None, ready: GrowVec::new() });
        q.current = None;
        let _ = self.tasks.replace_guarded(q);
        self.tasks.unlock();
    }

    /// Copies the trapping context's register frame into the current
    /// task's descriptor; without a current task nothing is saved.
    pub fn save_current_task_state(&mut self, frame: TaskCpuState)
        requires
            old(self).wf(),
        ensures
            final(self).wf(),
            final(self).ready() == old(self).ready(),
            final(self).ready_cap() == old(self).ready_cap(),
            final(self).ready_backing() == old(self).ready_backing(),
            final(self).current() == match old(self).current() {
                Some(t) => Some(Task { tid: t.tid, cpu_state: frame }),
                None => None::<Task>,
            },
    {
        let _guard = self.tasks.lock();
        let mut q = self.tasks.replace_guarded(TaskQueue { current: None, ready: GrowVec::new() });

        if let Some(cur_task) = &q.current {
            let tid = cur_task.tid;
            q.current = Some(Task { tid, cpu_state: frame });
        }

        let _ = self.tasks.replace_guarded(q);
        self.tasks.unlock();
    }

    /// Hands out the new current task's saved register frame, for the
    /// trap layer to reload. The current task must be set (the kernel
    /// halts otherwise).
    pub fn restore_current_task_state(&mut self) -> (r: TaskCpuState)
        requires
            old(self).wf(),
            old(self).current() is Some,
        ensures
            *final(self) == *old(self),
            r == old(self).current().unwrap().cpu_state,
    {
        let _guard = self.tasks.lock();
        let q = self.tasks.borrow_guarded();

        let r = match &q.current {
            Some(cur_task) => cur_task.cpu_state,
            // the current task is always set here; the kernel halts if not
            None => unreached(),
        };

        self.tasks.unlock();
        proof {
            crate::lock::lemma_mutex_parts_equal(self.tasks, old(self).tasks);
        }
        r
    }
}

/// One dispatch step: the head of the ready queue becomes current and a
/// previously current task re-enters at the tail (round-robin); with an
/// empty queue the current task, if any, simply keeps running.
pub open spec fn dispatch_step(cur: Option<Task>, ready: Seq<Task>) -> (Option<Task>, Seq<Task>) {
    if ready.len() > 0 {
        (
            Some(ready[0]),
            if cur is Some {
                ready.drop_first().push(cur.unwrap())
            } else {
                ready.drop_first()
            },
        )
    } else {
        (cur, ready)
    }
}

/// The stack pointer of the task one dispatch step installs as current.
pub open spec fn dispatch_esp(cur: Option<Task>, ready: Seq<Task>) -> int {
    if ready.len() > 0 {
        ready[0].cpu_state.esp as int
    } else if cur is Some {
        cur.unwrap().cpu_state.esp as int
    } else {
        0
    }
}

/// The current slot after the trapping context's frame has been saved
/// into it.
pub open spec fn saved_current(cur: Option<Task>, frame: TaskCpuState) -> Option<Task> {
    match cur {
        Some(t) => Some(Task { tid: t.tid, cpu_state: frame }),
        None => None,
    }
}

/// The state after `n` dispatch steps.
pub open spec fn dispatch_n(cur: Option<Task>, ready: Seq<Task>, n: nat) -> (
    Option<Task>,
    Seq<Task>,
)
    decreases n,
{
    if n == 0 {
        (cur, ready)
    } else {
        let prev = dispatch_n(cur, ready, (n - 1) as nat);
        dispatch_step(prev.0, prev.1)
    }
}

/// Whether some task in the state carries the given id.
pub open spec fn holds_tid(cur: Option<Task>, ready: Seq<Task>, tid: usize) -> bool {
    ||| (cur is Some && cur.unwrap().tid == tid)
    ||| exists|i: int| 0 <= i < ready.len() && ready[i].tid == tid
}

impl Scheduler {
    /// The dispatch step consumed by the trap layer: pops the ready
    /// queue's head; if one was there, re-enqueues the current task (if
    /// any) at the tail, installs the popped task as current and returns
    /// its stack pointer minus the trap-frame offset; with an empty
    /// queue the sole runnable task keeps running and its own stack
    /// pointer comes back unchanged but for the offset. With nothing to
    /// run at all the kernel halts, so that state is excluded. No
    /// allocator is touched: re-enqueuing fills the slot the pop just
    /// vacated.
    pub fn switch_task_and_get_new_stack_ptr(&mut self) -> (r: u32)
        requires
            old(self).wf(),
            old(self).current() is Some || old(self).ready().len() > 0,
            dispatch_esp(old(self).current(), old(self).ready()) >= 32,
        ensures
            final(self).wf(),
            final(self).ready_cap() == old(self).ready_cap(),
            final(self).ready_backing() == old(self).ready_backing(),
            (final(self).current(), final(self).ready()) == dispatch_step(
                old(self).current(),
                old(self).ready(),
            ),
            r == dispatch_esp(old(self).current(), old(self).ready()) - 32,
    {
        let _guard = self.tasks.lock();
        let mut q = self.tasks.replace_guarded(TaskQueue { current: None, ready: GrowVec::new() });

        proof {
            crate::vec::lemma_wf_len_le_cap(q.ready);
        }
        let task_queue_head = q.ready.pop_front();
        let r = if let Some(next_task) = task_queue_head {
            if let Some(cur_task) = &q.current {
                // placing the suspended task at the end of the queue; the
                // pop just vacated a slot, so no growth is needed
                let ct = *cur_task;
                q.ready.push_within_cap(ct);
            }

            let next_task_esp = next_task.cpu_state.esp;

            q.current = Some(next_task);

            next_task_esp - 32
        } else {
            match &q.current {
                Some(cur_task) => cur_task.cpu_state.esp - 32,
                // nothing left to run: the kernel halts here
                None => unreached(),
            }
        };

        let _ = self.tasks.replace_guarded(q);
        self.tasks.unlock();
        r
    }

    /// One cooperative yield, as the trap layer performs it around a
    /// trap: the trapping context's frame is saved into the current
    /// task, the dispatch step runs, and the new current task's saved
    /// frame comes back for the trap layer to reload. With an empty
    /// ready queue this is a no-op: the caller's own frame comes back.
    pub fn suspend(&mut self, frame: TaskCpuState) -> (r: TaskCpuState)
        requires
            old(self).wf(),
            old(self).current() is Some || old(self).ready().len() > 0,
            old(self).ready().len() > 0 ==> old(self).ready()[0].cpu_state.esp >= 32,
            old(self).ready().len() == 0 ==> frame.esp >= 32,
        ensures
            final(self).wf(),
            final(self).ready_cap() == old(self).ready_cap(),
            final(self).ready_backing() == old(self).ready_backing(),
            (final(self).current(), final(self).ready()) == dispatch_step(
                saved_current(old(self).current(), frame),
                old(self).ready(),
            ),
            old(self).ready().len() > 0 ==> r == old(self).ready()[0].cpu_state,
            old(self).ready().len() == 0 ==> r == frame,
    {
        self.save_current_task_state(frame);
        let _sp = self.switch_task_and_get_new_stack_ptr();
        self.restore_current_task_state()
    }

    /// The tail of the trampoline every task starts in. The platform
    /// layer has just run the task's entry function to completion: the
    /// current slot is cleared — the task is exited, its descriptor
    /// dropped and never dispatched again — and execution is handed off
    /// with a final yield. Were the ready queue empty there would be
    /// nothing left to run and the kernel halts, so that state is
    /// excluded; resuming past the hand-off would be a fatal scheduler
    /// violation and cannot arise here.
    pub fn task_wrapper(&mut self, frame: TaskCpuState) -> (r: TaskCpuState)
        requires
            old(self).wf(),
            old(self).ready().len() > 0,
            old(self).ready()[0].cpu_state.esp >= 32,
        ensures
            final(self).wf(),
            final(self).ready_cap() == old(self).ready_cap(),
            final(self).ready_backing() == old(self).ready_backing(),
            final(self).current() == Some(old(self).ready()[0]),
            final(self).ready() == old(self).ready().drop_first(),
            r == old(self).ready()[0].cpu_state,
    {
        self.reset_curr_task();

        self.suspend(frame)
    }

    /// Creates a task: its id is one past the largest id in the ready
    /// queue; its stack is the next slab below the lowest one in use;
    /// its synthesized frame starts at the trampoline with the creating
    /// task's code segment and flags, the stack pointer leaving room for
    /// the trampoline's argument and reserved slots. Returns the write
    /// the platform layer must perform — the task's entry function
    /// pointer, pre-written at the top of the new stack — or
    /// [`OutOfMemory`] exactly when the queue's buffer is full and the
    /// allocator cannot serve a larger one, in which case nothing
    /// changes.
    pub fn create(
        &mut self,
        glob_alloc: &mut Mutex<Allocator>,
        entry_fn: u32,
        trampoline: u32,
        cs: u32,
        eflags: u32,
    ) -> (r: Result<(u32, u32), OutOfMemory>)
        requires
            old(self).wf(),
            old(self).backed_by(old(glob_alloc).guarded_val()),
            !old(glob_alloc).is_locked(),
            old(glob_alloc).guarded_val().wf(),
            old(self).current() is Some,
            min_stack_page(old(self).current().unwrap().cpu_state.esp, old(self).ready())
                >= 0x1000,
            max_tid_of(old(self).ready()) < usize::MAX,
            old(self).ready().len() == old(self).ready_cap() ==> crate::vec::can_grow::<Task>(
                old(self).ready_cap(),
            ),
        ensures
            !final(glob_alloc).is_locked(),
            final(glob_alloc).guarded_val().wf(),
            final(glob_alloc).guarded_val().n_units() == old(glob_alloc).guarded_val().n_units(),
            final(self).wf(),
            final(self).current() == old(self).current(),
            r is Ok <==> (old(self).ready().len() < old(self).ready_cap() || old(glob_alloc).guarded_val().can_fit(
                crate::vec::bytes_for::<Task>(crate::vec::grown_cap(old(self).ready_cap())),
            )),
            match r {
                Ok(w) => {
                    &&& final(self).ready() == old(self).ready().push(
                        spec_created_task(
                            old(self).ready(),
                            old(self).current().unwrap().cpu_state.esp,
                            trampoline,
                            cs,
                            eflags,
                        ),
                    )
                    &&& w.0 == min_stack_page(
                        old(self).current().unwrap().cpu_state.esp,
                        old(self).ready(),
                    ) - 4
                    &&& w.1 == entry_fn
                    &&& final(self).backed_by(final(glob_alloc).guarded_val())
                    &&& if old(self).ready().len() < old(self).ready_cap() {
                        final(self).ready_cap() == old(self).ready_cap() && final(self).ready_backing() == old(self).ready_backing() && final(glob_alloc).guarded_val().live_blocks() == old(glob_alloc).guarded_val().live_blocks()
                    } else {
                        final(self).ready_cap() == crate::vec::grown_cap(old(self).ready_cap())
                            && final(self).ready_backing() is Some && final(glob_alloc).guarded_val().live_blocks() == crate::vec::relink_backing(
                            old(glob_alloc).guarded_val().live_blocks(),
                            old(self).ready_backing(),
                            final(self).ready_backing().unwrap(),
                            crate::heap::units_of(
                                crate::vec::bytes_for::<Task>(
                                    crate::vec::grown_cap(old(self).ready_cap()),
                                ),
                            ),
                        )
                    }
                },
                Err(e) => {
                    &&& final(self).ready() == old(self).ready()
                    &&& final(self).ready_cap() == old(self).ready_cap()
                    &&& final(self).ready_backing() == old(self).ready_backing()
                    &&& final(glob_alloc).guarded_val().live_blocks() == old(glob_alloc).guarded_val().live_blocks()
                },
            },
    {
        let max_tid = self.get_max_tid();
        let stack_top = self.get_stack_ptr();

        let mut new_task = Task { tid: max_tid + 1, cpu_state: zeroed_state() };

        new_task.cpu_state.eip = trampoline;
        new_task.cpu_state.esp = stack_top;

        // the task body function's pointer belongs at the top of the new
        // stack; the platform layer performs that write, so it is handed
        // back to the caller
        // below it, space is reserved for a bogus return value (the
        // trampoline never returns): four 32-bit slots
        new_task.cpu_state.esp -= 16;

        // using the creating task's code segment and flags
        new_task.cpu_state.cs = cs;
        new_task.cpu_state.eflags = eflags;

        let _guard = self.tasks.lock();
        let mut q = self.tasks.replace_guarded(TaskQueue { current: None, ready: GrowVec::new() });

        // placing the new task at the queue's tail; the buffer may have
        // to grow, which allocates under the queue lock — the allocator
        // lock is taken and released inside
        let res = q.ready.push(glob_alloc, new_task);

        let _ = self.tasks.replace_guarded(q);
        self.tasks.unlock();

        match res {
            Ok(u) => Ok((stack_top, entry_fn)),
            Err(e) => Err(e),
        }
    }
}

/// The task `create` synthesizes, given the queue it is born from, the
/// creating task's stack pointer, the trampoline address and the
/// creating task's code segment and flags.
pub open spec fn spec_created_task(
    ready: Seq<Task>,
    cur_esp: u32,
    trampoline: u32,
    cs: u32,
    eflags: u32,
) -> Task {
    Task {
        tid: (max_tid_of(ready) + 1) as usize,
        cpu_state: TaskCpuState {
            eip: trampoline,
            esp: (min_stack_page(cur_esp, ready) - 4 - 16) as u32,
            cs: cs,
            eflags: eflags,
            ..null_state()
        },
    }
}

/// After `j` yields from a running task with `k` others queued
/// (`1 <= j <= k`), the `j`-th queued task holds the current slot, and
/// the queue holds the not-yet-visited tasks, then the task that started
/// the round, then the already-visited ones — all in order.
proof fn lemma_dispatch_state(cur: Task, ready: Seq<Task>, j: int)
    requires
        1 <= j <= ready.len(),
    ensures
        dispatch_n(Some(cur), ready, j as nat) == (
            Some(ready[j - 1]),
            ready.skip(j) + Seq::empty().push(cur) + ready.take(j - 1),
        ),
    decreases j,
{
    if j == 1 {
        assert(ready.drop_first().push(cur) =~= ready.skip(1) + Seq::empty().push(cur)
            + ready.take(0));
    } else {
        lemma_dispatch_state(cur, ready, j - 1);
        let mid = ready.skip(j - 1) + Seq::empty().push(cur) + ready.take(j - 2);
        assert(dispatch_n(Some(cur), ready, (j - 1) as nat) == (Some(ready[j - 2]), mid));
        assert(mid.len() > 0);
        assert(mid[0] == ready[j - 1]);
        assert(mid.drop_first().push(ready[j - 2]) =~= ready.skip(j) + Seq::empty().push(cur)
            + ready.take(j - 1));
    }
}

/// Round-robin fairness, first half: with `k` tasks queued behind a
/// running task, the `(i + 1)`-th yield makes the `i`-th queued task
/// current — every queued task is visited exactly once, in queue order,
/// before the round closes.
pub proof fn lemma_round_robin_visits_each_once(cur: Task, ready: Seq<Task>, i: int)
    requires
        0 <= i < ready.len(),
    ensures
        dispatch_n(Some(cur), ready, (i + 1) as nat).0 == Some(ready[i]),
{
    lemma_dispatch_state(cur, ready, i + 1);
}

/// Round-robin fairness, second half: after every queued task has run
/// once, one more yield hands the processor back to the task that
/// started the round, with the queue exactly as it began.
pub proof fn lemma_round_robin_returns(cur: Task, ready: Seq<Task>)
    requires
        ready.len() > 0,
    ensures
        dispatch_n(Some(cur), ready, (ready.len() + 1) as nat) == (Some(cur), ready),
{
    let k = ready.len() as int;
    lemma_dispatch_state(cur, ready, k);
    let mid = ready.skip(k) + Seq::empty().push(cur) + ready.take(k - 1);
    assert(dispatch_n(Some(cur), ready, k as nat) == (Some(ready[k - 1]), mid));
    assert(mid.len() > 0);
    assert(mid[0] == cur);
    assert(mid.drop_first().push(ready[k - 1]) =~= ready);
}

/// One dispatch step brings no task id out of nowhere.
proof fn lemma_step_keeps_tids_out(cur: Option<Task>, ready: Seq<Task>, tid: usize)
    requires
        !holds_tid(cur, ready, tid),
    ensures
        !holds_tid(dispatch_step(cur, ready).0, dispatch_step(cur, ready).1, tid),
{
    if ready.len() > 0 {
        let r2 = dispatch_step(cur, ready).1;
        assert(ready[0].tid != tid);
        assert forall|i: int| 0 <= i < r2.len() implies r2[i].tid != tid by {
            if i < ready.len() - 1 {
                assert(r2[i] == ready[i + 1]);
            } else {
                assert(cur is Some && r2[i] == cur.unwrap());
            }
        }
    }
}

/// A task that has exited is gone for good: once its id is in neither
/// the current slot nor the ready queue, no number of dispatch steps
/// ever brings it back — it is never dispatched again.
pub proof fn lemma_exited_task_never_dispatched(
    cur: Option<Task>,
    ready: Seq<Task>,
    tid: usize,
    n: nat,
)
    requires
        !holds_tid(cur, ready, tid),
    ensures
        !holds_tid(dispatch_n(cur, ready, n).0, dispatch_n(cur, ready, n).1, tid),
    decreases n,
{
    if n > 0 {
        lemma_exited_task_never_dispatched(cur, ready, tid, (n - 1) as nat);
        let prev = dispatch_n(cur, ready, (n - 1) as nat);
        lemma_step_keeps_tids_out(prev.0, prev.1, tid);
    }
}

/// Rounding up to a slab boundary with the mask equals the arithmetic
/// rounding.
proof fn lemma_round_up_page(sp: u32)
    requires
        sp <= u32::MAX - 0xFFF,
    ensures
        ((sp + 0xFFF) as u32 & !(0xFFFu32)) == ((sp + 0xFFF) / 0x1000) * 0x1000,
        init_task_esp(sp) + 4 == ((sp + 0xFFF) as u32 & !(0xFFFu32)),
        1 <= sp ==> 0x1000 <= init_task_esp(sp) + 4,
{
    assert(((sp + 0xFFF) as u32 & !(0xFFFu32)) == ((sp + 0xFFF) as u32 / 0x1000) * 0x1000)
        by (bit_vector);
    assert(1 <= sp && sp <= u32::MAX - 0xFFF ==> 0x1000 <= ((sp + 0xFFF) as u32 / 0x1000)
        * 0x1000) by (bit_vector);
}

/// Masking a stack pointer down to its slab base equals the arithmetic
/// page computation.
proof fn lemma_page_mask(esp: u32)
    ensures
        (esp & !(0xFFFu32)) == page_of(esp),
{
    assert((esp & !(0xFFFu32)) == (esp / 0x1000) * 0x1000) by (bit_vector);
}

} // verus!
