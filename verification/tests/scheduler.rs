use uos::heap::Allocator;
use uos::lock::Mutex;
use uos::task::Scheduler;
use uos::task::TaskCpuState;

fn arena() -> Mutex<Allocator> {
    Mutex::new(Allocator::new(0x10000))
}

fn frame_with_esp(esp: u32) -> TaskCpuState {
    TaskCpuState {
        edi: 0,
        esi: 0,
        ebp: 0,
        esp,
        ebx: 0,
        edx: 0,
        ecx: 0,
        eax: 0,
        eip: 0,
        cs: 0x08,
        eflags: 0x202,
    }
}

const ROOT_SP: u32 = 0x80000;
const TRAMPOLINE: u32 = 0x4000;

#[test]
fn init_installs_the_calling_context() {
    let mut s = Scheduler::new();
    s.init_curr_task(0, ROOT_SP);
    assert_eq!(s.curr_task_id(), 0);
    // the installed stack pointer: the live one rounded up to the slab
    // boundary, minus one word
    let f = s.restore_current_task_state();
    assert_eq!(f.esp, 0x80000 - 4);
}

#[test]
fn curr_task_id_without_a_task_is_max() {
    let mut s = Scheduler::new();
    assert_eq!(s.curr_task_id(), usize::MAX);
}

#[test]
fn created_tasks_get_fresh_ids_and_stacks() {
    let mut ga = arena();
    let mut s = Scheduler::new();
    s.init_curr_task(0, ROOT_SP);

    // the root task's slab is the 0x7F000 page; the first new task gets
    // the next lower slab, the second one the slab below that
    let (w1_addr, w1_val) = s.create(&mut ga, 0x1111, TRAMPOLINE, 0x08, 0x202).unwrap();
    assert_eq!(w1_addr, 0x7F000 - 4);
    assert_eq!(w1_val, 0x1111);

    let (w2_addr, w2_val) = s.create(&mut ga, 0x2222, TRAMPOLINE, 0x08, 0x202).unwrap();
    assert_eq!(w2_addr, 0x7E000 - 4);
    assert_eq!(w2_val, 0x2222);
}

#[test]
fn round_robin_visits_every_task_once_then_returns() {
    let mut ga = arena();
    let mut s = Scheduler::new();
    s.init_curr_task(0, ROOT_SP);

    let k = 4;
    for i in 0..k {
        let entry = 0x1000 + i as u32;
        s.create(&mut ga, entry, TRAMPOLINE, 0x08, 0x202).unwrap();
    }

    // k suspends from the original task visit tasks 1..=k in creation
    // order, each exactly once
    let mut seen = Vec::new();
    for i in 0..k {
        s.suspend(frame_with_esp(0x7F000 - 40 * (i as u32 + 1)));
        seen.push(s.curr_task_id());
    }
    assert_eq!(seen, vec![1, 2, 3, 4]);

    // one more suspend returns to the original task
    s.suspend(frame_with_esp(0x7B000 - 44));
    assert_eq!(s.curr_task_id(), 0);
}

#[test]
fn suspend_restores_the_saved_frame_on_the_next_round() {
    let mut ga = arena();
    let mut s = Scheduler::new();
    s.init_curr_task(0, ROOT_SP);
    s.create(&mut ga, 0x1111, TRAMPOLINE, 0x08, 0x202).unwrap();

    let root_frame = frame_with_esp(0x7FF80);
    s.suspend(root_frame); // task 1 runs
    let back = s.suspend(frame_with_esp(0x7E5A0)); // back to the root task
    assert_eq!(back, root_frame);
    assert_eq!(s.curr_task_id(), 0);
}

#[test]
fn suspend_with_nothing_queued_is_a_no_op() {
    let mut s = Scheduler::new();
    s.init_curr_task(7, ROOT_SP);
    let frame = frame_with_esp(0x7FFA0);
    let back = s.suspend(frame);
    // the sole runnable task keeps running: its own frame comes back
    assert_eq!(back, frame);
    assert_eq!(s.curr_task_id(), 7);
}

#[test]
fn switch_returns_the_stack_below_the_trap_frame() {
    let mut ga = arena();
    let mut s = Scheduler::new();
    s.init_curr_task(0, ROOT_SP);
    s.create(&mut ga, 0x1111, TRAMPOLINE, 0x08, 0x202).unwrap();

    // the trap layer's sequence around a yield: save, switch, restore
    s.save_current_task_state(frame_with_esp(0x7FF00));
    let sp = s.switch_task_and_get_new_stack_ptr();
    // the new current task's stack pointer minus the trap-frame offset;
    // its esp is the slab top minus the argument and reserved slots
    assert_eq!(sp, (0x7F000 - 4 - 16) - 32);
    let f = s.restore_current_task_state();
    assert_eq!(f.esp, 0x7F000 - 4 - 16);
    assert_eq!(f.eip, TRAMPOLINE);
    assert_eq!(f.cs, 0x08);
    assert_eq!(f.eflags, 0x202);
}

#[test]
fn exited_task_is_never_dispatched_again() {
    let mut ga = arena();
    let mut s = Scheduler::new();
    s.init_curr_task(0, ROOT_SP);
    s.create(&mut ga, 0xAAAA, TRAMPOLINE, 0x08, 0x202).unwrap(); // task a = 1
    s.create(&mut ga, 0xBBBB, TRAMPOLINE, 0x08, 0x202).unwrap(); // task b = 2

    // the root yields: task a runs first (FIFO)
    s.suspend(frame_with_esp(0x7FF40));
    assert_eq!(s.curr_task_id(), 1);

    // task a's entry function returns; the trampoline tail drops it
    s.task_wrapper(frame_with_esp(0x7EFC0));
    assert_eq!(s.curr_task_id(), 2);

    // subsequent yield cycles visit only task b and the root
    let mut seen = Vec::new();
    for i in 0..4 {
        s.suspend(frame_with_esp(0x7D000 - 40 * (i as u32 + 1)));
        seen.push(s.curr_task_id());
    }
    assert_eq!(seen, vec![0, 2, 0, 2]);
}

#[test]
fn end_to_end_fifo_order() {
    let mut ga = arena();
    let mut s = Scheduler::new();
    s.init_curr_task(0, ROOT_SP);
    s.create(&mut ga, 0xAAAA, TRAMPOLINE, 0x08, 0x202).unwrap(); // task a
    s.create(&mut ga, 0xBBBB, TRAMPOLINE, 0x08, 0x202).unwrap(); // task b

    // the root yields: execution order observed is a, b, root
    s.suspend(frame_with_esp(0x7FF40));
    assert_eq!(s.curr_task_id(), 1);
    s.suspend(frame_with_esp(0x7EFC0));
    assert_eq!(s.curr_task_id(), 2);
    s.suspend(frame_with_esp(0x7DFC0));
    assert_eq!(s.curr_task_id(), 0);
}

#[test]
fn max_tid_ignores_the_current_task() {
    let mut ga = arena();
    let mut s = Scheduler::new();
    s.init_curr_task(0, ROOT_SP);
    assert_eq!(s.get_max_tid(), 0);
    s.create(&mut ga, 0x1111, TRAMPOLINE, 0x08, 0x202).unwrap();
    s.create(&mut ga, 0x2222, TRAMPOLINE, 0x08, 0x202).unwrap();
    assert_eq!(s.get_max_tid(), 2);
}

#[test]
fn stack_scan_finds_the_lowest_slab() {
    let mut ga = arena();
    let mut s = Scheduler::new();
    s.init_curr_task(0, ROOT_SP);
    s.create(&mut ga, 0x1111, TRAMPOLINE, 0x08, 0x202).unwrap();
    // the queued task lives in the 0x7E000 slab now
    assert_eq!(s.get_stack_ptr(), 0x7E000 - 4);
}
