use kernel_process::process::process::{
    AddressSpace, Process, State, TrapFrame, WaitResult, WaitTarget, Wake, IDLE_PID, INIT_PID,
    KILL_CODE, MAX_PID,
};
use kernel_process::process::processor::Processor;

fn space(handle: usize) -> AddressSpace {
    AddressSpace { handle, kernel_stack: 0x1000 * handle, user_stack: 0x8000_0000 + handle }
}

fn frame() -> TrapFrame {
    TrapFrame { ip: 0x40_0000, sp: 0x7fff_0000, ret: 57, arg: 3, flags: 0x202, user: true }
}

fn boot() -> Processor {
    Processor::new(Process::new_init(space(1)), Process::new("idle", 0xdead, space(2)))
}

/// Adds a child of the current process.
fn fork_current(p: &mut Processor, handle: usize) -> usize {
    let child = p.current().fork(&frame(), space(handle));
    p.add(child)
}

fn state_of(p: &Processor, pid: usize) -> State {
    p.get(pid).unwrap().state()
}

#[test]
fn constants_have_their_values() {
    assert_eq!(INIT_PID, 1);
    assert_eq!(IDLE_PID, 2);
    assert_eq!(MAX_PID, i32::MAX as usize);
    assert_ne!(KILL_CODE, 0);
}

#[test]
fn new_table_holds_init_running_and_idle_ready() {
    let p = boot();
    assert_eq!(p.len(), 2);
    assert_eq!(p.current_pid(), INIT_PID);
    assert_eq!(p.current().pid(), INIT_PID);
    assert_eq!(p.current().name(), "init");
    assert_eq!(state_of(&p, INIT_PID), State::Running);
    assert_eq!(state_of(&p, IDLE_PID), State::Ready);
    assert_eq!(p.get(INIT_PID).unwrap().parent(), None);
    assert_eq!(p.get(IDLE_PID).unwrap().parent(), None);
    assert_eq!(p.get(INIT_PID).unwrap().space(), Some(space(1)));
    assert_eq!(p.get_time(), 0);
    assert!(p.can_add());
    assert!(p.get(3).is_none());
    assert!(p.get(0).is_none());
}

#[test]
fn constructors_seed_the_context() {
    let k = Process::new("worker", 0x1234, space(5));
    assert_eq!(k.pid(), 0);
    assert_eq!(k.name(), "worker");
    assert_eq!(k.state(), State::Ready);
    assert_eq!(k.context().sp, space(5).kernel_stack);
    assert_eq!(
        k.context().tf,
        TrapFrame { ip: 0x1234, sp: space(5).kernel_stack, ret: 0, arg: 0, flags: 0, user: false }
    );
    let u = Process::new_user(0x40_0000, space(6));
    assert_eq!(u.name(), "");
    assert_eq!(
        u.context().tf,
        TrapFrame { ip: 0x40_0000, sp: space(6).user_stack, ret: 0, arg: 0, flags: 0, user: true }
    );
    assert_eq!(u.space(), Some(space(6)));
    let i = Process::new_init(space(1));
    assert_eq!(i.pid(), INIT_PID);
    assert_eq!(i.state(), State::Running);
    assert_eq!(i.context().sp, 0);
}

#[test]
fn set_name_replaces_the_name_only() {
    let mut u = Process::new_user(0x40_0000, space(6));
    u.set_name("shell");
    assert_eq!(u.name(), "shell");
    assert_eq!(u.state(), State::Ready);
    assert_eq!(u.space(), Some(space(6)));
}

#[test]
fn fork_copies_the_frame_with_a_zero_result() {
    let p = boot();
    let tf = frame();
    let child = p.current().fork(&tf, space(9));
    assert_eq!(child.parent(), Some(INIT_PID));
    assert_eq!(child.name(), "init");
    assert_eq!(child.context().tf.ret, 0);
    assert_eq!(child.context().tf, TrapFrame { ret: 0, ..tf });
    assert_eq!(child.context().sp, space(9).kernel_stack);
    assert_eq!(child.space(), Some(space(9)));
    assert!(child.children().is_empty());
}

#[test]
fn add_hands_out_rising_pids_and_links_the_parent() {
    let mut p = boot();
    let a = p.add(Process::new_user(1, space(3)));
    assert_eq!(a, 3);
    let b = fork_current(&mut p, 4);
    assert_eq!(b, 4);
    let c = fork_current(&mut p, 5);
    assert_eq!(c, 5);
    assert_eq!(p.len(), 5);
    assert_eq!(p.get(3).unwrap().parent(), None);
    assert_eq!(p.get(4).unwrap().parent(), Some(INIT_PID));
    assert_eq!(p.get(5).unwrap().parent(), Some(INIT_PID));
    assert_eq!(p.get(INIT_PID).unwrap().children(), &vec![4, 5]);
    assert!(p.get(INIT_PID).unwrap().has_child(4));
    assert!(!p.get(INIT_PID).unwrap().has_child(3));
    assert_eq!(state_of(&p, 4), State::Ready);
    assert_eq!(p.current_pid(), INIT_PID);
    assert_eq!(state_of(&p, INIT_PID), State::Running);
}

#[test]
fn add_makes_any_process_ready_and_childless() {
    let mut p = boot();
    // A second init-like process is added as an ordinary ready one.
    let pid = p.add(Process::new_init(space(7)));
    assert_eq!(pid, 3);
    assert_eq!(p.get(3).unwrap().pid(), 3);
    assert_eq!(state_of(&p, 3), State::Ready);
    assert_eq!(state_of(&p, INIT_PID), State::Running);
}

#[test]
fn add_drops_a_parent_that_has_ended() {
    let mut p = boot();
    let user = p.add(Process::new_user(1, space(3)));
    let child = p.get(user).unwrap().fork(&frame(), space(4));
    assert!(p.exit(user, 0));
    let pid = p.add(child);
    assert_eq!(p.get(pid).unwrap().parent(), None);
    assert!(p.get(user).unwrap().children().is_empty());
}

#[test]
fn add_drops_a_parent_that_has_left_the_table() {
    let mut p = boot();
    let a = fork_current(&mut p, 3);
    let orphan = p.get(a).unwrap().fork(&frame(), space(4));
    assert!(p.exit(a, 0));
    assert_eq!(p.current_wait_for(WaitTarget::Proc(a)), WaitResult::Reaped(a, 0));
    let pid = p.add(orphan);
    assert_eq!(pid, 4);
    assert_eq!(p.get(pid).unwrap().parent(), None);
}

#[test]
fn try_add_gives_the_pid_while_pids_are_left() {
    let mut p = boot();
    assert_eq!(p.try_add(Process::new_user(1, space(3))), Some(3));
    assert_eq!(p.try_add(Process::new_user(1, space(4))), Some(4));
    assert!(p.take_released().is_empty());
}

#[test]
fn exit_makes_a_zombie_and_releases_its_space() {
    let mut p = boot();
    let a = fork_current(&mut p, 3);
    assert!(p.exit(a, 42));
    assert_eq!(state_of(&p, a), State::Zombie(42));
    assert_eq!(p.get(a).unwrap().space(), None);
    assert_eq!(p.len(), 3);
    assert_eq!(p.take_released(), vec![space(3)]);
    assert!(p.take_released().is_empty());
}

#[test]
fn exit_is_refused_for_idle_ended_and_unknown_processes() {
    let mut p = boot();
    let a = fork_current(&mut p, 3);
    assert!(!p.exit(IDLE_PID, 1));
    assert_eq!(state_of(&p, IDLE_PID), State::Ready);
    assert!(!p.exit(99, 1));
    assert!(!p.exit(0, 1));
    assert!(p.exit(a, 5));
    assert!(!p.exit(a, 6));
    assert_eq!(state_of(&p, a), State::Zombie(5));
    assert_eq!(p.take_released(), vec![space(3)]);
}

#[test]
fn exit_hands_the_children_to_init() {
    let mut p = boot();
    let user = p.add(Process::new_user(1, space(3)));
    let mut rsp = 0;
    p.schedule(&mut rsp);
    assert_eq!(p.current_pid(), user);
    let c1 = fork_current(&mut p, 4);
    let c2 = fork_current(&mut p, 5);
    assert!(p.exit(c1, 9));
    assert_eq!(p.get(user).unwrap().children(), &vec![c1, c2]);
    assert!(p.exit(user, 1));
    assert!(p.get(user).unwrap().children().is_empty());
    assert_eq!(p.get(c1).unwrap().parent(), Some(INIT_PID));
    assert_eq!(p.get(c2).unwrap().parent(), Some(INIT_PID));
    assert_eq!(p.get(INIT_PID).unwrap().children(), &vec![c1, c2]);
    assert_eq!(state_of(&p, c1), State::Zombie(9));
    assert_eq!(state_of(&p, c2), State::Ready);
}

#[test]
fn exit_of_init_keeps_its_children() {
    let mut p = boot();
    let a = fork_current(&mut p, 3);
    assert!(p.exit(INIT_PID, 3));
    assert_eq!(state_of(&p, INIT_PID), State::Zombie(3));
    assert_eq!(p.get(INIT_PID).unwrap().children(), &vec![a]);
    assert_eq!(p.get(a).unwrap().parent(), Some(INIT_PID));
}

#[test]
fn exit_wakes_a_parent_that_sleeps_until_a_child_ends() {
    let mut p = boot();
    let user = p.add(Process::new_user(1, space(3)));
    let mut rsp = 0;
    p.schedule(&mut rsp);
    let child = fork_current(&mut p, 4);
    p.schedule(&mut rsp);
    assert_eq!(p.current_pid(), child);
    assert!(p.sleep(user, 0));
    assert_eq!(state_of(&p, user), State::Sleeping(Wake::OnChildExit));
    assert!(p.exit(child, 0));
    assert_eq!(state_of(&p, user), State::Ready);
}

#[test]
fn exit_leaves_a_parent_in_a_timed_sleep_asleep() {
    let mut p = boot();
    let user = p.add(Process::new_user(1, space(3)));
    let mut rsp = 0;
    p.schedule(&mut rsp);
    let child = fork_current(&mut p, 4);
    p.schedule(&mut rsp);
    assert!(p.sleep(user, 10));
    assert!(p.exit(child, 0));
    assert_eq!(state_of(&p, user), State::Sleeping(Wake::At(10)));
}

#[test]
fn kill_ends_with_the_kill_code() {
    let mut p = boot();
    let a = fork_current(&mut p, 3);
    assert!(p.kill(a));
    assert_eq!(state_of(&p, a), State::Zombie(KILL_CODE));
    assert!(!p.kill(a));
    assert!(!p.kill(IDLE_PID));
    assert!(!p.kill(77));
}

#[test]
fn kill_of_the_current_process_does_not_switch() {
    let mut p = boot();
    let a = p.add(Process::new_user(1, space(3)));
    let mut rsp = 0;
    p.schedule(&mut rsp);
    assert_eq!(p.current_pid(), a);
    assert!(p.kill(a));
    assert_eq!(p.current_pid(), a);
    assert_eq!(state_of(&p, a), State::Zombie(KILL_CODE));
    p.schedule(&mut rsp);
    assert_eq!(p.current_pid(), INIT_PID);
    assert_eq!(state_of(&p, a), State::Zombie(KILL_CODE));
    for _ in 0..6 {
        p.schedule(&mut rsp);
        assert_ne!(p.current_pid(), a);
    }
}

#[test]
fn sleep_sets_the_deadline_from_the_tick_count() {
    let mut p = boot();
    let a = p.add(Process::new_user(1, space(3)));
    let mut rsp = 0;
    p.tick(&mut rsp);
    p.tick(&mut rsp);
    assert_eq!(p.get_time(), 2);
    let sleeper = if p.current_pid() == a { INIT_PID } else { a };
    assert!(p.sleep(sleeper, 5));
    assert_eq!(state_of(&p, sleeper), State::Sleeping(Wake::At(7)));
}

#[test]
fn sleep_is_refused_for_idle_sleeping_ended_and_unknown_processes() {
    let mut p = boot();
    let a = p.add(Process::new_user(1, space(3)));
    let b = p.add(Process::new_user(1, space(4)));
    assert!(!p.sleep(IDLE_PID, 3));
    assert_eq!(state_of(&p, IDLE_PID), State::Ready);
    assert!(!p.sleep(50, 3));
    assert!(p.sleep(a, 3));
    assert!(!p.sleep(a, 9));
    assert_eq!(state_of(&p, a), State::Sleeping(Wake::At(3)));
    assert!(p.exit(b, 0));
    assert!(!p.sleep(b, 1));
    assert_eq!(state_of(&p, b), State::Zombie(0));
}

#[test]
fn sleep_of_the_running_process_takes_effect_in_place() {
    let mut p = boot();
    assert!(p.sleep(INIT_PID, 2));
    assert_eq!(p.current_pid(), INIT_PID);
    assert_eq!(state_of(&p, INIT_PID), State::Sleeping(Wake::At(2)));
    let mut rsp = 0;
    p.schedule(&mut rsp);
    assert_eq!(p.current_pid(), IDLE_PID);
    assert_eq!(state_of(&p, INIT_PID), State::Sleeping(Wake::At(2)));
}

#[test]
fn sleeper_wakes_at_the_last_tick_of_its_sleep() {
    let mut p = boot();
    let a = p.add(Process::new_user(1, space(3)));
    let mut rsp = 0;
    assert!(p.sleep(a, 3));
    p.tick(&mut rsp);
    assert_eq!(state_of(&p, a), State::Sleeping(Wake::At(3)));
    p.schedule(&mut rsp);
    assert_eq!(state_of(&p, a), State::Sleeping(Wake::At(3)));
    p.tick(&mut rsp);
    assert_eq!(state_of(&p, a), State::Sleeping(Wake::At(3)));
    assert_ne!(p.current_pid(), a);
    p.tick(&mut rsp);
    assert_eq!(p.get_time(), 3);
    let s = state_of(&p, a);
    assert!(s == State::Ready || (s == State::Running && p.current_pid() == a));
}

#[test]
fn one_tick_sleep_ends_at_the_next_tick() {
    let mut p = boot();
    let a = p.add(Process::new_user(1, space(3)));
    let mut rsp = 0;
    assert!(p.sleep(a, 1));
    p.schedule(&mut rsp);
    assert_eq!(p.current_pid(), IDLE_PID);
    p.tick(&mut rsp);
    assert_eq!(state_of(&p, a), State::Running);
    assert_eq!(p.current_pid(), a);
}

#[test]
fn indefinite_sleeper_is_not_woken_by_ticks() {
    let mut p = boot();
    let a = p.add(Process::new_user(1, space(3)));
    let mut rsp = 0;
    assert!(p.sleep(a, 0));
    for _ in 0..10 {
        p.tick(&mut rsp);
        assert_eq!(state_of(&p, a), State::Sleeping(Wake::OnChildExit));
    }
}

#[test]
fn schedule_saves_and_restores_the_stack_pointer() {
    let mut p = boot();
    let a = p.add(Process::new_user(1, space(3)));
    let mut rsp: usize = 0xaaaa;
    p.schedule(&mut rsp);
    assert_eq!(p.current_pid(), a);
    assert_eq!(rsp, space(3).kernel_stack);
    assert_eq!(p.get(INIT_PID).unwrap().context().sp, 0xaaaa);
    assert_eq!(state_of(&p, INIT_PID), State::Ready);
    assert_eq!(state_of(&p, a), State::Running);
    rsp = 0xbbbb;
    p.schedule(&mut rsp);
    assert_eq!(p.current_pid(), INIT_PID);
    assert_eq!(rsp, 0xaaaa);
    assert_eq!(p.get(a).unwrap().context().sp, 0xbbbb);
}

#[test]
fn schedule_falls_back_to_idle() {
    let mut p = boot();
    let mut rsp: usize = 0x10;
    p.schedule(&mut rsp);
    assert_eq!(p.current_pid(), IDLE_PID);
    assert_eq!(state_of(&p, IDLE_PID), State::Running);
    assert_eq!(state_of(&p, INIT_PID), State::Ready);
    assert_eq!(rsp, space(2).kernel_stack);
    rsp = 0x20;
    p.schedule(&mut rsp);
    assert_eq!(p.current_pid(), INIT_PID);
    assert_eq!(state_of(&p, IDLE_PID), State::Ready);
    assert_eq!(rsp, 0x10);
}

#[test]
fn idle_keeps_the_cpu_when_nothing_is_ready() {
    let mut p = boot();
    let mut rsp: usize = 0x10;
    assert!(p.sleep(INIT_PID, 0));
    p.schedule(&mut rsp);
    assert_eq!(p.current_pid(), IDLE_PID);
    rsp = 0x30;
    p.schedule(&mut rsp);
    assert_eq!(p.current_pid(), IDLE_PID);
    assert_eq!(state_of(&p, IDLE_PID), State::Running);
    assert_eq!(rsp, 0x30);
    assert_eq!(p.get(IDLE_PID).unwrap().context().sp, 0x30);
}

#[test]
fn schedule_goes_round_in_rising_order_of_pid() {
    let mut p = boot();
    let a = p.add(Process::new_user(1, space(3)));
    let b = p.add(Process::new_user(1, space(4)));
    let c = p.add(Process::new_user(1, space(5)));
    let mut rsp = 0;
    let mut seen = Vec::new();
    for _ in 0..8 {
        p.schedule(&mut rsp);
        seen.push(p.current_pid());
    }
    assert_eq!(seen, vec![a, b, c, INIT_PID, a, b, c, INIT_PID]);
}

#[test]
fn schedule_passes_over_sleepers_and_zombies() {
    let mut p = boot();
    let a = p.add(Process::new_user(1, space(3)));
    let b = p.add(Process::new_user(1, space(4)));
    let c = p.add(Process::new_user(1, space(5)));
    assert!(p.sleep(a, 0));
    assert!(p.exit(b, 0));
    let mut rsp = 0;
    p.schedule(&mut rsp);
    assert_eq!(p.current_pid(), c);
    p.schedule(&mut rsp);
    assert_eq!(p.current_pid(), INIT_PID);
    p.schedule(&mut rsp);
    assert_eq!(p.current_pid(), c);
}

#[test]
fn every_ready_process_runs_within_as_many_switches() {
    let mut p = boot();
    let pids: Vec<usize> = (3..8).map(|h| p.add(Process::new_user(1, space(h)))).collect();
    let mut rsp = 0;
    p.schedule(&mut rsp);
    p.schedule(&mut rsp);
    assert_eq!(p.current_pid(), pids[1]);
    // Five processes are ready besides the current one: init and four others.
    let ready: Vec<usize> = (1..8)
        .filter(|&q| q != IDLE_PID && state_of(&p, q) == State::Ready)
        .collect();
    assert_eq!(ready, vec![INIT_PID, pids[0], pids[2], pids[3], pids[4]]);
    let mut seen = Vec::new();
    for i in 0..ready.len() {
        if i % 2 == 0 {
            p.schedule(&mut rsp);
        } else {
            p.tick(&mut rsp);
        }
        seen.push(p.current_pid());
    }
    for q in ready {
        assert!(seen.contains(&q));
    }
}

#[test]
fn tick_counts_and_switches() {
    let mut p = boot();
    let a = p.add(Process::new_user(1, space(3)));
    let mut rsp: usize = 0x77;
    p.tick(&mut rsp);
    assert_eq!(p.get_time(), 1);
    assert_eq!(p.current_pid(), a);
    assert_eq!(rsp, space(3).kernel_stack);
    p.tick(&mut rsp);
    assert_eq!(p.get_time(), 2);
    assert_eq!(p.current_pid(), INIT_PID);
    assert_eq!(rsp, 0x77);
}

#[test]
fn wait_without_children_finds_none() {
    let mut p = boot();
    p.add(Process::new_user(1, space(3)));
    assert_eq!(p.current_wait_for(WaitTarget::AnyChild), WaitResult::NotExist);
    assert_eq!(p.current_wait_for(WaitTarget::Proc(3)), WaitResult::NotExist);
    assert_eq!(p.current_wait_for(WaitTarget::Proc(IDLE_PID)), WaitResult::NotExist);
    assert_eq!(p.current_wait_for(WaitTarget::Proc(INIT_PID)), WaitResult::NotExist);
    assert_eq!(p.len(), 3);
}

#[test]
fn wait_with_live_children_blocks_and_changes_nothing() {
    let mut p = boot();
    let a = fork_current(&mut p, 3);
    let b = fork_current(&mut p, 4);
    assert_eq!(p.current_wait_for(WaitTarget::AnyChild), WaitResult::Blocked);
    assert_eq!(p.current_wait_for(WaitTarget::Proc(a)), WaitResult::Blocked);
    assert_eq!(p.current_wait_for(WaitTarget::Proc(b)), WaitResult::Blocked);
    assert_eq!(p.current_wait_for(WaitTarget::Proc(b + 1)), WaitResult::NotExist);
    assert_eq!(p.len(), 4);
    assert_eq!(p.current_pid(), INIT_PID);
    assert_eq!(state_of(&p, INIT_PID), State::Running);
    assert_eq!(p.get(INIT_PID).unwrap().children(), &vec![a, b]);
}

#[test]
fn wait_reaps_the_ended_child_with_the_lowest_pid() {
    let mut p = boot();
    let a = fork_current(&mut p, 3);
    let b = fork_current(&mut p, 4);
    let c = fork_current(&mut p, 5);
    assert!(p.exit(c, 30));
    assert!(p.exit(b, 20));
    assert_eq!(p.current_wait_for(WaitTarget::AnyChild), WaitResult::Reaped(b, 20));
    assert!(p.get(b).is_none());
    assert_eq!(p.len(), 4);
    assert_eq!(p.get(INIT_PID).unwrap().children(), &vec![a, c]);
    assert_eq!(p.current_wait_for(WaitTarget::AnyChild), WaitResult::Reaped(c, 30));
    assert_eq!(p.get(INIT_PID).unwrap().children(), &vec![a]);
    assert_eq!(p.current_wait_for(WaitTarget::AnyChild), WaitResult::Blocked);
    assert_eq!(state_of(&p, a), State::Ready);
}

#[test]
fn wait_for_one_child_leaves_other_zombies() {
    let mut p = boot();
    let a = fork_current(&mut p, 3);
    let b = fork_current(&mut p, 4);
    assert!(p.exit(a, 1));
    assert!(p.exit(b, 2));
    assert_eq!(p.current_wait_for(WaitTarget::Proc(b)), WaitResult::Reaped(b, 2));
    assert_eq!(state_of(&p, a), State::Zombie(1));
    assert_eq!(p.current_wait_for(WaitTarget::Proc(b)), WaitResult::NotExist);
    assert_eq!(p.current_wait_for(WaitTarget::Proc(a)), WaitResult::Reaped(a, 1));
    assert_eq!(p.current_wait_for(WaitTarget::AnyChild), WaitResult::NotExist);
}

#[test]
fn wait_sees_only_the_children_of_the_current_process() {
    let mut p = boot();
    let user = p.add(Process::new_user(1, space(3)));
    let a = fork_current(&mut p, 4);
    assert!(p.exit(a, 8));
    let mut rsp = 0;
    p.schedule(&mut rsp);
    assert_eq!(p.current_pid(), user);
    assert_eq!(p.current_wait_for(WaitTarget::Proc(a)), WaitResult::NotExist);
    assert_eq!(p.current_wait_for(WaitTarget::AnyChild), WaitResult::NotExist);
    assert_eq!(state_of(&p, a), State::Zombie(8));
}

#[test]
fn exit_then_wait_returns_the_code_once() {
    let mut p = boot();
    let a = fork_current(&mut p, 3);
    assert!(p.exit(a, 1234));
    assert_eq!(p.current_wait_for(WaitTarget::Proc(a)), WaitResult::Reaped(a, 1234));
    assert_eq!(p.current_wait_for(WaitTarget::Proc(a)), WaitResult::NotExist);
}

#[test]
fn killed_sleeper_is_reaped_with_the_kill_code_and_never_runs() {
    let mut p = boot();
    let a = fork_current(&mut p, 3);
    assert!(p.sleep(a, 2));
    assert!(p.kill(a));
    assert_eq!(state_of(&p, a), State::Zombie(KILL_CODE));
    let mut rsp = 0;
    for _ in 0..5 {
        p.tick(&mut rsp);
        assert_ne!(p.current_pid(), a);
        assert_eq!(state_of(&p, a), State::Zombie(KILL_CODE));
    }
    while p.current_pid() != INIT_PID {
        p.schedule(&mut rsp);
    }
    assert_eq!(p.current_wait_for(WaitTarget::AnyChild), WaitResult::Reaped(a, KILL_CODE));
    assert!(p.get(a).is_none());
}

#[test]
fn pids_are_not_handed_out_again() {
    let mut p = boot();
    let a = fork_current(&mut p, 3);
    assert!(p.exit(a, 0));
    assert_eq!(p.current_wait_for(WaitTarget::AnyChild), WaitResult::Reaped(a, 0));
    let b = fork_current(&mut p, 4);
    assert_eq!(b, a + 1);
    assert!(p.get(a).is_none());
}

#[test]
fn take_released_hands_out_each_space_once_oldest_first() {
    let mut p = boot();
    let a = fork_current(&mut p, 3);
    let b = fork_current(&mut p, 4);
    assert!(p.exit(b, 0));
    assert!(p.exit(a, 0));
    assert_eq!(p.take_released(), vec![space(4), space(3)]);
    assert!(p.take_released().is_empty());
    assert!(p.exit(INIT_PID, 0));
    assert_eq!(p.take_released(), vec![space(1)]);
}

#[test]
fn release_queues_a_space_for_the_memory_controller() {
    let mut p = boot();
    p.release(space(8));
    let a = fork_current(&mut p, 3);
    assert!(p.exit(a, 0));
    p.release(space(9));
    assert_eq!(p.take_released(), vec![space(8), space(3), space(9)]);
    assert_eq!(p.len(), 3);
}
