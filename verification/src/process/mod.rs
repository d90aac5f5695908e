//! The kernel-call layer over the process table.
//!
//! Each function here is one entry into the kernel: it performs one
//! operation on the table that its caller holds, and returns what the
//! calling process sees, where a negative number stands for failure.
//! The caller owns the table and whatever guards it, asks the memory
//! controller for address spaces beforehand, and hands the released ones
//! back to it afterwards.

pub mod laws;
pub mod model;
pub mod process;
pub mod processor;
mod storage;

use vstd::prelude::*;
use crate::process::model::TableView;
use crate::process::process::{
    fork_view, init_view, kernel_view, user_view, AddressSpace, ErrorCode, Pid, Process,
    ProcessView, State, TrapFrame, WaitResult, WaitTarget,
};
use crate::process::processor::Processor;

verus! {

/// What a kernel call's pid argument asks a wait for: zero stands for any
/// child.
pub open spec fn wait_target(pid: usize) -> WaitTarget {
    if pid == 0 {
        WaitTarget::AnyChild
    } else {
        WaitTarget::Proc(pid)
    }
}

/// Whether a fork by the current process gives a child: the memory
/// controller gave a copy of its address space, the caller has not ended,
/// and a pid is left.
pub open spec fn can_fork(s: TableView, space: Option<AddressSpace>) -> bool {
    &&& space is Some
    &&& !(s.procs[s.current].state is Zombie)
    &&& s.can_add()
}

/// The table that a fork by the current process at the trap frame `tf`
/// leaves: with the child in `space`, where the fork gives one; else as it
/// was, but for `space`, which joins the released address spaces.
pub open spec fn forked(s: TableView, tf: TrapFrame, space: Option<AddressSpace>) -> TableView {
    match space {
        Some(a) => if can_fork(s, space) {
            s.add(fork_view(s.procs[s.current], tf, a))
        } else {
            s.release(a)
        },
        None => s,
    }
}

/// The table that starting a user program leaves: with a new user process
/// of that name, where the memory controller gave a space and a pid is
/// left.
pub open spec fn spawned(
    s: TableView,
    name: Seq<char>,
    entry: usize,
    space: Option<AddressSpace>,
) -> TableView {
    match space {
        Some(a) => s.try_add(ProcessView { name, ..user_view(entry, a) }),
        None => s,
    }
}

/// Makes the table that the kernel starts with: the init process, running
/// in the address space `root`, and the idle process, ready to start at
/// `idle_entry` in the address space `idle`.
pub fn init(root: AddressSpace, idle: AddressSpace, idle_entry: usize) -> (processor: Processor)
    ensures
        processor.wf(),
        processor@ == TableView::seeded(init_view(root), kernel_view("idle"@, idle_entry, idle)),
{
    let initproc = Process::new_init(root);
    let idleproc = Process::new("idle", idle_entry, idle);
    Processor::new(initproc, idleproc)
}

/// Forks the current process; `space` is the copy of its address space
/// that the memory controller made, or nothing where it could not. Returns
/// the child's pid; or -1 where there is no space, where the caller has
/// ended, or where no pid is left.
pub fn sys_fork(processor: &mut Processor, tf: &TrapFrame, space: Option<AddressSpace>) -> (r: i32)
    requires
        old(processor).wf(),
    ensures
        final(processor).wf(),
        final(processor)@ == forked(old(processor)@, *tf, space),
        r == if can_fork(old(processor)@, space) {
            old(processor)@.next_pid as int
        } else {
            -1
        },
{
    match space {
        Some(a) => {
            let ended = match processor.current().state() {
                State::Zombie(_) => true,
                _ => false,
            };
            if ended || !processor.can_add() {
                processor.release(a);
                -1
            } else {
                let child = processor.current().fork(tf, a);
                proof {
                    crate::process::laws::lemma_add_wf(processor@, child@);
                }
                processor.add(child) as i32
            }
        },
        None => -1,
    }
}

/// Waits for a child of the current process to end: the child `pid`, or
/// any child where `pid` is zero. If such a child has ended, it is reaped,
/// its exit code is stored through `code`, and its pid is returned. If
/// such children exist and none has ended, the current process gives up
/// the CPU and zero is returned: the process asks again when it runs next.
/// If no child is named, -1 is returned.
pub fn sys_wait(processor: &mut Processor, rsp: &mut usize, pid: usize, code: Option<&mut i32>) -> (r: i32)
    requires
        old(processor).wf(),
    ensures
        final(processor).wf(),
        match old(processor)@.wait_result(wait_target(pid)) {
            WaitResult::Reaped(c, e) => {
                &&& r == c
                &&& final(processor)@ == old(processor)@.reap(c)
                &&& *final(rsp) == *old(rsp)
                &&& match code {
                    Some(slot) => *final(slot) == e as i32,
                    None => true,
                }
            },
            WaitResult::Blocked => {
                &&& r == 0
                &&& final(processor)@ == old(processor)@.schedule(*old(rsp))
                &&& *final(rsp) == old(processor)@.resumed_sp(*old(rsp))
                &&& match code {
                    Some(slot) => *final(slot) == *slot,
                    None => true,
                }
            },
            WaitResult::NotExist => {
                &&& r == -1
                &&& final(processor)@ == old(processor)@
                &&& *final(rsp) == *old(rsp)
                &&& match code {
                    Some(slot) => *final(slot) == *slot,
                    None => true,
                }
            },
        },
{
    let target = if pid == 0 {
        WaitTarget::AnyChild
    } else {
        WaitTarget::Proc(pid)
    };
    match processor.current_wait_for(target) {
        WaitResult::Reaped(child, error_code) => {
            proof {
                crate::process::laws::lemma_wait_reaps(old(processor)@, target);
            }
            match code {
                Some(slot) => {
                    *slot = #[verifier::truncate]
                    (error_code as i32);
                },
                None => {},
            }
            child as i32
        },
        WaitResult::Blocked => {
            processor.schedule(rsp);
            0
        },
        WaitResult::NotExist => -1,
    }
}

/// Gives up the CPU. Returns zero.
pub fn sys_yield(processor: &mut Processor, rsp: &mut usize) -> (r: i32)
    requires
        old(processor).wf(),
    ensures
        final(processor).wf(),
        final(processor)@ == old(processor)@.schedule(*old(rsp)),
        *final(rsp) == old(processor)@.resumed_sp(*old(rsp)),
        r == 0,
{
    processor.schedule(rsp);
    0
}

/// Kills the process `pid`. Returns zero, also where there was nothing to
/// kill.
pub fn sys_kill(processor: &mut Processor, pid: usize) -> (r: i32)
    requires
        old(processor).wf(),
    ensures
        final(processor).wf(),
        final(processor)@ == old(processor)@.kill(pid),
        r == 0,
{
    processor.kill(pid);
    0
}

/// The pid of the current process.
pub fn sys_getpid(processor: &Processor) -> (r: i32)
    requires
        processor.wf(),
    ensures
        r == processor@.current,
{
    proof {
        assert(processor@.entry_wf(processor@.current));
    }
    processor.current().pid() as i32
}

/// Ends the current process with `error_code`: it first gives up the CPU
/// and then ends. Returns zero, to the process that runs next.
pub fn sys_exit(processor: &mut Processor, rsp: &mut usize, error_code: ErrorCode) -> (r: i32)
    requires
        old(processor).wf(),
    ensures
        final(processor).wf(),
        final(processor)@ == old(processor)@.schedule(*old(rsp)).exit(
            old(processor)@.current,
            error_code,
        ),
        *final(rsp) == old(processor)@.resumed_sp(*old(rsp)),
        r == 0,
{
    let pid = processor.current_pid();
    processor.schedule(rsp);
    processor.exit(pid, error_code);
    0
}

/// Puts the current process to sleep for `time` ticks, or until one of its
/// children ends where `time` is zero: it first gives up the CPU and then
/// sleeps. Returns zero.
pub fn sys_sleep(processor: &mut Processor, rsp: &mut usize, time: usize) -> (r: i32)
    requires
        old(processor).wf(),
        old(processor)@.ticks + time <= usize::MAX,
    ensures
        final(processor).wf(),
        final(processor)@ == old(processor)@.schedule(*old(rsp)).sleep(
            old(processor)@.current,
            time,
        ),
        *final(rsp) == old(processor)@.resumed_sp(*old(rsp)),
        r == 0,
{
    let pid = processor.current_pid();
    processor.schedule(rsp);
    processor.sleep(pid, time);
    0
}

/// The number of timer ticks counted so far, cut to 32 bits.
pub fn sys_get_time(processor: &Processor) -> (r: i32)
    ensures
        r == processor@.ticks as i32,
        processor@.ticks <= i32::MAX ==> r == processor@.ticks,
{
    #[verifier::truncate]
    (processor.get_time() as i32)
}

/// Handles a timer interrupt that arrived with the trap frame `tf`: one
/// tick of the table.
pub fn timer_handler(processor: &mut Processor, tf: &TrapFrame, rsp: &mut usize)
    requires
        old(processor).wf(),
        old(processor)@.ticks < usize::MAX,
    ensures
        final(processor).wf(),
        final(processor)@ == old(processor)@.tick(*old(rsp)),
        *final(rsp) == old(processor)@.advance().resumed_sp(*old(rsp)),
{
    processor.tick(rsp);
}

/// Starts a user program under the name `name`: `entry` is the entry point
/// of its image and `space` the address space into which the memory
/// controller loaded it, or nothing where it could not. Returns the pid of
/// the new process, or nothing where there is no space or no pid left.
pub fn add_user_process(
    processor: &mut Processor,
    name: &str,
    entry: usize,
    space: Option<AddressSpace>,
) -> (r: Option<Pid>)
    requires
        old(processor).wf(),
    ensures
        final(processor).wf(),
        final(processor)@ == spawned(old(processor)@, name@, entry, space),
        r == if space is Some && old(processor)@.can_add() {
            Some(old(processor)@.next_pid)
        } else {
            None
        },
{
    match space {
        Some(a) => {
            let mut new = Process::new_user(entry, a);
            new.set_name(name);
            processor.try_add(new)
        },
        None => None,
    }
}

} // verus!
