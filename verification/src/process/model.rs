//! The mathematical model of the process table: its value, its invariant,
//! and each operation as a function from table to table.

use vstd::prelude::*;
use crate::process::process::{
    AddressSpace, Context, ErrorCode, Pid, ProcessView, State, WaitResult, WaitTarget, Wake,
    IDLE_PID, INIT_PID, KILL_CODE, MAX_PID,
};

verus! {

/// An event at which the CPU may change hands, with the stack pointer of
/// the process that has it.
pub enum Switch {
    /// The current process gives up the CPU.
    Yield(usize),
    /// The timer ticks.
    Tick(usize),
}

/// The number of timer ticks among the events `es`.
pub open spec fn ticks_in(es: Seq<Switch>) -> nat
    decreases es.len(),
{
    if es.len() == 0 {
        0
    } else if es.first() is Tick {
        1 + ticks_in(es.drop_first())
    } else {
        ticks_in(es.drop_first())
    }
}

/// The mathematical value of the process table.
pub struct TableView {
    /// Every process in the table, live or zombie, by pid.
    pub procs: Map<Pid, ProcessView>,
    /// The process that has the CPU.
    pub current: Pid,
    /// Timer ticks counted so far.
    pub ticks: usize,
    /// The pid that the next added process gets.
    pub next_pid: Pid,
    /// Address spaces of ended processes that the memory controller has not
    /// taken back yet, oldest first.
    pub released: Seq<AddressSpace>,
}

impl TableView {
    /// What must hold of the entry of `p`.
    pub open spec fn entry_wf(self, p: Pid) -> bool {
        let e = self.procs[p];
        &&& e.pid == p
        &&& 1 <= p < self.next_pid
        &&& e.state == State::Running ==> p == self.current
        &&& e.state is Zombie ==> e.space is None
        &&& e.state is Zombie && p != INIT_PID ==> e.children =~= Set::empty()
        &&& e.children.finite()
        &&& match e.parent {
            Some(q) => self.procs.dom().contains(q) && q < p && self.procs[q].children.contains(p),
            None => true,
        }
        &&& forall|c: Pid| #[trigger]
            e.children.contains(c) ==> self.procs.dom().contains(c) && self.procs[c].parent
                == Some(p)
    }

    /// The invariant of the table: the init and idle processes and the
    /// current one are in it; pids are positive and below the next one to
    /// be handed out; no process but the current one is running; a zombie
    /// holds no address space and, unless it is init, no children; a child
    /// is younger than its parent; the children of a process are exactly
    /// the processes that name it as parent; init and idle have no parent,
    /// and idle is always ready or running.
    pub open spec fn wf(self) -> bool {
        &&& self.procs.dom().finite()
        &&& self.procs.dom().contains(INIT_PID)
        &&& self.procs.dom().contains(IDLE_PID)
        &&& self.procs.dom().contains(self.current)
        &&& self.next_pid <= MAX_PID + 1
        &&& self.procs[INIT_PID].parent is None
        &&& self.procs[IDLE_PID].parent is None
        &&& (self.procs[IDLE_PID].state == State::Ready || self.procs[IDLE_PID].state
            == State::Running)
        &&& forall|p: Pid| #[trigger] self.procs.dom().contains(p) ==> self.entry_wf(p)
    }

    /// The entry of a seed process: `proc` under the pid `pid`, in the state
    /// `state`, without parent or children.
    pub open spec fn seed_entry(proc: ProcessView, pid: Pid, state: State) -> ProcessView {
        ProcessView { pid, parent: None, children: Set::empty(), state, ..proc }
    }

    /// The table that the kernel starts with: `init` is running and
    /// current, `idle` is ready, and no tick has been counted.
    pub open spec fn seeded(init: ProcessView, idle: ProcessView) -> TableView {
        TableView {
            procs: Map::empty().insert(
                INIT_PID,
                Self::seed_entry(init, INIT_PID, State::Running),
            ).insert(IDLE_PID, Self::seed_entry(idle, IDLE_PID, State::Ready)),
            current: INIT_PID,
            ticks: 0,
            next_pid: 3,
            released: Seq::empty(),
        }
    }

    // ----- adding a process -----

    /// Whether a pid is left to hand out.
    pub open spec fn can_add(self) -> bool {
        self.next_pid <= MAX_PID
    }

    /// The parent that a new process gets: the one it names, if that is in
    /// the table and has not ended.
    pub open spec fn adopted_by(self, named: Option<Pid>) -> Option<Pid> {
        match named {
            Some(q) => if self.procs.dom().contains(q) && !(self.procs[q].state is Zombie) {
                Some(q)
            } else {
                None
            },
            None => None,
        }
    }

    /// The entry under which `proc` is added.
    pub open spec fn added_entry(self, proc: ProcessView) -> ProcessView {
        ProcessView {
            pid: self.next_pid,
            parent: self.adopted_by(proc.parent),
            children: Set::empty(),
            state: State::Ready,
            ..proc
        }
    }

    /// The table after `proc` was added: it is ready, under the next pid,
    /// and its parent has it as a child.
    pub open spec fn add(self, proc: ProcessView) -> TableView {
        let pid = self.next_pid;
        let linked = match self.adopted_by(proc.parent) {
            Some(q) => self.procs.insert(
                q,
                ProcessView { children: self.procs[q].children.insert(pid), ..self.procs[q] },
            ),
            None => self.procs,
        };
        TableView {
            procs: linked.insert(pid, self.added_entry(proc)),
            next_pid: (pid + 1) as usize,
            ..self
        }
    }

    /// The table after `space` was handed back for the memory controller
    /// to take.
    pub open spec fn release(self, space: AddressSpace) -> TableView {
        TableView { released: self.released.push(space), ..self }
    }

    /// The table after an attempt to add `proc`: with it, where a pid is
    /// left; else unchanged, but for the address space of `proc`, which
    /// joins the released ones.
    pub open spec fn try_add(self, proc: ProcessView) -> TableView {
        if self.can_add() {
            self.add(proc)
        } else {
            match proc.space {
                Some(a) => self.release(a),
                None => self,
            }
        }
    }

    /// The table after an attempt to add each process of `procs` in turn.
    pub open spec fn try_add_all(self, procs: Seq<ProcessView>) -> TableView
        decreases procs.len(),
    {
        if procs.len() == 0 {
            self
        } else {
            self.try_add(procs.first()).try_add_all(procs.drop_first())
        }
    }

    // ----- ending a process -----

    /// Whether `pid` can end: it is in the table, has not ended yet, and is
    /// not the idle process.
    pub open spec fn can_exit(self, pid: Pid) -> bool {
        &&& self.procs.dom().contains(pid)
        &&& pid != IDLE_PID
        &&& !(self.procs[pid].state is Zombie)
    }

    /// The entry of `q` after `pid` ended with `code`.
    pub open spec fn exit_entry(self, pid: Pid, code: ErrorCode, q: Pid) -> ProcessView {
        let e = self.procs[pid];
        let o = self.procs[q];
        ProcessView {
            state: if q == pid {
                State::Zombie(code)
            } else if e.parent == Some(q) && o.state == State::Sleeping(Wake::OnChildExit) {
                State::Ready
            } else {
                o.state
            },
            children: if pid == INIT_PID {
                o.children
            } else if q == pid {
                Set::empty()
            } else if q == INIT_PID {
                o.children.union(e.children)
            } else {
                o.children
            },
            parent: if o.parent == Some(pid) {
                Some(INIT_PID)
            } else {
                o.parent
            },
            space: if q == pid {
                None
            } else {
                o.space
            },
            ..o
        }
    }

    /// The table after `pid` ended with `code`: it is a zombie with that
    /// code and without address space, which joins the released ones; its
    /// parent, if it slept until a child ends, is ready; its children are
    /// now init's. Unchanged where `pid` cannot end.
    pub open spec fn exit(self, pid: Pid, code: ErrorCode) -> TableView {
        if self.can_exit(pid) {
            TableView {
                procs: Map::new(
                    |q: Pid| self.procs.dom().contains(q),
                    |q: Pid| self.exit_entry(pid, code, q),
                ),
                released: match self.procs[pid].space {
                    Some(a) => self.released.push(a),
                    None => self.released,
                },
                ..self
            }
        } else {
            self
        }
    }

    /// The table after `pid` was killed.
    pub open spec fn kill(self, pid: Pid) -> TableView {
        self.exit(pid, KILL_CODE)
    }

    // ----- sleeping and the timer -----

    /// Whether `pid` can be put to sleep: it is in the table, ready or
    /// running, and not the idle process.
    pub open spec fn can_sleep(self, pid: Pid) -> bool {
        &&& self.procs.dom().contains(pid)
        &&& pid != IDLE_PID
        &&& (self.procs[pid].state == State::Ready || self.procs[pid].state == State::Running)
    }

    /// When a sleep of `ticks` ticks that starts now ends.
    pub open spec fn wake_for(self, ticks: usize) -> Wake {
        if ticks == 0 {
            Wake::OnChildExit
        } else {
            Wake::At((self.ticks + ticks) as usize)
        }
    }

    /// The table after `pid` was put to sleep for `ticks` ticks, or until a
    /// child ends if `ticks` is zero. Unchanged where `pid` cannot sleep.
    pub open spec fn sleep(self, pid: Pid, ticks: usize) -> TableView {
        if self.can_sleep(pid) {
            TableView {
                procs: self.procs.insert(
                    pid,
                    ProcessView {
                        state: State::Sleeping(self.wake_for(ticks)),
                        ..self.procs[pid]
                    },
                ),
                ..self
            }
        } else {
            self
        }
    }

    /// The state of a process with state `s` once the tick count is `now`.
    pub open spec fn woken(s: State, now: usize) -> State {
        match s {
            State::Sleeping(Wake::At(t)) => if t <= now {
                State::Ready
            } else {
                s
            },
            _ => s,
        }
    }

    /// The table after the timer counted one more tick: every process whose
    /// sleep ends by the new count is ready.
    pub open spec fn advance(self) -> TableView {
        let now = (self.ticks + 1) as usize;
        TableView {
            procs: Map::new(
                |q: Pid| self.procs.dom().contains(q),
                |q: Pid| ProcessView { state: Self::woken(self.procs[q].state, now), ..self.procs[q] },
            ),
            ticks: now,
            ..self
        }
    }

    // ----- switching -----

    /// Whether `p` can be given the CPU in place of the current process: it
    /// is another process, ready, and not the idle one.
    pub open spec fn runnable(self, p: Pid) -> bool {
        &&& self.procs.dom().contains(p)
        &&& p != IDLE_PID
        &&& p != self.current
        &&& self.procs[p].state == State::Ready
    }

    /// How far `p` is behind the current process in the round: pids after
    /// the current one come first, in rising order, then those before it.
    pub open spec fn distance(self, p: Pid) -> int {
        if p > self.current {
            p - self.current
        } else {
            p - self.current + self.next_pid
        }
    }

    /// Whether `p` is the runnable process nearest behind the current one.
    pub open spec fn is_nearest(self, p: Pid) -> bool {
        &&& self.runnable(p)
        &&& forall|q: Pid| #[trigger] self.runnable(q) ==> self.distance(p) <= self.distance(q)
    }

    /// The process that gets the CPU at the next switch: the runnable one
    /// nearest behind the current one, or idle when none is runnable.
    pub open spec fn successor(self) -> Pid {
        if exists|p: Pid| self.runnable(p) {
            choose|p: Pid| self.is_nearest(p)
        } else {
            IDLE_PID
        }
    }

    /// The table once the current process has left the CPU with its stack
    /// pointer at `sp`: it is ready if it was running, and `sp` is saved in
    /// its context.
    pub open spec fn parked(self, sp: usize) -> TableView {
        let out = self.procs[self.current];
        TableView {
            procs: self.procs.insert(
                self.current,
                ProcessView {
                    state: if out.state == State::Running {
                        State::Ready
                    } else {
                        out.state
                    },
                    context: Context { sp, ..out.context },
                    ..out
                },
            ),
            ..self
        }
    }

    /// The table after a switch away from the current process, whose stack
    /// pointer was `sp`: the successor is running and current.
    pub open spec fn schedule(self, sp: usize) -> TableView {
        let next = self.successor();
        let parked = self.parked(sp);
        TableView {
            procs: parked.procs.insert(
                next,
                ProcessView { state: State::Running, ..parked.procs[next] },
            ),
            current: next,
            ..self
        }
    }

    /// The stack pointer on which execution goes on after that switch: the
    /// one saved for the successor.
    pub open spec fn resumed_sp(self, sp: usize) -> usize {
        self.parked(sp).procs[self.successor()].context.sp
    }

    /// The table after a timer tick: the count advanced, the sleepers
    /// woken, and then a switch.
    pub open spec fn tick(self, sp: usize) -> TableView {
        self.advance().schedule(sp)
    }

    /// Whether no process sleeps until a tick comes.
    pub open spec fn no_timed_sleeper(self) -> bool {
        forall|q: Pid|
            self.procs.dom().contains(q) ==> !(#[trigger] self.procs[q].state matches State::Sleeping(
                Wake::At(_),
            ))
    }

    /// The processes that can be given the CPU.
    pub open spec fn waiting(self) -> Set<Pid> {
        Set::new(|q: Pid| self.runnable(q))
    }

    /// The processes that can be given the CPU and come before `p` in the
    /// round.
    pub open spec fn ahead_of(self, p: Pid) -> Set<Pid> {
        Set::new(|q: Pid| self.runnable(q) && self.distance(q) < self.distance(p))
    }

    /// The table after the event `e`.
    pub open spec fn step(self, e: Switch) -> TableView {
        match e {
            Switch::Yield(sp) => self.schedule(sp),
            Switch::Tick(sp) => self.tick(sp),
        }
    }

    /// The table after the events `es`, in their order.
    pub open spec fn run(self, es: Seq<Switch>) -> TableView
        decreases es.len(),
    {
        if es.len() == 0 {
            self
        } else {
            self.step(es.first()).run(es.drop_first())
        }
    }

    // ----- waiting -----

    /// Whether `c` is a child of the current process that `target` names.
    pub open spec fn awaited(self, target: WaitTarget, c: Pid) -> bool {
        &&& self.procs[self.current].children.contains(c)
        &&& match target {
            WaitTarget::AnyChild => true,
            WaitTarget::Proc(p) => p == c,
        }
    }

    /// Whether `c` is such a child and has ended.
    pub open spec fn reapable(self, target: WaitTarget, c: Pid) -> bool {
        &&& self.awaited(target, c)
        &&& self.procs[c].state is Zombie
    }

    /// Whether `c` is the reapable child with the lowest pid.
    pub open spec fn is_first_reapable(self, target: WaitTarget, c: Pid) -> bool {
        &&& self.reapable(target, c)
        &&& forall|d: Pid| #[trigger] self.reapable(target, d) ==> c <= d
    }

    /// What a wait by the current process observes: the ended child with
    /// the lowest pid among those that `target` names, with its code; that
    /// it must block, where such children exist and none has ended; or that
    /// no child is named by `target`.
    pub open spec fn wait_result(self, target: WaitTarget) -> WaitResult {
        if exists|c: Pid| self.reapable(target, c) {
            let c = choose|c: Pid| self.is_first_reapable(target, c);
            WaitResult::Reaped(c, self.procs[c].state->Zombie_0)
        } else if exists|c: Pid| self.awaited(target, c) {
            WaitResult::Blocked
        } else {
            WaitResult::NotExist
        }
    }

    /// The table without the child `c` of the current process.
    pub open spec fn reap(self, c: Pid) -> TableView {
        let cur = self.procs[self.current];
        TableView {
            procs: self.procs.remove(c).insert(
                self.current,
                ProcessView { children: cur.children.remove(c), ..cur },
            ),
            ..self
        }
    }

    /// The table after that wait: without the child it reaped, or
    /// unchanged.
    pub open spec fn after_wait(self, target: WaitTarget) -> TableView {
        match self.wait_result(target) {
            WaitResult::Reaped(c, _) => self.reap(c),
            _ => self,
        }
    }

    /// The table once the memory controller has taken back the released
    /// address spaces.
    pub open spec fn drained(self) -> TableView {
        TableView { released: Seq::empty(), ..self }
    }
}

} // verus!
