//! What holds of the table's operations, proved over the model.

use vstd::prelude::*;
use crate::process::model::{ticks_in, Switch, TableView};
use crate::process::{can_fork, forked};
use crate::process::process::{
    fork_view, AddressSpace, ErrorCode, Pid, ProcessView, State, TrapFrame, WaitResult,
    WaitTarget, Wake, IDLE_PID, INIT_PID, KILL_CODE, MAX_PID,
};

verus! {

/// At most one process is running, and that one is the current process.
pub proof fn lemma_single_running(s: TableView, p: Pid, q: Pid)
    requires
        s.wf(),
        s.procs.dom().contains(p),
        s.procs.dom().contains(q),
        s.procs[p].state == State::Running,
        s.procs[q].state == State::Running,
    ensures
        p == q,
        p == s.current,
{
    assert(s.entry_wf(p));
    assert(s.entry_wf(q));
}

/// The children of a process are exactly the processes in the table that
/// name it as their parent.
pub proof fn lemma_children_mirror_parents(s: TableView, p: Pid, c: Pid)
    requires
        s.wf(),
        s.procs.dom().contains(p),
    ensures
        s.procs[p].children.contains(c) <==> s.procs.dom().contains(c) && s.procs[c].parent
            == Some(p),
{
    assert(s.entry_wf(p));
    if s.procs.dom().contains(c) {
        assert(s.entry_wf(c));
    }
}

/// The table that the kernel starts with meets the invariant.
pub proof fn lemma_seeded_wf(init: ProcessView, idle: ProcessView)
    ensures
        TableView::seeded(init, idle).wf(),
{
    let t = TableView::seeded(init, idle);
    assert(t.procs.dom() =~= set![INIT_PID, IDLE_PID]);
}

/// Ending a process keeps the table's invariant.
pub proof fn lemma_exit_wf(s: TableView, pid: Pid, code: ErrorCode)
    requires
        s.wf(),
    ensures
        s.exit(pid, code).wf(),
{
    let t = s.exit(pid, code);
    if s.can_exit(pid) {
        assert(t.procs.dom() =~= s.procs.dom());
        assert(s.entry_wf(pid));
        assert(s.entry_wf(INIT_PID));
        assert(s.entry_wf(IDLE_PID));
        assert forall|p: Pid| #[trigger] t.procs.dom().contains(p) implies t.entry_wf(p) by {
            assert(s.entry_wf(p));
            let e = t.procs[p];
            assert(e == s.exit_entry(pid, code, p));
            match e.parent {
                Some(q) => {
                    assert(s.procs.dom().contains(q));
                    assert(t.procs[q] == s.exit_entry(pid, code, q));
                },
                None => {},
            }
            assert forall|c: Pid| #[trigger] e.children.contains(c) implies t.procs.dom().contains(
                c,
            ) && t.procs[c].parent == Some(p) by {
                if s.procs[p].children.contains(c) {
                    assert(s.procs.dom().contains(c));
                } else {
                    assert(s.procs[pid].children.contains(c));
                    assert(s.procs.dom().contains(c));
                }
                assert(t.procs[c] == s.exit_entry(pid, code, c));
            }
        }
    }
}

/// Adding a process keeps the table's invariant.
pub proof fn lemma_add_wf(s: TableView, proc: ProcessView)
    requires
        s.wf(),
        s.can_add(),
    ensures
        s.add(proc).wf(),
        !s.procs.dom().contains(s.next_pid),
{
    let t = s.add(proc);
    let pid = s.next_pid;
    if s.procs.dom().contains(pid) {
        assert(s.entry_wf(pid));
    }
    assert(s.entry_wf(INIT_PID));
    assert(s.entry_wf(IDLE_PID));
    assert(s.entry_wf(s.current));
    match s.adopted_by(proc.parent) {
        Some(q) => {
            assert(s.entry_wf(q));
            assert(t.procs.dom() =~= s.procs.dom().insert(pid));
        },
        None => {
            assert(t.procs.dom() =~= s.procs.dom().insert(pid));
        },
    }
    assert forall|p: Pid| #[trigger] t.procs.dom().contains(p) implies t.entry_wf(p) by {
        if p != pid {
            assert(s.entry_wf(p));
            let e = t.procs[p];
            match e.parent {
                Some(r) => {
                    assert(s.entry_wf(r));
                },
                None => {},
            }
            assert forall|c: Pid| #[trigger] e.children.contains(c) implies t.procs.dom().contains(
                c,
            ) && t.procs[c].parent == Some(p) by {
                if c != pid {
                    assert(s.procs[p].children.contains(c));
                    assert(s.entry_wf(c));
                }
            }
        }
    }
}

/// Handing an address space back keeps the table's invariant.
pub proof fn lemma_release_wf(s: TableView, space: AddressSpace)
    requires
        s.wf(),
    ensures
        s.release(space).wf(),
{
    let t = s.release(space);
    assert forall|p: Pid| #[trigger] t.procs.dom().contains(p) implies t.entry_wf(p) by {
        assert(s.entry_wf(p));
    }
}

/// An attempt to add a process keeps the table's invariant.
pub proof fn lemma_try_add_wf(s: TableView, proc: ProcessView)
    requires
        s.wf(),
    ensures
        s.try_add(proc).wf(),
{
    if s.can_add() {
        lemma_add_wf(s, proc);
    } else {
        match proc.space {
            Some(a) => lemma_release_wf(s, a),
            None => {},
        }
    }
}

/// Putting a process to sleep keeps the table's invariant.
pub proof fn lemma_sleep_wf(s: TableView, pid: Pid, ticks: usize)
    requires
        s.wf(),
    ensures
        s.sleep(pid, ticks).wf(),
{
    let t = s.sleep(pid, ticks);
    if s.can_sleep(pid) {
        assert(t.procs.dom() =~= s.procs.dom());
        assert forall|p: Pid| #[trigger] t.procs.dom().contains(p) implies t.entry_wf(p) by {
            assert(s.entry_wf(p));
            let e = t.procs[p];
            assert forall|c: Pid| #[trigger] e.children.contains(c) implies t.procs.dom().contains(
                c,
            ) && t.procs[c].parent == Some(p) by {
                assert(s.procs[p].children.contains(c));
            }
        }
    }
}

/// Counting a tick and waking the sleepers keeps the table's invariant.
pub proof fn lemma_advance_wf(s: TableView)
    requires
        s.wf(),
    ensures
        s.advance().wf(),
{
    let t = s.advance();
    assert(t.procs.dom() =~= s.procs.dom());
    assert forall|p: Pid| #[trigger] t.procs.dom().contains(p) implies t.entry_wf(p) by {
        assert(s.entry_wf(p));
        let e = t.procs[p];
        assert forall|c: Pid| #[trigger] e.children.contains(c) implies t.procs.dom().contains(c)
            && t.procs[c].parent == Some(p) by {
            assert(s.procs[p].children.contains(c));
        }
    }
}

/// Among the runnable processes, if there is one, one is nearest behind
/// the current process.
pub proof fn lemma_nearest_exists(s: TableView, p: Pid)
    requires
        s.wf(),
        s.runnable(p),
    ensures
        exists|n: Pid| s.is_nearest(n),
    decreases s.distance(p),
{
    assert(s.entry_wf(p));
    assert(s.entry_wf(s.current));
    if forall|q: Pid| #[trigger] s.runnable(q) ==> s.distance(p) <= s.distance(q) {
        assert(s.is_nearest(p));
    } else {
        let q = choose|q: Pid| #[trigger] s.runnable(q) && !(s.distance(p) <= s.distance(q));
        assert(s.entry_wf(q));
        lemma_nearest_exists(s, q);
    }
}

/// The successor is in the table and can take the CPU: it is the nearest
/// runnable process, or it is idle and no process is runnable.
pub proof fn lemma_successor(s: TableView)
    requires
        s.wf(),
    ensures
        s.procs.dom().contains(s.successor()),
        s.is_nearest(s.successor()) || (s.successor() == IDLE_PID && forall|p: Pid|
            !s.runnable(p)),
        s.procs[s.successor()].state == State::Ready || s.successor() == s.current,
{
    if exists|p: Pid| s.runnable(p) {
        let p = choose|p: Pid| s.runnable(p);
        lemma_nearest_exists(s, p);
    } else {
        assert(s.entry_wf(IDLE_PID));
    }
}

/// A switch keeps the table's invariant.
pub proof fn lemma_schedule_wf(s: TableView, sp: usize)
    requires
        s.wf(),
    ensures
        s.schedule(sp).wf(),
{
    let t = s.schedule(sp);
    let next = s.successor();
    lemma_successor(s);
    assert(t.procs.dom() =~= s.procs.dom());
    assert(s.entry_wf(IDLE_PID));
    assert(s.entry_wf(s.current));
    assert(s.entry_wf(next));
    assert forall|p: Pid| #[trigger] t.procs.dom().contains(p) implies t.entry_wf(p) by {
        assert(s.entry_wf(p));
        let e = t.procs[p];
        assert(e.children == s.procs[p].children);
        assert(e.parent == s.procs[p].parent);
        assert forall|c: Pid| #[trigger] e.children.contains(c) implies t.procs.dom().contains(c)
            && t.procs[c].parent == Some(p) by {
            assert(s.procs[p].children.contains(c));
        }
    }
}

/// A timer tick keeps the table's invariant.
pub proof fn lemma_tick_wf(s: TableView, sp: usize)
    requires
        s.wf(),
    ensures
        s.tick(sp).wf(),
{
    lemma_advance_wf(s);
    lemma_schedule_wf(s.advance(), sp);
}

/// Taking an ended child of the current process out of the table keeps
/// the table's invariant.
pub proof fn lemma_reap_wf(s: TableView, c: Pid)
    requires
        s.wf(),
        s.procs[s.current].children.contains(c),
        s.procs[c].state is Zombie,
    ensures
        s.reap(c).wf(),
        s.procs.dom().contains(c),
        c != s.current,
        c != INIT_PID,
        c != IDLE_PID,
{
    let t = s.reap(c);
    assert(s.entry_wf(s.current));
    assert(s.entry_wf(c));
    assert(s.entry_wf(INIT_PID));
    assert(s.entry_wf(IDLE_PID));
    assert(t.procs.dom() =~= s.procs.dom().remove(c));
    assert forall|p: Pid| #[trigger] t.procs.dom().contains(p) implies t.entry_wf(p) by {
        assert(s.entry_wf(p));
        let e = t.procs[p];
        match e.parent {
            Some(q) => {
                assert(s.entry_wf(q));
                if q == c {
                    assert(s.procs[c].children.contains(p));
                }
            },
            None => {},
        }
        assert forall|d: Pid| #[trigger] e.children.contains(d) implies t.procs.dom().contains(d)
            && t.procs[d].parent == Some(p) by {
            assert(s.procs[p].children.contains(d));
            assert(s.entry_wf(d));
        }
    }
}

/// Among the children that a wait can reap, if there is one, one has the
/// lowest pid.
pub proof fn lemma_first_reapable_exists(s: TableView, target: WaitTarget, c: Pid)
    requires
        s.reapable(target, c),
    ensures
        exists|f: Pid| s.is_first_reapable(target, f),
    decreases c,
{
    if forall|d: Pid| #[trigger] s.reapable(target, d) ==> c <= d {
        assert(s.is_first_reapable(target, c));
    } else {
        let d = choose|d: Pid| #[trigger] s.reapable(target, d) && !(c <= d);
        lemma_first_reapable_exists(s, target, d);
    }
}

/// A wait that reaps a child reaps a child of the current process that
/// the target names and that has ended; its pid fits a kernel call's
/// result.
pub proof fn lemma_wait_reaps(s: TableView, target: WaitTarget)
    requires
        s.wf(),
        s.wait_result(target) is Reaped,
    ensures
        s.is_first_reapable(target, s.wait_result(target)->Reaped_0),
        s.procs[s.wait_result(target)->Reaped_0].state == State::Zombie(
            s.wait_result(target)->Reaped_1,
        ),
        1 <= s.wait_result(target)->Reaped_0 <= MAX_PID,
{
    let c0 = choose|c: Pid| s.reapable(target, c);
    lemma_first_reapable_exists(s, target, c0);
    let c = choose|c: Pid| s.is_first_reapable(target, c);
    assert(s.entry_wf(s.current));
    assert(s.procs[s.current].children.contains(c));
    assert(s.entry_wf(c));
}

/// A wait keeps the table's invariant.
pub proof fn lemma_wait_wf(s: TableView, target: WaitTarget)
    requires
        s.wf(),
    ensures
        s.after_wait(target).wf(),
{
    if exists|c: Pid| s.reapable(target, c) {
        let c0 = choose|c: Pid| s.reapable(target, c);
        lemma_first_reapable_exists(s, target, c0);
        let c = choose|c: Pid| s.is_first_reapable(target, c);
        lemma_reap_wf(s, c);
    }
}

/// However many processes are added, the current process stays the same,
/// and no other process is running.
pub proof fn lemma_adds_keep_one_running(s: TableView, procs: Seq<ProcessView>)
    requires
        s.wf(),
    ensures
        s.try_add_all(procs).wf(),
        s.try_add_all(procs).current == s.current,
        forall|p: Pid|
            s.try_add_all(procs).procs.dom().contains(p) && #[trigger] s.try_add_all(
                procs,
            ).procs[p].state == State::Running ==> p == s.current,
    decreases procs.len(),
{
    let t = s.try_add_all(procs);
    if procs.len() == 0 {
    } else {
        lemma_try_add_wf(s, procs.first());
        lemma_adds_keep_one_running(s.try_add(procs.first()), procs.drop_first());
    }
    assert forall|p: Pid| t.procs.dom().contains(p) && #[trigger] t.procs[p].state
        == State::Running implies p == s.current by {
        assert(t.entry_wf(p));
    }
}

/// A fork that gives a child gives it under the next pid: the child names
/// the caller as its parent, the caller has it as one more child, and it
/// is ready to resume from the caller's trap frame, in which only the
/// result differs: it is zero. Nothing else in the table changes.
pub proof fn lemma_fork_links(s: TableView, tf: TrapFrame, space: Option<AddressSpace>)
    requires
        s.wf(),
        can_fork(s, space),
    ensures
        ({
            let t = forked(s, tf, space);
            let child = t.procs[s.next_pid];
            &&& t.wf()
            &&& !s.procs.dom().contains(s.next_pid)
            &&& t.procs.dom() == s.procs.dom().insert(s.next_pid)
            &&& child.pid == s.next_pid
            &&& child.parent == Some(s.current)
            &&& t.procs[s.current].children == s.procs[s.current].children.insert(s.next_pid)
            &&& child.state == State::Ready
            &&& child.space == space
            &&& child.context.tf == (TrapFrame { ret: 0, ..tf })
            &&& child.name == s.procs[s.current].name
            &&& child.children == Set::<Pid>::empty()
            &&& t.current == s.current
            &&& forall|p: Pid|
                s.procs.dom().contains(p) && p != s.current ==> #[trigger] t.procs[p] == s.procs[p]
        }),
{
    let proc = fork_view(s.procs[s.current], tf, space->0);
    let t = s.add(proc);
    lemma_add_wf(s, proc);
    assert(s.entry_wf(s.current));
    assert(t.procs.dom() =~= s.procs.dom().insert(s.next_pid));
}

/// What a wait for any child finds. Without children: that none exists.
/// With children none of which has ended: that it must block. In both
/// cases the table is unchanged. With a child that has ended: one such
/// child, which alone leaves the table, and the children of the current
/// process.
pub proof fn lemma_wait_any_child(s: TableView)
    requires
        s.wf(),
    ensures
        ({
            let kids = s.procs[s.current].children;
            let r = s.wait_result(WaitTarget::AnyChild);
            let t = s.after_wait(WaitTarget::AnyChild);
            &&& kids =~= Set::empty() ==> r == WaitResult::NotExist && t == s
            &&& !(kids =~= Set::empty()) && (forall|c: Pid|
                kids.contains(c) ==> !(#[trigger] s.procs[c].state is Zombie)) ==> r
                == WaitResult::Blocked && t == s
            &&& (exists|c: Pid| kids.contains(c) && #[trigger] s.procs[c].state is Zombie) ==> {
                &&& r is Reaped
                &&& kids.contains(r->Reaped_0)
                &&& s.procs[r->Reaped_0].state == State::Zombie(r->Reaped_1)
                &&& t.procs.dom() == s.procs.dom().remove(r->Reaped_0)
                &&& t.procs[s.current].children == kids.remove(r->Reaped_0)
                &&& forall|p: Pid|
                    #[trigger] t.procs.dom().contains(p) && p != s.current ==> t.procs[p]
                        == s.procs[p]
            }
        }),
{
    let target = WaitTarget::AnyChild;
    let kids = s.procs[s.current].children;
    let r = s.wait_result(target);
    let t = s.after_wait(target);
    assert(s.entry_wf(s.current));
    if kids =~= Set::empty() {
        assert forall|c: Pid| !s.awaited(target, c) by {}
    } else if forall|c: Pid| kids.contains(c) ==> !(#[trigger] s.procs[c].state is Zombie) {
        let w = choose|w: Pid| kids.contains(w);
        assert(s.awaited(target, w));
        assert forall|c: Pid| !s.reapable(target, c) by {}
    }
    if exists|c: Pid| kids.contains(c) && #[trigger] s.procs[c].state is Zombie {
        let z = choose|c: Pid| kids.contains(c) && #[trigger] s.procs[c].state is Zombie;
        assert(s.reapable(target, z));
        lemma_wait_reaps(s, target);
        let c = r->Reaped_0;
        assert(t == s.reap(c));
        lemma_reap_wf(s, c);
        assert(t.procs.dom() =~= s.procs.dom().remove(c));
    }
}

/// After a child of the current process has ended with `code`, a wait for
/// it returns its pid with `code`, once: the next wait for it finds that
/// it does not exist.
pub proof fn lemma_exit_then_wait(s: TableView, pid: Pid, code: ErrorCode)
    requires
        s.wf(),
        s.can_exit(pid),
        s.procs[pid].parent == Some(s.current),
    ensures
        ({
            let ended = s.exit(pid, code);
            let reaped = ended.after_wait(WaitTarget::Proc(pid));
            &&& ended.wait_result(WaitTarget::Proc(pid)) == WaitResult::Reaped(pid, code)
            &&& !reaped.procs.dom().contains(pid)
            &&& reaped.wait_result(WaitTarget::Proc(pid)) == WaitResult::NotExist
            &&& reaped.after_wait(WaitTarget::Proc(pid)) == reaped
        }),
{
    let target = WaitTarget::Proc(pid);
    let ended = s.exit(pid, code);
    lemma_exit_wf(s, pid, code);
    assert(s.entry_wf(pid));
    assert(s.entry_wf(s.current));
    assert(ended.procs[pid] == s.exit_entry(pid, code, pid));
    assert(ended.procs[s.current] == s.exit_entry(pid, code, s.current));
    assert(ended.procs[s.current].children.contains(pid));
    assert(ended.reapable(target, pid));
    lemma_wait_reaps(ended, target);
    let reaped = ended.after_wait(target);
    assert(reaped == ended.reap(pid));
    lemma_reap_wf(ended, pid);
    assert forall|c: Pid| !reaped.awaited(target, c) by {}
}

/// One event keeps the table's invariant.
pub proof fn lemma_step_wf(s: TableView, e: Switch)
    requires
        s.wf(),
    ensures
        s.step(e).wf(),
{
    match e {
        Switch::Yield(sp) => lemma_schedule_wf(s, sp),
        Switch::Tick(sp) => lemma_tick_wf(s, sp),
    }
}

/// Any number of events keeps the table's invariant.
pub proof fn lemma_run_wf(s: TableView, es: Seq<Switch>)
    requires
        s.wf(),
    ensures
        s.run(es).wf(),
    decreases es.len(),
{
    if es.len() > 0 {
        lemma_step_wf(s, es.first());
        lemma_run_wf(s.step(es.first()), es.drop_first());
    }
}

/// A switch changes the state of no process but the one that leaves the
/// CPU and the one that gets it, and the parent and children of none.
pub proof fn lemma_schedule_touches(s: TableView, sp: usize, p: Pid)
    requires
        s.wf(),
        s.procs.dom().contains(p),
    ensures
        s.schedule(sp).procs.dom() == s.procs.dom(),
        s.schedule(sp).procs[p].parent == s.procs[p].parent,
        s.schedule(sp).procs[p].children == s.procs[p].children,
        s.schedule(sp).procs[p].space == s.procs[p].space,
        s.schedule(sp).ticks == s.ticks,
        p != s.successor() && (p != s.current || s.procs[p].state != State::Running)
            ==> s.schedule(sp).procs[p].state == s.procs[p].state,
        p == s.successor() ==> s.schedule(sp).procs[p].state == State::Running,
        p == s.current && p != s.successor() && s.procs[p].state == State::Running
            ==> s.schedule(sp).procs[p].state == State::Ready,
        s.procs[s.successor()].state == State::Ready || s.successor() == IDLE_PID,
{
    lemma_successor(s);
    assert(s.schedule(sp).procs.dom() =~= s.procs.dom());
    assert(s.entry_wf(IDLE_PID));
}

/// While fewer ticks have come than its sleep lasts, a sleeping process
/// stays asleep, whoever gets the CPU.
pub proof fn lemma_sleeper_waits(s: TableView, pid: Pid, until: usize, es: Seq<Switch>)
    requires
        s.wf(),
        s.procs.dom().contains(pid),
        s.procs[pid].state == State::Sleeping(Wake::At(until)),
        s.ticks + ticks_in(es) < until,
    ensures
        s.run(es).wf(),
        s.run(es).procs.dom().contains(pid),
        s.run(es).procs[pid].state == State::Sleeping(Wake::At(until)),
        s.run(es).ticks == s.ticks + ticks_in(es),
    decreases es.len(),
{
    if es.len() > 0 {
        let e = es.first();
        let t = s.step(e);
        lemma_step_wf(s, e);
        assert(s.entry_wf(IDLE_PID));
        match e {
            Switch::Yield(sp) => {
                lemma_schedule_touches(s, sp, pid);
            },
            Switch::Tick(sp) => {
                let a = s.advance();
                lemma_advance_wf(s);
                assert(a.procs.dom() =~= s.procs.dom());
                lemma_schedule_touches(a, sp, pid);
            },
        }
        lemma_sleeper_waits(t, pid, until, es.drop_first());
    }
}

/// A process that is put to sleep for `n` ticks stays asleep while fewer
/// than `n` ticks have come, whatever else gives up the CPU meanwhile. The
/// tick that makes them `n` wakes it: it is ready when the sleepers have
/// been woken, and after that tick's switch it is ready, or running and
/// current.
pub proof fn lemma_sleep_ends_on_time(s: TableView, pid: Pid, n: usize, es: Seq<Switch>, sp: usize)
    requires
        s.wf(),
        s.can_sleep(pid),
        n >= 1,
        s.ticks + n <= usize::MAX,
        ticks_in(es) < n,
    ensures
        ({
            let z = s.sleep(pid, n).run(es);
            &&& z.wf()
            &&& z.procs.dom().contains(pid)
            &&& z.procs[pid].state == State::Sleeping(Wake::At((s.ticks + n) as usize))
            &&& ticks_in(es) == n - 1 ==> {
                &&& z.advance().procs[pid].state == State::Ready
                &&& z.tick(sp).procs[pid].state == State::Ready || (z.tick(sp).procs[pid].state
                    == State::Running && z.tick(sp).current == pid)
            }
        }),
{
    let until = (s.ticks + n) as usize;
    let asleep = s.sleep(pid, n);
    lemma_sleep_wf(s, pid, n);
    lemma_sleeper_waits(asleep, pid, until, es);
    let z = asleep.run(es);
    if ticks_in(es) == n - 1 {
        let a = z.advance();
        lemma_advance_wf(z);
        assert(a.procs.dom() =~= z.procs.dom());
        assert(a.procs[pid].state == State::Ready);
        lemma_schedule_touches(a, sp, pid);
        lemma_schedule_wf(a, sp);
        assert(a.schedule(sp).entry_wf(pid));
    }
}

/// A process that has ended stays as it is, whoever gets the CPU, and
/// once the CPU has changed hands it is never the current process.
pub proof fn lemma_zombie_rests(s: TableView, pid: Pid, code: ErrorCode, es: Seq<Switch>)
    requires
        s.wf(),
        s.procs.dom().contains(pid),
        s.procs[pid].state == State::Zombie(code),
    ensures
        s.run(es).wf(),
        s.run(es).procs.dom().contains(pid),
        s.run(es).procs[pid].state == State::Zombie(code),
        s.run(es).procs[pid].parent == s.procs[pid].parent,
        es.len() >= 1 ==> s.run(es).current != pid,
    decreases es.len(),
{
    if es.len() > 0 {
        let e = es.first();
        let t = s.step(e);
        lemma_step_wf(s, e);
        assert(s.entry_wf(IDLE_PID));
        match e {
            Switch::Yield(sp) => {
                lemma_schedule_touches(s, sp, pid);
            },
            Switch::Tick(sp) => {
                let a = s.advance();
                lemma_advance_wf(s);
                assert(a.procs.dom() =~= s.procs.dom());
                assert(a.entry_wf(IDLE_PID));
                lemma_schedule_touches(a, sp, pid);
            },
        }
        assert(t.current != pid);
        lemma_zombie_rests(t, pid, code, es.drop_first());
        if es.len() == 1 {
            assert(es.drop_first().len() == 0);
        }
    }
}

/// Killing a sleeping process makes it a zombie with the kill code. It
/// stays one, whoever gets the CPU, and is never current again once the
/// CPU has changed hands; when its parent is current and waits for it,
/// the wait reaps it with the kill code.
pub proof fn lemma_kill_sleeper(s: TableView, pid: Pid, es: Seq<Switch>)
    requires
        s.wf(),
        s.procs.dom().contains(pid),
        s.procs[pid].state is Sleeping,
    ensures
        ({
            let killed = s.kill(pid);
            let later = killed.run(es);
            &&& killed.procs[pid].state == State::Zombie(KILL_CODE)
            &&& later.wf()
            &&& later.procs.dom().contains(pid)
            &&& later.procs[pid].state == State::Zombie(KILL_CODE)
            &&& es.len() >= 1 ==> later.current != pid
            &&& later.procs[pid].parent == Some(later.current) ==> later.wait_result(
                WaitTarget::Proc(pid),
            ) == WaitResult::Reaped(pid, KILL_CODE)
        }),
{
    let target = WaitTarget::Proc(pid);
    let killed = s.kill(pid);
    assert(s.entry_wf(IDLE_PID));
    assert(s.can_exit(pid));
    lemma_exit_wf(s, pid, KILL_CODE);
    assert(killed.procs[pid] == s.exit_entry(pid, KILL_CODE, pid));
    lemma_zombie_rests(killed, pid, KILL_CODE, es);
    let later = killed.run(es);
    if later.procs[pid].parent == Some(later.current) {
        assert(later.entry_wf(pid));
        assert(later.reapable(target, pid));
        lemma_wait_reaps(later, target);
    }
}

/// Only one process is the nearest runnable one.
pub proof fn lemma_nearest_unique(s: TableView, x: Pid, y: Pid)
    requires
        s.wf(),
        s.is_nearest(x),
        s.is_nearest(y),
    ensures
        x == y,
{
    assert(s.entry_wf(x));
    assert(s.entry_wf(y));
    assert(s.entry_wf(s.current));
    assert(s.distance(x) <= s.distance(y));
    assert(s.distance(y) <= s.distance(x));
}

/// Where no process sleeps until a tick, a tick and a yield do the same
/// to the processes: the successor becomes the current process, and no
/// other process but the one that was current changes its state.
pub proof fn lemma_step_hands_over(s: TableView, e: Switch)
    requires
        s.wf(),
        s.no_timed_sleeper(),
    ensures
        s.step(e).wf(),
        s.step(e).no_timed_sleeper(),
        s.step(e).current == s.successor(),
        s.step(e).next_pid == s.next_pid,
        s.step(e).procs.dom() == s.procs.dom(),
        forall|q: Pid|
            s.procs.dom().contains(q) && q != s.current && q != s.successor() ==> (
            #[trigger] s.step(e).procs[q]).state == s.procs[q].state,
{
    lemma_step_wf(s, e);
    let t = s.step(e);
    match e {
        Switch::Yield(sp) => {
            lemma_successor(s);
            assert(t.procs.dom() =~= s.procs.dom());
        },
        Switch::Tick(sp) => {
            let a = s.advance();
            lemma_advance_wf(s);
            assert(a.procs =~= s.procs);
            lemma_successor(s);
            lemma_successor(a);
            if exists|p: Pid| s.runnable(p) {
                let p = choose|p: Pid| s.runnable(p);
                assert(a.runnable(p));
                let n = a.successor();
                assert(a.is_nearest(n));
                assert(s.runnable(n));
                assert forall|q: Pid| #[trigger] s.runnable(q) implies s.distance(n) <= s.distance(
                    q,
                ) by {
                    assert(a.runnable(q));
                    assert(a.distance(n) <= a.distance(q));
                }
                assert(s.is_nearest(n));
                lemma_nearest_unique(s, n, s.successor());
            } else {
                assert forall|p: Pid| !a.runnable(p) by {
                    if a.runnable(p) {
                        assert(s.runnable(p));
                    }
                }
            }
            assert(a.successor() == s.successor());
            assert(t.procs.dom() =~= s.procs.dom());
        },
    }
    assert forall|q: Pid| t.procs.dom().contains(q) implies !(#[trigger] t.procs[q].state matches State::Sleeping(
        Wake::At(_),
    )) by {
        assert(!(s.procs[q].state matches State::Sleeping(Wake::At(_))));
    }
}

/// The processes that can be given the CPU are finitely many, and those
/// ahead of one of them are fewer.
pub proof fn lemma_ahead_is_less(s: TableView, p: Pid)
    requires
        s.wf(),
        s.runnable(p),
    ensures
        s.waiting().finite(),
        s.ahead_of(p).finite(),
        s.ahead_of(p).len() + 1 <= s.waiting().len(),
{
    assert(s.waiting().subset_of(s.procs.dom()));
    vstd::set_lib::lemma_len_subset(s.waiting(), s.procs.dom());
    assert(s.ahead_of(p).subset_of(s.waiting().remove(p)));
    vstd::set_lib::lemma_len_subset(s.ahead_of(p), s.waiting().remove(p));
}

/// A process that can be given the CPU gets it after as many events as
/// there are such processes ahead of it in the round, and one more, as
/// long as no process sleeps until a tick.
pub proof fn lemma_turn_comes(s: TableView, p: Pid, es: Seq<Switch>)
    requires
        s.wf(),
        s.runnable(p),
        s.no_timed_sleeper(),
        es.len() == s.ahead_of(p).len() + 1,
    ensures
        s.run(es).current == p,
    decreases es.len(),
{
    let e = es.first();
    let t = s.step(e);
    let n = s.successor();
    let rest = es.drop_first();
    lemma_step_hands_over(s, e);
    lemma_successor(s);
    lemma_ahead_is_less(s, p);
    assert(s.is_nearest(n));
    assert(s.entry_wf(p));
    assert(s.entry_wf(n));
    assert(s.entry_wf(s.current));
    if n == p {
        assert(s.ahead_of(p) =~= Set::empty()) by {
            assert forall|q: Pid| !s.ahead_of(p).contains(q) by {
                if s.runnable(q) {
                    assert(s.distance(p) <= s.distance(q));
                }
            }
        }
        assert(rest.len() == 0);
        assert(t.run(rest) == t);
    } else {
        assert(s.distance(n) <= s.distance(p));
        assert(s.ahead_of(p).contains(n));
        assert(t.procs[p].state == s.procs[p].state);
        assert(t.runnable(p));
        assert(t.ahead_of(p) =~= s.ahead_of(p).remove(n)) by {
            assert forall|q: Pid| t.ahead_of(p).contains(q) <==> s.ahead_of(p).remove(n).contains(
                q,
            ) by {
                if t.runnable(q) && t.distance(q) < t.distance(p) {
                    assert(t.entry_wf(q));
                    assert(s.entry_wf(q));
                    if q != s.current {
                        assert(t.procs[q].state == s.procs[q].state);
                        assert(s.runnable(q));
                        assert(s.distance(n) <= s.distance(q));
                    }
                }
                if s.runnable(q) && s.distance(q) < s.distance(p) && q != n {
                    assert(s.entry_wf(q));
                    assert(t.procs[q].state == s.procs[q].state);
                    assert(s.distance(n) <= s.distance(q));
                    assert(t.runnable(q));
                }
            }
        }
        lemma_turn_comes(t, p, rest);
    }
}

/// Round-robin fairness: where `k` processes can be given the CPU and
/// none sleeps until a tick, each of them is the current process after
/// at most `k` events, ticks or yields.
pub proof fn lemma_round_robin(s: TableView, p: Pid, es: Seq<Switch>)
    requires
        s.wf(),
        s.runnable(p),
        s.no_timed_sleeper(),
        es.len() == s.waiting().len(),
    ensures
        exists|j: int| 1 <= j <= es.len() && #[trigger] s.run(es.take(j)).current == p,
{
    lemma_ahead_is_less(s, p);
    let j = s.ahead_of(p).len() + 1;
    lemma_turn_comes(s, p, es.take(j as int));
    assert(s.run(es.take(j as int)).current == p);
}

} // verus!
