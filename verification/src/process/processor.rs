//! The process table and its scheduler.

use vstd::prelude::*;
use crate::process::model::TableView;
use crate::process::process::{
    AddressSpace, ErrorCode, Pid, Process, ProcessView, State, WaitResult, WaitTarget, Wake,
    IDLE_PID, INIT_PID, KILL_CODE, MAX_PID,
};
use crate::process::storage::{
    children_distinct, holds, is_at, is_moved, lemma_advance_table,
    lemma_exit_adoptable, lemma_exit_table, lemma_moved_same, lemma_picked_is_successor,
    lemma_push_contains, lemma_remove_to_set, lemma_table_insert, lemma_table_is,
    lemma_table_len, lemma_table_of, lemma_table_remove, lemma_wait_found, lemma_wait_none,
    picked, place, ready_at, retired_state, rising, table_of, zombie_child_at,
};

verus! {

/// The process table: it owns every process, knows which one has the CPU,
/// and counts the timer's ticks.
#[derive(Debug)]
pub struct Processor {
    /// The processes, in rising order of pid.
    procs: Vec<Process>,
    current: Pid,
    tick_count: usize,
    next_pid: Pid,
    released: Vec<AddressSpace>,
}

/// Hands every process that names `pid` as its parent over to init, whose
/// place is `k`: its parent is now init, and init lists it as a child.
fn adopt_children(procs: &mut Vec<Process>, pid: Pid, k: usize)
    requires
        k < old(procs)@.len(),
        rising(old(procs)@),
        old(procs)@[k as int].children@.no_duplicates(),
        forall|y: int|
            0 <= y < old(procs)@.len() && (#[trigger] old(procs)@[y]).parent == Some(pid)
                ==> !old(procs)@[k as int].children@.contains(old(procs)@[y].pid),
    ensures
        final(procs)@.len() == old(procs)@.len(),
        forall|y: int|
            0 <= y < old(procs)@.len() ==> (#[trigger] final(procs)@[y]) == (Process {
                parent: if old(procs)@[y].parent == Some(pid) {
                    Some(INIT_PID)
                } else {
                    old(procs)@[y].parent
                },
                children: if y == k {
                    final(procs)@[y].children
                } else {
                    old(procs)@[y].children
                },
                ..old(procs)@[y]
            }),
        final(procs)@[k as int].children@.no_duplicates(),
        forall|c: Pid| #[trigger]
            final(procs)@[k as int].children@.contains(c) <==> old(procs)@[k as int].children@.contains(
                c,
            ) || is_moved(old(procs)@, pid, old(procs)@.len() as int, c),
{
    let ghost before = procs@;
    let n: usize = procs.len();
    let mut x: usize = 0;
    while x < n
        invariant
            before == old(procs)@,
            n == before.len(),
            procs@.len() == n,
            x <= n,
            k < n,
            rising(before),
            before[k as int].children@.no_duplicates(),
            forall|y: int|
                0 <= y < n && (#[trigger] before[y]).parent == Some(pid) ==> !before[k as int].children@.contains(
                    before[y].pid,
                ),
            forall|y: int|
                0 <= y < n ==> (#[trigger] procs@[y]) == (Process {
                    parent: if y < x && before[y].parent == Some(pid) {
                        Some(INIT_PID)
                    } else {
                        before[y].parent
                    },
                    children: if y == k {
                        procs@[y].children
                    } else {
                        before[y].children
                    },
                    ..before[y]
                }),
            procs@[k as int].children@.no_duplicates(),
            forall|c: Pid| #[trigger]
                procs@[k as int].children@.contains(c) <==> before[k as int].children@.contains(c)
                    || is_moved(before, pid, x as int, c),
        decreases n - x,
    {
        let ghost prev = procs@;
        let named: Option<Pid> = procs[x].parent;
        let hit: bool = match named {
            Some(q) => q == pid,
            None => false,
        };
        assert(hit == (before[x as int].parent == Some(pid)));
        if hit {
            let c: Pid = procs[x].pid;
            procs[x].parent = Some(INIT_PID);
            let ghost kids = procs@[k as int].children@;
            proof {
                assert(kids == prev[k as int].children@);
                lemma_push_contains(kids, c);
                if is_moved(before, pid, x as int, c) {
                    let y = choose|y: int|
                        0 <= y < x && y < before.len() && #[trigger] before[y].pid == c
                            && before[y].parent == Some(pid);
                    assert(before[y].pid < before[x as int].pid);
                }
                assert(!before[k as int].children@.contains(c));
            }
            procs[k].children.push(c);
            proof {
                assert(procs@[k as int].children@ == kids.push(c));
                assert forall|d: Pid| #[trigger]
                    procs@[k as int].children@.contains(d) <==> before[k as int].children@.contains(
                        d,
                    ) || is_moved(before, pid, x + 1, d) by {
                    if is_moved(before, pid, x + 1, d) {
                        let y = choose|y: int|
                            0 <= y < x + 1 && y < before.len() && #[trigger] before[y].pid == d
                                && before[y].parent == Some(pid);
                        if y < x {
                            assert(is_moved(before, pid, x as int, d));
                        }
                    }
                    if is_moved(before, pid, x as int, d) {
                        let y = choose|y: int|
                            0 <= y < x && y < before.len() && #[trigger] before[y].pid == d
                                && before[y].parent == Some(pid);
                        assert(is_moved(before, pid, x + 1, d));
                    }
                    if d == c {
                        assert(before[x as int].pid == d);
                        assert(is_moved(before, pid, x + 1, d));
                    }
                    assert(kids.push(c).contains(d) <==> kids.contains(d) || d == c);
                    assert(kids.contains(d) <==> before[k as int].children@.contains(d) || is_moved(
                        before,
                        pid,
                        x as int,
                        d,
                    ));
                }
            }
        } else {
            proof {
                assert forall|d: Pid| #![trigger procs@[k as int].children@.contains(d)]
                    is_moved(before, pid, x + 1, d) <==> is_moved(before, pid, x as int, d) by {
                    if is_moved(before, pid, x + 1, d) {
                        let y = choose|y: int|
                            0 <= y < x + 1 && y < before.len() && #[trigger] before[y].pid == d
                                && before[y].parent == Some(pid);
                        assert(y < x);
                    }
                    if is_moved(before, pid, x as int, d) {
                        let y = choose|y: int|
                            0 <= y < x && y < before.len() && #[trigger] before[y].pid == d
                                && before[y].parent == Some(pid);
                        assert(is_moved(before, pid, x + 1, d));
                    }
                }
            }
        }
        x += 1;
    }
}

/// Makes the process at `i` a zombie with `code`, takes its address space
/// from it, and wakes its parent, at `parent_at`, if that one slept until
/// a child ends. With `orphan`, the zombie's list of children is emptied.
fn retire(
    procs: &mut Vec<Process>,
    i: usize,
    code: ErrorCode,
    parent_at: Option<usize>,
    orphan: bool,
) -> (space: Option<AddressSpace>)
    requires
        i < old(procs)@.len(),
        match parent_at {
            Some(j) => j < old(procs)@.len(),
            None => true,
        },
    ensures
        final(procs)@.len() == old(procs)@.len(),
        space == old(procs)@[i as int].space,
        forall|y: int|
            0 <= y < old(procs)@.len() ==> (#[trigger] final(procs)@[y]) == (Process {
                state: retired_state(
                    old(procs)@[y].state,
                    y == i,
                    is_at(parent_at, y),
                    code,
                ),
                space: if y == i {
                    None
                } else {
                    old(procs)@[y].space
                },
                children: if y == i && orphan {
                    final(procs)@[y].children
                } else {
                    old(procs)@[y].children
                },
                ..old(procs)@[y]
            }),
        orphan ==> final(procs)@[i as int].children@ == Seq::<Pid>::empty(),
{
    let space: Option<AddressSpace> = procs[i].space;
    procs[i].space = None;
    procs[i].state = State::Zombie(code);
    match parent_at {
        Some(j) => {
            if j != i && procs[j].state == State::Sleeping(Wake::OnChildExit) {
                procs[j].state = State::Ready;
            }
        },
        None => {},
    }
    if orphan {
        procs[i].children = Vec::new();
    }
    space
}

/// Makes every process ready whose sleep ends by the tick count `now`.
fn wake_sleepers(procs: &mut Vec<Process>, now: usize)
    ensures
        final(procs)@.len() == old(procs)@.len(),
        forall|y: int|
            0 <= y < old(procs)@.len() ==> (#[trigger] final(procs)@[y]) == (Process {
                state: TableView::woken(old(procs)@[y].state, now),
                ..old(procs)@[y]
            }),
{
    let n: usize = procs.len();
    let mut x: usize = 0;
    while x < n
        invariant
            n == old(procs)@.len(),
            procs@.len() == n,
            x <= n,
            forall|y: int|
                0 <= y < x ==> (#[trigger] procs@[y]) == (Process {
                    state: TableView::woken(old(procs)@[y].state, now),
                    ..old(procs)@[y]
                }),
            forall|y: int| x <= y < n ==> (#[trigger] procs@[y]) == old(procs)@[y],
        decreases n - x,
    {
        if let State::Sleeping(Wake::At(t)) = procs[x].state {
            if t <= now {
                procs[x].state = State::Ready;
            }
        }
        x += 1;
    }
}

/// The place of `c` in the list `kids`.
fn find_child(kids: &Vec<Pid>, c: Pid) -> (r: Option<usize>)
    ensures
        match r {
            Some(at) => at < kids@.len() && kids@[at as int] == c,
            None => !kids@.contains(c),
        },
{
    let n: usize = kids.len();
    let mut x: usize = 0;
    while x < n
        invariant
            n == kids@.len(),
            x <= n,
            forall|y: int| 0 <= y < x ==> kids@[y] != c,
        decreases n - x,
    {
        if kids[x] == c {
            return Some(x);
        }
        x += 1;
    }
    None
}

impl View for Processor {
    type V = TableView;

    closed spec fn view(&self) -> TableView {
        TableView {
            procs: table_of(self.procs@),
            current: self.current,
            ticks: self.tick_count,
            next_pid: self.next_pid,
            released: self.released@,
        }
    }
}

impl Processor {
    /// What holds of the table's storage: the processes stand in rising
    /// order of pid, and no list of children names a pid twice.
    pub closed spec fn inv(&self) -> bool {
        &&& rising(self.procs@)
        &&& children_distinct(self.procs@)
    }

    /// The invariant of the table and of its storage.
    pub open spec fn wf(&self) -> bool {
        &&& self.inv()
        &&& self@.wf()
    }

    /// The place of the process `pid` in the table.
    fn index_of(&self, pid: Pid) -> (r: Option<usize>)
        requires
            rising(self.procs@),
        ensures
            match r {
                Some(i) => i < self.procs@.len() && self.procs@[i as int].pid == pid
                    && self@.procs.dom().contains(pid) && self@.procs[pid] == self.procs@[i as int]@,
                None => !self@.procs.dom().contains(pid),
            },
    {
        let n: usize = self.procs.len();
        let mut i: usize = 0;
        while i < n
            invariant
                rising(self.procs@),
                n == self.procs@.len(),
                i <= n,
                forall|k: int| 0 <= k < i ==> self.procs@[k].pid != pid,
            decreases n - i,
        {
            if self.procs[i].pid == pid {
                proof {
                    lemma_table_of(self.procs@);
                }
                return Some(i);
            }
            i += 1;
        }
        proof {
            if holds(self.procs@, pid) {
                let k = place(self.procs@, pid);
                assert(self.procs@[k].pid == pid);
            }
        }
        None
    }

    /// The place in the table of the process `pid`, which is in it.
    fn place_of(&self, pid: Pid) -> (i: usize)
        requires
            rising(self.procs@),
            self@.procs.dom().contains(pid),
        ensures
            i < self.procs@.len(),
            self.procs@[i as int].pid == pid,
            self@.procs[pid] == self.procs@[i as int]@,
    {
        proof {
            lemma_table_of(self.procs@);
        }
        let n: usize = self.procs.len();
        let mut i: usize = 0;
        while self.procs[i].pid != pid
            invariant
                n == self.procs@.len(),
                i <= place(self.procs@, pid) < n,
                self.procs@[place(self.procs@, pid)].pid == pid,
            decreases n - i,
        {
            i += 1;
        }
        proof {
            lemma_table_of(self.procs@);
        }
        i
    }

    /// The table that the kernel starts with: `init` is running and
    /// current under the pid `INIT_PID`, `idle` is ready under `IDLE_PID`.
    pub fn new(init: Process, idle: Process) -> (r: Processor)
        ensures
            r.wf(),
            r@ == TableView::seeded(init@, idle@),
    {
        let mut init = init;
        let mut idle = idle;
        init.pid = INIT_PID;
        init.parent = None;
        init.children = Vec::new();
        init.state = State::Running;
        idle.pid = IDLE_PID;
        idle.parent = None;
        idle.children = Vec::new();
        idle.state = State::Ready;
        let mut procs: Vec<Process> = Vec::new();
        procs.push(init);
        procs.push(idle);
        let r = Processor { procs, current: INIT_PID, tick_count: 0, next_pid: 3, released: Vec::new() };
        proof {
            let m = TableView::seeded(init@, idle@);
            assert(r.procs@[0].children@.to_set() =~= Set::empty());
            assert(r.procs@[1].children@.to_set() =~= Set::empty());
            assert forall|p: Pid| #[trigger] m.procs.dom().contains(p) implies holds(r.procs@, p) by {
                if p == INIT_PID {
                    assert(r.procs@[0].pid == p);
                } else {
                    assert(r.procs@[1].pid == p);
                }
            }
            lemma_table_is(r.procs@, m.procs);
            assert(r.released@ =~= Seq::empty());
            crate::process::laws::lemma_seeded_wf(init@, idle@);
        }
        r
    }

    /// Whether a pid is left for one more process.
    pub fn can_add(&self) -> (b: bool)
        ensures
            b == self@.can_add(),
    {
        self.next_pid <= MAX_PID
    }

    /// Adds `process` to the table as a ready process and returns its pid,
    /// the next one in line. The process keeps the parent that it names if
    /// that one is in the table and has not ended, and that parent gets it
    /// as a child; else it has no parent.
    pub fn add(&mut self, process: Process) -> (pid: Pid)
        requires
            old(self).wf(),
            old(self)@.can_add(),
        ensures
            final(self).wf(),
            final(self)@ == old(self)@.add(process@),
            pid == old(self)@.next_pid,
    {
        let ghost s = self@;
        let ghost given = process@;
        let pid: Pid = self.next_pid;
        let mut process = process;
        let parent: Option<Pid> = match process.parent {
            Some(q) => match self.index_of(q) {
                Some(j) => {
                    if let State::Zombie(_) = self.procs[j].state {
                        None
                    } else {
                        proof {
                            assert(s.entry_wf(q));
                            if self.procs@[j as int].children@.contains(pid) {
                                assert(s.procs[q].children.contains(pid));
                                assert(s.entry_wf(pid));
                            }
                            self.procs@[j as int].children@.lemma_push_to_set_commute(pid);
                        }
                        self.procs[j].children.push(pid);
                        Some(q)
                    }
                },
                None => None,
            },
            None => None,
        };
        assert(parent == s.adopted_by(given.parent));
        process.pid = pid;
        process.parent = parent;
        process.children = Vec::new();
        process.state = State::Ready;
        assert(process.children@.to_set() =~= Set::empty());
        assert(process@ == s.added_entry(given));
        let ghost mid = self.procs@;
        self.procs.push(process);
        self.next_pid = pid + 1;
        proof {
            let t = s.add(given);
            let old_procs = old(self).procs@;
            lemma_table_of(old_procs);
            assert(mid.len() == old_procs.len());
            assert forall|i: int| 0 <= i < old_procs.len() implies (#[trigger] mid[i]).pid
                == old_procs[i].pid && mid[i].pid < pid && t.procs.dom().contains(mid[i].pid)
                && t.procs[mid[i].pid] == mid[i]@ && mid[i].children@.no_duplicates() by {
                assert(s.procs.dom().contains(old_procs[i].pid));
                assert(s.entry_wf(old_procs[i].pid));
                assert(old_procs[i].children@.no_duplicates());
                if parent == Some(old_procs[i].pid) {
                    let q = old_procs[i].pid;
                    assert(mid[i].children@ == old_procs[i].children@.push(pid));
                    assert(mid[i]@ =~= (ProcessView {
                        children: s.procs[q].children.insert(pid),
                        ..s.procs[q]
                    }));
                } else {
                    assert(mid[i] == old_procs[i]);
                }
            }
            assert(rising(self.procs@)) by {
                assert forall|i: int, j: int| 0 <= i < j < self.procs@.len() implies self.procs@[i].pid
                    < self.procs@[j].pid by {
                    assert(self.procs@[i] == mid[i]);
                    if j < mid.len() {
                        assert(self.procs@[j] == mid[j]);
                        assert(old_procs[i].pid < old_procs[j].pid);
                    }
                }
            }
            assert(children_distinct(self.procs@)) by {
                assert forall|i: int| 0 <= i < self.procs@.len() implies (#[trigger] self.procs@[i]).children@.no_duplicates() by {
                    if i < mid.len() {
                        assert(self.procs@[i] == mid[i]);
                    }
                }
            }
            assert forall|i: int| 0 <= i < self.procs@.len() implies t.procs.dom().contains(
                #[trigger] self.procs@[i].pid,
            ) && t.procs[self.procs@[i].pid] == self.procs@[i]@ by {
                if i < mid.len() {
                    assert(self.procs@[i] == mid[i]);
                }
            }
            assert forall|p: Pid| #[trigger] t.procs.dom().contains(p) implies holds(self.procs@, p) by {
                if p == pid {
                    assert(self.procs@[mid.len() as int].pid == p);
                } else {
                    assert(s.procs.dom().contains(p));
                    let k = place(old_procs, p);
                    assert(self.procs@[k] == mid[k]);
                    assert(self.procs@[k].pid == p);
                }
            }
            lemma_table_is(self.procs@, t.procs);
            crate::process::laws::lemma_add_wf(s, given);
            assert(self@ == t);
        }
        pid
    }

    /// Hands `space` back: it joins the released address spaces, which the
    /// memory controller takes at the next `take_released`.
    pub fn release(&mut self, space: AddressSpace)
        requires
            old(self).wf(),
        ensures
            final(self).wf(),
            final(self)@ == old(self)@.release(space),
    {
        proof {
            crate::process::laws::lemma_release_wf(self@, space);
        }
        self.released.push(space);
    }

    /// Adds `process` as `add` does and returns its pid, where a pid is
    /// left. Where none is left, the table stays as it is, and the address
    /// space of `process` joins the released ones.
    pub fn try_add(&mut self, process: Process) -> (r: Option<Pid>)
        requires
            old(self).wf(),
        ensures
            final(self).wf(),
            final(self)@ == old(self)@.try_add(process@),
            r == if old(self)@.can_add() {
                Some(old(self)@.next_pid)
            } else {
                None
            },
    {
        if self.can_add() {
            Some(self.add(process))
        } else {
            match process.space {
                Some(a) => {
                    self.release(a);
                },
                None => {},
            }
            None
        }
    }

    /// Ends the process `pid` with `code`: it becomes a zombie, its address
    /// space joins the released ones, its parent is woken if it slept until
    /// a child ends, and its children become init's. Returns whether `pid`
    /// could end; where it could not, nothing changes.
    pub fn exit(&mut self, pid: Pid, code: ErrorCode) -> (done: bool)
        requires
            old(self).wf(),
        ensures
            final(self).wf(),
            final(self)@ == old(self)@.exit(pid, code),
            done == old(self)@.can_exit(pid),
    {
        let ghost s = self@;
        let ghost old_procs = self.procs@;
        let i: usize = match self.index_of(pid) {
            Some(i) => i,
            None => {
                return false;
            },
        };
        if pid == IDLE_PID {
            return false;
        }
        if let State::Zombie(_) = self.procs[i].state {
            return false;
        }
        proof {
            assert(s.entry_wf(pid));
        }
        let k: usize = self.place_of(INIT_PID);
        let parent_at: Option<usize> = match self.procs[i].parent {
            Some(q) => Some(self.place_of(q)),
            None => None,
        };
        let space: Option<AddressSpace> = retire(&mut self.procs, i, code, parent_at, pid != INIT_PID);
        match space {
            Some(a) => {
                self.released.push(a);
            },
            None => {},
        }
        if pid != INIT_PID {
            let ghost mid = self.procs@;
            proof {
                lemma_exit_adoptable(s, old_procs, mid, pid, i as int, k as int);
            }
            adopt_children(&mut self.procs, pid, k);
            proof {
                lemma_moved_same(old_procs, mid, pid);
            }
        }
        proof {
            lemma_exit_table(s, old_procs, self.procs@, pid, code, i as int, k as int, parent_at);
            crate::process::laws::lemma_exit_wf(s, pid, code);
        }
        true
    }

    /// Kills the process `pid`: it ends with `KILL_CODE`. The current
    /// process stays current even where it is the one killed; it leaves
    /// the CPU at the next switch and never gets it back.
    pub fn kill(&mut self, pid: Pid) -> (done: bool)
        requires
            old(self).wf(),
        ensures
            final(self).wf(),
            final(self)@ == old(self)@.kill(pid),
            done == old(self)@.can_exit(pid),
    {
        self.exit(pid, KILL_CODE)
    }

    /// Puts the process `pid` to sleep: for `ticks` timer ticks, or until
    /// one of its children ends where `ticks` is zero. Returns whether
    /// `pid` could sleep; where it could not, nothing changes.
    pub fn sleep(&mut self, pid: Pid, ticks: usize) -> (done: bool)
        requires
            old(self).wf(),
            old(self)@.ticks + ticks <= usize::MAX,
        ensures
            final(self).wf(),
            final(self)@ == old(self)@.sleep(pid, ticks),
            done == old(self)@.can_sleep(pid),
    {
        let ghost s = self@;
        let ghost old_procs = self.procs@;
        let i: usize = match self.index_of(pid) {
            Some(i) => i,
            None => {
                return false;
            },
        };
        if pid == IDLE_PID {
            return false;
        }
        match self.procs[i].state {
            State::Ready => {},
            State::Running => {},
            _ => {
                return false;
            },
        }
        let wake: Wake = if ticks == 0 {
            Wake::OnChildExit
        } else {
            Wake::At(self.tick_count + ticks)
        };
        self.procs[i].state = State::Sleeping(wake);
        proof {
            lemma_table_insert(old_procs, self.procs@, i as int);
            assert(old_procs[i as int].children@.no_duplicates());
            crate::process::laws::lemma_sleep_wf(s, pid, ticks);
        }
        true
    }

    /// The first place in `from..to` of a ready process other than idle.
    fn first_ready(&self, from: usize, to: usize) -> (r: Option<usize>)
        requires
            from <= to <= self.procs@.len(),
        ensures
            match r {
                Some(x) => from <= x < to && ready_at(self.procs@, x as int) && forall|y: int|
                    from <= y < x ==> !ready_at(self.procs@, y),
                None => forall|y: int| from <= y < to ==> !ready_at(self.procs@, y),
            },
    {
        let mut x: usize = from;
        while x < to
            invariant
                from <= x <= to <= self.procs@.len(),
                forall|y: int| from <= y < x ==> !ready_at(self.procs@, y),
            decreases to - x,
        {
            if self.procs[x].pid != IDLE_PID {
                if let State::Ready = self.procs[x].state {
                    return Some(x);
                }
            }
            x += 1;
        }
        None
    }

    /// Switches away from the current process: `*rsp`, the stack pointer
    /// of the caller, is saved in its context, and it is ready again if it
    /// was running. The ready process that follows it in rising order of
    /// pid, going round once and passing over idle, becomes the running
    /// and current one; where none is ready, idle does. `*rsp` is then the
    /// stack pointer saved for that process.
    pub fn schedule(&mut self, rsp: &mut usize)
        requires
            old(self).wf(),
        ensures
            final(self).wf(),
            final(self)@ == old(self)@.schedule(*old(rsp)),
            *final(rsp) == old(self)@.resumed_sp(*old(rsp)),
    {
        let ghost s = self@;
        let ghost old_procs = self.procs@;
        let n: usize = self.procs.len();
        let ci: usize = self.place_of(self.current);
        let ni: usize = match self.first_ready(ci + 1, n) {
            Some(x) => x,
            None => match self.first_ready(0, ci) {
                Some(x) => x,
                None => self.place_of(IDLE_PID),
            },
        };
        proof {
            assert(picked(old_procs, ci as int, ni as int));
            lemma_picked_is_successor(s, old_procs, ci as int, ni as int);
            assert(old_procs[ci as int].children@.no_duplicates());
            assert(old_procs[ni as int].children@.no_duplicates());
        }
        let sp: usize = *rsp;
        if let State::Running = self.procs[ci].state {
            self.procs[ci].state = State::Ready;
        }
        self.procs[ci].context.sp = sp;
        let ghost mid = self.procs@;
        self.procs[ni].state = State::Running;
        *rsp = self.procs[ni].context.sp;
        self.current = self.procs[ni].pid;
        proof {
            lemma_table_of(old_procs);
            lemma_table_insert(old_procs, mid, ci as int);
            lemma_table_of(mid);
            lemma_table_insert(mid, self.procs@, ni as int);
            assert(mid[ci as int]@ == s.parked(sp).procs[s.current]);
            assert(table_of(mid) == s.parked(sp).procs);
            crate::process::laws::lemma_schedule_wf(s, sp);
        }
    }

    /// Handles one timer tick: counts it, makes every process ready whose
    /// sleep ends by the new count, and switches as `schedule` does.
    pub fn tick(&mut self, rsp: &mut usize)
        requires
            old(self).wf(),
            old(self)@.ticks < usize::MAX,
        ensures
            final(self).wf(),
            final(self)@ == old(self)@.tick(*old(rsp)),
            *final(rsp) == old(self)@.advance().resumed_sp(*old(rsp)),
    {
        let ghost s = self@;
        let ghost old_procs = self.procs@;
        self.tick_count = self.tick_count + 1;
        wake_sleepers(&mut self.procs, self.tick_count);
        proof {
            lemma_advance_table(s, old_procs, self.procs@);
            crate::process::laws::lemma_advance_wf(s);
            assert(self@ == s.advance());
        }
        self.schedule(rsp);
    }

    /// Hands out the address spaces of the processes that ended since the
    /// last call, oldest first, for the memory controller to take back.
    pub fn take_released(&mut self) -> (r: Vec<AddressSpace>)
        requires
            old(self).wf(),
        ensures
            final(self).wf(),
            r@ == old(self)@.released,
            final(self)@ == old(self)@.drained(),
    {
        let mut out: Vec<AddressSpace> = Vec::new();
        core::mem::swap(&mut self.released, &mut out);
        assert(self.released@ =~= Seq::empty());
        out
    }

    /// The first place of an ended child of the current process that
    /// `target` names.
    fn first_zombie_child(&self, target: WaitTarget) -> (r: Option<usize>)
        ensures
            match r {
                Some(x) => x < self.procs@.len() && zombie_child_at(
                    self.procs@,
                    self.current,
                    target,
                    x as int,
                ) && forall|y: int|
                    0 <= y < x ==> !zombie_child_at(self.procs@, self.current, target, y),
                None => forall|y: int|
                    0 <= y < self.procs@.len() ==> !zombie_child_at(
                        self.procs@,
                        self.current,
                        target,
                        y,
                    ),
            },
    {
        let n: usize = self.procs.len();
        let mut x: usize = 0;
        while x < n
            invariant
                n == self.procs@.len(),
                x <= n,
                forall|y: int| 0 <= y < x ==> !zombie_child_at(self.procs@, self.current, target, y),
            decreases n - x,
        {
            let of_current: bool = match self.procs[x].parent {
                Some(q) => q == self.current,
                None => false,
            };
            let named: bool = match target {
                WaitTarget::AnyChild => true,
                WaitTarget::Proc(p) => p == self.procs[x].pid,
            };
            if of_current && named {
                if let State::Zombie(_) = self.procs[x].state {
                    return Some(x);
                }
            }
            x += 1;
        }
        None
    }

    /// Looks for an ended child of the current process that `target`
    /// names. If there is one, the one with the lowest pid leaves the
    /// table and the children of the current process, and its pid and code
    /// are returned. If `target` names children and none has ended, the
    /// answer is `Blocked`; if it names none, `NotExist`. In both cases
    /// nothing changes, and in no case does the current process leave the
    /// CPU or change its state.
    pub fn current_wait_for(&mut self, target: WaitTarget) -> (r: WaitResult)
        requires
            old(self).wf(),
        ensures
            final(self).wf(),
            r == old(self)@.wait_result(target),
            final(self)@ == old(self)@.after_wait(target),
    {
        let ghost s = self@;
        let ghost old_procs = self.procs@;
        let ci: usize = self.place_of(self.current);
        proof {
            lemma_table_of(old_procs);
            assert(s.entry_wf(s.current));
        }
        match self.first_zombie_child(target) {
            Some(x) => {
                let c: Pid = self.procs[x].pid;
                let code: ErrorCode = match self.procs[x].state {
                    State::Zombie(code) => code,
                    _ => 0,
                };
                proof {
                    lemma_wait_found(s, old_procs, target, x as int);
                    crate::process::laws::lemma_reap_wf(s, c);
                    assert(old_procs[ci as int].children@.no_duplicates());
                    assert(old_procs[ci as int].children@.contains(c));
                    if x < ci {
                        assert(old_procs[x as int].pid < old_procs[ci as int].pid);
                    }
                }
                match find_child(&self.procs[ci].children, c) {
                    Some(at) => {
                        proof {
                            lemma_remove_to_set(old_procs[ci as int].children@, at as int);
                        }
                        self.procs[ci].children.remove(at);
                    },
                    None => {},
                }
                let ghost mid = self.procs@;
                self.procs.remove(x);
                proof {
                    lemma_table_insert(old_procs, mid, ci as int);
                    lemma_table_remove(mid, x as int);
                    let t = s.reap(c);
                    assert(mid[ci as int]@ =~= (ProcessView {
                        children: s.procs[s.current].children.remove(c),
                        ..s.procs[s.current]
                    }));
                    assert(table_of(self.procs@) =~= t.procs);
                    assert(self@ == t);
                }
                WaitResult::Reaped(c, code)
            },
            None => {
                proof {
                    lemma_wait_none(s, old_procs, target);
                }
                let kids: &Vec<Pid> = &self.procs[ci].children;
                let any: bool = match target {
                    WaitTarget::AnyChild => kids.len() > 0,
                    WaitTarget::Proc(p) => find_child(kids, p).is_some(),
                };
                proof {
                    if any {
                        let w: Pid = match target {
                            WaitTarget::AnyChild => kids@[0],
                            WaitTarget::Proc(p) => p,
                        };
                        assert(kids@.contains(w));
                        assert(s.awaited(target, w));
                    } else {
                        assert forall|c: Pid| !s.awaited(target, c) by {
                            if s.awaited(target, c) {
                                assert(kids@.contains(c));
                                let a = choose|a: int| 0 <= a < kids@.len() && kids@[a] == c;
                            }
                        }
                    }
                }
                if any {
                    WaitResult::Blocked
                } else {
                    WaitResult::NotExist
                }
            },
        }
    }

    /// The process that has the CPU.
    pub fn current(&self) -> (p: &Process)
        requires
            self.wf(),
        ensures
            p@ == self@.procs[self@.current],
    {
        let i: usize = self.place_of(self.current);
        &self.procs[i]
    }

    /// The pid of the process that has the CPU.
    pub fn current_pid(&self) -> (r: Pid)
        ensures
            r == self@.current,
    {
        self.current
    }

    /// The process with the pid `pid`, if it is in the table.
    pub fn get(&self, pid: Pid) -> (r: Option<&Process>)
        requires
            self.wf(),
        ensures
            match r {
                Some(p) => self@.procs.dom().contains(pid) && p@ == self@.procs[pid],
                None => !self@.procs.dom().contains(pid),
            },
    {
        match self.index_of(pid) {
            Some(i) => Some(&self.procs[i]),
            None => None,
        }
    }

    /// The number of processes in the table, live or zombie.
    pub fn len(&self) -> (n: usize)
        requires
            self.wf(),
        ensures
            n == self@.procs.dom().len(),
    {
        proof {
            lemma_table_len(self.procs@);
        }
        self.procs.len()
    }

    /// The number of timer ticks counted so far.
    pub fn get_time(&self) -> (t: usize)
        ensures
            t == self@.ticks,
    {
        self.tick_count
    }
}

} // verus!
