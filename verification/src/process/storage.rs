//! How the table is stored: the processes as a sequence in rising order
//! of pid, and what ties that sequence to the table it stands for.

use vstd::prelude::*;
use crate::process::model::TableView;
use crate::process::process::{
    ErrorCode, Pid, Process, ProcessView, State, WaitResult, WaitTarget, Wake, IDLE_PID,
    INIT_PID,
};

verus! {

/// Whether the pids of `s` rise strictly.
pub(crate) open spec fn rising(s: Seq<Process>) -> bool {
    forall|i: int, j: int| 0 <= i < j < s.len() ==> s[i].pid < s[j].pid
}

/// Whether no process of `s` lists a child twice.
pub(crate) open spec fn children_distinct(s: Seq<Process>) -> bool {
    forall|i: int| 0 <= i < s.len() ==> (#[trigger] s[i]).children@.no_duplicates()
}

/// Whether some process of `s` has the pid `p`.
pub(crate) open spec fn holds(s: Seq<Process>, p: Pid) -> bool {
    exists|i: int| 0 <= i < s.len() && #[trigger] s[i].pid == p
}

/// The place in `s` of a process with the pid `p`.
pub(crate) open spec fn place(s: Seq<Process>, p: Pid) -> int {
    choose|i: int| 0 <= i < s.len() && #[trigger] s[i].pid == p
}

/// The processes of `s` by pid.
pub(crate) open spec fn table_of(s: Seq<Process>) -> Map<Pid, ProcessView> {
    Map::new(|p: Pid| holds(s, p), |p: Pid| s[place(s, p)]@)
}

/// In a sequence with rising pids, each process is found under its pid.
pub(crate) proof fn lemma_table_of(s: Seq<Process>)
    requires
        rising(s),
    ensures
        forall|i: int|
            0 <= i < s.len() ==> table_of(s).dom().contains(#[trigger] s[i].pid) && table_of(
                s,
            )[s[i].pid] == s[i]@,
        forall|p: Pid| #[trigger]
            table_of(s).dom().contains(p) ==> 0 <= place(s, p) < s.len() && s[place(s, p)].pid
                == p,
{
    assert forall|i: int| 0 <= i < s.len() implies table_of(s).dom().contains(
        #[trigger] s[i].pid,
    ) && table_of(s)[s[i].pid] == s[i]@ by {
        let p = s[i].pid;
        assert(holds(s, p));
        let k = place(s, p);
        assert(0 <= k < s.len() && s[k].pid == p);
        if k < i {
            assert(s[k].pid < s[i].pid);
        }
        if i < k {
            assert(s[i].pid < s[k].pid);
        }
    }
}

/// A map that holds each process of `s` under its pid, and nothing else,
/// is the table of `s`.
pub(crate) proof fn lemma_table_is(s: Seq<Process>, m: Map<Pid, ProcessView>)
    requires
        rising(s),
        forall|i: int| 0 <= i < s.len() ==> m.dom().contains(#[trigger] s[i].pid) && m[s[i].pid] == s[i]@,
        forall|p: Pid| #[trigger] m.dom().contains(p) ==> holds(s, p),
    ensures
        table_of(s) == m,
{
    lemma_table_of(s);
    assert forall|p: Pid| table_of(s).dom().contains(p) == m.dom().contains(p) by {
        if holds(s, p) {
            let k = place(s, p);
            assert(m.dom().contains(s[k].pid));
        }
    }
    assert forall|p: Pid| table_of(s).dom().contains(p) implies #[trigger] table_of(s)[p] == m[p] by {
        let k = place(s, p);
        assert(m[s[k].pid] == s[k]@);
    }
    assert(table_of(s) =~= m);
}

/// The table of a sequence is finite.
pub(crate) proof fn lemma_table_finite(s: Seq<Process>)
    ensures
        table_of(s).dom().finite(),
    decreases s.len(),
{
    if s.len() == 0 {
        assert(table_of(s).dom() =~= Set::empty());
    } else {
        let t = s.drop_last();
        lemma_table_finite(t);
        assert forall|p: Pid| table_of(s).dom().contains(p) == table_of(t).dom().insert(
            s.last().pid,
        ).contains(p) by {
            if holds(s, p) {
                let k = place(s, p);
                if k < s.len() - 1 {
                    assert(t[k].pid == p);
                }
            }
            if holds(t, p) {
                let k = place(t, p);
                assert(s[k].pid == p);
            }
            if p == s.last().pid {
                assert(s[s.len() - 1].pid == p);
            }
        }
        assert(table_of(s).dom() =~= table_of(t).dom().insert(s.last().pid));
    }
}

/// Whether one of the first `x` processes of `s` has the pid `c` and names
/// `pid` as its parent.
pub(crate) open spec fn is_moved(s: Seq<Process>, pid: Pid, x: int, c: Pid) -> bool {
    exists|y: int| 0 <= y < x && y < s.len() && #[trigger] s[y].pid == c && s[y].parent == Some(pid)
}

/// What a list holds after one more pid was put at its end.
pub(crate) proof fn lemma_push_contains(v: Seq<Pid>, c: Pid)
    ensures
        forall|d: Pid| #[trigger] v.push(c).contains(d) <==> v.contains(d) || d == c,
        v.no_duplicates() && !v.contains(c) ==> v.push(c).no_duplicates(),
{
    let w = v.push(c);
    assert forall|d: Pid| #[trigger] w.contains(d) <==> v.contains(d) || d == c by {
        if v.contains(d) {
            let i = choose|i: int| 0 <= i < v.len() && v[i] == d;
            assert(w[i] == d);
        }
        if d == c {
            assert(w[v.len() as int] == d);
        }
        if w.contains(d) {
            let i = choose|i: int| 0 <= i < w.len() && w[i] == d;
            if i < v.len() {
                assert(v[i] == d);
            }
        }
    }
    if v.no_duplicates() && !v.contains(c) {
        assert forall|i: int, j: int| 0 <= i < w.len() && 0 <= j < w.len() && i != j implies w[i]
            != w[j] by {
            if i < v.len() && j < v.len() {
                assert(v[i] != v[j]);
            } else if i < v.len() {
                assert(v.contains(v[i]));
            } else if j < v.len() {
                assert(v.contains(v[j]));
            }
        }
    }
}

/// Whether `at` names the place `y`.
pub(crate) open spec fn is_at(at: Option<usize>, y: int) -> bool {
    match at {
        Some(j) => j == y,
        None => false,
    }
}

/// The state of a process after another one ended: a zombie if it is the
/// one that ended; ready if it is that one's parent and slept until a child
/// ends; else as before.
pub(crate) open spec fn retired_state(old: State, target: bool, parent: bool, code: ErrorCode) -> State {
    if target {
        State::Zombie(code)
    } else if parent && old == State::Sleeping(Wake::OnChildExit) {
        State::Ready
    } else {
        old
    }
}

/// Whether `fin` is `old` after the process at `i`, with pid `pid`, ended
/// with `code`, where init stands at `k` and the parent at `j`.
pub(crate) open spec fn exit_step(
    old: Seq<Process>,
    fin: Seq<Process>,
    pid: Pid,
    code: ErrorCode,
    i: int,
    k: int,
    j: Option<usize>,
) -> bool {
    &&& fin.len() == old.len()
    &&& forall|y: int|
        0 <= y < old.len() ==> {
            &&& (#[trigger] fin[y]).pid == old[y].pid
            &&& fin[y].name == old[y].name
            &&& fin[y].context == old[y].context
            &&& fin[y].state == retired_state(old[y].state, y == i, is_at(j, y), code)
            &&& fin[y].space == if y == i {
                None
            } else {
                old[y].space
            }
            &&& fin[y].parent == if pid != INIT_PID && old[y].parent == Some(pid) {
                Some(INIT_PID)
            } else {
                old[y].parent
            }
            &&& (pid == INIT_PID || (y != i && y != k)) ==> fin[y].children == old[y].children
        }
    &&& pid != INIT_PID ==> {
        &&& fin[i].children@ == Seq::<Pid>::empty()
        &&& fin[k].children@.no_duplicates()
        &&& forall|c: Pid| #[trigger]
            fin[k].children@.contains(c) <==> old[k].children@.contains(c) || is_moved(
                old,
                pid,
                old.len() as int,
                c,
            )
    }
}

/// Two sequences whose processes agree on pid and parent hand over the same
/// children.
pub(crate) proof fn lemma_moved_same(a: Seq<Process>, b: Seq<Process>, pid: Pid)
    requires
        a.len() == b.len(),
        forall|y: int| 0 <= y < a.len() ==> (#[trigger] b[y]).pid == a[y].pid && b[y].parent == a[y].parent,
    ensures
        forall|c: Pid, x: int| #[trigger] is_moved(a, pid, x, c) == is_moved(b, pid, x, c),
{
    assert forall|c: Pid, x: int| #[trigger] is_moved(a, pid, x, c) == is_moved(b, pid, x, c) by {
        if is_moved(a, pid, x, c) {
            let y = choose|y: int|
                0 <= y < x && y < a.len() && #[trigger] a[y].pid == c && a[y].parent == Some(pid);
            assert(b[y].pid == c && b[y].parent == Some(pid));
        }
        if is_moved(b, pid, x, c) {
            let y = choose|y: int|
                0 <= y < x && y < b.len() && #[trigger] b[y].pid == c && b[y].parent == Some(pid);
            assert(b[y].pid == a[y].pid);
            assert(a[y].pid == c && a[y].parent == Some(pid));
        }
    }
}

/// After the first phase of an exit, init does not list any of the
/// children that are about to be handed to it.
pub(crate) proof fn lemma_exit_adoptable(
    s: TableView,
    old: Seq<Process>,
    mid: Seq<Process>,
    pid: Pid,
    i: int,
    k: int,
)
    requires
        s.wf(),
        rising(old),
        children_distinct(old),
        s.procs == table_of(old),
        pid != INIT_PID,
        0 <= i < old.len(),
        0 <= k < old.len(),
        old[i].pid == pid,
        old[k].pid == INIT_PID,
        mid.len() == old.len(),
        forall|y: int|
            0 <= y < old.len() ==> (#[trigger] mid[y]).pid == old[y].pid && mid[y].parent
                == old[y].parent && (y != i ==> mid[y].children == old[y].children),
    ensures
        rising(mid),
        mid[k].children@.no_duplicates(),
        forall|y: int|
            0 <= y < mid.len() && (#[trigger] mid[y]).parent == Some(pid) ==> !mid[k].children@.contains(
                mid[y].pid,
            ),
{
    lemma_table_of(old);
    assert(old[k].children@.no_duplicates());
    assert(mid[k].children == old[k].children);
    assert(s.entry_wf(INIT_PID));
    assert forall|a: int, b: int| 0 <= a < b < mid.len() implies mid[a].pid < mid[b].pid by {
        assert(old[a].pid < old[b].pid);
        assert(mid[a].pid == old[a].pid);
        assert(mid[b].pid == old[b].pid);
    }
    assert forall|y: int| 0 <= y < mid.len() && (#[trigger] mid[y]).parent == Some(pid) implies !mid[k].children@.contains(
        mid[y].pid,
    ) by {
        let c = mid[y].pid;
        assert(old[y].pid == c && old[y].parent == Some(pid));
        assert(s.procs[c] == old[y]@);
        if old[k].children@.contains(c) {
            assert(s.procs[INIT_PID] == old[k]@);
            assert(s.procs[INIT_PID].children.contains(c));
        }
    }
}

/// The entry of one process after an exit, as the storage holds it, is the
/// entry that the model gives.
pub(crate) proof fn lemma_exit_entry(
    s: TableView,
    old: Seq<Process>,
    fin: Seq<Process>,
    pid: Pid,
    code: ErrorCode,
    i: int,
    k: int,
    j: Option<usize>,
    x: int,
)
    requires
        s.wf(),
        rising(old),
        s.procs == table_of(old),
        s.can_exit(pid),
        0 <= i < old.len(),
        0 <= k < old.len(),
        old[i].pid == pid,
        old[k].pid == INIT_PID,
        match old[i].parent {
            Some(q) => j is Some && j->0 < old.len() && old[j->0 as int].pid == q,
            None => j is None,
        },
        exit_step(old, fin, pid, code, i, k, j),
        0 <= x < old.len(),
    ensures
        fin[x]@ == s.exit_entry(pid, code, old[x].pid),
{
    lemma_table_of(old);
    let q = old[x].pid;
    let want = s.exit_entry(pid, code, q);
    assert(s.procs[q] == old[x]@);
    assert(s.procs[pid] == old[i]@);
    assert(s.procs[INIT_PID] == old[k]@);
    assert(s.entry_wf(pid));
    assert(fin[x].pid == old[x].pid);
    if x != i {
        if x < i {
            assert(old[x].pid < old[i].pid);
        } else {
            assert(old[i].pid < old[x].pid);
        }
    }
    if x != k {
        if x < k {
            assert(old[x].pid < old[k].pid);
        } else {
            assert(old[k].pid < old[x].pid);
        }
    }
    match j {
        Some(jj) => {
            if x != jj {
                if x < jj {
                    assert(old[x].pid < old[jj as int].pid);
                } else {
                    assert(old[jj as int].pid < old[x].pid);
                }
            }
        },
        None => {},
    }
    assert(fin[x].state == want.state);
    assert(fin[x].parent == want.parent);
    assert(fin[x]@.children =~= want.children) by {
        if pid != INIT_PID {
            if x == i {
            } else if x == k {
                assert forall|c: Pid| fin[k].children@.to_set().contains(c) <==> want.children.contains(c) by {
                    assert(fin[k].children@.contains(c) <==> old[k].children@.contains(c) || is_moved(
                        old,
                        pid,
                        old.len() as int,
                        c,
                    ));
                    if is_moved(old, pid, old.len() as int, c) {
                        let y = choose|y: int|
                            0 <= y < old.len() && y < old.len() && #[trigger] old[y].pid == c
                                && old[y].parent == Some(pid);
                        assert(s.procs[c] == old[y]@);
                        assert(s.procs.dom().contains(c));
                        assert(s.entry_wf(c));
                    }
                    if s.procs[pid].children.contains(c) {
                        assert(s.procs.dom().contains(c));
                        let y = place(old, c);
                        assert(old[y].pid == c);
                        assert(s.procs[c] == old[y]@);
                        assert(is_moved(old, pid, old.len() as int, c));
                    }
                }
            }
        }
    }
    assert(fin[x]@ =~= want);
}

/// After an exit, the storage holds the table that the model gives.
pub(crate) proof fn lemma_exit_table(
    s: TableView,
    old: Seq<Process>,
    fin: Seq<Process>,
    pid: Pid,
    code: ErrorCode,
    i: int,
    k: int,
    j: Option<usize>,
)
    requires
        s.wf(),
        rising(old),
        children_distinct(old),
        s.procs == table_of(old),
        s.can_exit(pid),
        0 <= i < old.len(),
        0 <= k < old.len(),
        old[i].pid == pid,
        old[k].pid == INIT_PID,
        match old[i].parent {
            Some(q) => j is Some && j->0 < old.len() && old[j->0 as int].pid == q,
            None => j is None,
        },
        exit_step(old, fin, pid, code, i, k, j),
    ensures
        rising(fin),
        children_distinct(fin),
        table_of(fin) == s.exit(pid, code).procs,
{
    let t = s.exit(pid, code);
    lemma_table_of(old);
    assert forall|a: int, b: int| 0 <= a < b < fin.len() implies fin[a].pid < fin[b].pid by {
        assert(old[a].pid < old[b].pid);
        assert(fin[a].pid == old[a].pid);
        assert(fin[b].pid == old[b].pid);
    }
    assert forall|y: int| 0 <= y < fin.len() implies (#[trigger] fin[y]).children@.no_duplicates() by {
        assert(old[y].children@.no_duplicates());
        assert(fin[y].pid == old[y].pid);
    }
    assert forall|y: int| 0 <= y < fin.len() implies t.procs.dom().contains(#[trigger] fin[y].pid)
        && t.procs[fin[y].pid] == fin[y]@ by {
        lemma_exit_entry(s, old, fin, pid, code, i, k, j, y);
        assert(s.procs.dom().contains(old[y].pid));
    }
    assert forall|p: Pid| #[trigger] t.procs.dom().contains(p) implies holds(fin, p) by {
        let y = place(old, p);
        assert(fin[y].pid == p);
    }
    lemma_table_is(fin, t.procs);
}

/// Replacing one process by one with the same pid replaces its entry in
/// the table.
pub(crate) proof fn lemma_table_insert(old: Seq<Process>, fin: Seq<Process>, i: int)
    requires
        rising(old),
        0 <= i < old.len(),
        fin.len() == old.len(),
        fin[i].pid == old[i].pid,
        forall|y: int| 0 <= y < old.len() && y != i ==> #[trigger] fin[y] == old[y],
    ensures
        rising(fin),
        table_of(fin) == table_of(old).insert(old[i].pid, fin[i]@),
        children_distinct(old) && fin[i].children@.no_duplicates() ==> children_distinct(fin),
{
    let m = table_of(old).insert(old[i].pid, fin[i]@);
    lemma_table_of(old);
    assert forall|a: int, b: int| 0 <= a < b < fin.len() implies fin[a].pid < fin[b].pid by {
        assert(old[a].pid < old[b].pid);
        assert(a != i ==> fin[a] == old[a]);
        assert(b != i ==> fin[b] == old[b]);
    }
    assert forall|y: int| 0 <= y < fin.len() implies m.dom().contains(#[trigger] fin[y].pid) && m[fin[y].pid]
        == fin[y]@ by {
        if y != i {
            assert(fin[y] == old[y]);
            if y < i {
                assert(old[y].pid < old[i].pid);
            } else {
                assert(old[i].pid < old[y].pid);
            }
        }
    }
    assert forall|p: Pid| #[trigger] m.dom().contains(p) implies holds(fin, p) by {
        if p == old[i].pid {
            assert(fin[i].pid == p);
        } else {
            let y = place(old, p);
            assert(fin[y] == old[y]);
            assert(fin[y].pid == p);
        }
    }
    lemma_table_is(fin, m);
    if children_distinct(old) && fin[i].children@.no_duplicates() {
        assert forall|y: int| 0 <= y < fin.len() implies (#[trigger] fin[y]).children@.no_duplicates() by {
            if y != i {
                assert(fin[y] == old[y]);
                assert(old[y].children@.no_duplicates());
            }
        }
    }
}

/// Whether the process at `y` is ready and not the idle one.
pub(crate) open spec fn ready_at(s: Seq<Process>, y: int) -> bool {
    s[y].state == State::Ready && s[y].pid != IDLE_PID
}

/// Whether the scan from the place `ci` of the current process stops at
/// `ni`: at the first ready process behind `ci`, going round once, or at
/// the idle process where none is ready.
pub(crate) open spec fn picked(s: Seq<Process>, ci: int, ni: int) -> bool {
    &&& 0 <= ci < s.len()
    &&& 0 <= ni < s.len()
    &&& if ready_at(s, ni) && ni > ci {
        forall|y: int| ci < y < ni ==> !ready_at(s, y)
    } else if ready_at(s, ni) && ni < ci {
        &&& forall|y: int| ci < y < s.len() ==> !ready_at(s, y)
        &&& forall|y: int| 0 <= y < ni ==> !ready_at(s, y)
    } else {
        &&& s[ni].pid == IDLE_PID
        &&& forall|y: int| 0 <= y < s.len() && y != ci ==> !ready_at(s, y)
    }
}

/// The process at which the scan stops is the successor.
pub(crate) proof fn lemma_picked_is_successor(s: TableView, procs: Seq<Process>, ci: int, ni: int)
    requires
        s.wf(),
        rising(procs),
        s.procs == table_of(procs),
        picked(procs, ci, ni),
        procs[ci].pid == s.current,
    ensures
        procs[ni].pid == s.successor(),
{
    lemma_table_of(procs);
    let p = procs[ni].pid;
    assert(s.procs[p] == procs[ni]@);
    assert(s.entry_wf(p));
    assert(s.entry_wf(s.current));
    if ready_at(procs, ni) && ni != ci {
        if ni < ci {
            assert(procs[ni].pid < procs[ci].pid);
        } else {
            assert(procs[ci].pid < procs[ni].pid);
        }
        assert(s.runnable(p));
        assert forall|q: Pid| #[trigger] s.runnable(q) implies s.distance(p) <= s.distance(q) by {
            let y = place(procs, q);
            assert(procs[y].pid == q);
            assert(s.procs[q] == procs[y]@);
            assert(s.entry_wf(q));
            assert(ready_at(procs, y));
            if y < ci {
                assert(procs[y].pid < procs[ci].pid);
            }
            if y > ci {
                assert(procs[ci].pid < procs[y].pid);
            }
            if y < ni {
                assert(procs[y].pid < procs[ni].pid);
            }
            if y > ni {
                assert(procs[ni].pid < procs[y].pid);
            }
        }
        assert(s.is_nearest(p));
        let c = choose|c: Pid| s.is_nearest(c);
        assert(s.is_nearest(c));
        assert(s.entry_wf(c));
        assert(s.distance(c) <= s.distance(p));
        assert(s.distance(p) <= s.distance(c));
    } else {
        assert forall|q: Pid| !s.runnable(q) by {
            if s.runnable(q) {
                let y = place(procs, q);
                assert(procs[y].pid == q);
                assert(s.procs[q] == procs[y]@);
                assert(ready_at(procs, y));
            }
        }
    }
}

/// After the sleepers were woken, the storage holds the table that the
/// model gives.
pub(crate) proof fn lemma_advance_table(s: TableView, old: Seq<Process>, fin: Seq<Process>)
    requires
        rising(old),
        children_distinct(old),
        s.procs == table_of(old),
        s.ticks < usize::MAX,
        fin.len() == old.len(),
        forall|y: int|
            0 <= y < old.len() ==> (#[trigger] fin[y]) == (Process {
                state: TableView::woken(old[y].state, (s.ticks + 1) as usize),
                ..old[y]
            }),
    ensures
        rising(fin),
        children_distinct(fin),
        table_of(fin) == s.advance().procs,
{
    let t = s.advance();
    lemma_table_of(old);
    assert forall|a: int, b: int| 0 <= a < b < fin.len() implies fin[a].pid < fin[b].pid by {
        assert(old[a].pid < old[b].pid);
        assert(fin[a].pid == old[a].pid);
        assert(fin[b].pid == old[b].pid);
    }
    assert forall|y: int| 0 <= y < fin.len() implies (#[trigger] fin[y]).children@.no_duplicates() by {
        assert(old[y].children@.no_duplicates());
        assert(fin[y].children == old[y].children);
    }
    assert forall|y: int| 0 <= y < fin.len() implies t.procs.dom().contains(#[trigger] fin[y].pid)
        && t.procs[fin[y].pid] == fin[y]@ by {
        assert(fin[y].pid == old[y].pid);
        assert(s.procs[old[y].pid] == old[y]@);
    }
    assert forall|p: Pid| #[trigger] t.procs.dom().contains(p) implies holds(fin, p) by {
        let y = place(old, p);
        assert(fin[y].pid == old[y].pid);
    }
    lemma_table_is(fin, t.procs);
}

/// Taking one pid out of a list without repeats takes it out of the set
/// that the list stands for.
pub(crate) proof fn lemma_remove_to_set(v: Seq<Pid>, at: int)
    requires
        v.no_duplicates(),
        0 <= at < v.len(),
    ensures
        v.remove(at).no_duplicates(),
        v.remove(at).to_set() =~= v.to_set().remove(v[at]),
{
    let w = v.remove(at);
    assert forall|a: int, b: int| 0 <= a < w.len() && 0 <= b < w.len() && a != b implies w[a] != w[b] by {
        let a0 = if a < at { a } else { a + 1 };
        let b0 = if b < at { b } else { b + 1 };
        assert(w[a] == v[a0]);
        assert(w[b] == v[b0]);
    }
    assert forall|c: Pid| w.to_set().contains(c) <==> v.to_set().remove(v[at]).contains(c) by {
        if w.contains(c) {
            let a = choose|a: int| 0 <= a < w.len() && w[a] == c;
            let a0 = if a < at { a } else { a + 1 };
            assert(v[a0] == c);
            assert(v.contains(c));
        }
        if v.contains(c) && c != v[at] {
            let a0 = choose|a: int| 0 <= a < v.len() && v[a] == c;
            let a = if a0 < at { a0 } else { a0 - 1 };
            assert(w[a] == c);
        }
    }
}

/// Taking one process out of the sequence takes its entry out of the
/// table.
pub(crate) proof fn lemma_table_remove(old: Seq<Process>, x: int)
    requires
        rising(old),
        0 <= x < old.len(),
    ensures
        rising(old.remove(x)),
        table_of(old.remove(x)) == table_of(old).remove(old[x].pid),
        children_distinct(old) ==> children_distinct(old.remove(x)),
{
    let fin = old.remove(x);
    let m = table_of(old).remove(old[x].pid);
    lemma_table_of(old);
    assert forall|a: int, b: int| 0 <= a < b < fin.len() implies fin[a].pid < fin[b].pid by {
        let a0 = if a < x { a } else { a + 1 };
        let b0 = if b < x { b } else { b + 1 };
        assert(fin[a] == old[a0]);
        assert(fin[b] == old[b0]);
        assert(old[a0].pid < old[b0].pid);
    }
    assert forall|y: int| 0 <= y < fin.len() implies m.dom().contains(#[trigger] fin[y].pid) && m[fin[y].pid]
        == fin[y]@ by {
        let y0 = if y < x { y } else { y + 1 };
        assert(fin[y] == old[y0]);
        if y0 < x {
            assert(old[y0].pid < old[x].pid);
        } else {
            assert(old[x].pid < old[y0].pid);
        }
    }
    assert forall|p: Pid| #[trigger] m.dom().contains(p) implies holds(fin, p) by {
        let y0 = place(old, p);
        let y = if y0 < x { y0 } else { y0 - 1 };
        assert(fin[y] == old[y0]);
        assert(fin[y].pid == p);
    }
    lemma_table_is(fin, m);
    if children_distinct(old) {
        assert forall|y: int| 0 <= y < fin.len() implies (#[trigger] fin[y]).children@.no_duplicates() by {
            let y0 = if y < x { y } else { y + 1 };
            assert(fin[y] == old[y0]);
            assert(old[y0].children@.no_duplicates());
        }
    }
}

/// Whether `target` names the pid `c`.
pub(crate) open spec fn names(target: WaitTarget, c: Pid) -> bool {
    match target {
        WaitTarget::AnyChild => true,
        WaitTarget::Proc(p) => p == c,
    }
}

/// Whether the process at `y` is an ended child of `cur` that `target`
/// names.
pub(crate) open spec fn zombie_child_at(s: Seq<Process>, cur: Pid, target: WaitTarget, y: int) -> bool {
    &&& s[y].parent == Some(cur)
    &&& s[y].state is Zombie
    &&& names(target, s[y].pid)
}

/// The first ended child in the sequence is the one that the wait reaps.
pub(crate) proof fn lemma_wait_found(s: TableView, procs: Seq<Process>, target: WaitTarget, x: int)
    requires
        s.wf(),
        rising(procs),
        s.procs == table_of(procs),
        0 <= x < procs.len(),
        zombie_child_at(procs, s.current, target, x),
        forall|y: int| 0 <= y < x ==> !zombie_child_at(procs, s.current, target, y),
    ensures
        s.wait_result(target) == WaitResult::Reaped(procs[x].pid, procs[x].state->Zombie_0),
        s.procs[s.current].children.contains(procs[x].pid),
        s.procs[procs[x].pid].state is Zombie,
{
    lemma_table_of(procs);
    let c = procs[x].pid;
    assert(s.procs[c] == procs[x]@);
    assert(s.entry_wf(c));
    assert(s.reapable(target, c));
    assert forall|d: Pid| #[trigger] s.reapable(target, d) implies c <= d by {
        assert(s.entry_wf(s.current));
        assert(s.procs[s.current].children.contains(d));
        let y = place(procs, d);
        assert(procs[y].pid == d);
        assert(s.procs[d] == procs[y]@);
        assert(zombie_child_at(procs, s.current, target, y));
        if y > x {
            assert(procs[x].pid < procs[y].pid);
        }
    }
    assert(s.is_first_reapable(target, c));
    let f = choose|f: Pid| s.is_first_reapable(target, f);
    assert(s.is_first_reapable(target, f));
    assert(f <= c && c <= f);
}

/// Where no process in the sequence is an ended child that the target
/// names, the wait reaps none.
pub(crate) proof fn lemma_wait_none(s: TableView, procs: Seq<Process>, target: WaitTarget)
    requires
        s.wf(),
        rising(procs),
        s.procs == table_of(procs),
        forall|y: int| 0 <= y < procs.len() ==> !zombie_child_at(procs, s.current, target, y),
    ensures
        forall|c: Pid| !s.reapable(target, c),
{
    lemma_table_of(procs);
    assert forall|c: Pid| !s.reapable(target, c) by {
        if s.reapable(target, c) {
            assert(s.entry_wf(s.current));
            assert(s.procs[s.current].children.contains(c));
            let y = place(procs, c);
            assert(procs[y].pid == c);
            assert(s.procs[c] == procs[y]@);
            assert(zombie_child_at(procs, s.current, target, y));
        }
    }
}

/// The table of a sequence with rising pids has as many entries as the
/// sequence has processes.
pub(crate) proof fn lemma_table_len(s: Seq<Process>)
    requires
        rising(s),
    ensures
        table_of(s).dom().finite(),
        table_of(s).dom().len() == s.len(),
    decreases s.len(),
{
    lemma_table_finite(s);
    if s.len() == 0 {
        assert(table_of(s).dom() =~= Set::empty());
    } else {
        let x = s.len() - 1;
        let t = s.remove(x);
        lemma_table_remove(s, x);
        lemma_table_len(t);
        lemma_table_of(s);
        assert(table_of(s).dom().contains(s[x].pid));
        assert(table_of(t).dom() =~= table_of(s).dom().remove(s[x].pid));
    }
}

} // verus!
