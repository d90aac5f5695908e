//! One schedulable process: identity, saved machine state, address space,
//! family links and lifecycle state.

use vstd::prelude::*;

verus! {

/// Identity of a process in the table.
pub type Pid = usize;

/// Value that a process leaves behind when it ends.
pub type ErrorCode = usize;

/// The pid of the first process. It has no parent and adopts orphans.
pub const INIT_PID: Pid = 1;

/// The pid of the idle process, which runs when nothing else is ready.
pub const IDLE_PID: Pid = 2;

/// The largest pid that the table hands out. Every pid fits a kernel call's
/// signed 32-bit result.
pub const MAX_PID: Pid = 0x7fff_ffff;

/// The exit code of a process that was killed.
pub const KILL_CODE: ErrorCode = 0x100;

/// When a sleeping process becomes ready again.
#[derive(Clone, Copy, Debug, PartialEq, Eq, Structural)]
pub enum Wake {
    /// At the first timer tick whose count reaches this value.
    At(usize),
    /// Not by the timer: when one of its children ends.
    OnChildExit,
}

/// Lifecycle state of a process.
#[derive(Clone, Copy, Debug, PartialEq, Eq, Structural)]
pub enum State {
    Ready,
    Running,
    Sleeping(Wake),
    Zombie(ErrorCode),
}

/// What the memory controller set up for one process.
#[derive(Clone, Copy, Debug, PartialEq, Eq, Structural)]
pub struct AddressSpace {
    /// The controller's handle of the address space.
    pub handle: usize,
    /// Top of the kernel stack mapped in it.
    pub kernel_stack: usize,
    /// Top of the user stack mapped in it; zero where there is none.
    pub user_stack: usize,
}

/// Register state saved when control enters the kernel.
#[derive(Clone, Copy, Debug, PartialEq, Eq, Structural)]
pub struct TrapFrame {
    /// Instruction at which execution resumes.
    pub ip: usize,
    /// Stack pointer at which execution resumes.
    pub sp: usize,
    /// The register that carries a kernel call's result.
    pub ret: usize,
    /// The first argument register.
    pub arg: usize,
    /// The processor's flag word.
    pub flags: usize,
    /// Whether execution resumes in user mode.
    pub user: bool,
}

/// Saved machine state from which a process resumes.
#[derive(Clone, Copy, Debug, PartialEq, Eq, Structural)]
pub struct Context {
    /// Kernel stack pointer saved at the last switch away.
    pub sp: usize,
    /// Trap frame that the process resumes from.
    pub tf: TrapFrame,
}

/// What a waiting process waits for.
#[derive(Clone, Copy, Debug, PartialEq, Eq, Structural)]
pub enum WaitTarget {
    AnyChild,
    Proc(Pid),
}

/// What a wait observed.
#[derive(Clone, Copy, Debug, PartialEq, Eq, Structural)]
pub enum WaitResult {
    /// The child with this pid had ended with this code, and is now gone.
    Reaped(Pid, ErrorCode),
    /// A matching child exists, none has ended yet.
    Blocked,
    /// No child matches the target.
    NotExist,
}

/// The mathematical value of a process.
pub struct ProcessView {
    pub pid: Pid,
    pub name: Seq<char>,
    pub parent: Option<Pid>,
    pub children: Set<Pid>,
    pub state: State,
    pub context: Context,
    pub space: Option<AddressSpace>,
}

/// A schedulable unit of execution.
#[derive(Debug)]
pub struct Process {
    pub(crate) pid: Pid,
    pub(crate) name: String,
    pub(crate) parent: Option<Pid>,
    pub(crate) children: Vec<Pid>,
    pub(crate) state: State,
    pub(crate) context: Context,
    pub(crate) space: Option<AddressSpace>,
}

/// The trap frame of a process that has not run yet: it starts at `entry` on
/// the stack `sp`, with every other register zero.
pub open spec fn fresh_frame(entry: usize, sp: usize, user: bool) -> TrapFrame {
    TrapFrame { ip: entry, sp, ret: 0, arg: 0, flags: 0, user }
}

/// The trap frame that a forked child resumes from: the parent's, with a
/// zero result.
pub open spec fn child_frame(tf: TrapFrame) -> TrapFrame {
    TrapFrame { ret: 0, ..tf }
}

impl View for Process {
    type V = ProcessView;

    open(crate) spec fn view(&self) -> ProcessView {
        ProcessView {
            pid: self.pid,
            name: self.name@,
            parent: self.parent,
            children: self.children@.to_set(),
            state: self.state,
            context: self.context,
            space: self.space,
        }
    }
}

/// The value of the first process: it is the one that runs while the
/// kernel starts, so it is running. Its stack pointer is saved at the
/// first switch away from it.
pub open spec fn init_view(space: AddressSpace) -> ProcessView {
    ProcessView {
        pid: INIT_PID,
        name: "init"@,
        parent: None,
        children: Set::empty(),
        state: State::Running,
        context: Context { sp: 0, tf: fresh_frame(0, space.kernel_stack, false) },
        space: Some(space),
    }
}

/// The value of a new kernel-mode process that starts at `entry` on the
/// kernel stack of `space`. It has no pid yet.
pub open spec fn kernel_view(name: Seq<char>, entry: usize, space: AddressSpace) -> ProcessView {
    ProcessView {
        pid: 0,
        name,
        parent: None,
        children: Set::empty(),
        state: State::Ready,
        context: Context {
            sp: space.kernel_stack,
            tf: fresh_frame(entry, space.kernel_stack, false),
        },
        space: Some(space),
    }
}

/// The value of a new user-mode process that starts at `entry` on the user
/// stack of `space`. It has no pid and no name yet.
pub open spec fn user_view(entry: usize, space: AddressSpace) -> ProcessView {
    ProcessView {
        pid: 0,
        name: Seq::empty(),
        parent: None,
        children: Set::empty(),
        state: State::Ready,
        context: Context { sp: space.kernel_stack, tf: fresh_frame(entry, space.user_stack, true) },
        space: Some(space),
    }
}

/// The value of the child that `parent` forks at the trap frame `tf`: it
/// has the parent's name, names it as parent, lives in `space`, and
/// resumes from `tf` with a zero result.
pub open spec fn fork_view(parent: ProcessView, tf: TrapFrame, space: AddressSpace) -> ProcessView {
    ProcessView {
        pid: 0,
        name: parent.name,
        parent: Some(parent.pid),
        children: Set::empty(),
        state: State::Ready,
        context: Context { sp: space.kernel_stack, tf: child_frame(tf) },
        space: Some(space),
    }
}

impl Process {
    /// The first process, in the address space `space`.
    pub fn new_init(space: AddressSpace) -> (p: Process)
        ensures
            p@ == init_view(space),
    {
        let p = Process {
            pid: INIT_PID,
            name: "init".to_owned(),
            parent: None,
            children: Vec::new(),
            state: State::Running,
            context: Context {
                sp: 0,
                tf: TrapFrame { ip: 0, sp: space.kernel_stack, ret: 0, arg: 0, flags: 0, user: false },
            },
            space: Some(space),
        };
        assert(p.children@.to_set() =~= Set::empty());
        p
    }

    /// A kernel-mode process that starts at `entry` on the kernel stack of
    /// `space`. It has no pid yet: the table assigns one.
    pub fn new(name: &str, entry: usize, space: AddressSpace) -> (p: Process)
        ensures
            p@ == kernel_view(name@, entry, space),
    {
        let p = Process {
            pid: 0,
            name: name.to_owned(),
            parent: None,
            children: Vec::new(),
            state: State::Ready,
            context: Context {
                sp: space.kernel_stack,
                tf: TrapFrame {
                    ip: entry,
                    sp: space.kernel_stack,
                    ret: 0,
                    arg: 0,
                    flags: 0,
                    user: false,
                },
            },
            space: Some(space),
        };
        assert(p.children@.to_set() =~= Set::empty());
        p
    }

    /// A user-mode process for an image that the memory controller has
    /// loaded into `space`, with its entry point at `entry`.
    pub fn new_user(entry: usize, space: AddressSpace) -> (p: Process)
        ensures
            p@ == user_view(entry, space),
    {
        let p = Process {
            pid: 0,
            name: String::new(),
            parent: None,
            children: Vec::new(),
            state: State::Ready,
            context: Context {
                sp: space.kernel_stack,
                tf: TrapFrame { ip: entry, sp: space.user_stack, ret: 0, arg: 0, flags: 0, user: true },
            },
            space: Some(space),
        };
        assert(p.children@.to_set() =~= Set::empty());
        assert(p.name@ =~= Seq::empty());
        p
    }

    /// The child of a fork by this process: it resumes from the caller's
    /// trap frame `tf` with a zero result, in `space`, which the memory
    /// controller made as a copy of the caller's address space.
    pub fn fork(&self, tf: &TrapFrame, space: AddressSpace) -> (p: Process)
        ensures
            p@ == fork_view(self@, *tf, space),
    {
        let p = Process {
            pid: 0,
            name: self.name.clone(),
            parent: Some(self.pid),
            children: Vec::new(),
            state: State::Ready,
            context: Context {
                sp: space.kernel_stack,
                tf: TrapFrame {
                    ip: tf.ip,
                    sp: tf.sp,
                    ret: 0,
                    arg: tf.arg,
                    flags: tf.flags,
                    user: tf.user,
                },
            },
            space: Some(space),
        };
        assert(p.children@.to_set() =~= Set::empty());
        p
    }

    /// Gives the process the name `name`.
    pub fn set_name(&mut self, name: &str)
        ensures
            final(self)@ == (ProcessView { name: name@, ..old(self)@ }),
    {
        self.name = name.to_owned();
    }

    /// The pid of the process; zero before the table has assigned one.
    pub fn pid(&self) -> (r: Pid)
        ensures
            r == self@.pid,
    {
        self.pid
    }

    /// The name of the process.
    pub fn name(&self) -> (r: &str)
        ensures
            r@ == self@.name,
    {
        self.name.as_str()
    }

    /// The pid of the parent, if the process has one.
    pub fn parent(&self) -> (r: Option<Pid>)
        ensures
            r == self@.parent,
    {
        self.parent
    }

    /// The pids of the children, each once, in the order in which they
    /// became children.
    pub fn children(&self) -> (r: &Vec<Pid>)
        ensures
            r@.to_set() == self@.children,
    {
        &self.children
    }

    /// Whether `pid` is a child of the process.
    pub fn has_child(&self, pid: Pid) -> (r: bool)
        ensures
            r == self@.children.contains(pid),
    {
        let n: usize = self.children.len();
        let mut x: usize = 0;
        while x < n
            invariant
                n == self.children@.len(),
                x <= n,
                forall|y: int| 0 <= y < x ==> self.children@[y] != pid,
            decreases n - x,
        {
            if self.children[x] == pid {
                return true;
            }
            x += 1;
        }
        false
    }

    /// The lifecycle state of the process.
    pub fn state(&self) -> (r: State)
        ensures
            r == self@.state,
    {
        self.state
    }

    /// The saved machine state of the process.
    pub fn context(&self) -> (r: Context)
        ensures
            r == self@.context,
    {
        self.context
    }

    /// The address space of the process; none once it has ended.
    pub fn space(&self) -> (r: Option<AddressSpace>)
        ensures
            r == self@.space,
    {
        self.space
    }
}

} // verus!
