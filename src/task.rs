use vstd::prelude::*;

verus! {

/// Numerator of the per-pick stride increment.
pub const BIG_STRIDE: u64 = 255;

/// Smallest priority a task may have.
pub const MIN_PRIORITY: isize = 2;

/// Largest priority a task may have.
pub const MAX_PRIORITY_VALUE: isize = 255;

/// Tasks whose accumulated stride reaches this are dropped from the queue.
pub const MAX_STRIDE: u64 = 0x7fff_ffff_ffff_ffff;

/// A task's position in the stride schedule.
#[derive(Clone, Copy, PartialEq, Eq, Structural)]
pub struct Stride(pub u64);

/// Life-cycle state of a task.
#[derive(Clone, Copy, PartialEq, Eq, Structural)]
pub enum TaskStatus {
    Ready,
    Running,
    Zombie,
}

/// What the scheduler keeps of a ready task.
#[derive(Clone, Copy, PartialEq, Eq, Structural)]
pub struct TaskEntry {
    pub pid: usize,
    pub stride: Stride,
    pub total_stride: u64,
    pub priority: u8,
}

/// The stride added to a task of priority `p` each time it is picked.
pub open spec fn pass_of(p: u8) -> u64 {
    (BIG_STRIDE / p as u64) as u64
}

/// Index of the first entry of `q` with the least stride.
pub open spec fn is_first_min(q: Seq<TaskEntry>, i: int) -> bool {
    &&& 0 <= i < q.len()
    &&& forall|j: int| 0 <= j < q.len() ==> q[i].stride.0 <= (#[trigger] q[j]).stride.0
    &&& forall|j: int| 0 <= j < i ==> q[i].stride.0 < (#[trigger] q[j]).stride.0
}

/// The entries of `q` whose accumulated stride is below the ceiling, in order.
pub open spec fn live(q: Seq<TaskEntry>) -> Seq<TaskEntry> {
    q.filter(|e: TaskEntry| e.total_stride < MAX_STRIDE)
}

/// The ready queue.
pub struct TaskManager {
    ready_queue: Vec<TaskEntry>,
}

impl TaskManager {
    pub closed spec fn queue(&self) -> Seq<TaskEntry> {
        self.ready_queue@
    }

    pub fn new() -> (r: Self)
        ensures
            r.queue() == Seq::<TaskEntry>::empty(),
    {
        TaskManager { ready_queue: Vec::new() }
    }

    /// Puts `task` at the back of the queue.
    pub fn add(&mut self, task: TaskEntry)
        ensures
            final(self).queue() == old(self).queue().push(task),
    {
        self.ready_queue.push(task);
    }

    /// Drops the tasks whose accumulated stride reached the ceiling.
    fn kill_deadloop_task(&mut self)
        ensures
            final(self).queue() == live(old(self).queue()),
    {
        let mut kept: Vec<TaskEntry> = Vec::new();
        let mut i: usize = 0;
        while i < self.ready_queue.len()
            invariant
                self.ready_queue@ == old(self).ready_queue@,
                i <= self.ready_queue@.len(),
                kept@ == live(self.ready_queue@.subrange(0, i as int)),
            decreases self.ready_queue@.len() - i,
        {
            let e = self.ready_queue[i];
            proof {
                let q = self.ready_queue@;
                let s1 = q.subrange(0, i + 1);
                assert(s1.drop_last() =~= q.subrange(0, i as int));
                assert(s1.last() == e);
                reveal(Seq::filter);
            }
            if e.total_stride < MAX_STRIDE {
                kept.push(e);
            }
            i = i + 1;
        }
        proof {
            assert(self.ready_queue@.subrange(0, i as int) =~= self.ready_queue@);
        }
        self.ready_queue = kept;
    }

    /// Removes and returns the live task with the least stride, the earliest
    /// queued among equals, after dropping the tasks past the ceiling.
    pub fn fetch(&mut self) -> (r: Option<TaskEntry>)
        ensures
            match r {
                None => live(old(self).queue()).len() == 0 && final(self).queue() == live(old(self).queue()),
                Some(t) => exists|i: int|
                    is_first_min(live(old(self).queue()), i) && t == live(old(self).queue())[i]
                        && final(self).queue() == live(old(self).queue()).remove(i),
            },
    {
        self.kill_deadloop_task();
        if self.ready_queue.len() == 0 {
            return None;
        }
        let mut best: usize = 0;
        let mut i: usize = 1;
        while i < self.ready_queue.len()
            invariant
                self.ready_queue@ == live(old(self).queue()),
                1 <= i <= self.ready_queue@.len(),
                best < i,
                forall|j: int| 0 <= j < i ==> self.ready_queue@[best as int].stride.0 <= (
                #[trigger] self.ready_queue@[j]).stride.0,
                forall|j: int| 0 <= j < best ==> self.ready_queue@[best as int].stride.0 < (
                #[trigger] self.ready_queue@[j]).stride.0,
            decreases self.ready_queue@.len() - i,
        {
            if self.ready_queue[i].stride.0 < self.ready_queue[best].stride.0 {
                best = i;
            }
            i = i + 1;
        }
        let t = self.ready_queue.remove(best);
        proof {
            assert(is_first_min(live(old(self).queue()), best as int));
        }
        Some(t)
    }
}

/// `e` after it was picked to run: its stride and accumulated stride grow by its pass.
pub open spec fn picked(e: TaskEntry) -> TaskEntry {
    TaskEntry {
        stride: Stride((e.stride.0 + pass_of(e.priority)) as u64),
        total_stride: (e.total_stride + pass_of(e.priority)) as u64,
        ..e
    }
}

/// Charges `e` for one turn on the processor.
pub fn charge(e: &mut TaskEntry)
    requires
        old(e).priority >= 1,
        old(e).stride.0 < MAX_STRIDE,
        old(e).total_stride < MAX_STRIDE,
    ensures
        *final(e) == picked(*old(e)),
{
    let pass: u64 = BIG_STRIDE / e.priority as u64;
    e.stride = Stride(e.stride.0 + pass);
    e.total_stride = e.total_stride + pass;
}

/// Applies a request to set the priority to `priority`: returns the new
/// priority and the call's result, or `None` and -1 when it is below 2.
/// Priorities above 255 are held at 255.
pub fn set_priority(priority: isize) -> (r: (Option<u8>, isize))
    ensures
        priority < MIN_PRIORITY ==> r == (None::<u8>, -1isize),
        MIN_PRIORITY <= priority <= MAX_PRIORITY_VALUE ==> r == (Some(priority as u8), priority),
        priority > MAX_PRIORITY_VALUE ==> r == (Some(255u8), priority),
{
    if priority < MIN_PRIORITY {
        (None, -1)
    } else if priority > MAX_PRIORITY_VALUE {
        (Some(255u8), priority)
    } else {
        (Some(priority as u8), priority)
    }
}

/// What `waitpid` finds among the children `(pid, is_zombie)`.
pub enum WaitResult {
    /// No child matches.
    NoChild,
    /// Children match, but none has exited.
    Running,
    /// The child at this index matches and has exited.
    Exited(usize),
}

/// A child with id `c` matches the request for `pid` (-1: any child).
pub open spec fn matches_pid(pid: isize, c: usize) -> bool {
    pid == -1 || (pid >= 0 && pid as int == c as int)
}

/// Picks the first matching child that has exited.
pub fn waitpid_select(pid: isize, children: &Vec<(usize, bool)>) -> (r: WaitResult)
    ensures
        match r {
            WaitResult::NoChild => forall|i: int|
                0 <= i < children@.len() ==> !matches_pid(pid, (#[trigger] children@[i]).0),
            WaitResult::Running => (exists|i: int|
                0 <= i < children@.len() && matches_pid(pid, (#[trigger] children@[i]).0)) && forall|
                i: int|
                0 <= i < children@.len() && matches_pid(pid, (#[trigger] children@[i]).0) ==> !children@[i].1,
            WaitResult::Exited(k) => {
                &&& k < children@.len()
                &&& matches_pid(pid, children@[k as int].0)
                &&& children@[k as int].1
                &&& forall|i: int|
                    0 <= i < k && matches_pid(pid, (#[trigger] children@[i]).0) ==> !children@[i].1
            },
        },
{
    let mut found = false;
    let mut i: usize = 0;
    while i < children.len()
        invariant
            i <= children@.len(),
            found == exists|j: int| 0 <= j < i && matches_pid(pid, (#[trigger] children@[j]).0),
            forall|j: int| 0 <= j < i && matches_pid(pid, (#[trigger] children@[j]).0) ==> !children@[j].1,
        decreases children@.len() - i,
    {
        let (c, zombie) = children[i];
        let m = pid == -1 || (pid >= 0 && pid as usize == c);
        if m {
            if zombie {
                return WaitResult::Exited(i);
            }
            found = true;
        }
        i = i + 1;
    }
    if found {
        WaitResult::Running
    } else {
        WaitResult::NoChild
    }
}

/// The value `waitpid` returns for `r` on `children`: -1, -2, or the pid found.
pub fn waitpid_code(r: &WaitResult, children: &Vec<(usize, bool)>) -> (code: isize)
    requires
        match r {
            WaitResult::Exited(k) => *k < children@.len() && children@[*k as int].0 <= isize::MAX,
            _ => true,
        },
    ensures
        match r {
            WaitResult::NoChild => code == -1,
            WaitResult::Running => code == -2,
            WaitResult::Exited(k) => code == children@[*k as int].0 as isize,
        },
{
    match r {
        WaitResult::NoChild => -1,
        WaitResult::Running => -2,
        WaitResult::Exited(k) => children[*k].0 as isize,
    }
}

/// A task's file descriptors: slot `fd` holds the id of an open file, or nothing.
pub struct FdTable {
    slots: Vec<Option<usize>>,
}

impl FdTable {
    pub closed spec fn view(&self) -> Seq<Option<usize>> {
        self.slots@
    }

    /// A table holding the three standard files with ids `stdin`, `stdout`, `stdout`.
    pub fn new(stdin: usize, stdout: usize) -> (r: Self)
        ensures
            r.view() == seq![Some(stdin), Some(stdout), Some(stdout)],
    {
        let mut slots: Vec<Option<usize>> = Vec::new();
        slots.push(Some(stdin));
        slots.push(Some(stdout));
        slots.push(Some(stdout));
        let r = FdTable { slots };
        proof {
            assert(r.view() =~= seq![Some(stdin), Some(stdout), Some(stdout)]);
        }
        r
    }

    /// The file in slot `fd`, if any.
    pub fn get(&self, fd: usize) -> (r: Option<usize>)
        ensures
            r == if fd < self.view().len() {
                self.view()[fd as int]
            } else {
                None
            },
    {
        if fd < self.slots.len() {
            self.slots[fd]
        } else {
            None
        }
    }

    /// Puts `file` in the lowest free slot, adding one at the end when all
    /// are taken; returns the slot.
    pub fn alloc_fd(&mut self, file: usize) -> (fd: usize)
        ensures
            fd <= old(self).view().len(),
            forall|j: int| 0 <= j < fd ==> old(self).view()[j] is Some,
            fd < old(self).view().len() ==> old(self).view()[fd as int] is None && final(self).view()
                == old(self).view().update(fd as int, Some(file)),
            fd == old(self).view().len() ==> final(self).view() == old(self).view().push(Some(file)),
    {
        let mut i: usize = 0;
        while i < self.slots.len()
            invariant
                self.slots@ == old(self).view(),
                i <= self.slots@.len(),
                forall|j: int| 0 <= j < i ==> self.slots@[j] is Some,
            decreases self.slots@.len() - i,
        {
            if self.slots[i].is_none() {
                self.slots.set(i, Some(file));
                return i;
            }
            i = i + 1;
        }
        self.slots.push(Some(file));
        i
    }

    /// Closes `fd`: 0, or -1 when it holds no file.
    pub fn close(&mut self, fd: usize) -> (r: isize)
        ensures
            (fd < old(self).view().len() && old(self).view()[fd as int] is Some) ==> r == 0 && final(self).view()
                == old(self).view().update(fd as int, None),
            !(fd < old(self).view().len() && old(self).view()[fd as int] is Some) ==> r == -1
                && final(self).view() == old(self).view(),
    {
        if fd < self.slots.len() && self.slots[fd].is_some() {
            self.slots.set(fd, None);
            0
        } else {
            -1
        }
    }

    /// Duplicates `fd` into the lowest free slot and returns that slot, or -1
    /// when `fd` holds no file.
    pub fn dup(&mut self, fd: usize) -> (r: isize)
        requires
            old(self).view().len() < isize::MAX,
        ensures
            !(fd < old(self).view().len() && old(self).view()[fd as int] is Some) ==> r == -1
                && final(self).view() == old(self).view(),
            (fd < old(self).view().len() && old(self).view()[fd as int] is Some) ==> {
                &&& 0 <= r <= old(self).view().len()
                &&& forall|j: int| 0 <= j < r ==> old(self).view()[j] is Some
                &&& r < old(self).view().len() ==> old(self).view()[r as int] is None && final(self).view()
                    == old(self).view().update(r as int, old(self).view()[fd as int])
                &&& r == old(self).view().len() ==> final(self).view() == old(self).view().push(
                    old(self).view()[fd as int],
                )
            },
    {
        match self.get(fd) {
            None => -1,
            Some(file) => {
                let n = self.alloc_fd(file);
                n as isize
            },
        }
    }
}

} // verus!
