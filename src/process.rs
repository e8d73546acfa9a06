use vstd::prelude::*;

use crate::task::{Stride, TaskStatus};

verus! {

/// What a new task's trap context starts with.
#[derive(Clone, Copy, PartialEq, Eq, Structural)]
pub struct TrapInit {
    pub entry: usize,
    pub user_sp: usize,
    pub kernel_satp: usize,
    pub kernel_sp: usize,
    pub trap_handler: usize,
}

/// Priority a new task starts with.
pub const DEFAULT_PRIORITY: u8 = 16;

/// A process control block, as plain values. Children are the records whose
/// `parent` names this one, in table order.
#[derive(Clone, Copy, PartialEq, Eq, Structural)]
pub struct Pcb {
    pub pid: usize,
    pub parent: Option<usize>,
    pub status: TaskStatus,
    pub exit_code: i32,
    pub priority: u8,
    pub stride: Stride,
    pub trap_cx: TrapInit,
    /// The user's `a0` register: what the task sees as a system call's result.
    pub a0: usize,
}

/// The record of a task created by `spawn`.
pub open spec fn spawned(pid: usize, parent: usize, init: TrapInit) -> Pcb {
    Pcb {
        pid,
        parent: Some(parent),
        status: TaskStatus::Ready,
        exit_code: 0,
        priority: DEFAULT_PRIORITY,
        stride: Stride(0),
        trap_cx: init,
        a0: 0,
    }
}

/// Index of the record of `pid` in `t`, if any.
pub open spec fn index_of(t: Seq<Pcb>, pid: usize) -> Option<int> {
    if exists|i: int| 0 <= i < t.len() && t[i].pid == pid {
        Some(choose|i: int| 0 <= i < t.len() && t[i].pid == pid)
    } else {
        None
    }
}

/// Pids of the children of `pid` in `t`, in table order.
pub open spec fn children_of(t: Seq<Pcb>, pid: usize) -> Seq<usize> {
    t.filter(|p: Pcb| p.parent == Some(pid)).map_values(|p: Pcb| p.pid)
}

/// The table of all tasks, keyed by pid.
pub struct ProcessTable {
    procs: Vec<Pcb>,
}

impl ProcessTable {
    pub closed spec fn table(&self) -> Seq<Pcb> {
        self.procs@
    }

    /// Pids are unique.
    pub open spec fn wf(&self) -> bool {
        forall|i: int, j: int|
            0 <= i < self.table().len() && 0 <= j < self.table().len() && i != j ==> (#[trigger] self.table()[i]).pid
                != (#[trigger] self.table()[j]).pid
    }

    pub open spec fn has(&self, pid: usize) -> bool {
        exists|i: int| 0 <= i < self.table().len() && (#[trigger] self.table()[i]).pid == pid
    }

    pub fn new() -> (r: Self)
        ensures
            r.wf(),
            r.table() == Seq::<Pcb>::empty(),
    {
        ProcessTable { procs: Vec::new() }
    }

    /// The record at position `i`.
    pub fn get(&self, i: usize) -> (r: Pcb)
        requires
            i < self.table().len(),
        ensures
            r == self.table()[i as int],
    {
        self.procs[i]
    }

    /// Position of the record of `pid`.
    pub fn find(&self, pid: usize) -> (r: Option<usize>)
        requires
            self.wf(),
        ensures
            match r {
                Some(i) => i < self.table().len() && self.table()[i as int].pid == pid,
                None => !self.has(pid),
            },
    {
        let mut i: usize = 0;
        while i < self.procs.len()
            invariant
                i <= self.procs@.len(),
                forall|k: int| 0 <= k < i ==> (#[trigger] self.procs@[k]).pid != pid,
            decreases self.procs@.len() - i,
        {
            if self.procs[i].pid == pid {
                return Some(i);
            }
            i = i + 1;
        }
        None
    }

    /// Adds the first task, which has no parent.
    pub fn add_root(&mut self, pid: usize, init: TrapInit) -> (r: bool)
        requires
            old(self).wf(),
        ensures
            final(self).wf(),
            r == !old(self).has(pid),
            r ==> final(self).table() == old(self).table().push(Pcb { parent: None, ..spawned(pid, pid, init) }),
            !r ==> final(self).table() == old(self).table(),
    {
        if self.find(pid).is_some() {
            return false;
        }
        let p = Pcb {
            pid,
            parent: None,
            status: TaskStatus::Ready,
            exit_code: 0,
            priority: DEFAULT_PRIORITY,
            stride: Stride(0),
            trap_cx: init,
            a0: 0,
        };
        self.procs.push(p);
        true
    }

    /// Creates task `new_pid`, a child of `parent`, that starts from `init`
    /// with a fresh address space.
    pub fn spawn(&mut self, parent: usize, new_pid: usize, init: TrapInit) -> (r: bool)
        requires
            old(self).wf(),
        ensures
            final(self).wf(),
            r == (old(self).has(parent) && !old(self).has(new_pid)),
            r ==> final(self).table() == old(self).table().push(spawned(new_pid, parent, init)),
            r ==> children_of(final(self).table(), parent) == children_of(old(self).table(), parent).push(
                new_pid,
            ),
            !r ==> final(self).table() == old(self).table(),
    {
        if self.find(parent).is_none() || self.find(new_pid).is_some() {
            return false;
        }
        let p = Pcb {
            pid: new_pid,
            parent: Some(parent),
            status: TaskStatus::Ready,
            exit_code: 0,
            priority: DEFAULT_PRIORITY,
            stride: Stride(0),
            trap_cx: init,
            a0: 0,
        };
        let ghost t0 = self.procs@;
        self.procs.push(p);
        proof {
            lemma_children_push(t0, p, parent);
        }
        true
    }

    /// Creates task `new_pid` as a copy of `parent`: same trap context and
    /// priority, `a0` = 0 in the child; the parent's `a0` becomes the child's pid.
    pub fn fork(&mut self, parent: usize, new_pid: usize) -> (r: bool)
        requires
            old(self).wf(),
        ensures
            final(self).wf(),
            r == (old(self).has(parent) && !old(self).has(new_pid)),
            r ==> match index_of(old(self).table(), parent) {
                Some(i) => {
                    let p = old(self).table()[i];
                    &&& final(self).table() == old(self).table().update(i, Pcb { a0: new_pid, ..p }).push(
                        Pcb { pid: new_pid, parent: Some(parent), a0: 0, status: TaskStatus::Ready, exit_code: 0, stride: Stride(0), ..p },
                    )
                },
                None => false,
            },
            !r ==> final(self).table() == old(self).table(),
    {
        let pi = match self.find(parent) {
            None => {
                return false;
            },
            Some(i) => i,
        };
        if self.find(new_pid).is_some() {
            return false;
        }
        let p = self.procs[pi];
        let child = Pcb {
            pid: new_pid,
            parent: Some(parent),
            status: TaskStatus::Ready,
            exit_code: 0,
            priority: p.priority,
            stride: Stride(0),
            trap_cx: p.trap_cx,
            a0: 0,
        };
        let ghost t0 = self.procs@;
        let mut q = p;
        q.a0 = new_pid;
        self.procs.set(pi, q);
        self.procs.push(child);
        proof {
            let i = index_of(t0, parent)->Some_0;
            assert(i == pi as int) by {
                if i != pi as int {
                    assert(t0[i].pid == t0[pi as int].pid);
                }
            }
            assert forall|a: int, b: int|
                0 <= a < self.procs@.len() && 0 <= b < self.procs@.len() && a != b implies (#[trigger] self.procs@[a]).pid
                != (#[trigger] self.procs@[b]).pid by {
                if a < t0.len() && b < t0.len() {
                    assert(self.procs@[a].pid == t0[a].pid);
                    assert(self.procs@[b].pid == t0[b].pid);
                } else if a < t0.len() {
                    assert(self.procs@[a].pid == t0[a].pid);
                } else if b < t0.len() {
                    assert(self.procs@[b].pid == t0[b].pid);
                }
            }
        }
        true
    }

    /// Ends task `pid` with `code`: it becomes a zombie, and each of its
    /// children becomes a child of `init_pid`.
    pub fn exit(&mut self, pid: usize, code: i32, init_pid: usize) -> (r: bool)
        requires
            old(self).wf(),
        ensures
            final(self).wf(),
            r == (old(self).has(pid) && pid != init_pid),
            !r ==> final(self).table() == old(self).table(),
            r ==> final(self).table().len() == old(self).table().len(),
            r ==> forall|i: int|
                0 <= i < old(self).table().len() ==> #[trigger] final(self).table()[i] == if old(self).table()[i].pid
                    == pid {
                    Pcb { status: TaskStatus::Zombie, exit_code: code, ..old(self).table()[i] }
                } else if old(self).table()[i].parent == Some(pid) {
                    Pcb { parent: Some(init_pid), ..old(self).table()[i] }
                } else {
                    old(self).table()[i]
                },
    {
        if pid == init_pid || self.find(pid).is_none() {
            return false;
        }
        let ghost t0 = self.procs@;
        let mut i: usize = 0;
        while i < self.procs.len()
            invariant
                self.procs@.len() == t0.len(),
                i <= t0.len(),
                forall|k: int| i <= k < t0.len() ==> #[trigger] self.procs@[k] == t0[k],
                forall|k: int|
                    0 <= k < i ==> #[trigger] self.procs@[k] == if t0[k].pid == pid {
                        Pcb { status: TaskStatus::Zombie, exit_code: code, ..t0[k] }
                    } else if t0[k].parent == Some(pid) {
                        Pcb { parent: Some(init_pid), ..t0[k] }
                    } else {
                        t0[k]
                    },
            decreases t0.len() - i,
        {
            let mut p = self.procs[i];
            if p.pid == pid {
                p.status = TaskStatus::Zombie;
                p.exit_code = code;
                self.procs.set(i, p);
            } else if p.parent == Some(pid) {
                p.parent = Some(init_pid);
                self.procs.set(i, p);
            }
            i = i + 1;
        }
        proof {
            assert forall|a: int, b: int|
                0 <= a < self.procs@.len() && 0 <= b < self.procs@.len() && a != b implies (#[trigger] self.procs@[a]).pid
                != (#[trigger] self.procs@[b]).pid by {
                assert(self.procs@[a].pid == t0[a].pid);
                assert(self.procs@[b].pid == t0[b].pid);
            }
        }
        true
    }

    /// Waits for a child of `parent` (`pid` -1: any child). Returns -1 when no
    /// child matches, -2 when none that matches has exited; else removes the
    /// first exited match and returns its pid and exit code.
    pub fn waitpid(&mut self, parent: usize, pid: isize) -> (r: (isize, Option<i32>))
        requires
            old(self).wf(),
            forall|i: int| 0 <= i < old(self).table().len() ==> #[trigger] old(self).table()[i].pid <= isize::MAX,
        ensures
            final(self).wf(),
            r.0 == -1 ==> r.1 is None && final(self).table() == old(self).table() && forall|i: int|
                0 <= i < old(self).table().len() ==> !((#[trigger] old(self).table()[i]).parent == Some(parent)
                    && crate::task::matches_pid(pid, old(self).table()[i].pid)),
            r.0 == -2 ==> r.1 is None && final(self).table() == old(self).table() && (exists|i: int|
                0 <= i < old(self).table().len() && (#[trigger] old(self).table()[i]).parent == Some(parent)
                    && crate::task::matches_pid(pid, old(self).table()[i].pid)) && forall|i: int|
                0 <= i < old(self).table().len() && (#[trigger] old(self).table()[i]).parent == Some(parent)
                    && crate::task::matches_pid(pid, old(self).table()[i].pid) ==> old(self).table()[i].status
                    != TaskStatus::Zombie,
            r.0 >= 0 ==> exists|k: int|
                0 <= k < old(self).table().len() && (#[trigger] old(self).table()[k]).parent == Some(parent)
                    && crate::task::matches_pid(pid, old(self).table()[k].pid) && old(self).table()[k].status
                    == TaskStatus::Zombie && r.0 == old(self).table()[k].pid as isize && r.1 == Some(
                    old(self).table()[k].exit_code,
                ) && final(self).table() == old(self).table().remove(k),
            r.0 == -1 || r.0 == -2 || r.0 >= 0,
    {
        let mut found = false;
        let mut i: usize = 0;
        while i < self.procs.len()
            invariant
                self.procs@ == old(self).table(),
                old(self).wf(),
                forall|k: int| 0 <= k < old(self).table().len() ==> #[trigger] old(self).table()[k].pid <= isize::MAX,
                i <= self.procs@.len(),
                found == exists|j: int|
                    0 <= j < i && (#[trigger] self.procs@[j]).parent == Some(parent) && crate::task::matches_pid(
                        pid,
                        self.procs@[j].pid,
                    ),
                forall|j: int|
                    0 <= j < i && (#[trigger] self.procs@[j]).parent == Some(parent) && crate::task::matches_pid(
                        pid,
                        self.procs@[j].pid,
                    ) ==> self.procs@[j].status != TaskStatus::Zombie,
            decreases self.procs@.len() - i,
        {
            let p = self.procs[i];
            let m = p.parent == Some(parent) && (pid == -1 || (pid >= 0 && pid as usize == p.pid));
            if m {
                if p.status == TaskStatus::Zombie {
                    let ghost t0 = self.procs@;
                    self.procs.remove(i);
                    proof {
                        assert forall|a: int, b: int|
                            0 <= a < self.procs@.len() && 0 <= b < self.procs@.len() && a != b implies (
                            #[trigger] self.procs@[a]).pid != (#[trigger] self.procs@[b]).pid by {
                            let a0 = if a < i { a } else { a + 1 };
                            let b0 = if b < i { b } else { b + 1 };
                            assert(self.procs@[a] == t0[a0]);
                            assert(self.procs@[b] == t0[b0]);
                            assert(old(self).table()[a0].pid != old(self).table()[b0].pid);
                        }
                    }
                    proof {
                        assert(t0[i as int] == p);
                        assert(old(self).table()[i as int].pid <= isize::MAX);
                        assert(self.procs@ == t0.remove(i as int));
                    }
                    return (p.pid as isize, Some(p.exit_code));
                }
                found = true;
            }
            i = i + 1;
        }
        if found {
            (-2, None)
        } else {
            (-1, None)
        }
    }
}

/// Appending a child of `parent` appends its pid to `parent`'s children.
proof fn lemma_children_push(t: Seq<Pcb>, p: Pcb, parent: usize)
    requires
        p.parent == Some(parent),
    ensures
        children_of(t.push(p), parent) == children_of(t, parent).push(p.pid),
{
    let f = |q: Pcb| q.parent == Some(parent);
    reveal(Seq::filter);
    assert(t.push(p).drop_last() =~= t);
    assert(t.push(p).filter(f) == t.filter(f).push(p));
    assert(t.filter(f).push(p).map_values(|q: Pcb| q.pid) =~= t.filter(f).map_values(|q: Pcb| q.pid).push(
        p.pid,
    ));
}

/// After `pid` exits, none of the records names it as parent: each former
/// child names `init_pid`.
pub proof fn lemma_exit_reparents(t0: Seq<Pcb>, t1: Seq<Pcb>, pid: usize, code: i32, init_pid: usize)
    requires
        pid != init_pid,
        t1.len() == t0.len(),
        forall|i: int|
            0 <= i < t0.len() ==> #[trigger] t1[i] == if t0[i].pid == pid {
                Pcb { status: TaskStatus::Zombie, exit_code: code, ..t0[i] }
            } else if t0[i].parent == Some(pid) {
                Pcb { parent: Some(init_pid), ..t0[i] }
            } else {
                t0[i]
            },
        forall|i: int| 0 <= i < t0.len() && #[trigger] t0[i].pid == pid ==> t0[i].parent != Some(pid),
    ensures
        forall|i: int| 0 <= i < t1.len() ==> (#[trigger] t1[i]).parent != Some(pid),
        forall|i: int|
            0 <= i < t0.len() && (#[trigger] t0[i]).parent == Some(pid) ==> t1[i].parent == Some(init_pid),
{
    assert forall|i: int| 0 <= i < t1.len() implies (#[trigger] t1[i]).parent != Some(pid) by {
        assert(t1[i] == if t0[i].pid == pid {
            Pcb { status: TaskStatus::Zombie, exit_code: code, ..t0[i] }
        } else if t0[i].parent == Some(pid) {
            Pcb { parent: Some(init_pid), ..t0[i] }
        } else {
            t0[i]
        });
    }
}

} // verus!
