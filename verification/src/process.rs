use crate::id::{hands_out, IDAllocDict};
use crate::sync::{Acquire, Mutex, Semaphore};
use vstd::prelude::*;

verus! {

/// A thread of a process: its number in the process, once it has one, and whether it has
/// exited.
pub struct Task {
    pub tid: Option<usize>,
    pub is_exited: bool,
}

impl Task {
    /// A thread that runs and has no number yet.
    pub fn new() -> (r: Self)
        ensures
            r.tid is None,
            !r.is_exited,
    {
        Self { tid: None, is_exited: false }
    }
}

/// A process: its number, whether it has exited, and the tables that its system calls work
/// on, each by number: its threads, its locks and its semaphores.
pub struct Process {
    pub pid: Option<usize>,
    pub is_exited: bool,
    pub tasks: IDAllocDict<Task>,
    pub mutexs: IDAllocDict<Mutex>,
    pub semaphores: IDAllocDict<Semaphore>,
}

impl Process {
    /// Every table of the process is consistent.
    pub open spec fn wf(&self) -> bool {
        &&& self.tasks.wf()
        &&& self.mutexs.wf()
        &&& self.semaphores.wf()
    }

    /// A running process, not yet numbered, with its main thread, thread 0, and no lock or
    /// semaphore.
    pub fn new() -> (r: Self)
        ensures
            r.pid is None,
            !r.is_exited,
            r.tasks@ == map![0usize => Task { tid: Some(0), is_exited: false }],
            r.mutexs@ == Map::<usize, Mutex>::empty(),
            r.semaphores@ == Map::<usize, Semaphore>::empty(),
            r.tasks.ids().next() == 1 && r.tasks.ids().recycled() == Seq::<usize>::empty(),
            r.mutexs.ids().next() == 0 && r.mutexs.ids().recycled() == Seq::<usize>::empty(),
            r.semaphores.ids().next() == 0 && r.semaphores.ids().recycled() == Seq::<usize>::empty(),
            r.wf(),
    {
        let mut tasks: IDAllocDict<Task> = IDAllocDict::new();
        let tid = tasks.insert(Task::new());
        match tasks.get_mut(tid) {
            Some(task) => {
                task.tid = Some(tid);
            },
            None => {},
        }
        let r = Self {
            pid: None,
            is_exited: false,
            tasks,
            mutexs: IDAllocDict::new(),
            semaphores: IDAllocDict::new(),
        };
        assert(r.tasks@ =~= map![0usize => Task { tid: Some(0), is_exited: false }]);
        r
    }

    /// The main thread, thread 0.
    pub fn main_task(&self) -> (r: &Task)
        requires
            self.tasks@.contains_key(0),
        ensures
            *r == self.tasks@[0],
    {
        self.tasks.get(0).unwrap()
    }
}

/// Thread `tid` of the process exits: it is marked as exited, and when it is the main thread
/// the whole process is.
pub fn exit_task(process: &mut Process, tid: usize)
    requires
        old(process).tasks@.contains_key(tid),
    ensures
        final(process).tasks@ == old(process).tasks@.insert(tid, Task { is_exited: true, ..old(process).tasks@[tid] }),
        final(process).tasks.ids() == old(process).tasks.ids(),
        final(process).is_exited == (old(process).is_exited || tid == 0),
        final(process).pid == old(process).pid,
        final(process).mutexs == old(process).mutexs,
        final(process).semaphores == old(process).semaphores,
{
    let task = process.tasks.get_mut(tid).unwrap();
    task.is_exited = true;
    if tid == 0 {
        process.is_exited = true;
    }
}

/// The number of the process.
pub fn getpid(process: &Process) -> (r: usize)
    requires
        process.pid is Some,
    ensures
        Some(r) == process.pid,
{
    process.pid.unwrap()
}

/// Waits for process `pid`: once it has exited it leaves the table of processes, its number
/// free for reuse, and the answer is 1; while it runs the answer is 0.
pub fn waitpid(processes: &mut IDAllocDict<Process>, pid: usize) -> (r: usize)
    requires
        old(processes)@.contains_key(pid),
    ensures
        old(processes)@[pid].is_exited ==> {
            &&& r == 1
            &&& final(processes)@ == old(processes)@.remove(pid)
            &&& final(processes).ids().recycled() == old(processes).ids().recycled().push(pid)
            &&& final(processes).ids().next() == old(processes).ids().next()
        },
        !old(processes)@[pid].is_exited ==> r == 0 && *final(processes) == *old(processes),
        old(processes).wf() ==> final(processes).wf(),
{
    let exited = processes.get(pid).unwrap().is_exited;
    if exited {
        processes.remove(pid);
        1
    } else {
        0
    }
}

/// Whether thread `tid` of the process has exited: 1 if so, 0 while it runs.
pub fn waittid(process: &Process, tid: usize) -> (r: usize)
    requires
        process.tasks@.contains_key(tid),
    ensures
        r == if process.tasks@[tid].is_exited { 1usize } else { 0usize },
{
    let waited_task = process.tasks.get(tid).unwrap();
    if waited_task.is_exited {
        1
    } else {
        0
    }
}

/// Adds a running thread to the process and returns its number, which the thread records.
pub fn thread_create(process: &mut Process) -> (r: usize)
    requires
        old(process).tasks.ids().recycled().len() == 0 ==> old(process).tasks.ids().next() < usize::MAX,
    ensures
        final(process).tasks@ == old(process).tasks@.insert(r, Task { tid: Some(r), is_exited: false }),
        hands_out(old(process).tasks.ids(), final(process).tasks.ids(), r),
        old(process).wf() ==> !old(process).tasks@.contains_key(r) && final(process).wf(),
        final(process).pid == old(process).pid,
        final(process).is_exited == old(process).is_exited,
        final(process).mutexs == old(process).mutexs,
        final(process).semaphores == old(process).semaphores,
{
    let tid = process.tasks.insert(Task::new());
    match process.tasks.get_mut(tid) {
        Some(task) => {
            task.tid = Some(tid);
        },
        None => {},
    }
    proof {
        assert(process.tasks@ =~= old(process).tasks@.insert(tid, Task { tid: Some(tid), is_exited: false }));
    }
    tid
}

/// Creates a free lock in the process and returns its number, which the lock carries.
pub fn mutex_create(process: &mut Process) -> (r: usize)
    requires
        old(process).mutexs.ids().recycled().len() == 0 ==> old(process).mutexs.ids().next() < usize::MAX,
    ensures
        final(process).mutexs@.dom() == old(process).mutexs@.dom().insert(r),
        hands_out(old(process).mutexs.ids(), final(process).mutexs.ids(), r),
        forall|k: usize| k != r && #[trigger] old(process).mutexs@.contains_key(k) ==> final(process).mutexs@[k] == old(process).mutexs@[k],
        final(process).mutexs@[r].id() == r,
        !final(process).mutexs@[r].locked(),
        final(process).mutexs@[r].waiting() == Seq::<usize>::empty(),
        old(process).wf() ==> !old(process).mutexs@.contains_key(r) && final(process).wf(),
        final(process).pid == old(process).pid,
        final(process).is_exited == old(process).is_exited,
        final(process).tasks == old(process).tasks,
        final(process).semaphores == old(process).semaphores,
{
    let id = process.mutexs.insert(Mutex::new(0));
    match process.mutexs.get_mut(id) {
        Some(mutex) => {
            *mutex = Mutex::new(id);
        },
        None => {},
    }
    proof {
        assert(process.mutexs@.dom() =~= old(process).mutexs@.dom().insert(id));
    }
    id
}

/// The running task `current` asks for lock `mutex_id` of the process.
pub fn mutex_lock(process: &mut Process, mutex_id: usize, current: usize) -> (r: Acquire)
    requires
        old(process).mutexs@.contains_key(mutex_id),
    ensures
        ({
            let m0 = old(process).mutexs@[mutex_id];
            let m1 = final(process).mutexs@[mutex_id];
            &&& final(process).mutexs@ == old(process).mutexs@.insert(mutex_id, m1)
            &&& m1.id() == m0.id()
            &&& m1.locked()
            &&& m0.locked() ==> r == Acquire::Blocked && m1.waiting() == m0.waiting().push(current)
            &&& !m0.locked() ==> r == Acquire::Acquired && m1.waiting() == m0.waiting()
        }),
        final(process).mutexs.ids() == old(process).mutexs.ids(),
        final(process).pid == old(process).pid,
        final(process).is_exited == old(process).is_exited,
        final(process).tasks == old(process).tasks,
        final(process).semaphores == old(process).semaphores,
{
    let mutex = process.mutexs.get_mut(mutex_id).unwrap();
    mutex.lock(current)
}

/// Lock `mutex_id` of the process is given up; returns the waiting task that gets it, to be
/// woken.
pub fn mutex_unlock(process: &mut Process, mutex_id: usize) -> (r: Option<usize>)
    requires
        old(process).mutexs@.contains_key(mutex_id),
    ensures
        ({
            let m0 = old(process).mutexs@[mutex_id];
            let m1 = final(process).mutexs@[mutex_id];
            &&& final(process).mutexs@ == old(process).mutexs@.insert(mutex_id, m1)
            &&& m1.id() == m0.id()
            &&& m0.waiting().len() > 0 ==> {
                &&& r == Some(m0.waiting()[0])
                &&& m1.waiting() == m0.waiting().drop_first()
                &&& m1.locked() == m0.locked()
            }
            &&& m0.waiting().len() == 0 ==> r is None && !m1.locked() && m1.waiting() == m0.waiting()
        }),
        final(process).mutexs.ids() == old(process).mutexs.ids(),
        final(process).pid == old(process).pid,
        final(process).is_exited == old(process).is_exited,
        final(process).tasks == old(process).tasks,
        final(process).semaphores == old(process).semaphores,
{
    let mutex = process.mutexs.get_mut(mutex_id).unwrap();
    mutex.unlock()
}

/// Creates a semaphore with `res_count` free resources in the process and returns its number.
pub fn semaphore_create(process: &mut Process, res_count: usize) -> (r: usize)
    requires
        old(process).semaphores.ids().recycled().len() == 0 ==> old(process).semaphores.ids().next() < usize::MAX,
    ensures
        final(process).semaphores@.dom() == old(process).semaphores@.dom().insert(r),
        hands_out(old(process).semaphores.ids(), final(process).semaphores.ids(), r),
        forall|k: usize| k != r && #[trigger] old(process).semaphores@.contains_key(k) ==> final(process).semaphores@[k] == old(process).semaphores@[k],
        final(process).semaphores@[r].count() == res_count as isize,
        res_count <= isize::MAX ==> final(process).semaphores@[r].count() == res_count,
        final(process).semaphores@[r].waiting() == Seq::<usize>::empty(),
        old(process).wf() ==> !old(process).semaphores@.contains_key(r) && final(process).wf(),
        final(process).pid == old(process).pid,
        final(process).is_exited == old(process).is_exited,
        final(process).tasks == old(process).tasks,
        final(process).mutexs == old(process).mutexs,
{
    let semaphore = Semaphore::new(res_count);
    let id = process.semaphores.insert(semaphore);
    proof {
        assert(process.semaphores@.dom() =~= old(process).semaphores@.dom().insert(id));
    }
    id
}

/// The running task `current` takes a resource of semaphore `sem_id` of the process.
pub fn semaphore_down(process: &mut Process, sem_id: usize, current: usize) -> (r: Acquire)
    requires
        old(process).semaphores@.contains_key(sem_id),
        old(process).semaphores@[sem_id].count() > isize::MIN,
    ensures
        ({
            let s0 = old(process).semaphores@[sem_id];
            let s1 = final(process).semaphores@[sem_id];
            &&& final(process).semaphores@ == old(process).semaphores@.insert(sem_id, s1)
            &&& s1.count() == s0.count() - 1
            &&& s1.count() < 0 ==> r == Acquire::Blocked && s1.waiting() == s0.waiting().push(current)
            &&& s1.count() >= 0 ==> r == Acquire::Acquired && s1.waiting() == s0.waiting()
        }),
        final(process).semaphores.ids() == old(process).semaphores.ids(),
        final(process).pid == old(process).pid,
        final(process).is_exited == old(process).is_exited,
        final(process).tasks == old(process).tasks,
        final(process).mutexs == old(process).mutexs,
{
    let semaphore = process.semaphores.get_mut(sem_id).unwrap();
    semaphore.down(current)
}

/// A resource of semaphore `sem_id` of the process is given back; returns the waiting task
/// that gets it, to be woken.
pub fn semaphore_up(process: &mut Process, sem_id: usize) -> (r: Option<usize>)
    requires
        old(process).semaphores@.contains_key(sem_id),
        old(process).semaphores@[sem_id].count() < isize::MAX,
    ensures
        ({
            let s0 = old(process).semaphores@[sem_id];
            let s1 = final(process).semaphores@[sem_id];
            &&& final(process).semaphores@ == old(process).semaphores@.insert(sem_id, s1)
            &&& s1.count() == s0.count() + 1
            &&& s1.count() <= 0 && s0.waiting().len() > 0 ==> r == Some(s0.waiting()[0]) && s1.waiting() == s0.waiting().drop_first()
            &&& !(s1.count() <= 0 && s0.waiting().len() > 0) ==> r is None && s1.waiting() == s0.waiting()
        }),
        final(process).semaphores.ids() == old(process).semaphores.ids(),
        final(process).pid == old(process).pid,
        final(process).is_exited == old(process).is_exited,
        final(process).tasks == old(process).tasks,
        final(process).mutexs == old(process).mutexs,
{
    let semaphore = process.semaphores.get_mut(sem_id).unwrap();
    semaphore.up()
}

/// A process that `waitpid` reaped gives its number back: the next process added to the table
/// gets that number.
pub proof fn lemma_reaped_pid_reused(t0: IDAllocDict<Process>, t1: IDAllocDict<Process>, t2: IDAllocDict<Process>, pid: usize, p: Process, r: usize)
    requires
        t1@ == t0@.remove(pid),
        t1.ids().recycled() == t0.ids().recycled().push(pid),
        t1.ids().next() == t0.ids().next(),
        t2@ == t1@.insert(r, p),
        t1.ids().recycled().len() > 0 ==> r == t1.ids().recycled().last(),
    ensures
        r == pid,
        t2@.contains_key(pid),
        t2@[pid] == p,
{
}

/// Once a thread has exited, a wait for it is over: after `exit_task`, `waittid` on the thread
/// answers 1; and when the thread was the main one, `waitpid` on the process reaps it.
pub proof fn lemma_wait_after_exit(p0: Process, p1: Process, tid: usize)
    requires
        p0.tasks@.contains_key(tid),
        p1.tasks@ == p0.tasks@.insert(tid, Task { is_exited: true, ..p0.tasks@[tid] }),
        p1.is_exited == (p0.is_exited || tid == 0),
    ensures
        p1.tasks@.contains_key(tid),
        p1.tasks@[tid].is_exited,
        tid == 0 ==> p1.is_exited,
{
}

} // verus!
