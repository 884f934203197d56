use vstd::prelude::*;

verus! {

/// The task that runs and the tasks ready to run, by task number, in the order they will run.
pub struct TaskManager {
    pub current: Option<usize>,
    pub ready_queue: Vec<usize>,
}

/// What the exit of the running task brings about.
#[derive(PartialEq, Eq, Structural)]
pub enum ExitAction {
    /// The first thread of the first process exited: the machine shuts down.
    Shutdown,
    /// The first thread of a process exited: the whole process exits.
    ExitProcess,
    /// Another thread exited.
    ExitThread,
}

impl TaskManager {
    /// The tasks ready to run, first to run first.
    pub closed spec fn ready(&self) -> Seq<usize> {
        self.ready_queue@
    }

    /// No task running, none ready.
    pub fn new() -> (r: Self)
        ensures
            r.current is None,
            r.ready() == Seq::<usize>::empty(),
    {
        Self { current: None, ready_queue: Vec::new() }
    }

    /// The running task.
    pub fn current_task(&self) -> (r: usize)
        requires
            self.current is Some,
        ensures
            Some(r) == self.current,
    {
        self.current.unwrap()
    }

    /// Makes `task` ready to run, after the others.
    pub fn add_task(&mut self, task: usize)
        ensures
            final(self).current == old(self).current,
            final(self).ready() == old(self).ready().push(task),
    {
        self.ready_queue.push(task);
    }

    /// Wakes `task` up: it becomes ready to run.
    pub fn wakeup_task(&mut self, task: usize)
        ensures
            final(self).current == old(self).current,
            final(self).ready() == old(self).ready().push(task),
    {
        self.add_task(task);
    }

    /// Runs the first ready task; returns it, to switch to.
    pub fn run_next(&mut self) -> (r: usize)
        requires
            old(self).ready().len() > 0,
        ensures
            r == old(self).ready()[0],
            final(self).current == Some(r),
            final(self).ready() == old(self).ready().drop_first(),
    {
        let next = self.ready_queue.remove(0);
        self.current = Some(next);
        next
    }

    /// The running task yields: it goes to the end of the queue and the first ready task
    /// runs.
    pub fn suspend_and_run_next(&mut self) -> (r: usize)
        requires
            old(self).current is Some,
        ensures
            ({
                let all = old(self).ready().push(old(self).current.unwrap());
                &&& r == all[0]
                &&& final(self).current == Some(r)
                &&& final(self).ready() == all.drop_first()
            }),
    {
        let previous = self.current.take().unwrap();
        self.ready_queue.push(previous);
        self.run_next()
    }

    /// The running task waits on something: it leaves the queues and the first ready task
    /// runs.
    pub fn block_and_run_next(&mut self) -> (r: usize)
        requires
            old(self).current is Some,
            old(self).ready().len() > 0,
        ensures
            r == old(self).ready()[0],
            final(self).current == Some(r),
            final(self).ready() == old(self).ready().drop_first(),
    {
        self.current.take().unwrap();
        self.run_next()
    }

    /// The running task, thread `tid` of process `pid`, exits: what follows from it, and, unless
    /// the machine shuts down, the first ready task runs.
    pub fn exit_and_run_next(&mut self, tid: usize, pid: usize) -> (r: (ExitAction, Option<usize>))
        requires
            old(self).current is Some,
            !(tid == 0 && pid == 0) ==> old(self).ready().len() > 0,
        ensures
            tid == 0 && pid == 0 ==> {
                &&& r.0 == ExitAction::Shutdown
                &&& r.1 is None
                &&& final(self).current is None
                &&& final(self).ready() == old(self).ready()
            },
            tid == 0 && pid != 0 ==> r.0 == ExitAction::ExitProcess,
            tid != 0 ==> r.0 == ExitAction::ExitThread,
            !(tid == 0 && pid == 0) ==> {
                &&& r.1 == Some(old(self).ready()[0])
                &&& final(self).current == r.1
                &&& final(self).ready() == old(self).ready().drop_first()
            },
    {
        self.current.take().unwrap();
        let action = if tid == 0 {
            if pid == 0 {
                return (ExitAction::Shutdown, None);
            }
            ExitAction::ExitProcess
        } else {
            ExitAction::ExitThread
        };
        let next = self.run_next();
        (action, Some(next))
    }
}

/// Yielding loses no task: the running task and the ready ones are, after a switch, the same
/// tasks as before.
pub proof fn lemma_suspend_keeps_tasks(current: usize, ready: Seq<usize>, next: usize, after: Seq<usize>)
    requires
        next == ready.push(current)[0],
        after == ready.push(current).drop_first(),
    ensures
        seq![next] + after == ready.push(current),
        after.len() == ready.len(),
{
    assert(seq![next] + after =~= ready.push(current));
}

} // verus!
