use std::collections::VecDeque;
use vstd::prelude::*;

verus! {

/// What a task that asked for a lock or a resource does next.
#[derive(PartialEq, Eq, Structural)]
pub enum Acquire {
    /// It holds the lock or the resource and goes on.
    Acquired,
    /// It waits in the queue; the scheduler runs another task.
    Blocked,
}

/// A lock with a queue of the tasks waiting for it, by task number.
pub struct Mutex {
    id: usize,
    locked: bool,
    wait_queue: VecDeque<usize>,
}

impl Mutex {
    pub closed spec fn id(&self) -> usize {
        self.id
    }

    pub closed spec fn locked(&self) -> bool {
        self.locked
    }

    /// The waiting tasks, first come first.
    pub closed spec fn waiting(&self) -> Seq<usize> {
        self.wait_queue@
    }

    /// Tasks wait only for a held lock.
    pub open spec fn wf(&self) -> bool {
        self.waiting().len() > 0 ==> self.locked()
    }

    /// A free lock with number `id`.
    pub fn new(id: usize) -> (r: Self)
        ensures
            r.id() == id,
            !r.locked(),
            r.waiting() == Seq::<usize>::empty(),
            r.wf(),
    {
        Self { id, locked: false, wait_queue: VecDeque::new() }
    }

    /// Task `current` asks for the lock: it takes a free lock, or waits at the end of the queue.
    pub fn lock(&mut self, current: usize) -> (r: Acquire)
        ensures
            final(self).id() == old(self).id(),
            final(self).locked(),
            old(self).locked() ==> r == Acquire::Blocked && final(self).waiting() == old(self).waiting().push(current),
            !old(self).locked() ==> r == Acquire::Acquired && final(self).waiting() == old(self).waiting(),
            old(self).wf() ==> final(self).wf(),
    {
        if self.locked {
            self.wait_queue.push_back(current);
            Acquire::Blocked
        } else {
            self.locked = true;
            Acquire::Acquired
        }
    }

    /// The holder gives the lock up: the first waiting task, returned to be woken, gets it;
    /// with no task waiting the lock becomes free.
    pub fn unlock(&mut self) -> (r: Option<usize>)
        ensures
            final(self).id() == old(self).id(),
            old(self).waiting().len() > 0 ==> {
                &&& r == Some(old(self).waiting()[0])
                &&& final(self).waiting() == old(self).waiting().drop_first()
                &&& final(self).locked() == old(self).locked()
            },
            old(self).waiting().len() == 0 ==> r is None && !final(self).locked() && final(self).waiting() == old(self).waiting(),
            old(self).wf() ==> final(self).wf(),
    {
        match self.wait_queue.pop_front() {
            Some(task) => Some(task),
            None => {
                self.locked = false;
                None
            },
        }
    }
}

/// A counting semaphore with a queue of the tasks waiting on it, by task number.
pub struct Semaphore {
    count: isize,
    wait_queue: VecDeque<usize>,
}

impl Semaphore {
    /// The count: the free resources, or minus the number of waiting tasks.
    pub closed spec fn count(&self) -> int {
        self.count as int
    }

    /// The waiting tasks, first come first.
    pub closed spec fn waiting(&self) -> Seq<usize> {
        self.wait_queue@
    }

    /// Exactly as many tasks wait as the count is below zero.
    pub open spec fn wf(&self) -> bool {
        self.waiting().len() == if self.count() < 0 { -self.count() } else { 0 }
    }

    /// A semaphore with `res_count` free resources, the count taken as a signed number (a count
    /// above `isize::MAX` wraps to a negative one).
    pub fn new(res_count: usize) -> (r: Self)
        ensures
            r.count() == res_count as isize,
            r.waiting() == Seq::<usize>::empty(),
            res_count <= isize::MAX ==> r.count() == res_count && r.wf(),
    {
        Self { count: res_count as isize, wait_queue: VecDeque::new() }
    }

    /// Task `current` takes a resource, or waits at the end of the queue when none is free.
    pub fn down(&mut self, current: usize) -> (r: Acquire)
        requires
            old(self).count() > isize::MIN,
        ensures
            final(self).count() == old(self).count() - 1,
            final(self).count() < 0 ==> r == Acquire::Blocked && final(self).waiting() == old(self).waiting().push(current),
            final(self).count() >= 0 ==> r == Acquire::Acquired && final(self).waiting() == old(self).waiting(),
            old(self).wf() ==> final(self).wf(),
    {
        self.count -= 1;
        if self.count < 0 {
            self.wait_queue.push_back(current);
            Acquire::Blocked
        } else {
            Acquire::Acquired
        }
    }

    /// A resource is given back: the first waiting task, returned to be woken, gets it.
    pub fn up(&mut self) -> (r: Option<usize>)
        requires
            old(self).count() < isize::MAX,
        ensures
            final(self).count() == old(self).count() + 1,
            final(self).count() <= 0 && old(self).waiting().len() > 0 ==> {
                &&& r == Some(old(self).waiting()[0])
                &&& final(self).waiting() == old(self).waiting().drop_first()
            },
            !(final(self).count() <= 0 && old(self).waiting().len() > 0) ==> r is None && final(self).waiting() == old(self).waiting(),
            old(self).wf() ==> final(self).wf(),
    {
        self.count += 1;
        if self.count <= 0 {
            if let Some(task) = self.wait_queue.pop_front() {
                return Some(task);
            }
        }
        None
    }
}

} // verus!
