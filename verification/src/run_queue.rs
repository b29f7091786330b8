//! The run queue of one CPU: a bounded first-in, first-out queue of tasks.

use crate::task::EqTask;
use vstd::prelude::*;

verus! {

/// The number of tasks a run queue can hold.
pub const RUN_QUEUE_SIZE: usize = 64;

/// A queue of at most `RUN_QUEUE_SIZE` tasks, kept in a ring of slots.
/// The head and tail counters only ever count up, and wrap around with
/// the machine word; a slot is the counter modulo the size of the ring.
pub struct EqTaskQueue {
    queue: [Option<EqTask>; 64],
    head: usize,
    tail: usize,
    size: usize,
}

impl View for EqTaskQueue {
    type V = Seq<EqTask>;

    /// The tasks in the queue, the next one to leave first.
    closed spec fn view(&self) -> Seq<EqTask> {
        Seq::new(self.size as nat, |i: int| self.queue[self.slot(i)].unwrap())
    }
}

/// Counting a wrapping counter up by one moves its slot up by one.
proof fn lemma_wrapping_slot(counter: usize)
    ensures
        counter.wrapping_add(1) as int % 64 == (counter as int % 64 + 1) % 64,
{
    if counter == usize::MAX {
        assert(usize::MAX as int % 64 == 63);
    }
}

impl EqTaskQueue {
    /// The slot of the task at position `i` of the queue.
    closed spec fn slot(&self, i: int) -> int {
        (self.head as int % 64 + i) % 64
    }

    /// How many tasks have ever left the queue, modulo the machine word.
    pub closed spec fn left(&self) -> usize {
        self.head
    }

    /// How many tasks have ever entered the queue, modulo the machine
    /// word.
    pub closed spec fn entered(&self) -> usize {
        self.tail
    }

    /// The representation invariant: the ring holds the tasks of the
    /// queue in the slots from the head on, and the tail is where the next
    /// task goes.
    pub closed spec fn wf(&self) -> bool {
        &&& self.size <= RUN_QUEUE_SIZE
        &&& self.tail as int % 64 == self.slot(self.size as int)
        &&& forall|i: int| 0 <= i < self.size ==> (#[trigger] self.queue[self.slot(i)]).is_some()
    }

    /// A well-formed queue holds at most `RUN_QUEUE_SIZE` tasks.
    pub proof fn lemma_bounded(&self)
        requires
            self.wf(),
        ensures
            self@.len() <= RUN_QUEUE_SIZE,
    {
    }

    /// The empty queue.
    pub fn new() -> (r: Self)
        ensures
            r.wf(),
            r@ == Seq::<EqTask>::empty(),
            r.left() == 0,
            r.entered() == 0,
    {
        let r = EqTaskQueue { queue: [None; 64], head: 0, tail: 0, size: 0 };
        assert(r@ =~= Seq::<EqTask>::empty());
        r
    }

    /// Puts a task at the end of the queue, or hands it back if the queue
    /// is full.
    pub fn insert(&mut self, task: EqTask) -> (r: Result<(), EqTask>)
        requires
            old(self).wf(),
        ensures
            final(self).wf(),
            old(self)@.len() < RUN_QUEUE_SIZE ==> {
                &&& r == Ok::<(), EqTask>(())
                &&& final(self)@ == old(self)@.push(task)
                &&& final(self).entered() == old(self).entered().wrapping_add(1)
            },
            old(self)@.len() >= RUN_QUEUE_SIZE ==> {
                &&& r == Err::<(), EqTask>(task)
                &&& final(self)@ == old(self)@
                &&& final(self).entered() == old(self).entered()
            },
            final(self).left() == old(self).left(),
    {
        if self.size == RUN_QUEUE_SIZE {
            return Err(task);
        }
        let ghost before = *self;
        proof {
            lemma_wrapping_slot(self.tail);
        }
        self.size = self.size + 1;
        let tail = self.tail % RUN_QUEUE_SIZE;
        self.tail = self.tail.wrapping_add(1);
        self.queue[tail] = Some(task);
        proof {
            assert forall|i: int| 0 <= i < before.size implies before.slot(i) != tail by {}
            assert(self.slot(before.size as int) == tail);
            assert forall|i: int| 0 <= i < self.size implies (#[trigger] self.queue[self.slot(
                i,
            )]).is_some() by {
                if i < before.size {
                    assert(before.queue[before.slot(i)].is_some());
                }
            }
            assert(self@ =~= before@.push(task));
        }
        Ok(())
    }

    /// Takes the task at the front of the queue, if there is one.
    pub fn pop(&mut self) -> (r: Option<EqTask>)
        requires
            old(self).wf(),
        ensures
            final(self).wf(),
            old(self)@.len() == 0 ==> {
                &&& r.is_none()
                &&& final(self)@ == old(self)@
                &&& final(self).left() == old(self).left()
            },
            old(self)@.len() > 0 ==> {
                &&& r == Some(old(self)@[0])
                &&& final(self)@ == old(self)@.subrange(1, old(self)@.len() as int)
                &&& final(self).left() == old(self).left().wrapping_add(1)
            },
            final(self).entered() == old(self).entered(),
    {
        if self.size == 0 {
            return None;
        }
        let ghost before = *self;
        proof {
            lemma_wrapping_slot(self.head);
            assert(before.queue[before.slot(0)].is_some());
        }
        self.size = self.size - 1;
        let head = self.head % RUN_QUEUE_SIZE;
        self.head = self.head.wrapping_add(1);
        let task = self.queue[head];
        self.queue[head] = None;
        proof {
            assert forall|i: int| 0 <= i < self.size implies self.slot(i) == before.slot(i + 1)
                && self.slot(i) != head by {}
            assert forall|i: int| 0 <= i < self.size implies (#[trigger] self.queue[self.slot(
                i,
            )]).is_some() by {
                assert(before.queue[before.slot(i + 1)].is_some());
            }
            assert(self@ =~= before@.subrange(1, before@.len() as int));
        }
        task
    }

    /// The tasks in the queue, the next one to leave first.
    pub fn tasks(&self) -> (r: Vec<EqTask>)
        requires
            self.wf(),
        ensures
            r@ == self@,
    {
        let mut out: Vec<EqTask> = Vec::new();
        let start = self.head % RUN_QUEUE_SIZE;
        let mut j: usize = 0;
        while j < self.size
            invariant
                self.wf(),
                start == self.head as int % 64,
                j <= self.size,
                out@ == self@.subrange(0, j as int),
            decreases self.size - j,
        {
            let slot = (start + j) % RUN_QUEUE_SIZE;
            assert(self.queue[self.slot(j as int)].is_some());
            match self.queue[slot] {
                Some(task) => {
                    out.push(task);
                },
                None => {},
            }
            assert(out@ =~= self@.subrange(0, j + 1));
            j += 1;
        }
        assert(out@ =~= self@);
        out
    }

    /// How many tasks have ever left the queue, modulo the machine word.
    pub fn head(&self) -> (r: usize)
        ensures
            r == self.left(),
    {
        self.head
    }

    /// How many tasks have ever entered the queue, modulo the machine
    /// word.
    pub fn tail(&self) -> (r: usize)
        ensures
            r == self.entered(),
    {
        self.tail
    }

    /// The number of tasks in the queue.
    pub fn get_task_num(&self) -> (r: usize)
        ensures
            r == self@.len(),
    {
        self.size
    }
}

impl Default for EqTaskQueue {
    fn default() -> (r: Self)
        ensures
            r.wf(),
            r@ == Seq::<EqTask>::empty(),
            r.left() == 0,
            r.entered() == 0,
    {
        Self::new()
    }
}

} // verus!
