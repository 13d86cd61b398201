use vstd::prelude::*;

use super::Bt;

verus! {

/// A queue of boundary-tag handles, in the order in which they were added.
///
/// A free tag sits in exactly one freelist bucket and a used tag in exactly one
/// allocation-table bucket; each bucket is one of these queues.
pub struct SegmentQueue {
    items: Vec<usize>,
}

impl View for SegmentQueue {
    type V = Seq<usize>;

    closed spec fn view(&self) -> Seq<usize> {
        self.items@
    }
}

impl SegmentQueue {
    pub fn new() -> (r: SegmentQueue)
        ensures
            r@ == Seq::<usize>::empty(),
    {
        SegmentQueue { items: Vec::new() }
    }

    pub fn len(&self) -> (r: usize)
        ensures
            r == self@.len(),
    {
        self.items.len()
    }

    pub fn get(&self, i: usize) -> (r: usize)
        requires
            i < self@.len(),
        ensures
            r == self@[i as int],
    {
        self.items[i]
    }

    /// Appends the free or used tag `bt` of `tags` at the back of the queue;
    /// spans never join a queue.
    pub fn add(&mut self, tags: &Vec<Bt>, bt: usize)
        requires
            bt < tags@.len(),
            !tags@[bt as int].is_span(),
        ensures
            final(self)@ == old(self)@.push(bt),
    {
        self.items.push(bt);
    }

    /// Takes `bt` out of the queue, keeping the order of the others.
    pub fn remove(&mut self, bt: usize)
        requires
            old(self)@.no_duplicates(),
        ensures
            final(self)@.no_duplicates(),
            forall|x: usize| #[trigger]
                final(self)@.contains(x) <==> (old(self)@.contains(x) && x != bt),
            old(self)@.contains(bt) ==> final(self)@.len() + 1 == old(self)@.len(),
            !old(self)@.contains(bt) ==> final(self)@ == old(self)@,
    {
        let mut i: usize = 0;
        while i < self.items.len()
            invariant
                i <= self.items@.len(),
                self.items@ == old(self)@,
                old(self)@.no_duplicates(),
                forall|j: int| 0 <= j < i ==> self.items@[j] != bt,
            decreases self.items@.len() - i,
        {
            if self.items[i] == bt {
                let ghost before = self.items@;
                self.items.remove(i);
                assert(self.items@ == before.remove(i as int));
                assert forall|x: usize| #[trigger]
                    self.items@.contains(x) <==> (before.contains(x) && x != bt) by {
                    if self.items@.contains(x) {
                        let k = choose|k: int| 0 <= k < self.items@.len() && self.items@[k] == x;
                        if k < i {
                            assert(before[k] == x);
                        } else {
                            assert(before[k + 1] == x);
                            assert(before[i as int] == bt);
                        }
                        assert(before.contains(x));
                    }
                    if before.contains(x) && x != bt {
                        let k = choose|k: int| 0 <= k < before.len() && before[k] == x;
                        if k < i {
                            assert(self.items@[k] == x);
                        } else {
                            assert(k != i);
                            assert(self.items@[k - 1] == x);
                        }
                        assert(self.items@.contains(x));
                    }
                }
                assert(self.items@.no_duplicates()) by {
                    assert forall|a: int, b: int|
                        0 <= a < self.items@.len() && 0 <= b < self.items@.len() && a != b implies
                        self.items@[a] != self.items@[b] by {
                        let a2 = if a < i { a } else { a + 1 };
                        let b2 = if b < i { b } else { b + 1 };
                        assert(self.items@[a] == before[a2]);
                        assert(self.items@[b] == before[b2]);
                        assert(a2 != b2);
                    }
                }
                return;
            }
            i += 1;
        }
        assert(!old(self)@.contains(bt));
    }

    /// Appends the free or used tag `bt` of `tags` at the back of the queue.
    pub fn push(&mut self, tags: &Vec<Bt>, bt: usize)
        requires
            bt < tags@.len(),
            !tags@[bt as int].is_span(),
        ensures
            final(self)@ == old(self)@.push(bt),
    {
        self.add(tags, bt);
    }

    /// Takes the front of the queue.
    pub fn pop(&mut self) -> (r: Option<usize>)
        ensures
            old(self)@.len() == 0 ==> r.is_none() && final(self)@ == old(self)@,
            old(self)@.len() > 0 ==> r == Some(old(self)@[0]) && final(self)@ == old(self)@.drop_first(),
    {
        if self.items.len() == 0 {
            None
        } else {
            let r = self.items.remove(0);
            assert(self.items@ =~= old(self)@.drop_first());
            Some(r)
        }
    }

    pub fn iter(&self) -> (r: SegmentQueueIter)
        ensures
            r.pos() == 0,
    {
        SegmentQueueIter::new(self)
    }
}

/// A cursor over a `SegmentQueue`, front to back.
pub struct SegmentQueueIter {
    pos: usize,
}

impl SegmentQueueIter {
    pub closed spec fn pos(&self) -> int {
        self.pos as int
    }

    pub fn new(queue: &SegmentQueue) -> (r: SegmentQueueIter)
        ensures
            r.pos() == 0,
    {
        SegmentQueueIter { pos: 0 }
    }

    /// The next handle of `queue`, if any is left.
    pub fn next(&mut self, queue: &SegmentQueue) -> (r: Option<usize>)
        ensures
            old(self).pos() < queue@.len() ==> r == Some(queue@[old(self).pos()]) && final(self).pos() == old(self).pos() + 1,
            old(self).pos() >= queue@.len() ==> r.is_none() && final(self).pos() == old(self).pos(),
    {
        if self.pos < queue.items.len() {
            let r = queue.items[self.pos];
            self.pos = self.pos + 1;
            Some(r)
        } else {
            None
        }
    }
}

} // verus!
