use vstd::prelude::*;

verus! {

/// The arena's tags in address order: each span, followed by the tags that
/// tile it. Holds handles into the arena's tag store.
pub struct SegmentList {
    order: Vec<usize>,
}

impl View for SegmentList {
    type V = Seq<usize>;

    closed spec fn view(&self) -> Seq<usize> {
        self.order@
    }
}

impl SegmentList {
    pub fn new() -> (r: SegmentList)
        ensures
            r@ == Seq::<usize>::empty(),
    {
        SegmentList { order: Vec::new() }
    }

    pub fn len(&self) -> (r: usize)
        ensures
            r == self@.len(),
    {
        self.order.len()
    }

    /// The handle at position `pos`.
    pub fn get(&self, pos: usize) -> (r: usize)
        requires
            pos < self@.len(),
        ensures
            r == self@[pos as int],
    {
        self.order[pos]
    }

    /// The position of `bt`, if it is in the list.
    pub fn position(&self, bt: usize) -> (r: Option<usize>)
        ensures
            r.is_some() ==> r.unwrap() < self@.len() && self@[r.unwrap() as int] == bt,
            r.is_none() ==> !self@.contains(bt),
    {
        let mut i: usize = 0;
        while i < self.order.len()
            invariant
                i <= self@.len(),
                forall|j: int| 0 <= j < i ==> self@[j] != bt,
            decreases self@.len() - i,
        {
            if self.order[i] == bt {
                return Some(i);
            }
            i += 1;
        }
        None
    }

    /// Appends `bt` at the end of the list.
    pub fn add(&mut self, bt: usize)
        ensures
            final(self)@ == old(self)@.push(bt),
    {
        self.order.push(bt);
    }

    /// Unlinks the tag at position `pos`.
    pub fn remove(&mut self, pos: usize)
        requires
            pos < old(self)@.len(),
        ensures
            final(self)@ == old(self)@.remove(pos as int),
    {
        self.order.remove(pos);
    }

    /// Links `new` just before the tag at position `pos`.
    pub fn insert_before(&mut self, new: usize, pos: usize)
        requires
            pos <= old(self)@.len(),
        ensures
            final(self)@ == old(self)@.insert(pos as int, new),
    {
        self.order.insert(pos, new);
    }

    /// The handle at the head of the list.
    pub fn first(&self) -> (r: Option<usize>)
        ensures
            self@.len() == 0 ==> r.is_none(),
            self@.len() > 0 ==> r == Some(self@[0]),
    {
        if self.order.len() == 0 {
            None
        } else {
            Some(self.order[0])
        }
    }

    /// The position after `pos`, if the list goes on.
    pub fn next(&self, pos: usize) -> (r: Option<usize>)
        ensures
            pos + 1 < self@.len() ==> r == Some((pos + 1) as usize),
            pos + 1 >= self@.len() ==> r.is_none(),
    {
        if pos < self.order.len() && pos + 1 < self.order.len() {
            Some(pos + 1)
        } else {
            None
        }
    }

    pub fn iter(&self) -> (r: SegmentListIter)
        ensures
            r.cursor() == Some(0usize),
    {
        SegmentListIter::new(self)
    }

    pub fn iter_from(&self, pos: usize) -> (r: SegmentListIter)
        ensures
            r.cursor() == Some(pos),
    {
        SegmentListIter::from(pos)
    }
}

/// A cursor over a `SegmentList` that can walk either way.
pub struct SegmentListIter {
    pos: Option<usize>,
}

impl SegmentListIter {
    /// The position the cursor stands on; `None` once it has walked off an end.
    pub closed spec fn cursor(&self) -> Option<usize> {
        self.pos
    }

    pub fn new(list: &SegmentList) -> (r: SegmentListIter)
        ensures
            r.cursor() == Some(0usize),
    {
        SegmentListIter { pos: Some(0) }
    }

    pub fn from(pos: usize) -> (r: SegmentListIter)
        ensures
            r.cursor() == Some(pos),
    {
        SegmentListIter { pos: Some(pos) }
    }

    /// The handle under the cursor, moving the cursor one place on.
    pub fn next(&mut self, list: &SegmentList) -> (r: Option<usize>)
        ensures
            match old(self).cursor() {
                Some(p) => if p < list@.len() {
                    r == Some(list@[p as int]) && final(self).cursor() == Some((p + 1) as usize)
                } else {
                    r.is_none() && final(self).cursor().is_none()
                },
                None => r.is_none() && final(self).cursor().is_none(),
            },
    {
        match self.pos {
            Some(p) => {
                if p < list.order.len() {
                    self.pos = Some(p + 1);
                    Some(list.order[p])
                } else {
                    self.pos = None;
                    None
                }
            },
            None => None,
        }
    }

    /// The handle under the cursor, moving the cursor one place back.
    pub fn next_back(&mut self, list: &SegmentList) -> (r: Option<usize>)
        ensures
            match old(self).cursor() {
                Some(p) => if p < list@.len() {
                    r == Some(list@[p as int]) && final(self).cursor() == (if p == 0 {
                        None
                    } else {
                        Some((p - 1) as usize)
                    })
                } else {
                    r.is_none() && final(self).cursor().is_none()
                },
                None => r.is_none() && final(self).cursor().is_none(),
            },
    {
        match self.pos {
            Some(p) => {
                if p < list.order.len() {
                    self.pos = if p == 0 {
                        None
                    } else {
                        Some(p - 1)
                    };
                    Some(list.order[p])
                } else {
                    self.pos = None;
                    None
                }
            },
            None => None,
        }
    }
}

} // verus!
