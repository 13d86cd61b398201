use vstd::prelude::*;

use crate::address::PhysAddr;
use crate::cpus::CpuInfo;
use crate::paging::{align_down, PhysPage, Size4K};
use crate::slab::{cached_free, Alloc, Slab};

verus! {

/// The bytes of a frame.
pub const FRAME_SIZE: usize = 4096;

/// The bytes at the start of a listed frame that hold its `Node`.
pub const HEADER_SIZE: usize = 8;

/// The bytes of a frame after its header.
pub const BODY_SIZE: usize = 4088;

/// The header that a listed frame holds in its first word: the address of the
/// next frame of its list.
#[derive(Clone, Copy, PartialEq, Eq, Structural, Debug)]
pub struct Node {
    pub next: Option<usize>,
}

/// A page-frame allocator over a run of frames seen through the direct map.
/// Freed frames go on a dirty list as they are; a frame leaves the dirty list
/// for the free list, or for a caller, only once its body is zeroed.
pub struct PhysAllocInner {
    free: Option<usize>,
    dirty: Option<usize>,
    base: usize,
    headers: Vec<Node>,
    bodies: Vec<Vec<u8>>,
    free_list: Ghost<Seq<int>>,
    dirty_list: Ghost<Seq<int>>,
}

/// The frames of `list`, in order, each naming the next in its header.
pub open spec fn chained(head: Option<usize>, list: Seq<int>, headers: Seq<Node>, base: int) -> bool {
    &&& head == (if list.len() == 0 {
        None
    } else {
        Some((base + list[0] * FRAME_SIZE) as usize)
    })
    &&& forall|k: int|
        0 <= k < list.len() ==> #[trigger] headers[list[k]].next == (if k + 1 < list.len() {
            Some((base + list[k + 1] * FRAME_SIZE) as usize)
        } else {
            None
        })
}

pub open spec fn all_zero(body: Seq<u8>) -> bool {
    forall|j: int| 0 <= j < body.len() ==> #[trigger] body[j] == 0
}

impl PhysAllocInner {
    /// How many frames there are.
    pub closed spec fn frames(&self) -> nat {
        self.headers@.len()
    }

    /// The address of frame `i`.
    pub closed spec fn frame_addr(&self, i: int) -> int {
        self.base + i * FRAME_SIZE
    }

    /// The frames of the free list, head first.
    pub closed spec fn free_frames(&self) -> Seq<int> {
        self.free_list@
    }

    /// The frames of the dirty list, head first.
    pub closed spec fn dirty_frames(&self) -> Seq<int> {
        self.dirty_list@
    }

    /// The header of frame `i`.
    pub closed spec fn header(&self, i: int) -> Node {
        self.headers@[i]
    }

    /// The body of frame `i`: its bytes after the header.
    pub closed spec fn body(&self, i: int) -> Seq<u8> {
        self.bodies@[i]@
    }

    pub closed spec fn wf(&self) -> bool {
        let n = self.headers@.len();
        &&& self.base % FRAME_SIZE == 0
        &&& self.bodies@.len() == n
        &&& self.base + n * FRAME_SIZE <= usize::MAX
        &&& forall|i: int| 0 <= i < n ==> (#[trigger] self.bodies@[i])@.len() == BODY_SIZE
        &&& self.free_list@.no_duplicates()
        &&& self.dirty_list@.no_duplicates()
        &&& forall|k: int| 0 <= k < self.free_list@.len() ==> 0 <= #[trigger] self.free_list@[k] < n
        &&& forall|k: int| 0 <= k < self.dirty_list@.len() ==> 0 <= #[trigger] self.dirty_list@[k] < n
        &&& forall|k: int, m: int|
            0 <= k < self.free_list@.len() && 0 <= m < self.dirty_list@.len() ==> self.free_list@[k]
                != self.dirty_list@[m]
        &&& chained(self.free, self.free_list@, self.headers@, self.base as int)
        &&& chained(self.dirty, self.dirty_list@, self.headers@, self.base as int)
        &&& forall|k: int| 0 <= k < self.free_list@.len() ==> all_zero(self.body(#[trigger] self.free_list@[k]))
    }

    /// Frame `i` lies on neither list: it is in use.
    pub open spec fn in_use(&self, i: int) -> bool {
        0 <= i < self.frames() && !self.free_frames().contains(i) && !self.dirty_frames().contains(i)
    }

    /// `count` zeroed frames from `base` on, all on the free list in address order.
    pub fn new(base: usize, count: usize) -> (r: PhysAllocInner)
        requires
            base % FRAME_SIZE == 0,
            base + count * FRAME_SIZE <= usize::MAX,
        ensures
            r.wf(),
            r.frames() == count,
            r.free_frames() == Seq::new(count as nat, |i: int| i),
            r.dirty_frames() == Seq::<int>::empty(),
            forall|i: int| 0 <= i < count ==> #[trigger] r.frame_addr(i) == base + i * FRAME_SIZE,
    {
        let mut headers: Vec<Node> = Vec::new();
        let mut bodies: Vec<Vec<u8>> = Vec::new();
        let mut i: usize = 0;
        while i < count
            invariant
                i <= count,
                base + count * FRAME_SIZE <= usize::MAX,
                headers@.len() == i,
                bodies@.len() == i,
                forall|k: int| 0 <= k < i ==> (#[trigger] bodies@[k])@.len() == BODY_SIZE && all_zero(bodies@[k]@),
                forall|k: int|
                    0 <= k < i ==> #[trigger] headers@[k].next == (if k + 1 < count {
                        Some((base + (k + 1) * FRAME_SIZE) as usize)
                    } else {
                        None
                    }),
            decreases count - i,
        {
            let next = if i + 1 < count {
                proof {
                    assert((i + 1) * FRAME_SIZE <= count * FRAME_SIZE) by (nonlinear_arith)
                        requires i + 1 < count;
                }
                Some(base + (i + 1) * FRAME_SIZE)
            } else {
                None
            };
            headers.push(Node { next });
            bodies.push(zeroed_body());
            i += 1;
        }
        let ghost list = Seq::new(count as nat, |k: int| k);
        let r = PhysAllocInner {
            free: if count > 0 {
                Some(base)
            } else {
                None
            },
            dirty: None,
            base,
            headers,
            bodies,
            free_list: Ghost(list),
            dirty_list: Ghost(Seq::empty()),
        };
        proof {
            assert forall|k: int| 0 <= k < list.len() implies #[trigger] r.headers@[list[k]].next == (if k + 1
                < list.len() {
                Some((base + list[k + 1] * FRAME_SIZE) as usize)
            } else {
                None
            }) by {}
            assert forall|k: int| 0 <= k < list.len() implies all_zero(r.body(#[trigger] list[k])) by {
                assert(r.body(list[k]) == r.bodies@[k]@);
            }
        }
        r
    }

    fn index_of(&self, addr: usize, i: Ghost<int>) -> (r: usize)
        requires
            self.wf(),
            0 <= i@ < self.frames(),
            addr == self.frame_addr(i@),
        ensures
            r == i@,
    {
        proof {
            assert((addr - self.base) / (FRAME_SIZE as int) == i@) by (nonlinear_arith)
                requires addr == self.base + i@ * (FRAME_SIZE as int), i@ >= 0;
        }
        (addr - self.base) / FRAME_SIZE
    }

    /// Hands out a zeroed frame: the head of the free list, or else the head
    /// of the dirty list once its body is zeroed; `None` when both are empty.
    pub fn allocate(&mut self) -> (r: Option<usize>)
        requires
            old(self).wf(),
        ensures
            final(self).wf(),
            final(self).frames() == old(self).frames(),
            forall|i: int| 0 <= i < final(self).frames() ==> #[trigger] final(self).frame_addr(i) == old(self).frame_addr(i),
            old(self).free_frames().len() > 0 ==> ({
                let i = old(self).free_frames()[0];
                &&& r == Some(old(self).frame_addr(i) as usize)
                &&& final(self).free_frames() == old(self).free_frames().drop_first()
                &&& final(self).dirty_frames() == old(self).dirty_frames()
                &&& all_zero(final(self).body(i))
                &&& final(self).header(i).next.is_none()
                &&& final(self).in_use(i)
            }),
            old(self).free_frames().len() == 0 && old(self).dirty_frames().len() > 0 ==> ({
                let i = old(self).dirty_frames()[0];
                &&& r == Some(old(self).frame_addr(i) as usize)
                &&& final(self).free_frames() == old(self).free_frames()
                &&& final(self).dirty_frames() == old(self).dirty_frames().drop_first()
                &&& all_zero(final(self).body(i))
                &&& final(self).header(i).next.is_none()
                &&& final(self).in_use(i)
            }),
            old(self).free_frames().len() == 0 && old(self).dirty_frames().len() == 0 ==> r.is_none()
                && final(self).free_frames() == old(self).free_frames() && final(self).dirty_frames() == old(self).dirty_frames(),
            forall|j: int|
                0 <= j < old(self).frames() && old(self).in_use(j) ==> #[trigger] final(self).body(j) == old(self).body(j),
            forall|j: int| #[trigger] old(self).in_use(j) ==> final(self).in_use(j),
    {
        let ghost fl = self.free_list@;
        let ghost dl = self.dirty_list@;
        proof {
            assert forall|j: int| fl.len() > 0 && !fl.contains(j) implies !fl.drop_first().contains(j) by {
                if fl.drop_first().contains(j) {
                    let k = choose|k: int| 0 <= k < fl.drop_first().len() && fl.drop_first()[k] == j;
                    assert(fl[k + 1] == j);
                }
            }
            assert forall|j: int| dl.len() > 0 && !dl.contains(j) implies !dl.drop_first().contains(j) by {
                if dl.drop_first().contains(j) {
                    let k = choose|k: int| 0 <= k < dl.drop_first().len() && dl.drop_first()[k] == j;
                    assert(dl[k + 1] == j);
                }
            }
        }
        match self.free {
            Some(a) => {
                let ghost i0 = fl[0];
                let i = self.index_of(a, Ghost(i0));
                let next = self.headers[i].next;
                self.free = next;
                self.headers[i] = Node { next: None };
                self.free_list = Ghost(fl.drop_first());
                Some(a)
            },
            None => match self.dirty {
                Some(a) => {
                    let ghost i0 = dl[0];
                    let i = self.index_of(a, Ghost(i0));
                    let next = self.headers[i].next;
                    self.bodies[i] = zeroed_body();
                    self.dirty = next;
                    self.headers[i] = Node { next: None };
                    self.dirty_list = Ghost(dl.drop_first());
                    Some(a)
                },
                None => None,
            },
        }
    }

    /// Puts the in-use frame at `addr` on the dirty list, writing only its header.
    pub fn free(&mut self, addr: usize)
        requires
            old(self).wf(),
            exists|i: int| old(self).in_use(i) && old(self).frame_addr(i) == addr,
        ensures
            final(self).wf(),
            final(self).frames() == old(self).frames(),
            forall|i: int| 0 <= i < final(self).frames() ==> #[trigger] final(self).frame_addr(i) == old(self).frame_addr(i),
            forall|i: int| old(self).in_use(i) && old(self).frame_addr(i) == addr ==> final(self).dirty_frames() == seq![i]
                + old(self).dirty_frames(),
            final(self).free_frames() == old(self).free_frames(),
            forall|j: int| 0 <= j < old(self).frames() ==> #[trigger] final(self).body(j) == old(self).body(j),
            forall|j: int| #[trigger] old(self).in_use(j) && old(self).frame_addr(j) != addr ==> final(self).in_use(j),
    {
        let ghost i0 = choose|i: int| old(self).in_use(i) && old(self).frame_addr(i) == addr;
        let ghost dl = self.dirty_list@;
        let i = self.index_of(addr, Ghost(i0));
        self.headers[i] = Node { next: self.dirty };
        self.dirty = Some(addr);
        self.dirty_list = Ghost(seq![i0] + dl);
        proof {
            let fl = self.free_list@;
            let nl = self.dirty_list@;
            assert forall|k: int| 0 <= k < nl.len() implies #[trigger] self.headers@[nl[k]].next == (if k + 1
                < nl.len() {
                Some((self.base + nl[k + 1] * FRAME_SIZE) as usize)
            } else {
                None
            }) by {
                if k > 0 {
                    assert(nl[k] == dl[k - 1]);
                    assert(dl[k - 1] != i0);
                }
            }
            assert forall|k: int| 0 <= k < fl.len() implies #[trigger] self.headers@[fl[k]].next == (if k + 1
                < fl.len() {
                Some((self.base + fl[k + 1] * FRAME_SIZE) as usize)
            } else {
                None
            }) by {
                assert(fl[k] != i0);
            }
            assert(nl.no_duplicates()) by {
                assert forall|a: int, b: int| 0 <= a < nl.len() && 0 <= b < nl.len() && a != b implies nl[a] != nl[b] by {
                    if a > 0 {
                        assert(nl[a] == dl[a - 1]);
                    }
                    if b > 0 {
                        assert(nl[b] == dl[b - 1]);
                    }
                }
            }
            assert forall|k: int, m: int| 0 <= k < fl.len() && 0 <= m < nl.len() implies fl[k] != nl[m] by {
                if m > 0 {
                    assert(nl[m] == dl[m - 1]);
                }
            }
            assert forall|k: int| 0 <= k < nl.len() implies 0 <= #[trigger] nl[k] < self.headers@.len() by {
                if k > 0 {
                    assert(nl[k] == dl[k - 1]);
                }
            }
            assert forall|i: int| old(self).in_use(i) && old(self).frame_addr(i) == addr implies i == i0 by {
                assert(i * (FRAME_SIZE as int) == i0 * (FRAME_SIZE as int));
            }
            assert forall|j: int| #[trigger] old(self).in_use(j) && old(self).frame_addr(j) != addr implies self.in_use(j) by {
                if nl.contains(j) {
                    let k = choose|k: int| 0 <= k < nl.len() && nl[k] == j;
                    if k > 0 {
                        assert(dl[k - 1] == j);
                    }
                }
            }
        }
    }

    /// Zeroes the body of the head of the dirty list and moves it to the free
    /// list; `false` when the dirty list is empty, else whether dirty frames
    /// remain.
    pub fn clean_dirty(&mut self) -> (r: bool)
        requires
            old(self).wf(),
        ensures
            final(self).wf(),
            final(self).frames() == old(self).frames(),
            forall|i: int| 0 <= i < final(self).frames() ==> #[trigger] final(self).frame_addr(i) == old(self).frame_addr(i),
            old(self).dirty_frames().len() == 0 ==> !r && final(self).free_frames() == old(self).free_frames()
                && final(self).dirty_frames() == old(self).dirty_frames(),
            old(self).dirty_frames().len() > 0 ==> ({
                let i = old(self).dirty_frames()[0];
                &&& final(self).dirty_frames() == old(self).dirty_frames().drop_first()
                &&& final(self).free_frames() == seq![i] + old(self).free_frames()
                &&& r == (final(self).dirty_frames().len() > 0)
                &&& all_zero(final(self).body(i))
            }),
            forall|j: int|
                0 <= j < old(self).frames() && old(self).in_use(j) ==> #[trigger] final(self).body(j) == old(self).body(j),
            forall|j: int| #[trigger] old(self).in_use(j) ==> final(self).in_use(j),
    {
        let ghost fl = self.free_list@;
        let ghost dl = self.dirty_list@;
        match self.dirty {
            None => false,
            Some(a) => {
                let ghost i0 = dl[0];
                let i = self.index_of(a, Ghost(i0));
                let next = self.headers[i].next;
                self.bodies[i] = zeroed_body();
                self.dirty = next;
                self.headers[i] = Node { next: self.free };
                self.free = Some(a);
                self.dirty_list = Ghost(dl.drop_first());
                self.free_list = Ghost(seq![i0] + fl);
                proof {
                    let nf = self.free_list@;
                    let nd = self.dirty_list@;
                    assert forall|k: int| 0 <= k < nf.len() implies #[trigger] self.headers@[nf[k]].next == (if k + 1
                        < nf.len() {
                        Some((self.base + nf[k + 1] * FRAME_SIZE) as usize)
                    } else {
                        None
                    }) by {
                        if k > 0 {
                            assert(nf[k] == fl[k - 1]);
                        }
                    }
                    assert forall|k: int| 0 <= k < nd.len() implies #[trigger] self.headers@[nd[k]].next == (if k + 1
                        < nd.len() {
                        Some((self.base + nd[k + 1] * FRAME_SIZE) as usize)
                    } else {
                        None
                    }) by {
                        assert(nd[k] == dl[k + 1]);
                        assert(dl[k + 1] != dl[0]);
                    }
                    assert(nf.no_duplicates()) by {
                        assert forall|x: int, y: int| 0 <= x < nf.len() && 0 <= y < nf.len() && x != y implies nf[x] != nf[y] by {
                            if x > 0 {
                                assert(nf[x] == fl[x - 1]);
                            }
                            if y > 0 {
                                assert(nf[y] == fl[y - 1]);
                            }
                        }
                    }
                    assert forall|k: int, m: int| 0 <= k < nf.len() && 0 <= m < nd.len() implies nf[k] != nd[m] by {
                        assert(nd[m] == dl[m + 1]);
                        if k > 0 {
                            assert(nf[k] == fl[k - 1]);
                        }
                    }
                    assert forall|j: int| #[trigger] old(self).in_use(j) implies self.in_use(j) by {
                        if nf.contains(j) {
                            let k = choose|k: int| 0 <= k < nf.len() && nf[k] == j;
                            if k > 0 {
                                assert(fl[k - 1] == j);
                            }
                        }
                        if nd.contains(j) {
                            let k = choose|k: int| 0 <= k < nd.len() && nd[k] == j;
                            assert(dl[k + 1] == j);
                        }
                    }
                    assert forall|k: int| 0 <= k < nf.len() implies all_zero(self.body(#[trigger] nf[k])) by {
                        if k > 0 {
                            assert(nf[k] == fl[k - 1]);
                        }
                    }
                    assert forall|k: int| 0 <= k < nf.len() implies 0 <= #[trigger] nf[k] < self.headers@.len() by {
                        if k > 0 {
                            assert(nf[k] == fl[k - 1]);
                        }
                    }
                }
                self.dirty.is_some()
            },
        }
    }

    /// Zeroes the body of the in-use frame at `addr`.
    pub fn scrub(&mut self, addr: usize)
        requires
            old(self).wf(),
            exists|i: int| old(self).in_use(i) && old(self).frame_addr(i) == addr,
        ensures
            final(self).wf(),
            final(self).frames() == old(self).frames(),
            forall|i: int| 0 <= i < final(self).frames() ==> #[trigger] final(self).frame_addr(i) == old(self).frame_addr(i),
            final(self).free_frames() == old(self).free_frames(),
            final(self).dirty_frames() == old(self).dirty_frames(),
            forall|i: int| old(self).in_use(i) && old(self).frame_addr(i) == addr ==> all_zero(final(self).body(i)),
            forall|j: int| #[trigger] old(self).in_use(j) ==> final(self).in_use(j),
    {
        let ghost i0 = choose|i: int| old(self).in_use(i) && old(self).frame_addr(i) == addr;
        let i = self.index_of(addr, Ghost(i0));
        self.bodies[i] = zeroed_body();
        proof {
            assert forall|i: int| old(self).in_use(i) && old(self).frame_addr(i) == addr implies i == i0 by {
                assert(i * (FRAME_SIZE as int) == i0 * (FRAME_SIZE as int));
            }
            assert forall|k: int| 0 <= k < self.free_list@.len() implies all_zero(self.body(#[trigger] self.free_list@[k])) by {
                assert(self.free_list@[k] != i0);
            }
        }
    }

    /// Whether some frame is on either list, so that `allocate` succeeds.
    pub open spec fn has_frames(&self) -> bool {
        self.free_frames().len() > 0 || self.dirty_frames().len() > 0
    }

    /// Byte `offset` of the frame at `addr`, past its header.
    pub fn read_byte(&self, addr: usize, offset: usize) -> (r: u8)
        requires
            self.wf(),
            exists|i: int| 0 <= i < self.frames() && self.frame_addr(i) == addr,
            HEADER_SIZE <= offset < FRAME_SIZE,
        ensures
            forall|i: int| 0 <= i < self.frames() && self.frame_addr(i) == addr ==> r == self.body(i)[offset - HEADER_SIZE],
    {
        let ghost i0 = choose|i: int| 0 <= i < self.frames() && self.frame_addr(i) == addr;
        let i = self.index_of(addr, Ghost(i0));
        proof {
            assert forall|i: int| 0 <= i < self.frames() && self.frame_addr(i) == addr implies i == i0 by {
                assert(i * (FRAME_SIZE as int) == i0 * (FRAME_SIZE as int));
            }
        }
        self.bodies[i][offset - HEADER_SIZE]
    }

    /// Writes byte `offset` of the in-use frame at `addr`, past its header.
    pub fn write_byte(&mut self, addr: usize, offset: usize, value: u8)
        requires
            old(self).wf(),
            exists|i: int| old(self).in_use(i) && old(self).frame_addr(i) == addr,
            HEADER_SIZE <= offset < FRAME_SIZE,
        ensures
            final(self).wf(),
            final(self).frames() == old(self).frames(),
            forall|i: int| 0 <= i < final(self).frames() ==> #[trigger] final(self).frame_addr(i) == old(self).frame_addr(i),
            final(self).free_frames() == old(self).free_frames(),
            final(self).dirty_frames() == old(self).dirty_frames(),
            forall|i: int| old(self).in_use(i) && old(self).frame_addr(i) == addr ==> final(self).body(i) == old(self).body(i).update(
                offset - HEADER_SIZE,
                value,
            ),
    {
        let ghost i0 = choose|i: int| old(self).in_use(i) && old(self).frame_addr(i) == addr;
        let i = self.index_of(addr, Ghost(i0));
        let mut body = self.bodies[i].clone();
        body.set(offset - HEADER_SIZE, value);
        self.bodies[i] = body;
        proof {
            assert forall|i: int| old(self).in_use(i) && old(self).frame_addr(i) == addr implies i == i0 by {
                assert(i * (FRAME_SIZE as int) == i0 * (FRAME_SIZE as int));
            }
            assert forall|k: int| 0 <= k < self.free_list@.len() implies all_zero(self.body(#[trigger] self.free_list@[k])) by {
                assert(self.free_list@[k] != i0);
            }
        }
    }
}

/// A frame body of zero bytes.
fn zeroed_body() -> (r: Vec<u8>)
    ensures
        r@.len() == BODY_SIZE,
        all_zero(r@),
{
    let mut r: Vec<u8> = Vec::new();
    while r.len() < BODY_SIZE
        invariant
            r@.len() <= BODY_SIZE,
            all_zero(r@),
        decreases BODY_SIZE - r@.len(),
    {
        r.push(0);
    }
    r
}

impl Alloc for PhysAllocInner {
    open spec fn ready(&self) -> bool {
        self.wf()
    }

    open spec fn accepts(&self, item: usize) -> bool {
        exists|i: int| self.in_use(i) && self.frame_addr(i) == item
    }

    open spec fn available(&self) -> bool {
        self.has_frames()
    }

    fn allocate(&mut self) -> (r: Option<usize>) {
        let r = PhysAllocInner::allocate(self);
        proof {
            if old(self).free_frames().len() > 0 {
                let i = old(self).free_frames()[0];
                assert(self.in_use(i) && self.frame_addr(i) == r.unwrap());
            } else if old(self).dirty_frames().len() > 0 {
                let i = old(self).dirty_frames()[0];
                assert(self.in_use(i) && self.frame_addr(i) == r.unwrap());
            }
            assert forall|x: usize| #[trigger] old(self).accepts(x) implies self.accepts(x) by {
                let i = choose|i: int| old(self).in_use(i) && old(self).frame_addr(i) == x;
                assert(self.in_use(i) && self.frame_addr(i) == x);
            }
        }
        r
    }

    fn free(&mut self, item: usize) {
        PhysAllocInner::free(self, item);
        proof {
            assert forall|x: usize| x != item && #[trigger] old(self).accepts(x) implies self.accepts(x) by {
                let i = choose|i: int| old(self).in_use(i) && old(self).frame_addr(i) == x;
                assert(self.in_use(i) && self.frame_addr(i) == x);
            }
        }
    }
}

/// How many frames each processor keeps at hand.
pub const FRAME_CACHE: usize = 128;

/// The page-frame allocator as the kernel uses it: frames cached per
/// processor in front of a `PhysAllocInner`.
pub struct PhysAlloc {
    slab: Slab<PhysAllocInner, FRAME_CACHE, FRAME_CACHE>,
}

impl PhysAlloc {
    pub closed spec fn wf(&self) -> bool {
        &&& self.slab.wf()
        &&& forall|c: int, k: int|
            0 <= c < self.slab.cpus() && 0 <= k < self.slab.cache(c).len() ==> self.slab.backing_spec().accepts(
                #[trigger] self.slab.cache(c)[k],
            )
        &&& forall|k: int|
            0 <= k < self.slab.reserve().len() ==> self.slab.backing_spec().accepts(#[trigger] self.slab.reserve()[k])
    }

    pub closed spec fn cpus(&self) -> nat {
        self.slab.cpus()
    }

    /// The frames that processor `cpu` keeps at hand, bottom first.
    pub closed spec fn cache(&self, cpu: int) -> Seq<usize> {
        self.slab.cache(cpu)
    }

    /// The frames kept for all processors, bottom first.
    pub closed spec fn reserve(&self) -> Seq<usize> {
        self.slab.reserve()
    }

    /// The allocator under the caches.
    pub closed spec fn inner(&self) -> PhysAllocInner {
        self.slab.backing_spec()
    }

    /// Whether the frame at `addr` sits in a cache or in the reserve.
    pub open spec fn cached(&self, addr: usize) -> bool {
        self.reserve().contains(addr) || exists|c: int| 0 <= c < self.cpus() && #[trigger] self.cache(c).contains(addr)
    }

    pub fn new(inner: PhysAllocInner, cpus: &CpuInfo) -> (r: PhysAlloc)
        requires
            inner.wf(),
        ensures
            r.wf(),
            r.cpus() == cpus.spec_num_cpus(),
            r.inner() == inner,
            r.reserve() == Seq::<usize>::empty(),
            forall|c: int| 0 <= c < r.cpus() ==> #[trigger] r.cache(c) == Seq::<usize>::empty(),
    {
        PhysAlloc { slab: Slab::new(inner, cpus) }
    }

    proof fn lemma_frame_aligned(inner: PhysAllocInner, i: int)
        requires
            inner.wf(),
            0 <= i < inner.frames(),
        ensures
            align_down(inner.frame_addr(i) as nat, 4096) == inner.frame_addr(i),
    {
        let a = inner.frame_addr(i);
        let b = inner.base as int;
        assert(b == (b / 4096) * 4096) by (nonlinear_arith)
            requires b % 4096 == 0;
        assert(a == (b / 4096 + i) * 4096) by (nonlinear_arith)
            requires a == b + i * 4096, b == (b / 4096) * 4096;
        assert(a / 4096 == b / 4096 + i) by (nonlinear_arith)
            requires a == (b / 4096 + i) * 4096;
    }

    /// A zeroed frame: the top of the caller's cache, zeroed on the way out;
    /// on a miss, straight from the allocator under the caches.
    pub fn allocate(&mut self, cpu: &CpuInfo) -> (r: Option<PhysPage<Size4K>>)
        requires
            old(self).wf(),
            cpu.spec_cpu_id() < old(self).cpus(),
        ensures
            final(self).wf(),
            final(self).cpus() == old(self).cpus(),
            final(self).reserve() == old(self).reserve(),
            r.is_some() ==> exists|i: int|
                final(self).inner().in_use(i) && final(self).inner().frame_addr(i) == r.unwrap().start() && all_zero(
                    final(self).inner().body(i),
                ),
            old(self).cache(cpu.spec_cpu_id() as int).len() > 0 ==> r.is_some() && r.unwrap().start() == old(self).cache(
                cpu.spec_cpu_id() as int,
            ).last() && final(self).cache(cpu.spec_cpu_id() as int) == old(self).cache(cpu.spec_cpu_id() as int).drop_last()
                && final(self).inner().free_frames() == old(self).inner().free_frames()
                && final(self).inner().dirty_frames() == old(self).inner().dirty_frames(),
            old(self).cache(cpu.spec_cpu_id() as int).len() == 0 ==> ({
                let inner = old(self).inner();
                &&& r.is_some() == inner.has_frames()
                &&& final(self).cache(cpu.spec_cpu_id() as int) == old(self).cache(cpu.spec_cpu_id() as int)
                &&& inner.free_frames().len() > 0 ==> r.unwrap().start() == inner.frame_addr(inner.free_frames()[0])
                    && final(self).inner().free_frames() == inner.free_frames().drop_first()
                &&& inner.free_frames().len() == 0 && inner.dirty_frames().len() > 0 ==> r.unwrap().start()
                    == inner.frame_addr(inner.dirty_frames()[0]) && final(self).inner().dirty_frames()
                    == inner.dirty_frames().drop_first()
            }),
    {
        let ghost s0 = self.slab;
        let hit = self.slab.alloc_lockfree(cpu);
        let ghost s1 = self.slab;
        let inner = self.slab.lock_alloc();
        let r = match hit {
            Some(addr) => {
                proof {
                    let c = cpu.spec_cpu_id() as int;
                    assert(s0.cache(c)[s0.cache(c).len() - 1] == addr);
                    assert(s0.backing_spec().accepts(addr));
                }
                inner.scrub(addr);
                proof {
                    let i = choose|i: int| s0.backing_spec().in_use(i) && s0.backing_spec().frame_addr(i) == addr;
                    Self::lemma_frame_aligned(*inner, i);
                }
                Some(PhysPage::for_addr(PhysAddr::new(addr)))
            },
            None => match inner.allocate() {
                Some(a) => {
                    proof {
                        let o = s0.backing_spec();
                        let i = if o.free_frames().len() > 0 {
                            o.free_frames()[0]
                        } else {
                            o.dirty_frames()[0]
                        };
                        Self::lemma_frame_aligned(*inner, i);
                    }
                    Some(PhysPage::for_addr(PhysAddr::new(a)))
                },
                None => None,
            },
        };
        proof {
            let b0 = s0.backing_spec();
            let b1 = self.slab.backing_spec();
            assert(s1.backing_spec() == b0);
            assert forall|x: usize| #[trigger] b0.accepts(x) implies b1.accepts(x) by {
                let i = choose|i: int| b0.in_use(i) && b0.frame_addr(i) == x;
                assert(b1.in_use(i) && b1.frame_addr(i) == x);
            }
            assert forall|c: int, k: int|
                0 <= c < self.slab.cpus() && 0 <= k < self.slab.cache(c).len() implies b1.accepts(
                    #[trigger] self.slab.cache(c)[k],
                ) by {
                if c == cpu.spec_cpu_id() {
                    assert(self.slab.cache(c)[k] == s0.cache(c)[k]);
                } else {
                    assert(s1.cache(c) == s0.cache(c));
                }
                assert(b0.accepts(s0.cache(c)[k]));
            }
            assert forall|k: int| 0 <= k < self.slab.reserve().len() implies b1.accepts(#[trigger] self.slab.reserve()[k]) by {
                assert(b0.accepts(s0.reserve()[k]));
            }
            if r.is_some() {
                if hit.is_some() {
                    let i = choose|i: int| b0.in_use(i) && b0.frame_addr(i) == hit.unwrap();
                    assert(b1.in_use(i) && b1.frame_addr(i) == r.unwrap().start());
                } else {
                    let i = if b0.free_frames().len() > 0 {
                        b0.free_frames()[0]
                    } else {
                        b0.dirty_frames()[0]
                    };
                    assert(b1.in_use(i) && b1.frame_addr(i) == r.unwrap().start());
                }
            }
        }
        r
    }

    /// Gives back the frame `page`, which the allocator under the caches
    /// handed out and which no cache holds: to the caller's cache, else to the
    /// reserve, else to the allocator's dirty list.
    pub fn free(&mut self, cpu: &CpuInfo, page: PhysPage<Size4K>)
        requires
            old(self).wf(),
            cpu.spec_cpu_id() < old(self).cpus(),
            old(self).inner().accepts(page.start()),
            !old(self).cached(page.start()),
        ensures
            final(self).wf(),
            final(self).cpus() == old(self).cpus(),
            cached_free(
                old(self).cache(cpu.spec_cpu_id() as int),
                final(self).cache(cpu.spec_cpu_id() as int),
                page.start(),
                FRAME_CACHE as nat,
            ),
            old(self).cache(cpu.spec_cpu_id() as int).len() < FRAME_CACHE ==> final(self).inner() == old(self).inner(),
    {
        let ghost s0 = self.slab;
        let addr = page.addr().get();
        proof {
            assert(s0.backing_spec().accepts(addr));
        }
        self.slab.free(cpu, addr);
        proof {
            let b0 = s0.backing_spec();
            let b1 = self.slab.backing_spec();
            let id = cpu.spec_cpu_id() as int;
            assert forall|c: int, k: int|
                0 <= c < self.slab.cpus() && 0 <= k < self.slab.cache(c).len() implies b1.accepts(
                    #[trigger] self.slab.cache(c)[k],
                ) by {
                let x = self.slab.cache(c)[k];
                if c == id && k == s0.cache(c).len() {
                    assert(x == addr);
                    assert(s0.cache(c).len() < FRAME_CACHE);
                    assert(b1 == b0);
                    assert(b0.accepts(addr));
                } else {
                    if c != id {
                        assert(self.slab.cache(c) == s0.cache(c));
                    }
                    assert(s0.cache(c)[k] == x);
                    assert(s0.cache(c).contains(x));
                    assert(old(self).cache(c) == s0.cache(c));
                    assert(x != addr);
                    assert(b0.accepts(x));
                }
            }
            assert forall|k: int| 0 <= k < self.slab.reserve().len() implies b1.accepts(#[trigger] self.slab.reserve()[k]) by {
                let x = self.slab.reserve()[k];
                if k == s0.reserve().len() {
                    assert(x == addr);
                    assert(s0.reserve().len() < FRAME_CACHE);
                    assert(b1 == b0);
                    assert(b0.accepts(addr));
                } else {
                    assert(s0.reserve()[k] == x);
                    assert(s0.reserve().contains(x));
                    assert(b0.accepts(x));
                }
            }
        }
    }

    /// Cleans one dirty frame; whether dirty frames remain.
    pub fn clean_dirty(&mut self) -> (r: bool)
        requires
            old(self).wf(),
        ensures
            final(self).wf(),
            final(self).cpus() == old(self).cpus(),
            old(self).inner().dirty_frames().len() == 0 ==> !r && final(self).inner().free_frames() == old(self).inner().free_frames(),
            old(self).inner().dirty_frames().len() > 0 ==> ({
                let i = old(self).inner().dirty_frames()[0];
                &&& final(self).inner().dirty_frames() == old(self).inner().dirty_frames().drop_first()
                &&& final(self).inner().free_frames() == seq![i] + old(self).inner().free_frames()
                &&& r == (final(self).inner().dirty_frames().len() > 0)
                &&& all_zero(final(self).inner().body(i))
            }),
    {
        let ghost s0 = self.slab;
        let inner = self.slab.lock_alloc();
        let r = inner.clean_dirty();
        proof {
            self.lemma_accepts_kept(s0);
        }
        r
    }

    /// Fills the reserve and then the caller's cache from the allocator under
    /// the caches; whether both ended full.
    pub fn restock_slab(&mut self, cpu: &CpuInfo) -> (r: bool)
        requires
            old(self).wf(),
            cpu.spec_cpu_id() < old(self).cpus(),
        ensures
            final(self).wf(),
            final(self).cpus() == old(self).cpus(),
            old(self).reserve().is_prefix_of(final(self).reserve()),
            old(self).cache(cpu.spec_cpu_id() as int).is_prefix_of(final(self).cache(cpu.spec_cpu_id() as int)),
            r == (final(self).reserve().len() == FRAME_CACHE && final(self).cache(cpu.spec_cpu_id() as int).len()
                == FRAME_CACHE),
            !r ==> !final(self).inner().has_frames(),
    {
        let ghost s0 = self.slab;
        let r = self.slab.restock(cpu);
        proof {
            let b1 = self.slab.backing_spec();
            let id = cpu.spec_cpu_id() as int;
            assert forall|c: int, k: int|
                0 <= c < self.slab.cpus() && 0 <= k < self.slab.cache(c).len() implies b1.accepts(
                    #[trigger] self.slab.cache(c)[k],
                ) by {
                if c != id {
                    assert(self.slab.cache(c) == s0.cache(c));
                    assert(s0.backing_spec().accepts(s0.cache(c)[k]));
                } else if k < s0.cache(c).len() {
                    assert(self.slab.cache(c)[k] == s0.cache(c)[k]);
                    assert(s0.backing_spec().accepts(s0.cache(c)[k]));
                }
            }
            assert forall|k: int| 0 <= k < self.slab.reserve().len() implies b1.accepts(#[trigger] self.slab.reserve()[k]) by {
                if k < s0.reserve().len() {
                    assert(self.slab.reserve()[k] == s0.reserve()[k]);
                    assert(s0.backing_spec().accepts(s0.reserve()[k]));
                }
            }
        }
        r
    }

    proof fn lemma_accepts_kept(&self, s0: Slab<PhysAllocInner, FRAME_CACHE, FRAME_CACHE>)
        requires
            self.slab.wf(),
            self.slab.reserve() == s0.reserve(),
            self.slab.others_kept(&s0, -1),
            forall|c: int, k: int|
                0 <= c < s0.cpus() && 0 <= k < s0.cache(c).len() ==> s0.backing_spec().accepts(#[trigger] s0.cache(c)[k]),
            forall|k: int| 0 <= k < s0.reserve().len() ==> s0.backing_spec().accepts(#[trigger] s0.reserve()[k]),
            forall|j: int| #[trigger] s0.backing_spec().in_use(j) ==> self.slab.backing_spec().in_use(j),
            self.slab.backing_spec().frames() == s0.backing_spec().frames(),
            forall|i: int|
                0 <= i < self.slab.backing_spec().frames() ==> #[trigger] self.slab.backing_spec().frame_addr(i)
                    == s0.backing_spec().frame_addr(i),
        ensures
            self.wf(),
    {
        let b0 = s0.backing_spec();
        let b1 = self.slab.backing_spec();
        assert forall|x: usize| #[trigger] b0.accepts(x) implies b1.accepts(x) by {
            let i = choose|i: int| b0.in_use(i) && b0.frame_addr(i) == x;
            assert(b1.in_use(i) && b1.frame_addr(i) == x);
        }
        assert forall|c: int, k: int|
            0 <= c < self.slab.cpus() && 0 <= k < self.slab.cache(c).len() implies b1.accepts(
                #[trigger] self.slab.cache(c)[k],
            ) by {
            assert(self.slab.cache(c) == s0.cache(c));
            assert(b0.accepts(s0.cache(c)[k]));
        }
        assert forall|k: int| 0 <= k < self.slab.reserve().len() implies b1.accepts(#[trigger] self.slab.reserve()[k]) by {
            assert(b0.accepts(s0.reserve()[k]));
        }
    }
}

} // verus!
