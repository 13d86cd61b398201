use vstd::prelude::*;

use crate::cpus::CpuInfo;

verus! {

/// A source of items for a `Slab`: frame addresses, tag handles.
pub trait Alloc {
    /// The source's own invariant.
    spec fn ready(&self) -> bool;

    /// Whether the source takes `item` back: it handed it out, and has not
    /// had it back since.
    spec fn accepts(&self, item: usize) -> bool;

    /// Whether the source has an item to hand out.
    spec fn available(&self) -> bool;

    /// An item, or `None` when the source is exhausted. The item is one that
    /// the source then takes back, and items it took back before still are.
    fn allocate(&mut self) -> (r: Option<usize>)
        requires
            old(self).ready(),
        ensures
            final(self).ready(),
            r.is_some() == old(self).available(),
            r.is_none() ==> !final(self).available(),
            r.is_some() ==> final(self).accepts(r.unwrap()),
            forall|x: usize| #[trigger] old(self).accepts(x) ==> final(self).accepts(x),
    ;

    /// Gives an item back; the source still takes back the others it did.
    fn free(&mut self, item: usize)
        requires
            old(self).ready(),
            old(self).accepts(item),
        ensures
            final(self).ready(),
            forall|x: usize| x != item && #[trigger] old(self).accepts(x) ==> final(self).accepts(x),
    ;
}

/// The marker that comes back with an item that a full cache refused.
#[derive(Clone, Copy, PartialEq, Eq, Structural, Debug)]
pub struct Full;

/// `c1` is the cache `c0` after a lock-free free of `item` into it, with room
/// for `cap` items: the item goes on top, unless the cache is full.
pub open spec fn cached_free(c0: Seq<usize>, c1: Seq<usize>, item: usize, cap: nat) -> bool {
    &&& c0.len() < cap ==> c1 == c0.push(item)
    &&& c0.len() >= cap ==> c1 == c0
}

/// `r` is what an allocation from the cache `c` hands out first: its top item.
pub open spec fn cached_alloc(c: Seq<usize>, r: Option<usize>) -> bool {
    c.len() > 0 ==> r == Some(c.last())
}

/// Freeing an item and then allocating on the same processor gives that item
/// back exactly when the processor's cache had room for it.
pub proof fn lemma_free_then_alloc(c0: Seq<usize>, c1: Seq<usize>, item: usize, cap: nat, r: Option<usize>)
    requires
        cached_free(c0, c1, item, cap),
        cached_alloc(c1, r),
        c0.len() <= cap,
        !c0.contains(item),
    ensures
        c0.len() < cap ==> r == Some(item),
        c0.len() == cap && cap > 0 ==> r != Some(item),
{
    if c0.len() == cap && cap > 0 {
        assert(c0.contains(c0.last()));
    }
}

/// A caching allocator over `A`: a cache of up to `L` items for each
/// processor, and a shared reserve of up to `N` items.
pub struct Slab<A: Alloc, const N: usize, const L: usize> {
    shared: Vec<usize>,
    per_cpu: Vec<Vec<usize>>,
    backing: A,
}

impl<A: Alloc, const N: usize, const L: usize> Slab<A, N, L> {
    /// The shared reserve, bottom first.
    pub closed spec fn reserve(&self) -> Seq<usize> {
        self.shared@
    }

    /// The cache of processor `cpu`, bottom first.
    pub closed spec fn cache(&self, cpu: int) -> Seq<usize> {
        self.per_cpu@[cpu]@
    }

    /// The backing allocator.
    pub closed spec fn backing_spec(&self) -> A {
        self.backing
    }

    /// How many processors have a cache.
    pub closed spec fn cpus(&self) -> nat {
        self.per_cpu@.len()
    }

    pub closed spec fn wf(&self) -> bool {
        &&& self.backing.ready()
        &&& self.shared@.len() <= N
        &&& forall|c: int| 0 <= c < self.per_cpu@.len() ==> (#[trigger] self.per_cpu@[c])@.len() <= L
    }

    /// The caches of all processors other than `cpu` are as in `old`.
    pub open spec fn others_kept(&self, old: &Self, cpu: int) -> bool {
        &&& self.cpus() == old.cpus()
        &&& forall|c: int| 0 <= c < self.cpus() && c != cpu ==> #[trigger] self.cache(c) == old.cache(c)
    }

    /// An empty slab over `backing`, with a cache for each processor.
    pub fn new(backing: A, cpus: &CpuInfo) -> (r: Self)
        requires
            backing.ready(),
        ensures
            r.wf(),
            r.cpus() == cpus.spec_num_cpus(),
            r.backing_spec() == backing,
            r.reserve() == Seq::<usize>::empty(),
            forall|c: int| 0 <= c < r.cpus() ==> #[trigger] r.cache(c) == Seq::<usize>::empty(),
    {
        let n = cpus.num_cpus();
        let mut per_cpu: Vec<Vec<usize>> = Vec::new();
        while per_cpu.len() < n
            invariant
                per_cpu@.len() <= n,
                forall|c: int| 0 <= c < per_cpu@.len() ==> (#[trigger] per_cpu@[c])@ == Seq::<usize>::empty(),
            decreases n - per_cpu@.len(),
        {
            per_cpu.push(Vec::new());
        }
        Slab { shared: Vec::new(), per_cpu, backing }
    }

    /// Whether the cache of the caller's processor is empty.
    pub fn empty(&self, cpu: &CpuInfo) -> (r: bool)
        requires
            cpu.spec_cpu_id() < self.cpus(),
        ensures
            r == (self.cache(cpu.spec_cpu_id() as int).len() == 0),
    {
        self.per_cpu[cpu.cpu_id()].len() == 0
    }

    /// Takes the top item of the caller's cache, touching nothing shared.
    pub fn alloc_lockfree(&mut self, cpu: &CpuInfo) -> (r: Option<usize>)
        requires
            old(self).wf(),
            cpu.spec_cpu_id() < old(self).cpus(),
        ensures
            final(self).backing_spec() == old(self).backing_spec(),
            final(self).wf(),
            final(self).others_kept(old(self), cpu.spec_cpu_id() as int),
            final(self).reserve() == old(self).reserve(),
            cached_alloc(old(self).cache(cpu.spec_cpu_id() as int), r),
            old(self).cache(cpu.spec_cpu_id() as int).len() == 0 ==> r.is_none() && final(self).cache(
                cpu.spec_cpu_id() as int,
            ) == old(self).cache(cpu.spec_cpu_id() as int),
            old(self).cache(cpu.spec_cpu_id() as int).len() > 0 ==> final(self).cache(cpu.spec_cpu_id() as int)
                == old(self).cache(cpu.spec_cpu_id() as int).drop_last(),
    {
        let id = cpu.cpu_id();
        let r = self.per_cpu[id].pop();
        proof {
            assert forall|c: int| 0 <= c < self.per_cpu@.len() implies (#[trigger] self.per_cpu@[c])@.len() <= L by {
                if c != id {
                    assert(self.per_cpu@[c] == old(self).per_cpu@[c]);
                }
            }
        }
        r
    }

    /// Puts `item` on the caller's cache, touching nothing shared; a full cache
    /// hands it back.
    pub fn free_nolock(&mut self, cpu: &CpuInfo, item: usize) -> (r: Result<(), (Full, usize)>)
        requires
            old(self).wf(),
            cpu.spec_cpu_id() < old(self).cpus(),
        ensures
            final(self).backing_spec() == old(self).backing_spec(),
            final(self).wf(),
            final(self).others_kept(old(self), cpu.spec_cpu_id() as int),
            final(self).reserve() == old(self).reserve(),
            cached_free(old(self).cache(cpu.spec_cpu_id() as int), final(self).cache(cpu.spec_cpu_id() as int), item, L as nat),
            old(self).cache(cpu.spec_cpu_id() as int).len() < L ==> r == Ok::<(), (Full, usize)>(()),
            old(self).cache(cpu.spec_cpu_id() as int).len() >= L ==> r == Err::<(), (Full, usize)>((Full, item)),
    {
        let id = cpu.cpu_id();
        if self.per_cpu[id].len() < L {
            self.per_cpu[id].push(item);
            proof {
                assert forall|c: int| 0 <= c < self.per_cpu@.len() implies (#[trigger] self.per_cpu@[c])@.len() <= L by {
                    if c != id {
                        assert(self.per_cpu@[c] == old(self).per_cpu@[c]);
                    }
                }
            }
            Ok(())
        } else {
            Err((Full, item))
        }
    }

    /// An item: from the caller's cache, else from the shared reserve, else
    /// from the backing allocator.
    pub fn allocate(&mut self, cpu: &CpuInfo) -> (r: Option<usize>)
        requires
            old(self).wf(),
            cpu.spec_cpu_id() < old(self).cpus(),
        ensures
            final(self).wf(),
            final(self).others_kept(old(self), cpu.spec_cpu_id() as int),
            cached_alloc(old(self).cache(cpu.spec_cpu_id() as int), r),
            old(self).cache(cpu.spec_cpu_id() as int).len() > 0 ==> final(self).cache(cpu.spec_cpu_id() as int)
                == old(self).cache(cpu.spec_cpu_id() as int).drop_last() && final(self).reserve() == old(self).reserve(),
            old(self).cache(cpu.spec_cpu_id() as int).len() == 0 ==> final(self).cache(cpu.spec_cpu_id() as int)
                == old(self).cache(cpu.spec_cpu_id() as int),
            old(self).cache(cpu.spec_cpu_id() as int).len() == 0 && old(self).reserve().len() > 0 ==> r == Some(
                old(self).reserve().last(),
            ) && final(self).reserve() == old(self).reserve().drop_last(),
            old(self).cache(cpu.spec_cpu_id() as int).len() == 0 && old(self).reserve().len() == 0
                ==> final(self).reserve() == old(self).reserve() && r.is_some() == old(self).backing_spec().available()
                && (r.is_some() ==> final(self).backing_spec().accepts(r.unwrap())),
            old(self).cache(cpu.spec_cpu_id() as int).len() > 0 || old(self).reserve().len() > 0 ==> final(self).backing_spec() == old(self).backing_spec(),
            forall|x: usize| #[trigger] old(self).backing_spec().accepts(x) ==> final(self).backing_spec().accepts(x),
    {
        let first = self.alloc_lockfree(cpu);
        let ghost mid = *self;
        let r = match first {
            Some(item) => Some(item),
            None => match self.shared.pop() {
                Some(item) => Some(item),
                None => self.backing.allocate(),
            },
        };
        proof {
            assert forall|c: int| 0 <= c < self.cpus() && c != cpu.spec_cpu_id() implies #[trigger] self.cache(c)
                == old(self).cache(c) by {
                assert(self.per_cpu@ == mid.per_cpu@);
                assert(mid.cache(c) == old(self).cache(c));
            }
        }
        r
    }

    /// Gives `item` back: to the caller's cache, else to the shared reserve,
    /// else to the backing allocator.
    pub fn free(&mut self, cpu: &CpuInfo, item: usize)
        requires
            old(self).wf(),
            cpu.spec_cpu_id() < old(self).cpus(),
            old(self).backing_spec().accepts(item),
        ensures
            final(self).wf(),
            final(self).others_kept(old(self), cpu.spec_cpu_id() as int),
            cached_free(old(self).cache(cpu.spec_cpu_id() as int), final(self).cache(cpu.spec_cpu_id() as int), item, L as nat),
            old(self).cache(cpu.spec_cpu_id() as int).len() < L ==> final(self).reserve() == old(self).reserve(),
            old(self).cache(cpu.spec_cpu_id() as int).len() >= L && old(self).reserve().len() < N ==> final(self).reserve() == old(self).reserve().push(item),
            old(self).cache(cpu.spec_cpu_id() as int).len() >= L && old(self).reserve().len() >= N ==> final(self).reserve() == old(self).reserve(),
            old(self).cache(cpu.spec_cpu_id() as int).len() < L || old(self).reserve().len() < N ==> final(self).backing_spec()
                == old(self).backing_spec(),
            forall|x: usize| x != item && #[trigger] old(self).backing_spec().accepts(x) ==> final(self).backing_spec().accepts(x),
    {
        let first = self.free_nolock(cpu, item);
        let ghost mid = *self;
        match first {
            Ok(()) => {},
            Err((_, item)) => {
                if self.shared.len() < N {
                    self.shared.push(item);
                } else {
                    self.backing.free(item);
                }
            },
        }
        proof {
            assert forall|c: int| 0 <= c < self.cpus() && c != cpu.spec_cpu_id() implies #[trigger] self.cache(c)
                == old(self).cache(c) by {
                assert(self.per_cpu@ == mid.per_cpu@);
                assert(mid.cache(c) == old(self).cache(c));
            }
        }
    }

    /// Fills the shared reserve toward `N` and then the caller's cache toward
    /// `L` from the backing allocator, stopping at its first `None`; whether
    /// both ended full.
    pub fn restock(&mut self, cpu: &CpuInfo) -> (r: bool)
        requires
            old(self).wf(),
            cpu.spec_cpu_id() < old(self).cpus(),
        ensures
            final(self).wf(),
            final(self).others_kept(old(self), cpu.spec_cpu_id() as int),
            old(self).reserve().is_prefix_of(final(self).reserve()),
            old(self).cache(cpu.spec_cpu_id() as int).is_prefix_of(final(self).cache(cpu.spec_cpu_id() as int)),
            r == (final(self).reserve().len() == N && final(self).cache(cpu.spec_cpu_id() as int).len() == L),
            !r ==> !final(self).backing_spec().available(),
            forall|k: int|
                old(self).reserve().len() <= k < final(self).reserve().len() ==> final(self).backing_spec().accepts(
                    #[trigger] final(self).reserve()[k],
                ),
            forall|k: int|
                old(self).cache(cpu.spec_cpu_id() as int).len() <= k < final(self).cache(cpu.spec_cpu_id() as int).len()
                    ==> final(self).backing_spec().accepts(#[trigger] final(self).cache(cpu.spec_cpu_id() as int)[k]),
            forall|x: usize| #[trigger] old(self).backing_spec().accepts(x) ==> final(self).backing_spec().accepts(x),
    {
        let id = cpu.cpu_id();
        let ghost sh0 = self.shared@;
        let mut more = true;
        while more && self.shared.len() < N
            invariant
                self.wf(),
                self.per_cpu@ == old(self).per_cpu@,
                sh0 == old(self).shared@,
                sh0.is_prefix_of(self.shared@),
                !more ==> self.shared@.len() < N && !self.backing.available(),
                forall|k: int| sh0.len() <= k < self.shared@.len() ==> self.backing.accepts(#[trigger] self.shared@[k]),
                forall|x: usize| #[trigger] old(self).backing.accepts(x) ==> self.backing.accepts(x),
            decreases N - self.shared@.len() + if more { 1int } else { 0int },
        {
            match self.backing.allocate() {
                Some(item) => {
                    self.shared.push(item);
                    proof {
                        assert(sh0.is_prefix_of(self.shared@)) by {
                            assert forall|k: int| 0 <= k < sh0.len() implies sh0[k] == self.shared@[k] by {}
                        }
                    }
                },
                None => {
                    more = false;
                },
            }
        }
        let full = more;
        let ghost c0 = self.per_cpu@[id as int]@;
        let ghost sh1 = self.shared@;
        more = true;
        while more && self.per_cpu[id].len() < L
            invariant
                self.wf(),
                id < self.per_cpu@.len(),
                full == (self.shared@.len() == N),
                !full ==> !self.backing.available(),
                self.shared@ == sh1,
                sh0.is_prefix_of(self.shared@),
                forall|c: int| 0 <= c < self.per_cpu@.len() && c != id ==> #[trigger] self.per_cpu@[c] == old(self).per_cpu@[c],
                self.per_cpu@.len() == old(self).per_cpu@.len(),
                c0 == old(self).per_cpu@[id as int]@,
                c0.is_prefix_of(self.per_cpu@[id as int]@),
                !more ==> self.per_cpu@[id as int]@.len() < L && !self.backing.available(),
                forall|k: int| sh0.len() <= k < self.shared@.len() ==> self.backing.accepts(#[trigger] self.shared@[k]),
                forall|k: int|
                    c0.len() <= k < self.per_cpu@[id as int]@.len() ==> self.backing.accepts(
                        #[trigger] self.per_cpu@[id as int]@[k],
                    ),
                forall|x: usize| #[trigger] old(self).backing.accepts(x) ==> self.backing.accepts(x),
            decreases L - self.per_cpu@[id as int]@.len() + if more { 1int } else { 0int },
        {
            match self.backing.allocate() {
                Some(item) => {
                    self.per_cpu[id].push(item);
                    proof {
                        assert forall|c: int| 0 <= c < self.per_cpu@.len() implies (#[trigger] self.per_cpu@[c])@.len() <= L by {
                            if c != id {
                                assert(self.per_cpu@[c] == old(self).per_cpu@[c]);
                            }
                        }
                        assert(c0.is_prefix_of(self.per_cpu@[id as int]@)) by {
                            assert forall|k: int| 0 <= k < c0.len() implies c0[k] == self.per_cpu@[id as int]@[k] by {}
                        }
                    }
                },
                None => {
                    more = false;
                },
            }
        }
        proof {
            assert forall|c: int| 0 <= c < self.cpus() && c != id implies #[trigger] self.cache(c) == old(self).cache(c) by {
                assert(self.per_cpu@[c] == old(self).per_cpu@[c]);
            }
        }
        full && more
    }

    /// `allocate`, and on `None` a restock and one more try.
    pub fn alloc_restocking(&mut self, cpu: &CpuInfo) -> (r: Option<usize>)
        requires
            old(self).wf(),
            cpu.spec_cpu_id() < old(self).cpus(),
        ensures
            final(self).wf(),
            final(self).cpus() == old(self).cpus(),
            cached_alloc(old(self).cache(cpu.spec_cpu_id() as int), r),
            old(self).cache(cpu.spec_cpu_id() as int).len() == 0 && old(self).reserve().len() > 0 ==> r == Some(
                old(self).reserve().last(),
            ),
    {
        match self.allocate(cpu) {
            Some(item) => Some(item),
            None => {
                self.restock(cpu);
                self.allocate(cpu)
            },
        }
    }

    /// The caller's cache, and on a miss the backing allocator directly,
    /// passing over the shared reserve.
    pub fn alloc_shortcircuiting(&mut self, cpu: &CpuInfo) -> (r: Option<usize>)
        requires
            old(self).wf(),
            cpu.spec_cpu_id() < old(self).cpus(),
        ensures
            final(self).wf(),
            final(self).others_kept(old(self), cpu.spec_cpu_id() as int),
            final(self).reserve() == old(self).reserve(),
            cached_alloc(old(self).cache(cpu.spec_cpu_id() as int), r),
            old(self).cache(cpu.spec_cpu_id() as int).len() > 0 ==> final(self).cache(cpu.spec_cpu_id() as int)
                == old(self).cache(cpu.spec_cpu_id() as int).drop_last(),
            old(self).cache(cpu.spec_cpu_id() as int).len() == 0 ==> final(self).cache(cpu.spec_cpu_id() as int)
                == old(self).cache(cpu.spec_cpu_id() as int) && r.is_some() == old(self).backing_spec().available()
                && (r.is_some() ==> final(self).backing_spec().accepts(r.unwrap())),
            old(self).cache(cpu.spec_cpu_id() as int).len() > 0 ==> final(self).backing_spec() == old(self).backing_spec(),
            forall|x: usize| #[trigger] old(self).backing_spec().accepts(x) ==> final(self).backing_spec().accepts(x),
    {
        let first = self.alloc_lockfree(cpu);
        let ghost mid = *self;
        let r = match first {
            Some(item) => Some(item),
            None => self.backing.allocate(),
        };
        proof {
            assert forall|c: int| 0 <= c < self.cpus() && c != cpu.spec_cpu_id() implies #[trigger] self.cache(c)
                == old(self).cache(c) by {
                assert(self.per_cpu@ == mid.per_cpu@);
                assert(mid.cache(c) == old(self).cache(c));
            }
        }
        r
    }

    /// The backing allocator, for work on it that the slab does not do.
    pub fn lock_alloc(&mut self) -> (r: &mut A)
        ensures
            *r == old(self).backing_spec(),
            old(self).wf() ==> r.ready(),
            final(self).backing_spec() == *final(r),
            final(self).reserve() == old(self).reserve(),
            final(self).others_kept(old(self), -1),
            old(self).wf() && final(r).ready() ==> final(self).wf(),
    {
        &mut self.backing
    }
}

} // verus!
