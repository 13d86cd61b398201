use vstd::prelude::*;

use super::segment_queue::SegmentQueue;
use super::Bt;

verus! {

/// How many buckets the table hashes bases into.
pub const BUCKETS: usize = 64;

/// The 64-bit MurmurHash3 finaliser.
pub open spec fn murmur_spec(key: u64) -> u64 {
    let k1 = key ^ (key >> 33u64);
    let k2 = k1.wrapping_mul(0xff51afd7ed558ccdu64);
    let k3 = k2 ^ (k2 >> 33u64);
    let k4 = k3.wrapping_mul(0xc4ceb9fe1a85ec53u64);
    k4 ^ (k4 >> 33u64)
}

/// The bucket of the used tag at `base`.
pub open spec fn bucket_of(base: usize) -> int {
    (murmur_spec(base as u64) % (BUCKETS as u64)) as int
}

/// `buckets` holds only used tags, each once and in the bucket of its base.
pub open spec fn indexed(buckets: Seq<Seq<usize>>, tags: Seq<Bt>) -> bool {
    &&& buckets.len() == BUCKETS
    &&& forall|j: int| 0 <= j < BUCKETS ==> (#[trigger] buckets[j]).no_duplicates()
    &&& forall|j: int, i: int|
        0 <= j < BUCKETS && 0 <= i < buckets[j].len() ==> {
            let h = #[trigger] buckets[j][i];
            &&& h < tags.len()
            &&& tags[h as int].is_used()
            &&& bucket_of(tags[h as int].base) == j
        }
}

/// Changing tags that no bucket holds keeps `buckets` indexed.
pub proof fn lemma_indexed_frame(buckets: Seq<Seq<usize>>, t0: Seq<Bt>, t1: Seq<Bt>)
    requires
        indexed(buckets, t0),
        t1.len() >= t0.len(),
        forall|j: int, i: int|
            0 <= j < BUCKETS && 0 <= i < buckets[j].len() ==> t1[#[trigger] buckets[j][i] as int] == t0[buckets[j][i] as int],
    ensures
        indexed(buckets, t1),
{
}

/// Used tags, found by their base.
pub struct AllocationTable {
    buckets: Vec<SegmentQueue>,
}

impl View for AllocationTable {
    type V = Seq<Seq<usize>>;

    closed spec fn view(&self) -> Seq<Seq<usize>> {
        self.buckets@.map_values(|q: SegmentQueue| q@)
    }
}

impl AllocationTable {
    pub fn new() -> (r: AllocationTable)
        ensures
            r@.len() == BUCKETS,
            forall|j: int| 0 <= j < BUCKETS ==> #[trigger] r@[j] == Seq::<usize>::empty(),
    {
        let mut buckets: Vec<SegmentQueue> = Vec::new();
        while buckets.len() < BUCKETS
            invariant
                buckets@.len() <= BUCKETS,
                forall|j: int| 0 <= j < buckets@.len() ==> #[trigger] buckets@[j]@ == Seq::<usize>::empty(),
            decreases BUCKETS - buckets@.len(),
        {
            buckets.push(SegmentQueue::new());
        }
        let r = AllocationTable { buckets };
        assert forall|j: int| 0 <= j < BUCKETS implies #[trigger] r@[j] == Seq::<usize>::empty() by {
            assert(r@[j] == r.buckets@[j]@);
        }
        r
    }

    fn murmur(key: u64) -> (r: u64)
        ensures
            r == murmur_spec(key),
    {
        let k1 = key ^ (key >> 33u64);
        let k2 = k1.wrapping_mul(0xff51afd7ed558ccdu64);
        let k3 = k2 ^ (k2 >> 33u64);
        let k4 = k3.wrapping_mul(0xc4ceb9fe1a85ec53u64);
        k4 ^ (k4 >> 33u64)
    }

    fn get_bucket(n: usize) -> (r: usize)
        ensures
            r == bucket_of(n),
            r < BUCKETS,
    {
        (Self::murmur(n as u64) % (BUCKETS as u64)) as usize
    }

    /// Files the used tag `bt` under its base.
    pub fn insert(&mut self, tags: &Vec<Bt>, bt: usize)
        requires
            indexed(old(self)@, tags@),
            bt < tags@.len(),
            tags@[bt as int].is_used(),
            forall|j: int| 0 <= j < BUCKETS ==> !(#[trigger] old(self)@[j]).contains(bt),
        ensures
            indexed(final(self)@, tags@),
            final(self)@ == old(self)@.update(
                bucket_of(tags@[bt as int].base),
                old(self)@[bucket_of(tags@[bt as int].base)].push(bt),
            ),
    {
        let j = Self::get_bucket(tags[bt].base);
        let ghost old_view = self@;
        self.buckets[j].add(tags, bt);
        proof {
            assert(self@ =~= old_view.update(j as int, old_view[j as int].push(bt)));
            assert forall|m: int| 0 <= m < BUCKETS implies (#[trigger] self@[m]).no_duplicates() by {
                if m == j {
                    assert forall|a: int, b: int| 0 <= a < self@[m].len() && 0 <= b < self@[m].len() && a != b
                        implies self@[m][a] != self@[m][b] by {
                        if a < old_view[m].len() && b < old_view[m].len() {
                        } else if a < old_view[m].len() {
                            assert(old_view[m].contains(self@[m][a]));
                        } else {
                            assert(old_view[m].contains(self@[m][b]));
                        }
                    }
                }
            }
        }
    }

    /// Takes the used tag `bt` out of the table.
    pub fn remove(&mut self, tags: &Vec<Bt>, bt: usize)
        requires
            indexed(old(self)@, tags@),
            bt < tags@.len(),
            tags@[bt as int].is_used(),
        ensures
            indexed(final(self)@, tags@),
            forall|j: int, x: usize|
                0 <= j < BUCKETS ==> (#[trigger] final(self)@[j].contains(x) <==> (old(self)@[j].contains(x)
                    && x != bt)),
    {
        let j = Self::get_bucket(tags[bt].base);
        let ghost old_view = self@;
        proof {
            assert(self.buckets@[j as int]@ == old_view[j as int]);
            assert(old_view[j as int].no_duplicates());
        }
        self.buckets[j].remove(bt);
        proof {
            assert(self@.len() == BUCKETS);
            assert forall|m: int| 0 <= m < BUCKETS implies (#[trigger] self@[m]).no_duplicates() by {
                if m != j {
                    assert(self@[m] == old_view[m]);
                }
            }
            assert forall|m: int, x: usize| 0 <= m < BUCKETS implies (#[trigger] self@[m].contains(x) <==> (
                old_view[m].contains(x) && x != bt)) by {
                if m != j {
                    assert(self@[m] == old_view[m]);
                    if old_view[m].contains(x) {
                        let i = choose|i: int| 0 <= i < old_view[m].len() && old_view[m][i] == x;
                        assert(old_view[m][i] == x);
                    }
                }
            }
            assert forall|m: int, i: int| 0 <= m < BUCKETS && 0 <= i < self@[m].len() implies {
                let h = #[trigger] self@[m][i];
                &&& h < tags@.len()
                &&& tags@[h as int].is_used()
                &&& bucket_of(tags@[h as int].base) == m
            } by {
                assert(self@[m].contains(self@[m][i]));
                let i0 = choose|i0: int| 0 <= i0 < old_view[m].len() && old_view[m][i0] == self@[m][i];
            }
        }
    }

    /// A tag of the bucket of `base` whose base is `base`, if there is one.
    pub fn get(&self, tags: &Vec<Bt>, base: usize) -> (r: Option<usize>)
        requires
            indexed(self@, tags@),
        ensures
            r.is_some() ==> self@[bucket_of(base)].contains(r.unwrap()) && tags@[r.unwrap() as int].base == base,
            r.is_none() ==> forall|i: int|
                0 <= i < self@[bucket_of(base)].len() ==> tags@[#[trigger] self@[bucket_of(base)][i] as int].base
                    != base,
    {
        let j = Self::get_bucket(base);
        let queue = &self.buckets[j];
        let mut i: usize = 0;
        while i < queue.len()
            invariant
                i <= queue@.len(),
                queue@ == self@[j as int],
                j == bucket_of(base),
                indexed(self@, tags@),
                forall|m: int| 0 <= m < i ==> tags@[#[trigger] queue@[m] as int].base != base,
            decreases queue@.len() - i,
        {
            let h = queue.get(i);
            proof {
                assert(self@[j as int][i as int] == h);
            }
            if tags[h].base == base {
                proof {
                    assert(queue@.contains(h));
                }
                return Some(h);
            }
            i += 1;
        }
        None
    }
}

} // verus!
