use vstd::prelude::*;

use super::segment_queue::SegmentQueue;
use super::Bt;

verus! {

/// How many size classes there are: one per bit of an address.
pub const LISTS: usize = 64;

pub open spec fn pow2(k: nat) -> nat
    decreases k,
{
    if k == 0 {
        1
    } else {
        2 * pow2((k - 1) as nat)
    }
}

/// `⌊log2(n)⌋`, with 0 for 0 and 1.
pub open spec fn log2_floor(n: nat) -> nat
    decreases n,
{
    if n <= 1 {
        0
    } else {
        1 + log2_floor(n / 2)
    }
}

/// `⌈log2(n)⌉`, with 0 for 0 and 1: the exponent of the next power of two.
pub open spec fn log2_ceil(n: nat) -> nat {
    if n <= 1 {
        0
    } else {
        1 + log2_floor((n - 1) as nat)
    }
}

pub proof fn lemma_pow2_pos(k: nat)
    ensures
        pow2(k) >= 1,
    decreases k,
{
    if k > 0 {
        lemma_pow2_pos((k - 1) as nat);
    }
}

pub proof fn lemma_pow2_mono(a: nat, b: nat)
    requires
        a <= b,
    ensures
        pow2(a) <= pow2(b),
    decreases b,
{
    if b > a {
        lemma_pow2_mono(a, (b - 1) as nat);
        lemma_pow2_pos((b - 1) as nat);
    }
}

/// `2^k ≤ n < 2^(k+1)` where `k = ⌊log2(n)⌋`.
pub proof fn lemma_log2_floor_bounds(n: nat)
    requires
        n >= 1,
    ensures
        pow2(log2_floor(n)) <= n < pow2(log2_floor(n) + 1),
    decreases n,
{
    if n > 1 {
        lemma_log2_floor_bounds(n / 2);
    }
}

pub proof fn lemma_log2_floor_mono(a: nat, b: nat)
    requires
        a <= b,
    ensures
        log2_floor(a) <= log2_floor(b),
    decreases b,
{
    if a > 1 {
        lemma_log2_floor_mono(a / 2, b / 2);
    }
}

/// A length whose class is at least `⌈log2(s)⌉` is at least `s`.
pub proof fn lemma_class_at_least_ceil(n: nat, s: nat)
    requires
        n >= 1,
        log2_floor(n) >= log2_ceil(s),
    ensures
        n >= s,
{
    lemma_log2_floor_bounds(n);
    lemma_pow2_mono(log2_ceil(s), log2_floor(n));
    if s > 1 {
        lemma_log2_floor_bounds((s - 1) as nat);
    }
}

/// Lengths in a lower class are shorter than lengths in a higher one.
pub proof fn lemma_class_order(a: nat, b: nat)
    requires
        a >= 1,
        b >= 1,
        log2_floor(a) < log2_floor(b),
    ensures
        a < b,
{
    lemma_log2_floor_bounds(a);
    lemma_log2_floor_bounds(b);
    lemma_pow2_mono(log2_floor(a) + 1, log2_floor(b));
}

pub proof fn lemma_log2_floor_below(n: nat, m: nat)
    requires
        n < pow2(m),
    ensures
        log2_floor(n) < m || n == 0 && m == 0,
{
    if n >= 1 {
        lemma_log2_floor_bounds(n);
        if log2_floor(n) >= m {
            lemma_pow2_mono(m, log2_floor(n));
        }
    }
}

/// A nonzero multiple of `q` holds at least one `q`.
pub proof fn lemma_multiple_at_least(n: nat, q: nat)
    requires
        q > 0,
        n > 0,
        n % q == 0,
    ensures
        n >= q,
        n / q >= 1,
{
    assert(n == q * (n / q)) by (nonlinear_arith)
        requires q > 0, n % q == 0;
    assert(n / q >= 1) by (nonlinear_arith)
        requires n == q * (n / q), n > 0, q > 0;
    assert(n >= q) by (nonlinear_arith)
        requires n == q * (n / q), n / q >= 1, q > 0;
}

pub proof fn lemma_pow2_64()
    ensures
        pow2(64) == 0x1_0000_0000_0000_0000,
{
    reveal_with_fuel(pow2, 65);
}

/// The class of any length of the address space names one of the buckets.
pub proof fn lemma_class_in_range(len: usize, q: usize)
    requires
        q > 0,
    ensures
        log2_floor(len as nat / q as nat) < LISTS,
{
    assert(len as nat / q as nat <= len) by (nonlinear_arith)
        requires q > 0;
    lemma_pow2_64();
    lemma_log2_floor_below(len as nat / q as nat, 64);
}

/// `⌊log2(n)⌋` of a nonzero `n`.
pub fn floor_log2(n: usize) -> (r: usize)
    requires
        n >= 1,
    ensures
        r == log2_floor(n as nat),
        r < LISTS,
{
    let mut x: usize = n;
    let mut r: usize = 0;
    proof {
        lemma_pow2_64();
        lemma_log2_floor_below(n as nat, 64);
    }
    while x > 1
        invariant
            x >= 1,
            log2_floor(n as nat) == r + log2_floor(x as nat),
            r + log2_floor(x as nat) < 64,
        decreases x,
    {
        x = x / 2;
        r = r + 1;
    }
    r
}

/// The bucket from which a request of `size` quanta can take any tag:
/// `⌈log2(size)⌉`, the exponent of the next power of two.
pub fn get_list(size: usize) -> (r: usize)
    ensures
        r == log2_ceil(size as nat),
        r <= LISTS,
{
    if size <= 1 {
        0
    } else {
        floor_log2(size - 1) + 1
    }
}

/// Free tags sorted into power-of-two size classes: a tag of `n` quanta lives
/// in bucket `⌊log2(n)⌋`.
pub struct Freelists {
    lists: Vec<SegmentQueue>,
}

/// `lists` holds only free tags of nonzero length, each once and in the
/// bucket of its class.
pub open spec fn bucketed(lists: Seq<Seq<usize>>, tags: Seq<Bt>, quantum: nat) -> bool {
    &&& lists.len() == LISTS
    &&& forall|k: int| 0 <= k < LISTS ==> (#[trigger] lists[k]).no_duplicates()
    &&& forall|k: int, i: int|
        0 <= k < LISTS && 0 <= i < lists[k].len() ==> {
            let h = #[trigger] lists[k][i];
            &&& h < tags.len()
            &&& tags[h as int].is_free()
            &&& tags[h as int].len > 0
            &&& tags[h as int].len as nat % quantum == 0
            &&& log2_floor(tags[h as int].len as nat / quantum) == k
        }
}

/// Changing tags that no bucket holds keeps `lists` bucketed.
pub proof fn lemma_bucketed_frame(lists: Seq<Seq<usize>>, t0: Seq<Bt>, t1: Seq<Bt>, quantum: nat)
    requires
        bucketed(lists, t0, quantum),
        t1.len() >= t0.len(),
        forall|k: int, i: int|
            0 <= k < LISTS && 0 <= i < lists[k].len() ==> t1[#[trigger] lists[k][i] as int] == t0[lists[k][i] as int],
    ensures
        bucketed(lists, t1, quantum),
{
}

/// Some bucket of `lists` holds `h`.
pub open spec fn listed(lists: Seq<Seq<usize>>, h: usize) -> bool {
    exists|k: int| 0 <= k < lists.len() && #[trigger] lists[k].contains(h)
}

impl View for Freelists {
    type V = Seq<Seq<usize>>;

    closed spec fn view(&self) -> Seq<Seq<usize>> {
        self.lists@.map_values(|q: SegmentQueue| q@)
    }
}

impl Freelists {
    pub fn new() -> (r: Freelists)
        ensures
            r@.len() == LISTS,
            forall|k: int| 0 <= k < LISTS ==> #[trigger] r@[k] == Seq::<usize>::empty(),
    {
        let mut lists: Vec<SegmentQueue> = Vec::new();
        while lists.len() < LISTS
            invariant
                lists@.len() <= LISTS,
                forall|k: int| 0 <= k < lists@.len() ==> #[trigger] lists@[k]@ == Seq::<usize>::empty(),
            decreases LISTS - lists@.len(),
        {
            lists.push(SegmentQueue::new());
        }
        let r = Freelists { lists };
        assert forall|k: int| 0 <= k < LISTS implies #[trigger] r@[k] == Seq::<usize>::empty() by {
            assert(r@[k] == r.lists@[k]@);
        }
        r
    }

    /// Bucket `k`.
    pub fn list(&self, k: usize) -> (r: &SegmentQueue)
        requires
            k < self@.len(),
        ensures
            r@ == self@[k as int],
    {
        &self.lists[k]
    }

    /// Sorts the free tag `bt` into the bucket of its class.
    pub fn insert(&mut self, tags: &Vec<Bt>, bt: usize, quantum: usize)
        requires
            quantum > 0,
            bucketed(old(self)@, tags@, quantum as nat),
            bt < tags@.len(),
            tags@[bt as int].is_free(),
            tags@[bt as int].len > 0,
            tags@[bt as int].len % quantum == 0,
            !listed(old(self)@, bt),
        ensures
            bucketed(final(self)@, tags@, quantum as nat),
            log2_floor(tags@[bt as int].len as nat / quantum as nat) < LISTS,
            final(self)@ == old(self)@.update(
                log2_floor(tags@[bt as int].len as nat / quantum as nat) as int,
                old(self)@[log2_floor(tags@[bt as int].len as nat / quantum as nat) as int].push(bt),
            ),
    {
        let k = floor_log2(tags[bt].len / quantum);
        proof {
            lemma_multiple_at_least(tags@[bt as int].len as nat, quantum as nat);
        }
        let ghost old_view = self@;
        self.lists[k].add(tags, bt);
        proof {
            assert(self@ =~= old_view.update(k as int, old_view[k as int].push(bt)));
            assert(!old_view[k as int].contains(bt));
            assert forall|j: int| 0 <= j < LISTS implies (#[trigger] self@[j]).no_duplicates() by {
                if j == k {
                    assert forall|a: int, b: int| 0 <= a < self@[j].len() && 0 <= b < self@[j].len() && a != b
                        implies self@[j][a] != self@[j][b] by {
                        if a < old_view[j].len() && b < old_view[j].len() {
                        } else if a < old_view[j].len() {
                            assert(old_view[j].contains(self@[j][a]));
                        } else {
                            assert(old_view[j].contains(self@[j][b]));
                        }
                    }
                }
            }
        }
    }

    /// Takes `bt` out of its bucket.
    pub fn remove(&mut self, tags: &Vec<Bt>, bt: usize, quantum: usize)
        requires
            quantum > 0,
            bucketed(old(self)@, tags@, quantum as nat),
            bt < tags@.len(),
            tags@[bt as int].is_free(),
            tags@[bt as int].len > 0,
            tags@[bt as int].len % quantum == 0,
        ensures
            bucketed(final(self)@, tags@, quantum as nat),
            final(self)@.len() == LISTS,
            forall|k: int, x: usize|
                0 <= k < LISTS ==> (#[trigger] final(self)@[k].contains(x) <==> (old(self)@[k].contains(x)
                    && x != bt)),
    {
        let k = floor_log2(tags[bt].len / quantum);
        proof {
            lemma_multiple_at_least(tags@[bt as int].len as nat, quantum as nat);
        }
        let ghost old_view = self@;
        proof {
            assert(self.lists@[k as int]@ == old_view[k as int]);
            assert(old_view[k as int].no_duplicates());
        }
        self.lists[k].remove(bt);
        proof {
            assert(self@.len() == LISTS);
            assert forall|j: int| 0 <= j < LISTS implies (#[trigger] self@[j]).no_duplicates() by {
                if j != k {
                    assert(self@[j] == old_view[j]);
                }
            }
            assert forall|j: int, x: usize| 0 <= j < LISTS implies (#[trigger] self@[j].contains(x) <==> (
                old_view[j].contains(x) && x != bt)) by {
                if j != k {
                    assert(self@[j] == old_view[j]);
                    if old_view[j].contains(x) {
                        let i = choose|i: int| 0 <= i < old_view[j].len() && old_view[j][i] == x;
                        assert(old_view[j][i] == x);
                    }
                }
            }
            assert forall|j: int, i: int| 0 <= j < LISTS && 0 <= i < self@[j].len() implies {
                let h = #[trigger] self@[j][i];
                &&& h < tags@.len()
                &&& tags@[h as int].is_free()
                &&& tags@[h as int].len > 0
                &&& tags@[h as int].len as nat % quantum as nat == 0
                &&& log2_floor(tags@[h as int].len as nat / quantum as nat) == j
            } by {
                assert(self@[j].contains(self@[j][i]));
                let i0 = choose|i0: int| 0 <= i0 < old_view[j].len() && old_view[j][i0] == self@[j][i];
            }
        }
    }

    /// The free tag of least length among those of at least `size`, if any.
    pub fn best_fit(&self, tags: &Vec<Bt>, size: usize, quantum: usize) -> (r: Option<usize>)
        requires
            quantum > 0,
            size > 0,
            size % quantum == 0,
            bucketed(self@, tags@, quantum as nat),
        ensures
            r.is_none() ==> forall|k: int, i: int|
                0 <= k < LISTS && 0 <= i < self@[k].len() ==> tags@[#[trigger] self@[k][i] as int].len < size,
            r.is_some() ==> {
                &&& listed(self@, r.unwrap())
                &&& tags@[r.unwrap() as int].len >= size
                &&& forall|k: int, i: int|
                    0 <= k < LISTS && 0 <= i < self@[k].len() && tags@[#[trigger] self@[k][i] as int].len
                        >= size ==> tags@[r.unwrap() as int].len <= tags@[self@[k][i] as int].len
            },
    {
        let sq = size / quantum;
        proof {
            assert(sq >= 1) by (nonlinear_arith)
                requires sq == size / quantum, size % quantum == 0, size > 0, quantum > 0;
        }
        let start = floor_log2(sq);
        let mut k = start;
        while k < LISTS
            invariant
                start <= k <= LISTS,
                start == log2_floor(sq as nat),
                sq == size / quantum,
                sq >= 1,
                quantum > 0,
                bucketed(self@, tags@, quantum as nat),
                forall|j: int, i: int|
                    start <= j < k && 0 <= i < self@[j].len() ==> tags@[#[trigger] self@[j][i] as int].len < size,
            decreases LISTS - k,
        {
            let queue = &self.lists[k];
            let mut best: Option<usize> = None;
            let mut i: usize = 0;
            while i < queue.len()
                invariant
                    i <= queue@.len(),
                    queue@ == self@[k as int],
                    bucketed(self@, tags@, quantum as nat),
                    k < LISTS,
                    best.is_none() ==> forall|m: int| 0 <= m < i ==> tags@[#[trigger] queue@[m] as int].len < size,
                    best.is_some() ==> {
                        &&& queue@.contains(best.unwrap())
                        &&& best.unwrap() < tags@.len()
                        &&& tags@[best.unwrap() as int].len >= size
                        &&& forall|m: int| 0 <= m < i && tags@[#[trigger] queue@[m] as int].len >= size ==>
                            tags@[best.unwrap() as int].len <= tags@[queue@[m] as int].len
                    },
                decreases queue@.len() - i,
            {
                let h = queue.get(i);
                proof {
                    assert(self@[k as int][i as int] == h);
                }
                let l = tags[h].len;
                if l >= size {
                    match best {
                        None => {
                            best = Some(h);
                        },
                        Some(b) => {
                            if l < tags[b].len {
                                best = Some(h);
                            }
                        },
                    }
                }
                i += 1;
            }
            if best.is_some() {
                proof {
                    let b = best.unwrap();
                    assert(listed(self@, b));
                    let qb = queue@.index_of(b);
                    assert forall|j: int, m: int|
                        0 <= j < LISTS && 0 <= m < self@[j].len() && tags@[#[trigger] self@[j][m] as int].len
                            >= size implies tags@[b as int].len <= tags@[self@[j][m] as int].len by {
                        let x = self@[j][m];
                        let lx = tags@[x as int].len as nat;
                        let lb = tags@[b as int].len as nat;
                        if j < start {
                            assert(lx / quantum as nat >= sq) by (nonlinear_arith)
                                requires lx >= size, sq == size / quantum, quantum > 0;
                            lemma_log2_floor_mono(sq as nat, lx / quantum as nat);
                        } else if j < k {
                        } else if j == k {
                        } else {
                            assert(queue@[qb] == b);
                            lemma_multiple_at_least(lb, quantum as nat);
                            lemma_multiple_at_least(lx, quantum as nat);
                            lemma_class_order(lb / quantum as nat, lx / quantum as nat);
                            assert(lb < lx) by (nonlinear_arith)
                                requires (lb / (quantum as nat)) < (lx / (quantum as nat)), quantum > 0;
                        }
                    }
                }
                return best;
            }
            k += 1;
        }
        proof {
            assert forall|j: int, m: int|
                0 <= j < LISTS && 0 <= m < self@[j].len() implies tags@[#[trigger] self@[j][m] as int].len < size by {
                if j < start {
                    let x = self@[j][m];
                    let lx = tags@[x as int].len as nat;
                    if lx >= size {
                        assert(lx / quantum as nat >= sq) by (nonlinear_arith)
                            requires lx >= size, sq == size / quantum, quantum > 0;
                        lemma_log2_floor_mono(sq as nat, lx / quantum as nat);
                    }
                }
            }
        }
        None
    }

    /// The front of the first nonempty bucket from which any tag fits a
    /// request of `size`, that is from bucket `⌈log2(size / quantum)⌉` up.
    pub fn instant_fit(&self, tags: &Vec<Bt>, size: usize, quantum: usize) -> (r: Option<usize>)
        requires
            quantum > 0,
            size > 0,
            size % quantum == 0,
            bucketed(self@, tags@, quantum as nat),
        ensures
            r.is_none() ==> forall|k: int|
                log2_ceil(size as nat / quantum as nat) <= k < LISTS ==> #[trigger] self@[k].len() == 0,
            r.is_some() ==> exists|k: int|
                log2_ceil(size as nat / quantum as nat) <= k < LISTS && #[trigger] self@[k].len() > 0
                    && r.unwrap() == self@[k][0] && forall|j: int|
                    log2_ceil(size as nat / quantum as nat) <= j < k ==> #[trigger] self@[j].len() == 0,
            r.is_some() ==> listed(self@, r.unwrap()) && tags@[r.unwrap() as int].len >= size,
    {
        let sq = size / quantum;
        let start = get_list(sq);
        let mut k = start;
        while k < LISTS
            invariant
                start <= k <= LISTS,
                start == log2_ceil(sq as nat),
                sq == size / quantum,
                quantum > 0,
                size % quantum == 0,
                bucketed(self@, tags@, quantum as nat),
                forall|j: int| start <= j < k ==> #[trigger] self@[j].len() == 0,
            decreases LISTS - k,
        {
            if self.lists[k].len() > 0 {
                let h = self.lists[k].get(0);
                proof {
                    assert(self@[k as int][0] == h);
                    assert(self@[k as int].contains(h));
                    let l = tags@[h as int].len as nat;
                    assert(0 <= 0 < self@[k as int].len());
                    lemma_multiple_at_least(l, quantum as nat);
                    lemma_class_at_least_ceil(l / quantum as nat, sq as nat);
                    assert(l >= size) by (nonlinear_arith)
                        requires l / quantum as nat >= sq, sq == size / quantum, size % quantum == 0, quantum > 0;
                }
                return Some(h);
            }
            k += 1;
        }
        None
    }
}

} // verus!
