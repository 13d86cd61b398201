use vstd::prelude::*;

use self::allocation_table::{bucket_of, indexed, lemma_indexed_frame, AllocationTable, BUCKETS};
use self::freelists::{bucketed, lemma_bucketed_frame, lemma_class_in_range, lemma_log2_floor_bounds, pow2, listed, log2_ceil, log2_floor, Freelists, LISTS};
use self::segment_list::SegmentList;

pub mod allocation_table;
pub mod freelists;
pub mod segment_list;
pub mod segment_queue;

verus! {

/// What a boundary tag describes.
#[derive(Clone, Copy, PartialEq, Eq, Structural, Debug)]
pub enum BtKind {
    /// A range handed to the arena from outside.
    Span,
    /// A range drawn from the parent arena.
    ImportedSpan,
    /// A free piece of a span.
    Free,
    /// An allocated piece of a span.
    Used,
}

/// A boundary tag: one record of the arena, for a span or for a piece of one.
#[derive(Clone, Copy, PartialEq, Eq, Structural, Debug)]
pub struct Bt {
    pub kind: BtKind,
    pub base: usize,
    pub len: usize,
}

impl Bt {
    pub open spec fn is_span(self) -> bool {
        self.kind == BtKind::Span || self.kind == BtKind::ImportedSpan
    }

    pub open spec fn is_free(self) -> bool {
        self.kind == BtKind::Free
    }

    pub open spec fn is_used(self) -> bool {
        self.kind == BtKind::Used
    }

    /// One past the last address of the tag.
    pub open spec fn end(self) -> int {
        self.base + self.len
    }
}


/// How `Vmem::allocate` picks the free tag to carve from.
#[derive(Clone, Copy, PartialEq, Eq, Structural, Debug)]
pub enum AllocPolicy {
    /// The front of the first nonempty bucket in which every tag fits.
    InstantFit,
    /// The shortest free tag that fits.
    BestFit,
    /// The first fitting free tag after the previous allocation.
    NextFit,
}

/// Where the tags after `t` start: at the base of a span, after the end of a piece.
pub open spec fn start_after(t: Bt) -> int {
    if t.is_span() {
        t.base as int
    } else {
        t.end()
    }
}

/// `s` tiles its spans, where `lim[k]` is the end of the span that position `k`
/// belongs to: each span is followed by at least one piece; the first piece
/// starts at the span's base, each further piece where the one before ends,
/// and the last piece ends where the span ends.
pub open spec fn tiled_with(s: Seq<Bt>, lim: Seq<int>) -> bool {
    &&& lim.len() == s.len()
    &&& s.len() > 0 ==> s[0].is_span()
    &&& forall|k: int|
        0 <= k < s.len() && (#[trigger] s[k]).is_span() ==> lim[k] == s[k].end() && k + 1 < s.len()
            && !s[k + 1].is_span()
    &&& forall|k: int|
        0 < k < s.len() && !(#[trigger] s[k]).is_span() ==> s[k].base == start_after(s[k - 1]) && lim[k]
            == lim[k - 1]
    &&& forall|k: int|
        0 <= k < s.len() && !(#[trigger] s[k]).is_span() && (k + 1 == s.len() || s[k + 1].is_span())
            ==> s[k].end() == lim[k]
}

/// The segment list tiles each span contiguously.
pub open spec fn tiled(s: Seq<Bt>) -> bool {
    exists|lim: Seq<int>| tiled_with(s, lim)
}

/// No two neighbouring tags are both free.
pub open spec fn coalesced(s: Seq<Bt>) -> bool {
    forall|k: int| 0 <= k && k + 1 < s.len() ==> !((#[trigger] s[k]).is_free() && s[k + 1].is_free())
}

/// The pieces of spans that cover any address do not overlap.
pub open spec fn disjoint(s: Seq<Bt>) -> bool {
    forall|i: int, j: int|
        0 <= i < s.len() && 0 <= j < s.len() && i != j && !(#[trigger] s[i]).is_span()
            && !(#[trigger] s[j]).is_span() && s[i].len > 0 && s[j].len > 0 ==> s[i].end() <= s[j].base
            || s[j].end() <= s[i].base
}

/// The range `[base, base + len)` meets no tag of `s`.
pub open spec fn clear_of(s: Seq<Bt>, base: int, len: int) -> bool {
    forall|k: int|
        0 <= k < s.len() && (#[trigger] s[k]).len > 0 && len > 0 ==> s[k].end() <= base || base + len
            <= s[k].base
}

/// The total length of the free tags of `s`.
pub open spec fn free_total(s: Seq<Bt>) -> int
    decreases s.len(),
{
    if s.len() == 0 {
        0
    } else {
        free_total(s.drop_last()) + if s.last().is_free() {
            s.last().len as int
        } else {
            0
        }
    }
}

pub proof fn lemma_free_total_concat(a: Seq<Bt>, b: Seq<Bt>)
    ensures
        free_total(a + b) == free_total(a) + free_total(b),
    decreases b.len(),
{
    if b.len() > 0 {
        lemma_free_total_concat(a, b.drop_last());
        assert((a + b).drop_last() =~= a + b.drop_last());
    } else {
        assert(a + b =~= a);
    }
}

/// `s` is `s0` with `sz` carved off the front of the free tag at `p`: a used tag
/// over the carved part, linked just before the free tag, which keeps the rest.
pub open spec fn carved(s0: Seq<Bt>, s: Seq<Bt>, p: int, sz: int) -> bool {
    &&& 0 <= p < s0.len()
    &&& s0[p].is_free()
    &&& s0[p].len >= sz
    &&& s == s0.update(
        p,
        Bt { kind: BtKind::Free, base: (s0[p].base + sz) as usize, len: (s0[p].len - sz) as usize },
    ).insert(p, Bt { kind: BtKind::Used, base: s0[p].base, len: sz as usize })
}

/// Position `p` of `s` is a free tag of at least `sz`.
pub open spec fn fits(s: Seq<Bt>, p: int, sz: int) -> bool {
    0 <= p < s.len() && s[p].is_free() && s[p].len >= sz
}

/// Position `p` of `s` is a free tag in a bucket from which instant-fit takes
/// tags for requests of `sz`.
pub open spec fn instant_candidate(s: Seq<Bt>, p: int, sz: int, q: int) -> bool {
    &&& 0 <= p < s.len()
    &&& s[p].is_free()
    &&& s[p].len > 0
    &&& log2_floor(s[p].len as nat / q as nat) >= log2_ceil(sz as nat / q as nat)
}

/// Position `p` is the first at or after `from` that fits `sz`.
pub open spec fn first_fit_from(s: Seq<Bt>, from: int, p: int, sz: int) -> bool {
    &&& from <= p
    &&& fits(s, p, sz)
    &&& forall|k: int| from <= k < p ==> !fits(s, k, sz)
}

proof fn lemma_free_total_carve(s0: Seq<Bt>, p: int, sz: int)
    requires
        0 <= p < s0.len(),
        s0[p].is_free(),
        s0[p].len >= sz >= 0,
    ensures
        ({
            let rest = Bt { kind: BtKind::Free, base: (s0[p].base + sz) as usize, len: (s0[p].len - sz) as usize };
            let used = Bt { kind: BtKind::Used, base: s0[p].base, len: sz as usize };
            free_total(s0.update(p, rest).insert(p, used)) == free_total(s0) - sz
        }),
{
    let t = s0[p];
    let rest = Bt { kind: BtKind::Free, base: (t.base + sz) as usize, len: (t.len - sz) as usize };
    let used = Bt { kind: BtKind::Used, base: t.base, len: sz as usize };
    let a = s0.subrange(0, p);
    let b = s0.subrange(p + 1, s0.len() as int);
    assert(s0 =~= a + seq![t] + b);
    assert(s0.update(p, rest).insert(p, used) =~= a + seq![used, rest] + b);
    lemma_free_total_concat(a + seq![t], b);
    lemma_free_total_concat(a, seq![t]);
    lemma_free_total_concat(a + seq![used, rest], b);
    lemma_free_total_concat(a, seq![used, rest]);
    reveal_with_fuel(free_total, 3);
    assert(seq![used, rest].drop_last() =~= seq![used]);
    assert(seq![used].drop_last() =~= Seq::<Bt>::empty());
    assert(seq![t].drop_last() =~= Seq::<Bt>::empty());
}

/// What any allocation of `size` from segment list `s0` leaves, as `s1`, and
/// returns, as `r`: nothing changes on `None`, and `Some` carves the rounded
/// size off the front of a free tag and returns its base.
pub open spec fn alloc_result(s0: Seq<Bt>, s1: Seq<Bt>, q: int, size: usize, r: Option<usize>) -> bool {
    let sz = round_up(size as int, q);
    &&& r.is_none() ==> s1 == s0
    &&& (size == 0 || sz > usize::MAX) ==> r.is_none()
    &&& r.is_some() ==> size > 0 && exists|p: int| carved(s0, s1, p, sz) && s0[p].base == r.unwrap()
}

/// What a best-fit allocation adds: it succeeds exactly when some free tag is
/// long enough, and carves from one of least length among those.
pub open spec fn best_fit_result(s0: Seq<Bt>, s1: Seq<Bt>, q: int, size: usize, r: Option<usize>) -> bool {
    let sz = round_up(size as int, q);
    &&& r.is_some() <==> size > 0 && exists|p: int| fits(s0, p, sz)
    &&& r.is_some() ==> exists|p: int|
        carved(s0, s1, p, sz) && s0[p].base == r.unwrap() && forall|k: int|
            fits(s0, k, sz) ==> s0[p].len <= #[trigger] s0[k].len
}

/// `size` rounded up to a multiple of `quantum`.
pub open spec fn round_up(size: int, quantum: int) -> int {
    if size % quantum == 0 {
        size
    } else {
        size - size % quantum + quantum
    }
}

/// Each span is nonempty and starts no lower than the end of the span before it.
pub open spec fn spans_ordered(s: Seq<Bt>, lim: Seq<int>) -> bool {
    forall|k: int|
        0 <= k < s.len() && (#[trigger] s[k]).is_span() ==> s[k].len > 0 && (k > 0 ==> s[k].base >= lim[k - 1])
}

/// The tags of `s` come in order of their bases.
pub open spec fn sorted_by_base(s: Seq<Bt>) -> bool {
    forall|k: int| 0 <= k && k + 1 < s.len() ==> (#[trigger] s[k]).base <= s[k + 1].base
}

/// What the arena keeps true of its segment list `s`, where `lim[k]` is the
/// end of the span of position `k`.
#[verifier::opaque]
pub open spec fn list_props(s: Seq<Bt>, lim: Seq<int>, q: usize) -> bool {
    &&& tiled_with(s, lim)
    &&& spans_ordered(s, lim)
    &&& coalesced(s)
    &&& disjoint(s)
    &&& forall|k: int|
        0 <= k < s.len() && !(#[trigger] s[k]).is_span() ==> s[k].base % q == 0 && s[k].len % q == 0
    &&& forall|k: int| 0 <= k < s.len() && (#[trigger] s[k]).is_used() ==> s[k].len > 0
    &&& forall|k: int| 0 <= k < s.len() ==> (#[trigger] s[k]).end() <= usize::MAX
}

/// What `list_props` says of position `k`.
proof fn lemma_props_at(s: Seq<Bt>, lim: Seq<int>, q: usize, k: int)
    requires
        list_props(s, lim, q),
        0 <= k < s.len(),
    ensures
        lim.len() == s.len(),
        s[0].is_span(),
        s[k].is_span() ==> lim[k] == s[k].end() && k + 1 < s.len() && !s[k + 1].is_span(),
        k > 0 && !s[k].is_span() ==> s[k].base == start_after(s[k - 1]) && lim[k] == lim[k - 1],
        !s[k].is_span() && (k + 1 == s.len() || s[k + 1].is_span()) ==> s[k].end() == lim[k],
        k + 1 < s.len() ==> !(s[k].is_free() && s[k + 1].is_free()),
        !s[k].is_span() ==> s[k].base % q == 0 && s[k].len % q == 0,
        s[k].is_used() ==> s[k].len > 0,
        s[k].end() <= usize::MAX,
        s[k].is_span() ==> s[k].len > 0 && (k > 0 ==> s[k].base >= lim[k - 1]),
{
    reveal(list_props);
}

/// What `list_props` says of positions `i` and `j`.
proof fn lemma_props_apart(s: Seq<Bt>, lim: Seq<int>, q: usize, i: int, j: int)
    requires
        list_props(s, lim, q),
        0 <= i < s.len(),
        0 <= j < s.len(),
        i != j,
        !s[i].is_span(),
        !s[j].is_span(),
        s[i].len > 0,
        s[j].len > 0,
    ensures
        s[i].end() <= s[j].base || s[j].end() <= s[i].base,
{
    reveal(list_props);
}

/// The position at which a span at `base` goes: the first span that starts at
/// or above `base`, or the end of the list.
pub open spec fn span_slot(s: Seq<Bt>, base: int, j: int) -> bool {
    &&& 0 <= j <= s.len()
    &&& j < s.len() ==> s[j].is_span() && s[j].base >= base
    &&& forall|k: int| 0 <= k < j && (#[trigger] s[k]).is_span() ==> s[k].base < base
}

/// `s0` with `span` and then `free` linked in at position `j`.
pub open spec fn with_span(s0: Seq<Bt>, j: int, span: Bt, free: Bt) -> Seq<Bt> {
    s0.insert(j, free).insert(j, span)
}

/// The list with a span linked in at `j`, position by position.
proof fn lemma_insert_index(s0: Seq<Bt>, lim0: Seq<int>, q: usize, j: int, span: Bt, free: Bt)
    requires
        list_props(s0, lim0, q),
        0 <= j <= s0.len(),
    ensures
        ({
            let s = with_span(s0, j, span, free);
            let lim = lim0.insert(j, span.end()).insert(j, span.end());
            &&& s.len() == s0.len() + 2
            &&& lim.len() == s.len()
            &&& forall|k: int| 0 <= k < s.len() ==> #[trigger] s[k] == (if k < j {
                s0[k]
            } else if k == j {
                span
            } else if k == j + 1 {
                free
            } else {
                s0[k - 2]
            })
            &&& forall|k: int| 0 <= k < s.len() ==> #[trigger] lim[k] == (if k < j {
                lim0[k]
            } else if k <= j + 1 {
                span.end()
            } else {
                lim0[k - 2]
            })
        }),
{
    reveal(list_props);
    let s = with_span(s0, j, span, free);
    let lim = lim0.insert(j, span.end()).insert(j, span.end());
    assert forall|k: int| 0 <= k < s.len() implies #[trigger] s[k] == (if k < j {
        s0[k]
    } else if k == j {
        span
    } else if k == j + 1 {
        free
    } else {
        s0[k - 2]
    }) by {}
    assert forall|k: int| 0 <= k < s.len() implies #[trigger] lim[k] == (if k < j {
        lim0[k]
    } else if k <= j + 1 {
        span.end()
    } else {
        lim0[k - 2]
    }) by {}
}

#[verifier::rlimit(100)]
proof fn lemma_insert_tiled(s0: Seq<Bt>, lim0: Seq<int>, q: usize, j: int, span: Bt, free: Bt)
    requires
        list_props(s0, lim0, q),
        span.is_span(),
        span.len > 0,
        free == (Bt { kind: BtKind::Free, base: span.base, len: span.len }),
        span.base % q == 0,
        span.len % q == 0,
        span.end() <= usize::MAX,
        clear_of(s0, span.base as int, span.len as int),
        0 <= j <= s0.len(),
        j < s0.len() ==> s0[j].is_span() && s0[j].base >= span.end(),
        j > 0 ==> lim0[j - 1] <= span.base,
    ensures
        tiled_with(with_span(s0, j, span, free), lim0.insert(j, span.end()).insert(j, span.end())),
{
    let s = with_span(s0, j, span, free);
    let e = span.end();
    let lim = lim0.insert(j, e).insert(j, e);
    let n = s0.len();
    lemma_insert_index(s0, lim0, q, j, span, free);
    if j > 0 {
        lemma_props_at(s0, lim0, q, j - 1);
    }
    if j < n {
        lemma_props_at(s0, lim0, q, j);
    }
    assert(tiled_with(s, lim)) by {
        assert forall|k: int|
            0 <= k < s.len() && (#[trigger] s[k]).is_span() implies lim[k] == s[k].end() && k + 1 < s.len()
                && !s[k + 1].is_span() by {
            if k < j {
                lemma_props_at(s0, lim0, q, k);
            } else if k > j + 1 {
                lemma_props_at(s0, lim0, q, k - 2);
            }
        }
        assert forall|k: int|
            0 < k < s.len() && !(#[trigger] s[k]).is_span() implies s[k].base == start_after(s[k - 1])
                && lim[k] == lim[k - 1] by {
            if k < j {
                lemma_props_at(s0, lim0, q, k);
            } else if k > j + 2 {
                lemma_props_at(s0, lim0, q, k - 2);
            }
        }
        assert forall|k: int|
            0 <= k < s.len() && !(#[trigger] s[k]).is_span() && (k + 1 == s.len() || s[k + 1].is_span())
                implies s[k].end() == lim[k] by {
            if k < j {
                lemma_props_at(s0, lim0, q, k);
            } else if k > j + 1 {
                lemma_props_at(s0, lim0, q, k - 2);
            }
        }
    }
}

#[verifier::rlimit(100)]
proof fn lemma_insert_others(s0: Seq<Bt>, lim0: Seq<int>, q: usize, j: int, span: Bt, free: Bt)
    requires
        list_props(s0, lim0, q),
        span.is_span(),
        span.len > 0,
        free == (Bt { kind: BtKind::Free, base: span.base, len: span.len }),
        span.base % q == 0,
        span.len % q == 0,
        span.end() <= usize::MAX,
        clear_of(s0, span.base as int, span.len as int),
        0 <= j <= s0.len(),
        j < s0.len() ==> s0[j].is_span() && s0[j].base >= span.end(),
        j > 0 ==> lim0[j - 1] <= span.base,
    ensures
        ({
            let s = with_span(s0, j, span, free);
            let lim = lim0.insert(j, span.end()).insert(j, span.end());
            &&& spans_ordered(s, lim)
            &&& coalesced(s)
            &&& disjoint(s)
            &&& forall|k: int|
                0 <= k < s.len() && !(#[trigger] s[k]).is_span() ==> s[k].base % q == 0 && s[k].len % q == 0
            &&& forall|k: int| 0 <= k < s.len() && (#[trigger] s[k]).is_used() ==> s[k].len > 0
            &&& forall|k: int| 0 <= k < s.len() ==> (#[trigger] s[k]).end() <= usize::MAX
        }),
{
    let s = with_span(s0, j, span, free);
    let e = span.end();
    let lim = lim0.insert(j, e).insert(j, e);
    let n = s0.len();
    lemma_insert_index(s0, lim0, q, j, span, free);
    if j > 0 {
        lemma_props_at(s0, lim0, q, j - 1);
    }
    if j < n {
        lemma_props_at(s0, lim0, q, j);
    }
    assert(spans_ordered(s, lim)) by {
        assert forall|k: int| 0 <= k < s.len() && (#[trigger] s[k]).is_span() implies s[k].len > 0 && (k > 0
            ==> s[k].base >= lim[k - 1]) by {
            if k < j {
                lemma_props_at(s0, lim0, q, k);
            } else if k > j + 1 {
                lemma_props_at(s0, lim0, q, k - 2);
            }
        }
    }
    assert(coalesced(s)) by {
        assert forall|k: int| 0 <= k && k + 1 < s.len() implies !((#[trigger] s[k]).is_free()
            && s[k + 1].is_free()) by {
            if k + 1 < j {
                lemma_props_at(s0, lim0, q, k);
            } else if k > j + 1 {
                lemma_props_at(s0, lim0, q, k - 2);
            }
        }
    }
    assert(disjoint(s)) by {
        assert forall|a: int, b: int|
            0 <= a < s.len() && 0 <= b < s.len() && a != b && !(#[trigger] s[a]).is_span()
                && !(#[trigger] s[b]).is_span() && s[a].len > 0 && s[b].len > 0 implies s[a].end()
            <= s[b].base || s[b].end() <= s[a].base by {
            let oa = if a < j { a } else { a - 2 };
            let ob = if b < j { b } else { b - 2 };
            if a != j + 1 && b != j + 1 {
                lemma_props_apart(s0, lim0, q, oa, ob);
            }
        }
    }
    assert forall|k: int| 0 <= k < s.len() && !(#[trigger] s[k]).is_span() implies s[k].base % q == 0
        && s[k].len % q == 0 by {
        if k < j {
            lemma_props_at(s0, lim0, q, k);
        } else if k > j + 1 {
            lemma_props_at(s0, lim0, q, k - 2);
        }
    }
    assert forall|k: int| 0 <= k < s.len() && (#[trigger] s[k]).is_used() implies s[k].len > 0 by {
        if k < j {
            lemma_props_at(s0, lim0, q, k);
        } else if k > j + 1 {
            lemma_props_at(s0, lim0, q, k - 2);
        }
    }
    assert forall|k: int| 0 <= k < s.len() implies (#[trigger] s[k]).end() <= usize::MAX by {
        if k < j {
            lemma_props_at(s0, lim0, q, k);
        } else if k > j + 1 {
            lemma_props_at(s0, lim0, q, k - 2);
        }
    }
}

/// Linking a span and a free tag over the whole of it at its place keeps the
/// list's properties.
proof fn lemma_list_insert_span(s0: Seq<Bt>, lim0: Seq<int>, q: usize, j: int, span: Bt, free: Bt)
    requires
        list_props(s0, lim0, q),
        span.is_span(),
        span.len > 0,
        free == (Bt { kind: BtKind::Free, base: span.base, len: span.len }),
        span.base % q == 0,
        span.len % q == 0,
        span.end() <= usize::MAX,
        clear_of(s0, span.base as int, span.len as int),
        0 <= j <= s0.len(),
        j < s0.len() ==> s0[j].is_span() && s0[j].base >= span.end(),
        j > 0 ==> lim0[j - 1] <= span.base,
    ensures
        list_props(with_span(s0, j, span, free), lim0.insert(j, span.end()).insert(j, span.end()), q),
{
    lemma_insert_tiled(s0, lim0, q, j, span, free);
    lemma_insert_others(s0, lim0, q, j, span, free);
    lemma_props_intro(with_span(s0, j, span, free), lim0.insert(j, span.end()).insert(j, span.end()), q);
}

proof fn lemma_free_total_with_span(s0: Seq<Bt>, j: int, span: Bt, free: Bt)
    requires
        0 <= j <= s0.len(),
        span.is_span(),
        free.is_free(),
    ensures
        free_total(with_span(s0, j, span, free)) == free_total(s0) + free.len,
{
    let a = s0.subrange(0, j);
    let b = s0.subrange(j, s0.len() as int);
    assert(s0 =~= a + b);
    assert(with_span(s0, j, span, free) =~= a + seq![span, free] + b);
    lemma_free_total_concat(a, b);
    lemma_free_total_concat(a + seq![span, free], b);
    lemma_free_total_concat(a, seq![span, free]);
    reveal_with_fuel(free_total, 3);
    assert(seq![span, free].drop_last() =~= seq![span]);
    assert(seq![span].drop_last() =~= Seq::<Bt>::empty());
}

/// The end of the span that position `k` belongs to, found by walking back.
proof fn lemma_group_span(s: Seq<Bt>, lim: Seq<int>, q: usize, k: int) -> (i: int)
    requires
        list_props(s, lim, q),
        0 <= k < s.len(),
    ensures
        0 <= i <= k,
        s[i].is_span(),
        lim[k] == s[i].end(),
    decreases k,
{
    lemma_props_at(s, lim, q, k);
    if s[k].is_span() {
        k
    } else {
        lemma_group_span(s, lim, q, k - 1)
    }
}

/// A span slot for a range clear of the list is a place where the range fits.
proof fn lemma_slot_fits(s: Seq<Bt>, lim: Seq<int>, q: usize, j: int, base: int, len: int)
    requires
        list_props(s, lim, q),
        len > 0,
        clear_of(s, base, len),
        span_slot(s, base, j),
    ensures
        j < s.len() ==> s[j].base >= base + len,
        j > 0 ==> lim[j - 1] <= base,
{
    if j < s.len() {
        lemma_props_at(s, lim, q, j);
    }
    if j > 0 {
        let i = lemma_group_span(s, lim, q, j - 1);
        lemma_props_at(s, lim, q, i);
    }
}

/// Sums and differences of multiples of `q` are multiples of `q`.
proof fn lemma_mod_add_sub(a: int, b: int, q: int)
    requires
        q > 0,
        a % q == 0,
        b % q == 0,
    ensures
        (a + b) % q == 0,
        (a - b) % q == 0,
{
    assert(a == q * (a / q)) by (nonlinear_arith)
        requires q > 0, a % q == 0;
    assert(b == q * (b / q)) by (nonlinear_arith)
        requires q > 0, b % q == 0;
    assert(a + b == (a / q + b / q) * q) by (nonlinear_arith)
        requires a == q * (a / q), b == q * (b / q);
    assert(a - b == (a / q - b / q) * q) by (nonlinear_arith)
        requires a == q * (a / q), b == q * (b / q);
    vstd::arithmetic::div_mod::lemma_mod_multiples_basic(a / q + b / q, q);
    vstd::arithmetic::div_mod::lemma_mod_multiples_basic(a / q - b / q, q);
}

/// The split keeps the tiling.
#[verifier::rlimit(100)]
proof fn lemma_split_tiled(s0: Seq<Bt>, lim0: Seq<int>, q: usize, pos: int, sz: usize)
    requires
        list_props(s0, lim0, q),
        q > 0,
        0 <= pos < s0.len(),
        s0[pos].is_free(),
        s0[pos].len >= sz,
        sz > 0,
        sz % q == 0,
    ensures
        ({
            let t = s0[pos];
            let used = Bt { kind: BtKind::Used, base: t.base, len: sz };
            let rest = Bt { kind: BtKind::Free, base: (t.base + sz) as usize, len: (t.len - sz) as usize };
            tiled_with(s0.update(pos, rest).insert(pos, used), lim0.insert(pos, lim0[pos]))
        }),
{
    let t = s0[pos];
    lemma_props_at(s0, lim0, q, pos);
    lemma_props_at(s0, lim0, q, 0);
    lemma_props_at(s0, lim0, q, pos - 1);
    if pos + 1 < s0.len() {
        lemma_props_at(s0, lim0, q, pos + 1);
    }
    let used = Bt { kind: BtKind::Used, base: t.base, len: sz };
    let rest = Bt { kind: BtKind::Free, base: (t.base + sz) as usize, len: (t.len - sz) as usize };
    let s = s0.update(pos, rest).insert(pos, used);
    let lim = lim0.insert(pos, lim0[pos]);
    assert(t.end() <= usize::MAX);
    assert(pos > 0);
    assert forall|k: int| 0 <= k < s.len() implies #[trigger] s[k] == (if k < pos {
        s0[k]
    } else if k == pos {
        used
    } else if k == pos + 1 {
        rest
    } else {
        s0[k - 1]
    }) && lim[k] == (if k <= pos {
        lim0[k]
    } else {
        lim0[k - 1]
    }) by {}
    assert(tiled_with(s, lim)) by {
        assert forall|k: int|
            0 <= k < s.len() && (#[trigger] s[k]).is_span() implies lim[k] == s[k].end() && k + 1 < s.len()
                && !s[k + 1].is_span() by {
            if k < pos {
                assert(s[k] == s0[k]);
                lemma_props_at(s0, lim0, q, k);
                if k + 1 < pos {
                    assert(s[k + 1] == s0[k + 1]);
                }
            } else {
                assert(s[k] == s0[k - 1]);
                lemma_props_at(s0, lim0, q, k - 1);
                assert(s[k + 1] == s0[k]);
            }
        }
        assert forall|k: int|
            0 < k < s.len() && !(#[trigger] s[k]).is_span() implies s[k].base == start_after(s[k - 1])
                && lim[k] == lim[k - 1] by {
            if k < pos {
                assert(s[k] == s0[k] && s[k - 1] == s0[k - 1]);
                lemma_props_at(s0, lim0, q, k);
            } else if k == pos {
                assert(s[k - 1] == s0[k - 1]);
                assert(s0[pos] == t);
            } else if k == pos + 1 {
            } else if k == pos + 2 {
                assert(s[k] == s0[pos + 1]);
                assert(!s0[pos + 1].is_span());
            } else {
                assert(s[k] == s0[k - 1] && s[k - 1] == s0[k - 2]);
                lemma_props_at(s0, lim0, q, k - 1);
            }
        }
        assert forall|k: int|
            0 <= k < s.len() && !(#[trigger] s[k]).is_span() && (k + 1 == s.len() || s[k + 1].is_span())
                implies s[k].end() == lim[k] by {
            if k < pos {
                assert(s[k] == s0[k]);
                lemma_props_at(s0, lim0, q, k);
                if k + 1 < pos {
                    assert(s[k + 1] == s0[k + 1]);
                }
            } else if k == pos {
            } else if k == pos + 1 {
                if k + 1 < s.len() {
                    assert(s[k + 1] == s0[pos + 1]);
                }
            } else {
                assert(s[k] == s0[k - 1]);
                lemma_props_at(s0, lim0, q, k - 1);
                if k + 1 < s.len() {
                    assert(s[k + 1] == s0[k]);
                }
            }
        }
    }
}

/// The split keeps the tags apart and coalesced.
#[verifier::rlimit(100)]
proof fn lemma_split_apart(s0: Seq<Bt>, lim0: Seq<int>, q: usize, pos: int, sz: usize)
    requires
        list_props(s0, lim0, q),
        q > 0,
        0 <= pos < s0.len(),
        s0[pos].is_free(),
        s0[pos].len >= sz,
        sz > 0,
        sz % q == 0,
    ensures
        ({
            let t = s0[pos];
            let used = Bt { kind: BtKind::Used, base: t.base, len: sz };
            let rest = Bt { kind: BtKind::Free, base: (t.base + sz) as usize, len: (t.len - sz) as usize };
            coalesced(s0.update(pos, rest).insert(pos, used)) && disjoint(s0.update(pos, rest).insert(pos, used))
        }),
{
    reveal(list_props);
    let t = s0[pos];
    let used = Bt { kind: BtKind::Used, base: t.base, len: sz };
    let rest = Bt { kind: BtKind::Free, base: (t.base + sz) as usize, len: (t.len - sz) as usize };
    let s = s0.update(pos, rest).insert(pos, used);
    let lim = lim0.insert(pos, lim0[pos]);
    assert(t.end() <= usize::MAX);
    assert(pos > 0);
    assert forall|k: int| 0 <= k < s.len() implies #[trigger] s[k] == (if k < pos {
        s0[k]
    } else if k == pos {
        used
    } else if k == pos + 1 {
        rest
    } else {
        s0[k - 1]
    }) && lim[k] == (if k <= pos {
        lim0[k]
    } else {
        lim0[k - 1]
    }) by {}
    assert(coalesced(s)) by {
        assert forall|k: int| 0 <= k && k + 1 < s.len() implies !((#[trigger] s[k]).is_free() && s[k
            + 1].is_free()) by {
            if k + 1 < pos {
                assert(s[k] == s0[k] && s[k + 1] == s0[k + 1]);
            } else if k == pos + 1 {
                assert(s[k + 1] == s0[pos + 1]);
            } else if k > pos + 1 {
                assert(s[k] == s0[k - 1] && s[k + 1] == s0[k]);
            }
        }
    }
    assert(disjoint(s)) by {
        assert forall|i: int, j: int|
            0 <= i < s.len() && 0 <= j < s.len() && i != j && !(#[trigger] s[i]).is_span()
                && !(#[trigger] s[j]).is_span() && s[i].len > 0 && s[j].len > 0 implies s[i].end()
            <= s[j].base || s[j].end() <= s[i].base by {
            let oi = if i <= pos {
                i
            } else {
                i - 1
            };
            let oj = if j <= pos {
                j
            } else {
                j - 1
            };
            assert(s0[oi].base <= s[i].base && s[i].end() <= s0[oi].end());
            assert(s0[oj].base <= s[j].base && s[j].end() <= s0[oj].end());
            if oi != oj {
                assert(!s0[oi].is_span() && !s0[oj].is_span());
            }
        }
    }
}

/// Carving `sz` off the front of the free tag at `pos` keeps the list's properties.
#[verifier::rlimit(100)]
proof fn lemma_list_split(s0: Seq<Bt>, lim0: Seq<int>, q: usize, pos: int, sz: usize)
    requires
        list_props(s0, lim0, q),
        q > 0,
        0 <= pos < s0.len(),
        s0[pos].is_free(),
        s0[pos].len >= sz,
        sz > 0,
        sz % q == 0,
    ensures
        ({
            let t = s0[pos];
            let used = Bt { kind: BtKind::Used, base: t.base, len: sz };
            let rest = Bt { kind: BtKind::Free, base: (t.base + sz) as usize, len: (t.len - sz) as usize };
            list_props(s0.update(pos, rest).insert(pos, used), lim0.insert(pos, lim0[pos]), q)
        }),
{
    let t = s0[pos];
    let used = Bt { kind: BtKind::Used, base: t.base, len: sz };
    let rest = Bt { kind: BtKind::Free, base: (t.base + sz) as usize, len: (t.len - sz) as usize };
    let s = s0.update(pos, rest).insert(pos, used);
    let lim = lim0.insert(pos, lim0[pos]);
    lemma_props_at(s0, lim0, q, pos);
    lemma_props_at(s0, lim0, q, 0);
    assert(pos > 0);
    lemma_mod_add_sub(t.base as int, sz as int, q as int);
    lemma_mod_add_sub(t.len as int, sz as int, q as int);
    assert forall|k: int| 0 <= k < s.len() && !(#[trigger] s[k]).is_span() implies s[k].base % q == 0
        && s[k].len % q == 0 by {
        if k < pos {
            assert(s[k] == s0[k]);
            lemma_props_at(s0, lim0, q, k);
        } else if k > pos + 1 {
            assert(s[k] == s0[k - 1]);
            lemma_props_at(s0, lim0, q, k - 1);
        }
    }
    assert forall|k: int| 0 <= k < s.len() && (#[trigger] s[k]).is_used() implies s[k].len > 0 by {
        if k < pos {
            assert(s[k] == s0[k]);
            lemma_props_at(s0, lim0, q, k);
        } else if k > pos + 1 {
            assert(s[k] == s0[k - 1]);
            lemma_props_at(s0, lim0, q, k - 1);
        }
    }
    assert forall|k: int| 0 <= k < s.len() implies (#[trigger] s[k]).end() <= usize::MAX by {
        if k < pos {
            assert(s[k] == s0[k]);
            lemma_props_at(s0, lim0, q, k);
        } else if k > pos + 1 {
            assert(s[k] == s0[k - 1]);
            lemma_props_at(s0, lim0, q, k - 1);
        }
    }
    lemma_split_tiled(s0, lim0, q, pos, sz);
    lemma_split_apart(s0, lim0, q, pos, sz);
    lemma_split_order(s0, lim0, q, pos, sz);
    lemma_props_intro(s, lim, q);
}

/// Where the run of tags that freeing position `p` of `s0` merges begins: at
/// a free tag before it, if there is one.
pub open spec fn merge_lo(s0: Seq<Bt>, p: int) -> int {
    if p > 0 && s0[p - 1].is_free() {
        p - 1
    } else {
        p
    }
}

/// One past where that run ends: after a free tag behind it, if there is one.
pub open spec fn merge_hi(s0: Seq<Bt>, p: int) -> int {
    if p + 1 < s0.len() && s0[p + 1].is_free() {
        p + 2
    } else {
        p + 1
    }
}

/// The free tag that covers the whole run.
pub open spec fn merged_tag(s0: Seq<Bt>, p: int) -> Bt {
    let lo = merge_lo(s0, p);
    let hi = merge_hi(s0, p);
    Bt {
        kind: BtKind::Free,
        base: s0[lo].base,
        len: (s0[hi - 1].end() - s0[lo].base) as usize,
    }
}

/// `s` is `s0` after freeing the used tag at `p`: the tag and its free
/// neighbours are one free tag.
pub open spec fn freed(s0: Seq<Bt>, s: Seq<Bt>, p: int) -> bool {
    &&& 0 <= p < s0.len()
    &&& s0[p].is_used()
    &&& s == merged_list(s0, p)
}

/// `s0` with the run around `p` replaced by the tag that covers it.
#[verifier::opaque]
pub open spec fn merged_list(s0: Seq<Bt>, p: int) -> Seq<Bt> {
    s0.subrange(0, merge_lo(s0, p)) + seq![merged_tag(s0, p)] + s0.subrange(merge_hi(s0, p), s0.len() as int)
}

/// The span ends of the positions of `merged_list(s0, p)`.
#[verifier::opaque]
pub open spec fn merged_limits(lim0: Seq<int>, s0: Seq<Bt>, p: int) -> Seq<int> {
    lim0.subrange(0, merge_lo(s0, p)) + seq![lim0[merge_lo(s0, p)]] + lim0.subrange(merge_hi(s0, p), lim0.len() as int)
}

/// The merged list, written out position by position.
proof fn lemma_merge_index(s0: Seq<Bt>, lim0: Seq<int>, p: int)
    requires
        0 < p < s0.len(),
        lim0.len() == s0.len(),
    ensures
        ({
            let lo = merge_lo(s0, p);
            let hi = merge_hi(s0, p);
            let s = merged_list(s0, p);
            let lim = merged_limits(lim0, s0, p);
            &&& s.len() == s0.len() - (hi - lo - 1)
            &&& lim.len() == s.len()
            &&& forall|k: int| 0 <= k < s.len() ==> #[trigger] s[k] == (if k < lo {
                s0[k]
            } else if k == lo {
                merged_tag(s0, p)
            } else {
                s0[k + (hi - lo - 1)]
            })
            &&& forall|k: int| 0 <= k < s.len() ==> #[trigger] lim[k] == (if k <= lo {
                lim0[k]
            } else {
                lim0[k + (hi - lo - 1)]
            })
        }),
{
    reveal(merged_list);
    reveal(merged_limits);
}

/// Freeing the used tag at `p` and merging it with its free neighbours keeps
/// the list's properties.
#[verifier::rlimit(100)]
proof fn lemma_list_merge(s0: Seq<Bt>, lim0: Seq<int>, q: usize, p: int)
    requires
        list_props(s0, lim0, q),
        q > 0,
        0 <= p < s0.len(),
        s0[p].is_used(),
    ensures
        list_props(
            merged_list(s0, p),
            merged_limits(lim0, s0, p),
            q,
        ),
{
    lemma_merge_run(s0, lim0, q, p);
    lemma_merge_tiled_a(s0, lim0, q, p);
    lemma_merge_tiled_b(s0, lim0, q, p);
    lemma_merge_tiled_c(s0, lim0, q, p);
    lemma_merge_coalesced(s0, lim0, q, p);
    lemma_merge_disjoint(s0, lim0, q, p);
    lemma_merge_plain(s0, lim0, q, p);
    lemma_merge_order(s0, lim0, q, p);
    let s = merged_list(s0, p);
    let lim = merged_limits(lim0, s0, p);
    assert(tiled_with(s, lim));
    lemma_props_intro(s, lim, q);
}

/// The split keeps the spans in order.
proof fn lemma_split_order(s0: Seq<Bt>, lim0: Seq<int>, q: usize, pos: int, sz: usize)
    requires
        list_props(s0, lim0, q),
        q > 0,
        0 <= pos < s0.len(),
        s0[pos].is_free(),
        s0[pos].len >= sz,
        sz > 0,
    ensures
        ({
            let t = s0[pos];
            let used = Bt { kind: BtKind::Used, base: t.base, len: sz };
            let rest = Bt { kind: BtKind::Free, base: (t.base + sz) as usize, len: (t.len - sz) as usize };
            spans_ordered(s0.update(pos, rest).insert(pos, used), lim0.insert(pos, lim0[pos]))
        }),
{
    let t = s0[pos];
    let used = Bt { kind: BtKind::Used, base: t.base, len: sz };
    let rest = Bt { kind: BtKind::Free, base: (t.base + sz) as usize, len: (t.len - sz) as usize };
    let s = s0.update(pos, rest).insert(pos, used);
    let lim = lim0.insert(pos, lim0[pos]);
    lemma_props_at(s0, lim0, q, pos);
    assert forall|k: int| 0 <= k < s.len() && (#[trigger] s[k]).is_span() implies s[k].len > 0 && (k > 0
        ==> s[k].base >= lim[k - 1]) by {
        if k < pos {
            assert(s[k] == s0[k]);
            lemma_props_at(s0, lim0, q, k);
            if k > 0 {
                assert(lim[k - 1] == lim0[k - 1]);
            }
        } else {
            assert(k > pos + 1);
            assert(s[k] == s0[k - 1]);
            lemma_props_at(s0, lim0, q, k - 1);
            assert(lim[k - 1] == lim0[k - 2]);
        }
    }
}

/// The merge keeps the spans in order.
proof fn lemma_merge_order(s0: Seq<Bt>, lim0: Seq<int>, q: usize, p: int)
    requires
        list_props(s0, lim0, q),
        q > 0,
        0 <= p < s0.len(),
        s0[p].is_used(),
    ensures
        spans_ordered(merged_list(s0, p), merged_limits(lim0, s0, p)),
{
    lemma_merge_run(s0, lim0, q, p);
    lemma_merge_index(s0, lim0, p);
    let lo = merge_lo(s0, p);
    let hi = merge_hi(s0, p);
    let d = hi - lo - 1;
    let s = merged_list(s0, p);
    let lim = merged_limits(lim0, s0, p);
    assert forall|k: int| 0 <= k < s.len() && (#[trigger] s[k]).is_span() implies s[k].len > 0 && (k > 0
        ==> s[k].base >= lim[k - 1]) by {
        if k < lo {
            assert(s[k] == s0[k]);
            lemma_props_at(s0, lim0, q, k);
        } else {
            assert(k > lo);
            assert(s[k] == s0[k + d]);
            lemma_props_at(s0, lim0, q, k + d);
        }
    }
}

/// The tags of a list with the arena's properties come in order of their bases.
proof fn lemma_props_sorted(s: Seq<Bt>, lim: Seq<int>, q: usize)
    requires
        list_props(s, lim, q),
    ensures
        sorted_by_base(s),
{
    assert forall|k: int| 0 <= k && k + 1 < s.len() implies (#[trigger] s[k]).base <= s[k + 1].base by {
        lemma_props_at(s, lim, q, k);
        lemma_props_at(s, lim, q, k + 1);
    }
}

/// In a list sorted by base, an earlier tag has no higher base than a later one.
pub proof fn lemma_sorted_pairwise(s: Seq<Bt>, i: int, j: int)
    requires
        sorted_by_base(s),
        0 <= i <= j < s.len(),
    ensures
        s[i].base <= s[j].base,
    decreases j - i,
{
    if i < j {
        lemma_sorted_pairwise(s, i, j - 1);
        assert(s[j - 1].base <= s[j].base);
    }
}

/// Gathers the properties of a list into `list_props`.
proof fn lemma_props_intro(s: Seq<Bt>, lim: Seq<int>, q: usize)
    requires
        tiled_with(s, lim),
        coalesced(s),
        disjoint(s),
        forall|k: int|
            0 <= k < s.len() && !(#[trigger] s[k]).is_span() ==> s[k].base % q == 0 && s[k].len % q == 0,
        forall|k: int| 0 <= k < s.len() && (#[trigger] s[k]).is_used() ==> s[k].len > 0,
        forall|k: int| 0 <= k < s.len() ==> (#[trigger] s[k]).end() <= usize::MAX,
        spans_ordered(s, lim),
    ensures
        list_props(s, lim, q),
{
    reveal(list_props);
}

/// The tags of the run lie end to end, and their union is aligned.
proof fn lemma_merge_run(s0: Seq<Bt>, lim0: Seq<int>, q: usize, p: int)
    requires
        list_props(s0, lim0, q),
        q > 0,
        0 <= p < s0.len(),
        s0[p].is_used(),
    ensures
        p > 0,
        lim0.len() == s0.len(),
        s0[p].len > 0,
        s0[0].is_span(),
        merge_lo(s0, p) < p ==> s0[p].base == s0[p - 1].end() && lim0[p] == lim0[p - 1] && !s0[p - 1].is_span(),
        merge_hi(s0, p) > p + 1 ==> s0[p + 1].base == s0[p].end() && lim0[p + 1] == lim0[p],
        s0[merge_hi(s0, p) - 1].end() <= usize::MAX,
        merge_lo(s0, p) > 0,
        !s0[merge_lo(s0, p) - 1].is_free(),
        merge_hi(s0, p) < s0.len() ==> !s0[merge_hi(s0, p)].is_free(),
        merged_tag(s0, p).end() == s0[merge_hi(s0, p) - 1].end(),
        merged_tag(s0, p).len == (if merge_lo(s0, p) < p {
            s0[p - 1].len as int
        } else {
            0
        }) + s0[p].len + (if merge_hi(s0, p) > p + 1 {
            s0[p + 1].len as int
        } else {
            0
        }),
        merged_tag(s0, p).len % q == 0,
        merged_tag(s0, p).base % q == 0,
        merged_tag(s0, p).len > 0,
        lim0[merge_hi(s0, p) - 1] == lim0[merge_lo(s0, p)],
{
    lemma_props_at(s0, lim0, q, p);
    assert(p > 0);
    lemma_props_at(s0, lim0, q, p - 1);
    if p >= 2 {
        lemma_props_at(s0, lim0, q, p - 2);
    }
    if p + 1 < s0.len() {
        lemma_props_at(s0, lim0, q, p + 1);
    }
    if p + 2 < s0.len() {
        lemma_props_at(s0, lim0, q, p + 2);
    }
    let lo = merge_lo(s0, p);
    let hi = merge_hi(s0, p);
    if lo < p {
        assert(!s0[p - 1].is_span());
        assert(p - 1 > 0);
        lemma_mod_add_sub(s0[p - 1].len as int, s0[p].len as int, q as int);
    }
    if hi > p + 1 {
        lemma_mod_add_sub(s0[p].len as int, s0[p + 1].len as int, q as int);
        if lo < p {
            lemma_mod_add_sub(s0[p - 1].len as int + s0[p].len as int, s0[p + 1].len as int, q as int);
        }
    }
}

proof fn lemma_merge_tiled_a(s0: Seq<Bt>, lim0: Seq<int>, q: usize, p: int)
    requires
        list_props(s0, lim0, q),
        q > 0,
        0 <= p < s0.len(),
        s0[p].is_used(),
    ensures
        ({
            let s = merged_list(s0, p);
            let lim = merged_limits(lim0, s0, p);
            &&& lim.len() == s.len()
            &&& s.len() > 0 ==> s[0].is_span()
            &&& forall|k: int|
                0 <= k < s.len() && (#[trigger] s[k]).is_span() ==> lim[k] == s[k].end() && k + 1 < s.len()
                    && !s[k + 1].is_span()
        }),
{
    lemma_merge_run(s0, lim0, q, p);
    lemma_merge_index(s0, lim0, p);
    let lo = merge_lo(s0, p);
    let hi = merge_hi(s0, p);
    let d = hi - lo - 1;
    let s = merged_list(s0, p);
    let lim = merged_limits(lim0, s0, p);
    assert(s[0] == s0[0]);
    assert forall|k: int|
        0 <= k < s.len() && (#[trigger] s[k]).is_span() implies lim[k] == s[k].end() && k + 1 < s.len()
            && !s[k + 1].is_span() by {
        if k < lo {
            assert(s[k] == s0[k]);
            lemma_props_at(s0, lim0, q, k);
            if k + 1 < lo {
                assert(s[k + 1] == s0[k + 1]);
            }
        } else {
            assert(s[k] == s0[k + d]);
            lemma_props_at(s0, lim0, q, k + d);
            assert(s[k + 1] == s0[k + d + 1]);
        }
    }
}

proof fn lemma_merge_tiled_b(s0: Seq<Bt>, lim0: Seq<int>, q: usize, p: int)
    requires
        list_props(s0, lim0, q),
        q > 0,
        0 <= p < s0.len(),
        s0[p].is_used(),
    ensures
        ({
            let s = merged_list(s0, p);
            let lim = merged_limits(lim0, s0, p);
            forall|k: int|
                0 < k < s.len() && !(#[trigger] s[k]).is_span() ==> s[k].base == start_after(s[k - 1]) && lim[k]
                    == lim[k - 1]
        }),
{
    lemma_merge_run(s0, lim0, q, p);
    lemma_merge_index(s0, lim0, p);
    let lo = merge_lo(s0, p);
    let hi = merge_hi(s0, p);
    let d = hi - lo - 1;
    let s = merged_list(s0, p);
    let lim = merged_limits(lim0, s0, p);
    assert forall|k: int|
        0 < k < s.len() && !(#[trigger] s[k]).is_span() implies s[k].base == start_after(s[k - 1])
            && lim[k] == lim[k - 1] by {
        if k < lo {
            assert(s[k] == s0[k] && s[k - 1] == s0[k - 1]);
            lemma_props_at(s0, lim0, q, k);
        } else if k == lo {
            assert(s[k - 1] == s0[lo - 1]);
            lemma_props_at(s0, lim0, q, lo);
        } else if k == lo + 1 {
            assert(s[k] == s0[hi]);
            lemma_props_at(s0, lim0, q, hi);
            lemma_props_at(s0, lim0, q, hi - 1);
        } else {
            assert(s[k] == s0[k + d] && s[k - 1] == s0[k + d - 1]);
            lemma_props_at(s0, lim0, q, k + d);
        }
    }
}

proof fn lemma_merge_tiled_c(s0: Seq<Bt>, lim0: Seq<int>, q: usize, p: int)
    requires
        list_props(s0, lim0, q),
        q > 0,
        0 <= p < s0.len(),
        s0[p].is_used(),
    ensures
        ({
            let s = merged_list(s0, p);
            let lim = merged_limits(lim0, s0, p);
            forall|k: int|
                0 <= k < s.len() && !(#[trigger] s[k]).is_span() && (k + 1 == s.len() || s[k + 1].is_span())
                    ==> s[k].end() == lim[k]
        }),
{
    lemma_merge_run(s0, lim0, q, p);
    lemma_merge_index(s0, lim0, p);
    let lo = merge_lo(s0, p);
    let hi = merge_hi(s0, p);
    let d = hi - lo - 1;
    let s = merged_list(s0, p);
    let lim = merged_limits(lim0, s0, p);
    assert forall|k: int|
        0 <= k < s.len() && !(#[trigger] s[k]).is_span() && (k + 1 == s.len() || s[k + 1].is_span())
            implies s[k].end() == lim[k] by {
        if k < lo {
            assert(s[k] == s0[k]);
            lemma_props_at(s0, lim0, q, k);
            if k + 1 < lo {
                assert(s[k + 1] == s0[k + 1]);
            }
        } else if k == lo {
            lemma_props_at(s0, lim0, q, hi - 1);
            if k + 1 < s.len() {
                assert(s[k + 1] == s0[hi]);
            }
        } else {
            assert(s[k] == s0[k + d]);
            lemma_props_at(s0, lim0, q, k + d);
            if k + 1 < s.len() {
                assert(s[k + 1] == s0[k + d + 1]);
            }
        }
    }
}

proof fn lemma_merge_coalesced(s0: Seq<Bt>, lim0: Seq<int>, q: usize, p: int)
    requires
        list_props(s0, lim0, q),
        q > 0,
        0 <= p < s0.len(),
        s0[p].is_used(),
    ensures
        coalesced(merged_list(s0, p)),
{
    lemma_merge_run(s0, lim0, q, p);
    lemma_merge_index(s0, lim0, p);
    let lo = merge_lo(s0, p);
    let hi = merge_hi(s0, p);
    let d = hi - lo - 1;
    let s = merged_list(s0, p);
    assert forall|k: int| 0 <= k && k + 1 < s.len() implies !((#[trigger] s[k]).is_free() && s[k + 1].is_free()) by {
        if k + 1 < lo {
            assert(s[k] == s0[k] && s[k + 1] == s0[k + 1]);
            lemma_props_at(s0, lim0, q, k);
        } else if k + 1 == lo {
            assert(s[k] == s0[lo - 1]);
        } else if k == lo {
            assert(s[k + 1] == s0[hi]);
        } else {
            assert(s[k] == s0[k + d] && s[k + 1] == s0[k + d + 1]);
            lemma_props_at(s0, lim0, q, k + d);
        }
    }
}

#[verifier::rlimit(100)]
proof fn lemma_merge_disjoint(s0: Seq<Bt>, lim0: Seq<int>, q: usize, p: int)
    requires
        list_props(s0, lim0, q),
        q > 0,
        0 <= p < s0.len(),
        s0[p].is_used(),
    ensures
        disjoint(merged_list(s0, p)),
{
    lemma_merge_run(s0, lim0, q, p);
    lemma_merge_index(s0, lim0, p);
    let lo = merge_lo(s0, p);
    let hi = merge_hi(s0, p);
    let d = hi - lo - 1;
    let s = merged_list(s0, p);
    assert forall|i: int, j: int|
        0 <= i < s.len() && 0 <= j < s.len() && i != j && !(#[trigger] s[i]).is_span()
            && !(#[trigger] s[j]).is_span() && s[i].len > 0 && s[j].len > 0 implies s[i].end()
        <= s[j].base || s[j].end() <= s[i].base by {
        if i != lo && j != lo {
            let oi = if i < lo { i } else { i + d };
            let oj = if j < lo { j } else { j + d };
            assert(s[i] == s0[oi] && s[j] == s0[oj]);
            lemma_props_apart(s0, lim0, q, oi, oj);
        } else {
            let x = if i == lo { j } else { i };
            let ox = if x < lo { x } else { x + d };
            assert(s[x] == s0[ox]);
            assert(ox != p);
            lemma_props_apart(s0, lim0, q, ox, p);
            if lo < p {
                assert(ox != p - 1);
                if s0[p - 1].len > 0 {
                    lemma_props_apart(s0, lim0, q, ox, p - 1);
                }
            }
            if hi > p + 1 {
                assert(ox != p + 1);
                if s0[p + 1].len > 0 {
                    lemma_props_apart(s0, lim0, q, ox, p + 1);
                }
            }
        }
    }
}

proof fn lemma_merge_plain(s0: Seq<Bt>, lim0: Seq<int>, q: usize, p: int)
    requires
        list_props(s0, lim0, q),
        q > 0,
        0 <= p < s0.len(),
        s0[p].is_used(),
    ensures
        ({
            let s = merged_list(s0, p);
            &&& forall|k: int|
                0 <= k < s.len() && !(#[trigger] s[k]).is_span() ==> s[k].base % q == 0 && s[k].len % q == 0
            &&& forall|k: int| 0 <= k < s.len() && (#[trigger] s[k]).is_used() ==> s[k].len > 0
            &&& forall|k: int| 0 <= k < s.len() ==> (#[trigger] s[k]).end() <= usize::MAX
        }),
{
    lemma_merge_run(s0, lim0, q, p);
    lemma_merge_index(s0, lim0, p);
    let lo = merge_lo(s0, p);
    let hi = merge_hi(s0, p);
    let d = hi - lo - 1;
    let s = merged_list(s0, p);
    assert forall|k: int| 0 <= k < s.len() && !(#[trigger] s[k]).is_span() implies s[k].base % q == 0
        && s[k].len % q == 0 by {
        if k < lo {
            assert(s[k] == s0[k]);
            lemma_props_at(s0, lim0, q, k);
        } else if k > lo {
            assert(s[k] == s0[k + d]);
            lemma_props_at(s0, lim0, q, k + d);
        }
    }
    assert forall|k: int| 0 <= k < s.len() && (#[trigger] s[k]).is_used() implies s[k].len > 0 by {
        if k < lo {
            assert(s[k] == s0[k]);
            lemma_props_at(s0, lim0, q, k);
        } else if k > lo {
            assert(s[k] == s0[k + d]);
            lemma_props_at(s0, lim0, q, k + d);
        }
    }
    assert forall|k: int| 0 <= k < s.len() implies (#[trigger] s[k]).end() <= usize::MAX by {
        if k < lo {
            assert(s[k] == s0[k]);
            lemma_props_at(s0, lim0, q, k);
        } else if k > lo {
            assert(s[k] == s0[k + d]);
            lemma_props_at(s0, lim0, q, k + d);
        }
    }
}

#[verifier::rlimit(100)]
proof fn lemma_free_total_merge(s0: Seq<Bt>, lim0: Seq<int>, q: usize, p: int)
    requires
        list_props(s0, lim0, q),
        q > 0,
        0 <= p < s0.len(),
        s0[p].is_used(),
    ensures
        free_total(merged_list(s0, p))
            == free_total(s0) + s0[p].len,
{
    lemma_merge_run(s0, lim0, q, p);
    reveal(merged_list);
    let lo = merge_lo(s0, p);
    let hi = merge_hi(s0, p);
    let a = s0.subrange(0, lo);
    let b = s0.subrange(hi, s0.len() as int);
    let mid = s0.subrange(lo, hi);
    let mt = merged_tag(s0, p);
    assert(s0 =~= a + mid + b);
    lemma_free_total_concat(a + mid, b);
    lemma_free_total_concat(a, mid);
    lemma_free_total_concat(a + seq![mt], b);
    lemma_free_total_concat(a, seq![mt]);
    reveal_with_fuel(free_total, 4);
    assert(seq![mt].drop_last() =~= Seq::<Bt>::empty());
    if lo < p {
        if hi > p + 1 {
            assert(mid =~= seq![s0[p - 1], s0[p], s0[p + 1]]);
            assert(mid.drop_last() =~= seq![s0[p - 1], s0[p]]);
            assert(mid.drop_last().drop_last() =~= seq![s0[p - 1]]);
            assert(mid.drop_last().drop_last().drop_last() =~= Seq::<Bt>::empty());
        } else {
            assert(mid =~= seq![s0[p - 1], s0[p]]);
            assert(mid.drop_last() =~= seq![s0[p - 1]]);
            assert(mid.drop_last().drop_last() =~= Seq::<Bt>::empty());
        }
    } else {
        if hi > p + 1 {
            assert(mid =~= seq![s0[p], s0[p + 1]]);
            assert(mid.drop_last() =~= seq![s0[p]]);
            assert(mid.drop_last().drop_last() =~= Seq::<Bt>::empty());
        } else {
            assert(mid =~= seq![s0[p]]);
            assert(mid.drop_last() =~= Seq::<Bt>::empty());
        }
    }
}

/// Once the used tag at `p` is freed, no used tag is left at its base.
proof fn lemma_freed_no_used(s0: Seq<Bt>, lim0: Seq<int>, q: usize, p: int)
    requires
        list_props(s0, lim0, q),
        q > 0,
        0 <= p < s0.len(),
        s0[p].is_used(),
    ensures
        forall|k: int|
            0 <= k < merged_list(s0, p).len() ==> !((#[trigger] merged_list(s0, p)[k]).is_used()
                && merged_list(s0, p)[k].base == s0[p].base),
{
    lemma_merge_run(s0, lim0, q, p);
    lemma_merge_index(s0, lim0, p);
    let lo = merge_lo(s0, p);
    let d = merge_hi(s0, p) - lo - 1;
    let s1 = merged_list(s0, p);
    assert forall|k: int| 0 <= k < s1.len() implies !((#[trigger] s1[k]).is_used() && s1[k].base == s0[p].base) by {
        if k != lo {
            let k0 = if k < lo { k } else { k + d };
            assert(s1[k] == s0[k0]);
            if s0[k0].is_used() && s0[k0].base == s0[p].base {
                lemma_used_base_unique(s0, lim0, q, k0, p);
            }
        }
    }
}

/// Two used tags at one base are one tag.
proof fn lemma_used_base_unique(s: Seq<Bt>, lim: Seq<int>, q: usize, i: int, j: int)
    requires
        list_props(s, lim, q),
        0 <= i < s.len(),
        0 <= j < s.len(),
        s[i].is_used(),
        s[j].is_used(),
        s[i].base == s[j].base,
    ensures
        i == j,
{
    reveal(list_props);
    if i != j {
        assert(s[i].end() <= s[j].base || s[j].end() <= s[i].base);
    }
}

/// Every arena tiles each of its spans contiguously with its pieces, and no two
/// neighbouring tags of it are free. Each operation keeps `wf`, so this holds
/// after any sequence of them.
#[verifier::rlimit(100)]
pub proof fn lemma_wf_tiled(v: &Vmem)
    requires
        v.wf(),
    ensures
        arena_props(v.segments(), v.quantum_spec()),
{
    assert(list_props(v.segments(), v.limits@, v.quantum) && v.quantum > 0) by {
        reveal(Vmem::list_ok);
    }
    lemma_props_sorted(v.segments(), v.limits@, v.quantum);
    lemma_props_parts(v.segments(), v.limits@, v.quantum);
}

/// Of two used tags, the later in the segment list has the higher base: so
/// next-fit allocations that move forward in the list move up in address.
pub proof fn lemma_later_used_higher(v: &Vmem, i: int, j: int)
    requires
        v.wf(),
        0 <= i < j < v.segments().len(),
        v.segments()[i].is_used(),
        v.segments()[j].is_used(),
    ensures
        v.segments()[i].base < v.segments()[j].base,
{
    let s = v.segments();
    assert(list_props(s, v.limits@, v.quantum)) by {
        reveal(Vmem::list_ok);
    }
    lemma_props_sorted(s, v.limits@, v.quantum);
    lemma_sorted_pairwise(s, i, j);
    lemma_props_at(s, v.limits@, v.quantum, i);
    lemma_props_at(s, v.limits@, v.quantum, j);
    lemma_props_apart(s, v.limits@, v.quantum, i, j);
}

/// What holds of every arena's segment list `s` with quantum `q`: it tiles
/// each span, no two neighbours are free, it runs in address order, pieces
/// do not overlap, the quantum is positive and every piece is a whole number
/// of quanta, and used pieces are nonempty.
pub open spec fn arena_props(s: Seq<Bt>, q: usize) -> bool {
    &&& tiled(s)
    &&& coalesced(s)
    &&& sorted_by_base(s)
    &&& disjoint(s)
    &&& q > 0
    &&& forall|k: int|
        0 <= k < s.len() && !(#[trigger] s[k]).is_span() ==> s[k].base % q == 0 && s[k].len % q == 0
    &&& forall|k: int| 0 <= k < s.len() && (#[trigger] s[k]).is_used() ==> s[k].len > 0
}

/// `list_props`, taken apart.
#[verifier::rlimit(100)]
proof fn lemma_props_parts(s: Seq<Bt>, lim: Seq<int>, q: usize)
    requires
        list_props(s, lim, q),
    ensures
        tiled(s),
        coalesced(s),
        disjoint(s),
        forall|k: int|
            0 <= k < s.len() && !(#[trigger] s[k]).is_span() ==> s[k].base % q == 0 && s[k].len % q == 0,
        forall|k: int| 0 <= k < s.len() && (#[trigger] s[k]).is_used() ==> s[k].len > 0,
{
    reveal(list_props);
    assert(tiled_with(s, lim));
}

/// Allocating and then freeing the address handed out gives the arena back
/// its free capacity, and leaves no more tags than before the allocation.
pub proof fn lemma_alloc_then_free(a0: &Vmem, a1: &Vmem, a2: &Vmem, size: usize, addr: usize)
    requires
        a0.wf(),
        a1.wf(),
        a1.quantum_spec() == a0.quantum_spec(),
        alloc_result(a0.segments(), a1.segments(), a0.quantum_spec() as int, size, Some(addr)),
        forall|p: int|
            0 <= p < a1.segments().len() && a1.segments()[p].is_used() && #[trigger] a1.segments()[p].base == addr
                ==> freed(a1.segments(), a2.segments(), p),
    ensures
        free_total(a2.segments()) == free_total(a0.segments()),
        a2.segments().len() <= a0.segments().len(),
{
    let s0 = a0.segments();
    let s1 = a1.segments();
    let s2 = a2.segments();
    let q = a0.quantum_spec();
    let sz = round_up(size as int, q as int);
    let p = choose|p: int| carved(s0, s1, p, sz) && s0[p].base == addr;
    assert(s1[p].is_used() && s1[p].base == addr && s1[p].len == sz);
    assert(freed(s1, s2, p));
    assert(list_props(s1, a1.limits@, q)) by {
        reveal(Vmem::list_ok);
    }
    lemma_free_total_carve(s0, p, sz);
    lemma_free_total_merge(s1, a1.limits@, q, p);
    lemma_merge_run(s1, a1.limits@, q, p);
    lemma_merge_index(s1, a1.limits@, p);
    assert(s1[p + 1].is_free());
}

/// A span added to an empty arena, drained by best-fit requests of its whole
/// length, yields exactly one address: its base.
pub proof fn lemma_span_drains_once(
    q: int,
    base: usize,
    len: usize,
    s1: Seq<Bt>,
    s2: Seq<Bt>,
    r2: Option<usize>,
    s3: Seq<Bt>,
    r3: Option<usize>,
)
    requires
        q > 0,
        len > 0,
        len as int % q == 0,
        s1 == Seq::<Bt>::empty().push(Bt { kind: BtKind::Span, base, len }).push(
            Bt { kind: BtKind::Free, base, len },
        ),
        alloc_result(s1, s2, q, len, r2),
        best_fit_result(s1, s2, q, len, r2),
        alloc_result(s2, s3, q, len, r3),
        best_fit_result(s2, s3, q, len, r3),
    ensures
        r2 == Some(base),
        r3.is_none(),
{
    assert(round_up(len as int, q) == len);
    assert(fits(s1, 1, len as int));
    let p = choose|p: int| carved(s1, s2, p, len as int) && s1[p].base == r2.unwrap();
    assert(p == 1);
    assert forall|k: int| !fits(s2, k, len as int) by {
        if 0 <= k < s2.len() {
            assert(s2.len() == 3);
            if k == 0 {
                assert(s2[0] == s1[0]);
            } else if k == 1 {
            } else {
                assert(s2[2].len == 0);
            }
        }
    }
}

/// A resource arena: hands out ranges of the spans added to it, tracking each
/// span and each piece of one with a boundary tag.
pub struct Vmem<'src> {
    /// The tag store; the segment list, the table and the freelists hold
    /// handles into it.
    tags: Vec<Bt>,
    /// Handles of the store that no list holds, ready for reuse.
    spare: Vec<usize>,
    segment_list: SegmentList,
    allocation_table: AllocationTable,
    freelists: Freelists,
    quantum: usize,
    parent: Option<&'src Vmem<'src>>,
    /// The tag of the latest allocation, where next-fit resumes.
    last: Option<usize>,
    /// For each position of the segment list, the end of its span.
    limits: Ghost<Seq<int>>,
}

impl<'src> Vmem<'src> {
    /// The tags in segment-list order.
    pub closed spec fn segments(&self) -> Seq<Bt> {
        self.segment_list@.map_values(|h: usize| self.tags@[h as int])
    }

    pub closed spec fn quantum_spec(&self) -> usize {
        self.quantum
    }

    pub closed spec fn has_parent_spec(&self) -> bool {
        self.parent.is_some()
    }

    /// The arena that imported spans are drawn from, once set.
    pub closed spec fn parent_spec(&self) -> Option<&'src Vmem<'src>> {
        self.parent
    }

    /// The position of the latest allocation's tag in the segment list, or -1.
    pub closed spec fn last_pos(&self) -> int {
        match self.last {
            Some(h) => self.segment_list@.index_of(h),
            None => -1,
        }
    }

    #[verifier::opaque]
    closed spec fn handles_ok(&self) -> bool {
        let o = self.segment_list@;
        &&& o.no_duplicates()
        &&& forall|i: int| 0 <= i < o.len() ==> #[trigger] o[i] < self.tags@.len()
        &&& self.spare@.no_duplicates()
        &&& forall|i: int|
            0 <= i < self.spare@.len() ==> #[trigger] self.spare@[i] < self.tags@.len() && !o.contains(
                self.spare@[i],
            )
        &&& self.limits@.len() == o.len()
        &&& self.last.is_some() ==> o.contains(self.last.unwrap())
    }

    #[verifier::opaque]
    closed spec fn list_ok(&self) -> bool {
        list_props(self.segments(), self.limits@, self.quantum)
    }

    #[verifier::opaque]
    closed spec fn lists_ok(&self) -> bool {
        let o = self.segment_list@;
        let s = self.segments();
        let q = self.quantum as nat;
        &&& bucketed(self.freelists@, self.tags@, q)
        &&& forall|k: int, i: int|
            0 <= k < LISTS && 0 <= i < self.freelists@[k].len() ==> o.contains(
                #[trigger] self.freelists@[k][i],
            )
        &&& forall|p: int|
            0 <= p < s.len() && (#[trigger] s[p]).is_free() && s[p].len > 0 ==> self.freelists@[log2_floor(
                s[p].len as nat / q,
            ) as int].contains(o[p])
    }

    #[verifier::opaque]
    closed spec fn table_ok(&self) -> bool {
        let o = self.segment_list@;
        let s = self.segments();
        &&& indexed(self.allocation_table@, self.tags@)
        &&& forall|j: int, i: int|
            0 <= j < BUCKETS && 0 <= i < self.allocation_table@[j].len() ==> o.contains(
                #[trigger] self.allocation_table@[j][i],
            )
        &&& forall|p: int|
            0 <= p < s.len() && (#[trigger] s[p]).is_used() ==> self.allocation_table@[bucket_of(
                s[p].base,
            )].contains(o[p])
    }

    /// The arena's invariant.
    pub closed spec fn wf(&self) -> bool {
        &&& self.quantum > 0
        &&& self.handles_ok()
        &&& self.list_ok()
        &&& self.lists_ok()
        &&& self.table_ok()
    }

    /// An empty arena that hands out multiples of `quantum`.
    pub fn new(quantum: usize) -> (r: Vmem<'src>)
        requires
            quantum > 0,
        ensures
            r.wf(),
            r.segments() == Seq::<Bt>::empty(),
            r.quantum_spec() == quantum,
            !r.has_parent_spec(),
            r.last_pos() == -1,
    {
        let r = Vmem {
            tags: Vec::new(),
            spare: Vec::new(),
            segment_list: SegmentList::new(),
            allocation_table: AllocationTable::new(),
            freelists: Freelists::new(),
            quantum,
            parent: None,
            last: None,
            limits: Ghost(Seq::empty()),
        };
        assert(r.segments() =~= Seq::<Bt>::empty());
        proof {
            reveal(list_props);
            reveal(Vmem::handles_ok);
            reveal(Vmem::list_ok);
            reveal(Vmem::lists_ok);
            reveal(Vmem::table_ok);
        }
        r
    }

    /// Takes a handle of the store that no list holds and writes `bt` there.
    fn new_tag(&mut self, bt: Bt) -> (h: usize)
        requires
            old(self).handles_ok(),
        ensures
            final(self).segment_list@ == old(self).segment_list@,
            final(self).freelists@ == old(self).freelists@,
            final(self).allocation_table@ == old(self).allocation_table@,
            final(self).quantum == old(self).quantum,
            final(self).parent == old(self).parent,
            final(self).last == old(self).last,
            final(self).limits@ == old(self).limits@,
            h < final(self).tags@.len(),
            final(self).tags@.len() >= old(self).tags@.len(),
            final(self).tags@[h as int] == bt,
            forall|x: int| 0 <= x < old(self).tags@.len() && x != h ==> #[trigger] final(self).tags@[x] == old(
                self,
            ).tags@[x],
            !old(self).segment_list@.contains(h),
            old(self).spare@.contains(h) || h == old(self).tags@.len(),
            final(self).spare@.no_duplicates(),
            forall|i: int|
                0 <= i < final(self).spare@.len() ==> old(self).spare@.contains(#[trigger] final(self).spare@[i])
                    && final(self).spare@[i] != h,
            final(self).handles_ok(),
    {
        proof {
            reveal(Vmem::handles_ok);
        }
        let ghost old_spare = self.spare@;
        match self.spare.pop() {
            Some(h) => {
                proof {
                    assert(old_spare[old_spare.len() - 1] == h);
                    assert forall|i: int| 0 <= i < self.spare@.len() implies old_spare.contains(
                        #[trigger] self.spare@[i],
                    ) && self.spare@[i] != h by {
                        assert(old_spare[i] == self.spare@[i]);
                    }
                    assert(self.spare@.no_duplicates()) by {
                        assert forall|a: int, b: int|
                            0 <= a < self.spare@.len() && 0 <= b < self.spare@.len() && a != b implies self.spare@[a]
                            != self.spare@[b] by {
                            assert(old_spare[a] == self.spare@[a]);
                            assert(old_spare[b] == self.spare@[b]);
                        }
                    }
                }
                self.tags[h] = bt;
                proof {
                    assert(old_spare.contains(h));
                    assert forall|i: int| 0 <= i < self.spare@.len() implies #[trigger] self.spare@[i] < self.tags@.len()
                        && !self.segment_list@.contains(self.spare@[i]) by {
                        assert(old_spare[i] == self.spare@[i]);
                    }
                }
                h
            },
            None => {
                let h = self.tags.len();
                self.tags.push(bt);
                proof {
                    if self.segment_list@.contains(h) {
                        let i = choose|i: int| 0 <= i < self.segment_list@.len() && self.segment_list@[i] == h;
                    }
                    assert forall|i: int| 0 <= i < self.spare@.len() implies #[trigger] self.spare@[i] < self.tags@.len()
                        && !self.segment_list@.contains(self.spare@[i]) by {
                        assert(old_spare[i] == self.spare@[i]);
                    }
                    assert forall|i: int| 0 <= i < self.segment_list@.len() implies #[trigger] self.segment_list@[i] < self.tags@.len() by {}
                }
                h
            },
        }
    }

    /// Where a span at `base` goes: before the first span at or above it.
    fn find_slot(&self, base: usize) -> (j: usize)
        requires
            self.wf(),
        ensures
            span_slot(self.segments(), base as int, j as int),
    {
        let ghost s = self.segments();
        let n = self.segment_list.len();
        let mut k: usize = 0;
        while k < n
            invariant
                n == s.len(),
                s == self.segments(),
                self.wf(),
                k <= n,
                forall|i: int| 0 <= i < k && (#[trigger] s[i]).is_span() ==> s[i].base < base,
            decreases n - k,
        {
            let h = self.segment_list.get(k);
            proof {
                assert(h < self.tags@.len()) by {
                    reveal(Vmem::handles_ok);
                }
                assert(s[k as int] == self.tags@[h as int]);
            }
            let t = self.tags[h];
            if (t.kind == BtKind::Span || t.kind == BtKind::ImportedSpan) && t.base >= base {
                return k;
            }
            k += 1;
        }
        k
    }

    /// Links a span of `kind` over `[base, base + len)`, and a free tag over the
    /// whole of it.
    #[verifier::rlimit(100)]
    fn add_span_kind(&mut self, kind: BtKind, base: usize, len: usize)
        requires
            old(self).wf(),
            kind == BtKind::Span || kind == BtKind::ImportedSpan,
            base % old(self).quantum_spec() == 0,
            len % old(self).quantum_spec() == 0,
            base + len <= usize::MAX,
            len > 0,
            clear_of(old(self).segments(), base as int, len as int),
        ensures
            final(self).wf(),
            exists|j: int|
                span_slot(old(self).segments(), base as int, j) && final(self).segments() == with_span(
                    old(self).segments(),
                    j,
                    Bt { kind, base, len },
                    Bt { kind: BtKind::Free, base, len },
                ),
            final(self).quantum_spec() == old(self).quantum_spec(),
            final(self).parent == old(self).parent,
    {
        let ghost v0 = *self;
        let ghost s0 = self.segments();
        let ghost o0 = self.segment_list@;
        let j = self.find_slot(base);
        proof {
            assert(list_props(s0, self.limits@, self.quantum)) by {
                reveal(Vmem::list_ok);
            }
            lemma_slot_fits(s0, self.limits@, self.quantum, j as int, base as int, len as int);
        }
        let span = Bt { kind, base, len };
        let free = Bt { kind: BtKind::Free, base, len };
        let h1 = self.new_tag(span);
        let ghost mid = *self;
        let h2 = self.new_tag(free);
        proof {
            reveal(Vmem::handles_ok);
            if mid.spare@.contains(h2) {
                let i = choose|i: int| 0 <= i < mid.spare@.len() && mid.spare@[i] == h2;
            }
            assert(h1 != h2);
            assert(!o0.contains(h2));
        }
        proof {
            assert(j <= self.segment_list@.len());
        }
        self.segment_list.insert_before(h2, j);
        self.segment_list.insert_before(h1, j);
        let ghost end = base + len;
        self.limits = Ghost(self.limits@.insert(j as int, end).insert(j as int, end));
        proof {
            assert forall|x: int| 0 <= x < v0.tags@.len() && x != h1 && x != h2 implies #[trigger] self.tags@[x]
                == v0.tags@[x] by {
                assert(mid.tags@[x] == v0.tags@[x]);
            }
        }
        let ghost fl0 = self.freelists@;
        let ghost m = log2_floor(len as nat / self.quantum as nat) as int;
        proof {
            assert(bucketed(fl0, self.tags@, self.quantum as nat) && !listed(fl0, h2)) by {
                reveal(Vmem::lists_ok);
                assert forall|k: int, i: int|
                    0 <= k < LISTS && 0 <= i < fl0[k].len() implies o0.contains(#[trigger] fl0[k][i]) by {}
                assert forall|k: int, i: int|
                    0 <= k < LISTS && 0 <= i < fl0[k].len() implies {
                        let h = #[trigger] fl0[k][i];
                        &&& h < self.tags@.len()
                        &&& self.tags@[h as int].is_free()
                        &&& self.tags@[h as int].len > 0
                        &&& self.tags@[h as int].len as nat % self.quantum as nat == 0
                        &&& log2_floor(self.tags@[h as int].len as nat / self.quantum as nat) == k
                    } by {
                    let h = fl0[k][i];
                    assert(o0.contains(h));
                    let j = choose|j: int| 0 <= j < o0.len() && o0[j] == h;
                }
                if listed(fl0, h2) {
                    let k = choose|k: int| 0 <= k < fl0.len() && #[trigger] fl0[k].contains(h2);
                    let i = choose|i: int| 0 <= i < fl0[k].len() && fl0[k][i] == h2;
                    assert(o0.contains(fl0[k][i]));
                }
            }
        }
        self.freelists.insert(&self.tags, h2, self.quantum);
        proof {
            assert(fl0 == v0.freelists@);
            assert(self.tags@[h2 as int] == free);
            Self::lemma_add_span_wf(v0, *self, j as int, h1, h2, span, free, m);
        }
    }

    #[verifier::rlimit(100)]
    #[verifier::rlimit(100)]
    proof fn lemma_add_span_wf(v0: Vmem, v: Vmem, j: int, h1: usize, h2: usize, span: Bt, free: Bt, m: int)
        requires
            v0.wf(),
            v.spare@.no_duplicates(),
            forall|i: int|
                0 <= i < v.spare@.len() ==> v0.spare@.contains(#[trigger] v.spare@[i]) && v.spare@[i] != h1
                    && v.spare@[i] != h2,
            0 <= j <= v0.segment_list@.len(),
            v.segment_list@ == v0.segment_list@.insert(j, h2).insert(j, h1),
            h1 != h2,
            !v0.segment_list@.contains(h1),
            !v0.segment_list@.contains(h2),
            h1 < v.tags@.len(),
            h2 < v.tags@.len(),
            v.tags@.len() >= v0.tags@.len(),
            forall|x: int| 0 <= x < v0.tags@.len() && x != h1 && x != h2 ==> #[trigger] v.tags@[x] == v0.tags@[x],
            v.tags@[h1 as int] == span,
            v.tags@[h2 as int] == free,
            span.is_span(),
            span.len > 0,
            free == (Bt { kind: BtKind::Free, base: span.base, len: span.len }),
            span.base % v0.quantum == 0,
            span.len % v0.quantum == 0,
            span.end() <= usize::MAX,
            clear_of(v0.segments(), span.base as int, span.len as int),
            j < v0.segments().len() ==> v0.segments()[j].is_span() && v0.segments()[j].base >= span.end(),
            j > 0 ==> v0.limits@[j - 1] <= span.base,
            v.limits@ == v0.limits@.insert(j, span.end()).insert(j, span.end()),
            m == log2_floor(span.len as nat / v0.quantum as nat),
            0 <= m < LISTS,
            v.freelists@ == v0.freelists@.update(m, v0.freelists@[m].push(h2)),
            bucketed(v.freelists@, v.tags@, v0.quantum as nat),
            v.allocation_table@ == v0.allocation_table@,
            v.quantum == v0.quantum,
            v.last == v0.last,
        ensures
            v.wf(),
            v.segments() == with_span(v0.segments(), j, span, free),
    {
        let s0 = v0.segments();
        let o0 = v0.segment_list@;
        let o = v.segment_list@;
        let fl0 = v0.freelists@;
        let s = v.segments();
        let n = s0.len();
        let q = v.quantum;
        assert forall|i: int| 0 <= i < o0.len() implies o0[i] != h1 && o0[i] != h2 && o0[i] < v0.tags@.len() by {
            reveal(Vmem::handles_ok);
            assert(o0.contains(o0[i]));
        }
        assert forall|k: int| 0 <= k < o.len() implies #[trigger] o[k] == (if k < j {
            o0[k]
        } else if k == j {
            h1
        } else if k == j + 1 {
            h2
        } else {
            o0[k - 2]
        }) by {}
        assert(s =~= with_span(s0, j, span, free)) by {
            assert forall|k: int| 0 <= k < s.len() implies s[k] == with_span(s0, j, span, free)[k] by {
                if k < j {
                    assert(o[k] == o0[k]);
                } else if k > j + 1 {
                    assert(o[k] == o0[k - 2]);
                }
            }
        }
        assert(v.list_ok()) by {
            reveal(Vmem::list_ok);
            lemma_list_insert_span(s0, v0.limits@, q, j, span, free);
        }
        assert(v.handles_ok()) by {
            reveal(Vmem::handles_ok);
            assert forall|i: int| 0 <= i < v.spare@.len() implies #[trigger] v.spare@[i] < v.tags@.len()
                && !o.contains(v.spare@[i]) by {
                let x = v.spare@[i];
                assert(v0.spare@.contains(x));
                let i0 = choose|i0: int| 0 <= i0 < v0.spare@.len() && v0.spare@[i0] == x;
                if o.contains(x) {
                    let k = choose|k: int| 0 <= k < o.len() && o[k] == x;
                    if k < j {
                        assert(o0[k] == x);
                    } else if k > j + 1 {
                        assert(o0[k - 2] == x);
                    }
                }
            }
            assert(o.no_duplicates()) by {
                assert forall|a: int, b: int| 0 <= a < o.len() && 0 <= b < o.len() && a != b implies o[a] != o[b] by {
                    let a0 = if a < j { a } else { a - 2 };
                    let b0 = if b < j { b } else { b - 2 };
                    if a != j && a != j + 1 {
                        assert(o0.contains(o0[a0]));
                    }
                    if b != j && b != j + 1 {
                        assert(o0.contains(o0[b0]));
                    }
                }
            }
            if v.last.is_some() {
                let k = choose|k: int| 0 <= k < o0.len() && o0[k] == v.last.unwrap();
                if k < j {
                    assert(o[k] == v.last.unwrap());
                } else {
                    assert(o[k + 2] == v.last.unwrap());
                }
            }
        }
        assert(v.lists_ok()) by {
            reveal(Vmem::lists_ok);
            assert forall|k: int, i: int|
                0 <= k < LISTS && 0 <= i < v.freelists@[k].len() implies o.contains(
                    #[trigger] v.freelists@[k][i],
                ) by {
                let x = v.freelists@[k][i];
                if x == h2 {
                    assert(o[j + 1] == h2);
                } else {
                    if k == m {
                        assert(v.freelists@[k] == fl0[m].push(h2));
                        assert(i < fl0[m].len());
                        assert(fl0[k][i] == x);
                    } else {
                        assert(v.freelists@[k] == fl0[k]);
                    }
                    assert(o0.contains(x));
                    let k0 = choose|k0: int| 0 <= k0 < o0.len() && o0[k0] == x;
                    if k0 < j {
                        assert(o[k0] == x);
                    } else {
                        assert(o[k0 + 2] == x);
                    }
                }
            }
            assert forall|p: int| 0 <= p < s.len() && (#[trigger] s[p]).is_free() && s[p].len > 0
                implies v.freelists@[log2_floor(s[p].len as nat / q as nat) as int].contains(o[p]) by {
                let c = log2_floor(s[p].len as nat / q as nat) as int;
                lemma_class_in_range(s[p].len, q);
                if p == j + 1 {
                    assert(c == m);
                    assert(v.freelists@[m] == fl0[m].push(h2));
                    assert(v.freelists@[m][v.freelists@[m].len() - 1] == h2);
                } else {
                    assert(p != j);
                    let p0 = if p < j { p } else { p - 2 };
                    assert(s0[p0] == s[p]);
                    assert(o0[p0] == o[p]);
                    let i0 = choose|i0: int| 0 <= i0 < fl0[c].len() && fl0[c][i0] == o[p];
                    if c == m {
                        assert(v.freelists@[c] == fl0[m].push(h2));
                    }
                    assert(v.freelists@[c][i0] == o[p]);
                }
            }
        }
        assert(v.table_ok()) by {
            reveal(Vmem::table_ok);
            let t = v.allocation_table@;
            assert forall|b: int, i: int|
                0 <= b < BUCKETS && 0 <= i < t[b].len() implies {
                    let h = #[trigger] t[b][i];
                    &&& h < v.tags@.len()
                    &&& v.tags@[h as int].is_used()
                    &&& bucket_of(v.tags@[h as int].base) == b
                } by {
                let h = t[b][i];
                assert(o0.contains(h));
                let m2 = choose|m2: int| 0 <= m2 < o0.len() && o0[m2] == h;
            }
            assert forall|b: int, i: int|
                0 <= b < BUCKETS && 0 <= i < t[b].len() implies o.contains(#[trigger] t[b][i]) by {
                let h = t[b][i];
                assert(o0.contains(h));
                let m2 = choose|m2: int| 0 <= m2 < o0.len() && o0[m2] == h;
                if m2 < j {
                    assert(o[m2] == h);
                } else {
                    assert(o[m2 + 2] == h);
                }
            }
            assert forall|p: int| 0 <= p < s.len() && (#[trigger] s[p]).is_used() implies t[bucket_of(
                s[p].base,
            )].contains(o[p]) by {
                let p0 = if p < j { p } else { p - 2 };
                assert(s0[p0] == s[p]);
                assert(o0[p0] == o[p]);
            }
        }
    }

    /// Carves `sz` off the front of the free tag at position `pos`, as a used
    /// tag linked just before it; the free tag keeps the rest.
    #[verifier::rlimit(100)]
    fn carve(&mut self, pos: usize, sz: usize) -> (base: usize)
        requires
            old(self).wf(),
            pos < old(self).segments().len(),
            old(self).segments()[pos as int].is_free(),
            old(self).segments()[pos as int].len >= sz,
            sz > 0,
            sz % old(self).quantum_spec() == 0,
        ensures
            final(self).wf(),
            base == old(self).segments()[pos as int].base,
            final(self).segments() == old(self).segments().update(
                pos as int,
                Bt {
                    kind: BtKind::Free,
                    base: (base + sz) as usize,
                    len: (old(self).segments()[pos as int].len - sz) as usize,
                },
            ).insert(pos as int, Bt { kind: BtKind::Used, base, len: sz }),
            final(self).last_pos() == pos,
            final(self).quantum_spec() == old(self).quantum_spec(),
            final(self).has_parent_spec() == old(self).has_parent_spec(),
    {
        let ghost v0 = *self;
        let ghost o0 = self.segment_list@;
        let ghost s0 = self.segments();
        let q = self.quantum;
        let h = self.segment_list.get(pos);
        proof {
            assert(h < self.tags@.len()) by {
                reveal(Vmem::handles_ok);
            }
        }
        let t = self.tags[h];
        proof {
            assert(s0[pos as int] == t);
            lemma_class_in_range(t.len, q);
            assert(t.len > 0 && t.len % q == 0 && bucketed(self.freelists@, self.tags@, q as nat)
                && t.base % q == 0 && t.end() <= usize::MAX) by {
                reveal(Vmem::list_ok);
                reveal(Vmem::lists_ok);
                lemma_props_at(s0, self.limits@, q, pos as int);
            }
        }
        self.freelists.remove(&self.tags, h, q);
        let ghost fl1 = self.freelists@;
        let ghost tags0 = self.tags@;
        let rest = Bt { kind: BtKind::Free, base: t.base + sz, len: t.len - sz };
        self.tags[h] = rest;
        proof {
            assert forall|k: int, i: int| 0 <= k < LISTS && 0 <= i < fl1[k].len() implies self.tags@[
                #[trigger] fl1[k][i] as int] == tags0[fl1[k][i] as int] by {
                assert(fl1[k].contains(fl1[k][i]));
            }
            lemma_bucketed_frame(fl1, tags0, self.tags@, q as nat);
            assert(!listed(fl1, h)) by {
                if listed(fl1, h) {
                    let k = choose|k: int| 0 <= k < fl1.len() && #[trigger] fl1[k].contains(h);
                }
            }
            lemma_mod_add_sub(t.len as int, sz as int, q as int);
        }
        let ghost m = log2_floor(rest.len as nat / q as nat) as int;
        if t.len - sz > 0 {
            self.freelists.insert(&self.tags, h, q);
        }
        proof {
            assert forall|k: int, x: usize| 0 <= k < LISTS implies #[trigger] self.freelists@[k].contains(x) <==> (
                (v0.freelists@[k].contains(x) && x != h) || (rest.len > 0 && x == h && k == m)) by {
                if rest.len > 0 {
                    if k == m {
                        assert(self.freelists@[k] == fl1[k].push(h));
                        if self.freelists@[k].contains(x) && x != h {
                            let i = choose|i: int| 0 <= i < self.freelists@[k].len() && self.freelists@[k][i] == x;
                            assert(fl1[k][i] == x);
                        }
                        if fl1[k].contains(x) {
                            let i = choose|i: int| 0 <= i < fl1[k].len() && fl1[k][i] == x;
                            assert(self.freelists@[k][i] == x);
                        }
                        if x == h {
                            assert(self.freelists@[k][fl1[k].len() as int] == h);
                        }
                    } else {
                        assert(self.freelists@[k] == fl1[k]);
                    }
                }
            }
            assert(self.handles_ok()) by {
                reveal(Vmem::handles_ok);
            }
        }
        let used = Bt { kind: BtKind::Used, base: t.base, len: sz };
        let ghost tags1 = self.tags@;
        let u = self.new_tag(used);
        self.segment_list.insert_before(u, pos);
        self.limits = Ghost(self.limits@.insert(pos as int, self.limits@[pos as int]));
        proof {
            assert(indexed(self.allocation_table@, self.tags@) && forall|j: int|
                0 <= j < BUCKETS ==> !(#[trigger] self.allocation_table@[j]).contains(u)) by {
                reveal(Vmem::table_ok);
                assert forall|j: int, i: int| 0 <= j < BUCKETS && 0 <= i < self.allocation_table@[j].len() implies self.tags@[
                    #[trigger] self.allocation_table@[j][i] as int] == tags0[self.allocation_table@[j][i] as int] by {
                    let x = self.allocation_table@[j][i];
                    assert(o0.contains(x));
                    assert(x != u);
                    assert(tags0[x as int].is_used());
                }
                lemma_indexed_frame(self.allocation_table@, tags0, self.tags@);
                assert forall|j: int| 0 <= j < BUCKETS implies !(#[trigger] self.allocation_table@[j]).contains(u) by {
                    if self.allocation_table@[j].contains(u) {
                        let i = choose|i: int| 0 <= i < self.allocation_table@[j].len() && self.allocation_table@[j][i] == u;
                    }
                }
            }
        }
        self.allocation_table.insert(&self.tags, u);
        self.last = Some(u);
        proof {
            assert forall|k: int, i: int| 0 <= k < LISTS && 0 <= i < self.freelists@[k].len() implies self.tags@[
                #[trigger] self.freelists@[k][i] as int] == tags1[self.freelists@[k][i] as int] by {
                let x = self.freelists@[k][i];
                assert(self.freelists@[k].contains(x));
                if x != h {
                    assert(v0.freelists@[k].contains(x));
                    reveal(Vmem::lists_ok);
                    let i0 = choose|i0: int| 0 <= i0 < v0.freelists@[k].len() && v0.freelists@[k][i0] == x;
                    assert(o0.contains(x));
                }
            }
            lemma_bucketed_frame(self.freelists@, tags1, self.tags@, q as nat);
            Self::lemma_carve_wf(v0, *self, pos as int, h, u, sz, m);
        }
        t.base
    }

    #[verifier::rlimit(100)]
    proof fn lemma_carve_wf(v0: Vmem, v: Vmem, pos: int, h: usize, u: usize, sz: usize, m: int)
        requires
            v0.wf(),
            0 <= pos < v0.segment_list@.len(),
            h == v0.segment_list@[pos],
            v0.segments()[pos].is_free(),
            v0.segments()[pos].len >= sz,
            sz > 0,
            sz % v0.quantum == 0,
            v.segment_list@ == v0.segment_list@.insert(pos, u),
            !v0.segment_list@.contains(u),
            u < v.tags@.len(),
            v.tags@.len() >= v0.tags@.len(),
            v.tags@[u as int] == (Bt { kind: BtKind::Used, base: v0.segments()[pos].base, len: sz }),
            v.tags@[h as int] == (Bt {
                kind: BtKind::Free,
                base: (v0.segments()[pos].base + sz) as usize,
                len: (v0.segments()[pos].len - sz) as usize,
            }),
            forall|x: int| 0 <= x < v0.tags@.len() && x != h && x != u ==> #[trigger] v.tags@[x] == v0.tags@[x],
            v.spare@.no_duplicates(),
            forall|i: int| 0 <= i < v.spare@.len() ==> v0.spare@.contains(#[trigger] v.spare@[i]) && v.spare@[i] != u,
            v.limits@ == v0.limits@.insert(pos, v0.limits@[pos]),
            m == log2_floor((v0.segments()[pos].len - sz) as nat / v0.quantum as nat),
            forall|k: int, x: usize| 0 <= k < LISTS ==> (#[trigger] v.freelists@[k].contains(x) <==> (
                (v0.freelists@[k].contains(x) && x != h) || (v0.segments()[pos].len - sz > 0 && x == h && k == m))),
            bucketed(v.freelists@, v.tags@, v0.quantum as nat),
            indexed(v.allocation_table@, v.tags@),
            v.allocation_table@ == v0.allocation_table@.update(
                bucket_of(v0.segments()[pos].base),
                v0.allocation_table@[bucket_of(v0.segments()[pos].base)].push(u),
            ),
            v.quantum == v0.quantum,
            v.last == Some(u),
        ensures
            v.wf(),
            v.last_pos() == pos,
            v.segments() == v0.segments().update(
                pos,
                Bt {
                    kind: BtKind::Free,
                    base: (v0.segments()[pos].base + sz) as usize,
                    len: (v0.segments()[pos].len - sz) as usize,
                },
            ).insert(pos, Bt { kind: BtKind::Used, base: v0.segments()[pos].base, len: sz }),
    {
        let o0 = v0.segment_list@;
        let o = v.segment_list@;
        let s0 = v0.segments();
        let s = v.segments();
        let q = v.quantum;
        let t = s0[pos];
        let used = Bt { kind: BtKind::Used, base: t.base, len: sz };
        let rest = Bt { kind: BtKind::Free, base: (t.base + sz) as usize, len: (t.len - sz) as usize };
        assert forall|i: int| 0 <= i < o0.len() implies o0[i] != u && o0[i] < v0.tags@.len() && (o0[i] == h
            <==> i == pos) by {
            reveal(Vmem::handles_ok);
            assert(o0.contains(o0[i]));
        }
        assert forall|k: int| 0 <= k < o.len() implies #[trigger] o[k] == (if k < pos {
            o0[k]
        } else if k == pos {
            u
        } else {
            o0[k - 1]
        }) by {}
        assert(s =~= s0.update(pos, rest).insert(pos, used)) by {
            assert forall|k: int| 0 <= k < s.len() implies s[k] == s0.update(pos, rest).insert(pos, used)[k] by {
                if k < pos {
                    assert(o[k] == o0[k]);
                } else if k == pos {
                } else if k == pos + 1 {
                    assert(o[k] == h);
                } else {
                    assert(o[k] == o0[k - 1]);
                }
            }
        }
        assert(v.list_ok()) by {
            reveal(Vmem::list_ok);
            lemma_list_split(s0, v0.limits@, q, pos, sz);
        }
        assert(v.handles_ok()) by {
            reveal(Vmem::handles_ok);
            assert forall|i: int| 0 <= i < v.spare@.len() implies #[trigger] v.spare@[i] < v.tags@.len()
                && !o.contains(v.spare@[i]) by {
                let x = v.spare@[i];
                let i0 = choose|i0: int| 0 <= i0 < v0.spare@.len() && v0.spare@[i0] == x;
                if o.contains(x) {
                    let j = choose|j: int| 0 <= j < o.len() && o[j] == x;
                    if j < pos {
                        assert(o0[j] == x);
                    } else if j > pos {
                        assert(o0[j - 1] == x);
                    }
                }
            }
            assert(o.no_duplicates()) by {
                assert forall|a: int, b: int| 0 <= a < o.len() && 0 <= b < o.len() && a != b implies o[a] != o[b] by {
                    if a != pos && b != pos {
                        let a0 = if a < pos { a } else { a - 1 };
                        let b0 = if b < pos { b } else { b - 1 };
                        assert(o[a] == o0[a0] && o[b] == o0[b0]);
                    }
                }
            }
            assert(o[pos] == u);
        }
        assert(v.lists_ok()) by {
            reveal(Vmem::lists_ok);
            assert forall|k: int, i: int|
                0 <= k < LISTS && 0 <= i < v.freelists@[k].len() implies o.contains(#[trigger] v.freelists@[k][i]) by {
                let x = v.freelists@[k][i];
                assert(v.freelists@[k].contains(x));
                if x == h {
                    assert(o[pos + 1] == h);
                } else {
                    assert(v0.freelists@[k].contains(x));
                    let i0 = choose|i0: int| 0 <= i0 < v0.freelists@[k].len() && v0.freelists@[k][i0] == x;
                    assert(o0.contains(x));
                    let j = choose|j: int| 0 <= j < o0.len() && o0[j] == x;
                    if j < pos {
                        assert(o[j] == x);
                    } else {
                        assert(o[j + 1] == x);
                    }
                }
            }
            assert forall|p: int| 0 <= p < s.len() && (#[trigger] s[p]).is_free() && s[p].len > 0
                implies v.freelists@[log2_floor(s[p].len as nat / q as nat) as int].contains(o[p]) by {
                let c = log2_floor(s[p].len as nat / q as nat) as int;
                lemma_class_in_range(s[p].len, q);
                if p == pos + 1 {
                    assert(o[p] == h);
                } else if p < pos {
                    assert(s[p] == s0[p] && o[p] == o0[p]);
                    assert(v0.freelists@[c].contains(o0[p]));
                } else {
                    assert(s[p] == s0[p - 1] && o[p] == o0[p - 1]);
                    assert(v0.freelists@[c].contains(o0[p - 1]));
                }
            }
        }
        assert(v.table_ok()) by {
            reveal(Vmem::table_ok);
            let t0 = v0.allocation_table@;
            let tb = v.allocation_table@;
            let bj = bucket_of(t.base);
            assert(0 <= bj < BUCKETS);
            assert forall|j: int, i: int|
                0 <= j < BUCKETS && 0 <= i < tb[j].len() implies o.contains(#[trigger] tb[j][i]) by {
                let x = tb[j][i];
                if j == bj && i == t0[j].len() {
                    assert(o[pos] == u);
                } else {
                    assert(t0[j][i] == x);
                    assert(o0.contains(x));
                    let m2 = choose|m2: int| 0 <= m2 < o0.len() && o0[m2] == x;
                    if m2 < pos {
                        assert(o[m2] == x);
                    } else {
                        assert(o[m2 + 1] == x);
                    }
                }
            }
            assert forall|p: int| 0 <= p < s.len() && (#[trigger] s[p]).is_used() implies tb[bucket_of(
                s[p].base,
            )].contains(o[p]) by {
                if p == pos {
                    assert(tb[bj][t0[bj].len() as int] == u);
                } else {
                    let p0 = if p < pos { p } else { p - 1 };
                    assert(s[p] == s0[p0] && o[p] == o0[p0]);
                    let b = bucket_of(s[p].base);
                    assert(t0[b].contains(o0[p0]));
                    let i = choose|i: int| 0 <= i < t0[b].len() && t0[b][i] == o0[p0];
                    assert(tb[b][i] == o0[p0]);
                }
            }
        }
        assert(o.index_of(u) == pos) by {
            reveal(Vmem::handles_ok);
            assert(o[pos] == u);
            assert(o.contains(u));
        }
    }

    /// The position where next-fit starts, and the first there that fits.
    fn next_fit(&self, sz: usize) -> (r: Option<usize>)
        requires
            self.wf(),
        ensures
            r.is_some() ==> first_fit_from(self.segments(), self.last_pos() + 1, r.unwrap() as int, sz as int),
            r.is_none() ==> forall|k: int| self.last_pos() + 1 <= k < self.segments().len() ==> !fits(
                self.segments(),
                k,
                sz as int,
            ),
    {
        let ghost s = self.segments();
        let n = self.segment_list.len();
        let start: usize = match self.last {
            Some(l) => match self.segment_list.position(l) {
                Some(p) => {
                    proof {
                        reveal(Vmem::handles_ok);
                        assert(self.segment_list@.contains(l));
                        assert(self.segment_list@.index_of(l) == p);
                    }
                    p + 1
                },
                None => {
                    proof {
                        reveal(Vmem::handles_ok);
                    }
                    0
                },
            },
            None => 0,
        };
        let mut k = start;
        while k < n
            invariant
                start == self.last_pos() + 1,
                start <= k,
                n == s.len(),
                s == self.segments(),
                self.wf(),
                forall|j: int| start <= j < k ==> !fits(s, j, sz as int),
            decreases n - k,
        {
            let h = self.segment_list.get(k);
            proof {
                assert(h < self.tags@.len()) by {
                    reveal(Vmem::handles_ok);
                }
            }
            let t = self.tags[h];
            proof {
                assert(s[k as int] == t);
            }
            if t.kind == BtKind::Free && t.len >= sz {
                return Some(k);
            }
            k += 1;
        }
        None
    }

    /// Hands out `size` bytes, rounded up to the quantum, from a free tag that
    /// `policy` picks; `None` when the policy finds none.
    pub fn allocate(&mut self, policy: AllocPolicy, size: usize) -> (r: Option<usize>)
        requires
            old(self).wf(),
        ensures
            final(self).wf(),
            final(self).quantum_spec() == old(self).quantum_spec(),
            final(self).has_parent_spec() == old(self).has_parent_spec(),
            r.is_none() ==> final(self).last_pos() == old(self).last_pos(),
            alloc_result(old(self).segments(), final(self).segments(), old(self).quantum_spec() as int, size, r),
            r.is_some() ==> ({
                let sz = round_up(size as int, old(self).quantum_spec() as int);
                &&& exists|p: int|
                    carved(old(self).segments(), final(self).segments(), p, sz) && final(self).last_pos() == p
                        && old(self).segments()[p].base == r.unwrap()
                &&& free_total(final(self).segments()) == free_total(old(self).segments()) - sz
            }),
            policy == AllocPolicy::BestFit ==> best_fit_result(
                old(self).segments(),
                final(self).segments(),
                old(self).quantum_spec() as int,
                size,
                r,
            ),
            policy == AllocPolicy::InstantFit ==> ({
                let s0 = old(self).segments();
                let q = old(self).quantum_spec() as int;
                let sz = round_up(size as int, q);
                &&& r.is_some() <==> size > 0 && sz <= usize::MAX && exists|p: int| instant_candidate(s0, p, sz, q)
                &&& r.is_some() ==> exists|p: int|
                    carved(s0, final(self).segments(), p, sz) && instant_candidate(s0, p, sz, q)
            }),
            policy == AllocPolicy::NextFit ==> ({
                let s0 = old(self).segments();
                let q = old(self).quantum_spec() as int;
                let sz = round_up(size as int, q);
                let from = old(self).last_pos() + 1;
                &&& (size > 0 && sz <= usize::MAX && exists|p: int| first_fit_from(s0, from, p, sz)) ==> exists|p: int|
                    first_fit_from(s0, from, p, sz) && carved(s0, final(self).segments(), p, sz) && r == Some(
                        s0[p].base,
                    ) && final(self).last_pos() == p && p > old(self).last_pos()
                &&& (size > 0 && sz <= usize::MAX && !exists|p: int| first_fit_from(s0, from, p, sz)) ==> (
                r.is_some() <==> exists|p: int| instant_candidate(s0, p, sz, q))
            }),
    {
        let ghost s0 = self.segments();
        let q = self.quantum;
        if size == 0 {
            return None;
        }
        let rem = size % q;
        let sz = if rem == 0 {
            size
        } else {
            if size > usize::MAX - (q - rem) {
                return None;
            }
            size + (q - rem)
        };
        proof {
            assert(sz == round_up(size as int, q as int));
            assert(sz % q == 0) by (nonlinear_arith)
                requires sz == (if size % q == 0 { size as int } else { size - size % q + q }), q > 0;
            assert(sz > 0);
        }
        let pos: usize = match policy {
            AllocPolicy::NextFit => match self.next_fit(sz) {
                Some(p) => p,
                None => match self.pick_instant(sz) {
                    Some(p) => p,
                    None => {
                        return None;
                    },
                },
            },
            AllocPolicy::InstantFit => match self.pick_instant(sz) {
                Some(p) => p,
                None => {
                    return None;
                },
            },
            AllocPolicy::BestFit => match self.pick_best(sz) {
                Some(p) => p,
                None => {
                    return None;
                },
            },
        };
        let base = self.carve(pos, sz);
        proof {
            lemma_free_total_carve(s0, pos as int, sz as int);
            assert(carved(s0, self.segments(), pos as int, sz as int));
        }
        Some(base)
    }

    /// The position of the tag that instant-fit takes for `sz`.
    fn pick_instant(&self, sz: usize) -> (r: Option<usize>)
        requires
            self.wf(),
            sz > 0,
            sz % self.quantum_spec() == 0,
        ensures
            r.is_some() <==> exists|p: int| instant_candidate(self.segments(), p, sz as int, self.quantum_spec() as int),
            r.is_some() ==> instant_candidate(self.segments(), r.unwrap() as int, sz as int, self.quantum_spec() as int)
                && fits(self.segments(), r.unwrap() as int, sz as int),
    {
        let ghost s = self.segments();
        let ghost o = self.segment_list@;
        let ghost q = self.quantum as int;
        proof {
            assert(bucketed(self.freelists@, self.tags@, self.quantum as nat)) by {
                reveal(Vmem::lists_ok);
            }
        }
        match self.freelists.instant_fit(&self.tags, sz, self.quantum) {
            Some(h) => {
                let found = self.segment_list.position(h);
                proof {
                    reveal(Vmem::lists_ok);
                    let k = choose|k: int| 0 <= k < self.freelists@.len() && #[trigger] self.freelists@[k].contains(h);
                    let i = choose|i: int| 0 <= i < self.freelists@[k].len() && self.freelists@[k][i] == h;
                    assert(o.contains(h));
                    let p = found.unwrap() as int;
                    assert(s[p] == self.tags@[h as int]);
                    assert(instant_candidate(s, p, sz as int, q));
                }
                found
            },
            None => {
                proof {
                    assert forall|p: int| !instant_candidate(s, p, sz as int, q) by {
                        if instant_candidate(s, p, sz as int, q) {
                            reveal(Vmem::lists_ok);
                            let c = log2_floor(s[p].len as nat / q as nat) as int;
                            lemma_class_in_range(s[p].len, self.quantum);
                            assert(self.freelists@[c].contains(o[p]));
                        }
                    }
                }
                None
            },
        }
    }

    /// The position of the shortest free tag of at least `sz`.
    fn pick_best(&self, sz: usize) -> (r: Option<usize>)
        requires
            self.wf(),
            sz > 0,
            sz % self.quantum_spec() == 0,
        ensures
            r.is_some() <==> exists|p: int| fits(self.segments(), p, sz as int),
            r.is_some() ==> fits(self.segments(), r.unwrap() as int, sz as int) && forall|k: int|
                fits(self.segments(), k, sz as int) ==> self.segments()[r.unwrap() as int].len
                    <= #[trigger] self.segments()[k].len,
    {
        let ghost s = self.segments();
        let ghost o = self.segment_list@;
        let ghost q = self.quantum as int;
        proof {
            assert(bucketed(self.freelists@, self.tags@, self.quantum as nat)) by {
                reveal(Vmem::lists_ok);
            }
        }
        match self.freelists.best_fit(&self.tags, sz, self.quantum) {
            Some(h) => {
                let found = self.segment_list.position(h);
                proof {
                    reveal(Vmem::lists_ok);
                    let k = choose|k: int| 0 <= k < self.freelists@.len() && #[trigger] self.freelists@[k].contains(h);
                    let i = choose|i: int| 0 <= i < self.freelists@[k].len() && self.freelists@[k][i] == h;
                    assert(o.contains(h));
                    let p = found.unwrap() as int;
                    assert(s[p] == self.tags@[h as int]);
                    assert(self.tags@[h as int].is_free());
                    assert(fits(s, p, sz as int));
                    assert forall|k2: int| fits(s, k2, sz as int) implies s[p].len <= #[trigger] s[k2].len by {
                        let c = log2_floor(s[k2].len as nat / q as nat) as int;
                        lemma_class_in_range(s[k2].len, self.quantum);
                        assert(self.freelists@[c].contains(o[k2]));
                        let i2 = choose|i2: int| 0 <= i2 < self.freelists@[c].len() && self.freelists@[c][i2] == o[k2];
                        assert(self.tags@[self.freelists@[c][i2] as int] == s[k2]);
                    }
                }
                found
            },
            None => {
                proof {
                    assert forall|p: int| !fits(s, p, sz as int) by {
                        if fits(s, p, sz as int) {
                            reveal(Vmem::lists_ok);
                            let c = log2_floor(s[p].len as nat / q as nat) as int;
                            lemma_class_in_range(s[p].len, self.quantum);
                            assert(self.freelists@[c].contains(o[p]));
                            let i2 = choose|i2: int| 0 <= i2 < self.freelists@[c].len() && self.freelists@[c][i2] == o[p];
                            assert(self.tags@[self.freelists@[c][i2] as int] == s[p]);
                        }
                    }
                }
                None
            },
        }
    }

    /// Files the handle `bt`, which no list holds any more, for reuse.
    fn release(&mut self, bt: usize)
        ensures
            final(self).spare@ == old(self).spare@.push(bt),
            final(self).last == (if old(self).last == Some(bt) {
                None
            } else {
                old(self).last
            }),
            final(self).tags == old(self).tags,
            final(self).segment_list@ == old(self).segment_list@,
            final(self).freelists@ == old(self).freelists@,
            final(self).allocation_table@ == old(self).allocation_table@,
            final(self).quantum == old(self).quantum,
            final(self).parent == old(self).parent,
            final(self).limits == old(self).limits,
    {
        if self.last == Some(bt) {
            self.last = None;
        }
        self.spare.push(bt);
    }

    /// Gives back the allocation at `base`: its tag turns free and merges with
    /// the free tags next to it.
    #[verifier::rlimit(100)]
    pub fn free(&mut self, base: usize)
        requires
            old(self).wf(),
            exists|p: int|
                0 <= p < old(self).segments().len() && old(self).segments()[p].is_used()
                    && #[trigger] old(self).segments()[p].base == base,
        ensures
            final(self).wf(),
            final(self).quantum_spec() == old(self).quantum_spec(),
            final(self).has_parent_spec() == old(self).has_parent_spec(),
            forall|p: int|
                0 <= p < old(self).segments().len() && old(self).segments()[p].is_used()
                    && #[trigger] old(self).segments()[p].base == base ==> freed(
                    old(self).segments(),
                    final(self).segments(),
                    p,
                ) && free_total(final(self).segments()) == free_total(old(self).segments())
                    + old(self).segments()[p].len,
            forall|k: int|
                0 <= k < final(self).segments().len() ==> !((#[trigger] final(self).segments()[k]).is_used()
                    && final(self).segments()[k].base == base),
    {
        let ghost v0 = *self;
        let ghost s0 = self.segments();
        let ghost o0 = self.segment_list@;
        let ghost lim0 = self.limits@;
        let ghost p0 = choose|p: int|
            0 <= p < s0.len() && s0[p].is_used() && #[trigger] s0[p].base == base;
        let q = self.quantum;
        proof {
            assert(list_props(s0, lim0, q) && indexed(self.allocation_table@, self.tags@)
                && self.allocation_table@[bucket_of(base)].contains(o0[p0]) && o0[p0] < self.tags@.len()
                && bucketed(self.freelists@, self.tags@, q as nat) && o0.no_duplicates()) by {
                reveal(Vmem::list_ok);
                reveal(Vmem::table_ok);
                reveal(Vmem::lists_ok);
                reveal(Vmem::handles_ok);
            }
        }
        let h = match self.allocation_table.get(&self.tags, base) {
            Some(h) => h,
            None => {
                proof {
                    let i = choose|i: int|
                        0 <= i < self.allocation_table@[bucket_of(base)].len()
                            && self.allocation_table@[bucket_of(base)][i] == o0[p0];
                    assert(self.tags@[o0[p0] as int] == s0[p0]);
                }
                return ;
            },
        };
        proof {
            assert(o0.contains(h) && h < self.tags@.len()) by {
                reveal(Vmem::table_ok);
                reveal(Vmem::handles_ok);
                let b = bucket_of(base);
                let i = choose|i: int| 0 <= i < self.allocation_table@[b].len() && self.allocation_table@[b][i] == h;
            }
            let ph = choose|ph: int| 0 <= ph < o0.len() && o0[ph] == h;
            assert(s0[ph] == self.tags@[h as int]);
            lemma_used_base_unique(s0, lim0, q, ph, p0);
            assert(h == o0[p0]);
        }
        let p = match self.segment_list.position(h) {
            Some(p) => p,
            None => {
                proof {
                    assert(o0[p0] == h);
                }
                return ;
            },
        };
        proof {
            assert(p == p0);
            lemma_merge_run(s0, lim0, q, p as int);
        }
        let ghost lo = merge_lo(s0, p as int);
        let ghost hi = merge_hi(s0, p as int);
        self.allocation_table.remove(&self.tags, h);
        let t = self.tags[h];
        let n = self.segment_list.len();
        let mut mlen: usize = t.len;
        let mut mbase: usize = t.base;
        if p + 1 < n {
            let hn = self.segment_list.get(p + 1);
            proof {
                assert(hn < self.tags@.len()) by {
                    reveal(Vmem::handles_ok);
                }
            }
            let tn = self.tags[hn];
            proof {
                assert(s0[p + 1] == tn);
                lemma_props_at(s0, lim0, q, p + 1);
            }
            if tn.kind == BtKind::Free {
                if tn.len > 0 {
                    self.freelists.remove(&self.tags, hn, q);
                }
                mlen = mlen + tn.len;
                self.segment_list.remove(p + 1);
                self.limits = Ghost(self.limits@.remove(p + 1));
                self.release(hn);
            }
        }
        let ghost mid = *self;
        if p > 0 {
            let hp = self.segment_list.get(p - 1);
            proof {
                assert(self.segment_list@[p - 1] == o0[p - 1]);
                assert(hp < self.tags@.len()) by {
                    reveal(Vmem::handles_ok);
                }
            }
            let tp = self.tags[hp];
            proof {
                assert(s0[p - 1] == tp);
                lemma_props_at(s0, lim0, q, p - 1);
            }
            if tp.kind == BtKind::Free {
                if tp.len > 0 {
                    self.freelists.remove(&self.tags, hp, q);
                }
                mbase = tp.base;
                mlen = mlen + tp.len;
                self.segment_list.remove(p - 1);
                self.limits = Ghost(self.limits@.remove(p - 1));
                self.release(hp);
            }
        }
        let merged = Bt { kind: BtKind::Free, base: mbase, len: mlen };
        proof {
            assert(merged == merged_tag(s0, p as int));
        }
        let ghost fl2 = self.freelists@;
        let ghost tags2 = self.tags@;
        self.tags[h] = merged;
        proof {
            lemma_class_in_range(merged.len, q);
            Self::lemma_free_lists_pre(v0, mid, *self, p as int, h, tags2, fl2);
        }
        self.freelists.insert(&self.tags, h, q);
        proof {
            Self::lemma_free_wf(v0, mid, *self, p as int, h, fl2);
            lemma_free_total_merge(s0, lim0, q, p as int);
            assert forall|p1: int|
                0 <= p1 < s0.len() && s0[p1].is_used() && #[trigger] s0[p1].base == base implies p1 == p by {
                lemma_used_base_unique(s0, lim0, q, p1, p as int);
            }
            lemma_freed_no_used(s0, lim0, q, p as int);
        }
    }

    /// What holds of the free lists just before the merged tag goes in.
    proof fn lemma_free_lists_pre(v0: Vmem, mid: Vmem, v: Vmem, p: int, h: usize, tags2: Seq<Bt>, fl2: Seq<Seq<usize>>)
        requires
            v0.wf(),
            0 <= p < v0.segment_list@.len(),
            h == v0.segment_list@[p],
            v0.segments()[p].is_used(),
            tags2 == v0.tags@,
            v.tags@ == tags2.update(h as int, merged_tag(v0.segments(), p)),
            fl2 == v.freelists@,
            bucketed(fl2, tags2, v0.quantum as nat),
            forall|k: int, x: usize| 0 <= k < LISTS && #[trigger] fl2[k].contains(x) ==> v0.freelists@[k].contains(x),
            v.quantum == v0.quantum,
        ensures
            bucketed(v.freelists@, v.tags@, v.quantum as nat),
            !listed(v.freelists@, h),
            h < v.tags@.len(),
            v.tags@[h as int].len % v.quantum == 0,
            v.tags@[h as int].len > 0,
    {
        let s0 = v0.segments();
        let q = v0.quantum;
        assert(h < v0.tags@.len() && list_props(s0, v0.limits@, q)) by {
            reveal(Vmem::handles_ok);
            reveal(Vmem::list_ok);
        }
        lemma_merge_run(s0, v0.limits@, q, p);
        assert(tags2[h as int] == s0[p]);
        assert forall|k: int, i: int| 0 <= k < LISTS && 0 <= i < fl2[k].len() implies v.tags@[
            #[trigger] fl2[k][i] as int] == tags2[fl2[k][i] as int] by {
            assert(tags2[fl2[k][i] as int].is_free());
        }
        lemma_bucketed_frame(fl2, tags2, v.tags@, q as nat);
        if listed(fl2, h) {
            let k = choose|k: int| 0 <= k < fl2.len() && #[trigger] fl2[k].contains(h);
            let i = choose|i: int| 0 <= i < fl2[k].len() && fl2[k][i] == h;
        }
    }

    #[verifier::rlimit(100)]
    proof fn lemma_free_wf(v0: Vmem, mid: Vmem, v: Vmem, p: int, h: usize, fl2: Seq<Seq<usize>>)
        requires
            v0.wf(),
            0 <= p < v0.segment_list@.len(),
            h == v0.segment_list@[p],
            v0.segments()[p].is_used(),
            ({
                let o0 = v0.segment_list@;
                let lim0 = v0.limits@;
                let s0 = v0.segments();
                let lo = merge_lo(s0, p);
                let hi = merge_hi(s0, p);
                let o1 = if hi > p + 1 { o0.remove(p + 1) } else { o0 };
                let l1 = if hi > p + 1 { lim0.remove(p + 1) } else { lim0 };
                &&& v.segment_list@ == (if lo < p { o1.remove(p - 1) } else { o1 })
                &&& v.limits@ == (if lo < p { l1.remove(p - 1) } else { l1 })
                &&& mid.segment_list@ == o1
                &&& mid.spare@ == (if hi > p + 1 { v0.spare@.push(o0[p + 1]) } else { v0.spare@ })
                &&& v.spare@ == (if lo < p { mid.spare@.push(o0[p - 1]) } else { mid.spare@ })
                &&& mid.last == (if hi > p + 1 && v0.last == Some(o0[p + 1]) { None } else { v0.last })
                &&& v.last == (if lo < p && mid.last == Some(o0[p - 1]) { None } else { mid.last })
                &&& forall|k: int, x: usize| 0 <= k < LISTS ==> (#[trigger] fl2[k].contains(x) <==> (
                    v0.freelists@[k].contains(x) && !(hi > p + 1 && x == o0[p + 1]) && !(lo < p && x == o0[p - 1])))
            }),
            v.tags@ == v0.tags@.update(h as int, merged_tag(v0.segments(), p)),
            v.freelists@ == fl2.update(
                log2_floor(merged_tag(v0.segments(), p).len as nat / v0.quantum as nat) as int,
                fl2[log2_floor(merged_tag(v0.segments(), p).len as nat / v0.quantum as nat) as int].push(h),
            ),
            log2_floor(merged_tag(v0.segments(), p).len as nat / v0.quantum as nat) < LISTS,
            fl2.len() == LISTS,
            bucketed(v.freelists@, v.tags@, v0.quantum as nat),
            indexed(v.allocation_table@, v0.tags@),
            forall|j: int, x: usize| 0 <= j < BUCKETS ==> (#[trigger] v.allocation_table@[j].contains(x) <==> (
                v0.allocation_table@[j].contains(x) && x != h)),
            v.allocation_table@.len() == BUCKETS,
            v.quantum == v0.quantum,
        ensures
            v.wf(),
            freed(v0.segments(), v.segments(), p),
    {
        let o0 = v0.segment_list@;
        let lim0 = v0.limits@;
        let s0 = v0.segments();
        let q = v0.quantum;
        let lo = merge_lo(s0, p);
        let hi = merge_hi(s0, p);
        let d = hi - lo - 1;
        let o = v.segment_list@;
        let s = v.segments();
        let mt = merged_tag(s0, p);
        let c = log2_floor(mt.len as nat / q as nat) as int;
        assert(list_props(s0, lim0, q) && o0.no_duplicates()) by {
            reveal(Vmem::list_ok);
            reveal(Vmem::handles_ok);
        }
        lemma_merge_run(s0, lim0, q, p);
        lemma_merge_index(s0, lim0, p);
        assert forall|i: int| 0 <= i < o0.len() implies #[trigger] o0[i] < v0.tags@.len() by {
            reveal(Vmem::handles_ok);
        }
        assert forall|k: int| 0 <= k < o.len() implies #[trigger] o[k] == (if k < lo {
            o0[k]
        } else if k == lo {
            h
        } else {
            o0[k + d]
        }) by {}
        assert(o.len() == s.len());
        assert(s =~= merged_list(s0, p)) by {
            assert forall|k: int| 0 <= k < s.len() implies s[k] == merged_list(s0, p)[k] by {
                if k < lo {
                    assert(o0[k] != h);
                } else if k > lo {
                    assert(o0[k + d] != h);
                }
            }
        }
        assert(v.limits@ =~= merged_limits(lim0, s0, p)) by {}
        let released = |x: usize| (hi > p + 1 && x == o0[p + 1]) || (lo < p && x == o0[p - 1]);
        assert(v.list_ok()) by {
            reveal(Vmem::list_ok);
            lemma_list_merge(s0, lim0, q, p);
        }
        assert(v.handles_ok()) by {
            reveal(Vmem::handles_ok);
            assert forall|i: int| 0 <= i < o.len() implies #[trigger] o[i] < v.tags@.len() by {}
            assert(o.no_duplicates()) by {
                assert forall|a: int, b: int| 0 <= a < o.len() && 0 <= b < o.len() && a != b implies o[a] != o[b] by {
                    let a0 = if a < lo { a } else if a == lo { p } else { a + d };
                    let b0 = if b < lo { b } else if b == lo { p } else { b + d };
                    assert(o[a] == o0[a0] && o[b] == o0[b0]);
                }
            }
            assert forall|i: int| 0 <= i < v.spare@.len() implies #[trigger] v.spare@[i] < v.tags@.len()
                && !o.contains(v.spare@[i]) by {
                let x = v.spare@[i];
                if o.contains(x) {
                    let k = choose|k: int| 0 <= k < o.len() && o[k] == x;
                    let k0 = if k < lo { k } else if k == lo { p } else { k + d };
                    assert(o0[k0] == x);
                    if i < v0.spare@.len() {
                        assert(v0.spare@[i] == x);
                        assert(o0.contains(x));
                    }
                }
            }
            assert(v.spare@.no_duplicates()) by {
                assert forall|a: int, b: int| 0 <= a < v.spare@.len() && 0 <= b < v.spare@.len() && a != b implies v.spare@[a] != v.spare@[b] by {
                    if a < v0.spare@.len() {
                        assert(v0.spare@[a] == v.spare@[a]);
                        assert(!o0.contains(v.spare@[a]));
                    }
                    if b < v0.spare@.len() {
                        assert(v0.spare@[b] == v.spare@[b]);
                        assert(!o0.contains(v.spare@[b]));
                    }
                }
            }
            if v.last.is_some() {
                let x = v.last.unwrap();
                assert(o0.contains(x));
                let k0 = choose|k0: int| 0 <= k0 < o0.len() && o0[k0] == x;
                if k0 < lo {
                    assert(o[k0] == x);
                } else if k0 >= hi {
                    assert(o[k0 - d] == x);
                } else {
                    assert(k0 == p);
                    assert(o[lo] == x);
                }
            }
        }
        assert(v.lists_ok()) by {
            reveal(Vmem::lists_ok);
            assert forall|k: int, i: int|
                0 <= k < LISTS && 0 <= i < v.freelists@[k].len() implies o.contains(#[trigger] v.freelists@[k][i]) by {
                let x = v.freelists@[k][i];
                if x == h {
                    assert(o[lo] == h);
                } else {
                    if k == c {
                        assert(i < fl2[k].len());
                    }
                    assert(fl2[k][i] == x);
                    assert(fl2[k].contains(x));
                    let i0 = choose|i0: int| 0 <= i0 < v0.freelists@[k].len() && v0.freelists@[k][i0] == x;
                    assert(o0.contains(x));
                    let k0 = choose|k0: int| 0 <= k0 < o0.len() && o0[k0] == x;
                    assert(k0 != p) by {
                        assert(v0.tags@[x as int].is_free());
                    }
                    if k0 < lo {
                        assert(o[k0] == x);
                    } else if k0 >= hi {
                        assert(o[k0 - d] == x);
                    }
                }
            }
            assert forall|pp: int| 0 <= pp < s.len() && (#[trigger] s[pp]).is_free() && s[pp].len > 0
                implies v.freelists@[log2_floor(s[pp].len as nat / q as nat) as int].contains(o[pp]) by {
                let cc = log2_floor(s[pp].len as nat / q as nat) as int;
                lemma_class_in_range(s[pp].len, q);
                if pp == lo {
                    assert(v.freelists@[c][fl2[c].len() as int] == h);
                } else {
                    let k0 = if pp < lo { pp } else { pp + d };
                    assert(s[pp] == s0[k0] && o[pp] == o0[k0]);
                    assert(v0.freelists@[cc].contains(o0[k0]));
                    assert(o0[k0] != o0[p]);
                    if lo < p {
                        assert(k0 != p - 1);
                    }
                    if hi > p + 1 {
                        assert(k0 != p + 1);
                    }
                    assert(fl2[cc].contains(o0[k0]));
                    let i0 = choose|i0: int| 0 <= i0 < fl2[cc].len() && fl2[cc][i0] == o0[k0];
                    assert(v.freelists@[cc][i0] == o0[k0]);
                }
            }
        }
        assert(v.table_ok()) by {
            reveal(Vmem::table_ok);
            let tb = v.allocation_table@;
            assert forall|j: int, i: int| 0 <= j < BUCKETS && 0 <= i < tb[j].len() implies v.tags@[
                #[trigger] tb[j][i] as int] == v0.tags@[tb[j][i] as int] by {
                assert(tb[j].contains(tb[j][i]));
            }
            lemma_indexed_frame(tb, v0.tags@, v.tags@);
            assert forall|j: int, i: int|
                0 <= j < BUCKETS && 0 <= i < tb[j].len() implies o.contains(#[trigger] tb[j][i]) by {
                let x = tb[j][i];
                assert(tb[j].contains(x));
                let i0 = choose|i0: int| 0 <= i0 < v0.allocation_table@[j].len() && v0.allocation_table@[j][i0] == x;
                assert(o0.contains(x));
                let k0 = choose|k0: int| 0 <= k0 < o0.len() && o0[k0] == x;
                assert(v0.tags@[x as int].is_used());
                assert(s0[k0] == v0.tags@[x as int]);
                if k0 < lo {
                    assert(o[k0] == x);
                } else if k0 >= hi {
                    assert(o[k0 - d] == x);
                } else {
                    assert(k0 == p);
                }
            }
            assert forall|pp: int| 0 <= pp < s.len() && (#[trigger] s[pp]).is_used() implies tb[bucket_of(
                s[pp].base,
            )].contains(o[pp]) by {
                let k0 = if pp < lo { pp } else { pp + d };
                assert(pp != lo);
                assert(s[pp] == s0[k0] && o[pp] == o0[k0]);
                assert(v0.allocation_table@[bucket_of(s0[k0].base)].contains(o0[k0]));
                assert(o0[k0] != h);
            }
        }
    }

    /// The tags in segment-list order.
    pub fn segment_tags(&self) -> (r: Vec<Bt>)
        requires
            self.wf(),
        ensures
            r@ == self.segments(),
    {
        let ghost s = self.segments();
        let n = self.segment_list.len();
        let mut r: Vec<Bt> = Vec::new();
        let mut i: usize = 0;
        while i < n
            invariant
                n == s.len(),
                s == self.segments(),
                self.wf(),
                i <= n,
                r@ == s.subrange(0, i as int),
            decreases n - i,
        {
            let h = self.segment_list.get(i);
            proof {
                assert(h < self.tags@.len()) by {
                    reveal(Vmem::handles_ok);
                }
            }
            r.push(self.tags[h]);
            proof {
                assert(r@ =~= s.subrange(0, i + 1));
            }
            i += 1;
        }
        proof {
            assert(r@ =~= s);
        }
        r
    }

    /// The total length of the arena's free tags.
    pub fn free_capacity(&self) -> (r: u128)
        requires
            self.wf(),
        ensures
            r == free_total(self.segments()),
    {
        let ghost s = self.segments();
        let n = self.segment_list.len();
        let mut total: u128 = 0;
        let mut i: usize = 0;
        while i < n
            invariant
                n == s.len(),
                s == self.segments(),
                self.wf(),
                i <= n,
                total == free_total(s.subrange(0, i as int)),
                total <= i * 0xffff_ffff_ffff_ffffu128,
            decreases n - i,
        {
            let h = self.segment_list.get(i);
            proof {
                assert(h < self.tags@.len()) by {
                    reveal(Vmem::handles_ok);
                }
                assert(s.subrange(0, i + 1).drop_last() =~= s.subrange(0, i as int));
                assert(s[i as int] == self.tags@[h as int]);
            }
            let t = self.tags[h];
            proof {
                assert((i + 1) * 0xffff_ffff_ffff_ffffu128 == i * 0xffff_ffff_ffff_ffffu128 + 0xffff_ffff_ffff_ffffu128)
                    by (nonlinear_arith);
            }
            if t.kind == BtKind::Free {
                total = total + t.len as u128;
            }
            i += 1;
        }
        proof {
            assert(s.subrange(0, n as int) =~= s);
        }
        total
    }

    /// The used tag at `base`, found through the allocation table.
    pub fn used_tag(&self, base: usize) -> (r: Option<Bt>)
        requires
            self.wf(),
        ensures
            r.is_some() <==> exists|p: int|
                0 <= p < self.segments().len() && self.segments()[p].is_used() && #[trigger] self.segments()[p].base
                    == base,
            forall|p: int|
                0 <= p < self.segments().len() && self.segments()[p].is_used() && #[trigger] self.segments()[p].base
                    == base ==> r == Some(self.segments()[p]),
    {
        let ghost s = self.segments();
        let ghost o = self.segment_list@;
        proof {
            assert(indexed(self.allocation_table@, self.tags@) && list_props(s, self.limits@, self.quantum)) by {
                reveal(Vmem::table_ok);
                reveal(Vmem::list_ok);
            }
        }
        match self.allocation_table.get(&self.tags, base) {
            Some(h) => {
                let t = self.tags[h];
                proof {
                    reveal(Vmem::table_ok);
                    let b = bucket_of(base);
                    let i = choose|i: int| 0 <= i < self.allocation_table@[b].len() && self.allocation_table@[b][i] == h;
                    assert(o.contains(h));
                    let ph = choose|ph: int| 0 <= ph < o.len() && o[ph] == h;
                    assert(s[ph] == t);
                    assert forall|p: int|
                        0 <= p < s.len() && s[p].is_used() && #[trigger] s[p].base == base implies Some(t) == Some(s[p]) by {
                        lemma_used_base_unique(s, self.limits@, self.quantum, p, ph);
                    }
                }
                Some(t)
            },
            None => {
                proof {
                    assert forall|p: int| !(0 <= p < s.len() && s[p].is_used() && #[trigger] s[p].base == base) by {
                        if 0 <= p < s.len() && s[p].is_used() && s[p].base == base {
                            reveal(Vmem::table_ok);
                            let b = bucket_of(base);
                            assert(self.allocation_table@[b].contains(o[p]));
                            let i = choose|i: int| 0 <= i < self.allocation_table@[b].len() && self.allocation_table@[b][i] == o[p];
                            assert(self.tags@[o[p] as int] == s[p]);
                        }
                    }
                }
                None
            },
        }
    }

    /// The tags of freelist bucket `k`, each a free tag of the arena of
    /// `2^k` up to `2^(k+1)` quanta.
    pub fn freelist(&self, k: usize) -> (r: Vec<Bt>)
        requires
            self.wf(),
            k < LISTS,
        ensures
            forall|i: int|
                0 <= i < r@.len() ==> {
                    let t = #[trigger] r@[i];
                    &&& t.is_free()
                    &&& pow2(k as nat) <= (t.len as nat) / (self.quantum_spec() as nat) < pow2(k as nat + 1)
                    &&& self.segments().contains(t)
                },
            r@.no_duplicates(),
            forall|p: int|
                0 <= p < self.segments().len() && (#[trigger] self.segments()[p]).is_free() && self.segments()[p].len
                    > 0 && log2_floor(self.segments()[p].len as nat / self.quantum_spec() as nat) == k ==> r@.contains(
                    self.segments()[p],
                ),
    {
        let ghost s = self.segments();
        let ghost o = self.segment_list@;
        let q = self.quantum;
        proof {
            assert(self.freelists@.len() == LISTS) by {
                reveal(Vmem::lists_ok);
            }
        }
        let queue = self.freelists.list(k);
        let mut r: Vec<Bt> = Vec::new();
        let mut i: usize = 0;
        proof {
            assert(bucketed(self.freelists@, self.tags@, q as nat) && forall|k2: int, i2: int|
                0 <= k2 < LISTS && 0 <= i2 < self.freelists@[k2].len() ==> o.contains(
                #[trigger] self.freelists@[k2][i2])) by {
                reveal(Vmem::lists_ok);
            }
        }
        while i < queue.len()
            invariant
                i <= queue@.len(),
                queue@ == self.freelists@[k as int],
                k < LISTS,
                q == self.quantum,
                q > 0,
                s == self.segments(),
                o == self.segment_list@,
                bucketed(self.freelists@, self.tags@, q as nat),
                forall|k2: int, i2: int|
                    0 <= k2 < LISTS && 0 <= i2 < self.freelists@[k2].len() ==> o.contains(
                    #[trigger] self.freelists@[k2][i2]),
                forall|j: int|
                    0 <= j < r@.len() ==> {
                        let t = #[trigger] r@[j];
                        &&& t.is_free()
                        &&& pow2(k as nat) <= (t.len as nat) / (q as nat) < pow2(k as nat + 1)
                        &&& s.contains(t)
                    },
                r@ == queue@.subrange(0, i as int).map_values(|h: usize| self.tags@[h as int]),
            decreases queue@.len() - i,
        {
            let h = queue.get(i);
            let t = self.tags[h];
            proof {
                assert(self.freelists@[k as int][i as int] == h);
                assert(o.contains(h));
                let ph = choose|ph: int| 0 <= ph < o.len() && o[ph] == h;
                assert(s[ph] == t);
                freelists::lemma_multiple_at_least(t.len as nat, q as nat);
                lemma_log2_floor_bounds(t.len as nat / q as nat);
            }
            r.push(t);
            proof {
                assert(r@ =~= queue@.subrange(0, i + 1).map_values(|h: usize| self.tags@[h as int]));
            }
            i += 1;
        }
        proof {
            assert(queue@.subrange(0, i as int) =~= queue@);
            assert(list_props(s, self.limits@, q) && o.no_duplicates() && queue@.no_duplicates()) by {
                reveal(Vmem::list_ok);
                reveal(Vmem::handles_ok);
            }
            assert forall|p: int|
                0 <= p < s.len() && (#[trigger] s[p]).is_free() && s[p].len > 0 && log2_floor(
                    s[p].len as nat / q as nat,
                ) == k implies r@.contains(s[p]) by {
                reveal(Vmem::lists_ok);
                assert(queue@.contains(o[p]));
                let m = choose|m: int| 0 <= m < queue@.len() && queue@[m] == o[p];
                assert(r@[m] == s[p]);
            }
            assert forall|a: int, b: int| 0 <= a < r@.len() && 0 <= b < r@.len() && a != b implies r@[a] != r@[b] by {
                let ha = queue@[a];
                let hb = queue@[b];
                assert(self.freelists@[k as int][a] == ha && self.freelists@[k as int][b] == hb);
                assert(o.contains(ha) && o.contains(hb));
                let pa = choose|pa: int| 0 <= pa < o.len() && o[pa] == ha;
                let pb = choose|pb: int| 0 <= pb < o.len() && o[pb] == hb;
                assert(s[pa] == r@[a] && s[pb] == r@[b]);
                if r@[a] == r@[b] {
                    lemma_props_apart(s, self.limits@, q, pa, pb);
                }
            }
        }
        r
    }

    /// Adds the span `[base, base + len)` to the arena, free as a whole, at
    /// its place in address order.
    pub fn add_span(&mut self, base: usize, len: usize)
        requires
            old(self).wf(),
            len > 0,
            base % old(self).quantum_spec() == 0,
            len % old(self).quantum_spec() == 0,
            base + len <= usize::MAX,
            clear_of(old(self).segments(), base as int, len as int),
        ensures
            final(self).wf(),
            exists|j: int|
                span_slot(old(self).segments(), base as int, j) && final(self).segments() == with_span(
                    old(self).segments(),
                    j,
                    Bt { kind: BtKind::Span, base, len },
                    Bt { kind: BtKind::Free, base, len },
                ),
            sorted_by_base(final(self).segments()),
            free_total(final(self).segments()) == free_total(old(self).segments()) + len,
            final(self).quantum_spec() == old(self).quantum_spec(),
            final(self).parent_spec() == old(self).parent_spec(),
    {
        self.add_span_kind(BtKind::Span, base, len);
        proof {
            let s0 = old(self).segments();
            let span = Bt { kind: BtKind::Span, base, len };
            let free = Bt { kind: BtKind::Free, base, len };
            let j = choose|j: int| span_slot(s0, base as int, j) && self.segments() == with_span(s0, j, span, free);
            lemma_free_total_with_span(s0, j, span, free);
            Self::lemma_wf_sorted(self);
        }
    }

    /// Adds `[base, base + len)`, drawn from the parent arena, free as a
    /// whole, at its place in address order.
    pub fn borrow_span(&mut self, base: usize, len: usize)
        requires
            old(self).wf(),
            old(self).has_parent_spec(),
            len > 0,
            base % old(self).quantum_spec() == 0,
            len % old(self).quantum_spec() == 0,
            base + len <= usize::MAX,
            clear_of(old(self).segments(), base as int, len as int),
        ensures
            final(self).wf(),
            exists|j: int|
                span_slot(old(self).segments(), base as int, j) && final(self).segments() == with_span(
                    old(self).segments(),
                    j,
                    Bt { kind: BtKind::ImportedSpan, base, len },
                    Bt { kind: BtKind::Free, base, len },
                ),
            sorted_by_base(final(self).segments()),
            final(self).quantum_spec() == old(self).quantum_spec(),
            final(self).parent_spec() == old(self).parent_spec(),
    {
        self.add_span_kind(BtKind::ImportedSpan, base, len);
        proof {
            Self::lemma_wf_sorted(self);
        }
    }

    proof fn lemma_wf_sorted(v: &Vmem)
        requires
            v.wf(),
        ensures
            sorted_by_base(v.segments()),
    {
        assert(list_props(v.segments(), v.limits@, v.quantum)) by {
            reveal(Vmem::list_ok);
        }
        lemma_props_sorted(v.segments(), v.limits@, v.quantum);
    }

    /// Records `parent` as the arena that imported spans are drawn from.
    pub fn set_parent(&mut self, parent: &'src Vmem<'src>)
        requires
            old(self).wf(),
            !old(self).has_parent_spec(),
        ensures
            final(self).wf(),
            final(self).segments() == old(self).segments(),
            final(self).quantum_spec() == old(self).quantum_spec(),
            final(self).parent_spec() == Some(parent),
            final(self).last_pos() == old(self).last_pos(),
    {
        self.parent = Some(parent);
        proof {
            reveal(Vmem::handles_ok);
            reveal(Vmem::list_ok);
            reveal(Vmem::lists_ok);
            reveal(Vmem::table_ok);
            assert(self.segments() =~= old(self).segments());
        }
    }

    pub fn quantum(&self) -> (r: usize)
        ensures
            r == self.quantum_spec(),
    {
        self.quantum
    }
}

} // verus!
