use kmem::vmem::{AllocPolicy, Bt, BtKind, Vmem};

fn span(base: usize, len: usize) -> Bt {
    Bt { kind: BtKind::Span, base, len }
}

fn free(base: usize, len: usize) -> Bt {
    Bt { kind: BtKind::Free, base, len }
}

fn used(base: usize, len: usize) -> Bt {
    Bt { kind: BtKind::Used, base, len }
}

/// Each span is followed by pieces that start at its base, follow each other
/// without gaps and end at its end; no two neighbours are free.
fn assert_tiled(tags: &[Bt]) {
    let mut i = 0;
    while i < tags.len() {
        let s = tags[i];
        assert!(matches!(s.kind, BtKind::Span | BtKind::ImportedSpan));
        let mut at = s.base;
        i += 1;
        assert!(i < tags.len());
        while i < tags.len() && !matches!(tags[i].kind, BtKind::Span | BtKind::ImportedSpan) {
            assert_eq!(tags[i].base, at);
            at += tags[i].len;
            if i + 1 < tags.len() {
                assert!(!(tags[i].kind == BtKind::Free && tags[i + 1].kind == BtKind::Free));
            }
            i += 1;
        }
        assert_eq!(at, s.base + s.len);
    }
}

#[test]
fn first_best_fit_takes_the_front() {
    let mut v = Vmem::new(16);
    v.add_span(0x1000, 0x1000);
    assert_eq!(v.allocate(AllocPolicy::BestFit, 0x100), Some(0x1000));
    assert_eq!(v.free_capacity(), 0xF00);
}

#[test]
fn freeing_the_first_leaves_a_free_run_in_front() {
    let mut v = Vmem::new(16);
    v.add_span(0x1000, 0x1000);
    assert_eq!(v.allocate(AllocPolicy::BestFit, 0x100), Some(0x1000));
    assert_eq!(v.allocate(AllocPolicy::BestFit, 0x100), Some(0x1100));
    v.free(0x1000);
    assert_eq!(
        v.segment_tags(),
        vec![span(0x1000, 0x1000), free(0x1000, 0x100), used(0x1100, 0x100), free(0x1200, 0xE00)]
    );
    assert_eq!(v.free_capacity(), 0xF00);
}

#[test]
fn freeing_both_coalesces_everything() {
    let mut v = Vmem::new(16);
    v.add_span(0x1000, 0x1000);
    assert_eq!(v.allocate(AllocPolicy::BestFit, 0x100), Some(0x1000));
    assert_eq!(v.allocate(AllocPolicy::BestFit, 0x100), Some(0x1100));
    v.free(0x1000);
    v.free(0x1100);
    assert_eq!(v.segment_tags(), vec![span(0x1000, 0x1000), free(0x1000, 0x1000)]);
    assert_eq!(v.free_capacity(), 0x1000);
}

#[test]
fn next_fit_walks_the_span_then_runs_out() {
    let mut v = Vmem::new(16);
    v.add_span(0, 0x10000);
    for k in 0..0x100usize {
        assert_eq!(v.allocate(AllocPolicy::NextFit, 0x100), Some(k * 0x100));
    }
    assert_eq!(v.allocate(AllocPolicy::NextFit, 0x100), None);
    assert_eq!(v.free_capacity(), 0);
    assert_tiled(&v.segment_tags());
}

#[test]
fn next_fit_moves_forward_past_earlier_holes() {
    let mut v = Vmem::new(16);
    v.add_span(0x1000, 0x1000);
    let a = v.allocate(AllocPolicy::NextFit, 0x100).unwrap();
    let b = v.allocate(AllocPolicy::NextFit, 0x100).unwrap();
    v.free(a);
    let c = v.allocate(AllocPolicy::NextFit, 0x100).unwrap();
    assert_eq!((a, b, c), (0x1000, 0x1100, 0x1200));
}

#[test]
fn a_span_drains_to_exactly_its_base() {
    let mut v = Vmem::new(16);
    v.add_span(0x4000, 0x800);
    assert_eq!(v.allocate(AllocPolicy::BestFit, 0x800), Some(0x4000));
    assert_eq!(v.allocate(AllocPolicy::BestFit, 0x800), None);
}

#[test]
fn alloc_then_free_restores_capacity_and_tag_count() {
    for policy in [AllocPolicy::InstantFit, AllocPolicy::BestFit, AllocPolicy::NextFit] {
        let mut v = Vmem::new(16);
        v.add_span(0x1000, 0x1000);
        v.allocate(AllocPolicy::BestFit, 0x30).unwrap();
        let before = v.free_capacity();
        let count = v.segment_tags().len();
        let addr = v.allocate(policy, 0x100).unwrap();
        assert_eq!(v.free_capacity(), before - 0x100);
        v.free(addr);
        assert_eq!(v.free_capacity(), before);
        assert!(v.segment_tags().len() <= count);
        assert_tiled(&v.segment_tags());
    }
}

#[test]
fn best_fit_picks_the_shortest_hole() {
    let mut v = Vmem::new(16);
    v.add_span(0, 0x2000);
    let a = v.allocate(AllocPolicy::BestFit, 0x300).unwrap();
    let _b = v.allocate(AllocPolicy::BestFit, 0x100).unwrap();
    let c = v.allocate(AllocPolicy::BestFit, 0x180).unwrap();
    let _d = v.allocate(AllocPolicy::BestFit, 0x100).unwrap();
    v.free(a);
    v.free(c);
    // Free holes: 0x300 at 0, 0x180 at 0x400, and the tail.
    assert_eq!(v.allocate(AllocPolicy::BestFit, 0x180), Some(0x400));
    assert_eq!(v.allocate(AllocPolicy::BestFit, 0x200), Some(0));
}

#[test]
fn instant_fit_takes_a_tag_of_a_large_enough_class() {
    let mut v = Vmem::new(16);
    v.add_span(0, 0x1000);
    assert_eq!(v.allocate(AllocPolicy::InstantFit, 0x100), Some(0));
    assert_eq!(v.allocate(AllocPolicy::InstantFit, 0x1000), None);
}

#[test]
fn sizes_round_up_to_the_quantum() {
    let mut v = Vmem::new(16);
    v.add_span(0x100, 0x100);
    assert_eq!(v.allocate(AllocPolicy::BestFit, 1), Some(0x100));
    assert_eq!(v.allocate(AllocPolicy::BestFit, 17), Some(0x110));
    assert_eq!(v.used_tag(0x110), Some(used(0x110, 0x20)));
    assert_eq!(v.free_capacity(), 0x100 - 0x30);
}

#[test]
fn zero_and_oversized_requests_fail() {
    let mut v = Vmem::new(16);
    v.add_span(0x100, 0x100);
    assert_eq!(v.allocate(AllocPolicy::BestFit, 0), None);
    assert_eq!(v.allocate(AllocPolicy::BestFit, usize::MAX), None);
    assert_eq!(v.allocate(AllocPolicy::NextFit, 0x200), None);
    assert_eq!(v.segment_tags(), vec![span(0x100, 0x100), free(0x100, 0x100)]);
}

#[test]
fn the_table_finds_every_used_tag() {
    let mut v = Vmem::new(16);
    v.add_span(0x10000, 0x10000);
    v.add_span(0x40000, 0x1000);
    let mut bases = Vec::new();
    for k in 1..20usize {
        bases.push(v.allocate(AllocPolicy::InstantFit, k * 16).unwrap());
    }
    for t in v.segment_tags() {
        if t.kind == BtKind::Used {
            assert_eq!(v.used_tag(t.base), Some(t));
        }
    }
    assert_eq!(v.used_tag(0x12345), None);
    for k in 0..64usize {
        for t in v.freelist(k) {
            let n = t.len / 16;
            assert!(t.kind == BtKind::Free);
            assert!(1usize << k <= n && (k == 63 || n < 1usize << (k + 1)));
        }
    }
    for b in bases {
        v.free(b);
    }
    assert_eq!(v.free_capacity(), 0x11000);
    assert_tiled(&v.segment_tags());
}

#[test]
fn borrowed_spans_come_free_as_a_whole() {
    let parent = Vmem::new(16);
    let mut v = Vmem::new(16);
    v.set_parent(&parent);
    v.borrow_span(0x8000, 0x400);
    assert_eq!(
        v.segment_tags(),
        vec![Bt { kind: BtKind::ImportedSpan, base: 0x8000, len: 0x400 }, free(0x8000, 0x400)]
    );
    assert_eq!(v.allocate(AllocPolicy::BestFit, 0x400), Some(0x8000));
}

#[test]
fn two_spans_stay_apart() {
    let mut v = Vmem::new(16);
    v.add_span(0x1000, 0x100);
    v.add_span(0x1100, 0x100);
    let a = v.allocate(AllocPolicy::BestFit, 0x100).unwrap();
    let b = v.allocate(AllocPolicy::BestFit, 0x100).unwrap();
    v.free(a);
    v.free(b);
    assert_eq!(
        v.segment_tags(),
        vec![span(0x1000, 0x100), free(0x1000, 0x100), span(0x1100, 0x100), free(0x1100, 0x100)]
    );
}

#[test]
fn spans_take_their_place_in_address_order() {
    let mut v = Vmem::new(16);
    v.add_span(0x2000, 0x100);
    v.add_span(0x1000, 0x100);
    v.add_span(0x3000, 0x100);
    assert_eq!(
        v.segment_tags(),
        vec![
            span(0x1000, 0x100),
            free(0x1000, 0x100),
            span(0x2000, 0x100),
            free(0x2000, 0x100),
            span(0x3000, 0x100),
            free(0x3000, 0x100)
        ]
    );
    let a = v.allocate(AllocPolicy::NextFit, 0x100).unwrap();
    let b = v.allocate(AllocPolicy::NextFit, 0x100).unwrap();
    let c = v.allocate(AllocPolicy::NextFit, 0x100).unwrap();
    assert!(a < b && b < c);
    assert_eq!((a, b, c), (0x1000, 0x2000, 0x3000));
    assert_tiled(&v.segment_tags());
}
