use kmem::cpus::CpuInfo;
use kmem::physalloc::{PhysAlloc, PhysAllocInner, FRAME_SIZE, HEADER_SIZE};

const BASE: usize = 0x10_0000;

fn body_is_zero(p: &PhysAllocInner, addr: usize) -> bool {
    (HEADER_SIZE..FRAME_SIZE).all(|o| p.read_byte(addr, o) == 0)
}

#[test]
fn a_freed_frame_comes_back_zeroed() {
    let mut p = PhysAllocInner::new(BASE, 1);
    let f = p.allocate().unwrap();
    assert_eq!(f, BASE);
    p.write_byte(f, HEADER_SIZE, 0xAB);
    p.write_byte(f, FRAME_SIZE - 1, 0xCD);
    p.free(f);
    assert_eq!(p.allocate(), Some(f));
    assert!(body_is_zero(&p, f));
}

#[test]
fn frames_come_out_zeroed_in_list_order() {
    let mut p = PhysAllocInner::new(BASE, 3);
    for k in 0..3 {
        let f = p.allocate().unwrap();
        assert_eq!(f, BASE + k * FRAME_SIZE);
        assert!(body_is_zero(&p, f));
    }
    assert_eq!(p.allocate(), None);
}

#[test]
fn clean_frames_go_before_dirty_ones() {
    let mut p = PhysAllocInner::new(BASE, 2);
    let a = p.allocate().unwrap();
    p.write_byte(a, 100, 7);
    p.free(a);
    assert_eq!(p.allocate(), Some(BASE + FRAME_SIZE));
    assert_eq!(p.allocate(), Some(a));
    assert_eq!(p.read_byte(a, 100), 0);
}

#[test]
fn clean_dirty_reports_what_is_left() {
    let mut p = PhysAllocInner::new(BASE, 2);
    assert!(!p.clean_dirty());
    let a = p.allocate().unwrap();
    let b = p.allocate().unwrap();
    p.write_byte(a, 9, 1);
    p.free(a);
    p.free(b);
    assert!(p.clean_dirty());
    assert!(!p.clean_dirty());
    assert!(!p.clean_dirty());
    let x = p.allocate().unwrap();
    let y = p.allocate().unwrap();
    assert_eq!((x, y), (a, b));
    assert!(body_is_zero(&p, a));
}

#[test]
fn the_cached_allocator_hands_out_frames() {
    let cpus = CpuInfo::new(1, 0);
    let mut p = PhysAlloc::new(PhysAllocInner::new(BASE, 2), &cpus);
    let a = p.allocate(&cpus).unwrap();
    assert_eq!(a.addr().get(), BASE);
    p.free(&cpus, a);
    let b = p.allocate(&cpus).unwrap();
    assert_eq!(b.addr().get(), BASE);
    assert!(!p.clean_dirty());
    let c = p.allocate(&cpus).unwrap();
    assert_eq!(c.addr().get(), BASE + FRAME_SIZE);
    assert!(p.allocate(&cpus).is_none());
}

#[test]
fn a_miss_skips_the_reserve() {
    let cpus = CpuInfo::new(1, 0);
    let mut p = PhysAlloc::new(PhysAllocInner::new(BASE, 4), &cpus);
    let a = p.allocate(&cpus).unwrap();
    p.free(&cpus, a);
    let b = p.allocate(&cpus).unwrap();
    assert_eq!(b.addr().get(), BASE);
    // Restocking moves the three left into the reserve; a miss then goes
    // straight to the allocator under the caches, which is empty.
    assert!(!p.restock_slab(&cpus));
    assert!(p.allocate(&cpus).is_none());
}
