use kmem::cpus::CpuInfo;
use kmem::physalloc::{PhysAllocInner, FRAME_SIZE};
use kmem::slab::{Full, Slab};

const BASE: usize = 0x20_0000;

#[test]
fn per_cpu_caches_fill_and_stay_apart() {
    let cpu0 = CpuInfo::new(2, 0);
    let cpu1 = CpuInfo::new(2, 1);
    let mut s: Slab<PhysAllocInner, 2, 2> = Slab::new(PhysAllocInner::new(BASE, 8), &cpu0);
    let a = s.alloc_shortcircuiting(&cpu0).unwrap();
    let b = s.alloc_shortcircuiting(&cpu0).unwrap();
    let c = s.alloc_shortcircuiting(&cpu0).unwrap();
    assert_eq!(s.free_nolock(&cpu0, a), Ok(()));
    assert_eq!(s.free_nolock(&cpu0, b), Ok(()));
    assert_eq!(s.free_nolock(&cpu0, c), Err((Full, c)));
    assert_eq!(s.alloc_lockfree(&cpu1), None);
    assert!(s.empty(&cpu1));
    assert!(!s.empty(&cpu0));
}

#[test]
fn free_then_alloc_returns_the_item_when_there_is_room() {
    let cpu = CpuInfo::new(1, 0);
    let mut s: Slab<PhysAllocInner, 2, 2> = Slab::new(PhysAllocInner::new(BASE, 8), &cpu);
    let a = s.allocate(&cpu).unwrap();
    s.free(&cpu, a);
    assert_eq!(s.allocate(&cpu), Some(a));
    let x = s.allocate(&cpu).unwrap();
    let y = s.allocate(&cpu).unwrap();
    let z = s.allocate(&cpu).unwrap();
    s.free(&cpu, x);
    s.free(&cpu, y);
    // The cache is full now: z goes to the shared reserve, and the cache's top comes out.
    s.free(&cpu, z);
    assert_eq!(s.allocate(&cpu), Some(y));
    assert_eq!(s.allocate(&cpu), Some(x));
    assert_eq!(s.allocate(&cpu), Some(z));
}

#[test]
fn restock_fills_the_reserve_and_the_cache() {
    let cpu = CpuInfo::new(1, 0);
    let mut s: Slab<PhysAllocInner, 2, 2> = Slab::new(PhysAllocInner::new(BASE, 8), &cpu);
    assert!(s.restock(&cpu));
    assert_eq!(s.alloc_lockfree(&cpu), Some(BASE + 3 * FRAME_SIZE));
    assert_eq!(s.alloc_lockfree(&cpu), Some(BASE + 2 * FRAME_SIZE));
    assert_eq!(s.alloc_lockfree(&cpu), None);
    assert_eq!(s.allocate(&cpu), Some(BASE + FRAME_SIZE));
}

#[test]
fn restock_reports_an_exhausted_backing() {
    let cpu = CpuInfo::new(1, 0);
    let mut s: Slab<PhysAllocInner, 2, 2> = Slab::new(PhysAllocInner::new(BASE, 3), &cpu);
    assert!(!s.restock(&cpu));
    assert_eq!(s.alloc_restocking(&cpu), Some(BASE + 2 * FRAME_SIZE));
    assert_eq!(s.alloc_restocking(&cpu), Some(BASE + FRAME_SIZE));
    assert_eq!(s.alloc_restocking(&cpu), Some(BASE));
    assert_eq!(s.alloc_restocking(&cpu), None);
}
