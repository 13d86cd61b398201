use kmem::address::{PhysAddr, PhysPtr, VirtAddr};
use kmem::paging::{
    Page, PageFlags, PhysPage, Size1G, Size2M, Size4K, VirtPage, KERNEL_EXEC, USER_ACCESS, USER_EXEC,
    WRITE,
};

#[test]
fn pages_round_addresses_down() {
    assert_eq!(PhysPage::<Size4K>::for_addr(PhysAddr::new(0x1234)).addr().get(), 0x1000);
    assert_eq!(PhysPage::<Size2M>::for_addr(PhysAddr::new(0x3F_FFFF)).addr().get(), 0x20_0000);
    assert_eq!(PhysPage::<Size1G>::for_addr(PhysAddr::new(0x4000_0001)).addr().get(), 0x4000_0000);
    let _ = VirtPage::<Size4K>::for_addr(VirtAddr::new(0xFFFF_0000_1234));
}

#[test]
fn offsets_convert_between_spaces() {
    let p = PhysAddr::new(0x5000);
    let v = p.to_virt_offset(0xFFFF_8000_0000_0000);
    assert_eq!(v.get(), 0xFFFF_8000_0000_5000);
    assert_eq!(v.to_phys_offset(0xFFFF_8000_0000_0000).get(), 0x5000);
    let ptr: PhysPtr<u64> = p.into_ptr();
    assert_eq!(ptr.to_virt_offset(0x10).get(), 0x5010);
    assert_eq!(ptr.cast::<u8>().into_address().get(), 0x5000);
}

#[test]
fn descriptors_round_trip_flags() {
    let mut flags = PageFlags::empty();
    flags.insert(WRITE);
    flags.insert(KERNEL_EXEC);
    let mut page = Page::from_flags(flags);
    assert!(!page.is_present());
    page.set_addr(PhysAddr::new(0x1234_5000));
    page.set_present(true);
    assert!(page.is_present());
    assert_eq!(page.get_addr().get(), 0x1234_5000);
    let back = page.get_flags();
    assert!(back.contains(WRITE) && back.contains(KERNEL_EXEC));
    assert!(!back.contains(USER_EXEC) && !back.contains(USER_ACCESS));
    page.set_present(false);
    assert!(!page.is_present());
}
