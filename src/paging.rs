use std::marker::PhantomData;

use vstd::prelude::*;

use crate::address::{PhysAddr, VirtAddr};

verus! {

/// The size of a page that a translation can map.
pub trait PageSize {
    spec fn spec_size() -> nat;

    fn size() -> (r: usize)
        ensures
            r == Self::spec_size(),
            r > 0,
    ;
}

/// A 4 KiB page.
pub struct Size4K;

/// A 2 MiB block.
pub struct Size2M;

/// A 1 GiB block.
pub struct Size1G;

impl PageSize for Size4K {
    open spec fn spec_size() -> nat {
        4096
    }

    fn size() -> (r: usize) {
        4096
    }
}

impl PageSize for Size2M {
    open spec fn spec_size() -> nat {
        0x20_0000
    }

    fn size() -> (r: usize) {
        0x20_0000
    }
}

impl PageSize for Size1G {
    open spec fn spec_size() -> nat {
        0x4000_0000
    }

    fn size() -> (r: usize) {
        0x4000_0000
    }
}

/// A page size known only at run time.
#[derive(Clone, Copy, PartialEq, Eq, Structural, Debug)]
pub enum RuntimePageSize {
    Size4K,
    Size2M,
    Size1G,
}

/// `addr` rounded down to a multiple of `size`.
pub open spec fn align_down(addr: nat, size: nat) -> nat {
    addr / size * size
}

/// A physical frame of `Size`, named by its first address.
pub struct PhysPage<Size: PageSize> {
    addr: PhysAddr,
    _size: PhantomData<Size>,
}

impl<Size: PageSize> PhysPage<Size> {
    pub closed spec fn start(&self) -> usize {
        self.addr.value()
    }

    /// The frame that holds `addr`.
    pub fn for_addr(addr: PhysAddr) -> (r: Self)
        ensures
            r.start() == align_down(addr.value() as nat, Size::spec_size()),
    {
        let size = Size::size();
        let a = addr.get();
        proof {
            assert(a / size * size <= a) by (nonlinear_arith)
                requires size > 0;
        }
        PhysPage { addr: PhysAddr::new(a / size * size), _size: PhantomData }
    }

    pub fn addr(&self) -> (r: PhysAddr)
        ensures
            r.value() == self.start(),
    {
        PhysAddr::new(self.addr.get())
    }
}

/// A virtual page of `Size`, named by its first address.
pub struct VirtPage<Size: PageSize> {
    addr: VirtAddr,
    _size: PhantomData<Size>,
}

impl<Size: PageSize> VirtPage<Size> {
    pub closed spec fn start(&self) -> usize {
        self.addr.value()
    }

    /// The page that holds `addr`.
    pub fn for_addr(addr: VirtAddr) -> (r: Self)
        ensures
            r.start() == align_down(addr.value() as nat, Size::spec_size()),
    {
        let size = Size::size();
        let a = addr.get();
        proof {
            assert(a / size * size <= a) by (nonlinear_arith)
                requires size > 0;
        }
        VirtPage { addr: VirtAddr::new(a / size * size), _size: PhantomData }
    }
}

/// Why a translation failed.
#[derive(Clone, Copy, PartialEq, Eq, Structural, Debug)]
pub enum TranslateError {
    NotPresent,
    SizeMismatch(RuntimePageSize),
}

/// Why a mapping failed.
#[derive(Clone, Copy, PartialEq, Eq, Structural, Debug)]
pub enum MapError {
    AlreadyMapped(RuntimePageSize),
    NoBitmap,
    OutOfMem,
}

pub const KERNEL_EXEC: u64 = 1;

pub const USER_EXEC: u64 = 2;

pub const WRITE: u64 = 4;

pub const USER_ACCESS: u64 = 8;

pub const DIRTY: u64 = 16;

/// The access rights of a mapping, as a set of the flag bits above.
#[derive(Clone, Copy, PartialEq, Eq, Structural, Debug)]
pub struct PageFlags {
    pub bits: u64,
}

impl PageFlags {
    pub fn empty() -> (r: PageFlags)
        ensures
            r.bits == 0,
    {
        PageFlags { bits: 0 }
    }

    /// Whether every bit of `flag` is set.
    pub fn contains(&self, flag: u64) -> (r: bool)
        ensures
            r == (self.bits & flag == flag),
    {
        self.bits & flag == flag
    }

    pub fn insert(&mut self, flag: u64)
        ensures
            final(self).bits == old(self).bits | flag,
    {
        self.bits = self.bits | flag;
    }
}

/// Descriptor bits: valid, user-accessible, read-only, privileged-execute-never,
/// user-execute-never, and dirty.
pub const DESC_VALID: u64 = 1;

pub const DESC_USER: u64 = 0x40;

pub const DESC_READ_ONLY: u64 = 0x80;

pub const DESC_PXN: u64 = 0x20_0000_0000_0000;

pub const DESC_UXN: u64 = 0x40_0000_0000_0000;

pub const DESC_DIRTY: u64 = 0x8_0000_0000_0000;

/// The output-address bits of a 4 KiB page or table descriptor.
pub const ADDR_MASK: u64 = 0x0000_ffff_ffff_f000;

/// The descriptor bits that grant `flags`, on top of `base`.
pub open spec fn flag_bits(base: u64, flags: u64) -> u64 {
    let d1 = if flags & USER_ACCESS == USER_ACCESS { base | DESC_USER } else { base };
    let d2 = if flags & WRITE != WRITE { d1 | DESC_READ_ONLY } else { d1 };
    let d3 = if flags & USER_EXEC != USER_EXEC { d2 | DESC_UXN } else { d2 };
    if flags & KERNEL_EXEC != KERNEL_EXEC { d3 | DESC_PXN } else { d3 }
}

/// The flags that the descriptor `data` grants.
pub open spec fn desc_flags(data: u64) -> u64 {
    let f1 = if data & DESC_USER != 0 { USER_ACCESS } else { 0 };
    let f2 = if data & DESC_READ_ONLY == 0 { f1 | WRITE } else { f1 };
    let f3 = if data & DESC_UXN == 0 { f2 | USER_EXEC } else { f2 };
    let f4 = if data & DESC_PXN == 0 { f3 | KERNEL_EXEC } else { f3 };
    if data & DESC_DIRTY != 0 { f4 | DIRTY } else { f4 }
}

/// A level-3 descriptor: one 4 KiB page.
#[derive(Clone, Copy, PartialEq, Eq, Structural, Debug)]
pub struct Page {
    pub data: u64,
}

impl Page {
    pub fn new() -> (r: Page)
        ensures
            r.data == 2,
    {
        Page { data: 0b10 }
    }

    /// A descriptor, not yet valid, that grants `flags`.
    pub fn from_flags(flags: PageFlags) -> (r: Page)
        ensures
            r.data == flag_bits(2, flags.bits),
    {
        let mut page = Page::new();
        if flags.contains(USER_ACCESS) {
            page.data = page.data | DESC_USER;
        }
        if !flags.contains(WRITE) {
            page.data = page.data | DESC_READ_ONLY;
        }
        if !flags.contains(USER_EXEC) {
            page.data = page.data | DESC_UXN;
        }
        if !flags.contains(KERNEL_EXEC) {
            page.data = page.data | DESC_PXN;
        }
        page
    }

    /// Adds the output-address bits of `ptr`.
    pub fn set_addr(&mut self, ptr: PhysAddr)
        ensures
            final(self).data == old(self).data | (ptr.value() as u64 & ADDR_MASK),
    {
        self.data = self.data | (ptr.get() as u64 & ADDR_MASK);
    }

    pub fn get_addr(&self) -> (r: PhysAddr)
        ensures
            r.value() == (self.data & ADDR_MASK) as usize,
    {
        PhysAddr::new((self.data & ADDR_MASK) as usize)
    }

    pub fn set_present(&mut self, val: bool)
        ensures
            (final(self).data & DESC_VALID == DESC_VALID) == val,
            final(self).data & !DESC_VALID == old(self).data & !DESC_VALID,
    {
        let d = self.data;
        if val {
            self.data = d | DESC_VALID;
            assert((d | 1u64) & 1u64 == 1u64 && (d | 1u64) & !1u64 == d & !1u64) by (bit_vector);
        } else {
            self.data = d & !DESC_VALID;
            assert((d & !1u64) & 1u64 != 1u64 && (d & !1u64) & !1u64 == d & !1u64) by (bit_vector);
        }
    }

    pub fn is_present(&self) -> (r: bool)
        ensures
            r == (self.data & DESC_VALID == DESC_VALID),
    {
        self.data & DESC_VALID == DESC_VALID
    }

    /// The flags that this descriptor grants.
    pub fn get_flags(&self) -> (r: PageFlags)
        ensures
            r.bits == desc_flags(self.data),
    {
        let mut flags = PageFlags::empty();
        if self.data & DESC_USER != 0 {
            flags.insert(USER_ACCESS);
        }
        if self.data & DESC_READ_ONLY == 0 {
            flags.insert(WRITE);
        }
        if self.data & DESC_UXN == 0 {
            flags.insert(USER_EXEC);
        }
        if self.data & DESC_PXN == 0 {
            flags.insert(KERNEL_EXEC);
        }
        if self.data & DESC_DIRTY != 0 {
            flags.insert(DIRTY);
        }
        proof {
            assert(0u64 | USER_ACCESS == USER_ACCESS) by (bit_vector);
        }
        flags
    }
}

} // verus!
