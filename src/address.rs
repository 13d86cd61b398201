use std::marker::PhantomData;

use vstd::prelude::*;

verus! {

/// An address space: virtual or physical.
pub trait AddrSpace {

}

/// The kernel's virtual address space.
pub struct Virtual;

impl AddrSpace for Virtual {

}

/// The machine's physical address space.
pub struct Physical;

impl AddrSpace for Physical {

}

/// An address in the space `Space`.
pub struct Address<Space: AddrSpace> {
    address: usize,
    _space: PhantomData<Space>,
}

pub type VirtAddr = Address<Virtual>;

pub type PhysAddr = Address<Physical>;

impl<Space: AddrSpace> Address<Space> {
    pub closed spec fn value(&self) -> usize {
        self.address
    }

    pub fn new(address: usize) -> (r: Self)
        ensures
            r.value() == address,
    {
        Address { address, _space: PhantomData }
    }

    pub fn get(&self) -> (r: usize)
        ensures
            r == self.value(),
    {
        self.address
    }

    /// The same address, as a pointer to a `T`.
    pub fn into_ptr<T>(self) -> (r: Pointer<T, Space>)
        ensures
            r.value() == self.value(),
    {
        Pointer::new(self.address)
    }
}

impl<Space: AddrSpace> Clone for Address<Space> {
    fn clone(&self) -> (r: Self)
        ensures
            r.value() == self.value(),
    {
        Address::new(self.address)
    }
}

impl<Space: AddrSpace> Copy for Address<Space> {

}

impl Address<Virtual> {
    /// The physical address that this one maps to, where virtual addresses
    /// lie `offset` above physical ones.
    pub fn to_phys_offset(self, offset: usize) -> (r: PhysAddr)
        requires
            self.value() >= offset,
        ensures
            r.value() == self.value() - offset,
    {
        PhysAddr::new(self.address - offset)
    }
}

impl Address<Physical> {
    /// The virtual address of this one, `offset` above it.
    pub fn to_virt_offset(self, offset: usize) -> (r: VirtAddr)
        requires
            self.value() + offset <= usize::MAX,
        ensures
            r.value() == self.value() + offset,
    {
        VirtAddr::new(self.address + offset)
    }
}

/// A pointer to a `T` in the space `Space`.
pub struct Pointer<T, Space: AddrSpace> {
    pointer: usize,
    _target: PhantomData<T>,
    _space: PhantomData<Space>,
}

pub type VirtPtr<T> = Pointer<T, Virtual>;

pub type PhysPtr<T> = Pointer<T, Physical>;

impl<T, Space: AddrSpace> Pointer<T, Space> {
    pub closed spec fn value(&self) -> usize {
        self.pointer
    }

    pub fn new(pointer: usize) -> (r: Self)
        ensures
            r.value() == pointer,
    {
        Pointer { pointer, _target: PhantomData, _space: PhantomData }
    }

    pub fn get(&self) -> (r: usize)
        ensures
            r == self.value(),
    {
        self.pointer
    }

    pub fn into_address(self) -> (r: Address<Space>)
        ensures
            r.value() == self.value(),
    {
        Address::new(self.pointer)
    }

    /// The same address, as a pointer to a `U`.
    pub fn cast<U>(self) -> (r: Pointer<U, Space>)
        ensures
            r.value() == self.value(),
    {
        Pointer::new(self.pointer)
    }
}

impl<T, Space: AddrSpace> Clone for Pointer<T, Space> {
    fn clone(&self) -> (r: Self)
        ensures
            r.value() == self.value(),
    {
        Pointer::new(self.pointer)
    }
}

impl<T, Space: AddrSpace> Copy for Pointer<T, Space> {

}

impl<T> Pointer<T, Virtual> {
    pub fn to_phys_offset(self, offset: usize) -> (r: PhysPtr<T>)
        requires
            self.value() >= offset,
        ensures
            r.value() == self.value() - offset,
    {
        PhysPtr::new(self.pointer - offset)
    }
}

impl<T> Pointer<T, Physical> {
    pub fn to_virt_offset(self, offset: usize) -> (r: VirtPtr<T>)
        requires
            self.value() + offset <= usize::MAX,
        ensures
            r.value() == self.value() + offset,
    {
        VirtPtr::new(self.pointer + offset)
    }
}

} // verus!
