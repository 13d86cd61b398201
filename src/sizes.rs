use vstd::prelude::*;

verus! {

/// A binary unit of size.
#[derive(Clone, Copy, PartialEq, Eq, Structural, Debug)]
pub enum SizeUnit {
    B,
    KiB,
    MiB,
    GiB,
    TiB,
    PiB,
    EiB,
}

/// A size in bytes, shown in the largest binary unit that divides it.
#[derive(Clone, Copy, PartialEq, Eq, Structural, Debug)]
pub struct Size(pub usize);

pub open spec fn unit_bytes(u: SizeUnit) -> nat {
    match u {
        SizeUnit::B => 1,
        SizeUnit::KiB => 0x400,
        SizeUnit::MiB => 0x10_0000,
        SizeUnit::GiB => 0x4000_0000,
        SizeUnit::TiB => 0x100_0000_0000,
        SizeUnit::PiB => 0x4_0000_0000_0000,
        SizeUnit::EiB => 0x1000_0000_0000_0000,
    }
}

/// The rank of a unit: 0 for bytes, 6 for EiB.
pub open spec fn rank(u: SizeUnit) -> int {
    match u {
        SizeUnit::B => 0,
        SizeUnit::KiB => 1,
        SizeUnit::MiB => 2,
        SizeUnit::GiB => 3,
        SizeUnit::TiB => 4,
        SizeUnit::PiB => 5,
        SizeUnit::EiB => 6,
    }
}

impl Size {
    /// The size as a count of the largest unit that divides it exactly (bytes
    /// for zero), and that unit.
    pub fn split(&self) -> (r: (usize, SizeUnit))
        ensures
            self.0 == 0 ==> r == (0usize, SizeUnit::B),
            self.0 > 0 ==> (self.0 as nat) % unit_bytes(r.1) == 0 && r.0 == (self.0 as nat) / unit_bytes(r.1)
                && forall|u: SizeUnit| rank(u) > rank(r.1) ==> #[trigger] ((self.0 as nat) % unit_bytes(u)) != 0,
    {
        let n = self.0 as u64;
        if n == 0 {
            (0, SizeUnit::B)
        } else if n % 0x1000_0000_0000_0000 == 0 {
            ((n / 0x1000_0000_0000_0000) as usize, SizeUnit::EiB)
        } else if n % 0x4_0000_0000_0000 == 0 {
            ((n / 0x4_0000_0000_0000) as usize, SizeUnit::PiB)
        } else if n % 0x100_0000_0000 == 0 {
            ((n / 0x100_0000_0000) as usize, SizeUnit::TiB)
        } else if n % 0x4000_0000 == 0 {
            ((n / 0x4000_0000) as usize, SizeUnit::GiB)
        } else if n % 0x10_0000 == 0 {
            ((n / 0x10_0000) as usize, SizeUnit::MiB)
        } else if n % 0x400 == 0 {
            ((n / 0x400) as usize, SizeUnit::KiB)
        } else {
            (self.0, SizeUnit::B)
        }
    }
}

} // verus!
