use vstd::prelude::*;

verus! {

/// The tag of the entry that ends the dynamic table.
pub const DYN_NULL: u64 = 0x00;

/// The tag of the entry that gives the address of the relocation table.
pub const DYN_RELA: u64 = 0x07;

/// The tag of the entry that gives the size of the relocation table.
pub const DYN_RELA_SIZE: u64 = 0x08;

/// The tag of the entry that gives the size of one relocation.
pub const DYN_ENTRY_SIZE: u64 = 0x09;

/// The size of a `Rela`.
pub const RELA_SIZE: u64 = 24;

/// An entry of the `.dynamic` section.
#[derive(Clone, Copy, PartialEq, Eq, Structural, Debug)]
pub struct Dyn {
    pub tag: u64,
    pub val: u64,
}

/// A relocation with an addend.
#[derive(Clone, Copy, PartialEq, Eq, Structural, Debug)]
pub struct Rela {
    /// Where to write, from the start of the image.
    pub offset: u64,
    /// The relocation type, in the low 32 bits, and symbol.
    pub info: u64,
    /// The value to add to the start of the image.
    pub addend: i64,
}

impl Rela {
    /// The relocation type: the low 32 bits of `info`.
    pub fn r_type(&self) -> (r: u64)
        ensures
            r == self.info % 0x1_0000_0000,
    {
        proof {
            let info = self.info;
            assert(info & 0xffffffff == info % 0x1_0000_0000) by (bit_vector);
        }
        self.info & 0xffffffff
    }
}

/// A dynamic table that names a relocation table without its size, or with an
/// entry size other than that of a `Rela`.
#[derive(Clone, Copy, PartialEq, Eq, Structural, Debug)]
pub struct InvalidRelocation;

/// Where the relocation table is, from the start of the image, and how many
/// relocations it holds.
#[derive(Clone, Copy, PartialEq, Eq, Structural, Debug)]
pub struct RelaTable {
    pub addr: u64,
    pub count: u64,
}

/// The value of the last entry tagged `tag` among the first `n` of `table`.
pub open spec fn last_value(table: Seq<Dyn>, n: int, tag: u64) -> Option<u64>
    decreases n,
{
    if n <= 0 {
        None
    } else if table[n - 1].tag == tag {
        Some(table[n - 1].val)
    } else {
        last_value(table, n - 1, tag)
    }
}

/// Reads the relocation table's place out of the dynamic table, up to its
/// first `DYN_NULL`: `None` when it names none.
pub fn rela_table(table: &Vec<Dyn>) -> (r: Result<Option<RelaTable>, InvalidRelocation>)
    ensures
        ({
            let n = entries_before_null(table@);
            let addr = last_value(table@, n, DYN_RELA);
            let size = last_value(table@, n, DYN_RELA_SIZE);
            let ent = last_value(table@, n, DYN_ENTRY_SIZE);
            &&& addr.is_none() && ent.is_none() ==> r == Ok::<Option<RelaTable>, InvalidRelocation>(None)
            &&& !(addr.is_none() && ent.is_none()) && (addr.is_none() || size.is_none() || ent.is_none()
                || ent.unwrap() != RELA_SIZE) ==> r == Err::<Option<RelaTable>, InvalidRelocation>(
                InvalidRelocation,
            )
            &&& addr.is_some() && size.is_some() && ent == Some(RELA_SIZE) ==> r == Ok::<
                Option<RelaTable>,
                InvalidRelocation,
            >(Some(RelaTable { addr: addr.unwrap(), count: size.unwrap() / RELA_SIZE }))
        }),
{
    let mut addr: Option<u64> = None;
    let mut size: Option<u64> = None;
    let mut ent: Option<u64> = None;
    let mut i: usize = 0;
    while i < table.len() && table[i].tag != DYN_NULL
        invariant
            i <= table@.len(),
            forall|j: int| 0 <= j < i ==> table@[j].tag != DYN_NULL,
            addr == last_value(table@, i as int, DYN_RELA),
            size == last_value(table@, i as int, DYN_RELA_SIZE),
            ent == last_value(table@, i as int, DYN_ENTRY_SIZE),
        decreases table@.len() - i,
    {
        let e = table[i];
        if e.tag == DYN_RELA {
            addr = Some(e.val);
        } else if e.tag == DYN_RELA_SIZE {
            size = Some(e.val);
        } else if e.tag == DYN_ENTRY_SIZE {
            ent = Some(e.val);
        }
        i += 1;
    }
    proof {
        lemma_null_free(table@, i as int);
    }
    if addr.is_none() && ent.is_none() {
        return Ok(None);
    }
    match (addr, size, ent) {
        (Some(a), Some(s), Some(e)) => {
            if e != RELA_SIZE {
                Err(InvalidRelocation)
            } else {
                Ok(Some(RelaTable { addr: a, count: s / RELA_SIZE }))
            }
        },
        _ => Err(InvalidRelocation),
    }
}

/// How many entries of `table` come before its first `DYN_NULL`.
pub open spec fn entries_before_null(table: Seq<Dyn>) -> int
    decreases table.len(),
{
    if table.len() == 0 {
        0
    } else if table[0].tag == DYN_NULL {
        0
    } else {
        1 + entries_before_null(table.drop_first())
    }
}

proof fn lemma_null_free(table: Seq<Dyn>, i: int)
    requires
        0 <= i <= table.len(),
        forall|j: int| 0 <= j < i ==> table[j].tag != DYN_NULL,
        i == table.len() || table[i].tag == DYN_NULL,
    ensures
        entries_before_null(table) == i,
    decreases i,
{
    if i > 0 {
        let rest = table.drop_first();
        assert forall|j: int| 0 <= j < i - 1 implies rest[j].tag != DYN_NULL by {
            assert(rest[j] == table[j + 1]);
        }
        if i < table.len() {
            assert(rest[i - 1] == table[i]);
        }
        lemma_null_free(rest, i - 1);
    }
}

} // verus!
