use kmem::elf::{rela_table, Dyn, InvalidRelocation, Rela, RelaTable, DYN_ENTRY_SIZE, DYN_NULL, DYN_RELA, DYN_RELA_SIZE};
use kmem::pl011::{line_settings, read_result, Config, Parity};
use kmem::sizes::{Size, SizeUnit};

#[test]
fn relocation_type_is_the_low_word() {
    let r = Rela { offset: 0x10, info: 0x0000_0005_0000_0403, addend: -8 };
    assert_eq!(r.r_type(), 0x403);
}

#[test]
fn the_dynamic_table_names_the_relocations() {
    let table = vec![
        Dyn { tag: DYN_RELA, val: 0x2000 },
        Dyn { tag: 0x1e, val: 1 },
        Dyn { tag: DYN_RELA_SIZE, val: 72 },
        Dyn { tag: DYN_ENTRY_SIZE, val: 24 },
        Dyn { tag: DYN_NULL, val: 0 },
        Dyn { tag: DYN_RELA, val: 0x9999 },
    ];
    assert_eq!(rela_table(&table), Ok(Some(RelaTable { addr: 0x2000, count: 3 })));
}

#[test]
fn a_table_without_relocations_is_fine() {
    let table = vec![Dyn { tag: 0x1e, val: 1 }, Dyn { tag: DYN_NULL, val: 0 }];
    assert_eq!(rela_table(&table), Ok(None));
}

#[test]
fn a_relocation_table_needs_its_size_and_entry_size() {
    let no_size = vec![Dyn { tag: DYN_RELA, val: 0x2000 }, Dyn { tag: DYN_ENTRY_SIZE, val: 24 }];
    assert_eq!(rela_table(&no_size), Err(InvalidRelocation));
    let bad_entry = vec![
        Dyn { tag: DYN_RELA, val: 0x2000 },
        Dyn { tag: DYN_RELA_SIZE, val: 48 },
        Dyn { tag: DYN_ENTRY_SIZE, val: 16 },
    ];
    assert_eq!(rela_table(&bad_entry), Err(InvalidRelocation));
}

#[test]
fn reads_report_error_bits() {
    assert_eq!(read_result(b'x', 0), Ok(b'x'));
    let e = read_result(b'y', 0b0101).unwrap_err();
    assert!(e.framing_err() && e.break_err());
    assert!(!e.parity_err() && !e.overrun_err());
    assert_eq!(e.data(), b'y');
}

#[test]
fn line_settings_for_115200() {
    let s = line_settings(&Config { baud_rate: 115_200, clock_rate: 24_000_000, parity: Parity::Disabled });
    assert_eq!(s.ibrd, 13);
    assert_eq!(s.fbrd, (24_000_000u64 * 64 / 115_200 % 64) as u8);
    assert_eq!(s.lcrh, 0x70);
    let e = line_settings(&Config { baud_rate: 9600, clock_rate: 24_000_000, parity: Parity::Even });
    assert_eq!(e.lcrh, 0x76);
}

#[test]
fn sizes_pick_the_largest_exact_unit() {
    assert_eq!(Size(0).split(), (0, SizeUnit::B));
    assert_eq!(Size(4096).split(), (4, SizeUnit::KiB));
    assert_eq!(Size(3 << 30).split(), (3, SizeUnit::GiB));
    assert_eq!(Size(1025).split(), (1025, SizeUnit::B));
    assert_eq!(Size(1 << 60).split(), (1, SizeUnit::EiB));
}
