//! Range lists and input format identification.

use ddbug::format::{identify_format, FileFormat};
use ddbug::range::{Range, RangeList};

#[test]
fn range_size() {
    let r = Range { begin: 0x10, end: 0x18 };
    assert_eq!(r.size(), 8);
}

#[test]
fn symbol_and_section_spans() {
    let s = ddbug::model::Symbol {
        name: Some(b"f".to_vec()),
        ty: ddbug::model::SymbolType::Function,
        address: 0x100,
        size: 0x20,
    };
    assert_eq!(s.address(), Range { begin: 0x100, end: 0x120 });
    let sec = ddbug::model::Section { name: None, address: Some(0x400), size: 0x10 };
    assert_eq!(sec.address(), Some(Range { begin: 0x400, end: 0x410 }));
    let debug_sec = ddbug::model::Section { name: None, address: None, size: 0x99 };
    assert_eq!(debug_sec.address(), None);
}

#[test]
fn sort_is_idempotent_and_stable_on_sorted_input() {
    let mut rl = RangeList::default();
    rl.push(Range { begin: 1, end: 2 });
    rl.push(Range { begin: 3, end: 7 });
    rl.push(Range { begin: 3, end: 9 });
    let before: Vec<Range> = rl.list().clone();
    rl.sort();
    assert_eq!(rl.list(), &before);
    rl.sort();
    assert_eq!(rl.list(), &before);
}

#[test]
fn sort_orders_by_begin_then_end() {
    let mut rl = RangeList::default();
    rl.push(Range { begin: 9, end: 12 });
    rl.push(Range { begin: 2, end: 20 });
    rl.push(Range { begin: 9, end: 10 });
    rl.sort();
    assert_eq!(
        rl.list().as_slice(),
        &[
            Range { begin: 2, end: 20 },
            Range { begin: 9, end: 10 },
            Range { begin: 9, end: 12 },
        ]
    );
}

#[test]
fn size_is_order_independent() {
    let mut a = RangeList::default();
    a.push(Range { begin: 0, end: 4 });
    a.push(Range { begin: 10, end: 11 });
    let mut b = RangeList::default();
    b.push(Range { begin: 10, end: 11 });
    b.push(Range { begin: 0, end: 4 });
    a.sort();
    b.sort();
    assert_eq!(a.size(), Some(5));
    assert_eq!(b.size(), Some(5));
}

#[test]
fn size_counts_overlaps_twice() {
    let mut rl = RangeList::default();
    rl.push(Range { begin: 0, end: 10 });
    rl.push(Range { begin: 5, end: 15 });
    rl.sort();
    assert_eq!(rl.size(), Some(20));
}

#[test]
fn size_empty_list() {
    let rl = RangeList::default();
    assert_eq!(rl.size(), Some(0));
}

#[test]
fn size_overflow_reported_as_none() {
    let mut rl = RangeList::default();
    rl.push(Range { begin: 0, end: u64::MAX });
    rl.push(Range { begin: 0, end: u64::MAX });
    assert_eq!(rl.size(), None);
}

fn padded(head: &[u8]) -> Vec<u8> {
    let mut v = head.to_vec();
    while v.len() < 16 {
        v.push(0);
    }
    v
}

#[test]
fn identify_elf() {
    assert_eq!(identify_format(&padded(b"\x7fELF")), FileFormat::Elf);
}

#[test]
fn identify_mach() {
    // The sixty-four-bit Mach-O magic, read big-endian.
    assert_eq!(identify_format(&padded(&[0xfe, 0xed, 0xfa, 0xcf])), FileFormat::MachO);
}

#[test]
fn identify_pdb() {
    let mut v = b"Microsoft C/C++ MSF 7.00\r\n\x1a\x44\x53\x00".to_vec();
    v.extend_from_slice(&[0u8; 16]);
    assert_eq!(identify_format(&v), FileFormat::Pdb);
}

#[test]
fn identify_archive_is_unrecognized() {
    assert_eq!(identify_format(&padded(b"!<arch>\x0a")), FileFormat::Unrecognized);
}

#[test]
fn identify_garbage_is_unrecognized() {
    assert_eq!(identify_format(&padded(&[9, 9, 9, 9])), FileFormat::Unrecognized);
}

#[test]
fn identify_short_input_fails() {
    assert_eq!(identify_format(&b"\x7fELF".to_vec()), FileFormat::Unidentified);
}
