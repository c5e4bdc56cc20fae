//! The structural diff engine: totality, stability, round trips, and the
//! lookup and aggregation queries around it.

use ddbug::diff::{diff_list, diff_sections, diff_symbols};
use ddbug::file::{File, FileHash};
use ddbug::model::{
    Function, FunctionOffset, Options, Section, Symbol, SymbolType, Type, TypeOffset, Unit,
};
use ddbug::range::{Range, RangeList};

fn key(name: &[u8]) -> Option<Vec<u8>> {
    Some(name.to_vec())
}

fn check_total(r: &[(Option<usize>, Option<usize>)], n: usize, m: usize) {
    let lefts: Vec<usize> = r.iter().filter_map(|p| p.0).collect();
    let rights: Vec<usize> = r.iter().filter_map(|p| p.1).collect();
    assert_eq!(lefts, (0..n).collect::<Vec<usize>>());
    assert_eq!(rights, (0..m).collect::<Vec<usize>>());
    for p in r {
        assert!(p.0.is_some() || p.1.is_some());
    }
}

#[test]
fn alignment_total_on_empty_inputs() {
    let a: Vec<Option<Vec<u8>>> = Vec::new();
    let b: Vec<Option<Vec<u8>>> = Vec::new();
    let r = diff_list(&a, &b, 1, 2);
    assert!(r.is_empty());
}

#[test]
fn alignment_total_left_empty() {
    let a: Vec<Option<Vec<u8>>> = Vec::new();
    let b = vec![key(b"x"), key(b"y")];
    let r = diff_list(&a, &b, 1, 2);
    check_total(&r, 0, 2);
    assert_eq!(r, vec![(None, Some(0)), (None, Some(1))]);
}

#[test]
fn alignment_total_right_empty() {
    let a = vec![key(b"x"), key(b"y")];
    let b: Vec<Option<Vec<u8>>> = Vec::new();
    let r = diff_list(&a, &b, 1, 2);
    check_total(&r, 2, 0);
    assert_eq!(r, vec![(Some(0), None), (Some(1), None)]);
}

#[test]
fn alignment_total_on_disjoint_names() {
    let a = vec![key(b"a"), key(b"b"), key(b"c")];
    let b = vec![key(b"x")];
    let r = diff_list(&a, &b, 1, 2);
    check_total(&r, 3, 1);
}

#[test]
fn alignment_matches_equal_names_across_insertion() {
    // "mid" was inserted on the right; the shared names still pair up.
    let a = vec![key(b"one"), key(b"two")];
    let b = vec![key(b"one"), key(b"mid"), key(b"two")];
    let r = diff_list(&a, &b, 1, 2);
    check_total(&r, 2, 3);
    assert_eq!(r, vec![(Some(0), Some(0)), (None, Some(1)), (Some(1), Some(2))]);
}

#[test]
fn renamed_entity_pairs_as_changed() {
    // Pairing two differently-named entities costs the mismatch cost,
    // which ties with one removal plus one insertion; the engine prefers
    // the pairing, so a rename shows as one changed entry.
    let a = vec![key(b"old_name")];
    let b = vec![key(b"new_name")];
    let r = diff_list(&a, &b, 1, 2);
    assert_eq!(r, vec![(Some(0), Some(0))]);
}

#[test]
fn expensive_mismatch_splits_into_add_and_remove() {
    // When pairing costs more than a removal plus an insertion, the two
    // entities are reported separately.
    let a = vec![key(b"old_name")];
    let b = vec![key(b"new_name")];
    let r = diff_list(&a, &b, 1, 3);
    assert_eq!(r, vec![(Some(0), None), (None, Some(0))]);
}

#[test]
fn identical_inputs_diff_all_matched() {
    let a = vec![key(b"s1"), key(b"s2"), None];
    let b = vec![key(b"s1"), key(b"s2"), None];
    let r = diff_list(&a, &b, 1, 2);
    assert_eq!(r, vec![(Some(0), Some(0)), (Some(1), Some(1)), (Some(2), Some(2))]);
}

fn section(name: &[u8], address: Option<u64>, size: u64) -> Section {
    Section { name: Some(name.to_vec()), address, size }
}

fn symbol(name: &[u8], address: u64, size: u64) -> Symbol {
    Symbol { name: Some(name.to_vec()), ty: SymbolType::Function, address, size }
}

#[test]
fn section_costs() {
    let a = section(b"text", Some(0), 1);
    let b = section(b"data", Some(0), 1);
    assert_eq!(Section::step_cost(), 1);
    assert_eq!(a.diff_cost(&a), 0);
    assert_eq!(a.diff_cost(&b), 2);
}

#[test]
fn symbol_costs() {
    let a = symbol(b"f", 0, 1);
    let b = symbol(b"g", 0, 1);
    assert_eq!(Symbol::step_cost(), 1);
    assert_eq!(a.diff_cost(&a), 0);
    assert_eq!(a.diff_cost(&b), 2);
}

fn build_file(bytes_tag: &[u8]) -> File {
    // Two identically-built files must diff as fully matched; the tag
    // stands for the input bytes both were built from.
    let mut file = File {
        path: String::from_utf8(bytes_tag.to_vec()).unwrap(),
        code: None,
        sections: vec![
            section(b"text", Some(0x400), 0x100),
            section(b"data", Some(0x800), 0x40),
        ],
        symbols: vec![symbol(b"main", 0x400, 0x20), symbol(b"helper", 0x420, 0x10)],
        units: Vec::new(),
    };
    let mut unit = Unit::default();
    unit.functions.push((
        FunctionOffset(0),
        Function {
            name: Some(b"main".to_vec()),
            linkage_name: None,
            symbol_name: None,
            low_pc: Some(0x400),
            high_pc: Some(0x420),
            size: Some(0x20),
        },
    ));
    file.units.push(unit);
    file.normalize();
    file
}

#[test]
fn round_trip_same_bytes_diff_fully_matched() {
    let a = build_file(b"input");
    let b = build_file(b"input");
    let rs = diff_sections(&a.sections, &b.sections);
    assert_eq!(rs, vec![(Some(0), Some(0)), (Some(1), Some(1))]);
    let ry = diff_symbols(&a.symbols, &b.symbols);
    assert_eq!(ry, vec![(Some(0), Some(0)), (Some(1), Some(1))]);
}

#[test]
fn file_hash_first_function_wins_on_duplicate_address() {
    let mut file = File {
        path: String::new(),
        code: None,
        sections: Vec::new(),
        symbols: Vec::new(),
        units: Vec::new(),
    };
    let mut unit = Unit::default();
    unit.functions.push((
        FunctionOffset(0),
        Function {
            name: Some(b"first".to_vec()),
            linkage_name: None,
            symbol_name: None,
            low_pc: Some(0x2000),
            high_pc: None,
            size: None,
        },
    ));
    unit.functions.push((
        FunctionOffset(1),
        Function {
            name: Some(b"second".to_vec()),
            linkage_name: None,
            symbol_name: None,
            low_pc: Some(0x2000),
            high_pc: None,
            size: None,
        },
    ));
    file.units.push(unit);
    let hash = FileHash::new(&file);
    let (u, k) = hash.functions[&0x2000];
    assert_eq!((u, k), (0, 0));
    assert_eq!(file.units[u].functions[k].1.name.as_deref(), Some(b"first".as_slice()));
}

#[test]
fn file_hash_last_type_wins() {
    let mut file = File {
        path: String::new(),
        code: None,
        sections: Vec::new(),
        symbols: Vec::new(),
        units: Vec::new(),
    };
    let mut u0 = Unit::default();
    u0.types.push((TypeOffset(5), Type { name: Some(b"old".to_vec()) }));
    let mut u1 = Unit::default();
    u1.types.push((TypeOffset(5), Type { name: Some(b"new".to_vec()) }));
    file.units.push(u0);
    file.units.push(u1);
    let hash = FileHash::new(&file);
    let (u, k) = hash.types[&5];
    assert_eq!((u, k), (1, 0));
    assert_eq!(file.units[u].types[k].1.name.as_deref(), Some(b"new".as_slice()));
}

#[test]
fn file_ranges_aggregates_sections_and_units_sorted() {
    let mut file = File {
        path: String::new(),
        code: None,
        sections: vec![section(b"late", Some(0x900), 0x10), section(b"debug", None, 0x99)],
        symbols: Vec::new(),
        units: Vec::new(),
    };
    let mut unit = Unit::default();
    unit.ranges.push(Range { begin: 0x100, end: 0x120 });
    file.units.push(unit);
    let rl = file.ranges();
    assert_eq!(
        rl.list().as_slice(),
        &[Range { begin: 0x100, end: 0x120 }, Range { begin: 0x900, end: 0x910 }]
    );
    assert_eq!(rl.size(), Some(0x30));
}

#[test]
fn filter_units_by_name() {
    let mut file = File {
        path: String::new(),
        code: None,
        sections: Vec::new(),
        symbols: Vec::new(),
        units: Vec::new(),
    };
    let mut u0 = Unit::default();
    u0.name = Some(b"crt0.c".to_vec());
    let mut u1 = Unit::default();
    u1.name = Some(b"main.c".to_vec());
    file.units.push(u0);
    file.units.push(u1);
    let all = Options { category_file: true, unit_filter: None };
    assert_eq!(file.filter_units(&all), vec![0, 1]);
    let only = Options { category_file: true, unit_filter: Some(b"main.c".to_vec()) };
    assert_eq!(file.filter_units(&only), vec![1]);
}
