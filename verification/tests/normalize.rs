//! Normalization: symbol attachment, the synthesized symbol-table unit,
//! and symbol accounting.

use ddbug::file::File;
use ddbug::model::{Function, FunctionOffset, Symbol, SymbolType, Unit, Variable, VariableOffset};
use ddbug::range::Range;

fn sym(name: Option<&[u8]>, ty: SymbolType, address: u64, size: u64) -> Symbol {
    Symbol { name: name.map(|n| n.to_vec()), ty, address, size }
}

fn func(name: Option<&[u8]>, linkage: Option<&[u8]>, low_pc: Option<u64>) -> Function {
    Function {
        name: name.map(|n| n.to_vec()),
        linkage_name: linkage.map(|n| n.to_vec()),
        symbol_name: None,
        low_pc,
        high_pc: None,
        size: None,
    }
}

fn empty_file() -> File {
    File {
        path: String::new(),
        code: None,
        sections: Vec::new(),
        symbols: Vec::new(),
        units: Vec::new(),
    }
}

#[test]
fn name_match_keeps_symbol_name() {
    // A symbol named like the function's linkage name exists at the
    // address: nothing may be overwritten.
    let mut file = empty_file();
    file.symbols.push(sym(Some(b"foo"), SymbolType::Function, 0x100, 4));
    file.symbols.push(sym(Some(b"bar"), SymbolType::Function, 0x100, 4));
    let mut unit = Unit::default();
    unit.functions.push((FunctionOffset(7), func(None, Some(b"foo"), Some(0x100))));
    file.units.push(unit);
    file.normalize();
    assert_eq!(file.units[0].functions[0].1.symbol_name, None);
}

#[test]
fn no_match_assigns_first_symbol_name() {
    // No symbol at the address carries the function's own name: the first
    // symbol at the address is attached.
    let mut file = empty_file();
    file.symbols.push(sym(Some(b"bar"), SymbolType::Function, 0x100, 4));
    let mut unit = Unit::default();
    unit.functions.push((FunctionOffset(7), func(None, None, Some(0x100))));
    file.units.push(unit);
    file.normalize();
    assert_eq!(file.units[0].functions[0].1.symbol_name.as_deref(), Some(b"bar".as_slice()));
}

#[test]
fn linkage_name_wins_over_name() {
    // The lookup name is the linkage name when there is one: "foo" is
    // present at the address, so nothing is assigned even though the
    // source-level name "other" is not.
    let mut file = empty_file();
    file.symbols.push(sym(Some(b"foo"), SymbolType::Function, 0x40, 1));
    let mut unit = Unit::default();
    unit.functions.push((FunctionOffset(0), func(Some(b"other"), Some(b"foo"), Some(0x40))));
    file.units.push(unit);
    file.normalize();
    assert_eq!(file.units[0].functions[0].1.symbol_name, None);
}

#[test]
fn entity_without_address_is_skipped() {
    let mut file = empty_file();
    file.symbols.push(sym(Some(b"bar"), SymbolType::Function, 0x100, 4));
    let mut unit = Unit::default();
    unit.functions.push((FunctionOffset(0), func(Some(b"f"), None, None)));
    file.units.push(unit);
    file.normalize();
    assert_eq!(file.units[0].functions[0].1.symbol_name, None);
    // The symbol was not consumed, so it is synthesized.
    let symtab = file.units.last().unwrap();
    assert_eq!(symtab.functions.len(), 1);
}

#[test]
fn synthetic_unit_for_headless_function() {
    // A function symbol with no debug entity produces exactly one
    // synthesized function with the span [0x1000, 0x1010).
    let mut file = empty_file();
    file.symbols.push(sym(Some(b"orphan"), SymbolType::Function, 0x1000, 0x10));
    file.normalize();
    assert_eq!(file.units.len(), 1);
    let symtab = &file.units[0];
    assert_eq!(symtab.name.as_deref(), Some(b"<symtab>".as_slice()));
    assert_eq!(symtab.functions.len(), 1);
    let (off, f) = &symtab.functions[0];
    assert_eq!(*off, FunctionOffset(0));
    assert_eq!(f.name.as_deref(), Some(b"orphan".as_slice()));
    assert_eq!(f.linkage_name.as_deref(), Some(b"orphan".as_slice()));
    assert_eq!(f.low_pc, Some(0x1000));
    assert_eq!(f.high_pc, Some(0x1010));
    assert_eq!(f.size, Some(0x10));
    assert_eq!(symtab.ranges.list().as_slice(), &[Range { begin: 0x1000, end: 0x1010 }]);
}

#[test]
fn synthetic_unit_for_headless_variable() {
    let mut file = empty_file();
    file.symbols.push(sym(Some(b"v"), SymbolType::Variable, 0x2000, 8));
    file.normalize();
    let symtab = file.units.last().unwrap();
    assert_eq!(symtab.variables.len(), 1);
    let (off, v) = &symtab.variables[0];
    assert_eq!(*off, VariableOffset(0));
    assert_eq!(v.address, Some(0x2000));
    assert_eq!(v.size, Some(8));
    assert!(symtab.functions.is_empty());
}

#[test]
fn zero_size_symbol_gives_empty_range() {
    let mut file = empty_file();
    file.symbols.push(sym(Some(b"z"), SymbolType::Function, 0x30, 0));
    file.normalize();
    let symtab = file.units.last().unwrap();
    assert_eq!(symtab.ranges.list().as_slice(), &[Range { begin: 0x30, end: 0x30 }]);
}

#[test]
fn symbol_accounting_never_both_never_neither() {
    // One symbol is explained by a variable at its address, one is not:
    // exactly the unexplained one is synthesized.
    let mut file = empty_file();
    file.symbols.push(sym(Some(b"known"), SymbolType::Variable, 0x10, 4));
    file.symbols.push(sym(Some(b"orphan"), SymbolType::Variable, 0x20, 4));
    let mut unit = Unit::default();
    unit.variables.push((
        VariableOffset(1),
        Variable {
            name: Some(b"known".to_vec()),
            linkage_name: None,
            symbol_name: None,
            address: Some(0x10),
            size: Some(4),
        },
    ));
    file.units.push(unit);
    file.normalize();
    let symtab = file.units.last().unwrap();
    assert_eq!(symtab.variables.len(), 1);
    assert_eq!(symtab.variables[0].0, VariableOffset(1));
    assert_eq!(symtab.variables[0].1.name.as_deref(), Some(b"orphan".as_slice()));
}

#[test]
fn all_symbols_at_address_marked_used() {
    // Two symbols share the entity's address: both are explained, neither
    // is synthesized, even though only one name can be attached.
    let mut file = empty_file();
    file.symbols.push(sym(Some(b"a"), SymbolType::Function, 0x50, 4));
    file.symbols.push(sym(Some(b"b"), SymbolType::Function, 0x50, 4));
    let mut unit = Unit::default();
    unit.functions.push((FunctionOffset(0), func(None, None, Some(0x50))));
    file.units.push(unit);
    file.normalize();
    let symtab = file.units.last().unwrap();
    assert!(symtab.functions.is_empty());
    assert!(symtab.variables.is_empty());
}

#[test]
fn normalize_sorts_symbols_by_address() {
    let mut file = empty_file();
    file.symbols.push(sym(Some(b"hi"), SymbolType::Function, 0x300, 1));
    file.symbols.push(sym(Some(b"lo"), SymbolType::Function, 0x100, 1));
    file.symbols.push(sym(Some(b"mid"), SymbolType::Function, 0x200, 1));
    file.normalize();
    let addrs: Vec<u64> = file.symbols.iter().map(|s| s.address).collect();
    assert_eq!(addrs, vec![0x100, 0x200, 0x300]);
}
