//! The format-independent model of one parsed binary: sections, symbols,
//! and debug units holding functions, variables and types.  Per-format
//! parsers populate these structures; the crate normalizes and queries them.

use vstd::prelude::*;
use crate::range::Range;
use crate::range::RangeList;

verus! {

/// For byte vectors the deep view is the plain view.
pub proof fn lemma_bytes_deep_view(v: Vec<u8>)
    ensures
        v.deep_view() == v@,
{
    assert(v.deep_view() =~= v@);
}

/// Byte-wise equality of two names.
pub fn bytes_eq(a: &Vec<u8>, b: &Vec<u8>) -> (r: bool)
    ensures
        r == (a@ == b@),
{
    if a.len() != b.len() {
        return false;
    }
    let mut i: usize = 0;
    while i < a.len()
        invariant
            0 <= i <= a@.len(),
            a@.len() == b@.len(),
            forall|j: int| 0 <= j < i ==> a@[j] == b@[j],
        decreases a@.len() - i,
    {
        if a[i] != b[i] {
            return false;
        }
        i = i + 1;
    }
    proof {
        assert(a@ =~= b@);
    }
    true
}

/// Equality of two optional names, by contents.
pub fn opt_name_eq(a: &Option<Vec<u8>>, b: &Option<Vec<u8>>) -> (r: bool)
    ensures
        r == (a.deep_view() == b.deep_view()),
{
    match (a, b) {
        (None, None) => true,
        (Some(x), Some(y)) => {
            proof {
                lemma_bytes_deep_view(*x);
                lemma_bytes_deep_view(*y);
            }
            bytes_eq(x, y)
        },
        _ => false,
    }
}

/// A fresh copy of a name's bytes.
pub fn copy_bytes(v: &Vec<u8>) -> (r: Vec<u8>)
    ensures
        r@ == v@,
{
    let mut out: Vec<u8> = Vec::new();
    let mut i: usize = 0;
    while i < v.len()
        invariant
            0 <= i <= v@.len(),
            out@ == v@.take(i as int),
        decreases v@.len() - i,
    {
        out.push(v[i]);
        proof {
            assert(v@.take(i + 1) =~= v@.take(i as int).push(v@[i as int]));
        }
        i = i + 1;
    }
    proof {
        assert(v@.take(v@.len() as int) =~= v@);
    }
    out
}

/// A fresh copy of an optional name.
pub fn copy_name(n: &Option<Vec<u8>>) -> (r: Option<Vec<u8>>)
    ensures
        r.deep_view() == n.deep_view(),
{
    match n {
        None => None,
        Some(v) => {
            let c = copy_bytes(v);
            proof {
                lemma_bytes_deep_view(*v);
                lemma_bytes_deep_view(c);
            }
            Some(c)
        },
    }
}

/// Kind of a raw symbol-table entry.
#[derive(Clone, Copy, PartialEq, Eq, Structural, Debug)]
pub enum SymbolType {
    Variable,
    Function,
}

/// A raw symbol-table entry, as extracted by a format parser.
#[derive(Debug)]
pub struct Symbol {
    pub name: Option<Vec<u8>>,
    pub ty: SymbolType,
    pub address: u64,
    pub size: u64,
}

impl Symbol {
    /// The symbol's span stays inside the address space.
    pub open spec fn wf(self) -> bool {
        self.address + self.size <= u64::MAX
    }

    /// The address range `[address, address + size)` covered by the symbol.
    pub fn address(&self) -> (r: Range)
        requires
            self.wf(),
        ensures
            r.begin == self.address,
            r.end == self.address + self.size,
    {
        Range { begin: self.address, end: self.address + self.size }
    }
}

/// An object-file section.  `address` is absent for sections that are not
/// loaded at an address, such as debug sections.
#[derive(Debug)]
pub struct Section {
    pub name: Option<Vec<u8>>,
    pub address: Option<u64>,
    pub size: u64,
}

impl Section {
    /// An addressed section's span stays inside the address space.
    pub open spec fn wf(self) -> bool {
        match self.address {
            Some(a) => a + self.size <= u64::MAX,
            None => true,
        }
    }

    /// The section's address range, when it has one.
    pub fn address(&self) -> (r: Option<Range>)
        requires
            self.wf(),
        ensures
            (match self.address {
                Some(a) => r == Some(Range { begin: a, end: (a + self.size) as u64 }),
                None => r is None,
            }),
    {
        match self.address {
            Some(a) => Some(Range { begin: a, end: a + self.size }),
            None => None,
        }
    }
}

/// Key of a function within its unit.
#[derive(Clone, Copy, PartialEq, Eq, Structural, Debug)]
pub struct FunctionOffset(pub u64);

/// Key of a variable within its unit.
#[derive(Clone, Copy, PartialEq, Eq, Structural, Debug)]
pub struct VariableOffset(pub u64);

/// Key of a type within its unit.
#[derive(Clone, Copy, PartialEq, Eq, Structural, Debug)]
pub struct TypeOffset(pub u64);

/// A debug-info function entry.  `symbol_name` is absent until
/// normalization stamps it from the symbol table.
#[derive(Debug)]
pub struct Function {
    pub name: Option<Vec<u8>>,
    pub linkage_name: Option<Vec<u8>>,
    pub symbol_name: Option<Vec<u8>>,
    pub low_pc: Option<u64>,
    pub high_pc: Option<u64>,
    pub size: Option<u64>,
}

impl Default for Function {
    /// A function entry with every field absent.
    fn default() -> (r: Self)
        ensures
            r.name is None && r.linkage_name is None && r.symbol_name is None,
            r.low_pc is None && r.high_pc is None && r.size is None,
    {
        Function {
            name: None,
            linkage_name: None,
            symbol_name: None,
            low_pc: None,
            high_pc: None,
            size: None,
        }
    }
}

/// A debug-info variable entry.  `symbol_name` is absent until
/// normalization stamps it from the symbol table.
#[derive(Debug)]
pub struct Variable {
    pub name: Option<Vec<u8>>,
    pub linkage_name: Option<Vec<u8>>,
    pub symbol_name: Option<Vec<u8>>,
    pub address: Option<u64>,
    pub size: Option<u64>,
}

impl Default for Variable {
    /// A variable entry with every field absent.
    fn default() -> (r: Self)
        ensures
            r.name is None && r.linkage_name is None && r.symbol_name is None,
            r.address is None && r.size is None,
    {
        Variable { name: None, linkage_name: None, symbol_name: None, address: None, size: None }
    }
}

/// A debug-info type entry.
#[derive(Debug)]
pub struct Type {
    pub name: Option<Vec<u8>>,
}

/// A compilation unit: a named container of functions, variables and types,
/// each keyed by its offset, plus the unit's address ranges.
#[derive(Debug)]
pub struct Unit {
    pub name: Option<Vec<u8>>,
    pub ranges: RangeList,
    pub functions: Vec<(FunctionOffset, Function)>,
    pub variables: Vec<(VariableOffset, Variable)>,
    pub types: Vec<(TypeOffset, Type)>,
}

impl Default for Unit {
    /// An empty, nameless unit.
    fn default() -> (r: Self)
        ensures
            r.name is None,
            r.ranges@ == Seq::<Range>::empty(),
            r.functions@ == Seq::<(FunctionOffset, Function)>::empty(),
            r.variables@ == Seq::<(VariableOffset, Variable)>::empty(),
            r.types@ == Seq::<(TypeOffset, Type)>::empty(),
    {
        Unit {
            name: None,
            ranges: RangeList::default(),
            functions: Vec::new(),
            variables: Vec::new(),
            types: Vec::new(),
        }
    }
}

/// Configuration consumed by the listing and diffing entry points: whether
/// the file-level header category is emitted, and an optional unit-name
/// filter applied to the unit list.
#[derive(Debug)]
pub struct Options {
    pub category_file: bool,
    pub unit_filter: Option<Vec<u8>>,
}

/// Whether a unit passes the unit-name filter: with no filter every unit
/// passes; with one, exactly the units carrying that name pass.
pub open spec fn unit_passes(u: Unit, o: Options) -> bool {
    match o.unit_filter {
        None => true,
        Some(f) => u.name.deep_view() == Some(f@),
    }
}

impl Unit {
    /// Apply the unit-name filter from the options to this unit.
    pub fn filter(&self, options: &Options) -> (r: bool)
        ensures
            r == unit_passes(*self, *options),
    {
        match (&options.unit_filter, &self.name) {
            (None, _) => true,
            (Some(f), Some(n)) => {
                proof {
                    lemma_bytes_deep_view(*f);
                    lemma_bytes_deep_view(*n);
                }
                bytes_eq(n, f)
            },
            (Some(_), None) => false,
        }
    }
}

} // verus!
