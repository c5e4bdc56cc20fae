//! The top-level file aggregate and the normalization pass that reconciles
//! the raw symbol table with the parsed debug units.

use std::collections::HashMap;
use vstd::prelude::*;
use crate::model::copy_name;
use crate::model::opt_name_eq;
use crate::model::Function;
use crate::model::FunctionOffset;
use crate::model::Options;
use crate::model::Section;
use crate::model::Symbol;
use crate::model::SymbolType;
use crate::model::TypeOffset;
use crate::model::Unit;
use crate::model::unit_passes;
use crate::model::Variable;
use crate::model::VariableOffset;
use crate::range::lemma_insert_to_multiset;
use crate::range::Range;
use crate::range::RangeList;
use crate::range::ranges_sorted;

verus! {

/// Supported machine architectures of a code region.
#[derive(Clone, Copy, PartialEq, Eq, Structural, Debug)]
pub enum Machine {
    Amd64,
    Ia32,
    Avr,
}

/// The loaded machine-code bytes of a file, for collaborators that model
/// instructions.  The core never interprets the bytes.
#[derive(Debug)]
pub struct CodeRegion {
    pub machine: Machine,
    pub address: u64,
    pub bytes: Vec<u8>,
}

/// One parsed binary: its path, optional machine code, sections, raw
/// symbol table and debug units.
#[derive(Debug)]
pub struct File {
    pub path: String,
    pub code: Option<CodeRegion>,
    pub sections: Vec<Section>,
    pub symbols: Vec<Symbol>,
    pub units: Vec<Unit>,
}

/// The symbol table is sorted by address.
pub open spec fn symbols_sorted(s: Seq<Symbol>) -> bool {
    forall|i: int, j: int| 0 <= i < j < s.len() ==> s[i].address <= s[j].address
}

/// Every symbol's span stays inside the address space.
pub open spec fn symbols_wf(s: Seq<Symbol>) -> bool {
    forall|i: int| 0 <= i < s.len() ==> s[i].wf()
}

/// Some symbol lives at exactly this address.
pub open spec fn has_symbol_at(s: Seq<Symbol>, a: u64) -> bool {
    exists|i: int| 0 <= i < s.len() && s[i].address == a
}

/// Some symbol at this address carries exactly this name.
pub open spec fn name_matches_at(s: Seq<Symbol>, a: u64, n: Option<Seq<u8>>) -> bool {
    exists|i: int| 0 <= i < s.len() && s[i].address == a && s[i].name.deep_view() == n
}

/// `idx` is the first symbol-table index holding address `a`.
pub open spec fn is_first_at(s: Seq<Symbol>, a: u64, idx: int) -> bool {
    &&& 0 <= idx < s.len()
    &&& s[idx].address == a
    &&& forall|k: int| 0 <= k < idx ==> s[k].address != a
}

/// Stable insertion sort of the symbol table by address; symbols sharing an
/// address keep their relative order, and sorting a sorted table is a no-op.
fn sort_symbols(v: &mut Vec<Symbol>)
    ensures
        final(v)@.to_multiset() == old(v)@.to_multiset(),
        symbols_sorted(final(v)@),
        symbols_sorted(old(v)@) ==> final(v)@ == old(v)@,
{
    let ghost orig = v@;
    if v.len() < 2 {
        return ;
    }
    let mut i: usize = 1;
    while i < v.len()
        invariant
            1 <= i <= v@.len(),
            v@.len() == orig.len(),
            v@.to_multiset() == orig.to_multiset(),
            symbols_sorted(v@.take(i as int)),
            symbols_sorted(orig) ==> v@ == orig,
        decreases v@.len() - i,
    {
        let ghost v0 = v@;
        let x = v.remove(i);
        let ghost v1 = v@;
        let mut p: usize = i;
        while p > 0 && x.address < v[p - 1].address
            invariant
                0 <= p <= i,
                i < v1.len() + 1,
                v@ == v1,
                forall|y: int| p <= y < i ==> x.address < v1[y].address,
            decreases p,
        {
            p = p - 1;
        }
        v.insert(p, x);
        proof {
            broadcast use vstd::seq_lib::group_to_multiset_ensures;

            assert(v1 == v0.remove(i as int));
            assert(v0.remove(i as int).to_multiset() == v0.to_multiset().remove(v0[i as int]));
            lemma_insert_to_multiset(v1, p as int, x);
            assert(v@.to_multiset() == orig.to_multiset());
            assert(forall|y: int| 0 <= y < i ==> v1[y] == v0[y]);
            assert forall|y1: int, y2: int| 0 <= y1 < y2 < i implies v1[y1].address
                <= v1[y2].address by {
                assert(v0.take(i as int)[y1].address <= v0.take(i as int)[y2].address);
            }
            assert forall|a: int, b: int| 0 <= a < b < i + 1 implies v@[a].address
                <= v@[b].address by {
                assert(forall|y: int| 0 <= y < p ==> v@[y] == v1[y]);
                assert(v@[p as int] == x);
                assert(forall|y: int| p < y <= i ==> v@[y] == v1[y - 1]);
            }
            assert(symbols_sorted(v@.take(i + 1))) by {
                assert(forall|y: int| 0 <= y < i + 1 ==> v@.take(i + 1)[y] == v@[y]);
            }
            if symbols_sorted(orig) {
                assert(v0 == orig);
                assert(!(p < i)) by {
                    if p < i {
                        assert(x.address < v1[i - 1].address);
                        assert(v0[i - 1].address <= v0[i as int].address);
                    }
                }
                assert(v@ =~= orig);
            }
        }
        i = i + 1;
    }
    proof {
        assert(v@.take(v@.len() as int) =~= v@);
    }
}

/// Look up the symbols at `address` and mark every one of them used.  When
/// none of their names equals the requested `name`, the first symbol at the
/// address is returned so that its name can be attached; when the name is
/// already present among them (or no symbol lives there), nothing is
/// returned and the caller leaves its entity untouched.
fn get_symbol(symbols: &Vec<Symbol>, used: &mut Vec<bool>, address: u64, name: &Option<Vec<u8>>)
    -> (r: Option<usize>)
    requires
        symbols_sorted(symbols@),
        old(used)@.len() == symbols@.len(),
    ensures
        final(used)@.len() == symbols@.len(),
        forall|i: int| 0 <= i < symbols@.len() ==> final(used)@[i] == (old(used)@[i]
            || symbols@[i].address == address),
        (match r {
            Some(idx) => {
                &&& is_first_at(symbols@, address, idx as int)
                &&& !name_matches_at(symbols@, address, name.deep_view())
            },
            None => !has_symbol_at(symbols@, address) || name_matches_at(
                symbols@,
                address,
                name.deep_view(),
            ),
        }),
{
    // Binary search for the first index whose address is not below `address`.
    let mut lo: usize = 0;
    let mut hi: usize = symbols.len();
    while lo < hi
        invariant
            0 <= lo <= hi <= symbols@.len(),
            symbols_sorted(symbols@),
            forall|i: int| 0 <= i < lo ==> symbols@[i].address < address,
            forall|i: int| hi <= i < symbols@.len() ==> symbols@[i].address >= address,
        decreases hi - lo,
    {
        let mid = lo + (hi - lo) / 2;
        if symbols[mid].address < address {
            lo = mid + 1;
        } else {
            hi = mid;
        }
    }
    if lo == symbols.len() || symbols[lo].address != address {
        proof {
            assert forall|i: int| 0 <= i < symbols@.len() implies symbols@[i].address
                != address by {
                if lo < symbols@.len() && i >= lo {
                    assert(symbols@[lo as int].address <= symbols@[i].address || i == lo);
                }
            }
            assert(!has_symbol_at(symbols@, address));
        }
        return None;
    }
    let ghost used0 = used@;
    let mut j: usize = lo;
    let mut found = false;
    while j < symbols.len() && symbols[j].address == address
        invariant
            lo <= j <= symbols@.len(),
            lo < symbols@.len(),
            symbols_sorted(symbols@),
            used@.len() == symbols@.len(),
            used0.len() == symbols@.len(),
            forall|i: int| lo <= i < j ==> symbols@[i].address == address,
            forall|i: int| 0 <= i < symbols@.len() ==> used@[i] == (used0[i] || (lo <= i < j)),
            found <==> exists|i: int|
                lo <= i < j && symbols@[i].name.deep_view() == name.deep_view(),
        decreases symbols@.len() - j,
    {
        used[j] = true;
        if opt_name_eq(&symbols[j].name, name) {
            found = true;
        }
        j = j + 1;
    }
    proof {
        assert(forall|i: int| #![trigger used@[i]]
            0 <= i < symbols@.len() ==> used@[i] == (used0[i] || (lo <= i < j)));
        // Exactly the indices in [lo, j) hold `address`.
        assert forall|i: int| #![trigger symbols@[i]] 0 <= i < symbols@.len() implies (
        symbols@[i].address == address <==> lo <= i < j) by {
            if i < lo {
                assert(symbols@[i].address < address);
            }
            if i >= j && j < symbols@.len() {
                assert(symbols@[j as int].address <= symbols@[i].address);
                assert(symbols@[lo as int].address <= symbols@[j as int].address);
            }
        }
        assert(symbols@[lo as int].address == address);
        assert(has_symbol_at(symbols@, address));
        assert forall|i: int| #![trigger symbols@[i]] 0 <= i < symbols@.len() implies used@[i]
            == (used0[i] || symbols@[i].address == address) by {
            assert(used@[i] == (used0[i] || (lo <= i < j)));
            assert(symbols@[i].address == address <==> lo <= i < j);
        }
        if found {
            let w = choose|i: int|
                lo <= i < j && symbols@[i].name.deep_view() == name.deep_view();
            assert(symbols@[w].address == address);
            assert(name_matches_at(symbols@, address, name.deep_view()));
        } else {
            assert(!name_matches_at(symbols@, address, name.deep_view())) by {
                if name_matches_at(symbols@, address, name.deep_view()) {
                    let w = choose|i: int|
                        0 <= i < symbols@.len() && symbols@[i].address == address
                            && symbols@[i].name.deep_view() == name.deep_view();
                    assert(lo <= w < j);
                }
            }
        }
    }
    if found {
        None
    } else {
        Some(lo)
    }
}

/// The name a function is looked up under: its linkage name when it has
/// one, else its source-level name.
pub open spec fn fn_lookup_name(f: Function) -> Option<Seq<u8>> {
    if f.linkage_name is Some {
        f.linkage_name.deep_view()
    } else {
        f.name.deep_view()
    }
}

/// The name a variable is looked up under.
pub open spec fn var_lookup_name(v: Variable) -> Option<Seq<u8>> {
    if v.linkage_name is Some {
        v.linkage_name.deep_view()
    } else {
        v.name.deep_view()
    }
}

/// How normalization rewrites one function: `symbol_name` is overwritten
/// with the first symbol at the function's address exactly when symbols
/// live there and none of them already carries the function's own lookup
/// name; every other field is kept.
pub open spec fn fn_attached(s: Seq<Symbol>, f: Function, g: Function) -> bool {
    &&& (g == (Function { symbol_name: g.symbol_name, ..f }))
    &&& (match f.low_pc {
        None => g.symbol_name == f.symbol_name,
        Some(a) => {
            if has_symbol_at(s, a) && !name_matches_at(s, a, fn_lookup_name(f)) {
                exists|idx: int|
                    #[trigger] is_first_at(s, a, idx) && g.symbol_name.deep_view()
                        == s[idx].name.deep_view()
            } else {
                g.symbol_name == f.symbol_name
            }
        },
    })
}

/// How normalization rewrites one variable; the rule of `fn_attached`,
/// keyed by the variable's address.
pub open spec fn var_attached(s: Seq<Symbol>, v: Variable, w: Variable) -> bool {
    &&& (w == (Variable { symbol_name: w.symbol_name, ..v }))
    &&& (match v.address {
        None => w.symbol_name == v.symbol_name,
        Some(a) => {
            if has_symbol_at(s, a) && !name_matches_at(s, a, var_lookup_name(v)) {
                exists|idx: int|
                    #[trigger] is_first_at(s, a, idx) && w.symbol_name.deep_view()
                        == s[idx].name.deep_view()
            } else {
                w.symbol_name == v.symbol_name
            }
        },
    })
}

/// Some function entry in the list has this address.
pub open spec fn fns_cover(fs: Seq<(FunctionOffset, Function)>, a: u64) -> bool {
    exists|k: int| 0 <= k < fs.len() && (#[trigger] fs[k]).1.low_pc == Some(a)
}

/// Some variable entry in the list has this address.
pub open spec fn vars_cover(vs: Seq<(VariableOffset, Variable)>, a: u64) -> bool {
    exists|k: int| 0 <= k < vs.len() && (#[trigger] vs[k]).1.address == Some(a)
}

/// Some debug entity of the unit has this address.
pub open spec fn unit_covers(u: Unit, a: u64) -> bool {
    fns_cover(u.functions@, a) || vars_cover(u.variables@, a)
}

/// Some debug entity of some unit has this address.
pub open spec fn covered(units: Seq<Unit>, a: u64) -> bool {
    exists|ui: int| 0 <= ui < units.len() && #[trigger] unit_covers(units[ui], a)
}

/// How the attachment pass rewrites one unit: function and variable
/// entries are rewritten entry-wise under their unchanged keys, everything
/// else is kept.
pub open spec fn unit_attached(s: Seq<Symbol>, u0: Unit, u1: Unit) -> bool {
    &&& u1.name == u0.name
    &&& u1.ranges == u0.ranges
    &&& u1.types == u0.types
    &&& u1.functions@.len() == u0.functions@.len()
    &&& forall|k: int| #![trigger u1.functions@[k]]
        0 <= k < u0.functions@.len() ==> u1.functions@[k].0 == u0.functions@[k].0
            && fn_attached(s, u0.functions@[k].1, u1.functions@[k].1)
    &&& u1.variables@.len() == u0.variables@.len()
    &&& forall|k: int| #![trigger u1.variables@[k]]
        0 <= k < u0.variables@.len() ==> u1.variables@[k].0 == u0.variables@[k].0
            && var_attached(s, u0.variables@[k].1, u1.variables@[k].1)
}

proof fn lemma_fns_cover_step(fs: Seq<(FunctionOffset, Function)>, k: int, a: u64)
    requires
        0 <= k < fs.len(),
    ensures
        fns_cover(fs.take(k + 1), a) <==> (fns_cover(fs.take(k), a) || fs[k].1.low_pc == Some(
            a,
        )),
{
    assert(fs.take(k + 1)[k] == fs[k]);
    if fns_cover(fs.take(k + 1), a) {
        let w = choose|x: int|
            0 <= x < fs.take(k + 1).len() && (#[trigger] fs.take(k + 1)[x]).1.low_pc == Some(a);
        if w < k {
            assert(fs.take(k)[w] == fs[w]);
            assert((fs.take(k)[w]).1.low_pc == Some(a));
        }
    }
    if fns_cover(fs.take(k), a) {
        let w = choose|x: int|
            0 <= x < fs.take(k).len() && (#[trigger] fs.take(k)[x]).1.low_pc == Some(a);
        assert((fs.take(k + 1)[w]).1.low_pc == Some(a));
    }
}

proof fn lemma_vars_cover_step(vs: Seq<(VariableOffset, Variable)>, k: int, a: u64)
    requires
        0 <= k < vs.len(),
    ensures
        vars_cover(vs.take(k + 1), a) <==> (vars_cover(vs.take(k), a) || vs[k].1.address
            == Some(a)),
{
    assert(vs.take(k + 1)[k] == vs[k]);
    if vars_cover(vs.take(k + 1), a) {
        let w = choose|x: int|
            0 <= x < vs.take(k + 1).len() && (#[trigger] vs.take(k + 1)[x]).1.address == Some(a);
        if w < k {
            assert(vs.take(k)[w] == vs[w]);
            assert((vs.take(k)[w]).1.address == Some(a));
        }
    }
    if vars_cover(vs.take(k), a) {
        let w = choose|x: int|
            0 <= x < vs.take(k).len() && (#[trigger] vs.take(k)[x]).1.address == Some(a);
        assert((vs.take(k + 1)[w]).1.address == Some(a));
    }
}

/// Attach symbol names to every addressed function and variable of one
/// unit, marking every symbol whose address an entity explains.
fn attach_unit(unit: &mut Unit, symbols: &Vec<Symbol>, used: &mut Vec<bool>)
    requires
        symbols_sorted(symbols@),
        old(used)@.len() == symbols@.len(),
    ensures
        final(used)@.len() == symbols@.len(),
        unit_attached(symbols@, *old(unit), *final(unit)),
        forall|i: int| #![trigger final(used)@[i]]
            0 <= i < symbols@.len() ==> final(used)@[i] == (old(used)@[i] || unit_covers(
                *old(unit),
                symbols@[i].address,
            )),
{
    let ghost fs0 = unit.functions@;
    let ghost vs0 = unit.variables@;
    let ghost used_in = used@;
    let mut k: usize = 0;
    while k < unit.functions.len()
        invariant
            0 <= k <= fs0.len(),
            unit.functions@.len() == fs0.len(),
            symbols_sorted(symbols@),
            used@.len() == symbols@.len(),
            used_in.len() == symbols@.len(),
            unit.name == old(unit).name,
            unit.ranges == old(unit).ranges,
            unit.types == old(unit).types,
            unit.variables == old(unit).variables,
            fs0 == old(unit).functions@,
            vs0 == old(unit).variables@,
            forall|x: int| #![trigger unit.functions@[x]]
                0 <= x < k ==> unit.functions@[x].0 == fs0[x].0 && fn_attached(
                    symbols@,
                    fs0[x].1,
                    unit.functions@[x].1,
                ),
            forall|x: int| #![trigger unit.functions@[x]]
                k <= x < fs0.len() ==> unit.functions@[x] == fs0[x],
            forall|i: int| #![trigger used@[i]]
                0 <= i < symbols@.len() ==> used@[i] == (used_in[i] || fns_cover(
                    fs0.take(k as int),
                    symbols@[i].address,
                )),
        decreases fs0.len() - k,
    {
        let ghost fsk = unit.functions@;
        let ghost used_pre = used@;
        let (off, mut f) = unit.functions.remove(k);
        let ghost f0 = f;
        if let Some(a) = f.low_pc {
            let name_ref = if f.linkage_name.is_some() {
                &f.linkage_name
            } else {
                &f.name
            };
            proof {
                assert(name_ref.deep_view() == fn_lookup_name(f0));
            }
            if let Some(idx) = get_symbol(symbols, used, a, name_ref) {
                f.symbol_name = copy_name(&symbols[idx].name);
            }
        }
        unit.functions.insert(k, (off, f));
        proof {
            assert(unit.functions@ =~= fsk.update(k as int, (off, f)));
            assert(fn_attached(symbols@, f0, f)) by {
                match f0.low_pc {
                    None => {},
                    Some(a) => {
                        if has_symbol_at(symbols@, a) && !name_matches_at(
                            symbols@,
                            a,
                            fn_lookup_name(f0),
                        ) {
                            assert(exists|idx: int|
                                #[trigger] is_first_at(symbols@, a, idx)
                                    && f.symbol_name.deep_view() == symbols@[idx].name.deep_view());
                        }
                    },
                }
            }
            assert(fsk[k as int] == fs0[k as int]);
            assert forall|i: int| #![trigger used@[i]] 0 <= i < symbols@.len() implies used@[i]
                == (used_in[i] || fns_cover(fs0.take(k + 1), symbols@[i].address)) by {
                lemma_fns_cover_step(fs0, k as int, symbols@[i].address);
                assert(used_pre[i] == (used_in[i] || fns_cover(
                    fs0.take(k as int),
                    symbols@[i].address,
                )));
                if f0.low_pc is Some {
                    assert(used@[i] == (used_pre[i] || symbols@[i].address
                        == f0.low_pc.unwrap()));
                } else {
                    assert(used@[i] == used_pre[i]);
                }
            }
        }
        k = k + 1;
    }
    proof {
        assert(fs0.take(fs0.len() as int) =~= fs0);
    }
    let ghost used_mid = used@;
    let mut k2: usize = 0;
    while k2 < unit.variables.len()
        invariant
            0 <= k2 <= vs0.len(),
            unit.variables@.len() == vs0.len(),
            symbols_sorted(symbols@),
            used@.len() == symbols@.len(),
            used_mid.len() == symbols@.len(),
            unit.name == old(unit).name,
            unit.ranges == old(unit).ranges,
            unit.types == old(unit).types,
            vs0 == old(unit).variables@,
            unit.functions@.len() == fs0.len(),
            fs0 == old(unit).functions@,
            forall|x: int| #![trigger unit.functions@[x]]
                0 <= x < fs0.len() ==> unit.functions@[x].0 == fs0[x].0 && fn_attached(
                    symbols@,
                    fs0[x].1,
                    unit.functions@[x].1,
                ),
            forall|x: int| #![trigger unit.variables@[x]]
                0 <= x < k2 ==> unit.variables@[x].0 == vs0[x].0 && var_attached(
                    symbols@,
                    vs0[x].1,
                    unit.variables@[x].1,
                ),
            forall|x: int| #![trigger unit.variables@[x]]
                k2 <= x < vs0.len() ==> unit.variables@[x] == vs0[x],
            forall|i: int| #![trigger used@[i]]
                0 <= i < symbols@.len() ==> used@[i] == (used_mid[i] || vars_cover(
                    vs0.take(k2 as int),
                    symbols@[i].address,
                )),
        decreases vs0.len() - k2,
    {
        let ghost vsk = unit.variables@;
        let ghost used_pre = used@;
        let (off, mut v) = unit.variables.remove(k2);
        let ghost v0 = v;
        if let Some(a) = v.address {
            let name_ref = if v.linkage_name.is_some() {
                &v.linkage_name
            } else {
                &v.name
            };
            proof {
                assert(name_ref.deep_view() == var_lookup_name(v0));
            }
            if let Some(idx) = get_symbol(symbols, used, a, name_ref) {
                v.symbol_name = copy_name(&symbols[idx].name);
            }
        }
        unit.variables.insert(k2, (off, v));
        proof {
            assert(unit.variables@ =~= vsk.update(k2 as int, (off, v)));
            assert(var_attached(symbols@, v0, v)) by {
                match v0.address {
                    None => {},
                    Some(a) => {
                        if has_symbol_at(symbols@, a) && !name_matches_at(
                            symbols@,
                            a,
                            var_lookup_name(v0),
                        ) {
                            assert(exists|idx: int|
                                #[trigger] is_first_at(symbols@, a, idx)
                                    && v.symbol_name.deep_view() == symbols@[idx].name.deep_view());
                        }
                    },
                }
            }
            assert(vsk[k2 as int] == vs0[k2 as int]);
            assert forall|i: int| #![trigger used@[i]] 0 <= i < symbols@.len() implies used@[i]
                == (used_mid[i] || vars_cover(vs0.take(k2 + 1), symbols@[i].address)) by {
                lemma_vars_cover_step(vs0, k2 as int, symbols@[i].address);
                assert(used_pre[i] == (used_mid[i] || vars_cover(
                    vs0.take(k2 as int),
                    symbols@[i].address,
                )));
                if v0.address is Some {
                    assert(used@[i] == (used_pre[i] || symbols@[i].address == v0.address.unwrap()));
                } else {
                    assert(used@[i] == used_pre[i]);
                }
            }
        }
        k2 = k2 + 1;
    }
    proof {
        assert(vs0.take(vs0.len() as int) =~= vs0);
        assert forall|i: int| #![trigger used@[i]] 0 <= i < symbols@.len() implies used@[i] == (
        used_in[i] || unit_covers(*old(unit), symbols@[i].address)) by {
            assert(used_mid[i] == (used_in[i] || fns_cover(fs0, symbols@[i].address)));
            assert(used@[i] == (used_mid[i] || vars_cover(vs0, symbols@[i].address)));
        }
    }
}

proof fn lemma_covered_step(us: Seq<Unit>, u: int, a: u64)
    requires
        0 <= u < us.len(),
    ensures
        covered(us.take(u + 1), a) <==> (covered(us.take(u), a) || unit_covers(us[u], a)),
{
    assert(us.take(u + 1)[u] == us[u]);
    if covered(us.take(u + 1), a) {
        let w = choose|ui: int|
            0 <= ui < us.take(u + 1).len() && #[trigger] unit_covers(us.take(u + 1)[ui], a);
        if w < u {
            assert(us.take(u)[w] == us[w]);
            assert(unit_covers(us.take(u)[w], a));
        }
    }
    if covered(us.take(u), a) {
        let w = choose|ui: int|
            0 <= ui < us.take(u).len() && #[trigger] unit_covers(us.take(u)[ui], a);
        assert(unit_covers(us.take(u + 1)[w], a));
    }
    if unit_covers(us[u], a) {
        assert(unit_covers(us.take(u + 1)[u], a));
    }
}

/// Attach symbol names across every unit, accumulating the used marks.
fn attach_symbols(units: &mut Vec<Unit>, symbols: &Vec<Symbol>, used: &mut Vec<bool>)
    requires
        symbols_sorted(symbols@),
        old(used)@.len() == symbols@.len(),
    ensures
        final(used)@.len() == symbols@.len(),
        final(units)@.len() == old(units)@.len(),
        forall|x: int| #![trigger final(units)@[x]]
            0 <= x < old(units)@.len() ==> unit_attached(
                symbols@,
                old(units)@[x],
                final(units)@[x],
            ),
        forall|i: int| #![trigger final(used)@[i]]
            0 <= i < symbols@.len() ==> final(used)@[i] == (old(used)@[i] || covered(
                old(units)@,
                symbols@[i].address,
            )),
{
    let ghost us0 = units@;
    let ghost used_in = used@;
    let mut u: usize = 0;
    while u < units.len()
        invariant
            0 <= u <= us0.len(),
            units@.len() == us0.len(),
            symbols_sorted(symbols@),
            used@.len() == symbols@.len(),
            used_in.len() == symbols@.len(),
            us0 == old(units)@,
            used_in == old(used)@,
            forall|x: int| #![trigger units@[x]]
                0 <= x < u ==> unit_attached(symbols@, us0[x], units@[x]),
            forall|x: int| #![trigger units@[x]] u <= x < us0.len() ==> units@[x] == us0[x],
            forall|i: int| #![trigger used@[i]]
                0 <= i < symbols@.len() ==> used@[i] == (used_in[i] || covered(
                    us0.take(u as int),
                    symbols@[i].address,
                )),
        decreases us0.len() - u,
    {
        let ghost usk = units@;
        let ghost used_pre = used@;
        let mut unit = units.remove(u);
        let ghost u_before = unit;
        attach_unit(&mut unit, symbols, used);
        units.insert(u, unit);
        proof {
            assert(units@ =~= usk.update(u as int, unit));
            assert(u_before == us0[u as int]);
            assert forall|i: int| #![trigger used@[i]] 0 <= i < symbols@.len() implies used@[i]
                == (used_in[i] || covered(us0.take(u + 1), symbols@[i].address)) by {
                lemma_covered_step(us0, u as int, symbols@[i].address);
                assert(used_pre[i] == (used_in[i] || covered(
                    us0.take(u as int),
                    symbols@[i].address,
                )));
                assert(used@[i] == (used_pre[i] || unit_covers(u_before, symbols@[i].address)));
            }
        }
        u = u + 1;
    }
    proof {
        assert(us0.take(us0.len() as int) =~= us0);
    }
}

/// The name of the synthesized symbol-table unit: the bytes of `<symtab>`.
pub open spec fn symtab_label() -> Seq<u8> {
    seq![60u8, 115u8, 121u8, 109u8, 116u8, 97u8, 98u8, 62u8]
}

fn symtab_label_bytes() -> (r: Vec<u8>)
    ensures
        r@ == symtab_label(),
{
    let mut v: Vec<u8> = Vec::new();
    v.push(60);
    v.push(115);
    v.push(121);
    v.push(109);
    v.push(116);
    v.push(97);
    v.push(98);
    v.push(62);
    proof {
        assert(v@ =~= symtab_label());
    }
    v
}

/// Indices of the headless symbols of one kind, in symbol-table order.
pub open spec fn headless_idxs(s: Seq<Symbol>, used: Seq<bool>, t: SymbolType) -> Seq<int>
    decreases s.len(),
{
    if s.len() == 0 {
        Seq::empty()
    } else {
        let prefix = headless_idxs(s.drop_last(), used.drop_last(), t);
        if !used[s.len() - 1] && s.last().ty == t {
            prefix.push(s.len() - 1)
        } else {
            prefix
        }
    }
}

/// Indices of all headless symbols, in symbol-table order.
pub open spec fn headless_all(s: Seq<Symbol>, used: Seq<bool>) -> Seq<int>
    decreases s.len(),
{
    if s.len() == 0 {
        Seq::empty()
    } else {
        let prefix = headless_all(s.drop_last(), used.drop_last());
        if !used[s.len() - 1] {
            prefix.push(s.len() - 1)
        } else {
            prefix
        }
    }
}

/// The address range `[address, address + size)` of a symbol.
pub open spec fn sym_range(s: Symbol) -> Range {
    Range { begin: s.address, end: (s.address + s.size) as u64 }
}

/// The function synthesized for headless symbol `i`: both names are the
/// symbol's name, the span is `[address, address + size)`.
pub open spec fn is_synth_fn(s: Seq<Symbol>, i: int, p: (FunctionOffset, Function)) -> bool {
    &&& p.0 == FunctionOffset(i as u64)
    &&& p.1.name.deep_view() == s[i].name.deep_view()
    &&& p.1.linkage_name.deep_view() == s[i].name.deep_view()
    &&& p.1.symbol_name is None
    &&& p.1.low_pc == Some(s[i].address)
    &&& p.1.high_pc == Some((s[i].address + s[i].size) as u64)
    &&& p.1.size == Some(s[i].size)
}

/// The variable synthesized for headless symbol `i`.
pub open spec fn is_synth_var(s: Seq<Symbol>, i: int, p: (VariableOffset, Variable)) -> bool {
    &&& p.0 == VariableOffset(i as u64)
    &&& p.1.name.deep_view() == s[i].name.deep_view()
    &&& p.1.linkage_name.deep_view() == s[i].name.deep_view()
    &&& p.1.symbol_name is None
    &&& p.1.address == Some(s[i].address)
    &&& p.1.size == Some(s[i].size)
}

/// The synthesized symbol-table unit for the headless symbols under the
/// given used marks: one function or variable per headless symbol, keyed
/// by the symbol's index, plus the sorted list of their address ranges.
pub open spec fn is_symtab_unit(s: Seq<Symbol>, used: Seq<bool>, u: Unit) -> bool {
    let hf = headless_idxs(s, used, SymbolType::Function);
    let hv = headless_idxs(s, used, SymbolType::Variable);
    let ha = headless_all(s, used);
    &&& u.name.deep_view() == Some(symtab_label())
    &&& u.types@.len() == 0
    &&& u.functions@.len() == hf.len()
    &&& forall|j: int| #![trigger u.functions@[j]]
        0 <= j < hf.len() ==> is_synth_fn(s, hf[j], u.functions@[j])
    &&& u.variables@.len() == hv.len()
    &&& forall|j: int| #![trigger u.variables@[j]]
        0 <= j < hv.len() ==> is_synth_var(s, hv[j], u.variables@[j])
    &&& ranges_sorted(u.ranges@)
    &&& u.ranges@.to_multiset() == ha.map_values(|x: int| sym_range(s[x])).to_multiset()
}

proof fn lemma_headless_idxs_step(s: Seq<Symbol>, used: Seq<bool>, t: SymbolType, i: int)
    requires
        0 <= i < s.len(),
        used.len() == s.len(),
    ensures
        headless_idxs(s.take(i + 1), used.take(i + 1), t) == (if !used[i] && s[i].ty == t {
            headless_idxs(s.take(i), used.take(i), t).push(i)
        } else {
            headless_idxs(s.take(i), used.take(i), t)
        }),
{
    assert(s.take(i + 1).drop_last() =~= s.take(i));
    assert(used.take(i + 1).drop_last() =~= used.take(i));
    assert(s.take(i + 1).last() == s[i]);
    assert(used.take(i + 1)[s.take(i + 1).len() - 1] == used[i]);
}

proof fn lemma_headless_all_step(s: Seq<Symbol>, used: Seq<bool>, i: int)
    requires
        0 <= i < s.len(),
        used.len() == s.len(),
    ensures
        headless_all(s.take(i + 1), used.take(i + 1)) == (if !used[i] {
            headless_all(s.take(i), used.take(i)).push(i)
        } else {
            headless_all(s.take(i), used.take(i))
        }),
{
    assert(s.take(i + 1).drop_last() =~= s.take(i));
    assert(used.take(i + 1).drop_last() =~= used.take(i));
    assert(s.take(i + 1).last() == s[i]);
    assert(used.take(i + 1)[s.take(i + 1).len() - 1] == used[i]);
}

/// Build the synthesized unit holding one entity per headless symbol.
fn symtab_unit(symbols: &Vec<Symbol>, used: &Vec<bool>) -> (u: Unit)
    requires
        symbols_wf(symbols@),
        used@.len() == symbols@.len(),
    ensures
        is_symtab_unit(symbols@, used@, u),
{
    let ghost s = symbols@;
    let ghost um = used@;
    let ghost rmap = |x: int| sym_range(s[x]);
    let mut unit = Unit::default();
    unit.name = Some(symtab_label_bytes());
    proof {
        let ghost nm = unit.name;
        if nm is Some {
            crate::model::lemma_bytes_deep_view(nm.unwrap());
        }
        assert(s.take(0) =~= Seq::<Symbol>::empty());
        assert(um.take(0) =~= Seq::<bool>::empty());
        assert(headless_all(s.take(0), um.take(0)).map_values(rmap) =~= Seq::<Range>::empty());
    }
    let mut i: usize = 0;
    while i < symbols.len()
        invariant
            0 <= i <= s.len(),
            symbols@ == s,
            used@ == um,
            um.len() == s.len(),
            symbols_wf(s),
            rmap == (|x: int| sym_range(s[x])),
            unit.name.deep_view() == Some(symtab_label()),
            unit.types@.len() == 0,
            unit.functions@.len() == headless_idxs(
                s.take(i as int),
                um.take(i as int),
                SymbolType::Function,
            ).len(),
            forall|j: int| #![trigger unit.functions@[j]]
                0 <= j < unit.functions@.len() ==> is_synth_fn(
                    s,
                    headless_idxs(s.take(i as int), um.take(i as int), SymbolType::Function)[j],
                    unit.functions@[j],
                ),
            unit.variables@.len() == headless_idxs(
                s.take(i as int),
                um.take(i as int),
                SymbolType::Variable,
            ).len(),
            forall|j: int| #![trigger unit.variables@[j]]
                0 <= j < unit.variables@.len() ==> is_synth_var(
                    s,
                    headless_idxs(s.take(i as int), um.take(i as int), SymbolType::Variable)[j],
                    unit.variables@[j],
                ),
            unit.ranges@ == headless_all(s.take(i as int), um.take(i as int)).map_values(rmap),
        decreases s.len() - i,
    {
        proof {
            lemma_headless_idxs_step(s, um, SymbolType::Function, i as int);
            lemma_headless_idxs_step(s, um, SymbolType::Variable, i as int);
            lemma_headless_all_step(s, um, i as int);
        }
        let ghost ha0 = headless_all(s.take(i as int), um.take(i as int));
        if !used[i] {
            proof {
                assert(s[i as int].wf());
            }
            let r = Range {
                begin: symbols[i].address,
                end: symbols[i].address + symbols[i].size,
            };
            unit.ranges.push(r);
            proof {
                assert(ha0.push(i as int).map_values(rmap) =~= ha0.map_values(rmap).push(
                    rmap(i as int),
                ));
                assert(r == sym_range(s[i as int]));
            }
            match symbols[i].ty {
                SymbolType::Variable => {
                    let v = Variable {
                        name: copy_name(&symbols[i].name),
                        linkage_name: copy_name(&symbols[i].name),
                        symbol_name: None,
                        address: Some(symbols[i].address),
                        size: Some(symbols[i].size),
                    };
                    unit.variables.push((VariableOffset(i as u64), v));
                    proof {
                        assert(is_synth_var(
                            s,
                            i as int,
                            unit.variables@[unit.variables@.len() - 1],
                        ));
                    }
                },
                SymbolType::Function => {
                    let f = Function {
                        name: copy_name(&symbols[i].name),
                        linkage_name: copy_name(&symbols[i].name),
                        symbol_name: None,
                        low_pc: Some(symbols[i].address),
                        high_pc: Some(symbols[i].address + symbols[i].size),
                        size: Some(symbols[i].size),
                    };
                    unit.functions.push((FunctionOffset(i as u64), f));
                    proof {
                        assert(is_synth_fn(
                            s,
                            i as int,
                            unit.functions@[unit.functions@.len() - 1],
                        ));
                    }
                },
            }
        }
        i = i + 1;
    }
    proof {
        assert(s.take(s.len() as int) =~= s);
        assert(um.take(um.len() as int) =~= um);
    }
    unit.ranges.sort();
    unit
}

impl File {
    /// Normalize the file: sort the symbol table by address, attach symbol
    /// names to every addressed function and variable under the
    /// first-symbol rule, and append one synthesized unit holding an
    /// entity for every symbol that no debug entity explains.  Called
    /// exactly once per file, before any printing or diffing.
    pub fn normalize(&mut self)
        requires
            symbols_wf(old(self).symbols@),
        ensures
            final(self).path == old(self).path,
            final(self).code == old(self).code,
            final(self).sections == old(self).sections,
            final(self).symbols@.to_multiset() == old(self).symbols@.to_multiset(),
            symbols_sorted(final(self).symbols@),
            symbols_wf(final(self).symbols@),
            final(self).units@.len() == old(self).units@.len() + 1,
            forall|x: int| #![trigger final(self).units@[x]]
                0 <= x < old(self).units@.len() ==> unit_attached(
                    final(self).symbols@,
                    old(self).units@[x],
                    final(self).units@[x],
                ),
            is_symtab_unit(
                final(self).symbols@,
                Seq::new(
                    final(self).symbols@.len(),
                    |i: int| covered(old(self).units@, final(self).symbols@[i].address),
                ),
                final(self).units@.last(),
            ),
    {
        sort_symbols(&mut self.symbols);
        proof {
            lemma_wf_permutation(old(self).symbols@, self.symbols@);
        }
        let mut used: Vec<bool> = Vec::new();
        let mut n: usize = 0;
        while n < self.symbols.len()
            invariant
                used@.len() == n,
                0 <= n <= self.symbols@.len(),
                forall|i: int| 0 <= i < n ==> !(#[trigger] used@[i]),
            decreases self.symbols@.len() - n,
        {
            used.push(false);
            n = n + 1;
        }
        attach_symbols(&mut self.units, &self.symbols, &mut used);
        proof {
            assert(used@ =~= Seq::new(
                self.symbols@.len(),
                |i: int| covered(old(self).units@, self.symbols@[i].address),
            ));
        }
        let unit = symtab_unit(&self.symbols, &used);
        self.units.push(unit);
    }
}

/// Every addressed section's span stays inside the address space.
pub open spec fn sections_wf(ss: Seq<Section>) -> bool {
    forall|i: int| 0 <= i < ss.len() ==> ss[i].wf()
}

/// The ranges of all addressed sections, in section order.
pub open spec fn section_ranges(ss: Seq<Section>) -> Seq<Range>
    decreases ss.len(),
{
    if ss.len() == 0 {
        Seq::empty()
    } else {
        let prefix = section_ranges(ss.drop_last());
        match ss.last().address {
            Some(a) => prefix.push(Range { begin: a, end: (a + ss.last().size) as u64 }),
            None => prefix,
        }
    }
}

/// The concatenation of every unit's range list, in unit order.
pub open spec fn unit_ranges(us: Seq<Unit>) -> Seq<Range>
    decreases us.len(),
{
    if us.len() == 0 {
        Seq::empty()
    } else {
        unit_ranges(us.drop_last()) + us.last().ranges@
    }
}

proof fn lemma_section_ranges_step(ss: Seq<Section>, i: int)
    requires
        0 <= i < ss.len(),
    ensures
        section_ranges(ss.take(i + 1)) == (match ss[i].address {
            Some(a) => section_ranges(ss.take(i)).push(
                Range { begin: a, end: (a + ss[i].size) as u64 },
            ),
            None => section_ranges(ss.take(i)),
        }),
{
    assert(ss.take(i + 1).drop_last() =~= ss.take(i));
    assert(ss.take(i + 1).last() == ss[i]);
}

proof fn lemma_unit_ranges_step(us: Seq<Unit>, u: int)
    requires
        0 <= u < us.len(),
    ensures
        unit_ranges(us.take(u + 1)) == unit_ranges(us.take(u)) + us[u].ranges@,
{
    assert(us.take(u + 1).drop_last() =~= us.take(u));
    assert(us.take(u + 1).last() == us[u]);
}

/// Indices of the units that pass the unit filter, in unit order.
pub open spec fn passing_idxs(us: Seq<Unit>, o: Options) -> Seq<int>
    decreases us.len(),
{
    if us.len() == 0 {
        Seq::empty()
    } else {
        let prefix = passing_idxs(us.drop_last(), o);
        if unit_passes(us.last(), o) {
            prefix.push(us.len() - 1)
        } else {
            prefix
        }
    }
}

proof fn lemma_passing_idxs_step(us: Seq<Unit>, o: Options, u: int)
    requires
        0 <= u < us.len(),
    ensures
        passing_idxs(us.take(u + 1), o) == (if unit_passes(us[u], o) {
            passing_idxs(us.take(u), o).push(u)
        } else {
            passing_idxs(us.take(u), o)
        }),
{
    assert(us.take(u + 1).drop_last() =~= us.take(u));
    assert(us.take(u + 1).last() == us[u]);
}

impl File {
    /// The machine-code region, when one was loaded.
    pub fn code(&self) -> (r: &Option<CodeRegion>)
        ensures
            r == self.code,
    {
        &self.code
    }

    /// One sorted list of every address span known for the file: the
    /// ranges of all addressed sections followed by every unit's ranges,
    /// sorted but never merged, so overlaps stay and a size query over the
    /// result may double-count them.
    pub fn ranges(&self) -> (r: RangeList)
        requires
            sections_wf(self.sections@),
        ensures
            ranges_sorted(r@),
            r@.to_multiset() == (section_ranges(self.sections@) + unit_ranges(
                self.units@,
            )).to_multiset(),
    {
        let ghost ss = self.sections@;
        let ghost us = self.units@;
        let mut rl = RangeList::default();
        proof {
            assert(ss.take(0) =~= Seq::<Section>::empty());
            assert(rl@ =~= section_ranges(ss.take(0)));
        }
        let mut i: usize = 0;
        while i < self.sections.len()
            invariant
                0 <= i <= ss.len(),
                ss == self.sections@,
                sections_wf(ss),
                rl@ == section_ranges(ss.take(i as int)),
            decreases ss.len() - i,
        {
            proof {
                lemma_section_ranges_step(ss, i as int);
                assert(ss[i as int].wf());
            }
            if let Some(range) = self.sections[i].address() {
                rl.push(range);
            }
            i = i + 1;
        }
        proof {
            assert(ss.take(ss.len() as int) =~= ss);
            assert(us.take(0) =~= Seq::<Unit>::empty());
            assert(unit_ranges(us.take(0)) =~= Seq::<Range>::empty());
            assert(rl@ =~= section_ranges(ss) + unit_ranges(us.take(0)));
        }
        let mut u: usize = 0;
        while u < self.units.len()
            invariant
                0 <= u <= us.len(),
                ss == self.sections@,
                us == self.units@,
                rl@ == section_ranges(ss) + unit_ranges(us.take(u as int)),
            decreases us.len() - u,
        {
            let ghost base = rl@;
            let list = self.units[u].ranges.list();
            let mut k: usize = 0;
            while k < list.len()
                invariant
                    0 <= k <= list@.len(),
                    list@ == us[u as int].ranges@,
                    0 <= u < us.len(),
                    base == section_ranges(ss) + unit_ranges(us.take(u as int)),
                    rl@ == base + us[u as int].ranges@.take(k as int),
                decreases list@.len() - k,
            {
                rl.push(list[k]);
                proof {
                    assert(us[u as int].ranges@.take(k + 1) =~= us[u as int].ranges@.take(
                        k as int,
                    ).push(us[u as int].ranges@[k as int]));
                    assert(rl@ =~= base + us[u as int].ranges@.take(k + 1));
                }
                k = k + 1;
            }
            proof {
                lemma_unit_ranges_step(us, u as int);
                assert(us[u as int].ranges@.take(us[u as int].ranges@.len() as int) =~= us[
                    u as int].ranges@);
                assert(rl@ =~= section_ranges(ss) + unit_ranges(us.take(u + 1)));
            }
            u = u + 1;
        }
        proof {
            assert(us.take(us.len() as int) =~= us);
        }
        rl.sort();
        rl
    }

    /// The indices of the units that pass the options' unit filter, in
    /// their original order.
    pub fn filter_units(&self, options: &Options) -> (r: Vec<usize>)
        ensures
            r@.map_values(|x: usize| x as int) == passing_idxs(self.units@, *options),
    {
        let ghost us = self.units@;
        let mut out: Vec<usize> = Vec::new();
        proof {
            assert(us.take(0) =~= Seq::<Unit>::empty());
            assert(out@.map_values(|x: usize| x as int) =~= passing_idxs(us.take(0), *options));
        }
        let mut u: usize = 0;
        while u < self.units.len()
            invariant
                0 <= u <= us.len(),
                us == self.units@,
                out@.map_values(|x: usize| x as int) == passing_idxs(us.take(u as int), *options),
            decreases us.len() - u,
        {
            proof {
                lemma_passing_idxs_step(us, *options, u as int);
            }
            if self.units[u].filter(options) {
                out.push(u);
                proof {
                    assert(out@.map_values(|x: usize| x as int) =~= passing_idxs(
                        us.take(u as int),
                        *options,
                    ).push(u as int));
                }
            }
            u = u + 1;
        }
        proof {
            assert(us.take(us.len() as int) =~= us);
        }
        out
    }
}

/// Unit `u`'s function entry `k` is a function at address `a`.
pub open spec fn fn_at(us: Seq<Unit>, a: u64, u: int, k: int) -> bool {
    &&& 0 <= u < us.len()
    &&& 0 <= k < us[u].functions@.len()
    &&& us[u].functions@[k].1.low_pc == Some(a)
}

/// `(u, k)` is the first function entry at address `a`, in unit order
/// then entry order.
pub open spec fn is_first_fn_at(us: Seq<Unit>, a: u64, u: int, k: int) -> bool {
    &&& fn_at(us, a, u, k)
    &&& forall|u2: int, k2: int| #[trigger]
        fn_at(us, a, u2, k2) ==> (u < u2 || (u == u2 && k <= k2))
}

/// Unit `u`'s type entry `k` carries type offset `off`.
pub open spec fn ty_at(us: Seq<Unit>, off: u64, u: int, k: int) -> bool {
    &&& 0 <= u < us.len()
    &&& 0 <= k < us[u].types@.len()
    &&& us[u].types@[k].0 == TypeOffset(off)
}

/// `(u, k)` is the last type entry with offset `off`.
pub open spec fn is_last_ty_at(us: Seq<Unit>, off: u64, u: int, k: int) -> bool {
    &&& ty_at(us, off, u, k)
    &&& forall|u2: int, k2: int| #[trigger]
        ty_at(us, off, u2, k2) ==> (u2 < u || (u2 == u && k2 <= k))
}

/// `(uu, kk)` is a function entry at `a` that the scan visits strictly
/// before position `(u, k)`.
pub open spec fn fn_at_before(us: Seq<Unit>, a: u64, u: int, k: int, uu: int, kk: int) -> bool {
    fn_at(us, a, uu, kk) && (uu < u || (uu == u && kk < k))
}

/// `(uu, kk)` is a type entry with offset `off` that the scan visits
/// strictly before position `(u, k)`.
pub open spec fn ty_at_before(us: Seq<Unit>, off: u64, u: int, k: int, uu: int, kk: int) -> bool {
    ty_at(us, off, uu, kk) && (uu < u || (uu == u && kk < k))
}

/// Lookup indices over one normalized file: address to function entry and
/// type offset to type entry.  Each map value is the pair of the unit's
/// index and the entry's index within that unit.
#[derive(Debug)]
pub struct FileHash {
    pub functions: HashMap<u64, (usize, usize)>,
    pub types: HashMap<u64, (usize, usize)>,
}

impl FileHash {
    /// Build both indices over a file in one pass per index.
    pub fn new(file: &File) -> (h: FileHash)
        ensures
            forall|a: u64| #![trigger h.functions@.contains_key(a)]
                h.functions@.contains_key(a) <==> exists|u: int, k: int| #[trigger] fn_at(file.units@, a, u, k),
            forall|a: u64| #![trigger h.functions@[a]]
                h.functions@.contains_key(a) ==> is_first_fn_at(
                    file.units@,
                    a,
                    h.functions@[a].0 as int,
                    h.functions@[a].1 as int,
                ),
            forall|off: u64| #![trigger h.types@.contains_key(off)]
                h.types@.contains_key(off) <==> exists|u: int, k: int| #[trigger] ty_at(file.units@, off, u, k),
            forall|off: u64| #![trigger h.types@[off]]
                h.types@.contains_key(off) ==> is_last_ty_at(
                    file.units@,
                    off,
                    h.types@[off].0 as int,
                    h.types@[off].1 as int,
                ),
    {
        FileHash { functions: Self::functions(file), types: Self::types(file) }
    }

    /// The map from address to the first function entry at that address:
    /// on a duplicate address the first insertion wins and later entries
    /// are silently dropped.
    fn functions(file: &File) -> (m: HashMap<u64, (usize, usize)>)
        ensures
            forall|a: u64| #![trigger m@.contains_key(a)]
                m@.contains_key(a) <==> exists|u: int, k: int| #[trigger] fn_at(file.units@, a, u, k),
            forall|a: u64| #![trigger m@[a]]
                m@.contains_key(a) ==> is_first_fn_at(
                    file.units@,
                    a,
                    m@[a].0 as int,
                    m@[a].1 as int,
                ),
    {
        broadcast use vstd::std_specs::hash::group_hash_axioms;

        let ghost us = file.units@;
        let mut m: HashMap<u64, (usize, usize)> = HashMap::new();
        let mut u: usize = 0;
        while u < file.units.len()
            invariant
                0 <= u <= us.len(),
                us == file.units@,
                forall|a: u64| #![trigger m@.contains_key(a)]
                    m@.contains_key(a) <==> exists|uu: int, kk: int|
                        #[trigger] fn_at_before(us, a, u as int, 0, uu, kk),
                forall|a: u64| #![trigger m@[a]]
                    m@.contains_key(a) ==> fn_at_before(
                        us,
                        a,
                        u as int,
                        0,
                        m@[a].0 as int,
                        m@[a].1 as int,
                    ) && (forall|uu: int, kk: int| #[trigger]
                        fn_at_before(us, a, u as int, 0, uu, kk) ==> (m@[a].0 < uu || (m@[a].0
                            == uu && m@[a].1 <= kk))),
            decreases us.len() - u,
        {
            let fns = &file.units[u].functions;
            let mut k: usize = 0;
            while k < fns.len()
                invariant
                    0 <= u < us.len(),
                    0 <= k <= fns@.len(),
                    us == file.units@,
                    fns@ == us[u as int].functions@,
                    forall|a: u64| #![trigger m@.contains_key(a)]
                        m@.contains_key(a) <==> exists|uu: int, kk: int|
                            #[trigger] fn_at_before(us, a, u as int, k as int, uu, kk),
                    forall|a: u64| #![trigger m@[a]]
                        m@.contains_key(a) ==> fn_at_before(
                            us,
                            a,
                            u as int,
                            k as int,
                            m@[a].0 as int,
                            m@[a].1 as int,
                        ) && (forall|uu: int, kk: int| #[trigger]
                            fn_at_before(us, a, u as int, k as int, uu, kk) ==> (m@[a].0 < uu || (
                            m@[a].0 == uu && m@[a].1 <= kk))),
                decreases fns@.len() - k,
            {
                let ghost m_pre = m@;
                if let Some(low_pc) = fns[k].1.low_pc {
                    if !m.contains_key(&low_pc) {
                        m.insert(low_pc, (u, k));
                    }
                }
                proof {
                    assert(fn_at(us, fns@[k as int].1.low_pc.unwrap(), u as int, k as int)
                        || fns@[k as int].1.low_pc is None);
                    assert forall|a: u64| #![trigger m@.contains_key(a)]
                        m@.contains_key(a) <==> exists|uu: int, kk: int|
                            #[trigger] fn_at_before(us, a, u as int, k + 1, uu, kk) by {
                        if m@.contains_key(a) {
                            if fn_at_before(us, a, u as int, k + 1, m@[a].0 as int, m@[a].1 as int) {
                            } else {
                                let (uu, kk) = choose|uu: int, kk: int|
                                    #[trigger] fn_at_before(us, a, u as int, k as int, uu, kk);
                                assert(fn_at_before(us, a, u as int, k + 1, uu, kk));
                            }
                        } else {
                            if exists|uu: int, kk: int|
                                #[trigger] fn_at_before(us, a, u as int, k + 1, uu, kk) {
                                let (uu, kk) = choose|uu: int, kk: int|
                                    #[trigger] fn_at_before(us, a, u as int, k + 1, uu, kk);
                                if uu == u as int && kk == k as int {
                                    assert(us[u as int].functions@[k as int].1.low_pc == Some(a));
                                    assert(false);
                                } else {
                                    assert(fn_at_before(us, a, u as int, k as int, uu, kk));
                                    assert(false);
                                }
                            }
                        }
                    }
                    assert forall|a: u64| #![trigger m@[a]] m@.contains_key(a) implies fn_at_before(
                        us,
                        a,
                        u as int,
                        k + 1,
                        m@[a].0 as int,
                        m@[a].1 as int,
                    ) && (forall|uu: int, kk: int| #[trigger]
                        fn_at_before(us, a, u as int, k + 1, uu, kk) ==> (m@[a].0 < uu || (m@[a].0
                            == uu && m@[a].1 <= kk))) by {
                        if m_pre.contains_key(a) {
                            assert(m@[a] == m_pre[a]);
                            assert(fn_at_before(
                                us,
                                a,
                                u as int,
                                k as int,
                                m_pre[a].0 as int,
                                m_pre[a].1 as int,
                            ));
                            assert forall|uu: int, kk: int| #[trigger]
                                fn_at_before(us, a, u as int, k + 1, uu, kk) implies (m@[a].0 < uu
                                || (m@[a].0 == uu && m@[a].1 <= kk)) by {
                                if fn_at_before(us, a, u as int, k as int, uu, kk) {
                                } else {
                                    assert(uu == u as int && kk == k as int);
                                }
                            }
                        } else {
                            assert(m@[a] == (u, k));
                            assert(us[u as int].functions@[k as int].1.low_pc == Some(a));
                            assert(fn_at_before(us, a, u as int, k + 1, u as int, k as int));
                            assert forall|uu: int, kk: int| #[trigger]
                                fn_at_before(us, a, u as int, k + 1, uu, kk) implies (m@[a].0 < uu
                                || (m@[a].0 == uu && m@[a].1 <= kk)) by {
                                if fn_at_before(us, a, u as int, k as int, uu, kk) {
                                    assert(m_pre.contains_key(a));
                                    assert(false);
                                } else {
                                    assert(uu == u as int && kk == k as int);
                                }
                            }
                        }
                    }
                }
                k = k + 1;
            }
            proof {
                assert forall|a: u64| #![trigger m@.contains_key(a)]
                    (exists|uu: int, kk: int|
                    #[trigger] fn_at_before(us, a, u as int, fns@.len() as int, uu, kk)) <==> (
                exists|uu: int, kk: int|
                    #[trigger] fn_at_before(us, a, (u + 1) as int, 0, uu, kk)) by {
                    if exists|uu: int, kk: int|
                        #[trigger] fn_at_before(us, a, u as int, fns@.len() as int, uu, kk) {
                        let (uu, kk) = choose|uu: int, kk: int|
                            #[trigger] fn_at_before(us, a, u as int, fns@.len() as int, uu, kk);
                        assert(fn_at_before(us, a, (u + 1) as int, 0, uu, kk));
                    }
                    if exists|uu: int, kk: int| #[trigger] fn_at_before(us, a, (u + 1) as int, 0, uu, kk) {
                        let (uu, kk) = choose|uu: int, kk: int|
                            #[trigger] fn_at_before(us, a, (u + 1) as int, 0, uu, kk);
                        assert(fn_at_before(us, a, u as int, fns@.len() as int, uu, kk));
                    }
                }
                assert forall|a: u64, uu: int, kk: int| #[trigger]
                    fn_at_before(us, a, u as int, fns@.len() as int, uu, kk) implies fn_at_before(
                    us,
                    a,
                    (u + 1) as int,
                    0,
                    uu,
                    kk,
                ) by {}
                assert forall|a: u64, uu: int, kk: int| #[trigger]
                    fn_at_before(us, a, (u + 1) as int, 0, uu, kk) implies fn_at_before(
                    us,
                    a,
                    u as int,
                    us[u as int].functions@.len() as int,
                    uu,
                    kk,
                ) by {}
            }
            u = u + 1;
        }
        proof {
            assert forall|a: u64| #![trigger m@.contains_key(a)]
                (exists|uu: int, kk: int| #[trigger] fn_at_before(us, a, us.len() as int, 0, uu, kk)) <==> (
            exists|uu: int, kk: int| #[trigger] fn_at(us, a, uu, kk)) by {
                if exists|uu: int, kk: int| #[trigger] fn_at_before(us, a, us.len() as int, 0, uu, kk) {
                    let (uu, kk) = choose|uu: int, kk: int|
                        #[trigger] fn_at_before(us, a, us.len() as int, 0, uu, kk);
                    assert(fn_at(us, a, uu, kk));
                }
                if exists|uu: int, kk: int| #[trigger] fn_at(us, a, uu, kk) {
                    let (uu, kk) = choose|uu: int, kk: int| #[trigger] fn_at(us, a, uu, kk);
                    assert(fn_at_before(us, a, us.len() as int, 0, uu, kk));
                }
            }
            assert forall|a: u64, uu: int, kk: int| #[trigger]
                fn_at(us, a, uu, kk) implies fn_at_before(us, a, us.len() as int, 0, uu, kk) by {}
        }
        m
    }

    /// The map from type offset to the last type entry with that offset:
    /// later entries overwrite earlier ones.
    fn types(file: &File) -> (m: HashMap<u64, (usize, usize)>)
        ensures
            forall|off: u64| #![trigger m@.contains_key(off)]
                m@.contains_key(off) <==> exists|u: int, k: int| #[trigger] ty_at(file.units@, off, u, k),
            forall|off: u64| #![trigger m@[off]]
                m@.contains_key(off) ==> is_last_ty_at(
                    file.units@,
                    off,
                    m@[off].0 as int,
                    m@[off].1 as int,
                ),
    {
        broadcast use vstd::std_specs::hash::group_hash_axioms;

        let ghost us = file.units@;
        let mut m: HashMap<u64, (usize, usize)> = HashMap::new();
        let mut u: usize = 0;
        while u < file.units.len()
            invariant
                0 <= u <= us.len(),
                us == file.units@,
                forall|off: u64| #![trigger m@.contains_key(off)]
                    m@.contains_key(off) <==> exists|uu: int, kk: int|
                        #[trigger] ty_at_before(us, off, u as int, 0, uu, kk),
                forall|off: u64| #![trigger m@[off]]
                    m@.contains_key(off) ==> ty_at_before(
                        us,
                        off,
                        u as int,
                        0,
                        m@[off].0 as int,
                        m@[off].1 as int,
                    ) && (forall|uu: int, kk: int| #[trigger]
                        ty_at_before(us, off, u as int, 0, uu, kk) ==> (uu < m@[off].0 || (uu
                            == m@[off].0 && kk <= m@[off].1))),
            decreases us.len() - u,
        {
            let tys = &file.units[u].types;
            let mut k: usize = 0;
            while k < tys.len()
                invariant
                    0 <= u < us.len(),
                    0 <= k <= tys@.len(),
                    us == file.units@,
                    tys@ == us[u as int].types@,
                    forall|off: u64| #![trigger m@.contains_key(off)]
                        m@.contains_key(off) <==> exists|uu: int, kk: int|
                            #[trigger] ty_at_before(us, off, u as int, k as int, uu, kk),
                    forall|off: u64| #![trigger m@[off]]
                        m@.contains_key(off) ==> ty_at_before(
                            us,
                            off,
                            u as int,
                            k as int,
                            m@[off].0 as int,
                            m@[off].1 as int,
                        ) && (forall|uu: int, kk: int| #[trigger]
                            ty_at_before(us, off, u as int, k as int, uu, kk) ==> (uu < m@[off].0
                                || (uu == m@[off].0 && kk <= m@[off].1))),
                decreases tys@.len() - k,
            {
                let off = tys[k].0.0;
                let ghost m_pre = m@;
                m.insert(off, (u, k));
                proof {
                    assert(tys@[k as int].0 == TypeOffset(off));
                    assert(ty_at(us, off, u as int, k as int));
                    assert forall|o2: u64| #![trigger m@.contains_key(o2)]
                        m@.contains_key(o2) <==> exists|uu: int, kk: int|
                            #[trigger] ty_at_before(us, o2, u as int, k + 1, uu, kk) by {
                        if o2 == off {
                            assert(ty_at_before(us, o2, u as int, k + 1, u as int, k as int));
                        } else {
                            if m@.contains_key(o2) {
                                let (uu, kk) = choose|uu: int, kk: int|
                                    #[trigger] ty_at_before(us, o2, u as int, k as int, uu, kk);
                                assert(ty_at_before(us, o2, u as int, k + 1, uu, kk));
                            } else {
                                if exists|uu: int, kk: int|
                                    #[trigger] ty_at_before(us, o2, u as int, k + 1, uu, kk) {
                                    let (uu, kk) = choose|uu: int, kk: int|
                                        #[trigger] ty_at_before(us, o2, u as int, k + 1, uu, kk);
                                    assert(ty_at_before(us, o2, u as int, k as int, uu, kk));
                                    assert(false);
                                }
                            }
                        }
                    }
                    assert forall|o2: u64| #![trigger m@[o2]] m@.contains_key(o2) implies
                        ty_at_before(us, o2, u as int, k + 1, m@[o2].0 as int, m@[o2].1 as int) && (
                    forall|uu: int, kk: int| #[trigger]
                        ty_at_before(us, o2, u as int, k + 1, uu, kk) ==> (uu < m@[o2].0 || (uu
                            == m@[o2].0 && kk <= m@[o2].1))) by {
                        if o2 == off {
                            assert(m@[o2] == (u, k));
                            assert(ty_at_before(us, o2, u as int, k + 1, u as int, k as int));
                            assert forall|uu: int, kk: int| #[trigger]
                                ty_at_before(us, o2, u as int, k + 1, uu, kk) implies (uu < m@[
                            o2].0 || (uu == m@[o2].0 && kk <= m@[o2].1)) by {
                                if ty_at_before(us, o2, u as int, k as int, uu, kk) {
                                } else {
                                    assert(uu == u as int && kk == k as int);
                                }
                            }
                        } else {
                            assert(m@[o2] == m_pre[o2]);
                            assert(m_pre.contains_key(o2));
                            assert(ty_at_before(
                                us,
                                o2,
                                u as int,
                                k as int,
                                m_pre[o2].0 as int,
                                m_pre[o2].1 as int,
                            ));
                            assert forall|uu: int, kk: int| #[trigger]
                                ty_at_before(us, o2, u as int, k + 1, uu, kk) implies (uu < m@[
                            o2].0 || (uu == m@[o2].0 && kk <= m@[o2].1)) by {
                                if ty_at_before(us, o2, u as int, k as int, uu, kk) {
                                } else {
                                    assert(uu == u as int && kk == k as int);
                                    assert(us[u as int].types@[k as int].0 == TypeOffset(o2));
                                    assert(false);
                                }
                            }
                        }
                    }
                }
                k = k + 1;
            }
            proof {
                assert forall|off: u64| #![trigger m@.contains_key(off)]
                    (exists|uu: int, kk: int|
                    #[trigger] ty_at_before(us, off, u as int, tys@.len() as int, uu, kk)) <==> (
                exists|uu: int, kk: int|
                    #[trigger] ty_at_before(us, off, (u + 1) as int, 0, uu, kk)) by {
                    if exists|uu: int, kk: int|
                        #[trigger] ty_at_before(us, off, u as int, tys@.len() as int, uu, kk) {
                        let (uu, kk) = choose|uu: int, kk: int|
                            #[trigger] ty_at_before(us, off, u as int, tys@.len() as int, uu, kk);
                        assert(ty_at_before(us, off, (u + 1) as int, 0, uu, kk));
                    }
                    if exists|uu: int, kk: int| #[trigger] ty_at_before(us, off, (u + 1) as int, 0, uu, kk) {
                        let (uu, kk) = choose|uu: int, kk: int|
                            #[trigger] ty_at_before(us, off, (u + 1) as int, 0, uu, kk);
                        assert(ty_at_before(us, off, u as int, tys@.len() as int, uu, kk));
                    }
                }
                assert forall|off: u64, uu: int, kk: int| #[trigger]
                    ty_at_before(us, off, u as int, tys@.len() as int, uu, kk) implies
                    ty_at_before(us, off, (u + 1) as int, 0, uu, kk) by {}
                assert forall|off: u64, uu: int, kk: int| #[trigger]
                    ty_at_before(us, off, (u + 1) as int, 0, uu, kk) implies ty_at_before(
                    us,
                    off,
                    u as int,
                    tys@.len() as int,
                    uu,
                    kk,
                ) by {}
            }
            u = u + 1;
        }
        proof {
            assert forall|off: u64| #![trigger m@.contains_key(off)]
                (exists|uu: int, kk: int| #[trigger] ty_at_before(us, off, us.len() as int, 0, uu, kk)) <==> (
            exists|uu: int, kk: int| #[trigger] ty_at(us, off, uu, kk)) by {
                if exists|uu: int, kk: int| #[trigger] ty_at_before(us, off, us.len() as int, 0, uu, kk) {
                    let (uu, kk) = choose|uu: int, kk: int|
                        #[trigger] ty_at_before(us, off, us.len() as int, 0, uu, kk);
                    assert(ty_at(us, off, uu, kk));
                }
                if exists|uu: int, kk: int| #[trigger] ty_at(us, off, uu, kk) {
                    let (uu, kk) = choose|uu: int, kk: int| #[trigger] ty_at(us, off, uu, kk);
                    assert(ty_at_before(us, off, us.len() as int, 0, uu, kk));
                }
            }
            assert forall|off: u64, uu: int, kk: int| #[trigger]
                ty_at(us, off, uu, kk) implies ty_at_before(us, off, us.len() as int, 0, uu, kk) by {}
        }
        m
    }
}

proof fn lemma_headless_idxs_props(s: Seq<Symbol>, used: Seq<bool>, t: SymbolType)
    requires
        used.len() == s.len(),
    ensures
        forall|j: int| #![trigger headless_idxs(s, used, t)[j]]
            0 <= j < headless_idxs(s, used, t).len() ==> 0 <= headless_idxs(s, used, t)[j]
                < s.len() && !used[headless_idxs(s, used, t)[j]] && s[headless_idxs(
                s,
                used,
                t,
            )[j]].ty == t,
        forall|j1: int, j2: int|
            0 <= j1 < j2 < headless_idxs(s, used, t).len() ==> #[trigger] headless_idxs(
                s,
                used,
                t,
            )[j1] < #[trigger] headless_idxs(s, used, t)[j2],
        forall|i: int|
            0 <= i < s.len() && !used[i] && s[i].ty == t ==> #[trigger] headless_idxs(
                s,
                used,
                t,
            ).contains(i),
    decreases s.len(),
{
    if s.len() > 0 {
        lemma_headless_idxs_props(s.drop_last(), used.drop_last(), t);
        let h0 = headless_idxs(s.drop_last(), used.drop_last(), t);
        let h = headless_idxs(s, used, t);
        assert(forall|i: int| 0 <= i < s.len() - 1 ==> s.drop_last()[i] == s[i]);
        assert(forall|i: int| 0 <= i < s.len() - 1 ==> used.drop_last()[i] == used[i]);
        assert forall|i: int| 0 <= i < s.len() && !used[i] && s[i].ty == t implies #[trigger] h.contains(
            i,
        ) by {
            if i < s.len() - 1 {
                assert(h0.contains(i));
                let j = choose|j: int| 0 <= j < h0.len() && h0[j] == i;
                assert(h[j] == i);
            } else {
                assert(h[h.len() - 1] == i);
            }
        }
    }
}

/// Symbol accounting: after normalization every symbol is either covered
/// by some debug entity at its address, or represented by exactly one
/// synthesized entity of its own kind in the symbol-table unit, keyed by
/// the symbol's index — never both and never neither.
pub proof fn lemma_symbol_accounting(units0: Seq<Unit>, s: Seq<Symbol>, u: Unit, i: int)
    requires
        is_symtab_unit(s, Seq::new(s.len(), |x: int| covered(units0, s[x].address)), u),
        0 <= i < s.len(),
        s.len() <= usize::MAX,
    ensures
        s[i].ty == SymbolType::Function ==> (covered(units0, s[i].address) <==> !(exists|j: int|
            0 <= j < u.functions@.len() && (#[trigger] u.functions@[j]).0 == FunctionOffset(
                i as u64,
            ))),
        s[i].ty == SymbolType::Variable ==> (covered(units0, s[i].address) <==> !(exists|j: int|
            0 <= j < u.variables@.len() && (#[trigger] u.variables@[j]).0 == VariableOffset(
                i as u64,
            ))),
        forall|j1: int, j2: int|
            0 <= j1 < u.functions@.len() && 0 <= j2 < u.functions@.len() && (
            #[trigger] u.functions@[j1]).0 == (#[trigger] u.functions@[j2]).0 ==> j1 == j2,
        forall|j1: int, j2: int|
            0 <= j1 < u.variables@.len() && 0 <= j2 < u.variables@.len() && (
            #[trigger] u.variables@[j1]).0 == (#[trigger] u.variables@[j2]).0 ==> j1 == j2,
{
    let used = Seq::new(s.len(), |x: int| covered(units0, s[x].address));
    let hf = headless_idxs(s, used, SymbolType::Function);
    let hv = headless_idxs(s, used, SymbolType::Variable);
    lemma_headless_idxs_props(s, used, SymbolType::Function);
    lemma_headless_idxs_props(s, used, SymbolType::Variable);
    if s[i].ty == SymbolType::Function {
        if covered(units0, s[i].address) {
            if exists|j: int|
                0 <= j < u.functions@.len() && (#[trigger] u.functions@[j]).0 == FunctionOffset(
                    i as u64,
                ) {
                let j = choose|j: int|
                    0 <= j < u.functions@.len() && (#[trigger] u.functions@[j]).0
                        == FunctionOffset(i as u64);
                assert(is_synth_fn(s, hf[j], u.functions@[j]));
                assert(hf[j] as u64 == i as u64);
                assert(hf[j] as u64 == hf[j]);
                assert(i as u64 == i);
                assert(hf[j] == i);
                assert(!used[i]);
                assert(false);
            }
        } else {
            assert(hf.contains(i));
            let j = choose|j: int| 0 <= j < hf.len() && hf[j] == i;
            assert(is_synth_fn(s, hf[j], u.functions@[j]));
            assert((u.functions@[j]).0 == FunctionOffset(i as u64));
        }
    }
    if s[i].ty == SymbolType::Variable {
        if covered(units0, s[i].address) {
            if exists|j: int|
                0 <= j < u.variables@.len() && (#[trigger] u.variables@[j]).0 == VariableOffset(
                    i as u64,
                ) {
                let j = choose|j: int|
                    0 <= j < u.variables@.len() && (#[trigger] u.variables@[j]).0
                        == VariableOffset(i as u64);
                assert(is_synth_var(s, hv[j], u.variables@[j]));
                assert(hv[j] as u64 == i as u64);
                assert(hv[j] as u64 == hv[j]);
                assert(i as u64 == i);
                assert(hv[j] == i);
                assert(!used[i]);
                assert(false);
            }
        } else {
            assert(hv.contains(i));
            let j = choose|j: int| 0 <= j < hv.len() && hv[j] == i;
            assert(is_synth_var(s, hv[j], u.variables@[j]));
            assert((u.variables@[j]).0 == VariableOffset(i as u64));
        }
    }
    assert forall|j1: int, j2: int|
        0 <= j1 < u.functions@.len() && 0 <= j2 < u.functions@.len() && (
    #[trigger] u.functions@[j1]).0 == (#[trigger] u.functions@[j2]).0 implies j1 == j2 by {
        assert(is_synth_fn(s, hf[j1], u.functions@[j1]));
        assert(is_synth_fn(s, hf[j2], u.functions@[j2]));
        assert(hf[j1] as u64 == hf[j1] && hf[j2] as u64 == hf[j2]);
        if j1 < j2 {
            assert(hf[j1] < hf[j2]);
        }
        if j2 < j1 {
            assert(hf[j2] < hf[j1]);
        }
    }
    assert forall|j1: int, j2: int|
        0 <= j1 < u.variables@.len() && 0 <= j2 < u.variables@.len() && (
    #[trigger] u.variables@[j1]).0 == (#[trigger] u.variables@[j2]).0 implies j1 == j2 by {
        assert(is_synth_var(s, hv[j1], u.variables@[j1]));
        assert(is_synth_var(s, hv[j2], u.variables@[j2]));
        assert(hv[j1] as u64 == hv[j1] && hv[j2] as u64 == hv[j2]);
        if j1 < j2 {
            assert(hv[j1] < hv[j2]);
        }
        if j2 < j1 {
            assert(hv[j2] < hv[j1]);
        }
    }
}

proof fn lemma_wf_permutation(a: Seq<Symbol>, b: Seq<Symbol>)
    requires
        a.to_multiset() == b.to_multiset(),
        symbols_wf(a),
    ensures
        symbols_wf(b),
{
    broadcast use vstd::seq_lib::group_to_multiset_ensures;

    assert forall|i: int| 0 <= i < b.len() implies b[i].wf() by {
        assert(b.contains(b[i]));
        assert(b.to_multiset().count(b[i]) > 0);
        assert(a.to_multiset().count(b[i]) > 0);
        assert(a.contains(b[i]));
        let w = choose|j: int| 0 <= j < a.len() && a[j] == b[i];
        assert(a[w].wf());
    }
}

} // verus!
