//! One pass over every resolved library's dynamic symbols, reducing them to
//! three name-to-library-set relations: exported, unresolved, defined. The
//! classifications are independent and non-exclusive; a symbol with an empty
//! or missing name is discarded.

use vstd::prelude::*;
use crate::deps::{assoc_find, LibraryDependencies};
use crate::elfdata::{ElfDataV, BIND_GLOBAL, SHN_UNDEF, VIS_HIDDEN};
use crate::library::Library;

verus! {

/// The binding nibble of `st_info`.
pub open spec fn bind_of(info: u8) -> u8 {
    info >> 4
}

/// The visibility bits of `st_other`.
pub open spec fn vis_of(other: u8) -> u8 {
    other & 3
}

/// Whether the library's tables carry a dynamic symbol named `s` that is
/// exported: global binding, not hidden, defined in some section.
pub open spec fn exports_sym(data: ElfDataV, s: Seq<char>) -> bool {
    exists|k: int|
        0 <= k < data.syms.len() && {
            let y = #[trigger] data.syms[k];
            &&& y.name == Some(s)
            &&& s.len() > 0
            &&& bind_of(y.info) == BIND_GLOBAL
            &&& vis_of(y.other) != VIS_HIDDEN
            &&& y.shndx != SHN_UNDEF
        }
}

/// Whether the tables carry a dynamic symbol named `s` with an undefined
/// section index: a reference the library itself does not satisfy.
pub open spec fn unresolved_sym(data: ElfDataV, s: Seq<char>) -> bool {
    exists|k: int|
        0 <= k < data.syms.len() && {
            let y = #[trigger] data.syms[k];
            &&& y.name == Some(s)
            &&& s.len() > 0
            &&& y.shndx == SHN_UNDEF
        }
}

/// Whether the tables carry a dynamic symbol named `s` defined in some
/// section.
pub open spec fn defines_sym(data: ElfDataV, s: Seq<char>) -> bool {
    exists|k: int|
        0 <= k < data.syms.len() && {
            let y = #[trigger] data.syms[k];
            &&& y.name == Some(s)
            &&& s.len() > 0
            &&& y.shndx != SHN_UNDEF
        }
}

/// Whether the relation holds library `l` under symbol `s`.
pub open spec fn rel_has(m: Seq<(String, Vec<String>)>, s: Seq<char>, l: Seq<char>) -> bool {
    exists|i: int, j: int|
        #![trigger m[i].1@[j]]
        0 <= i < m.len() && m[i].0@ == s && 0 <= j < m[i].1@.len() && m[i].1@[j]@ == l
}

/// No two elements read as the same string.
pub open spec fn distinct_views(l: Seq<String>) -> bool {
    forall|a: int, b: int| 0 <= a < b < l.len() ==> (#[trigger] l[a])@ != (#[trigger] l[b])@
}

/// The relation is a map of sets: symbol keys are unique, and no library
/// stands twice in any entry's set.
pub open spec fn rel_wf(m: Seq<(String, Vec<String>)>) -> bool {
    &&& forall|i: int, j: int|
        0 <= i < j < m.len() ==> (#[trigger] m[i]).0@ != (#[trigger] m[j]).0@
    &&& forall|i: int| 0 <= i < m.len() ==> distinct_views((#[trigger] m[i]).1@)
}

/// The index of the first opened library at path `p`.
pub open spec fn opened_idx(libs: Seq<Library>, p: Seq<char>) -> int
    decreases libs.len(),
{
    if libs.len() == 0 {
        0
    } else if libs[0].path@ == p {
        0
    } else {
        1 + opened_idx(libs.drop_first(), p)
    }
}

/// The tables of the opened library at path `p`.
pub open spec fn opened_data_at(deps: LibraryDependencies, p: Seq<char>) -> ElfDataV {
    deps.opened_libs@[opened_idx(deps.opened_libs@, p)].data@
}

/// A present path's first index is in range and bears it.
pub proof fn lemma_opened_idx_props(libs: Seq<Library>, p: Seq<char>)
    requires
        exists|i: int| 0 <= i < libs.len() && (#[trigger] libs[i]).path@ == p,
    ensures
        0 <= opened_idx(libs, p) < libs.len(),
        libs[opened_idx(libs, p)].path@ == p,
    decreases libs.len(),
{
    if libs.len() == 0 {
    } else if libs[0].path@ == p {
    } else {
        let t = libs.drop_first();
        assert(exists|i: int| 0 <= i < t.len() && (#[trigger] t[i]).path@ == p) by {
            let w = choose|i: int| 0 <= i < libs.len() && (#[trigger] libs[i]).path@ == p;
            assert(w > 0);
            assert(t[w - 1] == libs[w]);
        }
        lemma_opened_idx_props(t, p);
        assert(libs[opened_idx(libs, p)] == t[opened_idx(t, p)]);
    }
}

/// Appending a library leaves the index of a present path unchanged.
pub proof fn lemma_opened_idx_push(libs: Seq<Library>, x: Library, p: Seq<char>)
    requires
        exists|i: int| 0 <= i < libs.len() && (#[trigger] libs[i]).path@ == p,
    ensures
        opened_idx(libs.push(x), p) == opened_idx(libs, p),
    decreases libs.len(),
{
    if libs.len() == 0 {
    } else if libs[0].path@ == p {
        assert(libs.push(x)[0] == libs[0]);
    } else {
        let t = libs.drop_first();
        assert(exists|i: int| 0 <= i < t.len() && (#[trigger] t[i]).path@ == p) by {
            let w = choose|i: int| 0 <= i < libs.len() && (#[trigger] libs[i]).path@ == p;
            assert(w > 0);
            assert(t[w - 1] == libs[w]);
        }
        lemma_opened_idx_push(t, x, p);
        assert(libs.push(x)[0] == libs[0]);
        assert(libs.push(x).drop_first() =~= t.push(x));
    }
}

pub proof fn lemma_opened_idx_at(libs: Seq<Library>, p: Seq<char>, i: int)
    requires
        0 <= i < libs.len(),
        libs[i].path@ == p,
        forall|j: int| 0 <= j < i ==> (#[trigger] libs[j]).path@ != p,
    ensures
        opened_idx(libs, p) == i,
    decreases i,
{
    if i == 0 {
    } else {
        assert(libs[0].path@ != p);
        let t = libs.drop_first();
        assert forall|j: int| 0 <= j < i - 1 implies (#[trigger] t[j]).path@ != p by {
            assert(t[j] == libs[j + 1]);
        }
        lemma_opened_idx_at(t, p, i - 1);
    }
}

/// The three name-to-library-set relations over the resolved closure. Each
/// entry maps a symbol name to the base-names of the libraries in the
/// relation with it; membership is idempotent.
pub struct SymbolSummary {
    pub exported: Vec<(String, Vec<String>)>,
    pub unresolved: Vec<(String, Vec<String>)>,
    pub defined: Vec<(String, Vec<String>)>,
}

/// Adds `lib` to the set under `sym`, creating the entry if needed; adding
/// an already-present member changes nothing.
pub fn rel_insert(m: &mut Vec<(String, Vec<String>)>, sym: &String, lib: &String)
    requires
        rel_wf(old(m)@),
    ensures
        rel_wf(final(m)@),
        forall|s: Seq<char>, l: Seq<char>|
            rel_has(final(m)@, s, l) <==> rel_has(old(m)@, s, l) || (s == sym@ && l == lib@),
{
    let ghost oldm = m@;
    match assoc_find(m, sym) {
        None => {
            let mut one: Vec<String> = Vec::new();
            one.push(lib.clone());
            m.push((sym.clone(), one));
            proof {
                assert forall|a: int, b: int| 0 <= a < b < m@.len() implies (
                #[trigger] m@[a]).0@ != (#[trigger] m@[b]).0@ by {
                    if b < oldm.len() {
                        assert(m@[a] == oldm[a] && m@[b] == oldm[b]);
                    } else {
                        assert(m@[a] == oldm[a]);
                        assert(m@[b].0@ == sym@);
                        if oldm[a].0@ == sym@ {
                            assert(crate::deps::pair_keys(oldm)[a] == sym@);
                        }
                    }
                }
                assert forall|a: int| 0 <= a < m@.len() implies distinct_views(
                    (#[trigger] m@[a]).1@,
                ) by {
                    if a < oldm.len() {
                        assert(m@[a] == oldm[a]);
                    } else {
                        assert(m@[a].1@.len() == 1);
                    }
                }
                assert forall|s: Seq<char>, l: Seq<char>|
                    rel_has(m@, s, l) <==> rel_has(oldm, s, l) || (s == sym@ && l
                        == lib@) by {
                    if rel_has(m@, s, l) {
                        let (i, j) = choose|i: int, j: int|
                            #![trigger m@[i].1@[j]]
                            0 <= i < m@.len() && m@[i].0@ == s && 0 <= j < m@[i].1@.len()
                                && m@[i].1@[j]@ == l;
                        if i < oldm.len() {
                            assert(m@[i] == oldm[i]);
                            assert(rel_has(oldm, s, l));
                        } else {
                            assert(m@[i].0@ == sym@ && m@[i].1@[j]@ == lib@);
                        }
                    }
                    if rel_has(oldm, s, l) {
                        let (i, j) = choose|i: int, j: int|
                            #![trigger oldm[i].1@[j]]
                            0 <= i < oldm.len() && oldm[i].0@ == s && 0 <= j < oldm[i].1@.len()
                                && oldm[i].1@[j]@ == l;
                        assert(m@[i] == oldm[i]);
                        assert(rel_has(m@, s, l));
                    }
                    if s == sym@ && l == lib@ {
                        let i = m@.len() - 1;
                        assert(m@[i].0@ == s && m@[i].1@[0]@ == l);
                        assert(rel_has(m@, s, l));
                    }
                }
            }
        },
        Some(i) => {
            let mut present = false;
            let n = m[i].1.len();
            let mut j: usize = 0;
            while j < n
                invariant
                    0 <= j <= n,
                    i < m@.len(),
                    n == m@[i as int].1@.len(),
                    m@ == oldm,
                    present ==> exists|k: int|
                        0 <= k < n && (#[trigger] m@[i as int].1@[k])@ == lib@,
                    !present ==> forall|k: int|
                        0 <= k < j ==> (#[trigger] m@[i as int].1@[k])@ != lib@,
                decreases n - j,
            {
                if m[i].1[j] == *lib {
                    proof {
                        assert(m@[i as int].1@[j as int]@ == lib@);
                    }
                    present = true;
                }
                j += 1;
            }
            if present {
                proof {
                    assert forall|s: Seq<char>, l: Seq<char>|
                        rel_has(m@, s, l) <==> rel_has(oldm, s, l) || (s == sym@ && l
                            == lib@) by {
                        if s == sym@ && l == lib@ {
                            let k = choose|k: int|
                                0 <= k < n && (#[trigger] m@[i as int].1@[k])@ == lib@;
                            assert(m@[i as int].0@ == sym@);
                            assert(rel_has(m@, s, l));
                        }
                    }
                }
            } else {
                let mut pair = m.remove(i);
                pair.1.push(lib.clone());
                m.insert(i, pair);
                proof {
                    assert(m@ =~= oldm.update(i as int, m@[i as int]));
                    assert(m@[i as int].0 == oldm[i as int].0);
                    assert(m@[i as int].1@ =~= oldm[i as int].1@.push(m@[i as int].1@.last()));
                    assert(m@[i as int].1@.last()@ == lib@);
                    assert forall|a: int, b: int| 0 <= a < b < m@.len() implies (
                    #[trigger] m@[a]).0@ != (#[trigger] m@[b]).0@ by {
                        assert(m@[a].0@ == oldm[a].0@ && m@[b].0@ == oldm[b].0@);
                    }
                    assert forall|a: int| 0 <= a < m@.len() implies distinct_views(
                        (#[trigger] m@[a]).1@,
                    ) by {
                        if a != i as int {
                            assert(m@[a] == oldm[a]);
                        } else {
                            assert(distinct_views(oldm[a].1@));
                            assert forall|x: int, y: int|
                                0 <= x < y < m@[a].1@.len() implies (#[trigger] m@[a].1@[x])@ != (
                            #[trigger] m@[a].1@[y])@ by {
                                if y < oldm[a].1@.len() {
                                    assert(m@[a].1@[x] == oldm[a].1@[x]);
                                    assert(m@[a].1@[y] == oldm[a].1@[y]);
                                } else {
                                    assert(m@[a].1@[x] == oldm[a].1@[x]);
                                    assert(m@[a].1@[y]@ == lib@);
                                }
                            }
                        }
                    }
                    assert forall|s: Seq<char>, l: Seq<char>|
                        rel_has(m@, s, l) <==> rel_has(oldm, s, l) || (s == sym@ && l
                            == lib@) by {
                        if rel_has(m@, s, l) {
                            let (a, b) = choose|a: int, b: int|
                                #![trigger m@[a].1@[b]]
                                0 <= a < m@.len() && m@[a].0@ == s && 0 <= b < m@[a].1@.len()
                                    && m@[a].1@[b]@ == l;
                            if a != i as int {
                                assert(m@[a] == oldm[a]);
                                assert(rel_has(oldm, s, l));
                            } else {
                                if b < oldm[a].1@.len() {
                                    assert(oldm[a].1@[b] == m@[a].1@[b]);
                                    assert(rel_has(oldm, s, l));
                                } else {
                                    assert(m@[a].1@[b]@ == lib@);
                                    assert(m@[a].0@ == sym@);
                                }
                            }
                        }
                        if rel_has(oldm, s, l) {
                            let (a, b) = choose|a: int, b: int|
                                #![trigger oldm[a].1@[b]]
                                0 <= a < oldm.len() && oldm[a].0@ == s && 0 <= b
                                    < oldm[a].1@.len() && oldm[a].1@[b]@ == l;
                            if a != i as int {
                                assert(m@[a] == oldm[a]);
                            } else {
                                assert(m@[a].1@[b] == oldm[a].1@[b]);
                                assert(m@[a].0@ == s && m@[a].1@[b]@ == l);
                            }
                            assert(rel_has(m@, s, l));
                        }
                        if s == sym@ && l == lib@ {
                            assert(m@[i as int].0@ == s);
                            assert(m@[i as int].1@[m@[i as int].1@.len() - 1]@ == l);
                            assert(rel_has(m@, s, l));
                        }
                    }
                }
            }
        },
    }
}

impl SymbolSummary {
    /// Reduces the accumulator's resolved libraries to the three relations.
    /// A base-name `l` stands in `defined` under `s` exactly when the
    /// library resolved under `l` has a dynamic symbol named `s` defined in
    /// some section; `unresolved` and `exported` are characterised the same
    /// way by their classifications.
    pub fn from_libs(libs: &LibraryDependencies) -> (r: SymbolSummary)
        requires
            libs.wf(),
        ensures
            rel_wf(r.exported@),
            rel_wf(r.unresolved@),
            rel_wf(r.defined@),
            forall|s: Seq<char>, l: Seq<char>|
                rel_has(r.defined@, s, l) <==> exists|i: int|
                    0 <= i < libs.resolved@.len() && (#[trigger] libs.resolved@[i]).0@ == l
                        && defines_sym(opened_data_at(*libs, libs.resolved@[i].1@), s),
            forall|s: Seq<char>, l: Seq<char>|
                rel_has(r.unresolved@, s, l) <==> exists|i: int|
                    0 <= i < libs.resolved@.len() && (#[trigger] libs.resolved@[i]).0@ == l
                        && unresolved_sym(opened_data_at(*libs, libs.resolved@[i].1@), s),
            forall|s: Seq<char>, l: Seq<char>|
                rel_has(r.exported@, s, l) <==> exists|i: int|
                    0 <= i < libs.resolved@.len() && (#[trigger] libs.resolved@[i]).0@ == l
                        && exports_sym(opened_data_at(*libs, libs.resolved@[i].1@), s),
    {
        let mut r = SymbolSummary { exported: Vec::new(), unresolved: Vec::new(), defined: Vec::new() };
        let nres = libs.resolved.len();
        let mut i: usize = 0;
        while i < nres
            invariant
                0 <= i <= nres,
                nres == libs.resolved@.len(),
                libs.wf(),
                rel_wf(r.exported@),
                rel_wf(r.unresolved@),
                rel_wf(r.defined@),
                forall|s: Seq<char>, l: Seq<char>|
                    rel_has(r.defined@, s, l) <==> exists|t: int|
                        0 <= t < i && (#[trigger] libs.resolved@[t]).0@ == l && defines_sym(
                            opened_data_at(*libs, libs.resolved@[t].1@),
                            s,
                        ),
                forall|s: Seq<char>, l: Seq<char>|
                    rel_has(r.unresolved@, s, l) <==> exists|t: int|
                        0 <= t < i && (#[trigger] libs.resolved@[t]).0@ == l && unresolved_sym(
                            opened_data_at(*libs, libs.resolved@[t].1@),
                            s,
                        ),
                forall|s: Seq<char>, l: Seq<char>|
                    rel_has(r.exported@, s, l) <==> exists|t: int|
                        0 <= t < i && (#[trigger] libs.resolved@[t]).0@ == l && exports_sym(
                            opened_data_at(*libs, libs.resolved@[t].1@),
                            s,
                        ),
            decreases nres - i,
        {
            let lib_name = libs.resolved[i].0.clone();
            let lib_path = libs.resolved[i].1.clone();
            proof {
                assert(exists|j: int|
                    0 <= j < libs.opened_libs@.len() && (#[trigger] libs.opened_libs@[j]).path@
                        == libs.resolved@[i as int].1@ && basename_holds(
                        libs.opened_libs@[j].path@,
                        libs.resolved@[i as int].0@,
                    ) && true) by {
                    assert(libs.first_wins());
                    let j = choose|j: int|
                        0 <= j < libs.opened_libs@.len() && (#[trigger] libs.opened_libs@[j]).path@
                            == libs.resolved@[i as int].1@ && crate::pathstr::basename_spec(
                            libs.opened_libs@[j].path@,
                        ) == libs.resolved@[i as int].0@ && (forall|k: int|
                            0 <= k < j ==> crate::pathstr::basename_spec(
                                (#[trigger] libs.opened_libs@[k]).path@,
                            ) != libs.resolved@[i as int].0@);
                    assert(libs.opened_paths()[j] == libs.resolved@[i as int].1@);
                    assert(basename_holds(
                        libs.opened_libs@[j].path@,
                        libs.resolved@[i as int].0@,
                    ));
                }
                let j = choose|j: int|
                    0 <= j < libs.opened_libs@.len() && (#[trigger] libs.opened_libs@[j]).path@
                        == libs.resolved@[i as int].1@ && basename_holds(
                        libs.opened_libs@[j].path@,
                        libs.resolved@[i as int].0@,
                    ) && true;
                assert(libs.opened_paths()[j] == libs.resolved@[i as int].1@);
            }
            let oi = match libs.opened_index_of(&lib_path) {
                Some(oi) => oi,
                None => {
                    proof {
                        assert(false);
                    }
                    0
                },
            };
            let data = &libs.opened_libs[oi].data;
            proof {
                assert forall|j: int|
                    0 <= j < oi as int implies (#[trigger] libs.opened_libs@[j]).path@
                        != lib_path@ by {
                    if libs.opened_libs@[j].path@ == lib_path@ {
                        assert(libs.keys_unique());
                        assert(libs.opened_libs@[oi as int].path@ == lib_path@);
                    }
                }
                lemma_opened_idx_at(libs.opened_libs@, lib_path@, oi as int);
                assert(data@ == opened_data_at(*libs, libs.resolved@[i as int].1@));
            }
            let nsyms = data.syms.len();
            let mut k: usize = 0;
            while k < nsyms
                invariant
                    0 <= k <= nsyms,
                    i < nres,
                    nres == libs.resolved@.len(),
                    nsyms == data@.syms.len(),
                    data@ == opened_data_at(*libs, libs.resolved@[i as int].1@),
                    data@ == libs.opened_libs@[oi as int].data@,
                    oi < libs.opened_libs@.len(),
                    lib_name@ == libs.resolved@[i as int].0@,
                    libs.wf(),
                    rel_wf(r.exported@),
                    rel_wf(r.unresolved@),
                    rel_wf(r.defined@),
                    forall|s: Seq<char>, l: Seq<char>|
                        rel_has(r.defined@, s, l) <==> (exists|t: int|
                            0 <= t < i && (#[trigger] libs.resolved@[t]).0@ == l && defines_sym(
                                opened_data_at(*libs, libs.resolved@[t].1@),
                                s,
                            )) || (l == lib_name@ && defines_sym_upto(data@, s, k as int)),
                    forall|s: Seq<char>, l: Seq<char>|
                        rel_has(r.unresolved@, s, l) <==> (exists|t: int|
                            0 <= t < i && (#[trigger] libs.resolved@[t]).0@ == l
                                && unresolved_sym(
                                opened_data_at(*libs, libs.resolved@[t].1@),
                                s,
                            )) || (l == lib_name@ && unresolved_sym_upto(data@, s, k as int)),
                    forall|s: Seq<char>, l: Seq<char>|
                        rel_has(r.exported@, s, l) <==> (exists|t: int|
                            0 <= t < i && (#[trigger] libs.resolved@[t]).0@ == l && exports_sym(
                                opened_data_at(*libs, libs.resolved@[t].1@),
                                s,
                            )) || (l == lib_name@ && exports_sym_upto(data@, s, k as int)),
                decreases nsyms - k,
            {
                let has_name = match &data.syms[k].name {
                    Some(nm) => !nm.as_str().is_empty(),
                    None => false,
                };
                if has_name {
                    let nm = match &data.syms[k].name {
                        Some(nm) => nm.clone(),
                        None => String::new(),
                    };
                    let y = &data.syms[k];
                    let bind = y.info >> 4u8;
                    let vis = y.other & 3u8;
                    proof {
                        assert(data@.syms[k as int].name == Some(nm@));
                        assert(nm@.len() > 0);
                    }
                    if bind == 1u8 && vis != 2u8 && y.shndx != 0 {
                        rel_insert(&mut r.exported, &nm, &lib_name);
                    }
                    if y.shndx == 0 {
                        rel_insert(&mut r.unresolved, &nm, &lib_name);
                    }
                    if y.shndx != 0 {
                        rel_insert(&mut r.defined, &nm, &lib_name);
                    }
                }
                k += 1;
            }
            proof {
                lemma_sym_upto_all(data@);
                assert forall|s: Seq<char>, l: Seq<char>|
                    rel_has(r.defined@, s, l) <==> exists|t: int|
                        0 <= t < i + 1 && (#[trigger] libs.resolved@[t]).0@ == l && defines_sym(
                            opened_data_at(*libs, libs.resolved@[t].1@),
                            s,
                        ) by {
                    lemma_rel_fold(*libs, i as int, lib_name@);
                }
                assert forall|s: Seq<char>, l: Seq<char>|
                    rel_has(r.unresolved@, s, l) <==> exists|t: int|
                        0 <= t < i + 1 && (#[trigger] libs.resolved@[t]).0@ == l
                            && unresolved_sym(opened_data_at(*libs, libs.resolved@[t].1@), s) by {
                    lemma_rel_fold(*libs, i as int, lib_name@);
                }
                assert forall|s: Seq<char>, l: Seq<char>|
                    rel_has(r.exported@, s, l) <==> exists|t: int|
                        0 <= t < i + 1 && (#[trigger] libs.resolved@[t]).0@ == l && exports_sym(
                            opened_data_at(*libs, libs.resolved@[t].1@),
                            s,
                        ) by {
                    lemma_rel_fold(*libs, i as int, lib_name@);
                }
            }
            i += 1;
        }
        r
    }
}

/// The classification restricted to the first `k` symbols.
pub open spec fn defines_sym_upto(data: ElfDataV, s: Seq<char>, k: int) -> bool {
    exists|t: int|
        0 <= t < k && t < data.syms.len() && {
            let y = #[trigger] data.syms[t];
            &&& y.name == Some(s)
            &&& s.len() > 0
            &&& y.shndx != SHN_UNDEF
        }
}

pub open spec fn unresolved_sym_upto(data: ElfDataV, s: Seq<char>, k: int) -> bool {
    exists|t: int|
        0 <= t < k && t < data.syms.len() && {
            let y = #[trigger] data.syms[t];
            &&& y.name == Some(s)
            &&& s.len() > 0
            &&& y.shndx == SHN_UNDEF
        }
}

pub open spec fn exports_sym_upto(data: ElfDataV, s: Seq<char>, k: int) -> bool {
    exists|t: int|
        0 <= t < k && t < data.syms.len() && {
            let y = #[trigger] data.syms[t];
            &&& y.name == Some(s)
            &&& s.len() > 0
            &&& bind_of(y.info) == BIND_GLOBAL
            &&& vis_of(y.other) != VIS_HIDDEN
            &&& y.shndx != SHN_UNDEF
        }
}

/// Whether the path's base-name is the given name.
pub open spec fn basename_holds(path: Seq<char>, name: Seq<char>) -> bool {
    crate::pathstr::basename_spec(path) == name
}

/// Past the last symbol, the restricted classifications are the full ones.
proof fn lemma_sym_upto_all(data: ElfDataV)
    ensures
        forall|s: Seq<char>|
            defines_sym_upto(data, s, data.syms.len() as int) <==> defines_sym(data, s),
        forall|s: Seq<char>|
            unresolved_sym_upto(data, s, data.syms.len() as int) <==> unresolved_sym(data, s),
        forall|s: Seq<char>|
            exports_sym_upto(data, s, data.syms.len() as int) <==> exports_sym(data, s),
{
}

/// Folding one processed library into the prefix: extending the range by
/// one trades the partial disjunct for the new index, given that resolved
/// keys are unique.
proof fn lemma_rel_fold(libs: LibraryDependencies, i: int, name: Seq<char>)
    requires
        libs.wf(),
        0 <= i < libs.resolved@.len(),
        name == libs.resolved@[i].0@,
    ensures
        forall|t: int|
            0 <= t < i ==> (#[trigger] libs.resolved@[t]).0@ != name,
{
    assert forall|t: int| 0 <= t < i implies (#[trigger] libs.resolved@[t]).0@ != name by {
        assert(libs.keys_unique());
    }
}

} // verus!
