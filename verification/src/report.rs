//! The driver-facing reductions of the symbol summary: sorted, joined group
//! keys, demangled symbol lists, and the two groupings the reports print —
//! exported duplicate symbols that something imports, and symbols no
//! resolved library defines.

use vstd::prelude::*;
use crate::deps::{assoc_find, assoc_has};
use crate::strutil::{
    join_strs, join_with, lemma_str_le_total, lemma_str_le_trans, sort_strings, str_leq,
};
use crate::symbols::{rel_has, rel_insert, rel_wf, SymbolSummary};

verus! {

/// The separator between names in a group key.
pub open spec fn comma_space() -> Seq<char> {
    seq![',', ' ']
}

/// The canonical key of a set of names: the names in `str_le` order, joined
/// by a comma and a space.
pub open spec fn key_of(names: Seq<Seq<char>>) -> Seq<char> {
    join_with(names.sort_by(str_leq()), comma_space())
}

/// `str_le` is a total order.
pub proof fn lemma_str_leq_total_ordering()
    ensures
        vstd::relations::total_ordering(str_leq()),
{
    assert forall|x: Seq<char>| #[trigger] str_leq()(x, x) by {
        lemma_str_le_total(x, x);
    }
    assert forall|x: Seq<char>, y: Seq<char>|
        #[trigger] str_leq()(x, y) && #[trigger] str_leq()(y, x) implies x == y by {
        lemma_str_le_total(x, y);
    }
    assert forall|x: Seq<char>, y: Seq<char>, z: Seq<char>|
        #[trigger] str_leq()(x, y) && #[trigger] str_leq()(y, z) implies str_leq()(x, z) by {
        lemma_str_le_trans(x, y, z);
    }
    assert forall|x: Seq<char>, y: Seq<char>| #[trigger] str_leq()(x, y) || #[trigger] str_leq()(
        y,
        x,
    ) by {
        lemma_str_le_total(x, y);
    }
}

/// Sorts the names and joins them into the canonical group key.
pub fn libs_to_key(lib_names: &Vec<String>) -> (r: String)
    ensures
        r@ == key_of(lib_names.deep_view()),
{
    let sorted = sort_strings(lib_names);
    let r = join_strs(&sorted, ", ");
    proof {
        reveal_strlit(", ");
        assert(", "@ =~= comma_space());
        lemma_str_leq_total_ordering();
        lib_names.deep_view().lemma_sort_by_ensures(str_leq());
        vstd::seq_lib::lemma_sorted_unique(
            sorted.deep_view(),
            lib_names.deep_view().sort_by(str_leq()),
            str_leq(),
        );
    }
    r
}

/// What the demangler makes of a symbol: `Some` of the demangled rendering
/// when the symbol parses as a mangled C++ name, `None` otherwise. A
/// function of the characters alone.
pub uninterp spec fn demangled_of(sym: Seq<char>) -> Option<Seq<char>>;

/// Relies on cpp_demangle's `Symbol::new` and `Symbol::demangle`: parses
/// the mangled name and renders it, from the symbol's text alone.
#[verifier::external_body]
fn demangle(s: &str) -> (r: Option<String>)
    ensures
        r is Some <==> demangled_of(s@) is Some,
        r is Some ==> r->0@ == demangled_of(s@)->0,
{
    cpp_demangle::Symbol::new(s.as_bytes()).ok().and_then(|d| d.demangle().ok())
}

/// A symbol as the reports print it: demangled when possible, verbatim
/// otherwise.
pub open spec fn pretty_of(sym: Seq<char>) -> Seq<char> {
    match demangled_of(sym) {
        Some(d) => d,
        None => sym,
    }
}

/// Demangles each symbol that parses, sorts the renderings, and joins them
/// into one comma-separated line.
pub fn symbols_to_key(symbols: &Vec<String>) -> (r: String)
    ensures
        r@ == key_of(symbols.deep_view().map_values(|s: Seq<char>| pretty_of(s))),
{
    let mut pretty: Vec<String> = Vec::new();
    let mut i: usize = 0;
    let ghost target = symbols.deep_view().map_values(|s: Seq<char>| pretty_of(s));
    proof {
        assert(pretty.deep_view() =~= target.take(0));
    }
    while i < symbols.len()
        invariant
            0 <= i <= symbols.len(),
            symbols.deep_view().len() == symbols.len(),
            target == symbols.deep_view().map_values(|s: Seq<char>| pretty_of(s)),
            pretty.deep_view() == target.take(i as int),
        decreases symbols.len() - i,
    {
        let ghost predeep = pretty.deep_view();
        let p = match demangle(symbols[i].as_str()) {
            Some(d) => d,
            None => symbols[i].clone(),
        };
        pretty.push(p);
        proof {
            assert(pretty.deep_view() =~= predeep.push(pretty_of(symbols.deep_view()[i as int])));
            assert(target.take(i + 1) =~= target.take(i as int).push(target[i as int]));
        }
        i += 1;
    }
    proof {
        assert(target.take(symbols.len() as int) =~= target);
    }
    libs_to_key(&pretty)
}

impl SymbolSummary {
    /// The "exported duplicate symbols" report: symbols exported by at
    /// least two libraries and imported somewhere in the closure, grouped
    /// under the canonical key of their exporter set.
    pub fn duplicate_export_groups(&self) -> (r: Vec<(String, Vec<String>)>)
        ensures
            rel_wf(r@),
            forall|k: Seq<char>, s: Seq<char>|
                rel_has(r@, k, s) <==> exists|t: int|
                    0 <= t < self.exported@.len() && (#[trigger] self.exported@[t]).0@ == s
                        && self.exported@[t].1@.len() >= 2 && assoc_has(self.unresolved@, s) && k
                        == key_of(self.exported@[t].1.deep_view()),
    {
        let mut r: Vec<(String, Vec<String>)> = Vec::new();
        let n = self.exported.len();
        let mut i: usize = 0;
        while i < n
            invariant
                0 <= i <= n,
                n == self.exported@.len(),
                rel_wf(r@),
                forall|k: Seq<char>, s: Seq<char>|
                    rel_has(r@, k, s) <==> exists|t: int|
                        0 <= t < i && (#[trigger] self.exported@[t]).0@ == s
                            && self.exported@[t].1@.len() >= 2 && assoc_has(self.unresolved@, s)
                            && k == key_of(self.exported@[t].1.deep_view()),
            decreases n - i,
        {
            let in_unresolved = match assoc_find(&self.unresolved, &self.exported[i].0) {
                Some(_) => true,
                None => false,
            };
            if self.exported[i].1.len() >= 2 && in_unresolved {
                let key = libs_to_key(&self.exported[i].1);
                let sym = self.exported[i].0.clone();
                rel_insert(&mut r, &key, &sym);
            }
            i += 1;
        }
        r
    }

    /// The "unresolved symbols" report: symbols some library imports that no
    /// resolved library defines, grouped under the canonical key of their
    /// importer set.
    pub fn unresolved_symbol_groups(&self) -> (r: Vec<(String, Vec<String>)>)
        ensures
            rel_wf(r@),
            forall|k: Seq<char>, s: Seq<char>|
                rel_has(r@, k, s) <==> exists|t: int|
                    0 <= t < self.unresolved@.len() && (#[trigger] self.unresolved@[t]).0@ == s
                        && self.unresolved@[t].1@.len() >= 1 && !assoc_has(self.defined@, s) && k
                        == key_of(self.unresolved@[t].1.deep_view()),
    {
        let mut r: Vec<(String, Vec<String>)> = Vec::new();
        let n = self.unresolved.len();
        let mut i: usize = 0;
        while i < n
            invariant
                0 <= i <= n,
                n == self.unresolved@.len(),
                rel_wf(r@),
                forall|k: Seq<char>, s: Seq<char>|
                    rel_has(r@, k, s) <==> exists|t: int|
                        0 <= t < i && (#[trigger] self.unresolved@[t]).0@ == s
                            && self.unresolved@[t].1@.len() >= 1 && !assoc_has(self.defined@, s)
                            && k == key_of(self.unresolved@[t].1.deep_view()),
            decreases n - i,
        {
            let in_defined = match assoc_find(&self.defined, &self.unresolved[i].0) {
                Some(_) => true,
                None => false,
            };
            if self.unresolved[i].1.len() >= 1 && !in_defined {
                let key = libs_to_key(&self.unresolved[i].1);
                let sym = self.unresolved[i].0.clone();
                rel_insert(&mut r, &key, &sym);
            }
            i += 1;
        }
        r
    }
}

} // verus!
