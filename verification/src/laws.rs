//! The walk's quantified guarantees, stated on their own. Each law is
//! proved from the accumulator invariant that `Walk::new` establishes and
//! `Walk::step` maintains, or from the per-edge outcome that `step`
//! guarantees for every probe event.

use vstd::prelude::*;
use crate::deps::{assoc_idx, lemma_assoc_idx, LibraryDependencies};
use crate::elfdata::needed_spec;
use crate::pathstr::basename_spec;
use crate::problems::LibResolveProblemV;
use crate::symbols::opened_data_at;
use crate::walker::{edge_resolves, flatten_parts, method_part_ok, VisitCtx, Walk};

verus! {

/// Closure: every opened library other than the entry — which stands first
/// — was pulled in by a recorded NEEDED edge: an opened dependent's needed
/// name, at its recorded position in that dependent's NEEDED list, whose
/// first-hit probe over the recorded locations and existence answers
/// resolved to this library's path.
pub proof fn lemma_closure(w: Walk, j: int)
    requires
        w.inv(),
        1 <= j < w.deps.opened_libs@.len(),
    ensures
        w.deps.opened_libs@[0].path@ == w.entry@,
        exists|i: int|
            0 <= i < w.edges@.len() && {
                let e = #[trigger] w.edges@[i];
                &&& e.enqueued
                &&& e.found == Some(w.deps.opened_libs@[j].path@)
                &&& w.deps.opened_has(e.dependent)
                &&& 0 <= e.edge_idx < needed_spec(opened_data_at(w.deps, e.dependent).dyns).len()
                &&& e.name == needed_spec(opened_data_at(w.deps, e.dependent).dyns)[e.edge_idx]
                &&& e.found == Walk::probe_result(e.locs, e.answers, e.name)
            },
{
    reveal(crate::walker::opened_prov_in);
    reveal(crate::walker::edges_ok_in);
    let i = choose|i: int|
        0 <= i < w.edges@.len() && edge_resolves(
            #[trigger] w.edges@[i],
            w.deps.opened_libs@[j].path@,
        );
    assert(0 <= i < w.edges@.len());
    let e = w.edges@[i];
    assert(w.deps.opened_has(e.dependent));
}

/// Completeness of the edge log: when the walk has finished, every opened
/// library's every NEEDED position has a recorded edge — nothing reachable
/// was left unprobed.
pub proof fn lemma_all_edges_recorded(w: Walk, j: int, x: int)
    requires
        w.inv(),
        w.phase is Done,
        0 <= j < w.deps.opened_libs@.len(),
        0 <= x < needed_spec(
            opened_data_at(w.deps, w.deps.opened_libs@[j].path@).dyns,
        ).len(),
    ensures
        exists|i: int|
            0 <= i < w.edges@.len() && (#[trigger] w.edges@[i]).dependent
                == w.deps.opened_libs@[j].path@ && w.edges@[i].edge_idx == x,
{
    reveal(crate::walker::nodes_done_in);
    let p = w.deps.opened_libs@[j].path@;
    assert(crate::walker::edge_recorded(w.edges@, p, x));
    let i = choose|i: int|
        0 <= i < w.edges@.len() && (#[trigger] w.edges@[i]).dependent == p
            && w.edges@[i].edge_idx == x;
    assert(0 <= i < w.edges@.len() && w.edges@[i].dependent == p && w.edges@[i].edge_idx == x);
}

/// Completeness of the closure: when the walk has finished, every enqueued
/// resolution's path has itself been opened — nothing enqueued was left
/// unvisited.
pub proof fn lemma_enqueued_found_opened(w: Walk, i: int)
    requires
        w.inv(),
        w.phase is Done,
        0 <= i < w.edges@.len(),
        w.edges@[i].enqueued,
    ensures
        w.deps.opened_has(w.edges@[i].found->0),
{
    reveal(crate::walker::founds_tracked_in);
    let f = w.edges@[i].found->0;
    assert(w.stack@.len() == 0);
    assert(!Seq::<Seq<char>>::empty().contains(f));
}

/// Locations provenance: every recorded edge probed the search-path
/// resolver's assembly — one part per configured method, concatenated in
/// method order: the dependent's RPATH and RUNPATH entries with `$ORIGIN`
/// replaced by its directory, the raw `LD_LIBRARY_PATH` value split on
/// colons, fixed directories verbatim, and, for configuration methods, the
/// directories the driver's configuration answers yielded.
pub proof fn lemma_locations_assembled(w: Walk, i: int)
    requires
        w.inv(),
        0 <= i < w.edges@.len(),
    ensures
        ({
            let e = w.edges@[i];
            &&& e.parts.len() == w.methods.deep_view().len()
            &&& e.locs == flatten_parts(e.parts)
            &&& forall|k: int|
                0 <= k < w.methods@.len() ==> method_part_ok(
                    w.methods.deep_view()[k],
                    w.deps,
                    e.dependent,
                    w.env_ld_library_path,
                    #[trigger] e.parts[k],
                )
        }),
{
    reveal(crate::walker::edges_locs_ok_in);
}

/// First-wins resolution: a resolved base-name maps to the path of the
/// first library in visit order bearing that name, and every later library
/// with the same name leaves the entry untouched.
pub proof fn lemma_first_wins_resolution(d: LibraryDependencies, n: Seq<char>)
    requires
        d.wf(),
        d.resolved_has(n),
    ensures
        ({
            let i = assoc_idx(d.resolved@, n);
            &&& 0 <= i < d.resolved@.len()
            &&& d.resolved@[i].0@ == n
            &&& exists|j: int|
                0 <= j < d.opened_libs@.len() && (#[trigger] d.opened_libs@[j]).path@
                    == d.resolved@[i].1@ && basename_spec(d.opened_libs@[j].path@) == n && (
                forall|k: int|
                    0 <= k < j ==> basename_spec((#[trigger] d.opened_libs@[k]).path@) != n)
        }),
{
    lemma_assoc_idx(d.resolved@, n);
    let i = assoc_idx(d.resolved@, n);
    assert(crate::deps::pair_keys(d.resolved@)[i] == d.resolved@[i].0@);
    assert(d.first_wins());
    let iv = d.resolved@[i];
    let j = choose|j: int|
        0 <= j < d.opened_libs@.len() && (#[trigger] d.opened_libs@[j]).path@ == iv.1@
            && basename_spec(d.opened_libs@[j].path@) == iv.0@ && (forall|k: int|
            0 <= k < j ==> basename_spec((#[trigger] d.opened_libs@[k]).path@) != iv.0@);
    assert(d.opened_libs@[j].path@ == d.resolved@[i].1@);
}

/// Reverse-dependency heads are stable: as the walk extends the
/// accumulator, an existing entry keeps its key and its first element — the
/// first resolver recorded when the library was first visited.
pub proof fn lemma_first_resolver_stable(
    new: LibraryDependencies,
    old: LibraryDependencies,
    i: int,
)
    requires
        Walk::deps_extends(new, old),
        0 <= i < old.reverse_dependencies@.len(),
        old.reverse_dependencies@[i].1@.len() > 0,
    ensures
        new.reverse_dependencies@[i].0@ == old.reverse_dependencies@[i].0@,
        new.reverse_dependencies@[i].1.deep_view()[0] == old.reverse_dependencies@[i].1.deep_view()[0],
{
    let o = old.reverse_dependencies@[i].1.deep_view();
    let w = new.reverse_dependencies@[i].1.deep_view();
    assert(o.is_prefix_of(w));
    assert(o[0] == w.take(o.len() as int)[0]);
}

/// Problem disjointness: one NEEDED edge decision adds at most one problem
/// record to the accumulator.
pub proof fn lemma_edge_at_most_one_problem(
    old: LibraryDependencies,
    v: VisitCtx,
    answers: Seq<bool>,
    new: LibraryDependencies,
)
    requires
        Walk::edge_outcome(old, v, answers, new),
    ensures
        new.problems@.len() == old.problems@.len() || new.problems@.len() == old.problems@.len()
            + 1,
        old.problems.deep_view().is_prefix_of(new.problems.deep_view()),
{
    let name = v.info.libs@[v.edge_idx as int]@;
    let found = Walk::probe_result(v.locs@, answers, name);
    if old.resolved_has(name) {
        let q = old.resolved_path_of(name);
        if found == Some(q) {
            crate::deps::lemma_prefix_refl(new.problems.deep_view());
        } else if found is Some {
            crate::deps::lemma_prefix_push(
                old.problems.deep_view(),
                new.problems.deep_view().last(),
            );
        } else {
            crate::deps::lemma_prefix_push(
                old.problems.deep_view(),
                new.problems.deep_view().last(),
            );
        }
    } else {
        if found is None {
            crate::deps::lemma_prefix_push(
                old.problems.deep_view(),
                new.problems.deep_view().last(),
            );
        } else {
            crate::deps::lemma_prefix_refl(new.problems.deep_view());
        }
    }
}

/// No conflict false-negative: when an edge's probe resolves the name to a
/// path different from the first-wins entry, the decision records a
/// `ResolveConflict` carrying both paths and the first resolver.
pub proof fn lemma_conflict_recorded(
    old: LibraryDependencies,
    v: VisitCtx,
    answers: Seq<bool>,
    new: LibraryDependencies,
    p: Seq<char>,
)
    requires
        Walk::edge_outcome(old, v, answers, new),
        old.resolved_has(v.info.libs@[v.edge_idx as int]@),
        Walk::probe_result(v.locs@, answers, v.info.libs@[v.edge_idx as int]@) == Some(p),
        p != old.resolved_path_of(v.info.libs@[v.edge_idx as int]@),
    ensures
        new.problems@.len() == old.problems@.len() + 1,
        new.problems.deep_view().last() == (LibResolveProblemV::ResolveConflict {
            dependent_lib: v.path@,
            lib_name: v.info.libs@[v.edge_idx as int]@,
            resolve_path: p,
            locations: v.locs@,
            prev_resolved_path: old.resolved_path_of(v.info.libs@[v.edge_idx as int]@),
            first_resolver: old.first_resolver_of(
                old.resolved_path_of(v.info.libs@[v.edge_idx as int]@),
            ),
        }),
{
    let name = v.info.libs@[v.edge_idx as int]@;
    let q = old.resolved_path_of(name);
    assert(Walk::probe_result(v.locs@, answers, name) matches Some(x) && x != q);
}

} // verus!
