//! The walk's accumulator: the opened libraries in visit order, the
//! first-wins resolution map from base-name to path, the reverse-dependency
//! index, and the ordered problem list.

use vstd::prelude::*;
use crate::library::Library;
use crate::pathstr::basename_spec;
use crate::locations::{LibraryLocations, LocationV};
use crate::problems::{LibResolveProblem, LibResolveProblemV};

verus! {

/// The keys of an association list, in order.
pub open spec fn pair_keys<V>(s: Seq<(String, V)>) -> Seq<Seq<char>> {
    s.map_values(|p: (String, V)| p.0@)
}

/// Whether the association list holds an entry under `k`.
pub open spec fn assoc_has<V>(s: Seq<(String, V)>, k: Seq<char>) -> bool {
    exists|i: int| 0 <= i < s.len() && pair_keys(s)[i] == k
}

/// The index of the first entry under `k`; meaningful only when one exists.
pub open spec fn assoc_idx<V>(s: Seq<(String, V)>, k: Seq<char>) -> int
    decreases s.len(),
{
    if s.len() == 0 {
        0
    } else if s[0].0@ == k {
        0
    } else {
        1 + assoc_idx(s.drop_first(), k)
    }
}

pub proof fn lemma_assoc_idx<V>(s: Seq<(String, V)>, k: Seq<char>)
    requires
        assoc_has(s, k),
    ensures
        0 <= assoc_idx(s, k) < s.len(),
        pair_keys(s)[assoc_idx(s, k)] == k,
        forall|j: int| 0 <= j < assoc_idx(s, k) ==> pair_keys(s)[j] != k,
    decreases s.len(),
{
    if s.len() == 0 {
    } else if s[0].0@ == k {
    } else {
        let t = s.drop_first();
        assert(assoc_has(t, k)) by {
            let w = choose|i: int| 0 <= i < s.len() && pair_keys(s)[i] == k;
            assert(w > 0);
            assert(pair_keys(t)[w - 1] == pair_keys(s)[w]);
        }
        lemma_assoc_idx(t, k);
        assert forall|j: int| 0 <= j < assoc_idx(s, k) implies pair_keys(s)[j] != k by {
            if j > 0 {
                assert(pair_keys(t)[j - 1] == pair_keys(s)[j]);
            }
        }
    }
}

/// Finds the first entry under `key`; `None` exactly when there is none.
pub fn assoc_find<V>(v: &Vec<(String, V)>, key: &String) -> (r: Option<usize>)
    ensures
        r is Some <==> assoc_has(v@, key@),
        r is Some ==> r->0 == assoc_idx(v@, key@) && r->0 < v@.len() && v@[(r->0) as int].0@
            == key@,
{
    let n = v.len();
    let mut i: usize = 0;
    while i < n
        invariant
            0 <= i <= n,
            n == v@.len(),
            forall|k: int| 0 <= k < i ==> #[trigger] pair_keys(v@)[k] != key@,
        decreases n - i,
    {
        if v[i].0 == *key {
            proof {
                assert(pair_keys(v@)[i as int] == key@);
                lemma_assoc_idx_at(v@, key@, i as int);
            }
            return Some(i);
        }
        proof {
            assert(pair_keys(v@)[i as int] == v@[i as int].0@);
        }
        i += 1;
    }
    proof {
        if assoc_has(v@, key@) {
            let w = choose|j: int| 0 <= j < v@.len() && pair_keys(v@)[j] == key@;
            assert(pair_keys(v@)[w] != key@);
        }
    }
    None
}

/// If nothing before `i` carries key `k` and entry `i` does, then `i` is the
/// first index under `k`.
pub proof fn lemma_assoc_idx_at<V>(s: Seq<(String, V)>, k: Seq<char>, i: int)
    requires
        0 <= i < s.len(),
        pair_keys(s)[i] == k,
        forall|j: int| 0 <= j < i ==> #[trigger] pair_keys(s)[j] != k,
    ensures
        assoc_idx(s, k) == i,
        assoc_has(s, k),
    decreases i,
{
    assert(pair_keys(s)[i] == s[i].0@);
    if i == 0 {
    } else {
        assert(pair_keys(s)[0] == s[0].0@);
        let t = s.drop_first();
        assert forall|j: int| 0 <= j < i - 1 implies #[trigger] pair_keys(t)[j] != k by {
            assert(pair_keys(t)[j] == pair_keys(s)[j + 1]);
        }
        assert(pair_keys(t)[i - 1] == pair_keys(s)[i]);
        lemma_assoc_idx_at(t, k, i - 1);
    }
}

/// Every sequence is a prefix of itself.
pub proof fn lemma_prefix_refl<T>(s: Seq<T>)
    ensures
        s.is_prefix_of(s),
{
    assert(s =~= s.take(s.len() as int));
}

/// A sequence is a prefix of itself extended by one element.
pub proof fn lemma_prefix_push<T>(s: Seq<T>, x: T)
    ensures
        s.is_prefix_of(s.push(x)),
{
    assert(s =~= s.push(x).take(s.len() as int));
}

/// The walk's accumulator. `opened_libs` is append-only in visit order;
/// `resolved` maps base-names to the path that first resolved them and is
/// never overwritten; `reverse_dependencies` lists, per resolved path, the
/// dependents that pulled it in, first resolver first; `problems` is in
/// detection order.
pub struct LibraryDependencies {
    pub opened_libs: Vec<Library>,
    pub resolved: Vec<(String, String)>,
    pub reverse_dependencies: Vec<(String, Vec<String>)>,
    pub problems: Vec<LibResolveProblem>,
}

impl LibraryDependencies {
    /// The opened libraries' paths, in visit order.
    pub open spec fn opened_paths(self) -> Seq<Seq<char>> {
        self.opened_libs@.map_values(|l: Library| l.path@)
    }

    /// Whether `p` is among the opened paths.
    pub open spec fn opened_has(self, p: Seq<char>) -> bool {
        self.opened_paths().contains(p)
    }

    /// The resolution map as an association list of views.
    pub open spec fn resolved_v(self) -> Seq<(String, String)> {
        self.resolved@
    }

    /// The path the name is resolved to; meaningful when `resolved_has`.
    pub open spec fn resolved_has(self, n: Seq<char>) -> bool {
        assoc_has(self.resolved@, n)
    }

    pub open spec fn resolved_path_of(self, n: Seq<char>) -> Seq<char> {
        self.resolved@[assoc_idx(self.resolved@, n)].1@
    }

    pub open spec fn rd_has(self, p: Seq<char>) -> bool {
        assoc_has(self.reverse_dependencies@, p)
    }

    /// The reverse-dependency list recorded under `p`.
    pub open spec fn rd_list_of(self, p: Seq<char>) -> Seq<Seq<char>> {
        self.reverse_dependencies@[assoc_idx(self.reverse_dependencies@, p)].1.deep_view()
    }

    /// Keys are unique in both association lists, and opened paths are
    /// unique.
    pub open spec fn keys_unique(self) -> bool {
        &&& forall|i: int, j: int|
            0 <= i < j < self.resolved@.len() ==> (#[trigger] self.resolved@[i]).0@ != (
            #[trigger] self.resolved@[j]).0@
        &&& forall|i: int, j: int|
            0 <= i < j < self.reverse_dependencies@.len() ==> (
            #[trigger] self.reverse_dependencies@[i]).0@ != (
            #[trigger] self.reverse_dependencies@[j]).0@
        &&& forall|i: int, j: int|
            0 <= i < j < self.opened_libs@.len() ==> (#[trigger] self.opened_libs@[i]).path@ != (
            #[trigger] self.opened_libs@[j]).path@
    }

    /// First-wins resolution: every opened library's base-name is resolved,
    /// and every resolved name points at the first opened library bearing it.
    pub open spec fn first_wins(self) -> bool {
        &&& forall|j: int|
            0 <= j < self.opened_libs@.len() ==> self.resolved_has(
                basename_spec((#[trigger] self.opened_libs@[j]).path@),
            )
        &&& forall|i: int|
            0 <= i < self.resolved@.len() ==> exists|j: int|
                0 <= j < self.opened_libs@.len() && (#[trigger] self.opened_libs@[j]).path@ == (
                #[trigger] self.resolved@[i]).1@ && basename_spec(self.opened_libs@[j].path@)
                    == self.resolved@[i].0@ && (forall|k: int|
                    0 <= k < j ==> basename_spec(
                        (#[trigger] self.opened_libs@[k]).path@,
                    ) != self.resolved@[i].0@)
    }

    /// Reverse-dependency entries are sound: keys are opened paths, every
    /// list is non-empty, and every listed dependent is itself opened.
    pub open spec fn rd_sound(self) -> bool {
        forall|i: int|
            0 <= i < self.reverse_dependencies@.len() ==> {
                let e = #[trigger] self.reverse_dependencies@[i];
                &&& self.opened_has(e.0@)
                &&& e.1@.len() > 0
                &&& forall|j: int| 0 <= j < e.1@.len() ==> self.opened_has((#[trigger] e.1@[j])@)
            }
    }

    /// The structural invariant the walk maintains.
    pub open spec fn wf(self) -> bool {
        &&& self.keys_unique()
        &&& self.first_wins()
        &&& self.rd_sound()
    }

    /// An empty accumulator.
    pub fn new() -> (r: Self)
        ensures
            r.opened_libs@.len() == 0,
            r.resolved@.len() == 0,
            r.reverse_dependencies@.len() == 0,
            r.problems@.len() == 0,
            r.wf(),
    {
        LibraryDependencies {
            opened_libs: Vec::new(),
            resolved: Vec::new(),
            reverse_dependencies: Vec::new(),
            problems: Vec::new(),
        }
    }

    /// Whether `path` is among the opened paths.
    pub fn opened_contains(&self, path: &String) -> (r: bool)
        ensures
            r == self.opened_has(path@),
    {
        let n = self.opened_libs.len();
        let mut i: usize = 0;
        while i < n
            invariant
                0 <= i <= n,
                n == self.opened_libs@.len(),
                forall|k: int| 0 <= k < i ==> (#[trigger] self.opened_libs@[k]).path@ != path@,
            decreases n - i,
        {
            if self.opened_libs[i].path == *path {
                proof {
                    assert(self.opened_paths()[i as int] == path@);
                }
                return true;
            }
            i += 1;
        }
        proof {
            if self.opened_has(path@) {
                let w = choose|j: int|
                    0 <= j < self.opened_paths().len() && self.opened_paths()[j] == path@;
                assert(self.opened_libs@[w].path@ == path@);
            }
        }
        false
    }

    /// The index of the opened library at `path`.
    pub fn opened_index_of(&self, path: &String) -> (r: Option<usize>)
        ensures
            r is Some <==> self.opened_has(path@),
            r is Some ==> r->0 < self.opened_libs@.len() && self.opened_libs@[(r->0) as int].path@
                == path@,
    {
        let n = self.opened_libs.len();
        let mut i: usize = 0;
        while i < n
            invariant
                0 <= i <= n,
                n == self.opened_libs@.len(),
                forall|k: int| 0 <= k < i ==> (#[trigger] self.opened_libs@[k]).path@ != path@,
            decreases n - i,
        {
            if self.opened_libs[i].path == *path {
                proof {
                    assert(self.opened_paths()[i as int] == path@);
                }
                return Some(i);
            }
            i += 1;
        }
        proof {
            if self.opened_has(path@) {
                let w = choose|j: int|
                    0 <= j < self.opened_paths().len() && self.opened_paths()[j] == path@;
                assert(self.opened_libs@[w].path@ == path@);
            }
        }
        None
    }

    /// The path `name` is resolved to, when it is.
    pub fn resolved_lookup(&self, name: &String) -> (r: Option<String>)
        ensures
            r is Some <==> self.resolved_has(name@),
            r is Some ==> r->0@ == self.resolved_path_of(name@),
    {
        match assoc_find(&self.resolved, name) {
            Some(i) => {
                proof {
                    lemma_assoc_idx(self.resolved@, name@);
                }
                Some(self.resolved[i].1.clone())
            },
            None => None,
        }
    }

    /// The first recorded dependent of `path` — its first resolver — when
    /// `path` holds a reverse-dependency entry.
    pub fn rd_first(&self, path: &String) -> (r: Option<String>)
        requires
            self.wf(),
        ensures
            r is Some <==> self.rd_has(path@),
            r is Some ==> self.rd_list_of(path@).len() > 0 && r->0@ == self.rd_list_of(path@)[0],
    {
        match assoc_find(&self.reverse_dependencies, path) {
            Some(i) => {
                proof {
                    lemma_assoc_idx(self.reverse_dependencies@, path@);
                    assert(self.reverse_dependencies@[i as int].1@.len() > 0);
                    assert(self.reverse_dependencies@[i as int].1.deep_view()[0]
                        == self.reverse_dependencies@[i as int].1@[0]@);
                }
                Some(self.reverse_dependencies[i].1[0].clone())
            },
            None => None,
        }
    }
    /// The reverse-dependency index at the view level.
    pub open spec fn rdeps_deep(self) -> Seq<(Seq<char>, Seq<Seq<char>>)> {
        self.reverse_dependencies@.map_values(|p: (String, Vec<String>)| (p.0@, p.1.deep_view()))
    }

    /// The first resolver reported for a previously resolved path: the head
    /// of its reverse-dependency list, or the path itself for the walk's
    /// root, which no dependent pulled in.
    pub open spec fn first_resolver_of(self, q: Seq<char>) -> Seq<char> {
        if self.rd_has(q) {
            self.rd_list_of(q)[0]
        } else {
            q
        }
    }

    /// Records a newly opened library: appends it to the visit order, gives
    /// its base-name a first-wins resolution entry unless the name holds
    /// one, and opens its reverse-dependency list with the dependent
    /// that pulled it in, when there is one.
    pub fn open_bookkeeping(&mut self, lib: Library, caller: &Option<String>)
        requires
            old(self).wf(),
            !old(self).opened_has(lib.path@),
            caller matches Some(c) ==> old(self).opened_has(c@),
        ensures
            final(self).wf(),
            final(self).opened_libs@ == old(self).opened_libs@.push(lib),
            final(self).problems == old(self).problems,
            old(self).resolved_has(basename_spec(lib.path@)) ==> final(self).resolved
                == old(self).resolved,
            !old(self).resolved_has(basename_spec(lib.path@)) ==> {
                &&& final(self).resolved@.len() == old(self).resolved@.len() + 1
                &&& final(self).resolved@.drop_last() =~= old(self).resolved@
                &&& final(self).resolved@.last().0@ == basename_spec(lib.path@)
                &&& final(self).resolved@.last().1@ == lib.path@
            },
            caller is None ==> final(self).reverse_dependencies == old(
                self,
            ).reverse_dependencies,
            caller is Some ==> {
                &&& final(self).reverse_dependencies@.len() == old(
                    self,
                ).reverse_dependencies@.len() + 1
                &&& final(self).reverse_dependencies@.drop_last() =~= old(
                    self,
                ).reverse_dependencies@
                &&& final(self).reverse_dependencies@.last().0@ == lib.path@
                &&& final(self).reverse_dependencies@.last().1.deep_view() =~= seq![caller->0@]
            },
    {
        let ghost oldself = *old(self);
        let name = lib.get_name();
        let path = lib.path.clone();
        let ghost libv = lib;
        let already = match assoc_find(&self.resolved, &name) {
            Some(_) => true,
            None => false,
        };
        self.opened_libs.push(lib);
        proof {
            assert(self.opened_libs@ =~= oldself.opened_libs@.push(libv));
            assert forall|k: int| 0 <= k < oldself.opened_libs@.len() implies (
            #[trigger] oldself.opened_libs@[k]).path@ != libv.path@ by {
                if oldself.opened_libs@[k].path@ == libv.path@ {
                    assert(oldself.opened_paths()[k] == libv.path@);
                }
            }
        }
        if !already {
            self.resolved.push((name, path.clone()));
            proof {
                assert(self.resolved@.drop_last() =~= oldself.resolved@);
                assert forall|k: int| 0 <= k < oldself.resolved@.len() implies (
                #[trigger] oldself.resolved@[k]).0@ != basename_spec(libv.path@) by {
                    if oldself.resolved@[k].0@ == basename_spec(libv.path@) {
                        assert(pair_keys(oldself.resolved@)[k] == basename_spec(libv.path@));
                    }
                }
            }
        }
        match caller {
            Some(c) => {
                let mut one: Vec<String> = Vec::new();
                one.push(c.clone());
                self.reverse_dependencies.push((path, one));
                proof {
                    assert(self.reverse_dependencies@.drop_last()
                        =~= oldself.reverse_dependencies@);
                    assert(self.reverse_dependencies@.last().1.deep_view() =~= seq![caller->0@]);
                    assert forall|j: int|
                        0 <= j < self.reverse_dependencies@.last().1@.len() implies oldself
                        .opened_has((#[trigger] self.reverse_dependencies@.last().1@[j])@) by {
                        assert(j == 0);
                        assert(self.reverse_dependencies@.last().1@[0]@ == caller->0@);
                    }
                    assert forall|k: int| 0 <= k < oldself.reverse_dependencies@.len() implies (
                    #[trigger] oldself.reverse_dependencies@[k]).0@ != libv.path@ by {
                        assert(oldself.opened_has(oldself.reverse_dependencies@[k].0@));
                        if oldself.reverse_dependencies@[k].0@ == libv.path@ {
                            assert(oldself.opened_has(libv.path@));
                        }
                    }
                }
            },
            None => {},
        }
        proof {
            lemma_open_bookkeeping_wf(oldself, *self, libv, *caller, already);
        }
    }

    /// Decides one NEEDED edge, as the loader walk does. When the name is
    /// not yet resolved: a hit is enqueued for a recursive visit, a miss is
    /// recorded as `Unresolved`. When the name was already resolved to `q`:
    /// a hit on `q` itself appends this dependent to `q`'s reverse
    /// dependencies, a hit elsewhere records a `ResolveConflict`, and a miss
    /// records `UnresolvedButPreviouslyResolved`; none of these recurse.
    pub fn decide_edge(
        &mut self,
        dependent: &String,
        name: &String,
        locs: &LibraryLocations,
        found: &Option<String>,
    ) -> (child: Option<String>)
        requires
            old(self).wf(),
            old(self).opened_has(dependent@),
        ensures
            final(self).wf(),
            final(self).opened_libs == old(self).opened_libs,
            final(self).resolved == old(self).resolved,
            old(self).problems.deep_view().is_prefix_of(final(self).problems.deep_view()),
            final(self).reverse_dependencies@.len() == old(self).reverse_dependencies@.len(),
            forall|i: int|
                0 <= i < old(self).reverse_dependencies@.len() ==> {
                    &&& (#[trigger] final(self).reverse_dependencies@[i]).0@ == old(
                        self,
                    ).reverse_dependencies@[i].0@
                    &&& old(self).reverse_dependencies@[i].1.deep_view().is_prefix_of(
                        final(self).reverse_dependencies@[i].1.deep_view(),
                    )
                },
            !old(self).resolved_has(name@) && found is None ==> {
                &&& child is None
                &&& final(self).reverse_dependencies == old(self).reverse_dependencies
                &&& final(self).problems.deep_view() =~= old(self).problems.deep_view().push(
                    LibResolveProblemV::Unresolved {
                        dependent_lib: dependent@,
                        lib_name: name@,
                        locations: locs@,
                    },
                )
            },
            !old(self).resolved_has(name@) && found is Some ==> {
                &&& child matches Some(c) && c@ == found->0@
                &&& final(self).reverse_dependencies == old(self).reverse_dependencies
                &&& final(self).problems == old(self).problems
            },
            old(self).resolved_has(name@) ==> child is None && {
                let q = old(self).resolved_path_of(name@);
                let fr = old(self).first_resolver_of(q);
                &&& (found matches Some(p) && p@ == q && old(self).rd_has(q) ==> {
                    &&& final(self).problems == old(self).problems
                    &&& final(self).rdeps_deep() =~~= old(self).rdeps_deep().update(
                        assoc_idx(old(self).reverse_dependencies@, q),
                        (q, old(self).rd_list_of(q).push(dependent@)),
                    )
                })
                &&& (found matches Some(p) && p@ == q && !old(self).rd_has(q) ==> {
                    &&& final(self).problems == old(self).problems
                    &&& final(self).reverse_dependencies == old(self).reverse_dependencies
                })
                &&& (found matches Some(p) && p@ != q ==> {
                    &&& final(self).reverse_dependencies == old(self).reverse_dependencies
                    &&& final(self).problems.deep_view() =~= old(self).problems.deep_view().push(
                        LibResolveProblemV::ResolveConflict {
                            dependent_lib: dependent@,
                            lib_name: name@,
                            resolve_path: found->0@,
                            locations: locs@,
                            prev_resolved_path: q,
                            first_resolver: fr,
                        },
                    )
                })
                &&& (found is None ==> {
                    &&& final(self).reverse_dependencies == old(self).reverse_dependencies
                    &&& final(self).problems.deep_view() =~= old(self).problems.deep_view().push(
                        LibResolveProblemV::UnresolvedButPreviouslyResolved {
                            dependent_lib: dependent@,
                            lib_name: name@,
                            locations: locs@,
                            prev_resolved_path: q,
                            first_resolver: fr,
                        },
                    )
                })
            },
    {
        let ghost oldself = *old(self);
        let prev = self.resolved_lookup(name);
        match prev {
            None => {
                match found {
                    None => {
                        let ghost predeep = self.problems.deep_view();
                        let p = LibResolveProblem::Unresolved {
                            dependent_lib: dependent.clone(),
                            lib_name: name.clone(),
                            locations: locs.duplicate(),
                        };
                        let ghost pv = p.deep_view();
                        self.problems.push(p);
                        proof {
                            assert(self.problems.deep_view() =~= predeep.push(pv));
                            lemma_prefix_push(predeep, pv);
                            lemma_rd_unchanged_prefix(oldself, *self);
                        }
                        None
                    },
                    Some(p) => {
                        proof {
                            lemma_prefix_refl(self.problems.deep_view());
                            lemma_rd_unchanged_prefix(oldself, *self);
                        }
                        Some(p.clone())
                    },
                }
            },
            Some(q) => {
                let fr = match self.rd_first(&q) {
                    Some(f) => f,
                    None => q.clone(),
                };
                match found {
                    Some(p) => {
                        if *p == q {
                            match assoc_find(&self.reverse_dependencies, &q) {
                                Some(i) => {
                                    proof {
                                        lemma_assoc_idx(oldself.reverse_dependencies@, q@);
                                    }
                                    let ghost predeep = self.rdeps_deep();
                                    let mut pair = self.reverse_dependencies.remove(i);
                                    pair.1.push(dependent.clone());
                                    self.reverse_dependencies.insert(i, pair);
                                    proof {
                                        assert(self.reverse_dependencies@ =~= oldself
                                            .reverse_dependencies@.update(
                                            i as int,
                                            self.reverse_dependencies@[i as int],
                                        ));
                                        assert(self.rdeps_deep() =~~= predeep.update(
                                            i as int,
                                            (q@, oldself.rd_list_of(q@).push(dependent@)),
                                        ));
                                        assert forall|k: int|
                                            0 <= k < self.reverse_dependencies@[i as int].1@.len()
                                            implies oldself.opened_has(
                                            (
                                            #[trigger] self.reverse_dependencies@[i as int].1@[k])@,
                                        ) by {
                                            if k < oldself.reverse_dependencies@[i as int].1@.len() {
                                                assert(self.reverse_dependencies@[i as int].1@[k]
                                                    == oldself.reverse_dependencies@[i as int].1@[k]);
                                                assert(oldself.opened_has(
                                                    oldself.reverse_dependencies@[i as int].1@[k]@,
                                                ));
                                            } else {
                                                assert(self.reverse_dependencies@[i as int].1@[k]@
                                                    == dependent@);
                                            }
                                        }
                                        lemma_decide_edge_rd_wf(oldself, *self, i as int);
                                        assert forall|j: int|
                                            0 <= j < oldself.reverse_dependencies@.len() implies (
                                        #[trigger] self.reverse_dependencies@[j]).0@ == oldself
                                            .reverse_dependencies@[j].0@ && oldself
                                            .reverse_dependencies@[j].1.deep_view().is_prefix_of(
                                            self.reverse_dependencies@[j].1.deep_view(),
                                        ) by {
                                            assert(self.rdeps_deep()[j] == (
                                            self.reverse_dependencies@[j].0@,
                                            self.reverse_dependencies@[j].1.deep_view(),
                                            ));
                                            assert(oldself.rdeps_deep()[j] == (
                                            oldself.reverse_dependencies@[j].0@,
                                            oldself.reverse_dependencies@[j].1.deep_view(),
                                            ));
                                            let oldlist =
                                                oldself.reverse_dependencies@[j].1.deep_view();
                                            if j == i as int {
                                                lemma_prefix_push(oldlist, dependent@);
                                            } else {
                                                lemma_prefix_refl(oldlist);
                                            }
                                        }
                                        lemma_prefix_refl(self.problems.deep_view());
                                    }
                                },
                                None => {
                                    proof {
                                        lemma_prefix_refl(self.problems.deep_view());
                                        lemma_rd_unchanged_prefix(oldself, *self);
                                    }
                                },
                            }
                        } else {
                            let ghost predeep = self.problems.deep_view();
                            let pr = LibResolveProblem::ResolveConflict {
                                dependent_lib: dependent.clone(),
                                lib_name: name.clone(),
                                resolve_path: p.clone(),
                                locations: locs.duplicate(),
                                prev_resolved_path: q.clone(),
                                first_resolver: fr,
                            };
                            let ghost pv = pr.deep_view();
                            self.problems.push(pr);
                            proof {
                                assert(self.problems.deep_view() =~= predeep.push(pv));
                                lemma_prefix_push(predeep, pv);
                                lemma_rd_unchanged_prefix(oldself, *self);
                            }
                        }
                    },
                    None => {
                        let ghost predeep = self.problems.deep_view();
                        let pr = LibResolveProblem::UnresolvedButPreviouslyResolved {
                            dependent_lib: dependent.clone(),
                            lib_name: name.clone(),
                            locations: locs.duplicate(),
                            prev_resolved_path: q.clone(),
                            first_resolver: fr,
                        };
                        let ghost pv = pr.deep_view();
                        self.problems.push(pr);
                        proof {
                            assert(self.problems.deep_view() =~= predeep.push(pv));
                            lemma_prefix_push(predeep, pv);
                            lemma_rd_unchanged_prefix(oldself, *self);
                        }
                    },
                }
                None
            },
        }
    }
}

/// When the reverse-dependency index is untouched, each entry trivially
/// keeps its prefix.
proof fn lemma_rd_unchanged_prefix(olds: LibraryDependencies, news: LibraryDependencies)
    requires
        news.reverse_dependencies == olds.reverse_dependencies,
    ensures
        forall|i: int|
            0 <= i < olds.reverse_dependencies@.len() ==> (
            #[trigger] news.reverse_dependencies@[i]).0@ == olds.reverse_dependencies@[i].0@
                && olds.reverse_dependencies@[i].1.deep_view().is_prefix_of(
                news.reverse_dependencies@[i].1.deep_view(),
            ),
{
    assert forall|i: int| 0 <= i < olds.reverse_dependencies@.len() implies (
    #[trigger] news.reverse_dependencies@[i]).0@ == olds.reverse_dependencies@[i].0@ && olds
        .reverse_dependencies@[i].1.deep_view().is_prefix_of(
        news.reverse_dependencies@[i].1.deep_view(),
    ) by {
        lemma_prefix_refl(olds.reverse_dependencies@[i].1.deep_view());
    }
}

/// Appending a library preserves the accumulator's invariant.
proof fn lemma_open_bookkeeping_wf(
    olds: LibraryDependencies,
    news: LibraryDependencies,
    lib: Library,
    caller: Option<String>,
    already: bool,
)
    requires
        olds.wf(),
        !olds.opened_has(lib.path@),
        news.opened_libs@ == olds.opened_libs@.push(lib),
        already == olds.resolved_has(basename_spec(lib.path@)),
        already ==> news.resolved == olds.resolved,
        !already ==> news.resolved@.len() == olds.resolved@.len() + 1 && news.resolved@.drop_last()
            =~= olds.resolved@ && news.resolved@.last().0@ == basename_spec(lib.path@)
            && news.resolved@.last().1@ == lib.path@,
        caller is None ==> news.reverse_dependencies == olds.reverse_dependencies,
        caller is Some ==> news.reverse_dependencies@.len() == olds.reverse_dependencies@.len()
            + 1 && news.reverse_dependencies@.drop_last() =~= olds.reverse_dependencies@
            && news.reverse_dependencies@.last().0@ == lib.path@
            && news.reverse_dependencies@.last().1@.len() > 0
            && (forall|j: int|
            0 <= j < news.reverse_dependencies@.last().1@.len() ==> olds.opened_has(
                (#[trigger] news.reverse_dependencies@.last().1@[j])@,
            )),
    ensures
        news.wf(),
{
    let np = lib.path@;
    let nb = basename_spec(np);
    assert forall|k: int| 0 <= k < olds.opened_libs@.len() implies (
    #[trigger] olds.opened_libs@[k]).path@ != np by {
        if olds.opened_libs@[k].path@ == np {
            assert(olds.opened_paths()[k] == np);
        }
    }
    assert forall|k: int|
        0 <= k < news.opened_libs@.len() implies #[trigger] news.opened_paths()[k]
        == news.opened_libs@[k].path@ by {}
    // keys_unique
    assert(news.keys_unique()) by {
        if !already {
            assert forall|k: int| 0 <= k < olds.resolved@.len() implies (
            #[trigger] olds.resolved@[k]).0@ != nb by {
                if olds.resolved@[k].0@ == nb {
                    assert(pair_keys(olds.resolved@)[k] == nb);
                }
            }
            assert forall|i: int, j: int|
                0 <= i < j < news.resolved@.len() implies (#[trigger] news.resolved@[i]).0@ != (
            #[trigger] news.resolved@[j]).0@ by {
                if j < olds.resolved@.len() {
                    assert(news.resolved@[i] == olds.resolved@[i]);
                    assert(news.resolved@[j] == olds.resolved@[j]);
                } else {
                    assert(news.resolved@[i] == olds.resolved@[i]);
                    assert(news.resolved@[j].0@ == nb);
                }
            }
        }
        if caller is Some {
            assert forall|k: int| 0 <= k < olds.reverse_dependencies@.len() implies (
            #[trigger] olds.reverse_dependencies@[k]).0@ != np by {
                assert(olds.opened_has(olds.reverse_dependencies@[k].0@));
                if olds.reverse_dependencies@[k].0@ == np {
                    assert(olds.opened_has(np));
                }
            }
            assert forall|i: int, j: int|
                0 <= i < j < news.reverse_dependencies@.len() implies (
            #[trigger] news.reverse_dependencies@[i]).0@ != (
            #[trigger] news.reverse_dependencies@[j]).0@ by {
                if j < olds.reverse_dependencies@.len() {
                    assert(news.reverse_dependencies@[i] == olds.reverse_dependencies@[i]);
                    assert(news.reverse_dependencies@[j] == olds.reverse_dependencies@[j]);
                } else {
                    assert(news.reverse_dependencies@[i] == olds.reverse_dependencies@[i]);
                    assert(news.reverse_dependencies@[j].0@ == np);
                }
            }
        }
    }
    // first_wins (a)
    assert forall|j: int| 0 <= j < news.opened_libs@.len() implies news.resolved_has(
        basename_spec((#[trigger] news.opened_libs@[j]).path@),
    ) by {
        if j < olds.opened_libs@.len() {
            assert(olds.resolved_has(basename_spec(olds.opened_libs@[j].path@)));
            lemma_resolved_has_monotone(olds, news, basename_spec(olds.opened_libs@[j].path@));
        } else {
            if already {
                lemma_resolved_has_monotone(olds, news, nb);
            } else {
                let w = news.resolved@.len() - 1;
                assert(pair_keys(news.resolved@)[w] == nb);
            }
        }
    }
    // first_wins (b)
    assert forall|i: int| 0 <= i < news.resolved@.len() implies exists|j: int|
        0 <= j < news.opened_libs@.len() && (#[trigger] news.opened_libs@[j]).path@ == (
        #[trigger] news.resolved@[i]).1@ && basename_spec(news.opened_libs@[j].path@)
            == news.resolved@[i].0@ && (forall|k: int|
            0 <= k < j ==> basename_spec((#[trigger] news.opened_libs@[k]).path@)
                != news.resolved@[i].0@) by {
        if i < olds.resolved@.len() {
            assert(news.resolved@[i] == olds.resolved@[i]);
            assert(olds.first_wins());
            let j = choose|j: int|
                0 <= j < olds.opened_libs@.len() && (#[trigger] olds.opened_libs@[j]).path@
                    == olds.resolved@[i].1@ && basename_spec(olds.opened_libs@[j].path@)
                    == olds.resolved@[i].0@ && (forall|k: int|
                    0 <= k < j ==> basename_spec((#[trigger] olds.opened_libs@[k]).path@)
                        != olds.resolved@[i].0@);
            assert(news.opened_libs@[j] == olds.opened_libs@[j]);
            assert forall|k: int| 0 <= k < j implies basename_spec(
                (#[trigger] news.opened_libs@[k]).path@,
            ) != news.resolved@[i].0@ by {
                assert(news.opened_libs@[k] == olds.opened_libs@[k]);
            }
        } else {
            let j = news.opened_libs@.len() - 1;
            assert(news.opened_libs@[j] == lib);
            assert forall|k: int| 0 <= k < j implies basename_spec(
                (#[trigger] news.opened_libs@[k]).path@,
            ) != news.resolved@[i].0@ by {
                assert(news.opened_libs@[k] == olds.opened_libs@[k]);
                assert(olds.resolved_has(basename_spec(olds.opened_libs@[k].path@)));
                if basename_spec(olds.opened_libs@[k].path@) == nb {
                    assert(olds.resolved_has(nb));
                }
            }
        }
    }
    // rd_sound
    assert forall|i: int| 0 <= i < news.reverse_dependencies@.len() implies {
        let e = #[trigger] news.reverse_dependencies@[i];
        &&& news.opened_has(e.0@)
        &&& e.1@.len() > 0
        &&& forall|j: int| 0 <= j < e.1@.len() ==> news.opened_has((#[trigger] e.1@[j])@)
    } by {
        if i < olds.reverse_dependencies@.len() {
            assert(news.reverse_dependencies@[i] == olds.reverse_dependencies@[i]);
            assert(olds.opened_has(olds.reverse_dependencies@[i].0@));
            lemma_opened_has_after_push(olds, news, olds.reverse_dependencies@[i].0@);
            assert forall|j: int|
                0 <= j < news.reverse_dependencies@[i].1@.len() implies news.opened_has(
                (#[trigger] news.reverse_dependencies@[i].1@[j])@,
            ) by {
                assert(olds.opened_has(olds.reverse_dependencies@[i].1@[j]@));
                lemma_opened_has_after_push(olds, news, olds.reverse_dependencies@[i].1@[j]@);
            }
        } else {
            let w = news.opened_libs@.len() - 1;
            assert(news.opened_paths()[w] == np);
            assert forall|j: int|
                0 <= j < news.reverse_dependencies@[i].1@.len() implies news.opened_has(
                (#[trigger] news.reverse_dependencies@[i].1@[j])@,
            ) by {
                assert(news.reverse_dependencies@[i] == news.reverse_dependencies@.last());
                assert(olds.opened_has(news.reverse_dependencies@.last().1@[j]@));
                lemma_opened_has_after_push(olds, news, news.reverse_dependencies@.last().1@[j]@);
            }
        }
    }
}

/// An opened path stays opened when one more library is appended.
proof fn lemma_opened_has_after_push(
    olds: LibraryDependencies,
    news: LibraryDependencies,
    p: Seq<char>,
)
    requires
        olds.opened_has(p),
        news.opened_libs@.len() == olds.opened_libs@.len() + 1,
        news.opened_libs@.drop_last() =~= olds.opened_libs@,
    ensures
        news.opened_has(p),
{
    let w = choose|w: int|
        0 <= w < olds.opened_paths().len() && olds.opened_paths()[w] == p;
    assert(olds.opened_libs@[w].path@ == p);
    assert(news.opened_libs@[w] == olds.opened_libs@[w]);
    assert(news.opened_paths()[w] == p);
}

/// A resolution entry stays present when the list grows at the end.
proof fn lemma_resolved_has_monotone(
    olds: LibraryDependencies,
    news: LibraryDependencies,
    k: Seq<char>,
)
    requires
        olds.resolved_has(k),
        olds.resolved@.len() <= news.resolved@.len(),
        forall|i: int| 0 <= i < olds.resolved@.len() ==> #[trigger] news.resolved@[i]
            == olds.resolved@[i],
    ensures
        news.resolved_has(k),
{
    let w = choose|i: int| 0 <= i < olds.resolved@.len() && pair_keys(olds.resolved@)[i] == k;
    assert(pair_keys(news.resolved@)[w] == news.resolved@[w].0@);
    assert(pair_keys(olds.resolved@)[w] == olds.resolved@[w].0@);
}

/// Replacing one reverse-dependency list by a longer one, key unchanged,
/// preserves the accumulator's invariant.
proof fn lemma_decide_edge_rd_wf(olds: LibraryDependencies, news: LibraryDependencies, i: int)
    requires
        olds.wf(),
        news.opened_libs == olds.opened_libs,
        news.resolved == olds.resolved,
        0 <= i < olds.reverse_dependencies@.len(),
        news.reverse_dependencies@.len() == olds.reverse_dependencies@.len(),
        forall|j: int|
            0 <= j < news.reverse_dependencies@.len() && j != i
                ==> #[trigger] news.reverse_dependencies@[j] == olds.reverse_dependencies@[j],
        news.reverse_dependencies@[i].0@ == olds.reverse_dependencies@[i].0@,
        news.reverse_dependencies@[i].1@.len() >= olds.reverse_dependencies@[i].1@.len(),
        forall|k: int|
            0 <= k < news.reverse_dependencies@[i].1@.len() ==> olds.opened_has(
                (#[trigger] news.reverse_dependencies@[i].1@[k])@,
            ),
    ensures
        news.wf(),
{
    assert(news.keys_unique()) by {
        assert forall|a: int, b: int|
            0 <= a < b < news.reverse_dependencies@.len() implies (
        #[trigger] news.reverse_dependencies@[a]).0@ != (
        #[trigger] news.reverse_dependencies@[b]).0@ by {
            assert(news.reverse_dependencies@[a].0@ == olds.reverse_dependencies@[a].0@);
            assert(news.reverse_dependencies@[b].0@ == olds.reverse_dependencies@[b].0@);
            assert(olds.reverse_dependencies@[a].0@ != olds.reverse_dependencies@[b].0@);
        }
    }
    assert(news.first_wins()) by {
        assert(news.opened_libs@ == olds.opened_libs@);
        assert(news.resolved@ == olds.resolved@);
        assert forall|j: int| 0 <= j < news.opened_libs@.len() implies news.resolved_has(
            basename_spec((#[trigger] news.opened_libs@[j]).path@),
        ) by {
            assert(olds.resolved_has(basename_spec(olds.opened_libs@[j].path@)));
        }
    }
    assert(news.rd_sound()) by {
        assert forall|j: int| 0 <= j < news.reverse_dependencies@.len() implies {
            let e = #[trigger] news.reverse_dependencies@[j];
            &&& news.opened_has(e.0@)
            &&& e.1@.len() > 0
            &&& forall|k: int| 0 <= k < e.1@.len() ==> news.opened_has((#[trigger] e.1@[k])@)
        } by {
            assert(olds.opened_has(olds.reverse_dependencies@[j].0@)
                && olds.reverse_dependencies@[j].1@.len() > 0);
            assert(news.reverse_dependencies@[j].0@ == olds.reverse_dependencies@[j].0@);
            assert forall|k: int|
                0 <= k < news.reverse_dependencies@[j].1@.len() implies news.opened_has(
                (#[trigger] news.reverse_dependencies@[j].1@[k])@,
            ) by {
                if j != i {
                    assert(news.reverse_dependencies@[j] == olds.reverse_dependencies@[j]);
                    assert(olds.opened_has(olds.reverse_dependencies@[j].1@[k]@));
                }
            }
        }
    }
}

} // verus!