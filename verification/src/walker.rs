//! The dynamic-linker walk as a state machine. The machine owns the
//! accumulator and all decisions: which library to open next, which
//! directories a dependent's needed names are probed in, and what each
//! NEEDED edge's outcome is. The caller performs the outside work — reading
//! files, expanding glob patterns, testing path existence — and feeds the
//! results back as events. Depth-first order and first-wins resolution are
//! the machine's own; two drivers feeding equal events reach equal states.

use vstd::prelude::*;
use crate::conf::{parse_conf, ConfDirective};
use crate::deps::LibraryDependencies;
use crate::elfdata::DynInfo;
use crate::library::Library;
use crate::locations::{
    first_true, LibraryLocations, LibSearchMethod, LibSearchMethodV, LocationV, OriginTag,
};
use crate::pathstr::{basename_spec, parent_dir, parent_spec, path_join_spec, substitute_origin_spec};
use crate::problems::LibResolveProblemV;
use crate::strutil::{bytes_to_string_lossy, lossy_of, split_bytes, split_on};
use crate::elfdata::{dyns_ok, needed_spec, rpaths_spec, runpaths_spec};
use crate::symbols::{opened_data_at, opened_idx};

verus! {

/// A fault that ends the walk: an unreadable or unparsable library, a
/// dynamic entry without its string, an unreadable configuration file, or a
/// failed glob expansion.
pub enum SimError {
    NotReadable { path: String },
    NotElf { path: String },
    BadDynString { path: String, tag: u64, val: u64 },
    ConfUnreadable { path: String },
    GlobFailed { pattern: String },
}

/// How opening a library failed on the driver's side.
pub enum LibOpenError {
    NotReadable,
    NotElf,
}

/// What the machine asks its driver to do next.
pub enum Action {
    /// Read the file and parse it with `Library::try_from_bytes`.
    OpenLibrary { path: String },
    /// Read the loader-configuration file as text.
    ReadConfFile { path: String },
    /// Expand the glob pattern to the matching paths.
    ExpandGlob { pattern: String },
    /// Report, for each path in order, whether it names an existing file.
    CheckPaths { paths: Vec<String> },
    /// The walk is complete; the accumulator is ready.
    Finished,
    /// The walk ended in a fault; see the machine's phase for the error.
    Failed,
}

/// The driver's answer to the most recent action.
pub enum Event {
    LibraryOpened(Result<Library, LibOpenError>),
    ConfFile(Option<String>),
    GlobPaths(Option<Vec<String>>),
    PathsChecked(Vec<bool>),
}

/// Pending work while a loader-configuration file is being expanded: a file
/// still to read, or the rest of a parsed file's directives.
pub enum ConfTask {
    ReadFile(String),
    Steps(Vec<ConfDirective>, usize),
}

/// The walk's progress through one opened library.
pub struct VisitCtx {
    pub path: String,
    pub origin: String,
    pub info: DynInfo,
    pub locs: LibraryLocations,
    pub method_idx: usize,
    pub conf_tasks: Vec<ConfTask>,
    pub edge_idx: usize,
    pub children: Vec<String>,
    pub parts: Ghost<Seq<Seq<LocationV>>>,
    pub confbase: Ghost<int>,
}

/// Where the machine stands: what it is waiting for, or that it is done.
pub enum Phase {
    AwaitLibrary { path: String, caller: Option<String> },
    AwaitConf { v: VisitCtx, conf_path: String },
    AwaitGlob { v: VisitCtx, pattern: String },
    AwaitProbe { v: VisitCtx },
    Done,
    Failed { error: SimError },
}

/// The ghost record of one decided NEEDED edge: who needed what, the
/// locations and existence answers the probe saw, what it resolved to, and
/// whether the resolution was enqueued for a recursive visit.
pub ghost struct EdgeRec {
    pub dependent: Seq<char>,
    pub edge_idx: int,
    pub name: Seq<char>,
    pub locs: Seq<LocationV>,
    pub parts: Seq<Seq<LocationV>>,
    pub answers: Seq<bool>,
    pub found: Option<Seq<char>>,
    pub enqueued: bool,
}

/// Whether the recorded edge resolved to — and enqueued — the path `p`.
pub open spec fn edge_resolves(e: EdgeRec, p: Seq<char>) -> bool {
    e.enqueued && e.found == Some(p)
}

/// Whether some edge in the log, made by the dependent `c`, resolved to and
/// enqueued `p`.
pub open spec fn enqueued_in(es: Seq<EdgeRec>, p: Seq<char>, c: Seq<char>) -> bool {
    exists|i: int|
        0 <= i < es.len() && edge_resolves(#[trigger] es[i], p) && es[i].dependent == c
}

/// The location lists of the processed methods, concatenated in method
/// order.
pub open spec fn flatten_parts(cs: Seq<Seq<LocationV>>) -> Seq<LocationV>
    decreases cs.len(),
{
    if cs.len() == 0 {
        Seq::<LocationV>::empty()
    } else {
        flatten_parts(cs.drop_last()) + cs.last()
    }
}

/// What one search method contributes to a visit's location list, per
/// spec of the search-path resolver: the dependent's RPATH or RUNPATH
/// entries with `$ORIGIN` replaced by its directory, the raw
/// `LD_LIBRARY_PATH` value split on colons and decoded, one fixed
/// directory — or, for a configuration method, whatever directories the
/// driver's configuration answers yielded, each tagged as such.
pub open spec fn method_part_ok(
    m: LibSearchMethodV,
    deps: LibraryDependencies,
    dependent: Seq<char>,
    env: Option<Vec<u8>>,
    part: Seq<LocationV>,
) -> bool {
    let dyns = opened_data_at(deps, dependent).dyns;
    let origin = parent_spec(dependent);
    match m {
        LibSearchMethodV::RPath => part == rpaths_spec(dyns).map_values(
            |e: Seq<char>| LocationV { dir: substitute_origin_spec(e, origin), tag: OriginTag::RPath },
        ),
        LibSearchMethodV::RunPath => part == runpaths_spec(dyns).map_values(
            |e: Seq<char>|
                LocationV { dir: substitute_origin_spec(e, origin), tag: OriginTag::RunPath },
        ),
        LibSearchMethodV::LDLibraryPath => match env {
            None => part == Seq::<LocationV>::empty(),
            Some(raw) => part == split_on(raw@, 58u8).map_values(
                |seg: Seq<u8>| LocationV { dir: lossy_of(seg), tag: OriginTag::LdLibraryPath },
            ),
        },
        LibSearchMethodV::LDConfig(_) => forall|i: int|
            0 <= i < part.len() ==> (#[trigger] part[i]).tag == OriginTag::LdConfig,
        LibSearchMethodV::Fixed(p) => part == seq![
            LocationV { dir: p, tag: OriginTag::Fixed },
        ],
    }
}

/// How far a visit's location list is assembled from the method list: the
/// processed methods' parts stand concatenated in method order; while a
/// configuration method's expansion is pending, the directories gathered
/// for it so far stand after them, each tagged as configuration-supplied.
#[verifier::opaque]
pub open spec fn build_state_ok(
    deps: LibraryDependencies,
    methods: Seq<LibSearchMethodV>,
    env: Option<Vec<u8>>,
    path: Seq<char>,
    locs: Seq<LocationV>,
    method_idx: int,
    parts: Seq<Seq<LocationV>>,
    confbase: int,
    pending: bool,
) -> bool {
    &&& (forall|k: int|
        0 <= k < parts.len() ==> method_part_ok(methods[k], deps, path, env, #[trigger] parts[k]))
    &&& (pending ==> {
        &&& parts.len() == method_idx - 1
        &&& 1 <= method_idx <= methods.len()
        &&& methods[method_idx - 1] is LDConfig
        &&& 0 <= confbase <= locs.len()
        &&& flatten_parts(parts) == locs.take(confbase)
        &&& forall|i: int|
            confbase <= i < locs.len() ==> (#[trigger] locs[i]).tag == OriginTag::LdConfig
    })
    &&& (!pending ==> {
        &&& parts.len() == method_idx
        &&& 0 <= method_idx <= methods.len()
        &&& flatten_parts(parts) == locs
    })
}

/// Appending one part extends the concatenation by it.
pub proof fn lemma_flatten_parts_push(cs: Seq<Seq<LocationV>>, c: Seq<LocationV>)
    ensures
        flatten_parts(cs.push(c)) == flatten_parts(cs) + c,
{
    assert(cs.push(c).drop_last() =~= cs);
    assert(cs.push(c).last() == c);
}

/// What holds of a visit in progress against the accumulator and the edge
/// log: its node is opened, its origin is its parent directory, its three
/// dynamic lists are the ones the node's dynamic section carries, and every
/// collected child came from a recorded enqueued edge of this node.
#[verifier::opaque]
pub open spec fn visit_ok_in(
    deps: LibraryDependencies,
    edges: Seq<EdgeRec>,
    path: Seq<char>,
    origin: Seq<char>,
    needed: Seq<Seq<char>>,
    rpaths: Seq<Seq<char>>,
    runpaths: Seq<Seq<char>>,
    children: Seq<Seq<char>>,
) -> bool {
    &&& deps.opened_has(path)
    &&& origin == parent_spec(path)
    &&& needed == needed_spec(opened_data_at(deps, path).dyns)
    &&& rpaths == rpaths_spec(opened_data_at(deps, path).dyns)
    &&& runpaths == runpaths_spec(opened_data_at(deps, path).dyns)
    &&& forall|k: int|
        0 <= k < children.len() ==> enqueued_in(edges, #[trigger] children[k], path)
}

/// Every pending visit on the stack was enqueued by the dependent stored
/// beside it, through a recorded edge.
#[verifier::opaque]
pub open spec fn stack_ok_in(stack: Seq<(String, Option<String>)>, edges: Seq<EdgeRec>) -> bool {
    forall|i: int|
        0 <= i < stack.len() ==> {
            let e = #[trigger] stack[i];
            &&& e.1 is Some
            &&& enqueued_in(edges, e.0@, e.1->0@)
        }
}

/// Every recorded edge is sound: its dependent is opened, its name is the
/// entry of the dependent's NEEDED list at the recorded position, its
/// outcome is the first-hit probe over the recorded locations and answers,
/// and only a successful probe was enqueued.
#[verifier::opaque]
pub open spec fn edges_ok_in(deps: LibraryDependencies, edges: Seq<EdgeRec>) -> bool {
    forall|i: int|
        0 <= i < edges.len() ==> {
            let e = #[trigger] edges[i];
            let nd = needed_spec(opened_data_at(deps, e.dependent).dyns);
            &&& deps.opened_has(e.dependent)
            &&& 0 <= e.edge_idx < nd.len()
            &&& e.name == nd[e.edge_idx]
            &&& e.found == Walk::probe_result(e.locs, e.answers, e.name)
            &&& (e.enqueued ==> e.found is Some)
        }
}

/// Every recorded edge's location list is the per-method assembly of the
/// search-path resolver: one part per configured method, concatenated in
/// method order, each part what that method contributes for the edge's
/// dependent.
#[verifier::opaque]
pub open spec fn edges_locs_ok_in(
    deps: LibraryDependencies,
    edges: Seq<EdgeRec>,
    methods: Seq<LibSearchMethodV>,
    env: Option<Vec<u8>>,
) -> bool {
    forall|i: int|
        0 <= i < edges.len() ==> {
            let e = #[trigger] edges[i];
            &&& e.parts.len() == methods.len()
            &&& e.locs == flatten_parts(e.parts)
            &&& forall|k: int|
                0 <= k < methods.len() ==> method_part_ok(
                    methods[k],
                    deps,
                    e.dependent,
                    env,
                    #[trigger] e.parts[k],
                )
        }
}

/// Whether the log records the NEEDED edge of `p` at position `x`.
pub open spec fn edge_recorded(edges: Seq<EdgeRec>, p: Seq<char>, x: int) -> bool {
    exists|i: int|
        0 <= i < edges.len() && (#[trigger] edges[i]).dependent == p && edges[i].edge_idx == x
}

/// Whether every NEEDED edge of `p` has a record in the log.
pub open spec fn node_done(deps: LibraryDependencies, edges: Seq<EdgeRec>, p: Seq<char>) -> bool {
    forall|x: int|
        0 <= x < needed_spec(opened_data_at(deps, p).dyns).len() ==> #[trigger] edge_recorded(
            edges,
            p,
            x,
        )
}

/// Edge completeness: every opened library's every NEEDED edge has a
/// record, except — while one library's visit is in progress — that
/// library's edges from the current position on.
#[verifier::opaque]
pub open spec fn nodes_done_in(
    deps: LibraryDependencies,
    edges: Seq<EdgeRec>,
    except: Option<(Seq<char>, int)>,
) -> bool {
    forall|j: int|
        0 <= j < deps.opened_libs@.len() ==> {
            let p = (#[trigger] deps.opened_libs@[j]).path@;
            match except {
                None => node_done(deps, edges, p),
                Some((q, upto)) => if p == q {
                    forall|x: int| 0 <= x < upto ==> #[trigger] edge_recorded(edges, p, x)
                } else {
                    node_done(deps, edges, p)
                },
            }
        }
}

/// Every enqueued resolution is accounted for: its path is already opened,
/// waits on the stack, stands among the current visit's collected
/// children, or is the one library about to be opened.
#[verifier::opaque]
pub open spec fn founds_tracked_in(
    deps: LibraryDependencies,
    edges: Seq<EdgeRec>,
    stack: Seq<(String, Option<String>)>,
    extra: Seq<Seq<char>>,
    about: Option<Seq<char>>,
) -> bool {
    forall|i: int|
        0 <= i < edges.len() ==> ((#[trigger] edges[i]).enqueued ==> {
            let f = edges[i].found->0;
            ||| deps.opened_has(f)
            ||| exists|t: int| 0 <= t < stack.len() && (#[trigger] stack[t]).0@ == f
            ||| extra.contains(f)
            ||| about == Some(f)
        })
}

/// Closure provenance: the first opened library is the entry, and every
/// later one was resolved and enqueued by some recorded edge.
#[verifier::opaque]
pub open spec fn opened_prov_in(
    deps: LibraryDependencies,
    edges: Seq<EdgeRec>,
    entry: Seq<char>,
) -> bool {
    &&& (deps.opened_libs@.len() > 0 ==> deps.opened_libs@[0].path@ == entry)
    &&& forall|j: int|
        1 <= j < deps.opened_libs@.len() ==> exists|i: int|
            0 <= i < edges.len() && edge_resolves(
                #[trigger] edges[i],
                (#[trigger] deps.opened_libs@[j]).path@,
            )
}

/// Completeness bookkeeping depends on the accumulator only through the
/// opened libraries.
proof fn lemma_completeness_same_opened(
    pre: LibraryDependencies,
    post: LibraryDependencies,
    edges: Seq<EdgeRec>,
    stack: Seq<(String, Option<String>)>,
    extra: Seq<Seq<char>>,
    except: Option<(Seq<char>, int)>,
)
    requires
        nodes_done_in(pre, edges, except),
        founds_tracked_in(pre, edges, stack, extra, None),
        post.opened_libs == pre.opened_libs,
    ensures
        nodes_done_in(post, edges, except),
        founds_tracked_in(post, edges, stack, extra, None),
{
    reveal(nodes_done_in);
    reveal(founds_tracked_in);
    assert forall|j: int| 0 <= j < post.opened_libs@.len() implies {
        let p = (#[trigger] post.opened_libs@[j]).path@;
        match except {
            None => node_done(post, edges, p),
            Some((q, upto)) => if p == q {
                forall|x: int| 0 <= x < upto ==> #[trigger] edge_recorded(edges, p, x)
            } else {
                node_done(post, edges, p)
            },
        }
    } by {
        let p = post.opened_libs@[j].path@;
        assert(opened_data_at(post, p) == opened_data_at(pre, p));
        assert(pre.opened_libs@[j].path@ == p);
    }
    assert forall|i: int| 0 <= i < edges.len() implies ((#[trigger] edges[i]).enqueued ==> {
        let f = edges[i].found->0;
        ||| post.opened_has(f)
        ||| exists|t: int| 0 <= t < stack.len() && (#[trigger] stack[t]).0@ == f
        ||| extra.contains(f)
        ||| None::<Seq<char>> == Some(f)
    }) by {}
}

/// After an open, every previously opened library is still fully recorded
/// and the new one has no edges yet.
proof fn lemma_nodes_done_after_open(
    pre: LibraryDependencies,
    post: LibraryDependencies,
    edges: Seq<EdgeRec>,
    lib: Library,
)
    requires
        nodes_done_in(pre, edges, None),
        edges_ok_in(pre, edges),
        !pre.opened_has(lib.path@),
        post.opened_libs@ == pre.opened_libs@.push(lib),
    ensures
        nodes_done_in(post, edges, Some((lib.path@, 0))),
{
    reveal(nodes_done_in);
    reveal(edges_ok_in);
    assert forall|j: int| 0 <= j < post.opened_libs@.len() implies {
        let p = (#[trigger] post.opened_libs@[j]).path@;
        if p == lib.path@ {
            forall|x: int| 0 <= x < 0 ==> #[trigger] edge_recorded(edges, p, x)
        } else {
            node_done(post, edges, p)
        }
    } by {
        let p = post.opened_libs@[j].path@;
        if p != lib.path@ {
            assert(j < pre.opened_libs@.len());
            assert(pre.opened_libs@[j].path@ == p);
            assert(node_done(pre, edges, p));
            assert(pre.opened_has(p)) by {
                assert(pre.opened_paths()[j] == p);
            }
            let t = choose|t: int|
                0 <= t < pre.opened_paths().len() && pre.opened_paths()[t] == p;
            assert(pre.opened_libs@[t].path@ == p);
            crate::symbols::lemma_opened_idx_props(pre.opened_libs@, p);
            crate::symbols::lemma_opened_idx_push(pre.opened_libs@, lib, p);
            assert(post.opened_libs@[opened_idx(post.opened_libs@, p)]
                == pre.opened_libs@[opened_idx(pre.opened_libs@, p)]);
            assert(opened_data_at(post, p) == opened_data_at(pre, p));
        }
    }
}

/// After an open, the tracked resolutions that pointed at the library
/// about to be opened now point at an opened one.
proof fn lemma_founds_after_open(
    pre: LibraryDependencies,
    post: LibraryDependencies,
    edges: Seq<EdgeRec>,
    stack: Seq<(String, Option<String>)>,
    pathv: Seq<char>,
    lib: Library,
)
    requires
        founds_tracked_in(pre, edges, stack, Seq::empty(), Some(pathv)),
        post.opened_libs@ == pre.opened_libs@.push(lib),
        lib.path@ == pathv,
    ensures
        founds_tracked_in(post, edges, stack, Seq::empty(), None),
{
    reveal(founds_tracked_in);
    assert forall|i: int| 0 <= i < edges.len() implies ((#[trigger] edges[i]).enqueued ==> {
        let f = edges[i].found->0;
        ||| post.opened_has(f)
        ||| exists|t: int| 0 <= t < stack.len() && (#[trigger] stack[t]).0@ == f
        ||| Seq::<Seq<char>>::empty().contains(f)
        ||| None::<Seq<char>> == Some(f)
    }) by {
        if edges[i].enqueued {
            let f = edges[i].found->0;
            if pre.opened_has(f) {
                let t = choose|t: int|
                    0 <= t < pre.opened_paths().len() && pre.opened_paths()[t] == f;
                assert(post.opened_libs@[t] == pre.opened_libs@[t]);
                assert(post.opened_paths()[t] == f);
            } else if Some(pathv) == Some(f) {
                let n = post.opened_libs@.len() - 1;
                assert(post.opened_paths()[n] == f);
            }
        }
    }
}

/// Recording the edge at the current position advances the completeness
/// frontier of the visited node by one.
proof fn lemma_nodes_done_after_edge(
    deps: LibraryDependencies,
    edges: Seq<EdgeRec>,
    edge: EdgeRec,
    pathv: Seq<char>,
    upto: int,
)
    requires
        nodes_done_in(deps, edges, Some((pathv, upto))),
        edge.dependent == pathv,
        edge.edge_idx == upto,
    ensures
        nodes_done_in(deps, edges.push(edge), Some((pathv, upto + 1))),
{
    reveal(nodes_done_in);
    let newedges = edges.push(edge);
    assert forall|j: int| 0 <= j < deps.opened_libs@.len() implies {
        let p = (#[trigger] deps.opened_libs@[j]).path@;
        if p == pathv {
            forall|x: int| 0 <= x < upto + 1 ==> #[trigger] edge_recorded(newedges, p, x)
        } else {
            node_done(deps, newedges, p)
        }
    } by {
        let p = deps.opened_libs@[j].path@;
        if p == pathv {
            assert forall|x: int| 0 <= x < upto + 1 implies #[trigger] edge_recorded(
                newedges,
                p,
                x,
            ) by {
                if x < upto {
                    assert(edge_recorded(edges, p, x));
                    let i = choose|i: int|
                        0 <= i < edges.len() && (#[trigger] edges[i]).dependent == p
                            && edges[i].edge_idx == x;
                    assert(newedges[i] == edges[i]);
                } else {
                    assert(newedges[edges.len() as int] == edge);
                }
            }
        } else {
            assert forall|x: int|
                0 <= x < needed_spec(opened_data_at(deps, p).dyns).len()
                implies #[trigger] edge_recorded(newedges, p, x) by {
                assert(edge_recorded(edges, p, x));
                let i = choose|i: int|
                    0 <= i < edges.len() && (#[trigger] edges[i]).dependent == p
                        && edges[i].edge_idx == x;
                assert(newedges[i] == edges[i]);
            }
        }
    }
}

/// Recording an edge keeps every tracked resolution accounted for; the new
/// edge's own resolution, when enqueued, is the child about to be
/// collected.
proof fn lemma_founds_after_edge(
    deps: LibraryDependencies,
    edges: Seq<EdgeRec>,
    edge: EdgeRec,
    stack: Seq<(String, Option<String>)>,
    extra: Seq<Seq<char>>,
    about: Option<Seq<char>>,
)
    requires
        founds_tracked_in(deps, edges, stack, extra, None),
        edge.enqueued ==> about == Some(edge.found->0),
    ensures
        founds_tracked_in(deps, edges.push(edge), stack, extra, about),
{
    reveal(founds_tracked_in);
    let newedges = edges.push(edge);
    assert forall|i: int| 0 <= i < newedges.len() implies ((
    #[trigger] newedges[i]).enqueued ==> {
        let f = newedges[i].found->0;
        ||| deps.opened_has(f)
        ||| exists|t: int| 0 <= t < stack.len() && (#[trigger] stack[t]).0@ == f
        ||| extra.contains(f)
        ||| about == Some(f)
    }) by {
        if i < edges.len() {
            assert(newedges[i] == edges[i]);
        } else {
            assert(newedges[i] == edge);
        }
    }
}

/// When the frontier reaches the needed list's end, the visited node is
/// fully recorded.
proof fn lemma_nodes_done_close(
    deps: LibraryDependencies,
    edges: Seq<EdgeRec>,
    pathv: Seq<char>,
    upto: int,
)
    requires
        nodes_done_in(deps, edges, Some((pathv, upto))),
        needed_spec(opened_data_at(deps, pathv).dyns).len() <= upto,
    ensures
        nodes_done_in(deps, edges, None),
{
    reveal(nodes_done_in);
    assert forall|j: int| 0 <= j < deps.opened_libs@.len() implies node_done(
        deps,
        edges,
        (#[trigger] deps.opened_libs@[j]).path@,
    ) by {
        let p = deps.opened_libs@[j].path@;
        if p == pathv {
            assert forall|x: int|
                0 <= x < needed_spec(opened_data_at(deps, p).dyns).len()
                implies #[trigger] edge_recorded(edges, p, x) by {
                assert(0 <= x < upto);
            }
        }
    }
}

/// The assembly state of a visit's location list depends on the
/// accumulator only through the opened libraries, so edge decisions — which
/// never touch them — preserve it.
proof fn lemma_build_state_same_opened(
    pre: LibraryDependencies,
    post: LibraryDependencies,
    methods: Seq<LibSearchMethodV>,
    env: Option<Vec<u8>>,
    path: Seq<char>,
    locs: Seq<LocationV>,
    method_idx: int,
    parts: Seq<Seq<LocationV>>,
    confbase: int,
    pending: bool,
)
    requires
        build_state_ok(pre, methods, env, path, locs, method_idx, parts, confbase, pending),
        post.opened_libs == pre.opened_libs,
    ensures
        build_state_ok(post, methods, env, path, locs, method_idx, parts, confbase, pending),
{
    reveal(build_state_ok);
    assert forall|k: int| 0 <= k < parts.len() implies method_part_ok(
        methods[k],
        post,
        path,
        env,
        #[trigger] parts[k],
    ) by {
        assert(opened_data_at(post, path) == opened_data_at(pre, path));
        assert(method_part_ok(methods[k], pre, path, env, parts[k]));
    }
}

/// The dependent named by any enqueueing edge is itself opened.
pub proof fn lemma_enqueued_dependent_opened(
    deps: LibraryDependencies,
    edges: Seq<EdgeRec>,
    p: Seq<char>,
    c: Seq<char>,
)
    requires
        edges_ok_in(deps, edges),
        enqueued_in(edges, p, c),
    ensures
        deps.opened_has(c),
{
    reveal(edges_ok_in);
    let i = choose|i: int|
        0 <= i < edges.len() && edge_resolves(#[trigger] edges[i], p) && edges[i].dependent == c;
    assert(deps.opened_has(edges[i].dependent));
}

/// A longer log keeps every enqueueing fact of its prefix.
pub proof fn lemma_enqueued_in_push(es: Seq<EdgeRec>, e: EdgeRec, p: Seq<char>, c: Seq<char>)
    requires
        enqueued_in(es, p, c),
    ensures
        enqueued_in(es.push(e), p, c),
{
    let i = choose|i: int|
        0 <= i < es.len() && edge_resolves(#[trigger] es[i], p) && es[i].dependent == c;
    assert(es.push(e)[i] == es[i]);
}

/// The machine. `deps` is the accumulator; `stack` holds the pending visits
/// depth-first, the next on top, each with the dependent that enqueued it;
/// `edges` is the ghost log of every NEEDED edge decided so far.
pub struct Walk {
    pub methods: Vec<LibSearchMethod>,
    pub env_ld_library_path: Option<Vec<u8>>,
    pub entry: String,
    pub deps: LibraryDependencies,
    pub stack: Vec<(String, Option<String>)>,
    pub phase: Phase,
    pub edges: Ghost<Seq<EdgeRec>>,
}

impl Walk {
    /// Which event the machine can take next.
    pub open spec fn expects(self, e: Event) -> bool {
        match self.phase {
            Phase::AwaitLibrary { path, caller } => match e {
                Event::LibraryOpened(r) => r is Ok ==> r->Ok_0.path@ == path@,
                _ => false,
            },
            Phase::AwaitConf { .. } => e is ConfFile,
            Phase::AwaitGlob { .. } => e is GlobPaths,
            Phase::AwaitProbe { v } => match e {
                Event::PathsChecked(bs) => bs@.len() == v.locs@.len(),
                _ => false,
            },
            Phase::Done => false,
            Phase::Failed { .. } => false,
        }
    }

    /// The visit's location list is assembled per method: `build_flat` when
    /// every processed method's part is closed, `build_pending` while a
    /// configuration method's expansion is still collecting directories,
    /// and `build_done` when the whole method list has been walked.
    pub open spec fn build_pending(self, v: VisitCtx) -> bool {
        build_state_ok(
            self.deps,
            self.methods.deep_view(),
            self.env_ld_library_path,
            v.path@,
            v.locs@,
            v.method_idx as int,
            v.parts@,
            v.confbase@,
            true,
        )
    }

    pub open spec fn build_flat(self, v: VisitCtx) -> bool {
        build_state_ok(
            self.deps,
            self.methods.deep_view(),
            self.env_ld_library_path,
            v.path@,
            v.locs@,
            v.method_idx as int,
            v.parts@,
            v.confbase@,
            false,
        )
    }

    pub open spec fn build_done(self, v: VisitCtx) -> bool {
        &&& v.method_idx == self.methods@.len()
        &&& self.build_flat(v)
    }

    /// Phase-specific well-formedness.
    pub open spec fn phase_ok(self) -> bool {
        match self.phase {
            Phase::AwaitLibrary { path, caller } => {
                &&& !self.deps.opened_has(path@)
                &&& (caller is None ==> self.deps.opened_libs@.len() == 0 && path@
                    == self.entry@)
                &&& (caller matches Some(c) ==> self.enqueued_from(path@, c@))
                &&& nodes_done_in(self.deps, self.edges@, None)
                &&& founds_tracked_in(
                    self.deps,
                    self.edges@,
                    self.stack@,
                    Seq::empty(),
                    Some(path@),
                )
            },
            Phase::AwaitConf { v, conf_path } => self.visit_ok(v) && self.build_pending(v)
                && v.edge_idx == 0 && v.children@.len() == 0 && self.during_visit_ok(v),
            Phase::AwaitGlob { v, pattern } => self.visit_ok(v) && self.build_pending(v)
                && v.edge_idx == 0 && v.children@.len() == 0 && self.during_visit_ok(v),
            Phase::AwaitProbe { v } => {
                &&& self.visit_ok(v)
                &&& v.edge_idx < v.info.libs@.len()
                &&& self.build_done(v)
                &&& self.during_visit_ok(v)
            },
            Phase::Done => {
                &&& self.stack@.len() == 0
                &&& nodes_done_in(self.deps, self.edges@, None)
                &&& founds_tracked_in(self.deps, self.edges@, self.stack@, Seq::empty(), None)
            },
            Phase::Failed { .. } => true,
        }
    }

    /// Some recorded edge of the dependent `c` resolved to and enqueued `p`.
    pub open spec fn enqueued_from(self, p: Seq<char>, c: Seq<char>) -> bool {
        enqueued_in(self.edges@, p, c)
    }

    /// The completeness bookkeeping carried through one library's visit:
    /// every other opened library's edges are all recorded, this one's are
    /// recorded up to the current position, and every enqueued resolution
    /// is opened, stacked, or among this visit's children.
    pub open spec fn during_visit_ok(self, v: VisitCtx) -> bool {
        &&& nodes_done_in(self.deps, self.edges@, Some((v.path@, v.edge_idx as int)))
        &&& founds_tracked_in(
            self.deps,
            self.edges@,
            self.stack@,
            v.children.deep_view(),
            None,
        )
    }

    /// What holds of the visit in progress: its node is opened, its needed
    /// list is the one the node's dynamic section carries, and every child
    /// collected so far came from a recorded enqueued edge of this node.
    pub open spec fn visit_ok(self, v: VisitCtx) -> bool {
        visit_ok_in(
            self.deps,
            self.edges@,
            v.path@,
            v.origin@,
            v.info.libs.deep_view(),
            v.info.rpath.deep_view(),
            v.info.runpath.deep_view(),
            v.children.deep_view(),
        )
    }

    /// Every pending visit on the stack was enqueued by the dependent stored
    /// beside it, through a recorded edge.
    pub open spec fn stack_ok(self) -> bool {
        stack_ok_in(self.stack@, self.edges@)
    }

    /// Every recorded edge is sound; see `edges_ok_in`.
    pub open spec fn edges_ok(self) -> bool {
        edges_ok_in(self.deps, self.edges@)
    }

    /// Closure provenance; see `opened_prov_in`.
    pub open spec fn opened_prov(self) -> bool {
        opened_prov_in(self.deps, self.edges@, self.entry@)
    }

    /// Everything the machine maintains apart from the phase.
    pub open spec fn core_ok(self) -> bool {
        &&& self.deps.wf()
        &&& self.stack_ok()
        &&& self.edges_ok()
        &&& self.opened_prov()
        &&& edges_locs_ok_in(
            self.deps,
            self.edges@,
            self.methods.deep_view(),
            self.env_ld_library_path,
        )
    }

    /// The machine's invariant.
    pub open spec fn inv(self) -> bool {
        &&& self.core_ok()
        &&& self.phase_ok()
    }

    /// The accumulator never shrinks: opened libraries, problems and
    /// resolution entries are append-only, and each reverse-dependency list
    /// keeps its prefix — in particular its first element, the first
    /// resolver.
    pub open spec fn deps_extends(new: LibraryDependencies, old: LibraryDependencies) -> bool {
        &&& old.opened_libs@.is_prefix_of(new.opened_libs@)
        &&& old.problems.deep_view().is_prefix_of(new.problems.deep_view())
        &&& old.resolved@.is_prefix_of(new.resolved@)
        &&& old.reverse_dependencies@.len() <= new.reverse_dependencies@.len()
        &&& forall|i: int|
            0 <= i < old.reverse_dependencies@.len() ==> (
            #[trigger] new.reverse_dependencies@[i]).0@ == old.reverse_dependencies@[i].0@ && old
                .reverse_dependencies@[i].1.deep_view().is_prefix_of(
                new.reverse_dependencies@[i].1.deep_view(),
            )
    }

    /// What a probe of the location list resolves a needed name to: the
    /// candidate path under the first directory whose existence answer is
    /// `true`, or nothing when every answer is `false`.
    pub open spec fn probe_result(
        locs: Seq<LocationV>,
        answers: Seq<bool>,
        name: Seq<char>,
    ) -> Option<Seq<char>> {
        if first_true(answers) >= 0 {
            Some(path_join_spec(locs[first_true(answers)].dir, name))
        } else {
            None
        }
    }

    /// The decision of one NEEDED edge, as reflected in the accumulator: at
    /// most one problem record per edge, and a `ResolveConflict` exactly
    /// when the probe resolves the name to a different path than the
    /// first-wins entry.
    pub open spec fn edge_outcome(
        old: LibraryDependencies,
        v: VisitCtx,
        answers: Seq<bool>,
        new: LibraryDependencies,
    ) -> bool {
        let dependent = v.path@;
        let name = v.info.libs@[v.edge_idx as int]@;
        let found = Self::probe_result(v.locs@, answers, name);
        &&& new.opened_libs == old.opened_libs
        &&& new.resolved == old.resolved
        &&& (!old.resolved_has(name) && found is None ==> {
            &&& new.reverse_dependencies == old.reverse_dependencies
            &&& new.problems.deep_view() == old.problems.deep_view().push(
                LibResolveProblemV::Unresolved {
                    dependent_lib: dependent,
                    lib_name: name,
                    locations: v.locs@,
                },
            )
        })
        &&& (!old.resolved_has(name) && found is Some ==> {
            &&& new.reverse_dependencies == old.reverse_dependencies
            &&& new.problems == old.problems
        })
        &&& (old.resolved_has(name) ==> {
            let q = old.resolved_path_of(name);
            let fr = old.first_resolver_of(q);
            &&& (found == Some(q) ==> new.problems == old.problems)
            &&& (found matches Some(p) && p != q ==> new.problems.deep_view()
                == old.problems.deep_view().push(
                LibResolveProblemV::ResolveConflict {
                    dependent_lib: dependent,
                    lib_name: name,
                    resolve_path: found->0,
                    locations: v.locs@,
                    prev_resolved_path: q,
                    first_resolver: fr,
                },
            ))
            &&& (found is None ==> new.problems.deep_view() == old.problems.deep_view().push(
                LibResolveProblemV::UnresolvedButPreviouslyResolved {
                    dependent_lib: dependent,
                    lib_name: name,
                    locations: v.locs@,
                    prev_resolved_path: q,
                    first_resolver: fr,
                },
            ))
        })
    }

    /// What an open event does to the accumulator. A failed open changes
    /// nothing. A successful open appends the library to the visit order,
    /// gives its base-name a first-wins resolution entry unless the name
    /// has one, opens its reverse-dependency list with the enqueueing
    /// dependent when there is one, and records no problem.
    pub open spec fn open_outcome(
        old: LibraryDependencies,
        caller: Option<String>,
        res: Result<Library, LibOpenError>,
        new: LibraryDependencies,
    ) -> bool {
        match res {
            Err(_) => new == old,
            Ok(lib) => {
                &&& new.opened_libs@ == old.opened_libs@.push(lib)
                &&& new.problems == old.problems
                &&& (old.resolved_has(basename_spec(lib.path@)) ==> new.resolved
                    == old.resolved)
                &&& (!old.resolved_has(basename_spec(lib.path@)) ==> {
                    &&& new.resolved@.len() == old.resolved@.len() + 1
                    &&& new.resolved@.drop_last() == old.resolved@
                    &&& new.resolved@.last().0@ == basename_spec(lib.path@)
                    &&& new.resolved@.last().1@ == lib.path@
                })
                &&& (caller is None ==> new.reverse_dependencies
                    == old.reverse_dependencies)
                &&& (caller matches Some(c) ==> {
                    &&& new.reverse_dependencies@.len() == old.reverse_dependencies@.len()
                        + 1
                    &&& new.reverse_dependencies@.drop_last() == old.reverse_dependencies@
                    &&& new.reverse_dependencies@.last().0@ == lib.path@
                    &&& new.reverse_dependencies@.last().1.deep_view() == seq![c@]
                })
            },
        }
    }

    /// The returned action names exactly the phase's pending work, so a
    /// driver can read its next obligation from the action alone: which
    /// file to open, which configuration file to read, which pattern to
    /// expand, or which candidate paths — the location list's candidates
    /// for the current needed name, in order — to test.
    pub open spec fn action_matches(w: Walk, a: Action) -> bool {
        match (w.phase, a) {
            (Phase::AwaitLibrary { path, caller }, Action::OpenLibrary { path: p }) => p@
                == path@,
            (Phase::AwaitConf { v, conf_path }, Action::ReadConfFile { path: p }) => p@
                == conf_path@,
            (Phase::AwaitGlob { v, pattern }, Action::ExpandGlob { pattern: g }) => g@
                == pattern@,
            (Phase::AwaitProbe { v }, Action::CheckPaths { paths }) => {
                &&& paths.deep_view().len() == v.locs@.len()
                &&& forall|i: int|
                    0 <= i < v.locs@.len() ==> paths.deep_view()[i] == path_join_spec(
                        v.locs@[i].dir,
                        v.info.libs@[v.edge_idx as int]@,
                    )
            },
            (Phase::Done, Action::Finished) => true,
            (Phase::Failed { .. }, Action::Failed) => true,
            _ => false,
        }
    }

    /// The events that end the walk in a fault — the fatal error tier: a
    /// failed open, an opened library whose needed dynamic string is
    /// missing, an unreadable configuration file, a failed glob expansion.
    /// Probe answers never fault; their edges are recorded as problems and
    /// the walk continues.
    pub open spec fn event_fails(e: Event) -> bool {
        match e {
            Event::LibraryOpened(res) => match res {
                Err(_) => true,
                Ok(lib) => !dyns_ok(lib.data@.dyns),
            },
            Event::ConfFile(o) => o is None,
            Event::GlobPaths(o) => o is None,
            Event::PathsChecked(_) => false,
        }
    }

    /// The fault phase a failing event leaves behind carries the matching
    /// error: which file could not be read or parsed, which dynamic entry
    /// lacked its string, which configuration file or pattern failed.
    pub open spec fn failed_phase_matches(e: Event, p: Phase) -> bool {
        match e {
            Event::LibraryOpened(res) => match res {
                Err(LibOpenError::NotReadable) => p matches Phase::Failed { error }
                    && error is NotReadable,
                Err(LibOpenError::NotElf) => p matches Phase::Failed { error }
                    && error is NotElf,
                Ok(_) => p matches Phase::Failed { error } && error is BadDynString,
            },
            Event::ConfFile(_) => p matches Phase::Failed { error } && error is ConfUnreadable,
            Event::GlobPaths(_) => p matches Phase::Failed { error } && error is GlobFailed,
            Event::PathsChecked(_) => false,
        }
    }

    /// Starts a walk at the entry file. The first action asks the driver to
    /// open it.
    pub fn new(entry: String, methods: Vec<LibSearchMethod>, env_ld_library_path: Option<Vec<u8>>)
        -> (r: (Walk, Action))
        ensures
            r.0.inv(),
            r.0.entry@ == entry@,
            r.0.deps.opened_libs@.len() == 0,
            r.0.deps.problems@.len() == 0,
            r.0.phase matches Phase::AwaitLibrary { path, caller } && path@ == entry@
                && caller is None,
            Self::action_matches(r.0, r.1),
            r.1 matches Action::OpenLibrary { path } && path@ == entry@,
    {
        let entry2 = entry.clone();
        let w = Walk {
            methods,
            env_ld_library_path,
            entry: entry.clone(),
            deps: LibraryDependencies::new(),
            stack: Vec::new(),
            phase: Phase::AwaitLibrary { path: entry2, caller: None },
            edges: Ghost(Seq::empty()),
        };
        proof {
            assert(w.deps.opened_paths().len() == 0);
            reveal(stack_ok_in);
            reveal(edges_ok_in);
            reveal(opened_prov_in);
            reveal(edges_locs_ok_in);
            reveal(nodes_done_in);
            reveal(founds_tracked_in);
            assert(stack_ok_in(w.stack@, w.edges@));
            assert(edges_ok_in(w.deps, w.edges@));
            assert(opened_prov_in(w.deps, w.edges@, w.entry@));
            assert(edges_locs_ok_in(
                w.deps,
                w.edges@,
                w.methods.deep_view(),
                w.env_ld_library_path,
            ));
            assert(nodes_done_in(w.deps, w.edges@, None));
            assert(founds_tracked_in(w.deps, w.edges@, w.stack@, Seq::empty(), Some(entry@)));
        }
        let a = Action::OpenLibrary { path: entry };
        (w, a)
    }

    /// Takes the next event and advances until the driver is needed again.
    #[verifier::rlimit(80)]
    pub fn step(self, e: Event) -> (r: (Walk, Action))
        requires
            self.inv(),
            self.expects(e),
        ensures
            r.0.inv(),
            Self::deps_extends(r.0.deps, self.deps),
            r.0.entry@ == self.entry@,
            r.0.deps.problems@.len() <= self.deps.problems@.len() + 1,
            !(e is PathsChecked) ==> r.0.deps.problems == self.deps.problems,
            e is ConfFile || e is GlobPaths ==> r.0.deps == self.deps,
            Self::action_matches(r.0, r.1),
            r.1 is Failed <==> Self::event_fails(e),
            r.1 is Failed ==> Self::failed_phase_matches(e, r.0.phase),
            self.phase matches Phase::AwaitLibrary { path, caller } ==> (e matches
                Event::LibraryOpened(res) ==> Self::open_outcome(self.deps, caller, res, r.0.deps)),
            self.phase matches Phase::AwaitProbe { v } ==> (e matches Event::PathsChecked(ans)
                ==> Self::edge_outcome(self.deps, v, ans@, r.0.deps)),
    {
        proof {
            lemma_deps_extends_refl(self.deps);
        }
        match (self.phase, e) {
            (Phase::AwaitLibrary { path, caller }, Event::LibraryOpened(res)) => {
                let w = Walk {
                    methods: self.methods,
                    env_ld_library_path: self.env_ld_library_path,
                    entry: self.entry,
                    deps: self.deps,
                    stack: self.stack,
                    phase: Phase::Done,
                    edges: self.edges,
                };
                w.do_open(path, caller, res)
            },
            (Phase::AwaitConf { v, conf_path }, Event::ConfFile(res)) => {
                let mut w = Walk {
                    methods: self.methods,
                    env_ld_library_path: self.env_ld_library_path,
                    entry: self.entry,
                    deps: self.deps,
                    stack: self.stack,
                    phase: Phase::Done,
                    edges: self.edges,
                };
                match res {
                    None => {
                        w.phase = Phase::Failed {
                            error: SimError::ConfUnreadable { path: conf_path },
                        };
                        (w, Action::Failed)
                    },
                    Some(content) => {
                        let mut v = v;
                        let dirs = parse_conf(content.as_str());
                        v.conf_tasks.push(ConfTask::Steps(dirs, 0));
                        proof {
                            reveal(build_state_ok);
                        }
                        w.go_build(v)
                    },
                }
            },
            (Phase::AwaitGlob { v, pattern }, Event::GlobPaths(res)) => {
                let mut w = Walk {
                    methods: self.methods,
                    env_ld_library_path: self.env_ld_library_path,
                    entry: self.entry,
                    deps: self.deps,
                    stack: self.stack,
                    phase: Phase::Done,
                    edges: self.edges,
                };
                match res {
                    None => {
                        w.phase = Phase::Failed { error: SimError::GlobFailed { pattern } };
                        (w, Action::Failed)
                    },
                    Some(paths) => {
                        let mut v = v;
                        let n = paths.len();
                        let mut i: usize = n;
                        while i > 0
                            invariant
                                0 <= i <= n,
                                n == paths@.len(),
                                w.visit_ok(v),
                                w.build_pending(v),
                                v.edge_idx == 0,
                                v.children@.len() == 0,
                                w.during_visit_ok(v),
                            decreases i,
                        {
                            i -= 1;
                            v.conf_tasks.push(ConfTask::ReadFile(paths[i].clone()));
                        }
                        proof {
                            reveal(build_state_ok);
                        }
                        w.go_build(v)
                    },
                }
            },
            (Phase::AwaitProbe { v }, Event::PathsChecked(answers)) => {
                let w = Walk {
                    methods: self.methods,
                    env_ld_library_path: self.env_ld_library_path,
                    entry: self.entry,
                    deps: self.deps,
                    stack: self.stack,
                    phase: Phase::Done,
                    edges: self.edges,
                };
                w.do_probe(v, answers)
            },
            _ => {
                proof {
                    assert(false);
                }
                let w = Walk {
                    methods: self.methods,
                    env_ld_library_path: self.env_ld_library_path,
                    entry: self.entry,
                    deps: self.deps,
                    stack: self.stack,
                    phase: Phase::Done,
                    edges: self.edges,
                };
                (w, Action::Finished)
            },
        }
    }


    /// Handles the answer to an `OpenLibrary` action.
    fn do_open(self, path: String, caller: Option<String>, res: Result<Library, LibOpenError>)
        -> (r: (Walk, Action))
        requires
            self.core_ok(),
            !self.deps.opened_has(path@),
            caller is None ==> self.deps.opened_libs@.len() == 0 && path@ == self.entry@,
            caller matches Some(c) ==> self.enqueued_from(path@, c@),
            res matches Ok(l) ==> l.path@ == path@,
            nodes_done_in(self.deps, self.edges@, None),
            founds_tracked_in(self.deps, self.edges@, self.stack@, Seq::empty(), Some(path@)),
        ensures
            r.0.inv(),
            Self::deps_extends(r.0.deps, self.deps),
            r.0.entry@ == self.entry@,
            r.0.deps.problems == self.deps.problems,
            Self::action_matches(r.0, r.1),
            Self::open_outcome(self.deps, caller, res, r.0.deps),
            r.1 is Failed <==> (res is Err || (res matches Ok(l) && !dyns_ok(l.data@.dyns))),
            res matches Err(LibOpenError::NotReadable) ==> (r.0.phase matches Phase::Failed {
                error } && error is NotReadable),
            res matches Err(LibOpenError::NotElf) ==> (r.0.phase matches Phase::Failed { error }
                && error is NotElf),
            res matches Ok(l) && !dyns_ok(l.data@.dyns) ==> (r.0.phase matches Phase::Failed {
                error } && error is BadDynString),
    {
        let mut w = self;
        match res {
            Err(LibOpenError::NotReadable) => {
                proof {
                    lemma_deps_extends_refl(w.deps);
                }
                w.phase = Phase::Failed { error: SimError::NotReadable { path } };
                (w, Action::Failed)
            },
            Err(LibOpenError::NotElf) => {
                proof {
                    lemma_deps_extends_refl(w.deps);
                }
                w.phase = Phase::Failed { error: SimError::NotElf { path } };
                (w, Action::Failed)
            },
            Ok(lib) => w.open_ok(path, caller, lib),
        }
    }

    /// Books the opened library into the accumulator and begins its visit.
    #[verifier::rlimit(100)]
    fn open_ok(self, path: String, caller: Option<String>, lib: Library) -> (r: (Walk, Action))
        requires
            self.core_ok(),
            !self.deps.opened_has(path@),
            caller is None ==> self.deps.opened_libs@.len() == 0 && path@ == self.entry@,
            caller matches Some(c) ==> self.enqueued_from(path@, c@),
            lib.path@ == path@,
            nodes_done_in(self.deps, self.edges@, None),
            founds_tracked_in(self.deps, self.edges@, self.stack@, Seq::empty(), Some(path@)),
        ensures
            r.0.inv(),
            Self::deps_extends(r.0.deps, self.deps),
            r.0.entry@ == self.entry@,
            r.0.deps.problems == self.deps.problems,
            Self::action_matches(r.0, r.1),
            Self::open_outcome(self.deps, caller, Ok(lib), r.0.deps),
            r.1 is Failed <==> !dyns_ok(lib.data@.dyns),
            !dyns_ok(lib.data@.dyns) ==> (r.0.phase matches Phase::Failed { error }
                && error is BadDynString),
    {
        let mut w = self;
        let info_or = DynInfo::from_data(&lib.data);
        let ghost predeps = w.deps;
        let ghost libg = lib;
        proof {
            if caller is Some {
                lemma_enqueued_dependent_opened(w.deps, w.edges@, path@, caller->0@);
            }
        }
        w.deps.open_bookkeeping(lib, &caller);
        proof {
            lemma_deps_extends_bookkeeping(w.deps, predeps);
            lemma_core_after_open(predeps, w.deps, w.edges@, libg, caller, w.entry@);
            lemma_edges_locs_after_open(
                predeps,
                w.deps,
                w.edges@,
                w.methods.deep_view(),
                w.env_ld_library_path,
                libg,
            );
            lemma_nodes_done_after_open(predeps, w.deps, w.edges@, libg);
            lemma_founds_after_open(predeps, w.deps, w.edges@, w.stack@, path@, libg);
        }
        match info_or {
            Err(err) => {
                w.phase = Phase::Failed {
                    error: SimError::BadDynString { path, tag: err.tag, val: err.val },
                };
                (w, Action::Failed)
            },
            Ok(info) => {
                let origin = parent_dir(path.as_str());
                let v = VisitCtx {
                    path,
                    origin,
                    info,
                    locs: LibraryLocations::new(),
                    method_idx: 0,
                    conf_tasks: Vec::new(),
                    edge_idx: 0,
                    children: Vec::new(),
                    parts: Ghost(Seq::empty()),
                    confbase: Ghost(0),
                };
                proof {
                    let n = w.deps.opened_libs@.len() - 1;
                    assert(w.deps.opened_paths()[n] == v.path@);
                    assert(opened_data_at(w.deps, v.path@) == libg.data@);
                    reveal(visit_ok_in);
                    assert(v.children.deep_view().len() == 0);
                    assert(w.visit_ok(v));
                    reveal(build_state_ok);
                    assert(flatten_parts(v.parts@) =~= v.locs@);
                    assert(w.build_flat(v));
                    assert(v.children.deep_view() =~= Seq::<Seq<char>>::empty());
                    assert(w.during_visit_ok(v));
                }
                w.go_build(v)
            },
        }
    }

    /// Handles the answers to a `CheckPaths` action: decides the edge.
    #[verifier::rlimit(80)]
    fn do_probe(self, v: VisitCtx, answers: Vec<bool>) -> (r: (Walk, Action))
        requires
            self.core_ok(),
            self.visit_ok(v),
            self.build_done(v),
            self.during_visit_ok(v),
            v.edge_idx < v.info.libs@.len(),
            answers@.len() == v.locs@.len(),
        ensures
            r.0.inv(),
            Self::deps_extends(r.0.deps, self.deps),
            r.0.entry@ == self.entry@,
            r.0.deps.problems@.len() <= self.deps.problems@.len() + 1,
            Self::edge_outcome(self.deps, v, answers@, r.0.deps),
            Self::action_matches(r.0, r.1),
            !(r.1 is Failed),
    {
        let mut w = self;
        let mut v = v;
        proof {
            assert(v.edge_idx < v.info.libs@.len());
            reveal(visit_ok_in);
            assert(w.deps.opened_has(v.path@));
        }
        let name = v.info.libs[v.edge_idx].clone();
        let found = v.locs.try_find_library(name.as_str(), &answers);
        let ghost predeps = w.deps;
        let child = w.deps.decide_edge(&v.path, &name, &v.locs, &found);
        proof {
            lemma_deps_extends_decide(w.deps, predeps);
            assert(Self::edge_outcome(predeps, v, answers@, w.deps));
            assert(found.deep_view() == Walk::probe_result(v.locs@, answers@, name@));
            lemma_build_state_same_opened(
                predeps,
                w.deps,
                w.methods.deep_view(),
                w.env_ld_library_path,
                v.path@,
                v.locs@,
                v.method_idx as int,
                v.parts@,
                v.confbase@,
                false,
            );
            lemma_edges_locs_same_opened(
                predeps,
                w.deps,
                w.edges@,
                w.methods.deep_view(),
                w.env_ld_library_path,
            );
            lemma_completeness_same_opened(
                predeps,
                w.deps,
                w.edges@,
                w.stack@,
                v.children.deep_view(),
                Some((v.path@, v.edge_idx as int)),
            );
        }
        w.log_edge(v, Ghost(answers@), Ghost(predeps), name, found, child)

    }

    /// How much loader-configuration work is pending; consumed task by task.
    pub open spec fn conf_measure(tasks: Seq<ConfTask>) -> int
        decreases tasks.len(),
    {
        if tasks.len() == 0 {
            0
        } else {
            Self::conf_measure(tasks.drop_last()) + Self::conf_task_measure(tasks.last())
        }
    }

    /// The work one pending task stands for.
    pub open spec fn conf_task_measure(t: ConfTask) -> int {
        match t {
            ConfTask::ReadFile(_) => 1int,
            ConfTask::Steps(d, i) => 1int + 2 * (if (i as int) <= d@.len() {
                d@.len() - (i as int)
            } else {
                0int
            }),
        }
    }

    /// Appends the decided edge to the ghost log and re-establishes the
    /// machine's provenance invariants over the grown log.
    #[verifier::rlimit(100)]
    fn log_edge(
        self,
        v: VisitCtx,
        Ghost(answers): Ghost<Seq<bool>>,
        Ghost(pre): Ghost<LibraryDependencies>,
        name: String,
        found: Option<String>,
        child: Option<String>,
    ) -> (r: (Walk, Action))
        requires
            self.deps.wf(),
            edges_ok_in(pre, self.edges@),
            opened_prov_in(pre, self.edges@, self.entry@),
            stack_ok_in(self.stack@, self.edges@),
            edges_locs_ok_in(
                self.deps,
                self.edges@,
                self.methods.deep_view(),
                self.env_ld_library_path,
            ),
            visit_ok_in(
                pre,
                self.edges@,
                v.path@,
                v.origin@,
                v.info.libs.deep_view(),
                v.info.rpath.deep_view(),
                v.info.runpath.deep_view(),
                v.children.deep_view(),
            ),
            self.deps.opened_libs == pre.opened_libs,
            v.edge_idx < v.info.libs@.len(),
            name@ == v.info.libs.deep_view()[v.edge_idx as int],
            found.deep_view() == Walk::probe_result(v.locs@, answers, name@),
            child matches Some(c) ==> found matches Some(f) && c@ == f@,
            child is Some ==> found is Some,
            self.build_done(v),
            v.edge_idx < v.info.libs@.len(),
            nodes_done_in(self.deps, self.edges@, Some((v.path@, v.edge_idx as int))),
            founds_tracked_in(self.deps, self.edges@, self.stack@, v.children.deep_view(), None),
        ensures
            r.0.inv(),
            r.0.deps == self.deps,
            r.0.entry@ == self.entry@,
            Self::action_matches(r.0, r.1),
            !(r.1 is Failed),
    {
        let mut w = self;
        let ghost preedges = w.edges@;
        let ghost edge = EdgeRec {
            dependent: v.path@,
            edge_idx: v.edge_idx as int,
            name: name@,
            locs: v.locs@,
            parts: v.parts@,
            answers: answers,
            found: found.deep_view(),
            enqueued: child is Some,
        };
        proof {
            w.edges@ = preedges.push(edge);
            assert(v.info.libs.deep_view().len() == v.info.libs@.len());
            reveal(build_state_ok);
            lemma_edges_locs_after_edge(
                w.deps,
                preedges,
                edge,
                w.methods.deep_view(),
                w.env_ld_library_path,
            );
            lemma_core_after_edge(
                pre,
                w.deps,
                preedges,
                edge,
                w.stack@,
                w.entry@,
                v.origin@,
                v.info.libs.deep_view(),
                v.info.rpath.deep_view(),
                v.info.runpath.deep_view(),
                v.children.deep_view(),
            );
            if child is Some {
                assert(child->0@ == edge.found->0);
            }
            lemma_nodes_done_after_edge(w.deps, preedges, edge, v.path@, v.edge_idx as int);
            lemma_founds_after_edge(
                w.deps,
                preedges,
                edge,
                w.stack@,
                v.children.deep_view(),
                match &child {
                    Some(c) => Some(c@),
                    None => None,
                },
            );
        }
        w.record_child(v, child)
    }

    /// Appends the decided edge's enqueued child, if any, advances to the
    /// next edge, and resumes probing.
    fn record_child(self, v: VisitCtx, child: Option<String>) -> (r: (Walk, Action))
        requires
            self.core_ok(),
            self.visit_ok(v),
            self.build_done(v),
            v.edge_idx < v.info.libs@.len(),
            child matches Some(c) ==> enqueued_in(self.edges@, c@, v.path@),
            nodes_done_in(self.deps, self.edges@, Some((v.path@, v.edge_idx as int + 1))),
            founds_tracked_in(
                self.deps,
                self.edges@,
                self.stack@,
                v.children.deep_view(),
                match child {
                    Some(c) => Some(c@),
                    None => None,
                },
            ),
        ensures
            r.0.inv(),
            r.0.deps == self.deps,
            r.0.edges == self.edges,
            r.0.entry@ == self.entry@,
            Self::action_matches(r.0, r.1),
            !(r.1 is Failed),
    {
        let w = self;
        let mut v = v;
        let nlibs = v.info.libs.len();
        let ghost prechildren = v.children.deep_view();
        match child {
            Some(c) => {
                v.children.push(c);
            },
            None => {},
        }
        proof {
            assert(v.edge_idx < nlibs);
            reveal(visit_ok_in);
            assert forall|k: int| 0 <= k < v.children.deep_view().len() implies enqueued_in(
                w.edges@,
                #[trigger] v.children.deep_view()[k],
                v.path@,
            ) by {
                if k < prechildren.len() {
                    assert(v.children.deep_view()[k] == prechildren[k]);
                } else {
                    assert(v.children.deep_view()[k] == child->0@);
                }
            }
            reveal(founds_tracked_in);
            assert forall|i: int| 0 <= i < w.edges@.len() implies ((
            #[trigger] w.edges@[i]).enqueued ==> {
                let f = w.edges@[i].found->0;
                ||| w.deps.opened_has(f)
                ||| exists|t: int|
                    0 <= t < w.stack@.len() && (#[trigger] w.stack@[t]).0@ == f
                ||| v.children.deep_view().contains(f)
                ||| None::<Seq<char>> == Some(f)
            }) by {
                if w.edges@[i].enqueued {
                    let f = w.edges@[i].found->0;
                    if prechildren.contains(f) {
                        let k = choose|k: int|
                            0 <= k < prechildren.len() && prechildren[k] == f;
                        assert(v.children.deep_view()[k] == f);
                    } else if child is Some && f == child->0@ {
                        assert(v.children.deep_view()[v.children.deep_view().len() - 1] == f);
                    }
                }
            }
        }
        v.edge_idx += 1;
        w.go_edges(v)
    }

    /// Builds the rest of the visit's location list: drains pending
    /// configuration work, then walks the remaining methods; hands the visit
    /// on to edge probing when both are done.
    fn go_build(self, v: VisitCtx) -> (r: (Walk, Action))
        requires
            self.core_ok(),
            self.visit_ok(v),
            v.parts@.len() <= v.method_idx as int,
            v.method_idx <= self.methods@.len(),
            v.edge_idx == 0,
            v.children@.len() == 0,
            self.during_visit_ok(v),
            v.conf_tasks@.len() > 0 ==> v.parts@.len() < v.method_idx as int,
            v.parts@.len() < v.method_idx as int ==> self.build_pending(v),
            v.parts@.len() == v.method_idx as int ==> self.build_flat(v),
        ensures
            r.0.inv(),
            r.0.deps == self.deps,
            r.0.edges == self.edges,
            r.0.entry@ == self.entry@,
            Self::action_matches(r.0, r.1),
            !(r.1 is Failed),
    {
        let mut w = self;
        let mut v = v;
        let ghost vpath0 = v.path@;
        proof {
            assert(v.children.deep_view() =~= Seq::<Seq<char>>::empty());
        }
        loop
            invariant
                w.core_ok(),
                w.visit_ok(v),
                w.deps == self.deps,
                w.edges == self.edges,
                w.stack == self.stack,
                w.entry@ == self.entry@,
                w.methods@.len() == self.methods@.len(),
                w.methods == self.methods,
                w.env_ld_library_path == self.env_ld_library_path,
                v.parts@.len() <= v.method_idx as int,
                v.method_idx <= w.methods@.len(),
                v.edge_idx == 0,
                v.children@.len() == 0,
                v.path@ == vpath0,
                nodes_done_in(w.deps, w.edges@, Some((vpath0, 0))),
                founds_tracked_in(w.deps, w.edges@, w.stack@, Seq::empty(), None),
                v.conf_tasks@.len() > 0 ==> v.parts@.len() < v.method_idx as int,
                v.parts@.len() < v.method_idx as int ==> w.build_pending(v),
                v.parts@.len() == v.method_idx as int ==> w.build_flat(v),
            decreases (if v.method_idx <= w.methods@.len() {
                w.methods@.len() - v.method_idx
            } else {
                0int
            }), Self::conf_measure(v.conf_tasks@),
        {
            proof {
                lemma_conf_measure_nonneg(v.conf_tasks@);
            }
            if v.conf_tasks.len() > 0 {
                let last = v.conf_tasks.len() - 1;
                let ghost pretasks = v.conf_tasks@;
                let task = v.conf_tasks.remove(last);
                proof {
                    assert(v.conf_tasks@ =~= pretasks.drop_last());
                    assert(pretasks.last() == task);
                    lemma_conf_measure_nonneg(v.conf_tasks@);
                }
                match task {
                    ConfTask::ReadFile(p) => {
                        let p2 = p.clone();
                        proof {
                            assert(v.children.deep_view() =~= Seq::<Seq<char>>::empty());
                        }
                        w.phase = Phase::AwaitConf { v, conf_path: p2 };
                        return (w, Action::ReadConfFile { path: p });
                    },
                    ConfTask::Steps(dirs, idx) => {
                        if idx < dirs.len() {
                            let is_dir = match &dirs[idx] {
                                ConfDirective::Dir(_) => true,
                                ConfDirective::Pattern(_) => false,
                            };
                            if is_dir {
                                let d = match &dirs[idx] {
                                    ConfDirective::Dir(s) => s.clone(),
                                    ConfDirective::Pattern(s) => s.clone(),
                                };
                                let ghost prelocs = v.locs@;
                                v.locs.push_dir(d, OriginTag::LdConfig);
                                let ghost resttasks = v.conf_tasks@;
                                v.conf_tasks.push(ConfTask::Steps(dirs, idx + 1));
                                proof {
                                    assert(v.conf_tasks@.drop_last() =~= resttasks);
                                    lemma_conf_measure_nonneg(v.conf_tasks@);
                                    reveal(build_state_ok);
                                    assert(v.locs@.take(v.confbase@) =~= prelocs.take(
                                        v.confbase@,
                                    ));
                                    assert forall|t: int|
                                        v.confbase@ <= t < v.locs@.len() implies (
                                    #[trigger] v.locs@[t]).tag == OriginTag::LdConfig by {
                                        if t < prelocs.len() {
                                            assert(v.locs@[t] == prelocs[t]);
                                        }
                                    }
                                    assert(w.build_pending(v));
                                }
                            } else {
                                let g = match &dirs[idx] {
                                    ConfDirective::Pattern(s) => s.clone(),
                                    ConfDirective::Dir(s) => s.clone(),
                                };
                                v.conf_tasks.push(ConfTask::Steps(dirs, idx + 1));
                                let g2 = g.clone();
                                proof {
                                    assert(v.children.deep_view()
                                        =~= Seq::<Seq<char>>::empty());
                                }
                                w.phase = Phase::AwaitGlob { v, pattern: g2 };
                                return (w, Action::ExpandGlob { pattern: g });
                            }
                        }
                    },
                }
            } else {
                proof {
                    if v.parts@.len() < v.method_idx as int {
                        reveal(build_state_ok);
                        let tail = v.locs@.skip(v.confbase@);
                        let ghost preparts = v.parts@;
                        v.parts@ = v.parts@.push(tail);
                        lemma_flatten_parts_push(preparts, tail);
                        assert(flatten_parts(preparts) + tail =~= v.locs@);
                        assert(method_part_ok(
                            w.methods.deep_view()[v.method_idx - 1],
                            w.deps,
                            v.path@,
                            w.env_ld_library_path,
                            tail,
                        )) by {
                            assert forall|i: int| 0 <= i < tail.len() implies (
                            #[trigger] tail[i]).tag == OriginTag::LdConfig by {
                                assert(tail[i] == v.locs@[v.confbase@ + i]);
                            }
                        }
                        assert(w.build_flat(v));
                    }
                }
                if v.method_idx < w.methods.len() {
                    let mi = v.method_idx;
                    v.method_idx = mi + 1;
                    let ghost prelocs = v.locs@;
                    let ghost preparts = v.parts@;
                    match &w.methods[mi] {
                        LibSearchMethod::RPath => {
                            let origin = v.origin.clone();
                            v.locs.extend_substituted(
                                &v.info.rpath,
                                origin.as_str(),
                                OriginTag::RPath,
                            );
                            proof {
                                reveal(build_state_ok);
                                reveal(visit_ok_in);
                                let target = rpaths_spec(
                                    opened_data_at(w.deps, v.path@).dyns,
                                ).map_values(
                                    |e: Seq<char>|
                                        LocationV {
                                            dir: substitute_origin_spec(e, parent_spec(v.path@)),
                                            tag: OriginTag::RPath,
                                        },
                                );
                                assert(v.locs@ =~= prelocs + target);
                                v.parts@ = v.parts@.push(target);
                                lemma_flatten_parts_push(preparts, target);
                                assert(w.methods.deep_view()[mi as int]
                                    == LibSearchMethodV::RPath);
                                assert(w.build_flat(v));
                            }
                        },
                        LibSearchMethod::RunPath => {
                            let origin = v.origin.clone();
                            v.locs.extend_substituted(
                                &v.info.runpath,
                                origin.as_str(),
                                OriginTag::RunPath,
                            );
                            proof {
                                reveal(build_state_ok);
                                reveal(visit_ok_in);
                                let target = runpaths_spec(
                                    opened_data_at(w.deps, v.path@).dyns,
                                ).map_values(
                                    |e: Seq<char>|
                                        LocationV {
                                            dir: substitute_origin_spec(e, parent_spec(v.path@)),
                                            tag: OriginTag::RunPath,
                                        },
                                );
                                assert(v.locs@ =~= prelocs + target);
                                v.parts@ = v.parts@.push(target);
                                lemma_flatten_parts_push(preparts, target);
                                assert(w.methods.deep_view()[mi as int]
                                    == LibSearchMethodV::RunPath);
                                assert(w.build_flat(v));
                            }
                        },
                        LibSearchMethod::LDLibraryPath => {
                            match &w.env_ld_library_path {
                                Some(raw) => {
                                    let segs = split_bytes(raw, 58u8);
                                    let ghost target = split_on(raw@, 58u8).map_values(
                                        |seg: Seq<u8>|
                                            LocationV {
                                                dir: lossy_of(seg),
                                                tag: OriginTag::LdLibraryPath,
                                            },
                                    );
                                    let mut si: usize = 0;
                                    let ghost vmidx = v.method_idx;
                                    let ghost vtasks = v.conf_tasks@;
                                    let ghost vpath = v.path@;
                                    proof {
                                        assert(v.locs@ =~= prelocs + target.take(0));
                                    }
                                    while si < segs.len()
                                        invariant
                                            0 <= si <= segs@.len(),
                                            w.visit_ok(v),
                                            v.method_idx == vmidx,
                                            v.conf_tasks@ == vtasks,
                                            v.parts@ == preparts,
                                            v.edge_idx == 0,
                                            v.children@.len() == 0,
                                            v.path@ == vpath,
                                            segs.deep_view() == split_on(
                                                w.env_ld_library_path->0@,
                                                58u8,
                                            ),
                                            target == split_on(
                                                w.env_ld_library_path->0@,
                                                58u8,
                                            ).map_values(
                                                |seg: Seq<u8>|
                                                    LocationV {
                                                        dir: lossy_of(seg),
                                                        tag: OriginTag::LdLibraryPath,
                                                    },
                                            ),
                                            v.locs@ == prelocs + target.take(si as int),
                                        decreases segs@.len() - si,
                                    {
                                        let dir = bytes_to_string_lossy(&segs[si]);
                                        v.locs.push_dir(dir, OriginTag::LdLibraryPath);
                                        proof {
                                            assert(segs.deep_view()[si as int]
                                                == segs@[si as int]@);
                                            assert(v.locs@ =~= prelocs + target.take(si + 1));
                                        }
                                        si += 1;
                                    }
                                    proof {
                                        reveal(build_state_ok);
                                        assert(target.take(segs@.len() as int) =~= target);
                                        v.parts@ = v.parts@.push(target);
                                        lemma_flatten_parts_push(preparts, target);
                                        assert(w.methods.deep_view()[mi as int]
                                            == LibSearchMethodV::LDLibraryPath);
                                        assert(w.build_flat(v));
                                    }
                                },
                                None => {
                                    proof {
                                        reveal(build_state_ok);
                                        v.parts@ = v.parts@.push(Seq::empty());
                                        lemma_flatten_parts_push(preparts, Seq::empty());
                                        assert(prelocs + Seq::<LocationV>::empty() =~= prelocs);
                                        assert(w.methods.deep_view()[mi as int]
                                            == LibSearchMethodV::LDLibraryPath);
                                        assert(w.build_flat(v));
                                    }
                                },
                            }
                        },
                        LibSearchMethod::LDConfig(p0) => {
                            let p = p0.clone();
                            v.conf_tasks.push(ConfTask::ReadFile(p));
                            proof {
                                assert(v.conf_tasks@.drop_last() =~= Seq::<ConfTask>::empty());
                                lemma_conf_measure_nonneg(v.conf_tasks@);
                                reveal(build_state_ok);
                                v.confbase@ = v.locs@.len() as int;
                                assert(v.locs@.take(v.confbase@) =~= v.locs@);
                                assert(w.methods.deep_view()[mi as int] is LDConfig);
                                assert(w.build_pending(v));
                            }
                        },
                        LibSearchMethod::Fixed(p0) => {
                            let p = p0.clone();
                            let ghost pv = p@;
                            v.locs.push_dir(p, OriginTag::Fixed);
                            proof {
                                reveal(build_state_ok);
                                let target = seq![LocationV { dir: pv, tag: OriginTag::Fixed }];
                                assert(v.locs@ =~= prelocs + target);
                                v.parts@ = v.parts@.push(target);
                                lemma_flatten_parts_push(preparts, target);
                                assert(w.methods.deep_view()[mi as int]
                                    == LibSearchMethodV::Fixed(pv));
                                assert(w.build_flat(v));
                            }
                        },
                    }
                } else {
                    proof {
                        assert(v.children.deep_view() =~= Seq::<Seq<char>>::empty());
                    }
                    return w.go_edges(v);
                }
            }
        }
    }

    /// Probes the next NEEDED edge, or finishes the node when all edges are
    /// decided.
    fn go_edges(self, v: VisitCtx) -> (r: (Walk, Action))
        requires
            self.core_ok(),
            self.visit_ok(v),
            self.build_done(v),
            self.during_visit_ok(v),
        ensures
            r.0.inv(),
            r.0.deps == self.deps,
            r.0.edges == self.edges,
            r.0.entry@ == self.entry@,
            Self::action_matches(r.0, r.1),
            !(r.1 is Failed),
    {
        let mut w = self;
        if v.edge_idx < v.info.libs.len() {
            let name = v.info.libs[v.edge_idx].clone();
            let candidates = v.locs.candidate_paths(name.as_str());
            w.phase = Phase::AwaitProbe { v };
            (w, Action::CheckPaths { paths: candidates })
        } else {
            let mut v = v;
            let n = v.children.len();
            let mut i: usize = n;
            let path = v.path.clone();
            let ghost children = v.children@;
            proof {
                reveal(visit_ok_in);
                lemma_nodes_done_close(w.deps, w.edges@, v.path@, v.edge_idx as int);
                assert(v.children.deep_view().take(n as int) =~= v.children.deep_view());
            }
            while i > 0
                invariant
                    0 <= i <= n,
                    n == v.children@.len(),
                    v.children@ == children,
                    v.path@ == path@,
                    w.core_ok(),
                    w.visit_ok(v),
                    w.deps == self.deps,
                    w.edges == self.edges,
                    w.entry@ == self.entry@,
                    nodes_done_in(w.deps, w.edges@, None),
                    founds_tracked_in(
                        w.deps,
                        w.edges@,
                        w.stack@,
                        v.children.deep_view().take(i as int),
                        None,
                    ),
                decreases i,
            {
                i -= 1;
                let child = v.children[i].clone();
                let dep = Some(path.clone());
                let ghost prestack = w.stack@;
                w.stack.push((child, dep));
                proof {
                    reveal(visit_ok_in);
                    reveal(stack_ok_in);
                    assert(child@ == v.children.deep_view()[i as int]);
                    assert(enqueued_in(w.edges@, child@, v.path@));
                    assert forall|k: int| 0 <= k < w.stack@.len() implies {
                        let en = #[trigger] w.stack@[k];
                        &&& en.1 is Some
                        &&& enqueued_in(w.edges@, en.0@, en.1->0@)
                    } by {
                        if k < prestack.len() {
                            assert(w.stack@[k] == prestack[k]);
                        } else {
                            assert(w.stack@[k] == (child, dep));
                        }
                    }
                    reveal(founds_tracked_in);
                    assert forall|t: int| 0 <= t < w.edges@.len() implies ((
                    #[trigger] w.edges@[t]).enqueued ==> {
                        let f = w.edges@[t].found->0;
                        ||| w.deps.opened_has(f)
                        ||| exists|u: int|
                            0 <= u < w.stack@.len() && (#[trigger] w.stack@[u]).0@ == f
                        ||| v.children.deep_view().take(i as int).contains(f)
                        ||| None::<Seq<char>> == Some(f)
                    }) by {
                        if w.edges@[t].enqueued {
                            let f = w.edges@[t].found->0;
                            if exists|u: int|
                                0 <= u < prestack.len() && (#[trigger] prestack[u]).0@ == f {
                                let u = choose|u: int|
                                    0 <= u < prestack.len() && (#[trigger] prestack[u]).0@
                                        == f;
                                assert(w.stack@[u] == prestack[u]);
                            } else if v.children.deep_view().take(i + 1).contains(f) {
                                let k = choose|k: int|
                                    #![trigger v.children.deep_view().take(i + 1)[k]]
                                    0 <= k < i + 1 && v.children.deep_view().take(i + 1)[k]
                                        == f;
                                if k == i as int {
                                    assert(w.stack@[w.stack@.len() - 1].0@ == child@);
                                    assert(child@ == f);
                                } else {
                                    assert(v.children.deep_view().take(i as int)[k] == f);
                                }
                            }
                        }
                    }
                }
            }
            proof {
                assert(v.children.deep_view().take(0) =~= Seq::<Seq<char>>::empty());
            }
            w.go_next()
        }
    }

    /// Pops pending visits until one is unopened, then asks for it; the walk
    /// is finished when the stack drains.
    fn go_next(self) -> (r: (Walk, Action))
        requires
            self.core_ok(),
            nodes_done_in(self.deps, self.edges@, None),
            founds_tracked_in(self.deps, self.edges@, self.stack@, Seq::empty(), None),
        ensures
            r.0.inv(),
            r.0.deps == self.deps,
            r.0.edges == self.edges,
            r.0.entry@ == self.entry@,
            Self::action_matches(r.0, r.1),
            !(r.1 is Failed),
    {
        let mut w = self;
        loop
            invariant
                w.core_ok(),
                w.deps == self.deps,
                w.edges == self.edges,
                w.entry@ == self.entry@,
                nodes_done_in(w.deps, w.edges@, None),
                founds_tracked_in(w.deps, w.edges@, w.stack@, Seq::empty(), None),
            decreases w.stack@.len(),
        {
            let ghost prestack = w.stack@;
            match w.stack.pop() {
                None => {
                    w.phase = Phase::Done;
                    return (w, Action::Finished);
                },
                Some((path, caller)) => {
                    proof {
                        reveal(stack_ok_in);
                        assert(prestack[prestack.len() - 1].1 is Some);
                        assert(enqueued_in(w.edges@, path@, caller->0@));
                        assert forall|k: int| 0 <= k < w.stack@.len() implies {
                            let en = #[trigger] w.stack@[k];
                            &&& en.1 is Some
                            &&& enqueued_in(w.edges@, en.0@, en.1->0@)
                        } by {
                            assert(w.stack@[k] == prestack[k]);
                        }
                    }
                    let was_opened = w.deps.opened_contains(&path);
                    proof {
                        reveal(founds_tracked_in);
                        assert forall|t: int| 0 <= t < w.edges@.len() implies ((
                        #[trigger] w.edges@[t]).enqueued ==> {
                            let f = w.edges@[t].found->0;
                            ||| w.deps.opened_has(f)
                            ||| exists|u: int|
                                0 <= u < w.stack@.len() && (#[trigger] w.stack@[u]).0@ == f
                            ||| Seq::<Seq<char>>::empty().contains(f)
                            ||| (if was_opened {
                                None::<Seq<char>>
                            } else {
                                Some(path@)
                            }) == Some(f)
                        }) by {
                            if w.edges@[t].enqueued {
                                let f = w.edges@[t].found->0;
                                if exists|u: int|
                                    0 <= u < prestack.len() && (#[trigger] prestack[u]).0@
                                        == f {
                                    let u = choose|u: int|
                                        0 <= u < prestack.len() && (#[trigger] prestack[u]).0@
                                            == f;
                                    if u < w.stack@.len() {
                                        assert(w.stack@[u] == prestack[u]);
                                    } else {
                                        assert(prestack[u].0@ == path@);
                                    }
                                }
                            }
                        }
                    }
                    if !was_opened {
                        let p2 = path.clone();
                        w.phase = Phase::AwaitLibrary { path, caller };
                        return (w, Action::OpenLibrary { path: p2 });
                    }
                },
            }
        }
    }
}

/// The edge log's location assembly depends on the accumulator only
/// through the opened libraries.
proof fn lemma_edges_locs_same_opened(
    pre: LibraryDependencies,
    post: LibraryDependencies,
    edges: Seq<EdgeRec>,
    methods: Seq<LibSearchMethodV>,
    env: Option<Vec<u8>>,
)
    requires
        edges_locs_ok_in(pre, edges, methods, env),
        post.opened_libs == pre.opened_libs,
    ensures
        edges_locs_ok_in(post, edges, methods, env),
{
    reveal(edges_locs_ok_in);
    assert forall|i: int| 0 <= i < edges.len() implies {
        let e = #[trigger] edges[i];
        &&& e.parts.len() == methods.len()
        &&& e.locs == flatten_parts(e.parts)
        &&& forall|k: int|
            0 <= k < methods.len() ==> method_part_ok(
                methods[k],
                post,
                e.dependent,
                env,
                #[trigger] e.parts[k],
            )
    } by {
        let e = edges[i];
        assert forall|k: int| 0 <= k < methods.len() implies method_part_ok(
            methods[k],
            post,
            e.dependent,
            env,
            #[trigger] e.parts[k],
        ) by {
            assert(opened_data_at(post, e.dependent) == opened_data_at(pre, e.dependent));
            assert(method_part_ok(methods[k], pre, e.dependent, env, e.parts[k]));
        }
    }
}

/// Opening a new library leaves every recorded edge's location assembly
/// intact: the dependents' dynamic data sits at unchanged indices.
proof fn lemma_edges_locs_after_open(
    pre: LibraryDependencies,
    post: LibraryDependencies,
    edges: Seq<EdgeRec>,
    methods: Seq<LibSearchMethodV>,
    env: Option<Vec<u8>>,
    lib: Library,
)
    requires
        edges_locs_ok_in(pre, edges, methods, env),
        edges_ok_in(pre, edges),
        post.opened_libs@ == pre.opened_libs@.push(lib),
    ensures
        edges_locs_ok_in(post, edges, methods, env),
{
    reveal(edges_locs_ok_in);
    reveal(edges_ok_in);
    assert forall|i: int| 0 <= i < edges.len() implies {
        let e = #[trigger] edges[i];
        &&& e.parts.len() == methods.len()
        &&& e.locs == flatten_parts(e.parts)
        &&& forall|k: int|
            0 <= k < methods.len() ==> method_part_ok(
                methods[k],
                post,
                e.dependent,
                env,
                #[trigger] e.parts[k],
            )
    } by {
        let e = edges[i];
        assert(pre.opened_has(e.dependent));
        let t = choose|t: int|
            0 <= t < pre.opened_paths().len() && pre.opened_paths()[t] == e.dependent;
        assert(pre.opened_libs@[t].path@ == e.dependent);
        crate::symbols::lemma_opened_idx_props(pre.opened_libs@, e.dependent);
        crate::symbols::lemma_opened_idx_push(pre.opened_libs@, lib, e.dependent);
        assert(post.opened_libs@[opened_idx(post.opened_libs@, e.dependent)]
            == pre.opened_libs@[opened_idx(pre.opened_libs@, e.dependent)]);
        assert forall|k: int| 0 <= k < methods.len() implies method_part_ok(
            methods[k],
            post,
            e.dependent,
            env,
            #[trigger] e.parts[k],
        ) by {
            assert(opened_data_at(post, e.dependent) == opened_data_at(pre, e.dependent));
            assert(method_part_ok(methods[k], pre, e.dependent, env, e.parts[k]));
        }
    }
}

/// Recording one edge whose parts assemble its location list extends the
/// log's assembly soundness.
proof fn lemma_edges_locs_after_edge(
    deps: LibraryDependencies,
    edges: Seq<EdgeRec>,
    edge: EdgeRec,
    methods: Seq<LibSearchMethodV>,
    env: Option<Vec<u8>>,
)
    requires
        edges_locs_ok_in(deps, edges, methods, env),
        edge.parts.len() == methods.len(),
        edge.locs == flatten_parts(edge.parts),
        forall|k: int|
            0 <= k < methods.len() ==> method_part_ok(
                methods[k],
                deps,
                edge.dependent,
                env,
                #[trigger] edge.parts[k],
            ),
    ensures
        edges_locs_ok_in(deps, edges.push(edge), methods, env),
{
    reveal(edges_locs_ok_in);
    assert forall|i: int| 0 <= i < edges.push(edge).len() implies {
        let e = #[trigger] edges.push(edge)[i];
        &&& e.parts.len() == methods.len()
        &&& e.locs == flatten_parts(e.parts)
        &&& forall|k: int|
            0 <= k < methods.len() ==> method_part_ok(
                methods[k],
                deps,
                e.dependent,
                env,
                #[trigger] e.parts[k],
            )
    } by {
        if i < edges.len() {
            assert(edges.push(edge)[i] == edges[i]);
        } else {
            assert(edges.push(edge)[i] == edge);
        }
    }
}

/// Opening a new library preserves the soundness of the edge log and the
/// provenance of the opened list.
proof fn lemma_core_after_open(
    pre: LibraryDependencies,
    post: LibraryDependencies,
    edges: Seq<EdgeRec>,
    lib: Library,
    caller: Option<String>,
    entry: Seq<char>,
)
    requires
        edges_ok_in(pre, edges),
        opened_prov_in(pre, edges, entry),
        !pre.opened_has(lib.path@),
        post.opened_libs@ == pre.opened_libs@.push(lib),
        caller is None ==> pre.opened_libs@.len() == 0 && lib.path@ == entry,
        caller matches Some(c) ==> enqueued_in(edges, lib.path@, c@),
    ensures
        edges_ok_in(post, edges),
        opened_prov_in(post, edges, entry),
        opened_data_at(post, lib.path@) == lib.data@,
{
    reveal(edges_ok_in);
    reveal(opened_prov_in);
    let n = post.opened_libs@.len() - 1;
    assert(post.opened_libs@[n] == lib);
    assert(post.opened_paths()[n] == lib.path@);
    assert forall|i: int| 0 <= i < edges.len() implies {
        let e = #[trigger] edges[i];
        let nd = needed_spec(opened_data_at(post, e.dependent).dyns);
        &&& post.opened_has(e.dependent)
        &&& 0 <= e.edge_idx < nd.len()
        &&& e.name == nd[e.edge_idx]
        &&& e.found == Walk::probe_result(e.locs, e.answers, e.name)
        &&& (e.enqueued ==> e.found is Some)
    } by {
        let e = edges[i];
        assert(pre.opened_has(e.dependent));
        let t = choose|t: int|
            0 <= t < pre.opened_paths().len() && pre.opened_paths()[t] == e.dependent;
        assert(pre.opened_libs@[t].path@ == e.dependent);
        assert(post.opened_libs@[t] == pre.opened_libs@[t]);
        assert(post.opened_paths()[t] == e.dependent);
        crate::symbols::lemma_opened_idx_props(pre.opened_libs@, e.dependent);
        crate::symbols::lemma_opened_idx_push(pre.opened_libs@, lib, e.dependent);
        assert(post.opened_libs@[opened_idx(post.opened_libs@, e.dependent)]
            == pre.opened_libs@[opened_idx(pre.opened_libs@, e.dependent)]);
    }
    if pre.opened_libs@.len() == 0 && caller is Some {
        let i = choose|i: int|
            0 <= i < edges.len() && edge_resolves(#[trigger] edges[i], lib.path@)
                && edges[i].dependent == caller->0@;
        assert(pre.opened_has(edges[i].dependent));
        assert(false);
    }
    assert forall|j: int| 1 <= j < post.opened_libs@.len() implies exists|i: int|
        0 <= i < edges.len() && edge_resolves(
            #[trigger] edges[i],
            (#[trigger] post.opened_libs@[j]).path@,
        ) by {
        if j < pre.opened_libs@.len() {
            assert(post.opened_libs@[j] == pre.opened_libs@[j]);
            let i = choose|i: int|
                0 <= i < edges.len() && edge_resolves(
                    #[trigger] edges[i],
                    pre.opened_libs@[j].path@,
                );
            assert(edge_resolves(edges[i], post.opened_libs@[j].path@));
        } else {
            assert(caller is Some);
            let i = choose|i: int|
                0 <= i < edges.len() && edge_resolves(#[trigger] edges[i], lib.path@)
                    && edges[i].dependent == caller->0@;
            assert(edge_resolves(edges[i], post.opened_libs@[j].path@));
        }
    }
    assert forall|k: int| 0 <= k < n implies (#[trigger] post.opened_libs@[k]).path@
        != lib.path@ by {
        assert(post.opened_libs@[k] == pre.opened_libs@[k]);
        if pre.opened_libs@[k].path@ == lib.path@ {
            assert(pre.opened_paths()[k] == lib.path@);
        }
    }
    crate::symbols::lemma_opened_idx_at(post.opened_libs@, lib.path@, n);
}

/// Recording one more sound edge preserves the edge log's soundness, the
/// provenance of the opened list, and the stack's provenance.
proof fn lemma_core_after_edge(
    pre: LibraryDependencies,
    post: LibraryDependencies,
    edges: Seq<EdgeRec>,
    edge: EdgeRec,
    stack: Seq<(String, Option<String>)>,
    entry: Seq<char>,
    origin: Seq<char>,
    needed: Seq<Seq<char>>,
    rpaths: Seq<Seq<char>>,
    runpaths: Seq<Seq<char>>,
    children: Seq<Seq<char>>,
)
    requires
        edges_ok_in(pre, edges),
        opened_prov_in(pre, edges, entry),
        stack_ok_in(stack, edges),
        visit_ok_in(pre, edges, edge.dependent, origin, needed, rpaths, runpaths, children),
        post.opened_libs == pre.opened_libs,
        0 <= edge.edge_idx < needed.len(),
        edge.name == needed[edge.edge_idx],
        edge.found == Walk::probe_result(edge.locs, edge.answers, edge.name),
        edge.enqueued ==> edge.found is Some,
    ensures
        edges_ok_in(post, edges.push(edge)),
        opened_prov_in(post, edges.push(edge), entry),
        stack_ok_in(stack, edges.push(edge)),
        visit_ok_in(post, edges.push(edge), edge.dependent, origin, needed, rpaths, runpaths, children),
        edge.enqueued ==> enqueued_in(edges.push(edge), edge.found->0, edge.dependent),
{
    reveal(edges_ok_in);
    reveal(opened_prov_in);
    reveal(stack_ok_in);
    reveal(visit_ok_in);
    let newedges = edges.push(edge);
    assert(pre.opened_has(edge.dependent));
    assert(opened_data_at(post, edge.dependent) == opened_data_at(pre, edge.dependent));
    assert forall|k: int| 0 <= k < children.len() implies enqueued_in(
        newedges,
        #[trigger] children[k],
        edge.dependent,
    ) by {
        lemma_enqueued_in_push(edges, edge, children[k], edge.dependent);
    }
    if edge.enqueued {
        assert(edge_resolves(edge, edge.found->0));
        assert(newedges[edges.len() as int] == edge);
    }
    assert forall|i: int| 0 <= i < newedges.len() implies {
        let e = #[trigger] newedges[i];
        let nd = needed_spec(opened_data_at(post, e.dependent).dyns);
        &&& post.opened_has(e.dependent)
        &&& 0 <= e.edge_idx < nd.len()
        &&& e.name == nd[e.edge_idx]
        &&& e.found == Walk::probe_result(e.locs, e.answers, e.name)
        &&& (e.enqueued ==> e.found is Some)
    } by {
        if i < edges.len() {
            assert(newedges[i] == edges[i]);
            assert(opened_data_at(post, edges[i].dependent) == opened_data_at(
                pre,
                edges[i].dependent,
            ));
        } else {
            assert(newedges[i] == edge);
            assert(opened_data_at(post, edge.dependent) == opened_data_at(pre, edge.dependent));
        }
    }
    assert forall|j: int| 1 <= j < post.opened_libs@.len() implies exists|i: int|
        0 <= i < newedges.len() && edge_resolves(
            #[trigger] newedges[i],
            (#[trigger] post.opened_libs@[j]).path@,
        ) by {
        assert(post.opened_libs@ == pre.opened_libs@);
        let i = choose|i: int|
            0 <= i < edges.len() && edge_resolves(
                #[trigger] edges[i],
                pre.opened_libs@[j].path@,
            );
        assert(edge_resolves(newedges[i], post.opened_libs@[j].path@));
    }
    assert forall|t: int| 0 <= t < stack.len() implies {
        let en = #[trigger] stack[t];
        &&& en.1 is Some
        &&& enqueued_in(newedges, en.0@, en.1->0@)
    } by {
        lemma_enqueued_in_push(edges, edge, stack[t].0@, stack[t].1->0@);
    }
}

/// The accumulator extends itself.
proof fn lemma_deps_extends_refl(d: LibraryDependencies)
    ensures
        Walk::deps_extends(d, d),
{
    crate::deps::lemma_prefix_refl(d.opened_libs@);
    crate::deps::lemma_prefix_refl(d.problems.deep_view());
    crate::deps::lemma_prefix_refl(d.resolved@);
    assert forall|i: int| 0 <= i < d.reverse_dependencies@.len() implies (
    #[trigger] d.reverse_dependencies@[i]).0@ == d.reverse_dependencies@[i].0@ && d
        .reverse_dependencies@[i].1.deep_view().is_prefix_of(
        d.reverse_dependencies@[i].1.deep_view(),
    ) by {
        crate::deps::lemma_prefix_refl(d.reverse_dependencies@[i].1.deep_view());
    }
}

/// Opening a library only appends to the accumulator.
proof fn lemma_deps_extends_bookkeeping(new: LibraryDependencies, old: LibraryDependencies)
    requires
        new.opened_libs@.len() == old.opened_libs@.len() + 1,
        new.opened_libs@.drop_last() =~= old.opened_libs@,
        new.problems == old.problems,
        new.resolved@ == old.resolved@ || (new.resolved@.len() == old.resolved@.len() + 1
            && new.resolved@.drop_last() =~= old.resolved@),
        new.reverse_dependencies@ == old.reverse_dependencies@ || (
        new.reverse_dependencies@.len() == old.reverse_dependencies@.len() + 1
            && new.reverse_dependencies@.drop_last() =~= old.reverse_dependencies@),
    ensures
        Walk::deps_extends(new, old),
{
    crate::deps::lemma_prefix_refl(new.problems.deep_view());
    assert(old.opened_libs@.is_prefix_of(new.opened_libs@)) by {
        assert(old.opened_libs@ =~= new.opened_libs@.take(old.opened_libs@.len() as int));
    }
    assert(old.resolved@.is_prefix_of(new.resolved@)) by {
        if new.resolved@.len() == old.resolved@.len() + 1 {
            assert(old.resolved@ =~= new.resolved@.take(old.resolved@.len() as int));
        } else {
            crate::deps::lemma_prefix_refl(old.resolved@);
        }
    }
    assert forall|i: int| 0 <= i < old.reverse_dependencies@.len() implies (
    #[trigger] new.reverse_dependencies@[i]).0@ == old.reverse_dependencies@[i].0@ && old
        .reverse_dependencies@[i].1.deep_view().is_prefix_of(
        new.reverse_dependencies@[i].1.deep_view(),
    ) by {
        if new.reverse_dependencies@.len() == old.reverse_dependencies@.len() + 1 {
            assert(new.reverse_dependencies@.drop_last()[i] == new.reverse_dependencies@[i]);
        }
        assert(new.reverse_dependencies@[i] == old.reverse_dependencies@[i]);
        crate::deps::lemma_prefix_refl(old.reverse_dependencies@[i].1.deep_view());
    }
}

/// Deciding an edge only appends to the accumulator.
proof fn lemma_deps_extends_decide(new: LibraryDependencies, old: LibraryDependencies)
    requires
        new.opened_libs == old.opened_libs,
        new.resolved == old.resolved,
        old.problems.deep_view().is_prefix_of(new.problems.deep_view()),
        new.reverse_dependencies@.len() == old.reverse_dependencies@.len(),
        forall|i: int|
            0 <= i < old.reverse_dependencies@.len() ==> (
            #[trigger] new.reverse_dependencies@[i]).0@ == old.reverse_dependencies@[i].0@ && old
                .reverse_dependencies@[i].1.deep_view().is_prefix_of(
                new.reverse_dependencies@[i].1.deep_view(),
            ),
    ensures
        Walk::deps_extends(new, old),
{
    crate::deps::lemma_prefix_refl(new.opened_libs@);
    crate::deps::lemma_prefix_refl(new.resolved@);
}

/// The pending configuration work is never negative.
proof fn lemma_conf_measure_nonneg(tasks: Seq<ConfTask>)
    ensures
        Walk::conf_measure(tasks) >= 0,
    decreases tasks.len(),
{
    if tasks.len() > 0 {
        lemma_conf_measure_nonneg(tasks.drop_last());
    }
}

} // verus!
