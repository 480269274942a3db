use crate::crates::ChromiumVendoredCrate;
use crate::crates::Epoch;
use crate::crates::Version;
use crate::platforms::Platform;
use crate::platforms::PlatformSet;
use crate::platforms::PlatformSetV;
use crate::platforms::PlatformV;
use crate::platforms::clone_platform;
use crate::platforms::contains_platform;
use crate::platforms::filter_platform_spec;
use crate::platforms::filter_unsupported_platform_terms;
use crate::platforms::matches_supported_target;
use crate::platforms::platform_matches_supported;
use crate::text::str_eq;
use vstd::prelude::*;

verus! {

/// The ways one package can depend on another: as a normal dependency, only
/// for build scripts, or only for development and tests.
#[derive(Clone, Copy, Debug, PartialEq, Eq, Structural, Hash)]
pub enum DependencyKind {
    Normal,
    Development,
    Build,
    Unknown,
}

/// One (kind, optional platform filter) pair on a dependency edge of a
/// resolved graph node.
#[derive(Debug)]
pub struct DepKindInfo {
    pub kind: DependencyKind,
    pub target: Option<Platform>,
}

/// A dependency edge of a resolved graph node: the id of the package
/// depended on, and the kinds of dependence.
#[derive(Debug)]
pub struct NodeDep {
    pub pkg: String,
    pub dep_kinds: Vec<DepKindInfo>,
}

/// A node of the resolved dependency graph: a package id, the features
/// resolved for it, and its outgoing dependency edges.
#[derive(Debug)]
pub struct Node {
    pub id: String,
    pub features: Vec<String>,
    pub deps: Vec<NodeDep>,
}

/// A build target declared by a package, with its kind strings and the path
/// of its root source file.
#[derive(Debug)]
pub struct PackageTarget {
    pub kinds: Vec<String>,
    pub name: String,
    pub src_path: String,
}

/// Per-package metadata from the resolved graph: identity, version, declared
/// targets, and where the package came from (`None` for a local path).
#[derive(Debug)]
pub struct PackageMeta {
    pub id: String,
    pub name: String,
    pub version: Version,
    pub targets: Vec<PackageTarget>,
    pub source: Option<String>,
}

/// A resolved dependency graph: the package table, the resolved nodes, the
/// id of the root package, and the ids of the workspace members.
#[derive(Debug)]
pub struct Metadata {
    pub packages: Vec<PackageMeta>,
    pub nodes: Vec<Node>,
    pub root: String,
    pub workspace_members: Vec<String>,
}

/// Failures over a malformed resolved graph. The input is produced by a
/// trusted resolver, so all of these abort the run.
#[derive(Clone, Copy, Debug, PartialEq, Eq, Structural)]
pub enum GraphError {
    /// Two nodes carry the same package id.
    DuplicateNodeId,
    /// An edge or root names a package id with no node.
    MissingNode,
    /// A node's package id has no entry in the package table.
    MissingPackage,
    /// A package declares more than one library target.
    DuplicateLibTarget,
    /// A package declares more than one build script.
    DuplicateBuildScript,
    /// A dependency edge has an unrecognized kind.
    UnknownDependencyKind,
}

/// The first node index whose id is `id`, or -1 if there is none.
pub open spec fn find_node_idx(nodes: Seq<Node>, id: Seq<char>) -> int
    decreases nodes.len(),
{
    if nodes.len() == 0 {
        -1
    } else if nodes[0].id@ == id {
        0
    } else {
        let r = find_node_idx(nodes.drop_first(), id);
        if r < 0 {
            -1
        } else {
            r + 1
        }
    }
}

/// `find_node_idx` finds the first node with the id, if there is one.
pub proof fn lemma_find_node_idx(nodes: Seq<Node>, id: Seq<char>)
    ensures
        find_node_idx(nodes, id) == -1 ==> forall|k: int| 0 <= k < nodes.len() ==> nodes[k].id@
            != id,
        find_node_idx(nodes, id) != -1 ==> 0 <= find_node_idx(nodes, id) < nodes.len() && nodes[
            find_node_idx(nodes, id)
        ].id@ == id && (forall|k: int| 0 <= k < find_node_idx(nodes, id) ==> nodes[k].id@ != id),
    decreases nodes.len(),
{
    if nodes.len() > 0 && nodes[0].id@ != id {
        lemma_find_node_idx(nodes.drop_first(), id);
        let r = find_node_idx(nodes.drop_first(), id);
        if r == -1 {
            assert forall|k: int| 0 <= k < nodes.len() implies nodes[k].id@ != id by {
                if k > 0 {
                    assert(nodes.drop_first()[k - 1] == nodes[k]);
                }
            }
        } else {
            assert(nodes.drop_first()[r] == nodes[r + 1]);
            assert forall|k: int| 0 <= k < r + 1 implies nodes[k].id@ != id by {
                if k > 0 {
                    assert(nodes.drop_first()[k - 1] == nodes[k]);
                }
            }
        }
    }
}

/// A first matching index characterizes `find_node_idx` uniquely.
pub proof fn lemma_find_node_idx_unique(nodes: Seq<Node>, id: Seq<char>, i: int)
    requires
        0 <= i < nodes.len(),
        nodes[i].id@ == id,
        forall|k: int| 0 <= k < i ==> nodes[k].id@ != id,
    ensures
        find_node_idx(nodes, id) == i,
{
    lemma_find_node_idx(nodes, id);
    let r = find_node_idx(nodes, id);
    if r == -1 {
        assert(nodes[i].id@ != id);
    } else {
        if r < i {
            assert(nodes[r].id@ != id);
        }
        if i < r {
            assert(nodes[i].id@ != id);
        }
    }
}

/// The first package-table index whose id is `id`, or -1 if there is none.
pub open spec fn find_pkg_idx(packages: Seq<PackageMeta>, id: Seq<char>) -> int
    decreases packages.len(),
{
    if packages.len() == 0 {
        -1
    } else if packages[0].id@ == id {
        0
    } else {
        let r = find_pkg_idx(packages.drop_first(), id);
        if r < 0 {
            -1
        } else {
            r + 1
        }
    }
}

/// `find_pkg_idx` finds the first package with the id, if there is one.
pub proof fn lemma_find_pkg_idx(packages: Seq<PackageMeta>, id: Seq<char>)
    ensures
        find_pkg_idx(packages, id) == -1 ==> forall|k: int| 0 <= k < packages.len() ==> packages[
            k
        ].id@ != id,
        find_pkg_idx(packages, id) != -1 ==> 0 <= find_pkg_idx(packages, id) < packages.len()
            && packages[find_pkg_idx(packages, id)].id@ == id && (forall|k: int|
            0 <= k < find_pkg_idx(packages, id) ==> packages[k].id@ != id),
    decreases packages.len(),
{
    if packages.len() > 0 && packages[0].id@ != id {
        lemma_find_pkg_idx(packages.drop_first(), id);
        let r = find_pkg_idx(packages.drop_first(), id);
        if r == -1 {
            assert forall|k: int| 0 <= k < packages.len() implies packages[k].id@ != id by {
                if k > 0 {
                    assert(packages.drop_first()[k - 1] == packages[k]);
                }
            }
        } else {
            assert(packages.drop_first()[r] == packages[r + 1]);
            assert forall|k: int| 0 <= k < r + 1 implies packages[k].id@ != id by {
                if k > 0 {
                    assert(packages.drop_first()[k - 1] == packages[k]);
                }
            }
        }
    }
}

/// A first matching index characterizes `find_pkg_idx` uniquely.
pub proof fn lemma_find_pkg_idx_unique(packages: Seq<PackageMeta>, id: Seq<char>, i: int)
    requires
        0 <= i < packages.len(),
        packages[i].id@ == id,
        forall|k: int| 0 <= k < i ==> packages[k].id@ != id,
    ensures
        find_pkg_idx(packages, id) == i,
{
    lemma_find_pkg_idx(packages, id);
    let r = find_pkg_idx(packages, id);
    if r == -1 {
        assert(packages[i].id@ != id);
    } else {
        if r < i {
            assert(packages[r].id@ != id);
        }
        if i < r {
            assert(packages[i].id@ != id);
        }
    }
}

/// Finds the node with the given id.
#[verifier::loop_isolation(false)]
fn find_node(nodes: &Vec<Node>, id: &str) -> (r: Option<usize>)
    ensures
        match r {
            Some(i) => i < nodes@.len() && find_node_idx(nodes@, id@) == i,
            None => find_node_idx(nodes@, id@) == -1,
        },
{
    let n = nodes.len();
    let mut i: usize = 0;
    while i < n
        invariant
            i <= n,
            forall|k: int| 0 <= k < i ==> nodes@[k].id@ != id@,
        decreases n - i,
    {
        if str_eq(nodes[i].id.as_str(), id) {
            proof {
                lemma_find_node_idx_unique(nodes@, id@, i as int);
            }
            return Some(i);
        }
        i += 1;
    }
    proof {
        lemma_find_node_idx(nodes@, id@);
        if find_node_idx(nodes@, id@) != -1 {
            assert(nodes@[find_node_idx(nodes@, id@)].id@ == id@);
        }
    }
    None
}

/// Finds the package-table entry with the given id.
#[verifier::loop_isolation(false)]
fn find_pkg(packages: &Vec<PackageMeta>, id: &str) -> (r: Option<usize>)
    ensures
        match r {
            Some(i) => i < packages@.len() && find_pkg_idx(packages@, id@) == i,
            None => find_pkg_idx(packages@, id@) == -1,
        },
{
    let n = packages.len();
    let mut i: usize = 0;
    while i < n
        invariant
            i <= n,
            forall|k: int| 0 <= k < i ==> packages@[k].id@ != id@,
        decreases n - i,
    {
        if str_eq(packages[i].id.as_str(), id) {
            proof {
                lemma_find_pkg_idx_unique(packages@, id@, i as int);
            }
            return Some(i);
        }
        i += 1;
    }
    proof {
        lemma_find_pkg_idx(packages@, id@);
        if find_pkg_idx(packages@, id@) != -1 {
            assert(packages@[find_pkg_idx(packages@, id@)].id@ == id@);
        }
    }
    None
}

/// One supported dependency edge, executable form: the target node index,
/// the dependency kind, and the platform filter if any.
#[derive(Debug)]
pub struct Edge {
    pub target: usize,
    pub kind: DependencyKind,
    pub platform: Option<Platform>,
}

/// One supported dependency edge, in the model.
pub struct EdgeV {
    pub target: int,
    pub kind: DependencyKind,
    pub platform: Option<PlatformV>,
}

/// Whether an optional executable platform filter models an optional
/// platform filter.
pub open spec fn opt_platform_matches(p: Option<Platform>, v: Option<PlatformV>) -> bool {
    match (p, v) {
        (Option::None, Option::None) => true,
        (Option::Some(a), Option::Some(b)) => a@ == b,
        _ => false,
    }
}

/// Whether an executable edge models an edge.
pub open spec fn edge_matches(e: Edge, v: EdgeV) -> bool {
    e.target as int == v.target && e.kind == v.kind && opt_platform_matches(e.platform, v.platform)
}

/// Whether a list of executable edges models a list of edges, elementwise.
pub open spec fn edges_match(es: Seq<Edge>, vs: Seq<EdgeV>) -> bool {
    es.len() == vs.len() && forall|t: int| 0 <= t < es.len() ==> edge_matches(
        #[trigger] es[t],
        vs[t],
    )
}

/// The supported edges contributed by the (kind, platform) pairs of one
/// dependency of a node: pairs whose platform matches no supported target
/// are dropped.
pub open spec fn kind_edges(target: int, ks: Seq<DepKindInfo>) -> Seq<EdgeV>
    decreases ks.len(),
{
    if ks.len() == 0 {
        Seq::empty()
    } else {
        let rest = kind_edges(target, ks.drop_last());
        let k = ks.last();
        match k.target {
            Option::None => rest.push(EdgeV { target: target, kind: k.kind, platform: None }),
            Option::Some(p) => if platform_matches_supported(p@) {
                rest.push(EdgeV { target: target, kind: k.kind, platform: Some(p@) })
            } else {
                rest
            },
        }
    }
}

/// The supported edges of a list of node dependencies, in order, each
/// resolved to the index of its target node (-1 when the id has no node).
pub open spec fn deps_edges(nodes: Seq<Node>, ds: Seq<NodeDep>) -> Seq<EdgeV>
    decreases ds.len(),
{
    if ds.len() == 0 {
        Seq::empty()
    } else {
        deps_edges(nodes, ds.drop_last()) + kind_edges(
            find_node_idx(nodes, ds.last().pkg@),
            ds.last().dep_kinds@,
        )
    }
}

/// The supported outgoing edges of node `i`.
pub open spec fn edges_of(m: Metadata, i: int) -> Seq<EdgeV> {
    deps_edges(m.nodes@, m.nodes@[i].deps@)
}

/// Every supported edge of node `i` reaches an existing node.
pub open spec fn edges_resolve(m: Metadata, i: int) -> bool {
    forall|t: int| 0 <= t < edges_of(m, i).len() ==> edges_of(m, i)[t].target >= 0
}

/// One step of `kind_edges` from the left-to-right point of view.
pub proof fn lemma_kind_edges_step(target: int, ks: Seq<DepKindInfo>, t: int)
    requires
        0 <= t < ks.len(),
    ensures
        kind_edges(target, ks.take(t + 1)) == match ks[t].target {
            Option::None => kind_edges(target, ks.take(t)).push(
                EdgeV { target: target, kind: ks[t].kind, platform: None },
            ),
            Option::Some(p) => if platform_matches_supported(p@) {
                kind_edges(target, ks.take(t)).push(
                    EdgeV { target: target, kind: ks[t].kind, platform: Some(p@) },
                )
            } else {
                kind_edges(target, ks.take(t))
            },
        },
{
    assert(ks.take(t + 1).drop_last() =~= ks.take(t));
    assert(ks.take(t + 1).last() == ks[t]);
    assert(ks.take(t + 1).len() == t + 1);
}

/// One step of `deps_edges` from the left-to-right point of view.
pub proof fn lemma_deps_edges_step(nodes: Seq<Node>, ds: Seq<NodeDep>, d: int)
    requires
        0 <= d < ds.len(),
    ensures
        deps_edges(nodes, ds.take(d + 1)) == deps_edges(nodes, ds.take(d)) + kind_edges(
            find_node_idx(nodes, ds[d].pkg@),
            ds[d].dep_kinds@,
        ),
{
    assert(ds.take(d + 1).drop_last() =~= ds.take(d));
    assert(ds.take(d + 1).last() == ds[d]);
    assert(ds.take(d + 1).len() == d + 1);
}

/// A shorter kind prefix contributes a prefix of the edges.
pub proof fn lemma_kind_edges_prefix(target: int, ks: Seq<DepKindInfo>, t: int)
    requires
        0 <= t <= ks.len(),
    ensures
        kind_edges(target, ks.take(t)).len() <= kind_edges(target, ks).len(),
        forall|u: int| 0 <= u < kind_edges(target, ks.take(t)).len() ==> kind_edges(
            target,
            ks.take(t),
        )[u] == kind_edges(target, ks)[u],
    decreases ks.len() - t,
{
    if t < ks.len() {
        lemma_kind_edges_prefix(target, ks, t + 1);
        lemma_kind_edges_step(target, ks, t);
    } else {
        assert(ks.take(t) =~= ks);
    }
}

/// A shorter dependency prefix contributes a prefix of the edges.
pub proof fn lemma_deps_edges_prefix(nodes: Seq<Node>, ds: Seq<NodeDep>, d: int)
    requires
        0 <= d <= ds.len(),
    ensures
        deps_edges(nodes, ds.take(d)).len() <= deps_edges(nodes, ds).len(),
        forall|u: int| 0 <= u < deps_edges(nodes, ds.take(d)).len() ==> deps_edges(
            nodes,
            ds.take(d),
        )[u] == deps_edges(nodes, ds)[u],
    decreases ds.len() - d,
{
    if d < ds.len() {
        lemma_deps_edges_prefix(nodes, ds, d + 1);
        lemma_deps_edges_step(nodes, ds, d);
    } else {
        assert(ds.take(d) =~= ds);
    }
}

/// Every resolved edge target is a valid node index or -1.
pub proof fn lemma_deps_edges_bounded(nodes: Seq<Node>, ds: Seq<NodeDep>)
    ensures
        forall|t: int| 0 <= t < deps_edges(nodes, ds).len() ==> #[trigger] deps_edges(
            nodes,
            ds,
        )[t].target < nodes.len(),
    decreases ds.len(),
{
    if ds.len() > 0 {
        lemma_deps_edges_bounded(nodes, ds.drop_last());
        let target = find_node_idx(nodes, ds.last().pkg@);
        lemma_find_node_idx(nodes, ds.last().pkg@);
        let tail = kind_edges(target, ds.last().dep_kinds@);
        assert forall|t: int| 0 <= t < tail.len() implies #[trigger] tail[t].target
            < nodes.len() by {
            lemma_kind_edges_targets(target, ds.last().dep_kinds@);
        }
    }
}

/// All edges from one dependency share its resolved target.
pub proof fn lemma_kind_edges_targets(target: int, ks: Seq<DepKindInfo>)
    ensures
        forall|t: int| 0 <= t < kind_edges(target, ks).len() ==> #[trigger] kind_edges(
            target,
            ks,
        )[t].target == target,
    decreases ks.len(),
{
    if ks.len() > 0 {
        lemma_kind_edges_targets(target, ks.drop_last());
    }
}

/// Computes the supported outgoing edges of node `i`, resolving each target
/// id to its node index.
#[verifier::loop_isolation(false)]
pub fn node_edges(m: &Metadata, i: usize) -> (r: Result<Vec<Edge>, GraphError>)
    requires
        i < m.nodes@.len(),
    ensures
        match r {
            Ok(es) => edges_match(es@, edges_of(*m, i as int)) && edges_resolve(*m, i as int),
            Err(e) => e == GraphError::MissingNode && !edges_resolve(*m, i as int),
        },
{
    let ghost nodesv = m.nodes@;
    let ghost ds = m.nodes@[i as int].deps@;
    let mut out: Vec<Edge> = Vec::new();
    let nd_count = m.nodes[i].deps.len();
    let mut d: usize = 0;
    proof {
        assert(ds.take(0) =~= Seq::<NodeDep>::empty());
    }
    while d < nd_count
        invariant
            d <= nd_count,
            nd_count == ds.len(),
            ds == m.nodes@[i as int].deps@,
            nodesv == m.nodes@,
            edges_match(out@, deps_edges(nodesv, ds.take(d as int))),
            forall|t: int| 0 <= t < deps_edges(nodesv, ds.take(d as int)).len()
                ==> #[trigger] deps_edges(nodesv, ds.take(d as int))[t].target >= 0,
        decreases nd_count - d,
    {
        let nd = &m.nodes[i].deps[d];
        let ghost tgt_spec = find_node_idx(nodesv, nd.pkg@);
        let tgt_opt = find_node(&m.nodes, nd.pkg.as_str());
        let ghost ks = nd.dep_kinds@;
        let kcount = nd.dep_kinds.len();
        let mut k: usize = 0;
        proof {
            assert(ks.take(0) =~= Seq::<DepKindInfo>::empty());
            lemma_deps_edges_step(nodesv, ds, d as int);
        }
        while k < kcount
            invariant
                k <= kcount,
                kcount == ks.len(),
                ks == m.nodes@[i as int].deps@[d as int].dep_kinds@,
                d < nd_count,
                nd_count == ds.len(),
                ds == m.nodes@[i as int].deps@,
                nodesv == m.nodes@,
                tgt_spec == find_node_idx(nodesv, ds[d as int].pkg@),
                tgt_opt matches Some(x) ==> x < nodesv.len() && tgt_spec == x,
                tgt_opt is None ==> tgt_spec == -1 && kind_edges(tgt_spec, ks.take(k as int)).len()
                    == 0,
                edges_match(
                    out@,
                    deps_edges(nodesv, ds.take(d as int)) + kind_edges(
                        tgt_spec,
                        ks.take(k as int),
                    ),
                ),
                forall|t: int| 0 <= t < deps_edges(nodesv, ds.take(d as int)).len()
                    ==> #[trigger] deps_edges(nodesv, ds.take(d as int))[t].target >= 0,
            decreases kcount - k,
        {
            let ki = &nd.dep_kinds[k];
            let survives: bool = match &ki.target {
                None => true,
                Some(p) => matches_supported_target(p),
            };
            proof {
                lemma_kind_edges_step(tgt_spec, ks, k as int);
            }
            if survives {
                let tgt = match tgt_opt {
                    Some(x) => x,
                    None => {
                        proof {
                            let partial = deps_edges(nodesv, ds.take(d as int)) + kind_edges(
                                tgt_spec,
                                ks.take(k as int + 1),
                            );
                            let pos = partial.len() - 1;
                            assert(partial[pos].target == tgt_spec);
                            lemma_kind_edges_prefix(tgt_spec, ks, k as int + 1);
                            lemma_deps_edges_step(nodesv, ds, d as int);
                            lemma_deps_edges_prefix(nodesv, ds, d as int + 1);
                            let full = deps_edges(nodesv, ds);
                            assert(deps_edges(nodesv, ds.take(d as int + 1))[pos] == partial[pos]);
                            assert(full[pos] == partial[pos]);
                            assert(!edges_resolve(*m, i as int));
                        }
                        return Err(GraphError::MissingNode);
                    },
                };
                let platform: Option<Platform> = match &ki.target {
                    None => None,
                    Some(p) => Some(clone_platform(p)),
                };
                out.push(Edge { target: tgt, kind: ki.kind, platform });
            }
            k += 1;
        }
        proof {
            assert(ks.take(kcount as int) =~= ks);
            lemma_deps_edges_step(nodesv, ds, d as int);
            lemma_kind_edges_targets(tgt_spec, ks);
            let base = deps_edges(nodesv, ds.take(d as int));
            let seg = kind_edges(tgt_spec, ks);
            let ext = deps_edges(nodesv, ds.take(d as int + 1));
            assert forall|t: int| 0 <= t < ext.len() implies #[trigger] ext[t].target >= 0 by {
                if t < base.len() {
                    assert(ext[t] == base[t]);
                } else {
                    assert(ext[t] == seg[t - base.len()]);
                    assert(seg[t - base.len()].target == tgt_spec);
                }
            }
        }
        d += 1;
    }
    proof {
        assert(ds.take(nd_count as int) =~= ds);
    }
    Ok(out)
}

/// A supported edge leads from node `i` to node `j`.
pub open spec fn edge_ok(m: Metadata, i: int, j: int) -> bool {
    exists|t: int| 0 <= t < edges_of(m, i).len() && #[trigger] edges_of(m, i)[t].target == j
}

/// A path through supported edges of the graph.
pub open spec fn is_graph_path(m: Metadata, p: Seq<int>) -> bool {
    &&& p.len() >= 1
    &&& forall|t: int| 0 <= t < p.len() ==> 0 <= #[trigger] p[t] < m.nodes@.len()
    &&& forall|t: int| 0 <= t < p.len() - 1 ==> edge_ok(m, #[trigger] p[t], p[t + 1])
}

/// Membership of a string among a list of strings, by contents.
pub open spec fn str_in(ss: Seq<String>, x: Seq<char>) -> bool {
    exists|k: int| 0 <= k < ss.len() && ss[k]@ == x
}

/// Whether node `i` is a traversal start: by default the root package and
/// every workspace member; with an explicit root list, every package whose
/// name is listed.
pub open spec fn is_start(m: Metadata, roots: Option<Vec<String>>, i: int) -> bool {
    match roots {
        Option::None => m.nodes@[i].id@ == m.root@ || (exists|w: int|
            0 <= w < m.workspace_members@.len() && #[trigger] m.workspace_members@[w]@
                == m.nodes@[i].id@),
        Option::Some(names) => exists|pi: int|
            0 <= pi < m.packages@.len() && #[trigger] m.packages@[pi].id@ == m.nodes@[i].id@
                && str_in(names@, m.packages@[pi].name@),
    }
}

/// Every requested traversal start names a node of the graph.
pub open spec fn starts_resolve(m: Metadata, roots: Option<Vec<String>>) -> bool {
    match roots {
        Option::None => find_node_idx(m.nodes@, m.root@) >= 0 && (forall|w: int|
            0 <= w < m.workspace_members@.len() ==> find_node_idx(
                m.nodes@,
                #[trigger] m.workspace_members@[w]@,
            ) >= 0),
        Option::Some(names) => forall|pi: int|
            0 <= pi < m.packages@.len() && str_in(names@, #[trigger] m.packages@[pi].name@)
                ==> find_node_idx(m.nodes@, m.packages@[pi].id@) >= 0,
    }
}

/// Node `j` is reachable from some traversal start through supported edges.
pub open spec fn reaches(m: Metadata, roots: Option<Vec<String>>, j: int) -> bool {
    exists|p: Seq<int>|
        is_graph_path(m, p) && is_start(m, roots, p[0]) && p.last() == j
}

/// A start in bounds reaches itself.
pub proof fn lemma_start_reaches(m: Metadata, roots: Option<Vec<String>>, i: int)
    requires
        0 <= i < m.nodes@.len(),
        is_start(m, roots, i),
    ensures
        reaches(m, roots, i),
{
    let p = seq![i];
    assert(is_graph_path(m, p));
    assert(p.last() == i);
}

/// Reachability extends along a supported edge.
pub proof fn lemma_reaches_step(m: Metadata, roots: Option<Vec<String>>, i: int, j: int)
    requires
        reaches(m, roots, i),
        edge_ok(m, i, j),
        0 <= j < m.nodes@.len(),
    ensures
        reaches(m, roots, j),
{
    let p = choose|p: Seq<int>| is_graph_path(m, p) && is_start(m, roots, p[0]) && p.last() == i;
    let q = p.push(j);
    assert(q[0] == p[0]);
    assert(q.last() == j);
    assert(is_graph_path(m, q)) by {
        assert forall|t: int| 0 <= t < q.len() implies 0 <= #[trigger] q[t] < m.nodes@.len() by {
            if t < p.len() {
                assert(q[t] == p[t]);
            }
        }
        assert forall|t: int| 0 <= t < q.len() - 1 implies edge_ok(m, #[trigger] q[t], q[t + 1]) by {
            if t < p.len() - 1 {
                assert(q[t] == p[t]);
                assert(q[t + 1] == p[t + 1]);
            } else {
                assert(q[t] == p.last());
                assert(q[t + 1] == j);
            }
        }
    }
}

/// Every node on a path out of a set that is closed under supported edges
/// remains in the set.
pub proof fn lemma_path_in_closed(m: Metadata, visited: Seq<bool>, p: Seq<int>)
    requires
        is_graph_path(m, p),
        visited.len() == m.nodes@.len(),
        visited[p[0]],
        forall|i: int, j: int|
            0 <= i < visited.len() && visited[i] && #[trigger] edge_ok(m, i, j) && 0 <= j
                < visited.len() ==> visited[j],
    ensures
        visited[p.last()],
    decreases p.len(),
{
    if p.len() > 1 {
        let q = p.drop_last();
        assert(is_graph_path(m, q)) by {
            assert forall|t: int| 0 <= t < q.len() implies 0 <= #[trigger] q[t]
                < m.nodes@.len() by {
                assert(q[t] == p[t]);
            }
            assert forall|t: int| 0 <= t < q.len() - 1 implies edge_ok(
                m,
                #[trigger] q[t],
                q[t + 1],
            ) by {
                assert(q[t] == p[t]);
                assert(q[t + 1] == p[t + 1]);
            }
        }
        assert(q[0] == p[0]);
        lemma_path_in_closed(m, visited, q);
        assert(edge_ok(m, p[p.len() - 2], p[p.len() - 1]));
        assert(q.last() == p[p.len() - 2]);
    }
}

/// The number of true entries of a sequence of booleans.
pub open spec fn count_true(s: Seq<bool>) -> int
    decreases s.len(),
{
    if s.len() == 0 {
        0
    } else {
        count_true(s.drop_last()) + (if s.last() {
            1int
        } else {
            0int
        })
    }
}

/// The count of true entries is bounded by the length.
pub proof fn lemma_count_true_bound(s: Seq<bool>)
    ensures
        0 <= count_true(s) <= s.len(),
    decreases s.len(),
{
    if s.len() > 0 {
        lemma_count_true_bound(s.drop_last());
    }
}

/// Setting a false entry to true raises the count by one.
pub proof fn lemma_count_true_update(s: Seq<bool>, j: int)
    requires
        0 <= j < s.len(),
        !s[j],
    ensures
        count_true(s.update(j, true)) == count_true(s) + 1,
    decreases s.len(),
{
    let u = s.update(j, true);
    if j == s.len() - 1 {
        assert(u.drop_last() =~= s.drop_last());
        assert(u.last());
        assert(!s.last());
    } else {
        assert(u.drop_last() =~= s.drop_last().update(j, true));
        assert(u.last() == s.last());
        lemma_count_true_update(s.drop_last(), j);
    }
}

/// Membership of an index in the pending stack.
pub open spec fn in_stack(s: Seq<usize>, i: int) -> bool {
    exists|t: int| 0 <= t < s.len() && #[trigger] s[t] as int == i
}

/// Whether some string of the list equals `x`, by contents.
#[verifier::loop_isolation(false)]
fn str_list_contains(ss: &Vec<String>, x: &str) -> (r: bool)
    ensures
        r == str_in(ss@, x@),
{
    let n = ss.len();
    let mut i: usize = 0;
    while i < n
        invariant
            i <= n,
            forall|k: int| 0 <= k < i ==> ss@[k]@ != x@,
        decreases n - i,
    {
        if str_eq(ss[i].as_str(), x) {
            return true;
        }
        i += 1;
    }
    false
}

/// Collects the traversal start nodes onto a work stack: the root package
/// and every workspace member by default, or every package with a listed
/// name when explicit roots are given.
#[verifier::loop_isolation(false)]
#[verifier::rlimit(50)]
fn seed_stack(m: &Metadata, roots: &Option<Vec<String>>) -> (r: Result<Vec<usize>, GraphError>)
    requires
        unique_node_ids(m.nodes@),
    ensures
        match r {
            Ok(stack) => {
                &&& forall|t: int|
                    0 <= t < stack@.len() ==> (#[trigger] stack@[t] as int) < m.nodes@.len()
                &&& forall|t: int|
                    0 <= t < stack@.len() ==> reaches(*m, *roots, #[trigger] stack@[t] as int)
                &&& forall|i: int|
                    0 <= i < m.nodes@.len() && is_start(*m, *roots, i) ==> in_stack(stack@, i)
                &&& starts_resolve(*m, *roots)
            },
            Err(e) => e == GraphError::MissingNode && !starts_resolve(*m, *roots),
        },
{
    let n = m.nodes.len();
    let mut stack: Vec<usize> = Vec::new();
    match roots {
        None => {
            let ri = match find_node(&m.nodes, m.root.as_str()) {
                Some(x) => x,
                None => {
                    proof {
                        lemma_find_node_idx(m.nodes@, m.root@);
                    }
                    return Err(GraphError::MissingNode);
                },
            };
            stack.push(ri);
            proof {
                lemma_find_node_idx(m.nodes@, m.root@);
                lemma_start_reaches(*m, *roots, ri as int);
                assert(stack@[0] as int == ri as int);
                assert forall|i: int|
                    0 <= i < n && m.nodes@[i].id@ == m.root@ implies in_stack(stack@, i) by {
                    if i != ri as int {
                        assert(m.nodes@[i].id@ != m.nodes@[ri as int].id@);
                    }
                }
            }
            let wcount = m.workspace_members.len();
            let mut w: usize = 0;
            while w < wcount
                invariant
                    w <= wcount,
                    wcount == m.workspace_members@.len(),
                    forall|t: int| 0 <= t < stack@.len() ==> (#[trigger] stack@[t] as int) < n,
                    forall|t: int| 0 <= t < stack@.len() ==> reaches(
                        *m,
                        *roots,
                        #[trigger] stack@[t] as int,
                    ),
                    forall|i: int|
                        0 <= i < n && m.nodes@[i].id@ == m.root@ ==> in_stack(stack@, i),
                    forall|w2: int, i: int|
                        #![trigger m.workspace_members@[w2]@, m.nodes@[i].id@]
                        0 <= w2 < w && 0 <= i < n && m.workspace_members@[w2]@
                            == m.nodes@[i].id@ ==> in_stack(stack@, i),
                    find_node_idx(m.nodes@, m.root@) >= 0,
                    forall|w2: int| 0 <= w2 < w ==> find_node_idx(
                        m.nodes@,
                        #[trigger] m.workspace_members@[w2]@,
                    ) >= 0,
                decreases wcount - w,
            {
                let wi = match find_node(&m.nodes, m.workspace_members[w].as_str()) {
                    Some(x) => x,
                    None => {
                        proof {
                            lemma_find_node_idx(m.nodes@, m.workspace_members@[w as int]@);
                        }
                        return Err(GraphError::MissingNode);
                    },
                };
                proof {
                    lemma_find_node_idx(m.nodes@, m.workspace_members@[w as int]@);
                    lemma_start_reaches(*m, *roots, wi as int);
                    assert forall|i: int|
                        0 <= i < n && m.nodes@[i].id@ == m.workspace_members@[w as int]@ implies i
                        == wi as int by {
                        if i != wi as int {
                            assert(m.nodes@[i].id@ != m.nodes@[wi as int].id@);
                        }
                    }
                }
                let ghost pre_stack = stack@;
                stack.push(wi);
                proof {
                    assert forall|i: int| in_stack(pre_stack, i) implies in_stack(stack@, i) by {
                        let t2 = choose|t2: int|
                            0 <= t2 < pre_stack.len() && #[trigger] pre_stack[t2] as int == i;
                        assert(stack@[t2] == pre_stack[t2]);
                    }
                    assert(stack@[pre_stack.len() as int] as int == wi as int);
                    assert(in_stack(stack@, wi as int));
                    assert forall|i: int|
                        0 <= i < n && m.nodes@[i].id@ == m.root@ implies in_stack(stack@, i) by {
                        assert(in_stack(pre_stack, i));
                    }
                    assert forall|w2: int, i: int|
                        #![trigger m.workspace_members@[w2]@, m.nodes@[i].id@]
                        0 <= w2 < w + 1 && 0 <= i < n && m.workspace_members@[w2]@
                            == m.nodes@[i].id@ implies in_stack(stack@, i) by {
                        if w2 < w {
                            assert(in_stack(pre_stack, i));
                        } else {
                            assert(i == wi as int);
                        }
                    }
                }
                w += 1;
            }
        },
        Some(names) => {
            let pcount = m.packages.len();
            let mut pi: usize = 0;
            while pi < pcount
                invariant
                    pi <= pcount,
                    pcount == m.packages@.len(),
                    forall|t: int| 0 <= t < stack@.len() ==> (#[trigger] stack@[t] as int) < n,
                    forall|t: int| 0 <= t < stack@.len() ==> reaches(
                        *m,
                        *roots,
                        #[trigger] stack@[t] as int,
                    ),
                    forall|p2: int, i: int|
                        #![trigger m.packages@[p2].id@, m.nodes@[i].id@]
                        0 <= p2 < pi && 0 <= i < n && m.packages@[p2].id@ == m.nodes@[i].id@
                            && str_in(names@, m.packages@[p2].name@) ==> in_stack(stack@, i),
                    forall|p2: int|
                        0 <= p2 < pi && str_in(names@, #[trigger] m.packages@[p2].name@)
                            ==> find_node_idx(m.nodes@, m.packages@[p2].id@) >= 0,
                decreases pcount - pi,
            {
                if str_list_contains(names, m.packages[pi].name.as_str()) {
                    let ni = match find_node(&m.nodes, m.packages[pi].id.as_str()) {
                        Some(x) => x,
                        None => {
                            proof {
                                lemma_find_node_idx(m.nodes@, m.packages@[pi as int].id@);
                            }
                            return Err(GraphError::MissingNode);
                        },
                    };
                    proof {
                        lemma_find_node_idx(m.nodes@, m.packages@[pi as int].id@);
                        assert(is_start(*m, *roots, ni as int));
                        lemma_start_reaches(*m, *roots, ni as int);
                        assert forall|i: int|
                            0 <= i < n && m.nodes@[i].id@ == m.packages@[pi as int].id@ implies i
                            == ni as int by {
                            if i != ni as int {
                                assert(m.nodes@[i].id@ != m.nodes@[ni as int].id@);
                            }
                        }
                    }
                    let ghost pre_stack = stack@;
                    stack.push(ni);
                    proof {
                        assert forall|i: int| in_stack(pre_stack, i) implies in_stack(
                            stack@,
                            i,
                        ) by {
                            let t2 = choose|t2: int|
                                0 <= t2 < pre_stack.len() && #[trigger] pre_stack[t2] as int == i;
                            assert(stack@[t2] == pre_stack[t2]);
                        }
                        assert(stack@[pre_stack.len() as int] as int == ni as int);
                        assert(in_stack(stack@, ni as int));
                    }
                }
                pi += 1;
            }
        },
    }
    Ok(stack)
}

/// A set of nodes that contains the starts and is closed under supported
/// edges contains everything reachable.
proof fn lemma_closed_complete(m: Metadata, roots: Option<Vec<String>>, visited: Seq<bool>)
    requires
        visited.len() == m.nodes@.len(),
        forall|i: int| 0 <= i < visited.len() && is_start(m, roots, i) ==> visited[i],
        forall|i: int, j: int|
            0 <= i < visited.len() && visited[i] && #[trigger] edge_ok(m, i, j) && 0 <= j
                < visited.len() ==> visited[j],
    ensures
        forall|j: int| 0 <= j < visited.len() && reaches(m, roots, j) ==> visited[j],
{
    assert forall|j: int| 0 <= j < visited.len() && reaches(m, roots, j) implies visited[j] by {
        let p = choose|p: Seq<int>|
            is_graph_path(m, p) && is_start(m, roots, p[0]) && p.last() == j;
        assert(visited[p[0]]);
        lemma_path_in_closed(m, visited, p);
    }
}

/// Marks every node reachable from the traversal starts, walking supported
/// edges with an explicit work stack; also records, for each node first
/// discovered through an edge, the node it was discovered from.
#[verifier::loop_isolation(false)]
#[verifier::rlimit(100)]
fn reachable_nodes(m: &Metadata, roots: &Option<Vec<String>>) -> (r: Result<
    (Vec<bool>, Vec<usize>),
    GraphError,
>)
    requires
        unique_node_ids(m.nodes@),
    ensures
        match r {
            Ok(out) => {
                &&& out.0@.len() == m.nodes@.len()
                &&& out.1@.len() == m.nodes@.len()
                &&& forall|j: int|
                    0 <= j < m.nodes@.len() ==> out.0@[j] == reaches(*m, *roots, j)
                &&& starts_resolve(*m, *roots)
                &&& forall|i: int|
                    0 <= i < m.nodes@.len() && reaches(*m, *roots, i) ==> edges_resolve(*m, i)
            },
            Err(e) => e == GraphError::MissingNode && (!starts_resolve(*m, *roots) || exists|i: int|
                0 <= i < m.nodes@.len() && reaches(*m, *roots, i) && !edges_resolve(*m, i)),
        },
{
    let n = m.nodes.len();
    let mut visited: Vec<bool> = Vec::new();
    let mut parent: Vec<usize> = Vec::new();
    let mut fill: usize = 0;
    while fill < n
        invariant
            fill <= n,
            visited@.len() == fill,
            parent@.len() == fill,
            forall|j: int| 0 <= j < fill ==> !visited@[j],
            forall|j: int| 0 <= j < fill ==> parent@[j] as int == j,
        decreases n - fill,
    {
        visited.push(false);
        parent.push(fill);
        fill += 1;
    }
    let mut stack: Vec<usize> = match seed_stack(m, roots) {
        Ok(st) => st,
        Err(e) => {
            return Err(e);
        },
    };
    #[verifier::loop_isolation(true)]
    while stack.len() > 0
        invariant
            visited@.len() == n,
            parent@.len() == n,
            n == m.nodes@.len(),
            forall|t: int| 0 <= t < stack@.len() ==> (#[trigger] stack@[t] as int) < n,
            forall|j: int| 0 <= j < n && visited@[j] ==> reaches(*m, *roots, j),
            forall|t: int| 0 <= t < stack@.len() ==> reaches(
                *m,
                *roots,
                #[trigger] stack@[t] as int,
            ),
            forall|i: int|
                0 <= i < n && is_start(*m, *roots, i) ==> visited@[i] || in_stack(stack@, i),
            forall|i: int, j: int|
                0 <= i < n && visited@[i] && #[trigger] edge_ok(*m, i, j) && 0 <= j < n
                    ==> visited@[j] || in_stack(stack@, j),
            forall|i: int| 0 <= i < n && visited@[i] ==> edges_resolve(*m, i),
        decreases n - count_true(visited@), stack@.len(),
    {
        proof {
            lemma_count_true_bound(visited@);
        }
        let ghost old_stack = stack@;
        let idx = match stack.pop() {
            Some(x) => x,
            None => {
                return Err(GraphError::MissingNode);
            },
        };
        proof {
            assert(idx == old_stack.last());
            assert(stack@ =~= old_stack.drop_last());
            assert(reaches(*m, *roots, idx as int));
            assert forall|j: int| in_stack(old_stack, j) implies in_stack(stack@, j) || j
                == idx as int by {
                let t = choose|t: int| 0 <= t < old_stack.len() && #[trigger] old_stack[t] as int
                    == j;
                if t < old_stack.len() - 1 {
                    assert(stack@[t] == old_stack[t]);
                }
            }
        }
        if !visited[idx] {
            proof {
                lemma_count_true_update(visited@, idx as int);
            }
            visited.set(idx, true);
            proof {
                lemma_count_true_bound(visited@);
            }
            let es = match node_edges(m, idx) {
                Ok(es) => es,
                Err(e) => {
                    return Err(e);
                },
            };
            let ghost ev = edges_of(*m, idx as int);
            proof {
                lemma_deps_edges_bounded(m.nodes@, m.nodes@[idx as int].deps@);
            }
            let ecount = es.len();
            let mut t: usize = 0;
            #[verifier::loop_isolation(true)]
            while t < ecount
                invariant
                    t <= ecount,
                    ecount == es@.len(),
                    edges_match(es@, ev),
                    ev == edges_of(*m, idx as int),
                    idx < n,
                    visited@.len() == n,
                    parent@.len() == n,
                    n == m.nodes@.len(),
                    visited@[idx as int],
                    reaches(*m, *roots, idx as int),
                    forall|u: int| 0 <= u < ev.len() ==> 0 <= #[trigger] ev[u].target < n,
                    forall|t2: int| 0 <= t2 < stack@.len() ==> (#[trigger] stack@[t2] as int) < n,
                    forall|j: int| 0 <= j < n && visited@[j] ==> reaches(*m, *roots, j),
                    forall|t2: int| 0 <= t2 < stack@.len() ==> reaches(
                        *m,
                        *roots,
                        #[trigger] stack@[t2] as int,
                    ),
                    forall|i: int|
                        0 <= i < n && is_start(*m, *roots, i) ==> visited@[i] || in_stack(
                            stack@,
                            i,
                        ),
                    forall|i: int, j: int|
                        0 <= i < n && i != idx as int && visited@[i] && #[trigger] edge_ok(
                            *m,
                            i,
                            j,
                        ) && 0 <= j < n ==> visited@[j] || in_stack(stack@, j),
                    forall|u: int|
                        0 <= u < t ==> visited@[ev[u].target] || in_stack(
                            stack@,
                            #[trigger] ev[u].target,
                        ),
                    forall|i: int| 0 <= i < n && visited@[i] ==> edges_resolve(*m, i),
                decreases ecount - t,
            {
                let tgt = es[t].target;
                proof {
                    assert(edge_matches(es@[t as int], ev[t as int]));
                    assert(edge_ok(*m, idx as int, tgt as int));
                    lemma_reaches_step(*m, *roots, idx as int, tgt as int);
                }
                if !visited[tgt] {
                    if parent[tgt] == tgt && tgt != idx {
                        parent.set(tgt, idx);
                    }
                    let ghost pre_stack = stack@;
                    stack.push(tgt);
                    proof {
                        assert forall|i: int| in_stack(pre_stack, i) implies in_stack(
                            stack@,
                            i,
                        ) by {
                            let t2 = choose|t2: int|
                                0 <= t2 < pre_stack.len() && #[trigger] pre_stack[t2] as int == i;
                            assert(stack@[t2] == pre_stack[t2]);
                        }
                        assert(stack@[pre_stack.len() as int] as int == tgt as int);
                        assert(in_stack(stack@, tgt as int));
                    }
                }
                t += 1;
            }
            proof {
                assert forall|j: int|
                    #[trigger] edge_ok(*m, idx as int, j) && 0 <= j < n implies visited@[j]
                    || in_stack(stack@, j) by {
                    let u = choose|u: int|
                        0 <= u < edges_of(*m, idx as int).len() && #[trigger] edges_of(
                            *m,
                            idx as int,
                        )[u].target == j;
                    assert(visited@[ev[u].target] || in_stack(stack@, ev[u].target));
                }
            }
        }
    }
    proof {
        lemma_closed_complete(*m, *roots, visited@);
    }
    Ok((visited, parent))
}

/// The type of lib target this tool supports.
#[derive(Clone, Copy, Debug, PartialEq, Eq, Structural, Hash)]
pub enum LibType {
    /// A normal Rust rlib library.
    Rlib,
    /// A Rust dynamic library.
    Dylib,
    /// A C-compatible dynamic library.
    Cdylib,
    /// A procedural macro.
    ProcMacro,
}

/// A build-target type this tool recognizes.
#[derive(Clone, Copy, Debug, PartialEq, Eq, Structural)]
pub enum TargetType {
    Lib(LibType),
    Bin,
    BuildScript,
}

/// The target type named by one kind string, if recognized.
pub open spec fn target_type_of_name(s: Seq<char>) -> Option<TargetType> {
    if s == "lib"@ || s == "rlib"@ {
        Some(TargetType::Lib(LibType::Rlib))
    } else if s == "dylib"@ {
        Some(TargetType::Lib(LibType::Dylib))
    } else if s == "cdylib"@ {
        Some(TargetType::Lib(LibType::Cdylib))
    } else if s == "proc-macro"@ {
        Some(TargetType::Lib(LibType::ProcMacro))
    } else if s == "bin"@ {
        Some(TargetType::Bin)
    } else if s == "custom-build"@ {
        Some(TargetType::BuildScript)
    } else {
        None
    }
}

/// The first recognized target type among a target's kind strings.
pub open spec fn target_type_of(kinds: Seq<String>) -> Option<TargetType>
    decreases kinds.len(),
{
    if kinds.len() == 0 {
        None
    } else {
        match target_type_of_name(kinds[0]@) {
            Some(t) => Some(t),
            None => target_type_of(kinds.drop_first()),
        }
    }
}

/// When every kind string before `i` is unrecognized, the result is decided
/// at `i`.
pub proof fn lemma_target_type_of_at(kinds: Seq<String>, i: int)
    requires
        0 <= i <= kinds.len(),
        forall|k: int| 0 <= k < i ==> target_type_of_name(#[trigger] kinds[k]@) is None,
    ensures
        target_type_of(kinds) == (if i < kinds.len() && target_type_of_name(kinds[i]@) is Some {
            target_type_of_name(kinds[i]@)
        } else {
            target_type_of(kinds.skip(i))
        }),
    decreases i,
{
    if i > 0 {
        assert(target_type_of_name(kinds[0]@) is None);
        assert(kinds.drop_first() =~= kinds.skip(1));
        assert forall|k: int|
            0 <= k < i - 1 implies target_type_of_name(#[trigger] kinds.skip(1)[k]@) is None by {
            assert(kinds.skip(1)[k] == kinds[k + 1]);
        }
        lemma_target_type_of_at(kinds.skip(1), i - 1);
        if i < kinds.len() {
            assert(kinds.skip(1)[i - 1] == kinds[i]);
        }
        assert(kinds.skip(1).skip(i - 1) =~= kinds.skip(i));
    } else {
        assert(kinds.skip(0) =~= kinds);
    }
}

impl TargetType {
    /// The target type named by one kind string, if this tool supports it.
    pub fn from_name(name: &str) -> (r: Option<TargetType>)
        ensures
            r == target_type_of_name(name@),
    {
        if str_eq(name, "lib") || str_eq(name, "rlib") {
            Some(TargetType::Lib(LibType::Rlib))
        } else if str_eq(name, "dylib") {
            Some(TargetType::Lib(LibType::Dylib))
        } else if str_eq(name, "cdylib") {
            Some(TargetType::Lib(LibType::Cdylib))
        } else if str_eq(name, "proc-macro") {
            Some(TargetType::Lib(LibType::ProcMacro))
        } else if str_eq(name, "bin") {
            Some(TargetType::Bin)
        } else if str_eq(name, "custom-build") {
            Some(TargetType::BuildScript)
        } else {
            None
        }
    }
}

/// The first recognized target type among a target's kind strings.
#[verifier::loop_isolation(false)]
fn target_type_of_kinds(kinds: &Vec<String>) -> (r: Option<TargetType>)
    ensures
        r == target_type_of(kinds@),
{
    let n = kinds.len();
    let mut i: usize = 0;
    while i < n
        invariant
            i <= n,
            forall|k: int| 0 <= k < i ==> target_type_of_name(#[trigger] kinds@[k]@) is None,
        decreases n - i,
    {
        match TargetType::from_name(kinds[i].as_str()) {
            Some(t) => {
                proof {
                    lemma_target_type_of_at(kinds@, i as int);
                }
                return Some(t);
            },
            None => {},
        }
        i += 1;
    }
    proof {
        lemma_target_type_of_at(kinds@, n as int);
        assert(kinds@.skip(n as int) =~= Seq::<String>::empty());
    }
    None
}

/// Description of a package's lib target.
#[derive(Debug, PartialEq, Eq)]
pub struct LibTarget {
    /// The path of the lib target's root source file.
    pub root: String,
    /// The type of the lib target.
    pub lib_type: LibType,
}

/// A binary provided by a package.
#[derive(Debug, PartialEq, Eq)]
pub struct BinTarget {
    /// The path of the binary's root source file.
    pub root: String,
    /// The binary name.
    pub name: String,
}

/// Model of a lib target.
pub struct LibTargetV {
    pub root: Seq<char>,
    pub lib_type: LibType,
}

/// Model of a binary target.
pub struct BinTargetV {
    pub root: Seq<char>,
    pub name: Seq<char>,
}

/// Model of the classification of a package's declared targets.
pub struct ClassifiedV {
    pub lib: Option<LibTargetV>,
    pub bins: Seq<BinTargetV>,
    pub script: Option<Seq<char>>,
}

/// Classifies the declared targets of a package: at most one library
/// target and at most one build script are allowed; binaries accumulate in
/// order; unrecognized targets are skipped.
pub open spec fn classify_targets(ts: Seq<PackageTarget>) -> Result<ClassifiedV, GraphError>
    decreases ts.len(),
{
    if ts.len() == 0 {
        Ok(ClassifiedV { lib: None, bins: Seq::empty(), script: None })
    } else {
        match classify_targets(ts.drop_last()) {
            Err(e) => Err(e),
            Ok(c) => {
                let t = ts.last();
                match target_type_of(t.kinds@) {
                    None => Ok(c),
                    Some(TargetType::Lib(lt)) => if c.lib is Some {
                        Err(GraphError::DuplicateLibTarget)
                    } else {
                        Ok(
                            ClassifiedV {
                                lib: Some(LibTargetV { root: t.src_path@, lib_type: lt }),
                                bins: c.bins,
                                script: c.script,
                            },
                        )
                    },
                    Some(TargetType::Bin) => Ok(
                        ClassifiedV {
                            lib: c.lib,
                            bins: c.bins.push(BinTargetV { root: t.src_path@, name: t.name@ }),
                            script: c.script,
                        },
                    ),
                    Some(TargetType::BuildScript) => if c.script is Some {
                        Err(GraphError::DuplicateBuildScript)
                    } else {
                        Ok(
                            ClassifiedV {
                                lib: c.lib,
                                bins: c.bins,
                                script: Some(t.src_path@),
                            },
                        )
                    },
                }
            },
        }
    }
}

/// One step of `classify_targets` from the left-to-right point of view.
pub proof fn lemma_classify_step(ts: Seq<PackageTarget>, i: int)
    requires
        0 <= i < ts.len(),
    ensures
        classify_targets(ts.take(i + 1)) == (match classify_targets(ts.take(i)) {
            Err(e) => Err::<ClassifiedV, GraphError>(e),
            Ok(c) => {
                match target_type_of(ts[i].kinds@) {
                    None => Ok(c),
                    Some(TargetType::Lib(lt)) => if c.lib is Some {
                        Err(GraphError::DuplicateLibTarget)
                    } else {
                        Ok(
                            ClassifiedV {
                                lib: Some(LibTargetV { root: ts[i].src_path@, lib_type: lt }),
                                bins: c.bins,
                                script: c.script,
                            },
                        )
                    },
                    Some(TargetType::Bin) => Ok(
                        ClassifiedV {
                            lib: c.lib,
                            bins: c.bins.push(
                                BinTargetV { root: ts[i].src_path@, name: ts[i].name@ },
                            ),
                            script: c.script,
                        },
                    ),
                    Some(TargetType::BuildScript) => if c.script is Some {
                        Err(GraphError::DuplicateBuildScript)
                    } else {
                        Ok(ClassifiedV { lib: c.lib, bins: c.bins, script: Some(ts[i].src_path@) })
                    },
                }
            },
        }),
{
    assert(ts.take(i + 1).drop_last() =~= ts.take(i));
    assert(ts.take(i + 1).last() == ts[i]);
    assert(ts.take(i + 1).len() == i + 1);
}

/// An error in a prefix decides the whole classification.
pub proof fn lemma_classify_err_persists(ts: Seq<PackageTarget>, i: int)
    requires
        0 <= i <= ts.len(),
        classify_targets(ts.take(i)) is Err,
    ensures
        classify_targets(ts) == classify_targets(ts.take(i)),
    decreases ts.len() - i,
{
    if i < ts.len() {
        lemma_classify_step(ts, i);
        lemma_classify_err_persists(ts, i + 1);
    } else {
        assert(ts.take(i) =~= ts);
    }
}

/// A failed classification reports a duplicate library or build script.
pub proof fn lemma_classify_err_kind(ts: Seq<PackageTarget>)
    requires
        classify_targets(ts) is Err,
    ensures
        classify_targets(ts) == Err::<ClassifiedV, GraphError>(GraphError::DuplicateLibTarget)
            || classify_targets(ts) == Err::<ClassifiedV, GraphError>(
            GraphError::DuplicateBuildScript,
        ),
    decreases ts.len(),
{
    if ts.len() > 0 {
        if classify_targets(ts.drop_last()) is Err {
            lemma_classify_err_kind(ts.drop_last());
        }
    }
}

/// Whether an optional executable lib target models an optional lib target.
pub open spec fn lib_matches(l: Option<LibTarget>, v: Option<LibTargetV>) -> bool {
    match (l, v) {
        (Option::None, Option::None) => true,
        (Option::Some(a), Option::Some(b)) => a.root@ == b.root && a.lib_type == b.lib_type,
        _ => false,
    }
}

/// Whether a list of executable binary targets models a list of binary
/// targets, elementwise.
pub open spec fn bins_match(bs: Seq<BinTarget>, vs: Seq<BinTargetV>) -> bool {
    bs.len() == vs.len() && forall|t: int|
        0 <= t < bs.len() ==> (#[trigger] bs[t]).root@ == vs[t].root && bs[t].name@ == vs[t].name
}

/// Whether an optional executable build-script path models an optional one.
pub open spec fn script_matches(s: Option<String>, v: Option<Seq<char>>) -> bool {
    match (s, v) {
        (Option::None, Option::None) => true,
        (Option::Some(a), Option::Some(b)) => a@ == b,
        _ => false,
    }
}

/// Classifies the declared targets of one package.
#[verifier::loop_isolation(false)]
fn classify_package_targets(ts: &Vec<PackageTarget>) -> (r: Result<
    (Option<LibTarget>, Vec<BinTarget>, Option<String>),
    GraphError,
>)
    ensures
        match r {
            Ok(out) => classify_targets(ts@) matches Ok(c) && lib_matches(out.0, c.lib)
                && bins_match(out.1@, c.bins) && script_matches(out.2, c.script),
            Err(e) => classify_targets(ts@) == Err::<ClassifiedV, GraphError>(e),
        },
{
    let mut lib: Option<LibTarget> = None;
    let mut bins: Vec<BinTarget> = Vec::new();
    let mut script: Option<String> = None;
    let n = ts.len();
    let mut i: usize = 0;
    proof {
        assert(ts@.take(0) =~= Seq::<PackageTarget>::empty());
    }
    while i < n
        invariant
            i <= n,
            n == ts@.len(),
            classify_targets(ts@.take(i as int)) matches Ok(c) && lib_matches(lib, c.lib)
                && bins_match(bins@, c.bins) && script_matches(script, c.script),
        decreases n - i,
    {
        proof {
            lemma_classify_step(ts@, i as int);
        }
        match target_type_of_kinds(&ts[i].kinds) {
            None => {},
            Some(TargetType::Lib(lt)) => {
                if lib.is_some() {
                    proof {
                        lemma_classify_err_persists(ts@, i as int + 1);
                    }
                    return Err(GraphError::DuplicateLibTarget);
                }
                lib = Some(LibTarget { root: ts[i].src_path.clone(), lib_type: lt });
            },
            Some(TargetType::Bin) => {
                bins.push(BinTarget { root: ts[i].src_path.clone(), name: ts[i].name.clone() });
            },
            Some(TargetType::BuildScript) => {
                if script.is_some() {
                    proof {
                        lemma_classify_err_persists(ts@, i as int + 1);
                    }
                    return Err(GraphError::DuplicateBuildScript);
                }
                script = Some(ts[i].src_path.clone());
            },
        }
        i += 1;
    }
    proof {
        assert(ts@.take(n as int) =~= ts@);
    }
    Ok((lib, bins, script))
}

/// The first index of the list holding exactly `default`, or -1.
pub open spec fn first_default(fs: Seq<String>) -> int
    decreases fs.len(),
{
    if fs.len() == 0 {
        -1
    } else if fs[0]@ == "default"@ {
        0
    } else {
        let r = first_default(fs.drop_first());
        if r < 0 {
            -1
        } else {
            r + 1
        }
    }
}

/// `first_default` finds the first occurrence, if there is one.
pub proof fn lemma_first_default(fs: Seq<String>)
    ensures
        first_default(fs) == -1 ==> forall|k: int| 0 <= k < fs.len() ==> fs[k]@ != "default"@,
        first_default(fs) != -1 ==> 0 <= first_default(fs) < fs.len() && fs[first_default(fs)]@
            == "default"@ && (forall|k: int| 0 <= k < first_default(fs) ==> fs[k]@ != "default"@),
    decreases fs.len(),
{
    if fs.len() > 0 && fs[0]@ != "default"@ {
        lemma_first_default(fs.drop_first());
        let r = first_default(fs.drop_first());
        if r == -1 {
            assert forall|k: int| 0 <= k < fs.len() implies fs[k]@ != "default"@ by {
                if k > 0 {
                    assert(fs.drop_first()[k - 1] == fs[k]);
                }
            }
        } else {
            assert(fs.drop_first()[r] == fs[r + 1]);
            assert forall|k: int| 0 <= k < r + 1 implies fs[k]@ != "default"@ by {
                if k > 0 {
                    assert(fs.drop_first()[k - 1] == fs[k]);
                }
            }
        }
    }
}

/// A first occurrence characterizes `first_default` uniquely.
pub proof fn lemma_first_default_unique(fs: Seq<String>, i: int)
    requires
        0 <= i < fs.len(),
        fs[i]@ == "default"@,
        forall|k: int| 0 <= k < i ==> fs[k]@ != "default"@,
    ensures
        first_default(fs) == i,
{
    lemma_first_default(fs);
    let r = first_default(fs);
    if r == -1 {
        assert(fs[i]@ != "default"@);
    } else {
        if r < i {
            assert(fs[r]@ != "default"@);
        }
        if i < r {
            assert(fs[i]@ != "default"@);
        }
    }
}

/// The resolved features of a node with the first literal `default` entry
/// removed, as the build rules expect.
pub open spec fn features_spec(fs: Seq<String>) -> Seq<String> {
    let i = first_default(fs);
    if i < 0 {
        fs
    } else {
        fs.remove(i)
    }
}

/// Copies the resolved feature list, dropping the first entry literally
/// named `default`.
#[verifier::loop_isolation(false)]
fn strip_default_feature(fs: &Vec<String>) -> (r: Vec<String>)
    ensures
        r@.len() == features_spec(fs@).len(),
        forall|k: int| 0 <= k < r@.len() ==> #[trigger] r@[k]@ == features_spec(fs@)[k]@,
{
    let n = fs.len();
    let mut di: usize = n;
    let mut i: usize = 0;
    while i < n
        invariant
            i <= n,
            di == n,
            n == fs@.len(),
            forall|k: int| 0 <= k < i ==> fs@[k]@ != "default"@,
        decreases n - i,
    {
        if str_eq(fs[i].as_str(), "default") {
            proof {
                lemma_first_default_unique(fs@, i as int);
            }
            di = i;
            break ;
        }
        i += 1;
    }
    proof {
        if di == n {
            lemma_first_default(fs@);
            if first_default(fs@) != -1 {
                assert(fs@[first_default(fs@)]@ == "default"@);
            }
        }
    }
    let mut out: Vec<String> = Vec::new();
    let mut k: usize = 0;
    while k < n
        invariant
            k <= n,
            n == fs@.len(),
            di == n ==> first_default(fs@) == -1,
            di < n ==> first_default(fs@) == di,
            out@.len() == (if k <= di {
                k as int
            } else {
                k - 1
            }),
            forall|t: int| 0 <= t < out@.len() && t < di ==> #[trigger] out@[t]@ == fs@[t]@,
            forall|t: int|
                di <= t < out@.len() ==> #[trigger] out@[t]@ == fs@[t + 1]@,
        decreases n - k,
    {
        if k != di {
            out.push(fs[k].clone());
        }
        k += 1;
    }
    proof {
        let spec = features_spec(fs@);
        if di < n {
            assert(spec =~= fs@.remove(di as int));
            assert forall|t: int| 0 <= t < out@.len() implies #[trigger] out@[t]@ == spec[t]@ by {
                if t < di {
                    assert(spec[t] == fs@[t]);
                } else {
                    assert(spec[t] == fs@[t + 1]);
                }
            }
        }
    }
    out
}

/// A dependency of a package in the output: cross-references another
/// package by name and version, with the platform filter rewritten to drop
/// unsupported terms.
#[derive(Debug, PartialEq, Eq)]
pub struct DepOfDep {
    /// This dependency's package name as used by cargo.
    pub package_name: String,
    /// The resolved version of this dependency.
    pub version: Version,
    /// A platform constraint for this dependency, or `None` if it is used
    /// on all platforms.
    pub platform: Option<Platform>,
}

/// Model of a `DepOfDep`.
pub struct DepOfDepV {
    pub package_name: Seq<char>,
    pub version: Version,
    pub platform: Option<PlatformV>,
}

/// Whether an executable dependency entry models a dependency entry.
pub open spec fn dep_of_dep_matches(d: DepOfDep, v: DepOfDepV) -> bool {
    d.package_name@ == v.package_name && d.version == v.version && opt_platform_matches(
        d.platform,
        v.platform,
    )
}

/// Whether a dependency list models a list of dependency entries.
pub open spec fn dep_list_matches(ds: Seq<DepOfDep>, vs: Seq<DepOfDepV>) -> bool {
    ds.len() == vs.len() && forall|t: int| 0 <= t < ds.len() ==> dep_of_dep_matches(
        #[trigger] ds[t],
        vs[t],
    )
}

/// The dependency entries of one kind among a node's supported edges, in
/// edge order: each target resolved through the package table, its platform
/// filter rewritten against the supported platforms.
pub open spec fn dep_list_spec(m: Metadata, es: Seq<EdgeV>, kind: DependencyKind) -> Seq<DepOfDepV>
    decreases es.len(),
{
    if es.len() == 0 {
        Seq::empty()
    } else {
        let rest = dep_list_spec(m, es.drop_last(), kind);
        let e = es.last();
        if e.kind == kind {
            let pj = find_pkg_idx(m.packages@, m.nodes@[e.target].id@);
            rest.push(
                DepOfDepV {
                    package_name: m.packages@[pj].name@,
                    version: m.packages@[pj].version,
                    platform: match e.platform {
                        Option::None => None,
                        Option::Some(pv) => filter_platform_spec(pv),
                    },
                },
            )
        } else {
            rest
        }
    }
}

/// One step of `dep_list_spec` from the left-to-right point of view.
pub proof fn lemma_dep_list_step(m: Metadata, es: Seq<EdgeV>, kind: DependencyKind, t: int)
    requires
        0 <= t < es.len(),
    ensures
        dep_list_spec(m, es.take(t + 1), kind) == (if es[t].kind == kind {
            dep_list_spec(m, es.take(t), kind).push(
                DepOfDepV {
                    package_name: m.packages@[find_pkg_idx(
                        m.packages@,
                        m.nodes@[es[t].target].id@,
                    )].name@,
                    version: m.packages@[find_pkg_idx(
                        m.packages@,
                        m.nodes@[es[t].target].id@,
                    )].version,
                    platform: match es[t].platform {
                        Option::None => None,
                        Option::Some(pv) => filter_platform_spec(pv),
                    },
                },
            )
        } else {
            dep_list_spec(m, es.take(t), kind)
        }),
{
    assert(es.take(t + 1).drop_last() =~= es.take(t));
    assert(es.take(t + 1).last() == es[t]);
    assert(es.take(t + 1).len() == t + 1);
}

/// Every edge resolves its target through the package table.
pub open spec fn dep_pkgs_resolve(m: Metadata, es: Seq<EdgeV>) -> bool {
    forall|t: int| 0 <= t < es.len() ==> find_pkg_idx(
        m.packages@,
        m.nodes@[#[trigger] es[t].target].id@,
    ) >= 0
}

/// No edge carries an unrecognized dependency kind.
pub open spec fn kinds_known(es: Seq<EdgeV>) -> bool {
    forall|t: int| 0 <= t < es.len() ==> (#[trigger] es[t].kind) != DependencyKind::Unknown
}

/// Every platform filter kept on an edge matches a supported target.
pub proof fn lemma_kind_edges_supported(target: int, ks: Seq<DepKindInfo>)
    ensures
        forall|t: int|
            0 <= t < kind_edges(target, ks).len() ==> match #[trigger] kind_edges(
                target,
                ks,
            )[t].platform {
                Option::None => true,
                Option::Some(pv) => platform_matches_supported(pv),
            },
    decreases ks.len(),
{
    if ks.len() > 0 {
        lemma_kind_edges_supported(target, ks.drop_last());
    }
}

/// Every platform filter kept on a node's edges matches a supported target.
pub proof fn lemma_deps_edges_supported(nodes: Seq<Node>, ds: Seq<NodeDep>)
    ensures
        forall|t: int|
            0 <= t < deps_edges(nodes, ds).len() ==> match #[trigger] deps_edges(
                nodes,
                ds,
            )[t].platform {
                Option::None => true,
                Option::Some(pv) => platform_matches_supported(pv),
            },
    decreases ds.len(),
{
    if ds.len() > 0 {
        lemma_deps_edges_supported(nodes, ds.drop_last());
        let target = find_node_idx(nodes, ds.last().pkg@);
        lemma_kind_edges_supported(target, ds.last().dep_kinds@);
    }
}

/// Builds the three per-kind dependency lists of one node from its
/// supported edges.
#[verifier::loop_isolation(false)]
fn build_dep_lists(m: &Metadata, es: &Vec<Edge>, ev: Ghost<Seq<EdgeV>>) -> (r: Result<
    (Vec<DepOfDep>, Vec<DepOfDep>, Vec<DepOfDep>),
    GraphError,
>)
    requires
        edges_match(es@, ev@),
        forall|t: int| 0 <= t < ev@.len() ==> 0 <= #[trigger] ev@[t].target < m.nodes@.len(),
        forall|t: int|
            0 <= t < ev@.len() ==> match #[trigger] ev@[t].platform {
                Option::None => true,
                Option::Some(pv) => platform_matches_supported(pv),
            },
    ensures
        match r {
            Ok(out) => {
                &&& dep_list_matches(out.0@, dep_list_spec(*m, ev@, DependencyKind::Normal))
                &&& dep_list_matches(out.1@, dep_list_spec(*m, ev@, DependencyKind::Build))
                &&& dep_list_matches(out.2@, dep_list_spec(*m, ev@, DependencyKind::Development))
                &&& dep_pkgs_resolve(*m, ev@)
                &&& kinds_known(ev@)
            },
            Err(e) => (e == GraphError::MissingPackage && !dep_pkgs_resolve(*m, ev@)) || (e
                == GraphError::UnknownDependencyKind && !kinds_known(ev@)),
        },
{
    let mut normal: Vec<DepOfDep> = Vec::new();
    let mut build: Vec<DepOfDep> = Vec::new();
    let mut dev: Vec<DepOfDep> = Vec::new();
    let n = es.len();
    let mut t: usize = 0;
    proof {
        assert(ev@.take(0) =~= Seq::<EdgeV>::empty());
    }
    while t < n
        invariant
            t <= n,
            n == es@.len(),
            dep_list_matches(normal@, dep_list_spec(*m, ev@.take(t as int), DependencyKind::Normal)),
            dep_list_matches(build@, dep_list_spec(*m, ev@.take(t as int), DependencyKind::Build)),
            dep_list_matches(
                dev@,
                dep_list_spec(*m, ev@.take(t as int), DependencyKind::Development),
            ),
            forall|u: int| 0 <= u < t ==> find_pkg_idx(
                m.packages@,
                m.nodes@[#[trigger] ev@[u].target].id@,
            ) >= 0,
            forall|u: int| 0 <= u < t ==> (#[trigger] ev@[u].kind) != DependencyKind::Unknown,
        decreases n - t,
    {
        let e = &es[t];
        proof {
            assert(edge_matches(es@[t as int], ev@[t as int]));
            lemma_dep_list_step(*m, ev@, DependencyKind::Normal, t as int);
            lemma_dep_list_step(*m, ev@, DependencyKind::Build, t as int);
            lemma_dep_list_step(*m, ev@, DependencyKind::Development, t as int);
        }
        let pj = match find_pkg(&m.packages, m.nodes[e.target].id.as_str()) {
            Some(x) => x,
            None => {
                proof {
                    assert(find_pkg_idx(m.packages@, m.nodes@[ev@[t as int].target].id@) < 0);
                }
                return Err(GraphError::MissingPackage);
            },
        };
        let platform: Option<Platform> = match &e.platform {
            None => None,
            Some(p) => filter_unsupported_platform_terms(clone_platform(p)),
        };
        let dod = DepOfDep {
            package_name: m.packages[pj].name.clone(),
            version: m.packages[pj].version,
            platform,
        };
        match e.kind {
            DependencyKind::Normal => {
                normal.push(dod);
            },
            DependencyKind::Build => {
                build.push(dod);
            },
            DependencyKind::Development => {
                dev.push(dod);
            },
            DependencyKind::Unknown => {
                proof {
                    assert(ev@[t as int].kind == DependencyKind::Unknown);
                }
                return Err(GraphError::UnknownDependencyKind);
            },
        }
        t += 1;
    }
    proof {
        assert(ev@.take(n as int) =~= ev@);
    }
    Ok((normal, build, dev))
}

/// Information specific to one dependency kind: the platforms the kind is
/// needed on, and the features resolved for it.
#[derive(Debug)]
pub struct PerKindInfo {
    /// The set of platforms this kind is needed on.
    pub platforms: PlatformSet,
    /// The resolved feature set for this kind.
    pub features: Vec<String>,
}

/// The first entry of the list for the kind, if any.
pub open spec fn kinds_lookup(entries: Seq<(DependencyKind, PerKindInfo)>, kind: DependencyKind) -> Option<
    PerKindInfo,
>
    decreases entries.len(),
{
    if entries.len() == 0 {
        None
    } else if entries[0].0 == kind {
        Some(entries[0].1)
    } else {
        kinds_lookup(entries.drop_first(), kind)
    }
}

/// A first matching entry decides the lookup.
pub proof fn lemma_kinds_lookup_at(
    entries: Seq<(DependencyKind, PerKindInfo)>,
    kind: DependencyKind,
    i: int,
)
    requires
        0 <= i <= entries.len(),
        forall|k: int| 0 <= k < i ==> (#[trigger] entries[k]).0 != kind,
    ensures
        kinds_lookup(entries, kind) == (if i < entries.len() && entries[i].0 == kind {
            Some(entries[i].1)
        } else {
            kinds_lookup(entries.skip(i), kind)
        }),
    decreases i,
{
    if i > 0 {
        assert(entries[0].0 != kind);
        assert(entries.drop_first() =~= entries.skip(1));
        assert forall|k: int| 0 <= k < i - 1 implies (#[trigger] entries.skip(1)[k]).0 != kind by {
            assert(entries.skip(1)[k] == entries[k + 1]);
        }
        lemma_kinds_lookup_at(entries.skip(1), kind, i - 1);
        if i < entries.len() {
            assert(entries.skip(1)[i - 1] == entries[i]);
        }
        assert(entries.skip(1).skip(i - 1) =~= entries.skip(i));
    } else {
        assert(entries.skip(0) =~= entries);
    }
}

/// The ways a package is depended on, with the information for each way.
#[derive(Debug)]
pub struct DependencyKinds {
    /// One entry for each dependency kind under which the package is
    /// reached, each kind at most once.
    pub entries: Vec<(DependencyKind, PerKindInfo)>,
}

impl DependencyKinds {
    /// The entry for one dependency kind, if the package is depended on
    /// that way.
    #[verifier::loop_isolation(false)]
    pub fn get(&self, kind: DependencyKind) -> (r: Option<&PerKindInfo>)
        ensures
            match r {
                Some(p) => kinds_lookup(self.entries@, kind) == Some(*p),
                None => kinds_lookup(self.entries@, kind) is None,
            },
    {
        let n = self.entries.len();
        let mut i: usize = 0;
        while i < n
            invariant
                i <= n,
                forall|k: int| 0 <= k < i ==> (#[trigger] self.entries@[k]).0 != kind,
            decreases n - i,
        {
            if self.entries[i].0 == kind {
                proof {
                    lemma_kinds_lookup_at(self.entries@, kind, i as int);
                }
                return Some(&self.entries[i].1);
            }
            i += 1;
        }
        proof {
            lemma_kinds_lookup_at(self.entries@, kind, n as int);
            assert(self.entries@.skip(n as int) =~= Seq::<(DependencyKind, PerKindInfo)>::empty());
        }
        None
    }
}

/// A supported edge of the given kind and platform filter leads into `j`
/// from some node accepted by `vis`.
pub open spec fn in_edge(
    m: Metadata,
    vis: Seq<bool>,
    j: int,
    kind: DependencyKind,
    pl: Option<PlatformV>,
) -> bool {
    exists|i: int, t: int|
        0 <= i < vis.len() && vis[i] && 0 <= t < edges_of(m, i).len() && #[trigger] edges_of(
            m,
            i,
        )[t] == (EdgeV { target: j, kind: kind, platform: pl })
}

/// The platform filters on the matching edges of one row of edges.
pub open spec fn row_pls(es: Seq<EdgeV>, j: int, kind: DependencyKind) -> Seq<Option<PlatformV>>
    decreases es.len(),
{
    if es.len() == 0 {
        Seq::empty()
    } else {
        let rest = row_pls(es.drop_last(), j, kind);
        let e = es.last();
        if e.target == j && e.kind == kind {
            rest.push(e.platform)
        } else {
            rest
        }
    }
}

/// One step of `row_pls` from the left-to-right point of view.
pub proof fn lemma_row_pls_step(es: Seq<EdgeV>, j: int, kind: DependencyKind, t: int)
    requires
        0 <= t < es.len(),
    ensures
        row_pls(es.take(t + 1), j, kind) == (if es[t].target == j && es[t].kind == kind {
            row_pls(es.take(t), j, kind).push(es[t].platform)
        } else {
            row_pls(es.take(t), j, kind)
        }),
{
    assert(es.take(t + 1).drop_last() =~= es.take(t));
    assert(es.take(t + 1).last() == es[t]);
    assert(es.take(t + 1).len() == t + 1);
}

/// A row contains a filter exactly when a matching edge carries it.
pub proof fn lemma_row_pls_contains(es: Seq<EdgeV>, j: int, kind: DependencyKind)
    ensures
        forall|pl: Option<PlatformV>| #[trigger]
            row_pls(es, j, kind).contains(pl) <==> exists|t: int|
                0 <= t < es.len() && #[trigger] es[t] == (EdgeV {
                    target: j,
                    kind: kind,
                    platform: pl,
                }),
    decreases es.len(),
{
    if es.len() > 0 {
        lemma_row_pls_contains(es.drop_last(), j, kind);
        let dl = es.drop_last();
        let e = es.last();
        assert forall|pl: Option<PlatformV>| #[trigger]
            row_pls(es, j, kind).contains(pl) implies exists|t: int|
            0 <= t < es.len() && #[trigger] es[t] == (EdgeV {
                target: j,
                kind: kind,
                platform: pl,
            }) by {
            let u = choose|u: int|
                0 <= u < row_pls(es, j, kind).len() && row_pls(es, j, kind)[u] == pl;
            if e.target == j && e.kind == kind {
                if u < row_pls(dl, j, kind).len() {
                    assert(row_pls(dl, j, kind).contains(pl));
                    let t = choose|t: int|
                        0 <= t < dl.len() && #[trigger] dl[t] == (EdgeV {
                            target: j,
                            kind: kind,
                            platform: pl,
                        });
                    assert(es[t] == dl[t]);
                } else {
                    assert(pl == e.platform);
                    assert(es[es.len() - 1] == e);
                }
            } else {
                assert(row_pls(dl, j, kind).contains(pl));
                let t = choose|t: int|
                    0 <= t < dl.len() && #[trigger] dl[t] == (EdgeV {
                        target: j,
                        kind: kind,
                        platform: pl,
                    });
                assert(es[t] == dl[t]);
            }
        }
        assert forall|pl: Option<PlatformV>|
            (exists|t: int|
                0 <= t < es.len() && #[trigger] es[t] == (EdgeV {
                    target: j,
                    kind: kind,
                    platform: pl,
                })) implies #[trigger] row_pls(es, j, kind).contains(pl) by {
            let t = choose|t: int|
                0 <= t < es.len() && #[trigger] es[t] == (EdgeV {
                    target: j,
                    kind: kind,
                    platform: pl,
                });
            if t < es.len() - 1 {
                assert(dl[t] == es[t]);
                assert(row_pls(dl, j, kind).contains(pl));
                let u = choose|u: int|
                    0 <= u < row_pls(dl, j, kind).len() && row_pls(dl, j, kind)[u] == pl;
                assert(row_pls(es, j, kind)[u] == pl);
                assert(row_pls(es, j, kind).contains(pl));
            } else {
                assert(es[t] == e);
                let rl = row_pls(es, j, kind);
                assert(rl[rl.len() - 1] == pl);
                assert(rl.contains(pl));
            }
        }
    }
}

/// The platform filters of all matching edges from accepted rows before
/// `i`, in row order.
pub open spec fn kind_pl_list(
    m: Metadata,
    vis: Seq<bool>,
    j: int,
    kind: DependencyKind,
    i: int,
) -> Seq<Option<PlatformV>>
    decreases i,
{
    if i <= 0 {
        Seq::empty()
    } else {
        kind_pl_list(m, vis, j, kind, i - 1) + (if vis[i - 1] {
            row_pls(edges_of(m, i - 1), j, kind)
        } else {
            Seq::empty()
        })
    }
}

/// The collected filters are exactly those on matching edges from accepted
/// rows.
pub proof fn lemma_kind_pl_list_contains(
    m: Metadata,
    vis: Seq<bool>,
    j: int,
    kind: DependencyKind,
    i: int,
)
    requires
        0 <= i <= vis.len(),
    ensures
        forall|pl: Option<PlatformV>| #[trigger]
            kind_pl_list(m, vis, j, kind, i).contains(pl) <==> exists|i2: int, t: int|
                0 <= i2 < i && vis[i2] && 0 <= t < edges_of(m, i2).len() && #[trigger] edges_of(
                    m,
                    i2,
                )[t] == (EdgeV { target: j, kind: kind, platform: pl }),
    decreases i,
{
    if i > 0 {
        lemma_kind_pl_list_contains(m, vis, j, kind, i - 1);
        lemma_row_pls_contains(edges_of(m, i - 1), j, kind);
        let prev = kind_pl_list(m, vis, j, kind, i - 1);
        let row = if vis[i - 1] {
            row_pls(edges_of(m, i - 1), j, kind)
        } else {
            Seq::<Option<PlatformV>>::empty()
        };
        let cur = kind_pl_list(m, vis, j, kind, i);
        assert forall|pl: Option<PlatformV>| #[trigger]
            cur.contains(pl) implies exists|i2: int, t: int|
            0 <= i2 < i && vis[i2] && 0 <= t < edges_of(m, i2).len() && #[trigger] edges_of(
                m,
                i2,
            )[t] == (EdgeV { target: j, kind: kind, platform: pl }) by {
            let u = choose|u: int| 0 <= u < cur.len() && cur[u] == pl;
            if u < prev.len() {
                assert(prev[u] == pl);
                assert(prev.contains(pl));
            } else {
                assert(row[u - prev.len()] == pl);
                assert(row.contains(pl));
            }
        }
        assert forall|pl: Option<PlatformV>|
            (exists|i2: int, t: int|
                0 <= i2 < i && vis[i2] && 0 <= t < edges_of(m, i2).len() && #[trigger] edges_of(
                    m,
                    i2,
                )[t] == (EdgeV { target: j, kind: kind, platform: pl })) implies #[trigger]
            cur.contains(pl) by {
            let (i2, t) = choose|i2: int, t: int|
                0 <= i2 < i && vis[i2] && 0 <= t < edges_of(m, i2).len() && #[trigger] edges_of(
                    m,
                    i2,
                )[t] == (EdgeV { target: j, kind: kind, platform: pl });
            if i2 < i - 1 {
                assert(prev.contains(pl));
                let u = choose|u: int| 0 <= u < prev.len() && prev[u] == pl;
                assert(cur[u] == pl);
            } else {
                assert(row.contains(pl));
                let u = choose|u: int| 0 <= u < row.len() && row[u] == pl;
                assert(cur[prev.len() + u] == pl);
            }
        }
    }
}

/// The fold of `PlatformSet::add` over a list of filters, starting empty.
pub open spec fn fold_add(s: Seq<Option<PlatformV>>) -> PlatformSetV
    decreases s.len(),
{
    if s.len() == 0 {
        PlatformSetV::Platforms(Seq::empty())
    } else {
        let prev = fold_add(s.drop_last());
        match prev {
            PlatformSetV::All => PlatformSetV::All,
            PlatformSetV::Platforms(v) => match s.last() {
                Option::None => PlatformSetV::All,
                Option::Some(p) => if contains_platform(v, p) {
                    prev
                } else {
                    PlatformSetV::Platforms(v.push(p))
                },
            },
        }
    }
}

/// One step of `fold_add` from the left-to-right point of view.
pub proof fn lemma_fold_add_step(s: Seq<Option<PlatformV>>, t: int)
    requires
        0 <= t < s.len(),
    ensures
        fold_add(s.take(t + 1)) == (match fold_add(s.take(t)) {
            PlatformSetV::All => PlatformSetV::All,
            PlatformSetV::Platforms(v) => match s[t] {
                Option::None => PlatformSetV::All,
                Option::Some(p) => if contains_platform(v, p) {
                    fold_add(s.take(t))
                } else {
                    PlatformSetV::Platforms(v.push(p))
                },
            },
        }),
{
    assert(s.take(t + 1).drop_last() =~= s.take(t));
    assert(s.take(t + 1).last() == s[t]);
    assert(s.take(t + 1).len() == t + 1);
}

/// The fold collapses to every platform exactly when some filter was
/// absent, and otherwise holds exactly the filters of the list.
pub proof fn lemma_fold_add_props(s: Seq<Option<PlatformV>>)
    ensures
        (fold_add(s) is All) <==> s.contains(None),
        fold_add(s) matches PlatformSetV::Platforms(v) ==> (forall|x: PlatformV|
            contains_platform(v, x) <==> #[trigger] s.contains(Some(x))),
    decreases s.len(),
{
    if s.len() > 0 {
        lemma_fold_add_props(s.drop_last());
        let dl = s.drop_last();
        let last = s.last();
        assert(s[s.len() - 1] == last);
        if s.contains(None) && !(fold_add(s) is All) {
            let u = choose|u: int| 0 <= u < s.len() && s[u] == None::<PlatformV>;
            if u < s.len() - 1 {
                assert(dl[u] == s[u]);
                assert(dl.contains(None));
            }
        }
        if fold_add(s) is All && !s.contains(None) {
            if fold_add(dl) is All {
                assert(dl.contains(None));
                let u = choose|u: int| 0 <= u < dl.len() && dl[u] == None::<PlatformV>;
                assert(s[u] == dl[u]);
                assert(s.contains(None));
            } else {
                assert(last is None);
                assert(s.contains(None));
            }
        }
        match fold_add(s) {
            PlatformSetV::All => {},
            PlatformSetV::Platforms(v) => {
                let vprev = fold_add(dl)->Platforms_0;
                assert forall|x: PlatformV| contains_platform(v, x) implies #[trigger] s.contains(
                    Some(x),
                ) by {
                    match last {
                        Option::Some(p) => {
                            if contains_platform(vprev, p) {
                                assert(dl.contains(Some(x)));
                                let u = choose|u: int|
                                    0 <= u < dl.len() && dl[u] == Some::<PlatformV>(x);
                                assert(s[u] == dl[u]);
                            } else {
                                if x == p {
                                    assert(s.contains(Some(x)));
                                } else {
                                    assert(contains_platform(vprev, x)) by {
                                        let u = choose|u: int|
                                            0 <= u < v.len() && v[u] == x;
                                        assert(v[u] == vprev.push(p)[u]);
                                        if u < vprev.len() {
                                            assert(vprev[u] == x);
                                        }
                                    }
                                    assert(dl.contains(Some(x)));
                                    let u = choose|u: int|
                                        0 <= u < dl.len() && dl[u] == Some::<PlatformV>(x);
                                    assert(s[u] == dl[u]);
                                }
                            }
                        },
                        Option::None => {},
                    }
                }
                assert forall|x: PlatformV| #[trigger]
                    s.contains(Some(x)) implies contains_platform(v, x) by {
                    let u = choose|u: int| 0 <= u < s.len() && s[u] == Some::<PlatformV>(x);
                    match last {
                        Option::Some(p) => {
                            if u < s.len() - 1 {
                                assert(dl[u] == s[u]);
                                assert(dl.contains(Some(x)));
                                assert(contains_platform(vprev, x));
                                if contains_platform(vprev, p) {
                                    assert(v == vprev);
                                } else {
                                    let w = choose|w: int| 0 <= w < vprev.len() && vprev[w] == x;
                                    assert(v[w] == vprev.push(p)[w]);
                                    assert(contains_platform(v, x));
                                }
                            } else {
                                assert(x == p);
                                if contains_platform(vprev, p) {
                                    assert(v == vprev);
                                } else {
                                    assert(v[v.len() - 1] == p);
                                    assert(contains_platform(v, x));
                                }
                            }
                        },
                        Option::None => {},
                    }
                }
            },
        }
    } else {
        assert(!s.contains(None)) by {
            if s.contains(None) {
                let u = choose|u: int| 0 <= u < s.len() && s[u] == None::<PlatformV>;
            }
        }
        assert forall|x: PlatformV|
            contains_platform(Seq::<PlatformV>::empty(), x) <==> #[trigger] s.contains(
            Some(x),
        ) by {
            if s.contains(Some(x)) {
                let u = choose|u: int| 0 <= u < s.len() && s[u] == Some::<PlatformV>(x);
            }
            if contains_platform(Seq::<PlatformV>::empty(), x) {
                let u = choose|u: int|
                    0 <= u < Seq::<PlatformV>::empty().len() && Seq::<PlatformV>::empty()[u] == x;
            }
        }
    }
}

/// Whether a list of optional executable platform filters models a list of
/// optional filters, elementwise.
pub open spec fn pls_match(ps: Seq<Option<Platform>>, vs: Seq<Option<PlatformV>>) -> bool {
    ps.len() == vs.len() && forall|t: int| 0 <= t < ps.len() ==> opt_platform_matches(
        #[trigger] ps[t],
        vs[t],
    )
}

/// Collects the platform filters of every supported edge of one kind into
/// node `j` from accepted rows, and folds them into a platform set.
#[verifier::loop_isolation(false)]
fn kind_platforms(m: &Metadata, visited: &Vec<bool>, j: usize, kind: DependencyKind) -> (r: (
    bool,
    PlatformSet,
))
    requires
        visited@.len() == m.nodes@.len(),
        forall|i: int| 0 <= i < m.nodes@.len() && visited@[i] ==> edges_resolve(*m, i),
    ensures
        r.0 == (kind_pl_list(*m, visited@, j as int, kind, m.nodes@.len() as int).len() != 0),
        r.1@ == fold_add(kind_pl_list(*m, visited@, j as int, kind, m.nodes@.len() as int)),
        r.1.wf(),
{
    let n = m.nodes.len();
    let ghost full = kind_pl_list(*m, visited@, j as int, kind, n as int);
    let mut pls: Vec<Option<Platform>> = Vec::new();
    let mut i: usize = 0;
    while i < n
        invariant
            i <= n,
            n == m.nodes@.len(),
            pls_match(pls@, kind_pl_list(*m, visited@, j as int, kind, i as int)),
        decreases n - i,
    {
        if visited[i] {
            let es = match node_edges(m, i) {
                Ok(es) => es,
                Err(_) => unreached(),
            };
            let ghost ev = edges_of(*m, i as int);
            let ecount = es.len();
            let mut t: usize = 0;
            proof {
                assert(ev.take(0) =~= Seq::<EdgeV>::empty());
            }
            while t < ecount
                invariant
                    t <= ecount,
                    ecount == es@.len(),
                    edges_match(es@, ev),
                    ev == edges_of(*m, i as int),
                    i < n,
                    n == m.nodes@.len(),
                    visited@[i as int],
                    pls_match(
                        pls@,
                        kind_pl_list(*m, visited@, j as int, kind, i as int) + row_pls(
                            ev.take(t as int),
                            j as int,
                            kind,
                        ),
                    ),
                decreases ecount - t,
            {
                proof {
                    assert(edge_matches(es@[t as int], ev[t as int]));
                    lemma_row_pls_step(ev, j as int, kind, t as int);
                }
                let e = &es[t];
                if e.target == j && e.kind == kind {
                    let pl: Option<Platform> = match &e.platform {
                        None => None,
                        Some(p) => Some(clone_platform(p)),
                    };
                    pls.push(pl);
                }
                t += 1;
            }
            proof {
                assert(ev.take(ecount as int) =~= ev);
            }
        }
        i += 1;
    }
    let ghost speclist = kind_pl_list(*m, visited@, j as int, kind, n as int);
    let found = pls.len() > 0;
    let mut ps = PlatformSet::empty();
    let pcount = pls.len();
    let mut t: usize = 0;
    proof {
        assert(speclist.take(0) =~= Seq::<Option<PlatformV>>::empty());
    }
    while t < pcount
        invariant
            t <= pcount,
            pcount == pls@.len(),
            pls_match(pls@, speclist),
            ps.wf(),
            ps@ == fold_add(speclist.take(t as int)),
        decreases pcount - t,
    {
        proof {
            lemma_fold_add_step(speclist, t as int);
            assert(opt_platform_matches(pls@[t as int], speclist[t as int]));
        }
        let pl: Option<Platform> = match &pls[t] {
            None => None,
            Some(p) => Some(clone_platform(p)),
        };
        ps.add(pl);
        t += 1;
    }
    proof {
        assert(speclist.take(pcount as int) =~= speclist);
    }
    (found, ps)
}

/// A single transitive dependency of a root crate, with the information
/// needed for generating build rules.
#[derive(Debug)]
pub struct Package {
    /// The package name as used by cargo.
    pub package_name: String,
    /// The package version as used by cargo.
    pub version: Version,
    /// This package's dependencies; each entry cross-references another
    /// `Package` by name and version.
    pub dependencies: Vec<DepOfDep>,
    /// Same as the above, but for build-script dependencies.
    pub build_dependencies: Vec<DepOfDep>,
    /// Same as the above, but for test dependencies.
    pub dev_dependencies: Vec<DepOfDep>,
    /// An entry for each way this package is depended on.
    pub dependency_kinds: DependencyKinds,
    /// The package's lib target, if it has one.
    pub lib_target: Option<LibTarget>,
    /// The binaries provided by the package.
    pub bin_targets: Vec<BinTarget>,
    /// The build script's root path, if the package uses one.
    pub build_script: Option<String>,
    /// A path of package ids from a traversal start to this package, for
    /// human consumption when debugging.
    pub dependency_path: Vec<String>,
    /// Whether the source is a local path rather than a registry.
    pub is_local: bool,
    /// Whether this package is a member of the workspace the graph came
    /// from.
    pub is_workspace_member: bool,
}

/// A supported edge of this kind and filter reaches `j` from some node
/// reachable from the traversal starts.
pub open spec fn in_edge_reach(
    m: Metadata,
    roots: Option<Vec<String>>,
    j: int,
    kind: DependencyKind,
    pl: Option<PlatformV>,
) -> bool {
    exists|i: int, t: int|
        0 <= i < m.nodes@.len() && reaches(m, roots, i) && 0 <= t < edges_of(m, i).len()
            && #[trigger] edges_of(m, i)[t] == (EdgeV { target: j, kind: kind, platform: pl })
}

/// The two notions of incoming edge agree when `vis` marks exactly the
/// reachable nodes.
proof fn lemma_in_edge_equiv(
    m: Metadata,
    roots: Option<Vec<String>>,
    vis: Seq<bool>,
    j: int,
    kind: DependencyKind,
)
    requires
        vis.len() == m.nodes@.len(),
        forall|i: int| 0 <= i < vis.len() ==> vis[i] == reaches(m, roots, i),
    ensures
        forall|pl: Option<PlatformV>| #[trigger]
            in_edge(m, vis, j, kind, pl) <==> in_edge_reach(m, roots, j, kind, pl),
{
    assert forall|pl: Option<PlatformV>| #[trigger]
        in_edge(m, vis, j, kind, pl) <==> in_edge_reach(m, roots, j, kind, pl) by {
        if in_edge(m, vis, j, kind, pl) {
            let (i, t) = choose|i: int, t: int|
                0 <= i < vis.len() && vis[i] && 0 <= t < edges_of(m, i).len() && #[trigger] edges_of(
                    m,
                    i,
                )[t] == (EdgeV { target: j, kind: kind, platform: pl });
            assert(reaches(m, roots, i));
            assert(in_edge_reach(m, roots, j, kind, pl));
        }
        if in_edge_reach(m, roots, j, kind, pl) {
            let (i, t) = choose|i: int, t: int|
                0 <= i < m.nodes@.len() && reaches(m, roots, i) && 0 <= t < edges_of(m, i).len()
                    && #[trigger] edges_of(m, i)[t] == (EdgeV {
                    target: j,
                    kind: kind,
                    platform: pl,
                });
            assert(vis[i]);
            assert(in_edge(m, vis, j, kind, pl));
        }
    }
}

/// The per-kind entry of a built package is faithful for one kind: present
/// exactly when some reachable node depends on `j` this way, its platform
/// set holding exactly the filters of those edges (with no filter at all
/// collapsing the set to every platform), and its features being the
/// node's resolved features without the literal `default`.
pub open spec fn kind_entry_matches(
    m: Metadata,
    roots: Option<Vec<String>>,
    j: int,
    entries: Seq<(DependencyKind, PerKindInfo)>,
    kind: DependencyKind,
) -> bool {
    match kinds_lookup(entries, kind) {
        Option::None => !(exists|pl: Option<PlatformV>| in_edge_reach(m, roots, j, kind, pl)),
        Option::Some(info) => {
            &&& exists|pl: Option<PlatformV>| in_edge_reach(m, roots, j, kind, pl)
            &&& info.platforms.wf()
            &&& ((info.platforms@ is All) <==> in_edge_reach(m, roots, j, kind, None))
            &&& (info.platforms@ matches PlatformSetV::Platforms(s) ==> (forall|x: PlatformV|
                contains_platform(s, x) <==> in_edge_reach(m, roots, j, kind, Some(x))))
            &&& info.features@.len() == features_spec(m.nodes@[j].features@).len()
            &&& (forall|k: int|
                0 <= k < info.features@.len() ==> (#[trigger] info.features@[k])@ == features_spec(
                    m.nodes@[j].features@,
                )[k]@)
        },
    }
}

/// The node whose id equals the root id of the graph: the synthetic root
/// package, which is never surfaced in the output.
pub open spec fn excluded_root(m: Metadata, j: int) -> bool {
    m.nodes@[j].id@ == m.root@
}

/// The conditions for building the output entry of node `j`.
pub open spec fn node_entry_ok(m: Metadata, j: int) -> bool {
    &&& find_pkg_idx(m.packages@, m.nodes@[j].id@) >= 0
    &&& classify_targets(m.packages@[find_pkg_idx(m.packages@, m.nodes@[j].id@)].targets@) is Ok
    &&& kinds_known(edges_of(m, j))
    &&& dep_pkgs_resolve(m, edges_of(m, j))
}

/// The whole input is fit for collection: node ids unique, every requested
/// start resolvable, every reachable node's edges resolvable, and every
/// surfaced package's entry buildable.
pub open spec fn collect_ok(m: Metadata, roots: Option<Vec<String>>) -> bool {
    &&& unique_node_ids(m.nodes@)
    &&& starts_resolve(m, roots)
    &&& (forall|i: int|
        0 <= i < m.nodes@.len() && reaches(m, roots, i) ==> edges_resolve(m, i))
    &&& (forall|j: int|
        0 <= j < m.nodes@.len() && reaches(m, roots, j) && !excluded_root(m, j) ==> node_entry_ok(
            m,
            j,
        ))
}

/// The output entry of node `j` is fully populated from the graph: name and
/// version from the package table, per-kind dependency lists in edge order
/// with rewritten platforms, targets classified, per-kind info faithful,
/// and locality and membership flags set.
pub open spec fn package_populated(
    m: Metadata,
    roots: Option<Vec<String>>,
    j: int,
    p: Package,
) -> bool {
    let pj = find_pkg_idx(m.packages@, m.nodes@[j].id@);
    &&& p.package_name@ == m.packages@[pj].name@
    &&& p.version == m.packages@[pj].version
    &&& dep_list_matches(p.dependencies@, dep_list_spec(m, edges_of(m, j), DependencyKind::Normal))
    &&& dep_list_matches(
        p.build_dependencies@,
        dep_list_spec(m, edges_of(m, j), DependencyKind::Build),
    )
    &&& dep_list_matches(
        p.dev_dependencies@,
        dep_list_spec(m, edges_of(m, j), DependencyKind::Development),
    )
    &&& (classify_targets(m.packages@[pj].targets@) matches Ok(c) && lib_matches(p.lib_target, c.lib)
        && bins_match(p.bin_targets@, c.bins) && script_matches(p.build_script, c.script))
    &&& kind_entry_matches(m, roots, j, p.dependency_kinds.entries@, DependencyKind::Normal)
    &&& kind_entry_matches(m, roots, j, p.dependency_kinds.entries@, DependencyKind::Build)
    &&& kind_entry_matches(m, roots, j, p.dependency_kinds.entries@, DependencyKind::Development)
    &&& (forall|e: int|
        0 <= e < p.dependency_kinds.entries@.len() ==> ((#[trigger] p.dependency_kinds.entries@[e]).0
            == DependencyKind::Normal || p.dependency_kinds.entries@[e].0 == DependencyKind::Build
            || p.dependency_kinds.entries@[e].0 == DependencyKind::Development))
    &&& p.is_local == (m.packages@[pj].source is None)
    &&& p.is_workspace_member == str_in(m.workspace_members@, m.nodes@[j].id@)
}

/// How many nodes below `k` get an output entry.
pub open spec fn entry_count(m: Metadata, roots: Option<Vec<String>>, k: int) -> int
    decreases k,
{
    if k <= 0 {
        0
    } else {
        entry_count(m, roots, k - 1) + (if reaches(m, roots, k - 1) && !excluded_root(m, k - 1) {
            1int
        } else {
            0int
        })
    }
}

/// The human-readable discovery path for node `j`: the ids of the chain of
/// nodes it was first discovered through, starting nearest the root.
#[verifier::loop_isolation(false)]
fn discovery_path(m: &Metadata, parent: &Vec<usize>, j: usize) -> (r: Vec<String>)
    requires
        parent@.len() == m.nodes@.len(),
        j < m.nodes@.len(),
{
    let n = m.nodes.len();
    let mut rev: Vec<String> = Vec::new();
    let mut cur = j;
    let mut fuel = n;
    while fuel > 0
        invariant
            cur < n,
            n == m.nodes@.len(),
            parent@.len() == n,
        decreases fuel,
    {
        let pr = parent[cur];
        if pr >= n || pr == cur {
            break ;
        }
        rev.push(m.nodes[pr].id.clone());
        cur = pr;
        fuel -= 1;
    }
    let mut out: Vec<String> = Vec::new();
    let mut k = rev.len();
    while k > 0
        invariant
            k <= rev@.len(),
        decreases k,
    {
        k -= 1;
        out.push(rev[k].clone());
    }
    out
}

/// A per-kind entry built from the folded filter list is faithful.
proof fn lemma_kind_info_good(
    m: Metadata,
    roots: Option<Vec<String>>,
    vis: Seq<bool>,
    j: int,
    kind: DependencyKind,
    info: PerKindInfo,
)
    requires
        vis.len() == m.nodes@.len(),
        forall|i: int| 0 <= i < vis.len() ==> vis[i] == reaches(m, roots, i),
        info.platforms.wf(),
        info.platforms@ == fold_add(kind_pl_list(m, vis, j, kind, m.nodes@.len() as int)),
        info.features@.len() == features_spec(m.nodes@[j].features@).len(),
        forall|k: int|
            0 <= k < info.features@.len() ==> (#[trigger] info.features@[k])@ == features_spec(
                m.nodes@[j].features@,
            )[k]@,
    ensures
        kind_info_good(m, roots, j, kind, info),
{
    let lst = kind_pl_list(m, vis, j, kind, m.nodes@.len() as int);
    lemma_fold_add_props(lst);
    lemma_kind_list_bridge(m, roots, vis, j, kind);
    match info.platforms@ {
        PlatformSetV::All => {},
        PlatformSetV::Platforms(s2) => {
            assert forall|x: PlatformV|
                contains_platform(s2, x) <==> in_edge_reach(m, roots, j, kind, Some(x)) by {
                assert(contains_platform(s2, x) <==> lst.contains(Some(x)));
                assert(lst.contains(Some(x)) <==> in_edge_reach(m, roots, j, kind, Some(x)));
            }
        },
    }
}

/// Builds the per-kind entries of node `j`.
#[verifier::loop_isolation(false)]
fn build_kinds(
    m: &Metadata,
    visited: &Vec<bool>,
    roots: Ghost<Option<Vec<String>>>,
    j: usize,
) -> (r: DependencyKinds)
    requires
        visited@.len() == m.nodes@.len(),
        j < m.nodes@.len(),
        forall|i: int| 0 <= i < m.nodes@.len() && visited@[i] ==> edges_resolve(*m, i),
        forall|i: int| 0 <= i < visited@.len() ==> visited@[i] == reaches(*m, roots@, i),
    ensures
        kind_entry_matches(*m, roots@, j as int, r.entries@, DependencyKind::Normal),
        kind_entry_matches(*m, roots@, j as int, r.entries@, DependencyKind::Build),
        kind_entry_matches(*m, roots@, j as int, r.entries@, DependencyKind::Development),
        forall|e: int|
            0 <= e < r.entries@.len() ==> ((#[trigger] r.entries@[e]).0 == DependencyKind::Normal
                || r.entries@[e].0 == DependencyKind::Build || r.entries@[e].0
                == DependencyKind::Development),
{
    let mut entries: Vec<(DependencyKind, PerKindInfo)> = Vec::new();
    let normal = kind_platforms(m, visited, j, DependencyKind::Normal);
    let build = kind_platforms(m, visited, j, DependencyKind::Build);
    let dev = kind_platforms(m, visited, j, DependencyKind::Development);
    proof {
        let n = m.nodes@.len() as int;
        lemma_kind_pl_list_contains(*m, visited@, j as int, DependencyKind::Normal, n);
        lemma_kind_pl_list_contains(*m, visited@, j as int, DependencyKind::Build, n);
        lemma_kind_pl_list_contains(*m, visited@, j as int, DependencyKind::Development, n);
        lemma_fold_add_props(kind_pl_list(*m, visited@, j as int, DependencyKind::Normal, n));
        lemma_fold_add_props(kind_pl_list(*m, visited@, j as int, DependencyKind::Build, n));
        lemma_fold_add_props(kind_pl_list(*m, visited@, j as int, DependencyKind::Development, n));
        lemma_in_edge_equiv(*m, roots@, visited@, j as int, DependencyKind::Normal);
        lemma_in_edge_equiv(*m, roots@, visited@, j as int, DependencyKind::Build);
        lemma_in_edge_equiv(*m, roots@, visited@, j as int, DependencyKind::Development);
    }
    proof {
        lemma_kind_list_bridge(*m, roots@, visited@, j as int, DependencyKind::Normal);
        lemma_kind_list_bridge(*m, roots@, visited@, j as int, DependencyKind::Build);
        lemma_kind_list_bridge(*m, roots@, visited@, j as int, DependencyKind::Development);
    }
    if normal.0 {
        let features = strip_default_feature(&m.nodes[j].features);
        entries.push(
            (DependencyKind::Normal, PerKindInfo { platforms: normal.1, features }),
        );
    }
    if build.0 {
        let features = strip_default_feature(&m.nodes[j].features);
        entries.push((DependencyKind::Build, PerKindInfo { platforms: build.1, features }));
    }
    if dev.0 {
        let features = strip_default_feature(&m.nodes[j].features);
        entries.push((DependencyKind::Development, PerKindInfo { platforms: dev.1, features }));
    }
    proof {
        if normal.0 {
            lemma_kind_info_good(*m, roots@, visited@, j as int, DependencyKind::Normal, entries@[0].1);
        }
        if build.0 {
            let bi = if normal.0 { 1int } else { 0int };
            lemma_kind_info_good(*m, roots@, visited@, j as int, DependencyKind::Build, entries@[bi].1);
        }
        if dev.0 {
            let di = (if normal.0 { 1int } else { 0int }) + (if build.0 { 1int } else { 0int });
            lemma_kind_info_good(*m, roots@, visited@, j as int, DependencyKind::Development, entries@[di].1);
        }
        lemma_kinds_entries(
            *m,
            roots@,
            visited@,
            j as int,
            entries@,
            normal.0,
            build.0,
            dev.0,
        );
    }
    DependencyKinds { entries }
}

/// The collected filter list is nonempty exactly when some reachable node
/// has a matching edge, and membership in it is `in_edge` membership.
proof fn lemma_kind_list_bridge(
    m: Metadata,
    roots: Option<Vec<String>>,
    vis: Seq<bool>,
    j: int,
    kind: DependencyKind,
)
    requires
        vis.len() == m.nodes@.len(),
        forall|i: int| 0 <= i < vis.len() ==> vis[i] == reaches(m, roots, i),
    ensures
        (kind_pl_list(m, vis, j, kind, m.nodes@.len() as int).len() != 0) == (exists|
            pl: Option<PlatformV>,
        | in_edge_reach(m, roots, j, kind, pl)),
        forall|pl: Option<PlatformV>| #[trigger]
            kind_pl_list(m, vis, j, kind, m.nodes@.len() as int).contains(pl) <==> in_edge_reach(
                m,
                roots,
                j,
                kind,
                pl,
            ),
{
    let n = m.nodes@.len() as int;
    let lst = kind_pl_list(m, vis, j, kind, n);
    lemma_kind_pl_list_contains(m, vis, j, kind, n);
    lemma_in_edge_equiv(m, roots, vis, j, kind);
    assert forall|pl: Option<PlatformV>| #[trigger]
        lst.contains(pl) <==> in_edge_reach(m, roots, j, kind, pl) by {
        assert(lst.contains(pl) <==> in_edge(m, vis, j, kind, pl));
    }
    if lst.len() != 0 {
        assert(lst.contains(lst[0]));
    }
    if exists|pl: Option<PlatformV>| in_edge_reach(m, roots, j, kind, pl) {
        let pl = choose|pl: Option<PlatformV>| in_edge_reach(m, roots, j, kind, pl);
        assert(lst.contains(pl));
    }
}

/// Entries built in kind order satisfy the per-kind faithfulness.
proof fn lemma_kinds_entries(
    m: Metadata,
    roots: Option<Vec<String>>,
    vis: Seq<bool>,
    j: int,
    entries: Seq<(DependencyKind, PerKindInfo)>,
    has_normal: bool,
    has_build: bool,
    has_dev: bool,
)
    requires
        vis.len() == m.nodes@.len(),
        forall|i: int| 0 <= i < vis.len() ==> vis[i] == reaches(m, roots, i),
        has_normal == (exists|pl: Option<PlatformV>|
            in_edge_reach(m, roots, j, DependencyKind::Normal, pl)),
        has_build == (exists|pl: Option<PlatformV>|
            in_edge_reach(m, roots, j, DependencyKind::Build, pl)),
        has_dev == (exists|pl: Option<PlatformV>|
            in_edge_reach(m, roots, j, DependencyKind::Development, pl)),
        entries.len() == (if has_normal {
            1int
        } else {
            0int
        }) + (if has_build {
            1int
        } else {
            0int
        }) + (if has_dev {
            1int
        } else {
            0int
        }),
        has_normal ==> entries[0].0 == DependencyKind::Normal && kind_info_good(
            m,
            roots,
            j,
            DependencyKind::Normal,
            entries[0].1,
        ),
        has_build ==> {
            let bi = if has_normal {
                1int
            } else {
                0int
            };
            entries[bi].0 == DependencyKind::Build && kind_info_good(
                m,
                roots,
                j,
                DependencyKind::Build,
                entries[bi].1,
            )
        },
        has_dev ==> {
            let di = (if has_normal {
                1int
            } else {
                0int
            }) + (if has_build {
                1int
            } else {
                0int
            });
            entries[di].0 == DependencyKind::Development && kind_info_good(
                m,
                roots,
                j,
                DependencyKind::Development,
                entries[di].1,
            )
        },
    ensures
        kind_entry_matches(m, roots, j, entries, DependencyKind::Normal),
        kind_entry_matches(m, roots, j, entries, DependencyKind::Build),
        kind_entry_matches(m, roots, j, entries, DependencyKind::Development),
        forall|e: int|
            0 <= e < entries.len() ==> ((#[trigger] entries[e]).0 == DependencyKind::Normal
                || entries[e].0 == DependencyKind::Build || entries[e].0
                == DependencyKind::Development),
{
    if has_normal {
        lemma_kinds_lookup_at(entries, DependencyKind::Normal, 0);
    } else {
        lemma_kinds_lookup_at(entries, DependencyKind::Normal, entries.len() as int);
        assert(entries.skip(entries.len() as int) =~= Seq::<(DependencyKind, PerKindInfo)>::empty());
    }
    let bi = if has_normal {
        1int
    } else {
        0int
    };
    if has_build {
        lemma_kinds_lookup_at(entries, DependencyKind::Build, bi);
    } else {
        lemma_kinds_lookup_at(entries, DependencyKind::Build, entries.len() as int);
        assert(entries.skip(entries.len() as int) =~= Seq::<(DependencyKind, PerKindInfo)>::empty());
    }
    let di = bi + (if has_build {
        1int
    } else {
        0int
    });
    if has_dev {
        lemma_kinds_lookup_at(entries, DependencyKind::Development, di);
    } else {
        lemma_kinds_lookup_at(entries, DependencyKind::Development, entries.len() as int);
        assert(entries.skip(entries.len() as int) =~= Seq::<(DependencyKind, PerKindInfo)>::empty());
    }
}

/// The faithfulness of one per-kind entry, as established when building it.
pub open spec fn kind_info_good(
    m: Metadata,
    roots: Option<Vec<String>>,
    j: int,
    kind: DependencyKind,
    info: PerKindInfo,
) -> bool {
    &&& info.platforms.wf()
    &&& ((info.platforms@ is All) <==> in_edge_reach(m, roots, j, kind, None))
    &&& (info.platforms@ matches PlatformSetV::Platforms(s) ==> (forall|x: PlatformV|
        contains_platform(s, x) <==> in_edge_reach(m, roots, j, kind, Some(x))))
    &&& info.features@.len() == features_spec(m.nodes@[j].features@).len()
    &&& (forall|k: int|
        0 <= k < info.features@.len() ==> (#[trigger] info.features@[k])@ == features_spec(
            m.nodes@[j].features@,
        )[k]@)
}

/// The output list corresponds one-to-one with the reachable, non-root
/// nodes of the graph, each entry fully populated.
pub open spec fn output_corresponds(
    m: Metadata,
    roots: Option<Vec<String>>,
    ps: Seq<Package>,
) -> bool {
    &&& ps.len() == entry_count(m, roots, m.nodes@.len() as int)
    &&& (forall|t: int|
        0 <= t < ps.len() ==> exists|j: int|
            0 <= j < m.nodes@.len() && reaches(m, roots, j) && !excluded_root(m, j)
                && package_populated(m, roots, j, #[trigger] ps[t]))
    &&& (forall|j: int|
        0 <= j < m.nodes@.len() && reaches(m, roots, j) && !excluded_root(m, j) ==> exists|t: int|
            0 <= t < ps.len() && package_populated(m, roots, j, #[trigger] ps[t]))
}

/// Builds the full output entry of node `j`.
#[verifier::loop_isolation(false)]
fn build_package(
    m: &Metadata,
    visited: &Vec<bool>,
    parent: &Vec<usize>,
    roots: Ghost<Option<Vec<String>>>,
    j: usize,
) -> (r: Result<Package, GraphError>)
    requires
        visited@.len() == m.nodes@.len(),
        parent@.len() == m.nodes@.len(),
        j < m.nodes@.len(),
        visited@[j as int],
        forall|i: int| 0 <= i < m.nodes@.len() && visited@[i] ==> edges_resolve(*m, i),
        forall|i: int| 0 <= i < visited@.len() ==> visited@[i] == reaches(*m, roots@, i),
    ensures
        match r {
            Ok(p) => package_populated(*m, roots@, j as int, p) && node_entry_ok(*m, j as int),
            Err(e) => !node_entry_ok(*m, j as int) && (e == GraphError::MissingPackage || e
                == GraphError::DuplicateLibTarget || e == GraphError::DuplicateBuildScript || e
                == GraphError::UnknownDependencyKind),
        },
{
    let es = match node_edges(m, j) {
        Ok(es) => es,
        Err(_) => unreached(),
    };
    let ghost ev = edges_of(*m, j as int);
    proof {
        lemma_deps_edges_bounded(m.nodes@, m.nodes@[j as int].deps@);
        lemma_deps_edges_supported(m.nodes@, m.nodes@[j as int].deps@);
    }
    let lists = match build_dep_lists(m, &es, Ghost(ev)) {
        Ok(x) => x,
        Err(e) => {
            return Err(e);
        },
    };
    let pj = match find_pkg(&m.packages, m.nodes[j].id.as_str()) {
        Some(x) => x,
        None => {
            return Err(GraphError::MissingPackage);
        },
    };
    let cls = match classify_package_targets(&m.packages[pj].targets) {
        Ok(x) => x,
        Err(e) => {
            proof {
                lemma_classify_err_kind(m.packages@[pj as int].targets@);
            }
            return Err(e);
        },
    };
    let kinds = build_kinds(m, visited, roots, j);
    let path = discovery_path(m, parent, j);
    let is_local = m.packages[pj].source.is_none();
    let is_ws = str_list_contains(&m.workspace_members, m.nodes[j].id.as_str());
    Ok(
        Package {
            package_name: m.packages[pj].name.clone(),
            version: m.packages[pj].version,
            dependencies: lists.0,
            build_dependencies: lists.1,
            dev_dependencies: lists.2,
            dependency_kinds: kinds,
            lib_target: cls.0,
            bin_targets: cls.1,
            build_script: cls.2,
            dependency_path: path,
            is_local,
            is_workspace_member: is_ws,
        },
    )
}

/// Processes the resolved dependency graph to the flat list of transitive
/// dependencies of the traversal roots. By default the traversal starts at
/// the root package and every workspace member; `roots` overrides that with
/// an explicit set of package names. The synthetic root package itself is
/// not surfaced. The output order is unspecified; callers sort.
#[verifier::loop_isolation(false)]
#[verifier::rlimit(100)]
pub fn collect_dependencies(metadata: &Metadata, roots: Option<Vec<String>>) -> (r: Result<
    Vec<Package>,
    GraphError,
>)
    ensures
        r is Ok <==> collect_ok(*metadata, roots),
        r matches Ok(ps) ==> output_corresponds(*metadata, roots, ps@),
        r == Err::<Vec<Package>, GraphError>(GraphError::DuplicateNodeId) ==> !unique_node_ids(
            metadata.nodes@,
        ),
{
    if !check_unique_node_ids(&metadata.nodes) {
        return Err(GraphError::DuplicateNodeId);
    }
    let (visited, parent) = match reachable_nodes(metadata, &roots) {
        Ok(x) => x,
        Err(e) => {
            return Err(e);
        },
    };
    let n = metadata.nodes.len();
    let mut out: Vec<Package> = Vec::new();
    let mut j: usize = 0;
    #[verifier::loop_isolation(true)]
    while j < n
        invariant
            j <= n,
            n == metadata.nodes@.len(),
            visited@.len() == n,
            parent@.len() == n,
            unique_node_ids(metadata.nodes@),
            forall|i: int| 0 <= i < n ==> visited@[i] == reaches(*metadata, roots, i),
            forall|i: int|
                0 <= i < n && reaches(*metadata, roots, i) ==> edges_resolve(*metadata, i),
            out@.len() == entry_count(*metadata, roots, j as int),
            forall|t: int|
                0 <= t < out@.len() ==> exists|j2: int|
                    0 <= j2 < n && reaches(*metadata, roots, j2) && !excluded_root(*metadata, j2)
                        && package_populated(*metadata, roots, j2, #[trigger] out@[t]),
            forall|j2: int|
                0 <= j2 < j && reaches(*metadata, roots, j2) && !excluded_root(*metadata, j2)
                    ==> exists|t: int|
                    0 <= t < out@.len() && package_populated(
                        *metadata,
                        roots,
                        j2,
                        #[trigger] out@[t],
                    ),
            forall|j2: int|
                0 <= j2 < j && reaches(*metadata, roots, j2) && !excluded_root(*metadata, j2)
                    ==> node_entry_ok(*metadata, j2),
        decreases n - j,
    {
        if visited[j] {
            if !str_eq(metadata.nodes[j].id.as_str(), metadata.root.as_str()) {
                let p = match build_package(metadata, &visited, &parent, Ghost(roots), j) {
                    Ok(p) => p,
                    Err(e) => {
                        proof {
                            assert(reaches(*metadata, roots, j as int));
                            assert(!excluded_root(*metadata, j as int));
                            assert(!node_entry_ok(*metadata, j as int));
                            assert(!collect_ok(*metadata, roots));
                        }
                        return Err(e);
                    },
                };
                let ghost pre_out = out@;
                out.push(p);
                proof {
                    let m2 = *metadata;
                    assert(out@[pre_out.len() as int] == p);
                    assert(package_populated(m2, roots, j as int, p));
                    assert(reaches(m2, roots, j as int));
                    assert(!excluded_root(m2, j as int));
                    assert forall|t: int| 0 <= t < out@.len() implies exists|j2: int|
                        0 <= j2 < n && reaches(m2, roots, j2) && !excluded_root(m2, j2)
                            && package_populated(m2, roots, j2, #[trigger] out@[t]) by {
                        if t < pre_out.len() {
                            assert(out@[t] == pre_out[t]);
                            let j2 = choose|j2: int|
                                0 <= j2 < n && reaches(m2, roots, j2) && !excluded_root(m2, j2)
                                    && package_populated(m2, roots, j2, pre_out[t]);
                            assert(package_populated(m2, roots, j2, out@[t]));
                        } else {
                            assert(out@[t] == p);
                            assert(package_populated(m2, roots, j as int, out@[t]));
                        }
                    }
                    assert forall|j2: int|
                        0 <= j2 < j + 1 && reaches(m2, roots, j2) && !excluded_root(m2, j2)
                            implies exists|t: int|
                            0 <= t < out@.len() && package_populated(
                                m2,
                                roots,
                                j2,
                                #[trigger] out@[t],
                            ) by {
                        if j2 < j {
                            let t = choose|t: int|
                                0 <= t < pre_out.len() && package_populated(
                                    m2,
                                    roots,
                                    j2,
                                    pre_out[t],
                                );
                            assert(out@[t] == pre_out[t]);
                            assert(package_populated(m2, roots, j2, out@[t]));
                        } else {
                            assert(package_populated(m2, roots, j2, out@[pre_out.len() as int]));
                        }
                    }
                }
            }
        }
        j += 1;
    }
    proof {
        assert(collect_ok(*metadata, roots));
        let m2 = *metadata;
        assert(out@.len() == entry_count(m2, roots, m2.nodes@.len() as int));
        assert forall|t: int| 0 <= t < out@.len() implies exists|j2: int|
            0 <= j2 < m2.nodes@.len() && reaches(m2, roots, j2) && !excluded_root(m2, j2)
                && package_populated(m2, roots, j2, #[trigger] out@[t]) by {
            let j2 = choose|j2: int|
                0 <= j2 < n && reaches(m2, roots, j2) && !excluded_root(m2, j2)
                    && package_populated(m2, roots, j2, out@[t]);
            assert(package_populated(m2, roots, j2, out@[t]));
        }
        assert forall|j2: int|
            0 <= j2 < m2.nodes@.len() && reaches(m2, roots, j2) && !excluded_root(m2, j2)
                implies exists|t: int|
                0 <= t < out@.len() && package_populated(m2, roots, j2, #[trigger] out@[t]) by {
            let t = choose|t: int|
                0 <= t < out@.len() && package_populated(m2, roots, j2, #[trigger] out@[t]);
            assert(package_populated(m2, roots, j2, out@[t]));
        }
        assert(output_corresponds(m2, roots, out@));
    }
    Ok(out)
}

/// The vendored-crate identity of a package: its name together with its
/// epoch, which a 0.0.x version does not have.
pub open spec fn crate_id_of(p: Package) -> Option<(Seq<char>, Epoch)> {
    if p.version.major == 0 && p.version.minor == 0 {
        None
    } else if p.version.major == 0 {
        Some((p.package_name@, Epoch::Minor(p.version.minor)))
    } else {
        Some((p.package_name@, Epoch::Major(p.version.major)))
    }
}

impl Package {
    /// The vendored-crate identity of this package, if its version has an
    /// epoch.
    pub fn third_party_crate_id(&self) -> (r: Option<ChromiumVendoredCrate>)
        ensures
            (r is Some) == (crate_id_of(*self) is Some),
            r matches Some(c) ==> crate_id_of(*self) == Some((c.name@, c.epoch)) && c.wf(),
    {
        match Epoch::from_version(&self.version) {
            None => None,
            Some(e) => Some(ChromiumVendoredCrate { name: self.package_name.clone(), epoch: e }),
        }
    }
}

impl DepOfDep {
    /// The vendored-crate identity of the package this dependency
    /// references, if its version has an epoch.
    pub fn third_party_crate_id(&self) -> (r: Option<ChromiumVendoredCrate>)
        ensures
            r matches Some(c) ==> c.name@ == self.package_name@ && c.wf() && (self.version.major
                > 0 ==> c.epoch == Epoch::Major(self.version.major)) && (self.version.major == 0
                ==> c.epoch == Epoch::Minor(self.version.minor)),
            (r is None) == (self.version.major == 0 && self.version.minor == 0),
    {
        match Epoch::from_version(&self.version) {
            None => None,
            Some(e) => Some(ChromiumVendoredCrate { name: self.package_name.clone(), epoch: e }),
        }
    }
}

/// Failures when deriving the set of requested vendored crates.
#[derive(Clone, Copy, Debug, PartialEq, Eq, Structural)]
pub enum CrateIdError {
    /// A package's version has no epoch.
    NoEpoch,
    /// Two packages share a name and an epoch but are distinct entries.
    DuplicateEpoch,
}

/// The vendored-crate identities requested by a list of resolved packages.
/// Two packages with the same name and the same derived epoch cannot both
/// be vendored, so that case is a fatal error.
#[verifier::loop_isolation(false)]
pub fn requested_crate_ids(deps: &Vec<Package>) -> (r: Result<
    Vec<ChromiumVendoredCrate>,
    CrateIdError,
>)
    ensures
        r is Ok <==> ((forall|t: int| 0 <= t < deps@.len() ==> crate_id_of(#[trigger] deps@[t])
            is Some) && (forall|a: int, b: int|
            0 <= a < b < deps@.len() ==> crate_id_of(deps@[a]) != crate_id_of(deps@[b]))),
        r matches Ok(ids) ==> ids@.len() == deps@.len() && (forall|t: int|
            0 <= t < ids@.len() ==> crate_id_of(deps@[t]) == Some(
                ((#[trigger] ids@[t]).name@, ids@[t].epoch),
            )),
        r == Err::<Vec<ChromiumVendoredCrate>, CrateIdError>(CrateIdError::NoEpoch) ==> exists|
            t: int,
        | 0 <= t < deps@.len() && crate_id_of(#[trigger] deps@[t]) is None,
        r == Err::<Vec<ChromiumVendoredCrate>, CrateIdError>(CrateIdError::DuplicateEpoch)
            ==> exists|a: int, b: int|
            0 <= a < b < deps@.len() && crate_id_of(#[trigger] deps@[a]) == crate_id_of(
                #[trigger] deps@[b],
            ) && crate_id_of(deps@[a]) is Some,
{
    let n = deps.len();
    let mut ids: Vec<ChromiumVendoredCrate> = Vec::new();
    let mut t: usize = 0;
    while t < n
        invariant
            t <= n,
            n == deps@.len(),
            ids@.len() == t,
            forall|u: int| 0 <= u < t ==> crate_id_of(deps@[u]) == Some(
                ((#[trigger] ids@[u]).name@, ids@[u].epoch),
            ),
            forall|a: int, b: int|
                0 <= a < b < t ==> crate_id_of(deps@[a]) != crate_id_of(deps@[b]),
        decreases n - t,
    {
        let e = match Epoch::from_version(&deps[t].version) {
            None => {
                proof {
                    assert(crate_id_of(deps@[t as int]) is None);
                }
                return Err(CrateIdError::NoEpoch);
            },
            Some(e) => e,
        };
        let mut a: usize = 0;
        while a < t
            invariant
                a <= t < n,
                n == deps@.len(),
                ids@.len() == t,
                crate_id_of(deps@[t as int]) == Some((deps@[t as int].package_name@, e)),
                forall|u: int| 0 <= u < t ==> crate_id_of(deps@[u]) == Some(
                    ((#[trigger] ids@[u]).name@, ids@[u].epoch),
                ),
                forall|u: int|
                    0 <= u < a ==> crate_id_of(#[trigger] deps@[u]) != crate_id_of(
                        deps@[t as int],
                    ),
            decreases t - a,
        {
            if str_eq(ids[a].name.as_str(), deps[t].package_name.as_str()) && ids[a].epoch == e {
                proof {
                    assert(crate_id_of(deps@[a as int]) == crate_id_of(deps@[t as int]));
                }
                return Err(CrateIdError::DuplicateEpoch);
            }
            a += 1;
        }
        ids.push(ChromiumVendoredCrate { name: deps[t].package_name.clone(), epoch: e });
        t += 1;
    }
    proof {
        assert forall|u: int| 0 <= u < n implies crate_id_of(#[trigger] deps@[u]) is Some by {
            assert(crate_id_of(deps@[u]) == Some((ids@[u].name@, ids@[u].epoch)));
        }
    }
    Ok(ids)
}

/// All node ids are distinct.
pub open spec fn unique_node_ids(nodes: Seq<Node>) -> bool {
    forall|a: int, b: int| 0 <= a < b < nodes.len() ==> nodes[a].id@ != nodes[b].id@
}

/// Checks that no package id appears on two nodes, the one invariant of the
/// input worth asserting before the traversal.
#[verifier::loop_isolation(false)]
pub fn check_unique_node_ids(nodes: &Vec<Node>) -> (r: bool)
    ensures
        r == unique_node_ids(nodes@),
{
    let n = nodes.len();
    let mut i: usize = 0;
    while i < n
        invariant
            i <= n,
            forall|a: int, b: int| 0 <= a < b < i ==> nodes@[a].id@ != nodes@[b].id@,
        decreases n - i,
    {
        let mut j: usize = 0;
        while j < i
            invariant
                j <= i <= n,
                forall|a: int, b: int| 0 <= a < b < i ==> nodes@[a].id@ != nodes@[b].id@,
                forall|a: int| 0 <= a < j ==> nodes@[a].id@ != nodes@[i as int].id@,
            decreases i - j,
        {
            if str_eq(nodes[j].id.as_str(), nodes[i].id.as_str()) {
                return false;
            }
            j += 1;
        }
        i += 1;
    }
    true
}

} // verus!
