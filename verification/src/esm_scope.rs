//! The import-cycle scope builder: groups the script modules of a chunk group
//! that participate in import cycles, and builds the acyclic condensation
//! graph over those groups.
//!
//! A graph is built over every resolved static import between script modules
//! in scope; its strongly connected components become the scopes, and the
//! condensation edges record which scope imports from which.

use vstd::prelude::*;

verus! {

use std::collections::HashMap;
use crate::Error;
use crate::available_assets::AvailabilityInfo;
use crate::available_assets::chunkable_assets_set;
use crate::graph::ModuleGraph;
use crate::graph::chunkable_reach;
use crate::scc_graph::edge_reaches;
use crate::scc_graph::graph_add_edge;
use crate::scc_graph::graph_all_edges;
use crate::scc_graph::graph_edges;
use crate::scc_graph::lemma_edge_reaches_self;
use crate::scc_graph::graph_neighbors;
use crate::scc_graph::graph_new;
use crate::scc_graph::graph_nodes;
use crate::scc_graph::graph_tarjan_scc;
use vstd::std_specs::vec::spec_vec_len;

broadcast use {
    vstd::std_specs::hash::group_hash_axioms,
    vstd::seq_lib::lemma_seq_contains_after_push,
    vstd::std_specs::vec::axiom_spec_len,
};

/// An ordered collection of script modules forming one strongly connected
/// component; a module with no participation in any cycle is its own
/// singleton component.
pub struct EsmScopeScc(pub Vec<u64>);

/// Whether `m` belongs to the module set of the scope that `info` describes:
/// the chunkable closure of the current availability root, or nothing if
/// there is none.
pub open spec fn scope_has_module(g: ModuleGraph, info: AvailabilityInfo, m: usize) -> bool {
    match info.spec_current_availability_root() {
        Some(root) => chunkable_reach(g, root, m),
        None => false,
    }
}

/// Whether module `a` has any reference that is a static import resolving to
/// the concrete script module `c`.
pub open spec fn has_static_import(g: ModuleGraph, a: usize, c: usize) -> bool {
    (a as int) < g.modules@.len() && exists|i: int|
        0 <= i < g.modules@[a as int].references@.len() && (#[trigger] g.modules@[a as int].references@[i]).static_import
            == Some(c)
}

/// A directed edge of the import graph: a script module in scope statically
/// imports the script module `c`.
pub open spec fn import_edge(g: ModuleGraph, info: AvailabilityInfo, a: usize, c: usize) -> bool {
    &&& scope_has_module(g, info, a)
    &&& (a as int) < g.modules@.len()
    &&& g.modules@[a as int].is_script
    &&& has_static_import(g, a, c)
}

/// The import graph's edges as a set of (importer, imported) pairs.
pub open spec fn import_edge_set(g: ModuleGraph, info: AvailabilityInfo) -> Set<(u64, u64)> {
    Set::new(
        |q: (u64, u64)|
            exists|a: usize, c: usize|
                #[trigger] import_edge(g, info, a, c) && q.0 == a as u64 && q.1 == c as u64,
    )
}

/// An ECMAScript (script) module belonging to the scope's module set.
pub open spec fn scope_script_module(g: ModuleGraph, info: AvailabilityInfo, m: usize) -> bool {
    scope_has_module(g, info, m) && (m as int) < g.modules@.len()
        && g.modules@[m as int].is_script
}

/// The modules the scope assigns a component to: every script module of the
/// scope's module set, plus every concrete target of a resolved static
/// import from one of them.
pub open spec fn scope_member(g: ModuleGraph, info: AvailabilityInfo, x: u64) -> bool {
    ||| exists|a: usize, c: usize|
        #[trigger] import_edge(g, info, a, c) && (x == a as u64 || x == c as u64)
    ||| exists|m: usize| #[trigger] scope_script_module(g, info, m) && x == m as u64
}

/// Whether the condensation of the scope's import graph relates two
/// component identities: some import edge joins two modules of different
/// components, mapped by `m` to exactly these identities.
pub open spec fn condensation_edge(
    g: ModuleGraph,
    info: AvailabilityInfo,
    m: Map<u64, usize>,
    q: (u64, u64),
) -> bool {
    exists|a: usize, c: usize|
        #![trigger import_edge(g, info, a, c)]
        import_edge(g, info, a, c) && m.contains_key(a as u64) && m.contains_key(c as u64)
            && m[a as u64] != m[c as u64] && q.0 == m[a as u64] as u64 && q.1 == m[c as u64] as u64
}

/// A graph representing all ESM imports in a chunk group: each script module
/// maps to its strongly connected component, and the condensation graph
/// records which component imports from which.
pub struct EsmScope {
    /// The strongly connected components, in reverse topological order of the
    /// condensation.
    pub sccs: Vec<EsmScopeScc>,
    /// Maps each script module of the scope's module set, and each concrete
    /// target of a resolved static import from one of them, to the index of
    /// its component.
    pub scc_map: HashMap<u64, usize>,
    /// The condensation: an edge from one component to an earlier one means
    /// the first imports something from the second. Acyclic by construction.
    pub scc_graph: petgraph::graphmap::GraphMap<
        u64,
        (),
        petgraph::Directed,
        std::collections::hash_map::RandomState,
    >,
}

impl EsmScope {
    /// Internal consistency: the map and the component list agree (every
    /// mapped module sits in exactly the component it maps to), and every
    /// condensation edge points from a component to a strictly earlier one.
    pub open spec fn wf(self) -> bool {
        &&& forall|x: u64|
            #[trigger] self.scc_map@.contains_key(x) ==> (self.scc_map@[x] as int)
                < self.sccs@.len() && self.sccs@[self.scc_map@[x] as int].0@.contains(x)
        &&& forall|i: int, x: u64|
            #![trigger self.sccs@[i].0@.contains(x)]
            0 <= i < self.sccs@.len() && self.sccs@[i].0@.contains(x)
                ==> self.scc_map@.contains_key(x) && self.scc_map@[x] == i
        &&& forall|q: (u64, u64)|
            #[trigger] graph_edges(self.scc_graph).contains(q) ==> q.1 < q.0 && (q.0 as int)
                < self.sccs@.len()
    }
}

/// Filters a module set down to the ECMAScript (script) modules.
pub fn get_ecmascript_module_assets(g: &ModuleGraph, assets: &Vec<usize>) -> (r: Vec<usize>)
    requires
        forall|k: int| 0 <= k < assets@.len() ==> (#[trigger] assets@[k] as int) < g.modules@.len(),
        assets@.no_duplicates(),
    ensures
        r@.no_duplicates(),
        forall|m: usize|
            #[trigger] r@.contains(m) <==> assets@.contains(m) && (m as int) < g.modules@.len()
                && g.modules@[m as int].is_script,
{
    let mut r: Vec<usize> = Vec::new();
    let mut i: usize = 0;
    while i < assets.len()
        invariant
            i <= assets@.len(),
            forall|k: int|
                0 <= k < assets@.len() ==> (#[trigger] assets@[k] as int) < g.modules@.len(),
            assets@.no_duplicates(),
            r@.no_duplicates(),
            forall|m: usize|
                #[trigger] r@.contains(m) <==> (exists|k: int|
                    0 <= k < i && assets@[k] == m) && (m as int) < g.modules@.len()
                    && g.modules@[m as int].is_script,
        decreases assets@.len() - i,
    {
        let m = assets[i];
        if self_is_script(g, m) {
            proof {
                if r@.contains(m) {
                    let k = choose|k: int| 0 <= k < i && assets@[k] == m;
                    assert(assets@[k] == assets@[i as int]);
                    assert(false);
                }
                crate::chunking::lemma_push_no_dup_generic(r@, m);
            }
            r.push(m);
        }
        i += 1;
    }
    proof {
        assert forall|m: usize| (exists|k: int| 0 <= k < assets@.len() && assets@[k] == m)
            <==> #[trigger] assets@.contains(m) by {}
    }
    r
}

/// Whether `m` is a script module of the graph.
fn self_is_script(g: &ModuleGraph, m: usize) -> (r: bool)
    requires
        (m as int) < g.modules@.len(),
    ensures
        r == g.modules@[m as int].is_script,
{
    g.modules[m].is_script
}

/// The (importer, imported) pairs contributed by the first `i` references of
/// module `a`, in reference order.
pub open spec fn module_import_pairs_up_to(g: ModuleGraph, a: usize, i: int) -> Seq<(u64, u64)>
    decreases i,
{
    if i <= 0 {
        Seq::empty()
    } else {
        module_import_pairs_up_to(g, a, i - 1) + (match g.modules@[a as int].references@[i
            - 1].static_import {
            Some(c) => seq![(a as u64, c as u64)],
            None => Seq::empty(),
        })
    }
}

/// The (importer, imported) pairs of all of module `a`'s resolved static
/// imports, in reference order.
pub open spec fn module_import_pairs(g: ModuleGraph, a: usize) -> Seq<(u64, u64)> {
    module_import_pairs_up_to(g, a, g.modules@[a as int].references@.len() as int)
}

/// The concatenation of the import pairs of the first `j` listed modules.
pub open spec fn import_pairs_up_to(g: ModuleGraph, esm: Seq<usize>, j: int) -> Seq<(u64, u64)>
    decreases j,
{
    if j <= 0 {
        Seq::empty()
    } else {
        import_pairs_up_to(g, esm, j - 1) + module_import_pairs(g, esm[j - 1])
    }
}

/// Collects one directed pair (importer, imported) for every resolved static
/// import of the given script modules: exactly the flattened sequence of
/// pairs, following the listed modules' order and each module's reference
/// order.
pub fn collect_import_references(g: &ModuleGraph, esm_assets: &Vec<usize>) -> (r: Vec<(u64, u64)>)
    requires
        g.wf(),
        forall|k: int|
            0 <= k < esm_assets@.len() ==> (#[trigger] esm_assets@[k] as int) < g.modules@.len(),
    ensures
        r@ == import_pairs_up_to(*g, esm_assets@, esm_assets@.len() as int),
        forall|p: (u64, u64)|
            #[trigger] r@.contains(p) <==> (exists|a: usize, c: usize|
                #![trigger has_static_import(*g, a, c)]
                p.0 == a as u64 && p.1 == c as u64 && esm_assets@.contains(a)
                    && has_static_import(*g, a, c)),
{
    let mut r: Vec<(u64, u64)> = Vec::new();
    let mut ai: usize = 0;
    while ai < esm_assets.len()
        invariant
            g.wf(),
            ai <= esm_assets@.len(),
            forall|k: int|
                0 <= k < esm_assets@.len() ==> (#[trigger] esm_assets@[k] as int)
                    < g.modules@.len(),
            forall|p: (u64, u64)|
                #[trigger] r@.contains(p) <==> (exists|a: usize, c: usize|
                    p.0 == a as u64 && p.1 == c as u64 && (exists|j: int|
                        0 <= j < ai && esm_assets@[j] == a) && has_static_import(*g, a, c)),
            r@ == import_pairs_up_to(*g, esm_assets@, ai as int),
        decreases esm_assets@.len() - ai,
    {
        let a = esm_assets[ai];
        let refs = &g.modules[a].references;
        let mut ri: usize = 0;
        proof {
            assert(r@ =~= import_pairs_up_to(*g, esm_assets@, ai as int)
                + module_import_pairs_up_to(*g, a, 0));
        }
        while ri < refs.len()
            invariant
                g.wf(),
                ai < esm_assets@.len(),
                a == esm_assets@[ai as int],
                (a as int) < g.modules@.len(),
                refs == g.modules@[a as int].references,
                ri <= refs@.len(),
                forall|k: int|
                    0 <= k < esm_assets@.len() ==> (#[trigger] esm_assets@[k] as int)
                        < g.modules@.len(),
                forall|p: (u64, u64)|
                    #[trigger] r@.contains(p) <==> ((exists|a2: usize, c: usize|
                        p.0 == a2 as u64 && p.1 == c as u64 && (exists|j: int|
                            0 <= j < ai && esm_assets@[j] == a2) && has_static_import(*g, a2, c))
                        || (exists|c: usize, i: int|
                        p.0 == a as u64 && p.1 == c as u64 && 0 <= i < ri
                            && g.modules@[a as int].references@[i].static_import == Some(c))),
                r@ == import_pairs_up_to(*g, esm_assets@, ai as int)
                    + module_import_pairs_up_to(*g, a, ri as int),
            decreases refs@.len() - ri,
        {
            let has_import = match &refs[ri].static_import {
                Some(_) => true,
                None => false,
            };
            let ghost r_before = r@;
            if has_import {
                let c = match &refs[ri].static_import {
                    Some(c) => *c,
                    None => 0,
                };
                r.push((a as u64, c as u64));
                proof {
                    assert(g.modules@[a as int].references@[ri as int].static_import == Some(c));
                    assert(r@ =~= import_pairs_up_to(*g, esm_assets@, ai as int)
                        + module_import_pairs_up_to(*g, a, ri as int + 1));
                }
            } else {
                proof {
                    assert(g.modules@[a as int].references@[ri as int].static_import is None);
                    assert(r@ =~= import_pairs_up_to(*g, esm_assets@, ai as int)
                        + module_import_pairs_up_to(*g, a, ri as int + 1));
                }
            }
            ri += 1;
        }
        proof {
            assert forall|p: (u64, u64)| #[trigger]
                r@.contains(p) <==> (exists|a2: usize, c: usize|
                    p.0 == a2 as u64 && p.1 == c as u64 && (exists|j: int|
                        0 <= j < ai + 1 && esm_assets@[j] == a2) && has_static_import(
                        *g,
                        a2,
                        c,
                    )) by {
                if r@.contains(p) {
                    if exists|c: usize, i: int|
                        p.0 == a as u64 && p.1 == c as u64 && 0 <= i
                            < g.modules@[a as int].references@.len()
                            && g.modules@[a as int].references@[i].static_import == Some(c) {
                        let (c, i) = choose|c: usize, i: int|
                            p.0 == a as u64 && p.1 == c as u64 && 0 <= i
                                < g.modules@[a as int].references@.len()
                                && g.modules@[a as int].references@[i].static_import == Some(c);
                        assert(esm_assets@[ai as int] == a);
                        assert(has_static_import(*g, a, c));
                    }
                }
            }
            assert(r@ =~= import_pairs_up_to(*g, esm_assets@, ai as int + 1));
        }
        ai += 1;
    }
    r
}

impl EsmScope {
/// Builds the ESM scope for the module set of the given availability state:
/// computes the import graph over the script modules in scope, partitions it
/// into strongly connected components, and builds the acyclic condensation.
/// A script module in scope that takes part in no resolved static import
/// becomes its own singleton component.
///
/// Every module of the import graph is assigned to exactly one component;
/// the internal component lookup therefore never fails, and the computation
/// always succeeds.
pub fn new(graph: &ModuleGraph, availability_info: &AvailabilityInfo) -> (r: Result<
    EsmScope,
    Error,
>)
    requires
        graph.wf(),
        match availability_info.spec_current_availability_root() {
            Some(root) => (root as int) < graph.modules@.len(),
            None => true,
        },
    ensures
        r is Ok,
        r matches Ok(scope) ==> {
            &&& scope.wf()
            &&& forall|x: u64|
                #[trigger] scope.scc_map@.contains_key(x) <==> scope_member(
                    *graph,
                    *availability_info,
                    x,
                )
            &&& forall|m: usize|
                #[trigger] scope_script_module(*graph, *availability_info, m)
                    ==> scope.scc_map@.contains_key(m as u64)
            &&& forall|i2: int|
                0 <= i2 < scope.sccs@.len() ==> (#[trigger] scope.sccs@[i2]).0@.len() > 0
                    && scope.sccs@[i2].0@.no_duplicates()
            &&& forall|x: u64, y: u64|
                #![trigger scope.scc_map@[x], scope.scc_map@[y]]
                scope.scc_map@.contains_key(x) && scope.scc_map@.contains_key(y)
                    && scope.scc_map@[x] == scope.scc_map@[y] ==> edge_reaches(
                    import_edge_set(*graph, *availability_info),
                    x,
                    y,
                )
            &&& forall|q: (u64, u64)|
                #[trigger] graph_edges(scope.scc_graph).contains(q) <==> condensation_edge(
                    *graph,
                    *availability_info,
                    scope.scc_map@,
                    q,
                )
            &&& forall|x: u64|
                #[trigger] graph_nodes(scope.scc_graph).contains(x) <==> (exists|q: (u64, u64)|
                    #[trigger] graph_edges(scope.scc_graph).contains(q) && (q.0 == x || q.1
                        == x))
        },
{
    let assets: Vec<usize> = match availability_info.current_availability_root() {
        Some(root) => chunkable_assets_set(graph, root),
        None => Vec::new(),
    };
    proof {
        assert forall|k: int| 0 <= k < assets@.len() implies (#[trigger] assets@[k] as int)
            < graph.modules@.len() by {
            assert(assets@.contains(assets@[k]));
            match availability_info.spec_current_availability_root() {
                Some(root) => {
                    crate::graph::lemma_chunkable_reach_in_range(*graph, root, assets@[k]);
                },
                None => {},
            }
        }
        assert forall|m: usize| #[trigger] assets@.contains(m) <==> scope_has_module(
            *graph,
            *availability_info,
            m,
        ) by {}
    }
    let esm_assets = get_ecmascript_module_assets(graph, &assets);
    proof {
        assert forall|k: int| 0 <= k < esm_assets@.len() implies (#[trigger] esm_assets@[k] as int)
            < graph.modules@.len() by {
            assert(esm_assets@.contains(esm_assets@[k]));
        }
    }
    let import_references = collect_import_references(graph, &esm_assets);
    let ghost ir = import_references@;
    proof {
        assert forall|p: (u64, u64)| #[trigger]
            ir.contains(p) <==> (exists|a: usize, c: usize|
                p.0 == a as u64 && p.1 == c as u64 && #[trigger] import_edge(
                    *graph,
                    *availability_info,
                    a,
                    c,
                )) by {
            if ir.contains(p) {
                let (a, c) = choose|a: usize, c: usize|
                    #![trigger has_static_import(*graph, a, c)]
                    p.0 == a as u64 && p.1 == c as u64 && esm_assets@.contains(a)
                        && has_static_import(*graph, a, c);
                assert(assets@.contains(a));
                assert(import_edge(*graph, *availability_info, a, c));
            }
            if exists|a: usize, c: usize|
                p.0 == a as u64 && p.1 == c as u64 && #[trigger] import_edge(
                    *graph,
                    *availability_info,
                    a,
                    c,
                ) {
                let (a, c) = choose|a: usize, c: usize|
                    p.0 == a as u64 && p.1 == c as u64 && #[trigger] import_edge(
                        *graph,
                        *availability_info,
                        a,
                        c,
                    );
                assert(assets@.contains(a));
                assert(esm_assets@.contains(a));
                assert(ir.contains(p));
            }
        }
    }
    let mut gm = graph_new();
    let mut t: usize = 0;
    while t < import_references.len()
        invariant
            t <= ir.len(),
            ir == import_references@,
            forall|q: (u64, u64)|
                #[trigger] graph_edges(gm).contains(q) <==> (exists|s: int|
                    0 <= s < t && ir[s] == q),
            forall|x: u64|
                #[trigger] graph_nodes(gm).contains(x) <==> (exists|s: int|
                    0 <= s < t && (ir[s].0 == x || ir[s].1 == x)),
        decreases ir.len() - t,
    {
        let (a, b) = import_references[t];
        graph_add_edge(&mut gm, a, b);
        t += 1;
    }
    let sccs_raw = graph_tarjan_scc(&gm);
    let ghost raw = sccs_raw@;
    let mut sccs_rest = sccs_raw;
    let mut sccs: Vec<EsmScopeScc> = Vec::new();
    while sccs_rest.len() > 0
        invariant
            sccs@.len() + sccs_rest@.len() == raw.len(),
            forall|i: int| 0 <= i < sccs@.len() ==> (#[trigger] sccs@[i]).0 == raw[i],
            forall|k: int|
                0 <= k < sccs_rest@.len() ==> (#[trigger] sccs_rest@[k]) == raw[
                    sccs@.len() + k
                ],
        decreases sccs_rest@.len(),
    {
        let v = sccs_rest.remove(0);
        sccs.push(EsmScopeScc(v));
    }
    let mut scc_map: HashMap<u64, usize> = HashMap::new();
    let mut i: usize = 0;
    while i < sccs.len()
        invariant
            i <= sccs@.len(),
            forall|k: int| 0 <= k < sccs@.len() ==> (#[trigger] sccs@[k]).0 == raw[k],
            sccs@.len() == raw.len(),
            forall|x: u64|
                #[trigger] scc_map@.contains_key(x) <==> (exists|j: int|
                    0 <= j < i && raw[j]@.contains(x)),
            forall|x: u64|
                #[trigger] scc_map@.contains_key(x) ==> (scc_map@[x] as int) < i
                    && raw[scc_map@[x] as int]@.contains(x),
        decreases sccs@.len() - i,
    {
        let scc_i = &sccs[i].0;
        let mut k: usize = 0;
        while k < scc_i.len()
            invariant
                i < sccs@.len(),
                sccs@.len() == raw.len(),
                scc_i == sccs@[i as int].0,
                sccs@[i as int].0 == raw[i as int],
                k <= scc_i@.len(),
                forall|x: u64|
                    #[trigger] scc_map@.contains_key(x) <==> ((exists|j: int|
                        0 <= j < i && raw[j]@.contains(x)) || (exists|k2: int|
                        0 <= k2 < k && raw[i as int]@[k2] == x)),
                forall|x: u64|
                    #[trigger] scc_map@.contains_key(x) ==> (scc_map@[x] as int) <= i
                        && raw[scc_map@[x] as int]@.contains(x),
            decreases scc_i@.len() - k,
        {
            let x = scc_i[k];
            scc_map.insert(x, i);
            proof {
                assert(raw[i as int]@[k as int] == x);
                assert(raw[i as int]@.contains(x));
            }
            k += 1;
        }
        proof {
            assert forall|x: u64| #[trigger]
                scc_map@.contains_key(x) <==> (exists|j: int|
                    0 <= j < i + 1 && raw[j]@.contains(x)) by {
                if scc_map@.contains_key(x) {
                }
                if exists|j: int| 0 <= j < i + 1 && raw[j]@.contains(x) {
                    let j = choose|j: int| 0 <= j < i + 1 && raw[j]@.contains(x);
                    if j == i {
                        let k2 = choose|k2: int|
                            0 <= k2 < raw[i as int]@.len() && raw[i as int]@[k2] == x;
                    }
                }
            }
        }
        i += 1;
    }
    let ghost map_before = scc_map@;
    proof {
        // the map respects Tarjan's partition exactly, and covers exactly the
        // import graph's nodes
        assert(i == sccs@.len());
        assert forall|x: u64| #[trigger]
            scc_map@.contains_key(x) <==> (exists|j: int|
                0 <= j < raw.len() && raw[j]@.contains(x)) by {}
        assert forall|x: u64| #[trigger] scc_map@.contains_key(x) implies (scc_map@[x] as int)
            < raw.len() && raw[scc_map@[x] as int]@.contains(x) by {}
        assert forall|x: u64| #[trigger]
            map_before.contains_key(x) <==> graph_nodes(gm).contains(x) by {}
        assert forall|i2: int, x: u64|
            #![trigger sccs@[i2].0@.contains(x)]
            0 <= i2 < sccs@.len() && sccs@[i2].0@.contains(x) implies scc_map@.contains_key(x)
            && scc_map@[x] == i2 by {
            assert(sccs@[i2].0 == raw[i2]);
            assert(raw[i2]@.contains(x));
            assert(scc_map@.contains_key(x)) by {
                assert(0 <= i2 < raw.len() && raw[i2]@.contains(x));
            }
            assert(raw[scc_map@[x] as int]@.contains(x));
        }
    }
    // every script module in scope that no resolved static import touches
    // becomes its own singleton component, appended after Tarjan's components
    let mut t2: usize = 0;
    while t2 < esm_assets.len()
        invariant
            t2 <= esm_assets@.len(),
            raw.len() <= sccs@.len(),
            forall|k: int| 0 <= k < raw.len() ==> (#[trigger] sccs@[k]).0 == raw[k],
            forall|k: int| raw.len() <= k < sccs@.len() ==> (#[trigger] sccs@[k]).0@.len() == 1,
            forall|x: u64|
                #[trigger] scc_map@.contains_key(x) ==> (scc_map@[x] as int) < sccs@.len()
                    && sccs@[scc_map@[x] as int].0@.contains(x),
            forall|i2: int, x: u64|
                #![trigger sccs@[i2].0@.contains(x)]
                0 <= i2 < sccs@.len() && sccs@[i2].0@.contains(x) ==> scc_map@.contains_key(x)
                    && scc_map@[x] == i2,
            forall|x: u64|
                #[trigger] graph_nodes(gm).contains(x) ==> scc_map@.contains_key(x) && (
                scc_map@[x] as int) < raw.len() && raw[scc_map@[x] as int]@.contains(x),
            forall|x: u64|
                #[trigger] scc_map@.contains_key(x) <==> map_before.contains_key(x) || (exists|
                k: int,
                |
                    0 <= k < t2 && (#[trigger] esm_assets@[k]) as u64 == x),
            forall|k: int|
                0 <= k < t2 ==> scc_map@.contains_key((#[trigger] esm_assets@[k]) as u64),
        decreases esm_assets@.len() - t2,
    {
        let m = esm_assets[t2];
        let key = m as u64;
        if !scc_map.contains_key(&key) {
            let idx = sccs.len();
            let mut singleton: Vec<u64> = Vec::new();
            singleton.push(key);
            proof {
                assert(singleton@ =~= seq![key]);
            }
            sccs.push(EsmScopeScc(singleton));
            scc_map.insert(key, idx);
            proof {
                assert(sccs@[idx as int].0@.contains(key)) by {
                    assert(sccs@[idx as int].0@[0] == key);
                }
            }
        }
        t2 += 1;
    }
    let edges = graph_all_edges(&gm);
    let mut scc_graph = graph_new();
    let mut s: usize = 0;
    while s < edges.len()
        invariant
            s <= edges@.len(),
            forall|e: (u64, u64)| #[trigger] edges@.contains(e) <==> graph_edges(gm).contains(e),
            forall|q: (u64, u64)|
                #[trigger] graph_edges(gm).contains(q) ==> graph_nodes(gm).contains(q.0)
                    && graph_nodes(gm).contains(q.1),
            forall|x: u64|
                #[trigger] graph_nodes(gm).contains(x) ==> scc_map@.contains_key(x) && (
                scc_map@[x] as int) < raw.len() && raw[scc_map@[x] as int]@.contains(x),
            forall|i2: int, j2: int, a: u64, b: u64|
                #![trigger raw[i2]@.contains(a), raw[j2]@.contains(b)]
                0 <= i2 < raw.len() && 0 <= j2 < raw.len() && i2 != j2 && raw[i2]@.contains(a)
                    && raw[j2]@.contains(b) && graph_edges(gm).contains((a, b)) ==> j2 < i2,
            forall|q: (u64, u64)|
                #[trigger] graph_edges(scc_graph).contains(q) ==> q.1 < q.0 && (q.0 as int)
                    < raw.len(),
            forall|q: (u64, u64)|
                #[trigger] graph_edges(scc_graph).contains(q) <==> (exists|s2: int|
                    #![trigger edges@[s2]]
                    0 <= s2 < s && scc_map@.contains_key(edges@[s2].0)
                        && scc_map@.contains_key(edges@[s2].1) && scc_map@[edges@[s2].0]
                        != scc_map@[edges@[s2].1] && q.0 == scc_map@[edges@[s2].0] as u64 && q.1
                        == scc_map@[edges@[s2].1] as u64),
            forall|x: u64|
                #[trigger] graph_nodes(scc_graph).contains(x) <==> (exists|q: (u64, u64)|
                    #[trigger] graph_edges(scc_graph).contains(q) && (q.0 == x || q.1 == x)),
        decreases edges@.len() - s,
    {
        let (a, b) = edges[s];
        proof {
            assert(edges@.contains(edges@[s as int]));
        }
        let pa = match scc_map.get(&a) {
            Some(p) => *p,
            None => {
                proof {
                    assert(false);
                }
                return Err(Error::MissingScc { placeable: a });
            },
        };
        let pb = match scc_map.get(&b) {
            Some(p) => *p,
            None => {
                proof {
                    assert(false);
                }
                return Err(Error::MissingScc { placeable: b });
            },
        };
        proof {
            assert(scc_map@[a] == pa);
            assert(scc_map@[b] == pb);
        }
        if pa != pb {
            proof {
                assert(raw[pa as int]@.contains(a));
                assert(raw[pb as int]@.contains(b));
                assert(pb < pa);
                assert((pa as u64) as int == pa as int);
            }
            let ghost nodes_before = graph_nodes(scc_graph);
            let ghost edges_before = graph_edges(scc_graph);
            graph_add_edge(&mut scc_graph, pa as u64, pb as u64);
            proof {
                let new_edge = (pa as u64, pb as u64);
                assert forall|x: u64| #[trigger]
                    graph_nodes(scc_graph).contains(x) <==> (exists|q: (u64, u64)|
                        #[trigger] graph_edges(scc_graph).contains(q) && (q.0 == x || q.1
                            == x)) by {
                    if graph_nodes(scc_graph).contains(x) {
                        if x == pa as u64 || x == pb as u64 {
                            assert(graph_edges(scc_graph).contains(new_edge));
                        } else {
                            assert(nodes_before.contains(x));
                            let q = choose|q: (u64, u64)|
                                #[trigger] edges_before.contains(q) && (q.0 == x || q.1 == x);
                            assert(graph_edges(scc_graph).contains(q));
                        }
                    }
                    if exists|q: (u64, u64)|
                        #[trigger] graph_edges(scc_graph).contains(q) && (q.0 == x || q.1
                            == x) {
                        let q = choose|q: (u64, u64)|
                            #[trigger] graph_edges(scc_graph).contains(q) && (q.0 == x || q.1
                                == x);
                        if q == new_edge {
                            assert(graph_nodes(scc_graph).contains(x));
                        } else {
                            assert(edges_before.contains(q));
                            assert(nodes_before.contains(x));
                        }
                    }
                }
            }
        }
        s += 1;
    }
    let scope = EsmScope { sccs, scc_map, scc_graph };
    proof {
        assert forall|x: u64| #[trigger] scope.scc_map@.contains_key(x) <==> scope_member(
            *graph,
            *availability_info,
            x,
        ) by {
            if scope.scc_map@.contains_key(x) {
                if map_before.contains_key(x) {
                    assert(graph_nodes(gm).contains(x));
                    let st = choose|st: int|
                        0 <= st < ir.len() && (ir[st].0 == x || ir[st].1 == x);
                    assert(ir.contains(ir[st]));
                } else {
                    let k = choose|k: int|
                        0 <= k < esm_assets@.len() && (#[trigger] esm_assets@[k]) as u64 == x;
                    let m = esm_assets@[k];
                    assert(esm_assets@.contains(m));
                    assert(assets@.contains(m));
                    assert(scope_script_module(*graph, *availability_info, m));
                }
            }
            if scope_member(*graph, *availability_info, x) {
                if exists|a: usize, c: usize|
                    #[trigger] import_edge(*graph, *availability_info, a, c) && (x == a as u64
                        || x == c as u64) {
                    let (a, c) = choose|a: usize, c: usize|
                        #[trigger] import_edge(*graph, *availability_info, a, c) && (x
                            == a as u64 || x == c as u64);
                    assert(ir.contains((a as u64, c as u64)));
                    let st = choose|st: int|
                        0 <= st < ir.len() && ir[st] == (a as u64, c as u64);
                    assert(graph_nodes(gm).contains(x));
                } else {
                    let m = choose|m: usize|
                        #[trigger] scope_script_module(*graph, *availability_info, m) && x
                            == m as u64;
                    assert(assets@.contains(m));
                    assert(esm_assets@.contains(m));
                    let k = choose|k: int|
                        0 <= k < esm_assets@.len() && esm_assets@[k] == m;
                    assert(scope.scc_map@.contains_key(esm_assets@[k] as u64));
                }
            }
        }
        assert forall|m: usize|
            #[trigger] scope_script_module(*graph, *availability_info, m)
                implies scope.scc_map@.contains_key(m as u64) by {
            assert(scope_member(*graph, *availability_info, m as u64));
        }
        assert forall|i2: int| 0 <= i2 < scope.sccs@.len() implies (
        #[trigger] scope.sccs@[i2]).0@.len() > 0 && scope.sccs@[i2].0@.no_duplicates() by {
            if i2 < raw.len() {
                assert(scope.sccs@[i2].0 == raw[i2]);
            } else {
                assert(scope.sccs@[i2].0@.len() == 1);
            }
        }
        assert forall|q: (u64, u64)|
            #[trigger] graph_edges(scope.scc_graph).contains(q) <==> condensation_edge(
                *graph,
                *availability_info,
                scope.scc_map@,
                q,
            ) by {
            if graph_edges(scope.scc_graph).contains(q) {
                let s2 = choose|s2: int|
                    #![trigger edges@[s2]]
                    0 <= s2 < edges@.len() && scc_map@.contains_key(edges@[s2].0)
                        && scc_map@.contains_key(edges@[s2].1) && scc_map@[edges@[s2].0]
                        != scc_map@[edges@[s2].1] && q.0 == scc_map@[edges@[s2].0] as u64 && q.1
                        == scc_map@[edges@[s2].1] as u64;
                let e = edges@[s2];
                assert(edges@.contains(e));
                assert(graph_edges(gm).contains(e));
                let st = choose|st: int| 0 <= st < ir.len() && ir[st] == e;
                assert(ir.contains(e));
                let (a, c) = choose|a: usize, c: usize|
                    e.0 == a as u64 && e.1 == c as u64 && #[trigger] import_edge(
                        *graph,
                        *availability_info,
                        a,
                        c,
                    );
                assert(condensation_edge(*graph, *availability_info, scope.scc_map@, q));
            }
            if condensation_edge(*graph, *availability_info, scope.scc_map@, q) {
                let (a, c) = choose|a: usize, c: usize|
                    #![trigger import_edge(*graph, *availability_info, a, c)]
                    import_edge(*graph, *availability_info, a, c) && scope.scc_map@.contains_key(
                        a as u64,
                    ) && scope.scc_map@.contains_key(c as u64) && scope.scc_map@[a as u64]
                        != scope.scc_map@[c as u64] && q.0 == scope.scc_map@[a as u64] as u64
                        && q.1 == scope.scc_map@[c as u64] as u64;
                assert(ir.contains((a as u64, c as u64)));
                assert(graph_edges(gm).contains((a as u64, c as u64)));
                assert(edges@.contains((a as u64, c as u64)));
                let s2 = choose|s2: int|
                    0 <= s2 < edges@.len() && edges@[s2] == (a as u64, c as u64);
                assert(graph_edges(scope.scc_graph).contains(q));
            }
        }
        assert(graph_edges(gm) =~= import_edge_set(*graph, *availability_info)) by {
            assert forall|q: (u64, u64)| #[trigger]
                graph_edges(gm).contains(q) implies import_edge_set(
                *graph,
                *availability_info,
            ).contains(q) by {
                let st = choose|st: int| 0 <= st < ir.len() && ir[st] == q;
                assert(ir.contains(q));
            }
            assert forall|q: (u64, u64)| #[trigger]
                import_edge_set(*graph, *availability_info).contains(q) implies graph_edges(
                gm,
            ).contains(q) by {
                let (a, c) = choose|a: usize, c: usize|
                    #[trigger] import_edge(*graph, *availability_info, a, c) && q.0 == a as u64
                        && q.1 == c as u64;
                assert(ir.contains((a as u64, c as u64)));
                let st = choose|st: int| 0 <= st < ir.len() && ir[st] == (a as u64, c as u64);
            }
        }
        assert forall|x: u64, y: u64|
            #![trigger scope.scc_map@[x], scope.scc_map@[y]]
            scope.scc_map@.contains_key(x) && scope.scc_map@.contains_key(y) && scope.scc_map@[x]
                == scope.scc_map@[y] implies edge_reaches(
            import_edge_set(*graph, *availability_info),
            x,
            y,
        ) by {
            let i2 = scope.scc_map@[x] as int;
            assert(scope.sccs@[i2].0@.contains(x));
            assert(scope.sccs@[i2].0@.contains(y));
            if i2 < raw.len() {
                assert(scope.sccs@[i2].0 == raw[i2]);
                assert(raw[i2]@.contains(x) && raw[i2]@.contains(y));
                assert(edge_reaches(graph_edges(gm), x, y));
            } else {
                assert(scope.sccs@[i2].0@.len() == 1);
                let kx = choose|kx: int|
                    0 <= kx < scope.sccs@[i2].0@.len() && scope.sccs@[i2].0@[kx] == x;
                let ky = choose|ky: int|
                    0 <= ky < scope.sccs@[i2].0@.len() && scope.sccs@[i2].0@[ky] == y;
                assert(kx == 0 && ky == 0);
                assert(x == y);
                lemma_edge_reaches_self(import_edge_set(*graph, *availability_info), x);
            }
        }
        assert(scope.wf()) by {
            assert forall|q: (u64, u64)|
                #[trigger] graph_edges(scope.scc_graph).contains(q) implies q.1 < q.0 && (
                q.0 as int) < scope.sccs@.len() by {
                assert((q.0 as int) < raw.len());
            }
        }
    }
    Ok(scope)
}

    /// The component identity of `placeable`, or none if the module is
    /// outside the scope's module set.
    pub fn get_scc(&self, placeable: u64) -> (r: Option<usize>)
        ensures
            match r {
                Some(i) => self.scc_map@.contains_key(placeable) && i
                    == self.scc_map@[placeable],
                None => !self.scc_map@.contains_key(placeable),
            },
    {
        match self.scc_map.get(&placeable) {
            Some(i) => Some(*i),
            None => None,
        }
    }

    /// The component identities this component has a condensation edge to:
    /// the scopes it imports something from.
    pub fn get_scc_children(&self, scc: usize) -> (r: Vec<usize>)
        requires
            self.wf(),
        ensures
            r@.no_duplicates(),
            forall|j: usize|
                #[trigger] r@.contains(j) <==> graph_edges(self.scc_graph).contains(
                    (scc as u64, j as u64),
                ),
    {
        let ns = graph_neighbors(&self.scc_graph, scc as u64);
        let mut r: Vec<usize> = Vec::new();
        let mut i: usize = 0;
        while i < ns.len()
            invariant
                self.wf(),
                i <= ns@.len(),
                ns@.no_duplicates(),
                forall|x: u64|
                    #[trigger] ns@.contains(x) <==> graph_edges(self.scc_graph).contains(
                        (scc as u64, x),
                    ),
                forall|j: usize|
                    #[trigger] r@.contains(j) <==> (exists|k: int|
                        0 <= k < i && ns@[k] == j as u64),
                r@.no_duplicates(),
            decreases ns@.len() - i,
        {
            let x = ns[i];
            proof {
                assert(ns@.contains(ns@[i as int]));
                assert(graph_edges(self.scc_graph).contains((scc as u64, x)));
                assert((x as int) < self.sccs@.len());
                assert(spec_vec_len(&self.sccs) == self.sccs@.len());
                if r@.contains(x as usize) {
                    let k = choose|k: int| 0 <= k < i && ns@[k] == (x as usize) as u64;
                    assert(ns@[k] == ns@[i as int]);
                    assert(false);
                }
                crate::chunking::lemma_push_no_dup_generic(r@, x as usize);
            }
            r.push(x as usize);
            i += 1;
        }
        proof {
            assert forall|j: usize| #[trigger]
                r@.contains(j) <==> graph_edges(self.scc_graph).contains(
                    (scc as u64, j as u64),
                ) by {
                if r@.contains(j) {
                    let k = choose|k: int| 0 <= k < ns@.len() && ns@[k] == j as u64;
                    assert(ns@.contains(ns@[k]));
                }
                if graph_edges(self.scc_graph).contains((scc as u64, j as u64)) {
                    assert(ns@.contains(j as u64));
                    let k = choose|k: int| 0 <= k < ns@.len() && ns@[k] == j as u64;
                }
            }
        }
        r
    }
}

/// Every module the scope assigns a component to — in particular every
/// script module of the scope's module set — belongs to exactly one strongly
/// connected component: the one its map entry names.
pub proof fn lemma_scc_partition(scope: EsmScope, x: u64)
    requires
        scope.wf(),
        scope.scc_map@.contains_key(x),
    ensures
        (scope.scc_map@[x] as int) < scope.sccs@.len(),
        scope.sccs@[scope.scc_map@[x] as int].0@.contains(x),
        forall|i: int|
            #![trigger scope.sccs@[i].0@.contains(x)]
            0 <= i < scope.sccs@.len() && scope.sccs@[i].0@.contains(x) ==> i
                == scope.scc_map@[x],
{
}

/// Along a walk of the condensation graph, component indices strictly
/// decrease.
proof fn lemma_condensation_walk_decreases(scope: EsmScope, p: Seq<u64>, i: int, j: int)
    requires
        scope.wf(),
        forall|k: int|
            0 <= k < p.len() - 1 ==> #[trigger] graph_edges(scope.scc_graph).contains(
                (p[k], p[k + 1]),
            ),
        0 <= i < j < p.len(),
    ensures
        p[j] < p[i],
    decreases j - i,
{
    let k = j - 1;
    assert(graph_edges(scope.scc_graph).contains((p[k], p[k + 1])));
    if i < j - 1 {
        lemma_condensation_walk_decreases(scope, p, i, j - 1);
    }
}

/// The condensation graph contains no cycle: a multi-module import cycle
/// collapses into one component, so no condensation walk can return to its
/// starting component.
pub proof fn lemma_condensation_acyclic(scope: EsmScope, p: Seq<u64>)
    requires
        scope.wf(),
        p.len() >= 2,
        forall|k: int|
            0 <= k < p.len() - 1 ==> #[trigger] graph_edges(scope.scc_graph).contains(
                (p[k], p[k + 1]),
            ),
    ensures
        p.last() != p[0],
{
    lemma_condensation_walk_decreases(scope, p, 0, p.len() - 1);
}

} // verus!
