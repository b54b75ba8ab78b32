//! The module reference graph that chunk-group construction consumes.
//!
//! A module has a stable identity (its index in the graph), content flags and
//! an ordered sequence of references. A reference is an edge to one or more
//! target modules, optionally classified with a [`ChunkingType`]; references
//! without a classification are opaque/external and never produce chunk items.

use vstd::prelude::*;

verus! {

use crate::ChunkingType;

/// A directed edge from a module to one or more target modules.
pub struct Reference {
    /// How the targets are grouped relative to the referencer; `None` means
    /// the reference is opaque/external.
    pub chunking_type: Option<ChunkingType>,
    /// The primary target modules this reference resolves to.
    pub targets: Vec<usize>,
    /// For a static ECMAScript import that resolves to a concrete script
    /// module, the identity of that module; `None` for references that do not
    /// resolve this way (external, dynamic, non-import).
    pub static_import: Option<usize>,
}

/// One module: content flags plus its ordered outgoing references.
pub struct ModuleData {
    /// Whether the module supports chunk-item materialization.
    pub chunkable: bool,
    /// Whether the module is an ECMAScript (script) module.
    pub is_script: bool,
    /// The module's outgoing references, in order.
    pub references: Vec<Reference>,
}

/// The whole reference graph; a module's identity is its index.
pub struct ModuleGraph {
    pub modules: Vec<ModuleData>,
}

impl Reference {
    /// Every target identity stays inside the graph, and a resolved static
    /// import points at a script module.
    pub open spec fn wf(self, module_count: int, modules: Seq<ModuleData>) -> bool {
        &&& forall|k: int|
            0 <= k < self.targets@.len() ==> (#[trigger] self.targets@[k]) < module_count
        &&& match self.static_import {
            Some(c) => c < module_count && modules[c as int].is_script,
            None => true,
        }
    }
}

impl ModuleGraph {
    /// Well-formedness: all edges stay inside the graph.
    pub open spec fn wf(self) -> bool {
        forall|m: int, i: int|
            0 <= m < self.modules@.len() && 0 <= i < self.modules@[m].references@.len()
                ==> (#[trigger] self.modules@[m].references@[i]).wf(
                self.modules@.len() as int,
                self.modules@,
            )
    }
}

/// The targets a single reference contributes to the chunkable closure:
/// its targets if it carries an inline chunking type, nothing otherwise.
pub open spec fn ref_chunkable_targets(g: ModuleGraph, m: int, i: int) -> Seq<usize> {
    let r = g.modules@[m].references@[i];
    match r.chunking_type {
        Some(t) => if t.is_inline() {
            r.targets@
        } else {
            Seq::empty()
        },
        None => Seq::empty(),
    }
}

/// The concatenation of the chunkable targets of module `m`'s first `i`
/// references.
pub open spec fn chunkable_succ_up_to(g: ModuleGraph, m: int, i: int) -> Seq<usize>
    decreases i,
{
    if i <= 0 {
        Seq::empty()
    } else {
        chunkable_succ_up_to(g, m, i - 1) + ref_chunkable_targets(g, m, i - 1)
    }
}

/// The modules directly reachable from `m` through references whose chunking
/// type keeps the target in the same chunk group.
pub open spec fn chunkable_succ(g: ModuleGraph, m: usize) -> Seq<usize> {
    if m < g.modules@.len() {
        chunkable_succ_up_to(g, m as int, g.modules@[m as int].references@.len() as int)
    } else {
        Seq::empty()
    }
}

/// A walk through the chunkable closure: consecutive modules are linked by
/// inline-typed references.
pub open spec fn is_chunkable_walk(g: ModuleGraph, p: Seq<usize>) -> bool {
    forall|i: int| 0 <= i < p.len() - 1 ==> (#[trigger] chunkable_succ(g, p[i])).contains(p[i + 1])
}

/// Whether `m` lies in the transitive chunkable closure of `root` (each
/// module's closure contains the module itself).
pub open spec fn chunkable_reach(g: ModuleGraph, root: usize, m: usize) -> bool {
    exists|p: Seq<usize>|
        is_chunkable_walk(g, p) && p.len() > 0 && p[0] == root && p.last() == m
}

/// Every chunkable successor of an in-range module is in range.
pub proof fn lemma_chunkable_succ_in_range(g: ModuleGraph, m: usize, s: usize)
    requires
        g.wf(),
        chunkable_succ(g, m).contains(s),
    ensures
        s < g.modules@.len(),
{
    if m < g.modules@.len() {
        lemma_chunkable_succ_up_to_in_range(
            g,
            m as int,
            g.modules@[m as int].references@.len() as int,
            s,
        );
    }
}

/// Every module in the chunkable closure of an in-range root is in range.
pub proof fn lemma_chunkable_reach_in_range(g: ModuleGraph, root: usize, m: usize)
    requires
        g.wf(),
        (root as int) < g.modules@.len(),
        chunkable_reach(g, root, m),
    ensures
        (m as int) < g.modules@.len(),
{
    let p = choose|p: Seq<usize>|
        is_chunkable_walk(g, p) && p.len() > 0 && p[0] == root && p.last() == m;
    lemma_chunkable_walk_in_range(g, root, p);
}

proof fn lemma_chunkable_walk_in_range(g: ModuleGraph, root: usize, p: Seq<usize>)
    requires
        g.wf(),
        (root as int) < g.modules@.len(),
        is_chunkable_walk(g, p),
        p.len() > 0,
        p[0] == root,
    ensures
        (p.last() as int) < g.modules@.len(),
    decreases p.len(),
{
    if p.len() > 1 {
        let q = p.drop_last();
        assert(is_chunkable_walk(g, q)) by {
            assert forall|i: int| 0 <= i < q.len() - 1 implies (#[trigger] chunkable_succ(
                g,
                q[i],
            )).contains(q[i + 1]) by {
                assert(chunkable_succ(g, p[i]).contains(p[i + 1]));
            }
        }
        lemma_chunkable_walk_in_range(g, root, q);
        assert(chunkable_succ(g, p[p.len() - 2]).contains(p[p.len() - 1]));
        lemma_chunkable_succ_in_range(g, p[p.len() - 2], p[p.len() - 1]);
    }
}

proof fn lemma_chunkable_succ_up_to_in_range(g: ModuleGraph, m: int, i: int, s: usize)
    requires
        g.wf(),
        0 <= m < g.modules@.len(),
        i <= g.modules@[m].references@.len(),
        chunkable_succ_up_to(g, m, i).contains(s),
    ensures
        s < g.modules@.len(),
    decreases i,
{
    if i > 0 {
        let prefix = chunkable_succ_up_to(g, m, i - 1);
        let last = ref_chunkable_targets(g, m, i - 1);
        let cat = prefix + last;
        let k = choose|k: int| 0 <= k < cat.len() && cat[k] == s;
        if k < prefix.len() {
            assert(prefix[k] == s);
            assert(prefix.contains(s));
            lemma_chunkable_succ_up_to_in_range(g, m, i - 1, s);
        } else {
            assert(last[k - prefix.len()] == s);
            assert(g.modules@[m].references@[i - 1].wf(g.modules@.len() as int, g.modules@));
            assert(g.modules@[m].references@[i - 1].targets@[k - prefix.len()] == s);
        }
    }
}

} // verus!
