//! The availability cache chain: a persistent, parent-linked structure
//! recording which modules are already guaranteed present in an ancestor
//! chunk group, with a stable content hash usable as a cache key.
//!
//! Nodes form a tree: each node holds an optional parent and the root modules
//! newly contributed at its level. Adding roots never mutates an ancestor; a
//! new child node is created instead.

use vstd::prelude::*;

verus! {

use crate::Error;
use crate::graph::ModuleGraph;
use crate::graph::chunkable_succ;
use crate::graph::chunkable_reach;
use crate::graph::is_chunkable_walk;
use crate::graph::lemma_chunkable_succ_in_range;
use crate::traversal::Expander;
use crate::traversal::is_walk;
use crate::traversal::reaches;
use crate::traversal::traverse;

broadcast use vstd::seq_lib::lemma_seq_contains_after_push;

/// The subsequence of the first `i` candidates that the chain `a` does not
/// already include, in candidate order: exactly the roots that
/// `with_roots` hands to the child node.
pub open spec fn kept_roots(a: AvailableAssets, g: ModuleGraph, cands: Seq<usize>, i: int) -> Seq<
    usize,
>
    decreases i,
{
    if i <= 0 {
        Seq::empty()
    } else {
        kept_roots(a, g, cands, i - 1) + (if !a.spec_includes(g, cands[i - 1]) {
            seq![cands[i - 1]]
        } else {
            Seq::empty()
        })
    }
}

/// Expands a module into its direct chunkable successors; the edge-discovery
/// callback behind the chunkable closure.
pub struct ChunkableExpander<'a> {
    pub graph: &'a ModuleGraph,
}

impl<'a> Expander<usize> for ChunkableExpander<'a> {
    open spec fn inv(&self) -> bool {
        self.graph.wf()
    }

    open spec fn succ(&self, n: usize) -> Seq<usize> {
        chunkable_succ(*self.graph, n)
    }

    open spec fn ok(&self, n: usize) -> bool {
        true
    }

    open spec fn fails_with(&self, n: usize, err: crate::Error) -> bool {
        false
    }

    open spec fn bound(&self) -> int {
        self.graph.modules@.len() as int
    }

    open spec fn key(&self, n: usize) -> int {
        n as int
    }

    proof fn key_injective(&self, a: usize, b: usize) {
    }

    fn expand(&self, n: &usize) -> (r: Result<Vec<usize>, Error>) {
        let m = *n;
        let ghost g = *self.graph;
        let mut out: Vec<usize> = Vec::new();
        if m >= self.graph.modules.len() {
            return Ok(out);
        }
        let refs = &self.graph.modules[m].references;
        let mut i: usize = 0;
        while i < refs.len()
            invariant
                g == *self.graph,
                g.wf(),
                m < g.modules@.len(),
                refs == g.modules@[m as int].references,
                i <= refs@.len(),
                out@ == crate::graph::chunkable_succ_up_to(g, m as int, i as int),
            decreases refs@.len() - i,
        {
            let r = &refs[i];
            let take = match r.chunking_type {
                Some(crate::ChunkingType::Parallel) => true,
                Some(crate::ChunkingType::PlacedOrParallel) => true,
                Some(crate::ChunkingType::Placed) => true,
                _ => false,
            };
            let ghost out_before = out@;
            if take {
                let mut k: usize = 0;
                while k < r.targets.len()
                    invariant
                        k <= r.targets@.len(),
                        out@ == out_before + r.targets@.subrange(0, k as int),
                    decreases r.targets@.len() - k,
                {
                    out.push(r.targets[k]);
                    proof {
                        assert(out@ =~= out_before + r.targets@.subrange(0, k as int + 1));
                    }
                    k += 1;
                }
                proof {
                    assert(r.targets@.subrange(0, r.targets@.len() as int) =~= r.targets@);
                    assert(crate::graph::ref_chunkable_targets(g, m as int, i as int)
                        == r.targets@);
                }
            } else {
                proof {
                    assert(crate::graph::ref_chunkable_targets(g, m as int, i as int)
                        =~= Seq::empty());
                    assert(out@ =~= out_before + Seq::empty());
                }
            }
            i += 1;
        }
        proof {
            assert(out@ == chunkable_succ(g, m));
            assert forall|j: int| 0 <= j < out@.len() implies 0 <= self.key(#[trigger] out@[j])
                < self.bound() by {
                assert(out@.contains(out@[j]));
                lemma_chunkable_succ_in_range(g, m, out@[j]);
            }
        }
        Ok(out)
    }

    fn eq_nodes(&self, a: &usize, b: &usize) -> (r: bool) {
        *a == *b
    }
}

/// Linear membership scan.
pub fn contains_module(v: &Vec<usize>, x: usize) -> (r: bool)
    ensures
        r == v@.contains(x),
{
    let mut i: usize = 0;
    while i < v.len()
        invariant
            i <= v@.len(),
            forall|k: int| 0 <= k < i ==> v@[k] != x,
        decreases v@.len() - i,
    {
        if v[i] == x {
            assert(v@.contains(x)) by {
                assert(v@[i as int] == x);
            }
            return true;
        }
        i += 1;
    }
    false
}

/// The set of modules reachable from `root` through references whose chunking
/// type keeps the target in the same chunk group, each exactly once.
pub fn chunkable_assets_set(g: &ModuleGraph, root: usize) -> (r: Vec<usize>)
    requires
        g.wf(),
        root < g.modules@.len(),
    ensures
        r@.no_duplicates(),
        forall|m: usize| #[trigger] r@.contains(m) <==> chunkable_reach(*g, root, m),
{
    let e = ChunkableExpander { graph: g };
    let mut entry: Vec<usize> = Vec::new();
    entry.push(root);
    match traverse(&e, &entry) {
        Ok(out) => {
            proof {
                assert(entry@ =~= seq![root]);
                assert forall|m: usize| #[trigger]
                    out@.contains(m) <==> chunkable_reach(*g, root, m) by {
                    if out@.contains(m) {
                        let p = choose|p: Seq<usize>|
                            is_walk(&e, p) && p.len() > 0 && entry@.contains(p[0]) && p.last()
                                == m;
                        assert(is_chunkable_walk(*g, p)) by {
                            assert forall|i: int| 0 <= i < p.len() - 1 implies (
                            #[trigger] chunkable_succ(*g, p[i])).contains(p[i + 1]) by {
                                assert(e.succ(p[i]).contains(p[i + 1]));
                            }
                        }
                        let k = choose|k: int| 0 <= k < entry@.len() && entry@[k] == p[0];
                        assert(p[0] == root);
                        assert(chunkable_reach(*g, root, m));
                    }
                    if chunkable_reach(*g, root, m) {
                        let p = choose|p: Seq<usize>|
                            is_chunkable_walk(*g, p) && p.len() > 0 && p[0] == root && p.last()
                                == m;
                        assert(is_walk(&e, p)) by {
                            assert forall|i: int| 0 <= i < p.len() - 1 implies (
                            #[trigger] e.succ(p[i])).contains(p[i + 1]) by {
                                assert(chunkable_succ(*g, p[i]).contains(p[i + 1]));
                            }
                        }
                        assert(entry@.contains(p[0])) by {
                            assert(entry@[0] == root);
                        }
                        assert(reaches(&e, entry@, m));
                        assert(out@.contains(m));
                    }
                }
            }
            out
        },
        Err(_) => {
            proof {
                let m = choose|m: usize| reaches(&e, entry@, m) && !e.ok(m);
                assert(false);
            }
            Vec::new()
        },
    }
}

/// A 64-bit order-sensitive hash combinator: deterministic and seeded by the
/// running state, so structurally equal availability chains collapse to equal
/// cache keys.
pub open spec fn mix64(h: u64, v: u64) -> u64 {
    (h ^ v).wrapping_mul(0x100000001b3)
}

/// Folds the identities of the first `i` roots into the running hash `h0`, in
/// root order.
pub open spec fn spec_hash_roots_up_to(h0: u64, roots: Seq<usize>, i: int) -> u64
    decreases i,
{
    if i <= 0 {
        h0
    } else {
        mix64(spec_hash_roots_up_to(h0, roots, i - 1), roots[i - 1] as u64)
    }
}

/// Gathers which assets are already available in an ancestor chunk group.
/// Adding more roots forms a linked-list-like structure so that `includes`
/// queries of ancestors stay cacheable.
pub struct AvailableAssets {
    /// The ancestor node, if any; never mutated by descendants.
    pub parent: Option<Box<AvailableAssets>>,
    /// The root modules newly contributed at this level.
    pub roots: Vec<usize>,
}

impl AvailableAssets {
    /// All roots along the chain are module identities inside the graph.
    pub open spec fn wf(self, g: ModuleGraph) -> bool
        decreases self,
    {
        &&& match self.parent {
            Some(p) => (*p).wf(g),
            None => true,
        }
        &&& forall|k: int|
            0 <= k < self.roots@.len() ==> (#[trigger] self.roots@[k]) < g.modules@.len()
    }

    /// Whether `m` is already guaranteed present: an ancestor includes it, or
    /// it lies in the transitive chunkable closure of one of this node's own
    /// roots.
    pub open spec fn spec_includes(self, g: ModuleGraph, m: usize) -> bool
        decreases self,
    {
        ||| match self.parent {
            Some(p) => (*p).spec_includes(g, m),
            None => false,
        }
        ||| exists|k: int|
            0 <= k < self.roots@.len() && chunkable_reach(g, #[trigger] self.roots@[k], m)
    }

    /// The stable content hash of the chain: the parent's hash (or a fixed
    /// sentinel if none) folded with each root identity, in root order.
    pub open spec fn spec_hash(self) -> u64
        decreases self,
    {
        let base = match self.parent {
            Some(p) => (*p).spec_hash(),
            None => 0u64,
        };
        spec_hash_roots_up_to(base, self.roots@, self.roots@.len() as int)
    }

    /// Builds a node from a parent link and exactly the given roots.
    pub fn new_normalized(parent: Option<Box<AvailableAssets>>, roots: Vec<usize>) -> (r:
        AvailableAssets)
        ensures
            r.parent == parent,
            r.roots@ == roots@,
    {
        AvailableAssets { parent, roots }
    }

    /// Builds a new root-less node from a list of roots.
    pub fn new(roots: Vec<usize>) -> (r: AvailableAssets)
        ensures
            r.parent is None,
            r.roots@ == roots@,
    {
        Self::new_normalized(None, roots)
    }

    /// Creates the child node for a nested chunk group: keeps only the
    /// candidates the ancestor chain does not already include, so a candidate
    /// already reachable from an ancestor is never duplicated into the child's
    /// own root list.
    pub fn with_roots(self, g: &ModuleGraph, candidates: &Vec<usize>) -> (r: AvailableAssets)
        requires
            g.wf(),
            self.wf(*g),
            forall|k: int|
                0 <= k < candidates@.len() ==> (#[trigger] candidates@[k]) < g.modules@.len(),
        ensures
            r.parent matches Some(p) && *p == self,
            r.roots@ == kept_roots(self, *g, candidates@, candidates@.len() as int),
            forall|k: int|
                0 <= k < r.roots@.len() ==> !self.spec_includes(*g, #[trigger] r.roots@[k]),
            forall|k: int|
                0 <= k < candidates@.len() && !self.spec_includes(
                    *g,
                    #[trigger] candidates@[k],
                ) ==> r.roots@.contains(candidates@[k]),
            r.wf(*g),
    {
        let mut kept: Vec<usize> = Vec::new();
        let mut i: usize = 0;
        while i < candidates.len()
            invariant
                g.wf(),
                self.wf(*g),
                i <= candidates@.len(),
                forall|k: int|
                    0 <= k < candidates@.len() ==> (#[trigger] candidates@[k])
                        < g.modules@.len(),
                kept@ == kept_roots(self, *g, candidates@, i as int),
                forall|j: int|
                    0 <= j < kept@.len() ==> !self.spec_includes(*g, #[trigger] kept@[j]),
                forall|k: int|
                    0 <= k < i && !self.spec_includes(*g, #[trigger] candidates@[k])
                        ==> kept@.contains(candidates@[k]),
                forall|j: int| 0 <= j < kept@.len() ==> (#[trigger] kept@[j]) < g.modules@.len(),
            decreases candidates@.len() - i,
        {
            let c = candidates[i];
            let ghost kept_before = kept@;
            if !self.includes(g, c) {
                kept.push(c);
                proof {
                    assert(kept@ =~= kept_before + seq![c]);
                }
            } else {
                proof {
                    assert(kept@ =~= kept_before + Seq::empty());
                }
            }
            i += 1;
        }
        AvailableAssets { parent: Some(Box::new(self)), roots: kept }
    }

    /// Whether the chain already includes `m`; checks the ancestor chain
    /// first, then the chunkable closure of each of this node's own roots.
    pub fn includes(&self, g: &ModuleGraph, m: usize) -> (r: bool)
        requires
            g.wf(),
            self.wf(*g),
        ensures
            r == self.spec_includes(*g, m),
        decreases *self,
    {
        if let Some(p) = &self.parent {
            if p.includes(g, m) {
                return true;
            }
        }
        let mut k: usize = 0;
        while k < self.roots.len()
            invariant
                g.wf(),
                self.wf(*g),
                k <= self.roots@.len(),
                forall|j: int| 0 <= j < k ==> !chunkable_reach(*g, #[trigger] self.roots@[j], m),
            decreases self.roots@.len() - k,
        {
            let closure = chunkable_assets_set(g, self.roots[k]);
            if contains_module(&closure, m) {
                proof {
                    assert(chunkable_reach(*g, self.roots@[k as int], m));
                }
                return true;
            }
            k += 1;
        }
        false
    }

    /// The 64-bit content hash of the chain, usable as part of a chunk-item
    /// cache key.
    pub fn hash(&self) -> (r: u64)
        ensures
            r == self.spec_hash(),
        decreases *self,
    {
        let base = if let Some(p) = &self.parent {
            p.hash()
        } else {
            0u64
        };
        let mut h = base;
        let mut i: usize = 0;
        while i < self.roots.len()
            invariant
                i <= self.roots@.len(),
                h == spec_hash_roots_up_to(base, self.roots@, i as int),
            decreases self.roots@.len() - i,
        {
            h = (h ^ (self.roots[i] as u64)).wrapping_mul(0x100000001b3);
            i += 1;
        }
        h
    }
}

/// Availability is monotonic along the parent chain: whatever an ancestor
/// includes, every descendant node built on it includes as well.
pub proof fn lemma_includes_monotonic(
    parent: AvailableAssets,
    child: AvailableAssets,
    g: ModuleGraph,
    m: usize,
)
    requires
        child.parent matches Some(p) && *p == parent,
    ensures
        parent.spec_includes(g, m) ==> child.spec_includes(g, m),
{
}

/// The availability state threaded through recursive chunk-group
/// construction: an optional reference to an [`AvailableAssets`] node plus the
/// identity of the chunk-group entry that owns it.
pub enum AvailabilityInfo {
    /// Availability is not tracked for this chunk group.
    Untracked,
    /// The root chunk group: no ancestor availability exists yet.
    Root { current_availability_root: usize },
    /// A nested chunk group carrying its ancestor availability.
    Inner { available_assets: AvailableAssets, current_availability_root: usize },
}

impl AvailabilityInfo {
    /// The chunk-group entry point that owns this availability state, if any.
    pub open spec fn spec_current_availability_root(self) -> Option<usize> {
        match self {
            AvailabilityInfo::Untracked => None,
            AvailabilityInfo::Root { current_availability_root } => Some(
                current_availability_root,
            ),
            AvailabilityInfo::Inner { current_availability_root, .. } => Some(
                current_availability_root,
            ),
        }
    }

    /// A 64-bit digest of the availability state, folded into chunk-item
    /// cache keys: distinct availability hashes never collapse into one key.
    pub open spec fn spec_hash(self) -> u64 {
        match self {
            AvailabilityInfo::Untracked => 0u64,
            AvailabilityInfo::Root { current_availability_root } => mix64(
                1u64,
                current_availability_root as u64,
            ),
            AvailabilityInfo::Inner { available_assets, current_availability_root } => mix64(
                available_assets.spec_hash(),
                current_availability_root as u64,
            ),
        }
    }

    /// Validity of the contained availability chain.
    pub open spec fn wf(self, g: ModuleGraph) -> bool {
        match self {
            AvailabilityInfo::Inner { available_assets, .. } => available_assets.wf(g),
            _ => true,
        }
    }

    pub fn current_availability_root(&self) -> (r: Option<usize>)
        ensures
            r == self.spec_current_availability_root(),
    {
        match self {
            AvailabilityInfo::Untracked => None,
            AvailabilityInfo::Root { current_availability_root } => Some(
                *current_availability_root,
            ),
            AvailabilityInfo::Inner { current_availability_root, .. } => Some(
                *current_availability_root,
            ),
        }
    }

    pub fn hash(&self) -> (r: u64)
        ensures
            r == self.spec_hash(),
    {
        match self {
            AvailabilityInfo::Untracked => 0u64,
            AvailabilityInfo::Root { current_availability_root } => (1u64 ^ (
            *current_availability_root as u64)).wrapping_mul(0x100000001b3),
            AvailabilityInfo::Inner { available_assets, current_availability_root } => (
            available_assets.hash() ^ (*current_availability_root as u64)).wrapping_mul(
                0x100000001b3,
            ),
        }
    }
}

} // verus!
