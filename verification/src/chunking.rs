//! The chunking classifier: walks the module reference graph from a set of
//! entries and buckets every reachable module/reference into one of five
//! chunking treatments, producing a [`ChunkingResult`].

use vstd::prelude::*;

verus! {

use crate::ChunkingType;
use crate::Error;
use crate::available_assets::AvailabilityInfo;
use crate::graph::ModuleGraph;
use crate::traversal::Expander;
use crate::traversal::is_walk;
use crate::traversal::reaches;
use crate::traversal::traverse;
use vstd::std_specs::vec::spec_vec_len;

broadcast use {vstd::std_specs::vec::axiom_spec_len, vstd::seq_lib::lemma_seq_contains_after_push};

/// The materialized output unit derived from (module, chunking context,
/// availability info). The same module yields different chunk items under
/// different availability states, so the identity for caching purposes is the
/// whole triple, never the module alone.
#[derive(Clone, Copy, PartialEq, Eq, Structural, Debug)]
pub struct ChunkItem {
    /// The module this item materializes.
    pub module: usize,
    /// The identity of the chunking context that materialized it.
    pub context: u64,
    /// The availability-state digest under which it was materialized.
    pub availability_hash: u64,
}

/// The identity of a reference: its owning module and its position among that
/// module's references.
#[derive(Clone, Copy, PartialEq, Eq, Structural, Debug)]
pub struct ReferenceId {
    pub module: usize,
    pub reference: usize,
}

/// The chunk item that the chunking context materializes for `module`.
pub open spec fn spec_as_chunk_item(module: usize, context: u64, availability_hash: u64)
    -> ChunkItem {
    ChunkItem { module, context, availability_hash }
}

/// Materializes the chunk item for `module` under the given context and
/// availability state; deterministic for identical inputs.
pub fn as_chunk_item(module: usize, context: u64, availability_hash: u64) -> (r: ChunkItem)
    ensures
        r == spec_as_chunk_item(module, context, availability_hash),
{
    ChunkItem { module, context, availability_hash }
}

/// One collected result of the classifying traversal. Only `ChunkItem` items
/// are expanded further; the other variants are terminal for the traversal.
#[derive(Clone, Copy, PartialEq, Eq, Structural, Debug)]
pub enum ResultItem {
    /// A module placed directly into this chunk group.
    ChunkItem { chunk_item: ChunkItem, module: usize },
    /// A reference that must remain unresolved.
    External { id: ReferenceId },
    /// A module that must seed a new forced-isolated chunk group.
    IsolatedParallel { module: usize },
    /// A module that must seed a new lazily-loaded chunk group.
    Async { module: usize },
}

/// The `ChunkItem` result item that places `m`.
pub open spec fn chunk_node(ctx: u64, ah: u64, m: usize) -> ResultItem {
    ResultItem::ChunkItem { chunk_item: spec_as_chunk_item(m, ctx, ah), module: m }
}

/// The result items that reference `i` of module `m` contributes:
/// no chunking type makes the reference external; an inline type places each
/// target as a chunk item; the other types seed new chunk groups per target.
pub open spec fn classify_ref_items(g: ModuleGraph, ctx: u64, ah: u64, m: int, i: int) -> Seq<
    ResultItem,
> {
    let r = g.modules@[m].references@[i];
    match r.chunking_type {
        None => seq![
            ResultItem::External { id: ReferenceId { module: m as usize, reference: i as usize } },
        ],
        Some(t) => if t.is_inline() {
            Seq::new(r.targets@.len(), |k: int| chunk_node(ctx, ah, r.targets@[k]))
        } else if t is IsolatedParallel {
            Seq::new(
                r.targets@.len(),
                |k: int| ResultItem::IsolatedParallel { module: r.targets@[k] },
            )
        } else {
            Seq::new(r.targets@.len(), |k: int| ResultItem::Async { module: r.targets@[k] })
        },
    }
}

/// The concatenation of the contributions of module `m`'s first `i`
/// references.
pub open spec fn classify_succ_up_to(g: ModuleGraph, ctx: u64, ah: u64, m: int, i: int) -> Seq<
    ResultItem,
>
    decreases i,
{
    if i <= 0 {
        Seq::empty()
    } else {
        classify_succ_up_to(g, ctx, ah, m, i - 1) + classify_ref_items(g, ctx, ah, m, i - 1)
    }
}

/// The result items the classifying traversal discovers from `item`: a placed
/// chunk item enumerates its module's references; all other items are
/// terminal.
pub open spec fn classify_succ(g: ModuleGraph, ctx: u64, ah: u64, item: ResultItem) -> Seq<
    ResultItem,
> {
    match item {
        ResultItem::ChunkItem { module, .. } => if (module as int) < g.modules@.len() {
            classify_succ_up_to(
                g,
                ctx,
                ah,
                module as int,
                g.modules@[module as int].references@.len() as int,
            )
        } else {
            Seq::empty()
        },
        _ => Seq::empty(),
    }
}

/// Whether every target of reference `i` of module `m` supports chunk-item
/// materialization, if the reference's chunking type demands it.
pub open spec fn ref_targets_chunkable(g: ModuleGraph, m: int, i: int) -> bool {
    let r = g.modules@[m].references@[i];
    match r.chunking_type {
        Some(t) => t.is_inline() ==> forall|k: int|
            0 <= k < r.targets@.len() ==> g.modules@[(#[trigger] r.targets@[k]) as int].chunkable,
        None => true,
    }
}

/// Whether expanding `item` succeeds: a placed chunk item demands that every
/// target of its inline-typed references is chunkable (a contract error
/// otherwise); terminal items always succeed.
pub open spec fn classify_ok(g: ModuleGraph, item: ResultItem) -> bool {
    match item {
        ResultItem::ChunkItem { module, .. } => (module as int) < g.modules@.len() ==> forall|
            i: int,
        |
            0 <= i < g.modules@[module as int].references@.len() ==> ref_targets_chunkable(
                g,
                module as int,
                i,
            ),
        _ => true,
    }
}

/// Whether `t` is a target of some reference of module `m` whose chunking
/// type places it inline (into the same chunk group).
pub open spec fn inline_target(g: ModuleGraph, m: int, t: usize) -> bool {
    exists|i: int, k: int|
        #![trigger g.modules@[m].references@[i].targets@[k]]
        0 <= i < g.modules@[m].references@.len() && (match g.modules@[m].references@[i].chunking_type {
            Some(ct) => ct.is_inline(),
            None => false,
        }) && 0 <= k < g.modules@[m].references@[i].targets@.len()
            && g.modules@[m].references@[i].targets@[k] == t
}

/// Internal consistency of a result item: identities stay inside the graph
/// and a placed item carries exactly the chunk item its module materializes
/// to.
pub open spec fn item_wf(g: ModuleGraph, ctx: u64, ah: u64, item: ResultItem) -> bool {
    match item {
        ResultItem::ChunkItem { chunk_item, module } => (module as int) < g.modules@.len()
            && chunk_item == spec_as_chunk_item(module, ctx, ah),
        ResultItem::External { id } => (id.module as int) < g.modules@.len() && (
        id.reference as int) < g.modules@[id.module as int].references@.len(),
        ResultItem::IsolatedParallel { module } => (module as int) < g.modules@.len(),
        ResultItem::Async { module } => (module as int) < g.modules@.len(),
    }
}

/// A walk of the classifying traversal.
pub open spec fn is_classify_walk(g: ModuleGraph, ctx: u64, ah: u64, p: Seq<ResultItem>) -> bool {
    forall|i: int|
        0 <= i < p.len() - 1 ==> (#[trigger] classify_succ(g, ctx, ah, p[i])).contains(p[i + 1])
}

/// Whether the classifying traversal seeded with `entries` discovers `item`.
pub open spec fn discovered(
    g: ModuleGraph,
    ctx: u64,
    ah: u64,
    entries: Seq<usize>,
    item: ResultItem,
) -> bool {
    exists|p: Seq<ResultItem>|
        is_classify_walk(g, ctx, ah, p) && p.len() > 0 && (exists|k: int|
            0 <= k < entries.len() && p[0] == chunk_node(ctx, ah, #[trigger] entries[k]))
            && p.last() == item
}

/// The number of references of module `m`.
pub open spec fn refs_count(g: ModuleGraph, m: int) -> int {
    g.modules@[m].references@.len() as int
}

/// The total number of references of the modules before `m`.
pub open spec fn refs_before(g: ModuleGraph, m: int) -> int
    decreases m,
{
    if m <= 0 {
        0
    } else {
        refs_before(g, m - 1) + refs_count(g, m - 1)
    }
}

/// The total number of references in the graph.
pub open spec fn total_refs(g: ModuleGraph) -> int {
    refs_before(g, g.modules@.len() as int)
}

proof fn lemma_refs_before_mono(g: ModuleGraph, a: int, b: int)
    requires
        0 <= a <= b,
    ensures
        refs_before(g, a) <= refs_before(g, b),
    decreases b - a,
{
    if a < b {
        lemma_refs_before_mono(g, a, b - 1);
    }
}

proof fn lemma_refs_before_nonneg(g: ModuleGraph, m: int)
    ensures
        0 <= refs_before(g, m),
    decreases m,
{
    if m > 0 {
        lemma_refs_before_nonneg(g, m - 1);
    }
}

/// The key block `[refs_before(m), refs_before(m) + refs_count(m))` of module
/// `m` stays below the blocks of later modules and below the total.
proof fn lemma_refs_block(g: ModuleGraph, m: int)
    requires
        0 <= m < g.modules@.len(),
    ensures
        refs_before(g, m) + refs_count(g, m) <= total_refs(g),
        0 <= refs_before(g, m),
{
    lemma_refs_before_nonneg(g, m);
    assert(refs_before(g, m + 1) == refs_before(g, m) + refs_count(g, m));
    lemma_refs_before_mono(g, m + 1, g.modules@.len() as int);
}

/// Expands a placed chunk item into the result items of its references; the
/// edge-discovery callback behind the chunking classifier.
pub struct ChunkingExpander<'a> {
    pub graph: &'a ModuleGraph,
    pub context: u64,
    pub availability_hash: u64,
}

impl<'a> Expander<ResultItem> for ChunkingExpander<'a> {
    open spec fn inv(&self) -> bool {
        self.graph.wf()
    }

    open spec fn succ(&self, n: ResultItem) -> Seq<ResultItem> {
        classify_succ(*self.graph, self.context, self.availability_hash, n)
    }

    open spec fn ok(&self, n: ResultItem) -> bool {
        classify_ok(*self.graph, n)
    }

    open spec fn fails_with(&self, n: ResultItem, err: Error) -> bool {
        match n {
            ResultItem::ChunkItem { module, .. } => (module as int) < g_len(*self.graph) && (
            match err {
                Error::NotChunkable { module: t } => inline_target(
                    *self.graph,
                    module as int,
                    t,
                ) && !self.graph.modules@[t as int].chunkable,
                _ => false,
            }),
            _ => false,
        }
    }

    open spec fn bound(&self) -> int {
        3 * g_len(*self.graph) + total_refs(*self.graph)
    }

    open spec fn key(&self, n: ResultItem) -> int {
        item_key(*self.graph, self.context, self.availability_hash, n)
    }

    proof fn key_injective(&self, a: ResultItem, b: ResultItem) {
        let g = *self.graph;
        let len = g_len(g);
        assert forall|m: int| 0 <= m < len implies 0 <= refs_before(g, m) && refs_before(g, m)
            + refs_count(g, m) <= total_refs(g) by {
            lemma_refs_block(g, m);
        }
        lemma_refs_before_nonneg(g, len);
        match (a, b) {
            (
                ResultItem::External { id: id1 },
                ResultItem::External { id: id2 },
            ) => {
                if id1.module != id2.module {
                    if (id1.module as int) < (id2.module as int) {
                        lemma_refs_block(g, id1.module as int);
                        lemma_refs_before_mono(g, id1.module as int + 1, id2.module as int);
                        lemma_refs_before_nonneg(g, id2.module as int);
                    } else {
                        lemma_refs_block(g, id2.module as int);
                        lemma_refs_before_mono(g, id2.module as int + 1, id1.module as int);
                        lemma_refs_before_nonneg(g, id1.module as int);
                    }
                }
            },
            _ => {},
        }
    }

    fn expand(&self, n: &ResultItem) -> (r: Result<Vec<ResultItem>, Error>) {
        let ghost g = *self.graph;
        let ghost ctx = self.context;
        let ghost ah = self.availability_hash;
        let m: usize = match n {
            ResultItem::ChunkItem { module, .. } => *module,
            _ => {
                return Ok(Vec::new());
            },
        };
        let mut out: Vec<ResultItem> = Vec::new();
        if m >= self.graph.modules.len() {
            return Ok(out);
        }
        let refs = &self.graph.modules[m].references;
        let mut i: usize = 0;
        while i < refs.len()
            invariant
                g == *self.graph,
                ctx == self.context,
                ah == self.availability_hash,
                g.wf(),
                m < g.modules@.len(),
                (*n) matches ResultItem::ChunkItem { module: nm, .. } && nm == m,
                refs == g.modules@[m as int].references,
                i <= refs@.len(),
                out@ == classify_succ_up_to(g, ctx, ah, m as int, i as int),
                forall|j: int| 0 <= j < i ==> ref_targets_chunkable(g, m as int, j),
            decreases refs@.len() - i,
        {
            let r = &refs[i];
            let ghost out_before = out@;
            proof {
                assert(r.wf(g.modules@.len() as int, g.modules@));
            }
            match r.chunking_type {
                None => {
                    out.push(ResultItem::External {
                        id: ReferenceId { module: m, reference: i },
                    });
                    proof {
                        assert(out@ =~= out_before + classify_ref_items(
                            g,
                            ctx,
                            ah,
                            m as int,
                            i as int,
                        ));
                    }
                },
                Some(t) => {
                    let inline = match t {
                        ChunkingType::Parallel => true,
                        ChunkingType::PlacedOrParallel => true,
                        ChunkingType::Placed => true,
                        _ => false,
                    };
                    if inline {
                        let mut k: usize = 0;
                        while k < r.targets.len()
                            invariant
                                g == *self.graph,
                                ctx == self.context,
                                ah == self.availability_hash,
                                g.wf(),
                                m < g.modules@.len(),
                                (*n) matches ResultItem::ChunkItem { module: nm, .. } && nm == m,
                                i < g.modules@[m as int].references@.len(),
                                r == g.modules@[m as int].references@[i as int],
                                r.chunking_type matches Some(t2) && t2.is_inline(),
                                k <= r.targets@.len(),
                                out@ == out_before + Seq::new(
                                    k as nat,
                                    |k2: int| chunk_node(ctx, ah, r.targets@[k2]),
                                ),
                                forall|k2: int|
                                    0 <= k2 < k ==> g.modules@[(
                                    #[trigger] r.targets@[k2]) as int].chunkable,
                            decreases r.targets@.len() - k,
                        {
                            let t_mod = r.targets[k];
                            proof {
                                assert(r.wf(g.modules@.len() as int, g.modules@));
                            }
                            if !self.graph.modules[t_mod].chunkable {
                                proof {
                                    assert(!ref_targets_chunkable(g, m as int, i as int));
                                    assert(!classify_ok(g, *n));
                                    let ghost ki = k as int;
                                    assert(g.modules@[m as int].references@[i as int].targets@[ki]
                                        == t_mod);
                                    assert(inline_target(g, m as int, t_mod));
                                }
                                return Err(Error::NotChunkable { module: t_mod });
                            }
                            out.push(ResultItem::ChunkItem {
                                chunk_item: as_chunk_item(t_mod, self.context, self.availability_hash),
                                module: t_mod,
                            });
                            proof {
                                assert(out@ =~= out_before + Seq::new(
                                    (k + 1) as nat,
                                    |k2: int| chunk_node(ctx, ah, r.targets@[k2]),
                                ));
                            }
                            k += 1;
                        }
                        proof {
                            assert(classify_ref_items(g, ctx, ah, m as int, i as int) =~= Seq::new(
                                r.targets@.len(),
                                |k2: int| chunk_node(ctx, ah, r.targets@[k2]),
                            ));
                            assert(out@ == out_before + classify_ref_items(
                                g,
                                ctx,
                                ah,
                                m as int,
                                i as int,
                            ));
                            assert(ref_targets_chunkable(g, m as int, i as int));
                        }
                    } else {
                        let iso = match t {
                            ChunkingType::IsolatedParallel => true,
                            _ => false,
                        };
                        let mut k: usize = 0;
                        while k < r.targets.len()
                            invariant
                                g == *self.graph,
                                ctx == self.context,
                                ah == self.availability_hash,
                                m < g.modules@.len(),
                                i < g.modules@[m as int].references@.len(),
                                r == g.modules@[m as int].references@[i as int],
                                r.chunking_type matches Some(t2) && !t2.is_inline() && (iso <==> t2
                                    is IsolatedParallel),
                                k <= r.targets@.len(),
                                out@ == out_before + (if iso {
                                    Seq::new(
                                        k as nat,
                                        |k2: int|
                                            ResultItem::IsolatedParallel {
                                                module: r.targets@[k2],
                                            },
                                    )
                                } else {
                                    Seq::new(
                                        k as nat,
                                        |k2: int| ResultItem::Async { module: r.targets@[k2] },
                                    )
                                }),
                            decreases r.targets@.len() - k,
                        {
                            let t_mod = r.targets[k];
                            if iso {
                                out.push(ResultItem::IsolatedParallel { module: t_mod });
                                proof {
                                    assert(out@ =~= out_before + Seq::new(
                                        (k + 1) as nat,
                                        |k2: int|
                                            ResultItem::IsolatedParallel {
                                                module: r.targets@[k2],
                                            },
                                    ));
                                }
                            } else {
                                out.push(ResultItem::Async { module: t_mod });
                                proof {
                                    assert(out@ =~= out_before + Seq::new(
                                        (k + 1) as nat,
                                        |k2: int| ResultItem::Async { module: r.targets@[k2] },
                                    ));
                                }
                            }
                            k += 1;
                        }
                        proof {
                            if iso {
                                assert(classify_ref_items(g, ctx, ah, m as int, i as int)
                                    =~= Seq::new(
                                    r.targets@.len(),
                                    |k2: int|
                                        ResultItem::IsolatedParallel { module: r.targets@[k2] },
                                ));
                            } else {
                                assert(classify_ref_items(g, ctx, ah, m as int, i as int)
                                    =~= Seq::new(
                                    r.targets@.len(),
                                    |k2: int| ResultItem::Async { module: r.targets@[k2] },
                                ));
                            }
                            assert(out@ == out_before + classify_ref_items(
                                g,
                                ctx,
                                ah,
                                m as int,
                                i as int,
                            ));
                            assert(ref_targets_chunkable(g, m as int, i as int));
                        }
                    }
                },
            }
            i += 1;
        }
        proof {
            assert(out@ == classify_succ(g, ctx, ah, *n));
            assert(classify_ok(g, *n));
            assert forall|j: int| 0 <= j < out@.len() implies 0 <= self.key(#[trigger] out@[j])
                < self.bound() by {
                lemma_succ_item_key_in_range(
                    g,
                    ctx,
                    ah,
                    m as int,
                    g.modules@[m as int].references@.len() as int,
                    out@,
                    j,
                );
            }
        }
        Ok(out)
    }

    fn eq_nodes(&self, a: &ResultItem, b: &ResultItem) -> (r: bool) {
        *a == *b
    }
}

/// The module count as a mathematical integer.
pub open spec fn g_len(g: ModuleGraph) -> int {
    g.modules@.len() as int
}

/// Every item contributed by the references of an in-range module is
/// internally consistent.
proof fn lemma_succ_up_to_items_wf(
    g: ModuleGraph,
    ctx: u64,
    ah: u64,
    m: int,
    i: int,
    item: ResultItem,
)
    requires
        g.wf(),
        0 <= m < g.modules@.len(),
        i <= g.modules@[m].references@.len(),
        classify_succ_up_to(g, ctx, ah, m, i).contains(item),
    ensures
        item_wf(g, ctx, ah, item),
    decreases i,
{
    if i > 0 {
        let prefix = classify_succ_up_to(g, ctx, ah, m, i - 1);
        let last = classify_ref_items(g, ctx, ah, m, i - 1);
        let cat = prefix + last;
        let k = choose|k: int| 0 <= k < cat.len() && cat[k] == item;
        if k < prefix.len() {
            assert(prefix[k] == item);
            assert(prefix.contains(item));
            lemma_succ_up_to_items_wf(g, ctx, ah, m, i - 1, item);
        } else {
            let idx = k - prefix.len();
            assert(last[idx] == item);
            let r = g.modules@[m].references@[i - 1];
            assert(r.wf(g.modules@.len() as int, g.modules@));
            assert(spec_vec_len(&g.modules) == g.modules@.len());
            assert(spec_vec_len(&g.modules@[m].references) == g.modules@[m].references@.len());
            match r.chunking_type {
                None => {
                    assert(item == last[0]);
                    assert(((i - 1) as usize) as int == i - 1);
                },
                Some(t) => {
                    assert(0 <= idx < r.targets@.len());
                    assert(r.targets@[idx] < g.modules@.len());
                },
            }
        }
    }
}

/// Every item a placed chunk item expands to is internally consistent.
pub proof fn lemma_succ_items_wf(
    g: ModuleGraph,
    ctx: u64,
    ah: u64,
    prev: ResultItem,
    item: ResultItem,
)
    requires
        g.wf(),
        classify_succ(g, ctx, ah, prev).contains(item),
    ensures
        item_wf(g, ctx, ah, item),
{
    match prev {
        ResultItem::ChunkItem { module, .. } => {
            if (module as int) < g.modules@.len() {
                lemma_succ_up_to_items_wf(
                    g,
                    ctx,
                    ah,
                    module as int,
                    g.modules@[module as int].references@.len() as int,
                    item,
                );
            }
        },
        _ => {},
    }
}

/// A consistent item's traversal key lies in the expander's key space.
proof fn lemma_succ_item_key_in_range(
    g: ModuleGraph,
    ctx: u64,
    ah: u64,
    m: int,
    i: int,
    items: Seq<ResultItem>,
    j: int,
)
    requires
        g.wf(),
        0 <= m < g.modules@.len(),
        items == classify_succ_up_to(g, ctx, ah, m, i),
        i <= g.modules@[m].references@.len(),
        0 <= j < items.len(),
    ensures
        0 <= item_key(g, ctx, ah, items[j]) < 3 * g_len(g) + total_refs(g),
{
    assert(items.contains(items[j]));
    lemma_succ_up_to_items_wf(g, ctx, ah, m, i, items[j]);
    lemma_wf_item_key_in_range(g, ctx, ah, items[j]);
}

/// The key of a result item, as the classifying expander assigns it.
pub open spec fn item_key(g: ModuleGraph, ctx: u64, ah: u64, n: ResultItem) -> int {
    let len = g_len(g);
    match n {
        ResultItem::ChunkItem { chunk_item, module } => if (module as int) < len && chunk_item
            == spec_as_chunk_item(module, ctx, ah) {
            module as int
        } else {
            -1
        },
        ResultItem::IsolatedParallel { module } => if (module as int) < len {
            len + module as int
        } else {
            -1
        },
        ResultItem::Async { module } => if (module as int) < len {
            2 * len + module as int
        } else {
            -1
        },
        ResultItem::External { id } => if (id.module as int) < len && (id.reference as int)
            < refs_count(g, id.module as int) {
            3 * len + refs_before(g, id.module as int) + id.reference as int
        } else {
            -1
        },
    }
}

/// A consistent item's key lies in `[0, 3 * modules + total references)`.
proof fn lemma_wf_item_key_in_range(g: ModuleGraph, ctx: u64, ah: u64, item: ResultItem)
    requires
        g.wf(),
        item_wf(g, ctx, ah, item),
    ensures
        0 <= item_key(g, ctx, ah, item) < 3 * g_len(g) + total_refs(g),
{
    lemma_refs_before_nonneg(g, g_len(g));
    match item {
        ResultItem::External { id } => {
            lemma_refs_block(g, id.module as int);
        },
        _ => {
            if g_len(g) > 0 {
                lemma_refs_before_nonneg(g, g_len(g));
            }
        },
    }
}

/// Discovery is closed one step along the classifying expansion.
pub proof fn lemma_discovered_step(
    g: ModuleGraph,
    ctx: u64,
    ah: u64,
    entries: Seq<usize>,
    x: ResultItem,
    y: ResultItem,
)
    requires
        discovered(g, ctx, ah, entries, x),
        classify_succ(g, ctx, ah, x).contains(y),
    ensures
        discovered(g, ctx, ah, entries, y),
{
    let p = choose|p: Seq<ResultItem>|
        is_classify_walk(g, ctx, ah, p) && p.len() > 0 && (exists|k: int|
            0 <= k < entries.len() && p[0] == chunk_node(ctx, ah, #[trigger] entries[k]))
            && p.last() == x;
    let q = p.push(y);
    assert(is_classify_walk(g, ctx, ah, q)) by {
        assert forall|i: int| 0 <= i < q.len() - 1 implies (#[trigger] classify_succ(
            g,
            ctx,
            ah,
            q[i],
        )).contains(q[i + 1]) by {
            if i < p.len() - 1 {
                assert(classify_succ(g, ctx, ah, p[i]).contains(p[i + 1]));
                assert(q[i] == p[i] && q[i + 1] == p[i + 1]);
            } else {
                assert(q[i] == p.last() && q[i + 1] == y);
            }
        }
    }
    assert(q[0] == p[0]);
    assert(q.last() == y);
}

/// The items a single reference contributes are part of the expansion of any
/// chunk item that places its owning module.
proof fn lemma_ref_items_in_up_to(
    g: ModuleGraph,
    ctx: u64,
    ah: u64,
    m: int,
    i: int,
    j: int,
    item: ResultItem,
)
    requires
        0 <= i < j,
        classify_ref_items(g, ctx, ah, m, i).contains(item),
    ensures
        classify_succ_up_to(g, ctx, ah, m, j).contains(item),
    decreases j,
{
    if j == i + 1 {
        let prefix = classify_succ_up_to(g, ctx, ah, m, i);
        let last = classify_ref_items(g, ctx, ah, m, i);
        let idx = choose|idx: int| 0 <= idx < last.len() && last[idx] == item;
        assert((prefix + last)[prefix.len() + idx] == item);
        assert(classify_succ_up_to(g, ctx, ah, m, j).contains(item));
    } else {
        lemma_ref_items_in_up_to(g, ctx, ah, m, i, j - 1, item);
        let prefix = classify_succ_up_to(g, ctx, ah, m, j - 1);
        let last = classify_ref_items(g, ctx, ah, m, j - 1);
        let idx = choose|idx: int| 0 <= idx < prefix.len() && prefix[idx] == item;
        assert((prefix + last)[idx] == item);
        assert(classify_succ_up_to(g, ctx, ah, m, j).contains(item));
    }
}

/// A reference with no declared chunking type always surfaces as an external
/// reference: once its owning module is placed as a chunk item, the external
/// result item for that reference is discovered as well (and an external item
/// is never a chunk item).
pub proof fn lemma_untyped_reference_is_external(
    g: ModuleGraph,
    ctx: u64,
    ah: u64,
    entries: Seq<usize>,
    m: usize,
    i: usize,
)
    requires
        g.wf(),
        discovered(g, ctx, ah, entries, chunk_node(ctx, ah, m)),
        (m as int) < g.modules@.len(),
        (i as int) < g.modules@[m as int].references@.len(),
        g.modules@[m as int].references@[i as int].chunking_type is None,
    ensures
        discovered(
            g,
            ctx,
            ah,
            entries,
            ResultItem::External { id: ReferenceId { module: m, reference: i } },
        ),
{
    let item = ResultItem::External { id: ReferenceId { module: m, reference: i } };
    let contributed = classify_ref_items(g, ctx, ah, m as int, i as int);
    assert(contributed[0] == item);
    assert(contributed.contains(item));
    lemma_ref_items_in_up_to(
        g,
        ctx,
        ah,
        m as int,
        i as int,
        g.modules@[m as int].references@.len() as int,
        item,
    );
    assert(classify_succ(g, ctx, ah, chunk_node(ctx, ah, m)).contains(item));
    lemma_discovered_step(g, ctx, ah, entries, chunk_node(ctx, ah, m), item);
}

/// A chunk item's cache key includes the availability digest: two
/// materializations of one module under one context collapse to the same
/// chunk item only when their availability states hash alike.
pub proof fn lemma_chunk_item_key_includes_availability(
    module: usize,
    context: u64,
    a1: AvailabilityInfo,
    a2: AvailabilityInfo,
)
    ensures
        spec_as_chunk_item(module, context, a1.spec_hash()) == spec_as_chunk_item(
            module,
            context,
            a2.spec_hash(),
        ) ==> a1.spec_hash() == a2.spec_hash(),
{
}

/// The five buckets a chunk-group computation produces. Every module or
/// reference the classifying traversal discovers lands in exactly one bucket.
#[derive(Debug)]
pub struct ChunkingResult {
    /// The modules placed directly into this chunk group, as chunk items.
    pub chunk_items: Vec<ChunkItem>,
    /// The modules now considered placed (one per chunk item, in the same
    /// order), for building the next availability node.
    pub available_assets: Vec<usize>,
    /// Modules that must seed a new forced-isolated chunk group.
    pub isolated_parallel_chunk_groups: Vec<usize>,
    /// References that must remain unresolved.
    pub external_references: Vec<ReferenceId>,
    /// Modules that must seed a new lazily-loaded chunk group.
    pub async_assets: Vec<usize>,
}

/// Computes the chunking buckets for a chunk group defined by a list of entry
/// modules in a specific context and with some availability info.
///
/// Every result item the classifying traversal discovers from the entries
/// lands in exactly one bucket, exactly once; a module reached through an
/// inline reference whose target cannot materialize a chunk item aborts the
/// whole computation with a contract error.
pub fn chunk_group(
    graph: &ModuleGraph,
    entries: &Vec<usize>,
    context: u64,
    availability_info: &AvailabilityInfo,
) -> (r: Result<ChunkingResult, Error>)
    requires
        graph.wf(),
        forall|k: int|
            0 <= k < entries@.len() ==> (#[trigger] entries@[k]) < graph.modules@.len()
                && graph.modules@[entries@[k] as int].chunkable,
    ensures
        match r {
            Ok(res) => {
                let ah = availability_info.spec_hash();
                &&& res.chunk_items@.no_duplicates()
                &&& res.available_assets@.no_duplicates()
                &&& res.external_references@.no_duplicates()
                &&& res.isolated_parallel_chunk_groups@.no_duplicates()
                &&& res.async_assets@.no_duplicates()
                &&& res.available_assets@.len() == res.chunk_items@.len()
                &&& forall|j: int|
                    0 <= j < res.chunk_items@.len() ==> #[trigger] res.chunk_items@[j]
                        == spec_as_chunk_item(res.available_assets@[j], context, ah)
                &&& forall|mm: usize|
                    #[trigger] res.available_assets@.contains(mm) <==> discovered(
                        *graph,
                        context,
                        ah,
                        entries@,
                        chunk_node(context, ah, mm),
                    )
                &&& forall|rid: ReferenceId|
                    #[trigger] res.external_references@.contains(rid) <==> discovered(
                        *graph,
                        context,
                        ah,
                        entries@,
                        ResultItem::External { id: rid },
                    )
                &&& forall|mm: usize|
                    #[trigger] res.isolated_parallel_chunk_groups@.contains(mm) <==> discovered(
                        *graph,
                        context,
                        ah,
                        entries@,
                        ResultItem::IsolatedParallel { module: mm },
                    )
                &&& forall|mm: usize|
                    #[trigger] res.async_assets@.contains(mm) <==> discovered(
                        *graph,
                        context,
                        ah,
                        entries@,
                        ResultItem::Async { module: mm },
                    )
                &&& forall|item: ResultItem|
                    #[trigger] discovered(*graph, context, ah, entries@, item) ==> classify_ok(
                        *graph,
                        item,
                    )
            },
            Err(err) => {
                let ah = availability_info.spec_hash();
                &&& exists|item: ResultItem|
                    #[trigger] discovered(*graph, context, ah, entries@, item) && !classify_ok(
                        *graph,
                        item,
                    )
                &&& err matches Error::NotChunkable { module } && (module as int)
                    < graph.modules@.len() && !graph.modules@[module as int].chunkable && (exists|
                    m: usize,
                |
                    #[trigger] discovered(*graph, context, ah, entries@, chunk_node(
                        context,
                        ah,
                        m,
                    )) && inline_target(*graph, m as int, module))
            },
        },
{
    let ghost g = *graph;
    let ah = availability_info.hash();
    let ghost ctx = context;
    let e = ChunkingExpander { graph, context, availability_hash: ah };
    let mut roots: Vec<ResultItem> = Vec::new();
    let mut i: usize = 0;
    while i < entries.len()
        invariant
            g == *graph,
            ctx == context,
            i <= entries@.len(),
            roots@.len() == i,
            forall|k: int|
                0 <= k < i ==> roots@[k] == chunk_node(ctx, ah, #[trigger] entries@[k]),
        decreases entries@.len() - i,
    {
        let entry = entries[i];
        let ci = as_chunk_item(entry, context, ah);
        roots.push(ResultItem::ChunkItem { chunk_item: ci, module: entry });
        i += 1;
    }
    proof {
        lemma_refs_before_nonneg(g, g_len(g));
        assert forall|k: int| 0 <= k < roots@.len() implies 0 <= e.key(#[trigger] roots@[k])
            < e.bound() by {
            assert(roots@[k] == chunk_node(ctx, ah, entries@[k]));
            assert(item_key(g, ctx, ah, roots@[k]) == entries@[k] as int);
        }
        assert forall|item: ResultItem|
            reaches(&e, roots@, item) <==> discovered(g, ctx, ah, entries@, item) by {
            lemma_reaches_discovered_bridge(&e, roots@, entries@, item);
        }
    }
    match traverse(&e, &roots) {
        Err(err) => {
            proof {
                let item = choose|item: ResultItem|
                    reaches(&e, roots@, item) && !e.ok(item) && e.fails_with(item, err);
                assert(discovered(g, ctx, ah, entries@, item) && !classify_ok(g, item));
                lemma_discovered_wf(g, ctx, ah, entries@, item);
                match item {
                    ResultItem::ChunkItem { chunk_item, module } => {
                        assert(chunk_item == spec_as_chunk_item(module, ctx, ah));
                        assert(item == chunk_node(ctx, ah, module));
                        assert(discovered(g, ctx, ah, entries@, chunk_node(ctx, ah, module)));
                    },
                    _ => {
                        assert(false);
                    },
                }
            }
            Err(err)
        },
        Ok(out) => {
            proof {
                assert forall|k: int| 0 <= k < out@.len() implies item_wf(
                    g,
                    ctx,
                    ah,
                    #[trigger] out@[k],
                ) by {
                    assert(out@.contains(out@[k]));
                    lemma_discovered_wf(g, ctx, ah, entries@, out@[k]);
                }
            }
            let mut chunk_items: Vec<ChunkItem> = Vec::new();
            let mut available_assets: Vec<usize> = Vec::new();
            let mut isolated_parallel_chunk_groups: Vec<usize> = Vec::new();
            let mut external_references: Vec<ReferenceId> = Vec::new();
            let mut async_assets: Vec<usize> = Vec::new();
            let mut j: usize = 0;
            while j < out.len()
                invariant
                    g == *graph,
                    ctx == context,
                    j <= out@.len(),
                    out@.no_duplicates(),
                    forall|k: int| 0 <= k < out@.len() ==> item_wf(g, ctx, ah, #[trigger] out@[k]),
                    chunk_items@.no_duplicates(),
                    available_assets@.no_duplicates(),
                    external_references@.no_duplicates(),
                    isolated_parallel_chunk_groups@.no_duplicates(),
                    async_assets@.no_duplicates(),
                    available_assets@.len() == chunk_items@.len(),
                    forall|idx: int|
                        0 <= idx < chunk_items@.len() ==> #[trigger] chunk_items@[idx]
                            == spec_as_chunk_item(available_assets@[idx], ctx, ah),
                    forall|mm: usize|
                        #[trigger] available_assets@.contains(mm) <==> exists|k: int|
                            0 <= k < j && out@[k] == chunk_node(ctx, ah, mm),
                    forall|rid: ReferenceId|
                        #[trigger] external_references@.contains(rid) <==> exists|k: int|
                            0 <= k < j && out@[k] == (ResultItem::External { id: rid }),
                    forall|mm: usize|
                        #[trigger] isolated_parallel_chunk_groups@.contains(mm) <==> exists|
                        k: int,
                        |
                            0 <= k < j && out@[k] == (ResultItem::IsolatedParallel { module: mm }),
                    forall|mm: usize|
                        #[trigger] async_assets@.contains(mm) <==> exists|k: int|
                            0 <= k < j && out@[k] == (ResultItem::Async { module: mm }),
                decreases out@.len() - j,
            {
                let item = out[j];
                proof {
                    assert(item_wf(g, ctx, ah, out@[j as int]));
                }
                match item {
                    ResultItem::ChunkItem { chunk_item, module } => {
                        proof {
                            assert(chunk_item == spec_as_chunk_item(module, ctx, ah));
                            assert(out@[j as int] == chunk_node(ctx, ah, module));
                            if available_assets@.contains(module) {
                                let k = choose|k: int|
                                    0 <= k < j && out@[k] == chunk_node(ctx, ah, module);
                                assert(out@[k] == out@[j as int]);
                                assert(false);
                            }
                            if chunk_items@.contains(chunk_item) {
                                let idx = choose|idx: int|
                                    0 <= idx < chunk_items@.len() && chunk_items@[idx]
                                        == chunk_item;
                                assert(available_assets@[idx] == module);
                                assert(available_assets@.contains(module));
                                assert(false);
                            }
                            lemma_push_no_dup_generic(available_assets@, module);
                            lemma_push_no_dup_generic(chunk_items@, chunk_item);
                        }
                        chunk_items.push(chunk_item);
                        available_assets.push(module);
                    },
                    ResultItem::External { id } => {
                        proof {
                            if external_references@.contains(id) {
                                let k = choose|k: int|
                                    0 <= k < j && out@[k] == ResultItem::External { id };
                                assert(out@[k] == out@[j as int]);
                                assert(false);
                            }
                            lemma_push_no_dup_generic(external_references@, id);
                        }
                        external_references.push(id);
                    },
                    ResultItem::IsolatedParallel { module } => {
                        proof {
                            if isolated_parallel_chunk_groups@.contains(module) {
                                let k = choose|k: int|
                                    0 <= k < j && out@[k] == ResultItem::IsolatedParallel {
                                        module,
                                    };
                                assert(out@[k] == out@[j as int]);
                                assert(false);
                            }
                            lemma_push_no_dup_generic(isolated_parallel_chunk_groups@, module);
                        }
                        isolated_parallel_chunk_groups.push(module);
                    },
                    ResultItem::Async { module } => {
                        proof {
                            if async_assets@.contains(module) {
                                let k = choose|k: int|
                                    0 <= k < j && out@[k] == ResultItem::Async { module };
                                assert(out@[k] == out@[j as int]);
                                assert(false);
                            }
                            lemma_push_no_dup_generic(async_assets@, module);
                        }
                        async_assets.push(module);
                    },
                }
                j += 1;
            }
            proof {
                assert forall|mm: usize|
                    #[trigger] available_assets@.contains(mm) <==> discovered(
                        g,
                        ctx,
                        ah,
                        entries@,
                        chunk_node(ctx, ah, mm),
                    ) by {
                    if available_assets@.contains(mm) {
                        let k = choose|k: int|
                            0 <= k < out@.len() && out@[k] == chunk_node(ctx, ah, mm);
                        assert(out@.contains(out@[k]));
                    }
                    if discovered(g, ctx, ah, entries@, chunk_node(ctx, ah, mm)) {
                        assert(out@.contains(chunk_node(ctx, ah, mm)));
                        let k = choose|k: int|
                            0 <= k < out@.len() && out@[k] == chunk_node(ctx, ah, mm);
                    }
                }
                assert forall|rid: ReferenceId|
                    #[trigger] external_references@.contains(rid) <==> discovered(
                        g,
                        ctx,
                        ah,
                        entries@,
                        ResultItem::External { id: rid },
                    ) by {
                    if external_references@.contains(rid) {
                        let k = choose|k: int|
                            0 <= k < out@.len() && out@[k] == ResultItem::External { id: rid };
                        assert(out@.contains(out@[k]));
                    }
                    if discovered(g, ctx, ah, entries@, ResultItem::External { id: rid }) {
                        assert(out@.contains(ResultItem::External { id: rid }));
                        let k = choose|k: int|
                            0 <= k < out@.len() && out@[k] == ResultItem::External { id: rid };
                    }
                }
                assert forall|mm: usize|
                    #[trigger] isolated_parallel_chunk_groups@.contains(mm) <==> discovered(
                        g,
                        ctx,
                        ah,
                        entries@,
                        ResultItem::IsolatedParallel { module: mm },
                    ) by {
                    if isolated_parallel_chunk_groups@.contains(mm) {
                        let k = choose|k: int|
                            0 <= k < out@.len() && out@[k] == ResultItem::IsolatedParallel {
                                module: mm,
                            };
                        assert(out@.contains(out@[k]));
                    }
                    if discovered(g, ctx, ah, entries@, ResultItem::IsolatedParallel {
                        module: mm,
                    }) {
                        assert(out@.contains(ResultItem::IsolatedParallel { module: mm }));
                        let k = choose|k: int|
                            0 <= k < out@.len() && out@[k] == ResultItem::IsolatedParallel {
                                module: mm,
                            };
                    }
                }
                assert forall|item: ResultItem|
                    #[trigger] discovered(g, ctx, ah, entries@, item) implies classify_ok(
                    g,
                    item,
                ) by {
                    lemma_reaches_discovered_bridge(&e, roots@, entries@, item);
                    assert(reaches(&e, roots@, item));
                    assert(e.ok(item));
                }
                assert forall|mm: usize|
                    #[trigger] async_assets@.contains(mm) <==> discovered(
                        g,
                        ctx,
                        ah,
                        entries@,
                        ResultItem::Async { module: mm },
                    ) by {
                    if async_assets@.contains(mm) {
                        let k = choose|k: int|
                            0 <= k < out@.len() && out@[k] == ResultItem::Async { module: mm };
                        assert(out@.contains(out@[k]));
                    }
                    if discovered(g, ctx, ah, entries@, ResultItem::Async { module: mm }) {
                        assert(out@.contains(ResultItem::Async { module: mm }));
                        let k = choose|k: int|
                            0 <= k < out@.len() && out@[k] == ResultItem::Async { module: mm };
                    }
                }
            }
            Ok(
                ChunkingResult {
                    chunk_items,
                    available_assets,
                    isolated_parallel_chunk_groups,
                    external_references,
                    async_assets,
                },
            )
        },
    }
}

/// Reachability through the chunking expander coincides with the
/// classifier-level discovery relation.
proof fn lemma_reaches_discovered_bridge(
    e: &ChunkingExpander,
    roots: Seq<ResultItem>,
    entries: Seq<usize>,
    item: ResultItem,
)
    requires
        roots.len() == entries.len(),
        forall|k: int|
            0 <= k < entries.len() ==> roots[k] == chunk_node(
                e.context,
                e.availability_hash,
                #[trigger] entries[k],
            ),
    ensures
        reaches(e, roots, item) <==> discovered(
            *e.graph,
            e.context,
            e.availability_hash,
            entries,
            item,
        ),
{
    let g = *e.graph;
    let ctx = e.context;
    let ah = e.availability_hash;
    if reaches(e, roots, item) {
        let p = choose|p: Seq<ResultItem>|
            is_walk(e, p) && p.len() > 0 && roots.contains(p[0]) && p.last() == item;
        assert(is_classify_walk(g, ctx, ah, p)) by {
            assert forall|i: int| 0 <= i < p.len() - 1 implies (#[trigger] classify_succ(
                g,
                ctx,
                ah,
                p[i],
            )).contains(p[i + 1]) by {
                assert(e.succ(p[i]).contains(p[i + 1]));
            }
        }
        let k = choose|k: int| 0 <= k < roots.len() && roots[k] == p[0];
        assert(p[0] == chunk_node(ctx, ah, entries[k]));
        assert(discovered(g, ctx, ah, entries, item));
    }
    if discovered(g, ctx, ah, entries, item) {
        let p = choose|p: Seq<ResultItem>|
            is_classify_walk(g, ctx, ah, p) && p.len() > 0 && (exists|k: int|
                0 <= k < entries.len() && p[0] == chunk_node(ctx, ah, #[trigger] entries[k]))
                && p.last() == item;
        assert(is_walk(e, p)) by {
            assert forall|i: int| 0 <= i < p.len() - 1 implies (#[trigger] e.succ(p[i])).contains(
                p[i + 1],
            ) by {
                assert(classify_succ(g, ctx, ah, p[i]).contains(p[i + 1]));
            }
        }
        let k = choose|k: int|
            0 <= k < entries.len() && p[0] == chunk_node(ctx, ah, entries[k]);
        assert(roots[k] == p[0]);
        assert(roots.contains(p[0]));
        assert(reaches(e, roots, item));
    }
}

/// Every discovered item is internally consistent.
pub proof fn lemma_discovered_wf(
    g: ModuleGraph,
    ctx: u64,
    ah: u64,
    entries: Seq<usize>,
    item: ResultItem,
)
    requires
        g.wf(),
        forall|k: int|
            0 <= k < entries.len() ==> (#[trigger] entries[k] as int) < g.modules@.len(),
        discovered(g, ctx, ah, entries, item),
    ensures
        item_wf(g, ctx, ah, item),
{
    let p = choose|p: Seq<ResultItem>|
        is_classify_walk(g, ctx, ah, p) && p.len() > 0 && (exists|k: int|
            0 <= k < entries.len() && p[0] == chunk_node(ctx, ah, #[trigger] entries[k]))
            && p.last() == item;
    if p.len() == 1 {
        let k = choose|k: int|
            0 <= k < entries.len() && p[0] == chunk_node(ctx, ah, entries[k]);
        assert(item == chunk_node(ctx, ah, entries[k]));
    } else {
        assert(classify_succ(g, ctx, ah, p[p.len() - 2]).contains(p[p.len() - 1]));
        lemma_succ_items_wf(g, ctx, ah, p[p.len() - 2], item);
    }
}

/// Pushing a fresh element preserves freedom from duplicates.
pub proof fn lemma_push_no_dup_generic<A>(s: Seq<A>, x: A)
    requires
        s.no_duplicates(),
        !s.contains(x),
    ensures
        s.push(x).no_duplicates(),
{
    let t = s.push(x);
    assert forall|i: int, j: int|
        0 <= i < t.len() && 0 <= j < t.len() && i != j implies t[i] != t[j] by {
        if i < s.len() && j < s.len() {
            assert(t[i] == s[i] && t[j] == s[j]);
        } else if j == s.len() && i < s.len() {
            assert(t[i] == s[i] && t[j] == x);
            assert(s.contains(s[i]));
        } else if i == s.len() && j < s.len() {
            assert(t[j] == s[j] && t[i] == x);
            assert(s.contains(s[j]));
        }
    }
}

} // verus!
