use chunk_graph::ChunkingType;
use chunk_graph::available_assets::AvailabilityInfo;
use chunk_graph::available_assets::AvailableAssets;
use chunk_graph::available_assets::chunkable_assets_set;
use chunk_graph::graph::ModuleData;
use chunk_graph::graph::ModuleGraph;
use chunk_graph::graph::Reference;

fn reference(chunking_type: Option<ChunkingType>, targets: Vec<usize>) -> Reference {
    Reference { chunking_type, targets, static_import: None }
}

fn module(references: Vec<Reference>) -> ModuleData {
    ModuleData { chunkable: true, is_script: false, references }
}

#[test]
fn closure_follows_only_inline_references() {
    // 0 -> 1 (Parallel), 0 -> 2 (Async), 1 -> 3 (Placed)
    let graph = ModuleGraph {
        modules: vec![
            module(vec![
                reference(Some(ChunkingType::Parallel), vec![1]),
                reference(Some(ChunkingType::Async), vec![2]),
            ]),
            module(vec![reference(Some(ChunkingType::Placed), vec![3])]),
            module(vec![]),
            module(vec![]),
        ],
    };
    let mut closure = chunkable_assets_set(&graph, 0);
    closure.sort();
    assert_eq!(closure, vec![0, 1, 3]);
}

#[test]
fn closure_tolerates_cycles() {
    let graph = ModuleGraph {
        modules: vec![
            module(vec![reference(Some(ChunkingType::Parallel), vec![1])]),
            module(vec![reference(Some(ChunkingType::Parallel), vec![0])]),
        ],
    };
    let mut closure = chunkable_assets_set(&graph, 0);
    closure.sort();
    assert_eq!(closure, vec![0, 1]);
}

#[test]
fn includes_checks_closure_of_each_root() {
    let graph = ModuleGraph {
        modules: vec![
            module(vec![reference(Some(ChunkingType::Parallel), vec![1])]),
            module(vec![]),
            module(vec![]),
        ],
    };
    let assets = AvailableAssets::new(vec![0]);
    assert!(assets.includes(&graph, 0));
    assert!(assets.includes(&graph, 1));
    assert!(!assets.includes(&graph, 2));
}

#[test]
fn nested_groups_reuse_ancestor_availability() {
    // group1 built from roots {X}; group2 via with_roots(group1, {X, Y}):
    // group2 includes X, and group2's own roots are exactly {Y}.
    let graph = ModuleGraph { modules: vec![module(vec![]), module(vec![])] };
    let group1 = AvailableAssets::new(vec![0]);
    let group2 = group1.with_roots(&graph, &vec![0, 1]);
    assert!(group2.includes(&graph, 0));
    assert_eq!(group2.roots, vec![1]);
}

#[test]
fn with_roots_never_duplicates_an_included_candidate() {
    let graph = ModuleGraph {
        modules: vec![
            module(vec![reference(Some(ChunkingType::Parallel), vec![1])]),
            module(vec![]),
            module(vec![]),
        ],
    };
    let parent = AvailableAssets::new(vec![0]);
    // 1 is reachable from root 0, so only 2 may enter the child's roots
    let child = parent.with_roots(&graph, &vec![1, 2]);
    assert_eq!(child.roots, vec![2]);
}

#[test]
fn includes_is_monotonic_from_parent_to_child() {
    let graph = ModuleGraph { modules: vec![module(vec![]), module(vec![])] };
    let parent = AvailableAssets::new(vec![0]);
    let child = parent.with_roots(&graph, &vec![1]);
    // whatever the parent includes, the child includes as well
    assert!(child.includes(&graph, 0));
    assert!(child.includes(&graph, 1));
}

#[test]
fn hash_is_deterministic_and_structure_sensitive() {
    let a1 = AvailableAssets::new(vec![1, 2]);
    let a2 = AvailableAssets::new(vec![1, 2]);
    assert_eq!(a1.hash(), a2.hash());
    let b = AvailableAssets::new(vec![2, 1]);
    assert_ne!(a1.hash(), b.hash());
    let graph = ModuleGraph {
        modules: vec![module(vec![]), module(vec![]), module(vec![]), module(vec![])],
    };
    let nested = AvailableAssets::new(vec![1, 2]).with_roots(&graph, &vec![3]);
    assert_ne!(a1.hash(), nested.hash());
}

#[test]
fn hash_folds_roots_into_the_running_state() {
    // one root folds as (state ^ root) * prime, starting from the sentinel 0
    let one = AvailableAssets::new(vec![1]);
    assert_eq!(one.hash(), 0x100000001b3u64);
    let two = AvailableAssets::new(vec![1, 2]);
    assert_eq!(two.hash(), (0x100000001b3u64 ^ 2).wrapping_mul(0x100000001b3));
}

#[test]
fn availability_info_exposes_its_root() {
    assert_eq!(AvailabilityInfo::Untracked.current_availability_root(), None);
    let root = AvailabilityInfo::Root { current_availability_root: 4 };
    assert_eq!(root.current_availability_root(), Some(4));
    let inner = AvailabilityInfo::Inner {
        available_assets: AvailableAssets::new(vec![0]),
        current_availability_root: 9,
    };
    assert_eq!(inner.current_availability_root(), Some(9));
}

#[test]
fn availability_info_hash_distinguishes_states() {
    let untracked = AvailabilityInfo::Untracked;
    let root = AvailabilityInfo::Root { current_availability_root: 0 };
    assert_ne!(untracked.hash(), root.hash());
}
