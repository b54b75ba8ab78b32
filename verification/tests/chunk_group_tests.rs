use chunk_graph::ChunkingType;
use chunk_graph::Error;
use chunk_graph::available_assets::AvailabilityInfo;
use chunk_graph::chunking::ReferenceId;
use chunk_graph::chunking::as_chunk_item;
use chunk_graph::chunking::chunk_group;
use chunk_graph::graph::ModuleData;
use chunk_graph::graph::ModuleGraph;
use chunk_graph::graph::Reference;

fn reference(chunking_type: Option<ChunkingType>, targets: Vec<usize>) -> Reference {
    Reference { chunking_type, targets, static_import: None }
}

fn module(chunkable: bool, references: Vec<Reference>) -> ModuleData {
    ModuleData { chunkable, is_script: false, references }
}

#[test]
fn cycle_places_every_module_once() {
    // Three modules A -> B -> C -> A, all Parallel.
    let graph = ModuleGraph {
        modules: vec![
            module(true, vec![reference(Some(ChunkingType::Parallel), vec![1])]),
            module(true, vec![reference(Some(ChunkingType::Parallel), vec![2])]),
            module(true, vec![reference(Some(ChunkingType::Parallel), vec![0])]),
        ],
    };
    let res = chunk_group(&graph, &vec![0], 7, &AvailabilityInfo::Untracked).unwrap();
    assert_eq!(res.chunk_items.len(), 3);
    let mut modules: Vec<usize> = res.available_assets.clone();
    modules.sort();
    assert_eq!(modules, vec![0, 1, 2]);
    assert!(res.external_references.is_empty());
    assert!(res.isolated_parallel_chunk_groups.is_empty());
    assert!(res.async_assets.is_empty());
}

#[test]
fn async_and_isolated_targets_seed_new_groups() {
    // Entry E references F via Async and G via IsolatedParallel.
    let graph = ModuleGraph {
        modules: vec![
            module(
                true,
                vec![
                    reference(Some(ChunkingType::Async), vec![1]),
                    reference(Some(ChunkingType::IsolatedParallel), vec![2]),
                ],
            ),
            module(true, vec![]),
            module(true, vec![]),
        ],
    };
    let res = chunk_group(&graph, &vec![0], 1, &AvailabilityInfo::Untracked).unwrap();
    assert_eq!(res.available_assets, vec![0]);
    assert_eq!(res.chunk_items.len(), 1);
    assert_eq!(res.chunk_items[0].module, 0);
    assert_eq!(res.async_assets, vec![1]);
    assert_eq!(res.isolated_parallel_chunk_groups, vec![2]);
    assert!(res.external_references.is_empty());
}

#[test]
fn untyped_reference_stays_external() {
    // A reference with no chunking type lands in external_references, never
    // in chunk_items, even though its target is also reachable through a
    // Parallel reference.
    let graph = ModuleGraph {
        modules: vec![
            module(
                true,
                vec![
                    reference(None, vec![1]),
                    reference(Some(ChunkingType::Parallel), vec![1]),
                ],
            ),
            module(true, vec![]),
        ],
    };
    let res = chunk_group(&graph, &vec![0], 1, &AvailabilityInfo::Untracked).unwrap();
    assert_eq!(res.external_references, vec![ReferenceId { module: 0, reference: 0 }]);
    let mut placed: Vec<usize> = res.available_assets.clone();
    placed.sort();
    assert_eq!(placed, vec![0, 1]);
    // the target was placed exactly once, through the Parallel path
    assert_eq!(res.chunk_items.iter().filter(|ci| ci.module == 1).count(), 1);
}

#[test]
fn placed_or_parallel_and_placed_follow_inline() {
    let graph = ModuleGraph {
        modules: vec![
            module(true, vec![reference(Some(ChunkingType::PlacedOrParallel), vec![1])]),
            module(true, vec![reference(Some(ChunkingType::Placed), vec![2])]),
            module(true, vec![]),
        ],
    };
    let res = chunk_group(&graph, &vec![0], 1, &AvailabilityInfo::Untracked).unwrap();
    let mut placed: Vec<usize> = res.available_assets.clone();
    placed.sort();
    assert_eq!(placed, vec![0, 1, 2]);
}

#[test]
fn unchunkable_inline_target_is_a_contract_error() {
    let graph = ModuleGraph {
        modules: vec![
            module(true, vec![reference(Some(ChunkingType::Parallel), vec![1])]),
            module(false, vec![]),
        ],
    };
    let err = chunk_group(&graph, &vec![0], 1, &AvailabilityInfo::Untracked).unwrap_err();
    assert_eq!(err, Error::NotChunkable { module: 1 });
}

#[test]
fn unchunkable_async_target_is_no_error() {
    // Only inline chunking types demand chunkability of the target.
    let graph = ModuleGraph {
        modules: vec![
            module(true, vec![reference(Some(ChunkingType::Async), vec![1])]),
            module(false, vec![]),
        ],
    };
    let res = chunk_group(&graph, &vec![0], 1, &AvailabilityInfo::Untracked).unwrap();
    assert_eq!(res.async_assets, vec![1]);
}

#[test]
fn shared_target_discovered_once() {
    // A diamond: E -> {A, B} -> C; C is placed exactly once.
    let graph = ModuleGraph {
        modules: vec![
            module(true, vec![reference(Some(ChunkingType::Parallel), vec![1, 2])]),
            module(true, vec![reference(Some(ChunkingType::Parallel), vec![3])]),
            module(true, vec![reference(Some(ChunkingType::Parallel), vec![3])]),
            module(true, vec![]),
        ],
    };
    let res = chunk_group(&graph, &vec![0], 1, &AvailabilityInfo::Untracked).unwrap();
    assert_eq!(res.chunk_items.len(), 4);
    assert_eq!(res.chunk_items.iter().filter(|ci| ci.module == 3).count(), 1);
}

#[test]
fn same_module_as_chunk_item_and_async_seed() {
    // A module reachable both via Parallel and via Async appears once as a
    // chunk item and once as an async seed; placement in available_assets
    // only happens through the chunk-item path.
    let graph = ModuleGraph {
        modules: vec![
            module(
                true,
                vec![
                    reference(Some(ChunkingType::Parallel), vec![1]),
                    reference(Some(ChunkingType::Async), vec![1]),
                ],
            ),
            module(true, vec![]),
        ],
    };
    let res = chunk_group(&graph, &vec![0], 1, &AvailabilityInfo::Untracked).unwrap();
    let mut placed: Vec<usize> = res.available_assets.clone();
    placed.sort();
    assert_eq!(placed, vec![0, 1]);
    assert_eq!(res.async_assets, vec![1]);
}

#[test]
fn chunk_item_key_carries_module_context_and_availability() {
    let info_a = AvailabilityInfo::Untracked;
    let info_b = AvailabilityInfo::Root { current_availability_root: 5 };
    let a = as_chunk_item(3, 9, info_a.hash());
    let b = as_chunk_item(3, 9, info_b.hash());
    assert_eq!(a.module, 3);
    assert_eq!(a.context, 9);
    // different availability states never collapse to one cache key
    assert_ne!(a, b);
}

#[test]
fn empty_entries_give_empty_buckets() {
    let graph = ModuleGraph { modules: vec![module(true, vec![])] };
    let res = chunk_group(&graph, &vec![], 1, &AvailabilityInfo::Untracked).unwrap();
    assert!(res.chunk_items.is_empty());
    assert!(res.available_assets.is_empty());
    assert!(res.external_references.is_empty());
    assert!(res.isolated_parallel_chunk_groups.is_empty());
    assert!(res.async_assets.is_empty());
}
