use chunk_graph::ChunkingType;
use chunk_graph::available_assets::AvailabilityInfo;
use chunk_graph::esm_scope::EsmScope;
use chunk_graph::graph::ModuleData;
use chunk_graph::graph::ModuleGraph;
use chunk_graph::graph::Reference;

fn import(target: usize) -> Reference {
    Reference {
        chunking_type: Some(ChunkingType::Parallel),
        targets: vec![target],
        static_import: Some(target),
    }
}

fn script(references: Vec<Reference>) -> ModuleData {
    ModuleData { chunkable: true, is_script: true, references }
}

#[test]
fn import_cycle_collapses_into_one_scope() {
    // A -> B -> C -> A, all static imports: one SCC of size 3 and an empty
    // condensation.
    let graph = ModuleGraph {
        modules: vec![script(vec![import(1)]), script(vec![import(2)]), script(vec![import(0)])],
    };
    let info = AvailabilityInfo::Root { current_availability_root: 0 };
    let scope = EsmScope::new(&graph, &info).unwrap();
    assert_eq!(scope.sccs.len(), 1);
    let mut members = scope.sccs[0].0.clone();
    members.sort();
    assert_eq!(members, vec![0, 1, 2]);
    let scc = scope.get_scc(0).unwrap();
    assert_eq!(scope.get_scc(1), Some(scc));
    assert_eq!(scope.get_scc(2), Some(scc));
    assert!(scope.get_scc_children(scc).is_empty());
}

#[test]
fn acyclic_imports_stay_singleton_scopes() {
    // A imports B; two singleton components and one condensation edge from
    // A's component to B's.
    let graph = ModuleGraph { modules: vec![script(vec![import(1)]), script(vec![])] };
    let info = AvailabilityInfo::Root { current_availability_root: 0 };
    let scope = EsmScope::new(&graph, &info).unwrap();
    assert_eq!(scope.sccs.len(), 2);
    let scc_a = scope.get_scc(0).unwrap();
    let scc_b = scope.get_scc(1).unwrap();
    assert_ne!(scc_a, scc_b);
    assert_eq!(scope.get_scc_children(scc_a), vec![scc_b]);
    assert!(scope.get_scc_children(scc_b).is_empty());
    // dependencies come first: the condensation edge points backwards
    assert!(scc_b < scc_a);
}

#[test]
fn two_cycles_joined_by_one_import() {
    // {0,1} is a cycle, {2,3} is a cycle, and 1 imports 2: two components
    // with a single condensation edge.
    let graph = ModuleGraph {
        modules: vec![
            script(vec![import(1)]),
            script(vec![import(0), import(2)]),
            script(vec![import(3)]),
            script(vec![import(2)]),
        ],
    };
    let info = AvailabilityInfo::Root { current_availability_root: 0 };
    let scope = EsmScope::new(&graph, &info).unwrap();
    assert_eq!(scope.sccs.len(), 2);
    let top = scope.get_scc(0).unwrap();
    assert_eq!(scope.get_scc(1), Some(top));
    let dep = scope.get_scc(2).unwrap();
    assert_eq!(scope.get_scc(3), Some(dep));
    assert_ne!(top, dep);
    assert_eq!(scope.get_scc_children(top), vec![dep]);
    assert!(scope.get_scc_children(dep).is_empty());
}

#[test]
fn module_outside_the_scope_has_no_scope() {
    let graph = ModuleGraph { modules: vec![script(vec![import(1)]), script(vec![])] };
    let info = AvailabilityInfo::Root { current_availability_root: 0 };
    let scope = EsmScope::new(&graph, &info).unwrap();
    // module 7 never took part in any import
    assert_eq!(scope.get_scc(7), None);
}

#[test]
fn non_script_modules_contribute_no_imports() {
    // module 0 is not a script module, so its references produce no edges;
    // module 1 is a script module in scope and becomes a singleton scope
    let graph = ModuleGraph {
        modules: vec![
            ModuleData { chunkable: true, is_script: false, references: vec![import(1)] },
            script(vec![]),
        ],
    };
    let info = AvailabilityInfo::Root { current_availability_root: 0 };
    let scope = EsmScope::new(&graph, &info).unwrap();
    assert_eq!(scope.sccs.len(), 1);
    assert_eq!(scope.get_scc(0), None);
    let scc = scope.get_scc(1).unwrap();
    assert_eq!(scope.sccs[scc].0, vec![1]);
    assert!(scope.get_scc_children(scc).is_empty());
}

#[test]
fn untracked_availability_gives_an_empty_scope() {
    let graph = ModuleGraph { modules: vec![script(vec![import(1)]), script(vec![])] };
    let scope = EsmScope::new(&graph, &AvailabilityInfo::Untracked).unwrap();
    assert_eq!(scope.sccs.len(), 0);
}

#[test]
fn only_modules_in_the_availability_closure_take_part() {
    // 1 imports 2, but the closure of root 0 covers only {0}: no edges, and
    // only module 0 gets a (singleton) scope.
    let graph = ModuleGraph {
        modules: vec![script(vec![]), script(vec![import(2)]), script(vec![])],
    };
    let info = AvailabilityInfo::Root { current_availability_root: 0 };
    let scope = EsmScope::new(&graph, &info).unwrap();
    assert_eq!(scope.get_scc(1), None);
    assert_eq!(scope.get_scc(2), None);
    assert_eq!(scope.sccs.len(), 1);
    assert!(scope.get_scc(0).is_some());
}

#[test]
fn script_module_without_imports_is_its_own_singleton_scope() {
    // 0 imports 1; 2 is a script module in scope with no static imports at
    // all: every script module in scope appears in exactly one scope, so 2
    // becomes its own singleton component.
    let graph = ModuleGraph {
        modules: vec![
            script(vec![
                import(1),
                Reference {
                    chunking_type: Some(ChunkingType::Parallel),
                    targets: vec![2],
                    static_import: None,
                },
            ]),
            script(vec![]),
            script(vec![]),
        ],
    };
    let info = AvailabilityInfo::Root { current_availability_root: 0 };
    let scope = EsmScope::new(&graph, &info).unwrap();
    assert_eq!(scope.sccs.len(), 3);
    let scc2 = scope.get_scc(2).unwrap();
    assert_eq!(scope.sccs[scc2].0, vec![2]);
    assert!(scope.get_scc_children(scc2).is_empty());
    // the imported pair still forms its own components with one edge
    let scc0 = scope.get_scc(0).unwrap();
    let scc1 = scope.get_scc(1).unwrap();
    assert_ne!(scc0, scc1);
    assert_eq!(scope.get_scc_children(scc0), vec![scc1]);
}
