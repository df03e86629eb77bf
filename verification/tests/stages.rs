use ncg_core::types::{Component, File, Gate, MType, Module, ModuleType, NodeDepends, Test, TestPattern};
use ncg_core::modulecheck::{check_module_name_duplicates, collect_modules, module_dependency};
use ncg_core::sort::sort_dependency;
use ncg_core::pipeline::intermediate_products;
use ncg_core::document::document;
use ncg_core::transpile::transpile;
use ncg_core::resources::ResourceManager;

fn gate(outputs: &[&str], callee: &str, inputs: &[&str]) -> Gate {
    Gate {
        outputs: outputs.iter().map(|s| s.to_string()).collect(),
        module_name: callee.to_string(),
        inputs: inputs.iter().map(|s| s.to_string()).collect(),
    }
}

fn module(func: bool, name: &str, inputs: &[&str], outputs: &[&str], gates: Vec<Gate>) -> Module {
    Module {
        func,
        name: name.to_string(),
        inputs: inputs.iter().map(|s| s.to_string()).collect(),
        outputs: outputs.iter().map(|s| s.to_string()).collect(),
        gates,
    }
}

fn file_of(modules: Vec<Module>) -> File {
    File { components: modules.into_iter().map(Component::Module).collect() }
}

fn mtype(name: &str, input_count: usize, output_count: usize) -> ModuleType {
    ModuleType { name: name.to_string(), mtype: MType { input_count, output_count } }
}

fn edge(node: &str, depends: &str) -> NodeDepends {
    NodeDepends { node: node.to_string(), depends: depends.to_string() }
}

#[test]
fn catalog_always_holds_the_primitive() {
    let (non_func, func, types) = collect_modules(&file_of(vec![
        module(true, "a", &["x"], &["x"], vec![]),
        module(false, "b", &["x"], &["x"], vec![]),
    ]));
    assert_eq!(func, vec!["nor", "a"]);
    assert_eq!(non_func, vec!["b"]);
    assert_eq!(types.len(), 3);
    assert_eq!(types[0].name, "nor");
    assert_eq!(types[0].mtype, MType { input_count: 2, output_count: 1 });
    assert_eq!(types[1].name, "a");
    assert_eq!(types[2].name, "b");
}

#[test]
fn duplicate_names_are_rejected_with_a_message() {
    let types = vec![mtype("a", 1, 1), mtype("a", 1, 1)];
    let errs = check_module_name_duplicates(&types).unwrap_err();
    assert_eq!(errs, vec!["Defined module name Duplicated: a"]);
    assert!(check_module_name_duplicates(&vec![mtype("a", 1, 1), mtype("b", 1, 1)]).is_ok());
}

#[test]
fn dependency_edges_are_deduplicated_per_module() {
    let deps = module_dependency(&file_of(vec![module(
        true,
        "a",
        &["x"],
        &["o"],
        vec![
            gate(&["m"], "nor", &["x", "x"]),
            gate(&["o"], "nor", &["m", "m"]),
        ],
    )]));
    assert_eq!(deps.len(), 1);
    assert_eq!(deps[0].node, "a");
    assert_eq!(deps[0].depends, "nor");
}

#[test]
fn every_repeated_name_gets_its_own_message() {
    let types = vec![mtype("a", 1, 1), mtype("a", 1, 1), mtype("a", 1, 1), mtype("b", 1, 1)];
    let errs = check_module_name_duplicates(&types).unwrap_err();
    assert_eq!(
        errs,
        vec![
            "Defined module name Duplicated: a",
            "Defined module name Duplicated: a",
        ]
    );
}

#[test]
fn flattening_reports_every_unresolved_identifier() {
    // Both gate inputs are undeclared; bypassing the body checks shows the
    // flattening engine itself reports each offence, not just the first.
    let ast = file_of(vec![module(
        true,
        "m",
        &["x"],
        &["o"],
        vec![gate(&["o"], "nor", &["a", "b"])],
    )]);
    let order = vec!["nor".to_string(), "m".to_string()];
    let errs = ncg_core::compile::module_expansion(&ast, &order).unwrap_err();
    assert_eq!(errs, vec!["Undefined gate used: a", "Undefined gate used: b"]);
}

#[test]
fn sorter_lists_every_dependency_before_its_user() {
    let types = vec![mtype("nor", 2, 1), mtype("mid", 1, 1), mtype("top", 1, 1)];
    let deps = vec![edge("mid", "nor"), edge("top", "mid"), edge("top", "nor")];
    let (order, _warns) = sort_dependency(&deps, &types).expect("acyclic");
    assert_eq!(order, vec!["nor", "mid", "top"]);
}

#[test]
fn sorter_reports_a_concrete_cycle() {
    let types = vec![mtype("a", 1, 1), mtype("b", 1, 1)];
    let deps = vec![edge("a", "b"), edge("b", "a")];
    let (errs, _warns) = sort_dependency(&deps, &types).unwrap_err();
    assert_eq!(errs.len(), 1);
    assert!(errs[0].contains("a -> b -> a") || errs[0].contains("b -> a -> b"), "{}", errs[0]);
}

#[test]
fn test_runner_accepts_a_correct_truth_table() {
    let mut components: Vec<Component> = vec![Component::Module(module(
        true,
        "not",
        &["x"],
        &["out"],
        vec![gate(&["out"], "nor", &["x", "x"])],
    ))];
    components.push(Component::Test(Test {
        name: "not".to_string(),
        type_sig: MType { input_count: 1, output_count: 1 },
        patterns: vec![
            TestPattern { inputs: vec![true], outputs: vec![false] },
            TestPattern { inputs: vec![false], outputs: vec![true] },
        ],
    }));
    let products = intermediate_products(File { components });
    assert!(products.errors.is_empty(), "{:?}", products.errors);
    let outcome = ncg_core::testing::test(products);
    assert!(outcome.errors.is_empty(), "{:?}", outcome.errors);
    assert_eq!(outcome.test_list, vec!["not"]);
    assert_eq!(outcome.test_result.len(), 1);
    assert_eq!(outcome.test_result[0].0, "not");
    assert!(outcome.test_result[0].1.iter().all(|row| row.accept));
}

#[test]
fn test_runner_flags_a_wrong_expectation() {
    let components = vec![
        Component::Module(module(
            true,
            "not",
            &["x"],
            &["out"],
            vec![gate(&["out"], "nor", &["x", "x"])],
        )),
        Component::Test(Test {
            name: "not".to_string(),
            type_sig: MType { input_count: 1, output_count: 1 },
            patterns: vec![TestPattern { inputs: vec![true], outputs: vec![true] }],
        }),
    ];
    let outcome = ncg_core::testing::test(intermediate_products(File { components }));
    assert!(outcome.errors.is_empty());
    assert!(!outcome.test_result[0].1[0].accept);
    assert_eq!(outcome.test_result[0].1[0].output, vec![false]);
}

#[test]
fn test_runner_rejects_testing_a_sequential_module() {
    let components = vec![
        Component::Module(module(false, "seq", &["x"], &["x"], vec![])),
        Component::Test(Test {
            name: "seq".to_string(),
            type_sig: MType { input_count: 1, output_count: 1 },
            patterns: vec![],
        }),
    ];
    let outcome = ncg_core::testing::test(intermediate_products(File { components }));
    assert!(outcome.errors.iter().any(|e| e.contains("Testing non-function modules: seq")));
}

#[test]
fn document_renders_one_row_per_module() {
    let products = intermediate_products(file_of(vec![module(
        true,
        "not",
        &["x"],
        &["out"],
        vec![gate(&["out"], "nor", &["x", "x"])],
    )]));
    let table = document(&products).unwrap();
    assert!(table.starts_with("| name | type | size |"));
    assert!(table.contains("| not | 1 -> 1 | 1 |"), "{}", table);
}

#[test]
fn transpiler_emits_a_struct_per_module() {
    let products = intermediate_products(file_of(vec![module(
        true,
        "not",
        &["x"],
        &["out"],
        vec![gate(&["out"], "nor", &["x", "x"])],
    )]));
    let words = ncg_core::pipeline::serialize(&products, "not").unwrap();
    let loaded = ncg_core::vm::Module::new(words).unwrap();
    let code = transpile(vec![loaded]).unwrap();
    assert!(code.contains("pub mod modules {"), "{}", code);
    assert!(code.contains("pub struct not {"), "{}", code);
    assert!(code.contains("pub const GATES_SEQ_LEN: usize = 1;"), "{}", code);
    assert!(code.contains("self.b[0] = !( self.b[1] || self.b[1] );"), "{}", code);
}

#[test]
fn transpiler_rejects_symmetric_gates() {
    let loaded = ncg_core::vm::Module {
        func: false,
        name: "latch".to_string(),
        inputs: 1,
        outputs: vec![0],
        gates_sequential: vec![],
        gates_symmetry: vec![(0, 1)],
        cond: vec![false, false],
        tick: 0,
    };
    let err = transpile(vec![loaded]).unwrap_err();
    assert_eq!(err, "Rust transpiler does not support symmetry module: latch");
}

#[test]
fn resource_manager_stores_and_removes_by_handle() {
    let mut rm: ResourceManager<u64> = ResourceManager::new();
    let a = rm.add_resource(11);
    let b = rm.add_resource(22);
    assert_ne!(a, b);
    assert_eq!(rm.get_resource(a), Some(&11));
    assert_eq!(rm.get_resource(b), Some(&22));
    assert_eq!(rm.remove_resource(a), Some(11));
    assert_eq!(rm.get_resource(a), None);
    assert_eq!(rm.remove_resource(a), None);
    assert_eq!(rm.get_resource(b), Some(&22));
}
