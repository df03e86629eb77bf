use ncg_core::types::{Component, File, Gate, Module};
use ncg_core::types::CompiledGateInput;
use ncg_core::pipeline::{intermediate_products, serialize};

fn gate(outputs: &[&str], callee: &str, inputs: &[&str]) -> Gate {
    Gate {
        outputs: outputs.iter().map(|s| s.to_string()).collect(),
        module_name: callee.to_string(),
        inputs: inputs.iter().map(|s| s.to_string()).collect(),
    }
}

fn module(func: bool, name: &str, inputs: &[&str], outputs: &[&str], gates: Vec<Gate>) -> Module {
    Module {
        func,
        name: name.to_string(),
        inputs: inputs.iter().map(|s| s.to_string()).collect(),
        outputs: outputs.iter().map(|s| s.to_string()).collect(),
        gates,
    }
}

fn file_of(modules: Vec<Module>) -> File {
    File { components: modules.into_iter().map(Component::Module).collect() }
}

fn not_module() -> Module {
    module(true, "not", &["x"], &["out"], vec![gate(&["out"], "nor", &["x", "x"])])
}

fn or_modules() -> Vec<Module> {
    vec![
        not_module(),
        module(
            true,
            "or",
            &["x", "y"],
            &["o"],
            vec![gate(&["n"], "nor", &["x", "y"]), gate(&["o"], "not", &["n"])],
        ),
    ]
}

#[test]
fn primitive_not_flattens_to_one_gate() {
    let products = intermediate_products(file_of(vec![not_module()]));
    assert!(products.errors.is_empty(), "{:?}", products.errors);
    let compiled = products
        .expanded_modules
        .iter()
        .find(|m| m.name == "not")
        .expect("not was flattened");
    assert_eq!(compiled.inputs, 1);
    assert_eq!(
        compiled.gates_sequential,
        vec![(CompiledGateInput::Input(0), CompiledGateInput::Input(0))]
    );
    assert!(compiled.gates_symmetry.is_empty());
    assert_eq!(compiled.outputs, vec![0]);
    assert!(compiled.func);
}

#[test]
fn or_flattens_to_two_gates() {
    let products = intermediate_products(file_of(or_modules()));
    assert!(products.errors.is_empty(), "{:?}", products.errors);
    let compiled = products
        .expanded_modules
        .iter()
        .find(|m| m.name == "or")
        .expect("or was flattened");
    assert_eq!(compiled.inputs, 2);
    assert_eq!(
        compiled.gates_sequential,
        vec![
            (CompiledGateInput::Input(0), CompiledGateInput::Input(1)),
            (CompiledGateInput::NorGate(0), CompiledGateInput::NorGate(0)),
        ]
    );
    assert_eq!(compiled.outputs, vec![1]);
}

#[test]
fn or_simulates_true_false_to_true() {
    let products = intermediate_products(file_of(or_modules()));
    let words = serialize(&products, "or").expect("or serializes");
    let mut vm = ncg_core::vm::Module::new(words).expect("or loads");
    vm.set(0, true).unwrap();
    vm.set(1, false).unwrap();
    vm.next(2).unwrap();
    assert_eq!(vm.get_output().unwrap(), vec![true]);
}

#[test]
fn three_level_hierarchy_computes_and() {
    // and(x, y) = nor(not(x), not(y)), three levels deep once `not` itself
    // is inlined into a shifted copy per call site.
    let and = module(
        true,
        "and",
        &["x", "y"],
        &["o"],
        vec![
            gate(&["n1"], "not", &["x"]),
            gate(&["n2"], "not", &["y"]),
            gate(&["o"], "nor", &["n1", "n2"]),
        ],
    );
    let products = intermediate_products(file_of(vec![not_module(), and]));
    assert!(products.errors.is_empty(), "{:?}", products.errors);
    let compiled = products.expanded_modules.iter().find(|m| m.name == "and").unwrap();
    assert_eq!(compiled.gates_sequential.len(), 3);
    let words = serialize(&products, "and").unwrap();
    for (a, b) in [(false, false), (false, true), (true, false), (true, true)] {
        let mut vm = ncg_core::vm::Module::new(words.clone()).unwrap();
        vm.set(0, a).unwrap();
        vm.set(1, b).unwrap();
        vm.next(3).unwrap();
        assert_eq!(vm.get_output().unwrap(), vec![a && b], "inputs {} {}", a, b);
    }
}

#[test]
fn a_call_binds_several_outputs_at_once() {
    // `two` declares two outputs; the caller binds both names in one call.
    let two = module(
        true,
        "two",
        &["x"],
        &["a", "b"],
        vec![gate(&["a"], "nor", &["x", "x"]), gate(&["b"], "nor", &["a", "a"])],
    );
    let pair = module(
        true,
        "pair",
        &["x"],
        &["q", "p"],
        vec![gate(&["p", "q"], "two", &["x"])],
    );
    let products = intermediate_products(file_of(vec![two, pair]));
    assert!(products.errors.is_empty(), "{:?}", products.errors);
    let compiled = products.expanded_modules.iter().find(|m| m.name == "pair").unwrap();
    assert_eq!(compiled.gates_sequential.len(), 2);
    // `pair` hands back (q, p) = (second copy cell, first copy cell).
    assert_eq!(compiled.outputs, vec![1, 0]);
    let words = serialize(&products, "pair").unwrap();
    let mut vm = ncg_core::vm::Module::new(words).unwrap();
    vm.set(0, true).unwrap();
    vm.next(2).unwrap();
    assert_eq!(vm.get_output().unwrap(), vec![true, false]);
}

#[test]
fn cycle_of_two_modules_is_reported() {
    let a = module(false, "a", &["x"], &["o"], vec![gate(&["o"], "b", &["x"])]);
    let b = module(false, "b", &["x"], &["o"], vec![gate(&["o"], "a", &["x"])]);
    let products = intermediate_products(file_of(vec![a, b]));
    assert!(!products.errors.is_empty());
    let msg = &products.errors[0];
    assert!(msg.starts_with("Cycle detected in the dependency graph:"), "{}", msg);
    assert!(
        msg.contains("a -> b -> a") || msg.contains("b -> a -> b"),
        "no concrete cycle in: {}",
        msg
    );
}

#[test]
fn compiling_twice_yields_identical_words() {
    let first = intermediate_products(file_of(or_modules()));
    let second = intermediate_products(file_of(or_modules()));
    let w1 = serialize(&first, "or").unwrap();
    let w2 = serialize(&second, "or").unwrap();
    assert_eq!(w1, w2);
}

#[test]
fn sorted_order_puts_dependencies_first() {
    let products = intermediate_products(file_of(or_modules()));
    assert_eq!(products.module_dependency_sorted, vec!["nor", "not", "or"]);
}

#[test]
fn compile_runs_the_whole_pipeline() {
    let words = ncg_core::pipeline::compile(file_of(or_modules()), "or").expect("compiles");
    let products = intermediate_products(file_of(or_modules()));
    assert_eq!(words, serialize(&products, "or").unwrap());
    assert!(ncg_core::pipeline::compile(file_of(or_modules()), "missing").is_err());
    let a = module(false, "a", &["x"], &["o"], vec![gate(&["o"], "b", &["x"])]);
    let b = module(false, "b", &["x"], &["o"], vec![gate(&["o"], "a", &["x"])]);
    assert!(ncg_core::pipeline::compile(file_of(vec![a, b]), "a").is_err());
}

#[test]
fn serialize_rejects_unknown_module() {
    let products = intermediate_products(file_of(vec![not_module()]));
    let err = serialize(&products, "missing").unwrap_err();
    assert_eq!(err, "An undefined module was specified: missing");
}

#[test]
fn undefined_callee_fails_the_checks() {
    let bad = module(true, "bad", &["x"], &["o"], vec![gate(&["o"], "mystery", &["x"])]);
    let products = intermediate_products(file_of(vec![bad]));
    assert!(products.errors.iter().any(|e| e.contains("Undefined module used: mystery")));
}

#[test]
fn duplicate_module_names_fail_the_checks() {
    let products = intermediate_products(file_of(vec![not_module(), not_module()]));
    assert!(products.errors.iter().any(|e| e.contains("Defined module name Duplicated: not")));
}

#[test]
fn arity_mismatch_fails_the_checks() {
    let bad = module(true, "bad", &["x"], &["o"], vec![gate(&["o"], "nor", &["x"])]);
    let products = intermediate_products(file_of(vec![bad]));
    assert!(products.errors.iter().any(|e| e.contains("Used module with unmatched type")));
}

#[test]
fn use_before_declaration_fails_in_function_modules() {
    let bad = module(
        true,
        "bad",
        &["x"],
        &["o"],
        vec![
            gate(&["o"], "nor", &["later", "x"]),
            gate(&["later"], "nor", &["x", "x"]),
        ],
    );
    let products = intermediate_products(file_of(vec![bad]));
    assert!(products.errors.iter().any(
        |e| e.contains("a value cannot be used before it is declared")
    ));
}

#[test]
fn forward_references_are_allowed_in_sequential_modules() {
    let latch = module(
        false,
        "latch",
        &["x"],
        &["o"],
        vec![
            gate(&["o"], "nor", &["later", "x"]),
            gate(&["later"], "nor", &["x", "x"]),
        ],
    );
    let products = intermediate_products(file_of(vec![latch]));
    assert!(products.errors.is_empty(), "{:?}", products.errors);
}

#[test]
fn function_module_calling_sequential_module_fails() {
    let seq = module(false, "seq", &["x"], &["o"], vec![gate(&["o"], "nor", &["x", "x"])]);
    let caller = module(true, "caller", &["x"], &["o"], vec![gate(&["o"], "seq", &["x"])]);
    let products = intermediate_products(file_of(vec![seq, caller]));
    assert!(products.errors.iter().any(
        |e| e.contains("Function modules cannot call non-function modules")
    ));
}

#[test]
fn undeclared_identifier_fails_the_checks() {
    let bad = module(true, "bad", &["x"], &["ghostly"], vec![gate(&["o"], "nor", &["x", "x"])]);
    let products = intermediate_products(file_of(vec![bad]));
    assert!(products.errors.iter().any(|e| e.contains("Undefined id used: Output ghostly")));
}

#[test]
fn isolated_module_warns_about_missing_dependencies() {
    let lonely = module(true, "lonely", &["x"], &["x"], vec![]);
    let products = intermediate_products(file_of(vec![lonely]));
    assert!(products.warns.iter().any(|w| w.contains("Module has no dependency: lonely")));
    assert!(products.warns.iter().any(
        |w| w.contains("Multiple modules are not used by other modules")
    ));
}
