use vstd::prelude::*;

verus! {

/// Fatal messages: the stage they come from reports all of them and stops.
pub type Errs = Vec<String>;

/// Advisory messages: collected next to a successful result, never fatal.
pub type Warns = Vec<String>;

/// A result that carries its warnings on both the success and the failure path.
pub type ResultwithWarn<T> = Result<(T, Warns), (Errs, Warns)>;

/// A whole source file after parsing: the ordered list of its components.
#[derive(Debug, Clone)]
pub struct File {
    pub components: Vec<Component>,
}

/// One top-level item of a source file.
#[derive(Debug, Clone)]
pub enum Component {
    Using(Using),
    Module(Module),
    Test(Test),
}

/// A declared external signature (input and output arity only).
#[derive(Debug, Clone)]
pub struct Using {
    pub type_sig: MType,
}

/// A module definition: named inputs and outputs, and the ordered gate calls
/// of its body. `func` marks a combinational module, whose identifiers must be
/// declared before use; a non-function module may reference identifiers that
/// are declared later in its body, which is how feedback is written.
#[derive(Debug, Clone)]
pub struct Module {
    pub func: bool,
    pub name: String,
    pub inputs: Vec<String>,
    pub outputs: Vec<String>,
    pub gates: Vec<Gate>,
}

/// One gate call inside a module body: the identifiers it binds as outputs,
/// the callee's name, and the identifiers it passes as inputs.
#[derive(Debug, Clone)]
pub struct Gate {
    pub outputs: Vec<String>,
    pub module_name: String,
    pub inputs: Vec<String>,
}

/// Input and output arity of a module.
#[derive(Debug, Clone, Copy, PartialEq, Eq)]
pub struct MType {
    pub input_count: usize,
    pub output_count: usize,
}

/// A test block: the module it exercises and its input/output patterns.
#[derive(Debug, Clone)]
pub struct Test {
    pub name: String,
    pub type_sig: MType,
    pub patterns: Vec<TestPattern>,
}

/// One test row: the inputs to apply and the outputs expected once settled.
#[derive(Debug, Clone)]
pub struct TestPattern {
    pub inputs: Vec<bool>,
    pub outputs: Vec<bool>,
}

/// A module name together with its arity, as collected by the catalog.
#[derive(Debug, Clone)]
pub struct ModuleType {
    pub name: String,
    pub mtype: MType,
}

/// One dependency edge: `node` calls `depends` somewhere in its body.
#[derive(Debug, Clone)]
pub struct NodeDepends {
    pub node: String,
    pub depends: String,
}

/// A reference inside a compiled module, before the final layout is fixed:
/// either the k-th NOR gate emitted so far, or the k-th declared input.
#[derive(Debug, Clone, Copy, PartialEq, Eq)]
pub enum CompiledGateInput {
    NorGate(u32),
    Input(u32),
}

/// One NOR gate: the two references it reads.
pub type CompiledGate = (CompiledGateInput, CompiledGateInput);

/// A module flattened to pure NOR gates. Cells `[0, gate_count)` hold gate
/// outputs (sequential gates first, then symmetric ones) and cells
/// `[gate_count, gate_count + inputs)` are the declared inputs.
#[derive(Debug, Clone)]
pub struct CompiledModule {
    pub func: bool,
    pub name: String,
    pub inputs: u32,
    pub outputs: Vec<u32>,
    pub gates_sequential: Vec<CompiledGate>,
    pub gates_symmetry: Vec<CompiledGate>,
}

/// Everything one compile produces, stage by stage. When `errors` is
/// non-empty the later fields hold whatever had been computed before the
/// failing stage and nothing after it.
#[derive(Debug, Clone)]
pub struct IntermediateProducts {
    pub warns: Vec<String>,
    pub errors: Vec<String>,
    pub ast: File,
    pub defined_non_func_module_list: Vec<String>,
    pub defined_func_module_list: Vec<String>,
    pub module_type_list: Vec<ModuleType>,
    pub module_dependency: Vec<NodeDepends>,
    pub module_dependency_sorted: Vec<String>,
    pub expanded_modules: Vec<CompiledModule>,
}

/// Total number of state cells a compiled module addresses.
pub open spec fn compiled_cell_count(m: CompiledModule) -> int {
    m.gates_sequential@.len() + m.gates_symmetry@.len() + m.inputs as int
}

/// Whether one gate reference stays inside a module with `gate_count` gates
/// and `inputs` declared inputs.
pub open spec fn gate_input_wf(g: CompiledGateInput, gate_count: int, inputs: int) -> bool {
    match g {
        CompiledGateInput::NorGate(n) => n < gate_count,
        CompiledGateInput::Input(n) => n < inputs,
    }
}

/// Well-formedness of a compiled module: every reference and every output
/// index addresses an existing cell, and the layout fits the 32-bit word
/// format the codec writes.
pub open spec fn compiled_wf(m: CompiledModule) -> bool {
    let gate_count = (m.gates_sequential@.len() + m.gates_symmetry@.len()) as int;
    &&& compiled_cell_count(m) <= u32::MAX as int
    &&& m.name@.len() <= u32::MAX as int
    &&& m.outputs@.len() <= u32::MAX as int
    &&& forall|i: int|
        0 <= i < m.gates_sequential@.len() ==> {
            &&& gate_input_wf(#[trigger] m.gates_sequential@[i].0, gate_count, m.inputs as int)
            &&& gate_input_wf(m.gates_sequential@[i].1, gate_count, m.inputs as int)
        }
    &&& forall|i: int|
        0 <= i < m.gates_symmetry@.len() ==> {
            &&& gate_input_wf(#[trigger] m.gates_symmetry@[i].0, gate_count, m.inputs as int)
            &&& gate_input_wf(m.gates_symmetry@[i].1, gate_count, m.inputs as int)
        }
    &&& forall|i: int|
        0 <= i < m.outputs@.len() ==> #[trigger] m.outputs@[i] < compiled_cell_count(m)
}

} // verus!
