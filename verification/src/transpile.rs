use vstd::prelude::*;
use crate::text::{concat2, concat3, concat5, string_of, usize_to_string};
use crate::vm::Module;

verus! {

/// Renders loaded modules as Rust source: one struct per module with its
/// state vector, stepping and output methods, and an associated pure
/// function for a function module. Fails, naming the module, exactly when
/// some module carries symmetric gates, which this target cannot express.
pub fn transpile(modules: Vec<Module>) -> (r: Result<String, String>)
    ensures
        r is Err <==> exists|i: int|
            0 <= i < modules@.len() && (#[trigger] modules@[i]).gates_symmetry@.len() > 0,
{
    let n = modules.len();
    let mut i: usize = 0;
    let mut out = string_of("");
    while i < n
        invariant
            i <= n,
            n == modules@.len(),
            forall|j: int| 0 <= j < i ==> (#[trigger] modules@[j]).gates_symmetry@.len() == 0,
        decreases n - i,
    {
        let module = &modules[i];
        if module.gates_symmetry.len() > 0 {
            return Err(
                concat2("Rust transpiler does not support symmetry module: ", module.name.as_str()),
            );
        }
        let code = transpile_one(module);
        if i > 0 {
            out = concat2(out.as_str(), "\n\n");
        }
        out = concat2(out.as_str(), code.as_str());
        i = i + 1;
    }
    let mut wrapped = string_of("pub mod modules {\n");
    wrapped = concat2(wrapped.as_str(), out.as_str());
    wrapped = concat2(wrapped.as_str(), "\n}\n");
    Ok(wrapped)
}

/// The Rust source of one module.
fn transpile_one(module: &Module) -> (r: String)
{
    let gs_len = module.gates_sequential.len();
    let struct_def = concat3("    pub struct ", module.name.as_str(), " {\n        b: Vec<bool>,\n    }");
    let mut impl_block = concat3("    impl ", module.name.as_str(), " {\n");
    impl_block = concat3(
        impl_block.as_str(),
        concat3(
            "        pub const INPUTS_LEN: usize = ",
            usize_to_string(module.inputs as usize).as_str(),
            ";\n",
        ).as_str(),
        "",
    );
    impl_block = concat3(
        impl_block.as_str(),
        concat3(
            "        pub const OUTPUTS_LEN: usize = ",
            usize_to_string(module.outputs.len()).as_str(),
            ";\n",
        ).as_str(),
        "",
    );
    impl_block = concat3(
        impl_block.as_str(),
        concat3(
            "        pub const GATES_SEQ_LEN: usize = ",
            usize_to_string(gs_len).as_str(),
            ";\n",
        ).as_str(),
        "",
    );
    impl_block = concat2(
        impl_block.as_str(),
        "        pub fn new() -> Self {\n            Self { b: vec![false; Self::GATES_SEQ_LEN + Self::INPUTS_LEN] }\n        }\n",
    );
    // The input setter.
    impl_block = concat2(
        impl_block.as_str(),
        "        pub fn inputs(&mut self, i: [bool; Self::INPUTS_LEN]) {\n",
    );
    let in_n = module.inputs as usize;
    let mut k: usize = 0;
    while k < in_n
        invariant
            k <= in_n,
        decreases in_n - k,
    {
        let line = concat5(
            "            self.b[Self::GATES_SEQ_LEN + ",
            usize_to_string(k).as_str(),
            "] = i[",
            usize_to_string(k).as_str(),
            "];\n",
        );
        impl_block = concat2(impl_block.as_str(), line.as_str());
        k = k + 1;
    }
    impl_block = concat2(impl_block.as_str(), "        }\n");
    // The stepping function.
    impl_block = concat2(
        impl_block.as_str(),
        "        pub fn next(&mut self) -> &mut Self {\n",
    );
    let mut g: usize = 0;
    while g < gs_len
        invariant
            g <= gs_len,
            gs_len == module.gates_sequential@.len(),
        decreases gs_len - g,
    {
        let gate = module.gates_sequential[g];
        let head = concat3("            self.b[", usize_to_string(g).as_str(), "] = !( self.b[");
        let line = concat5(
            head.as_str(),
            usize_to_string(gate.0 as usize).as_str(),
            "] || self.b[",
            usize_to_string(gate.1 as usize).as_str(),
            "] );\n",
        );
        impl_block = concat2(impl_block.as_str(), line.as_str());
        g = g + 1;
    }
    impl_block = concat2(impl_block.as_str(), "            self\n        }\n");
    // The output reader.
    impl_block = concat2(
        impl_block.as_str(),
        "        pub fn outputs(&self) -> [bool; Self::OUTPUTS_LEN] {\n            [ ",
    );
    let out_n = module.outputs.len();
    let mut o: usize = 0;
    while o < out_n
        invariant
            o <= out_n,
            out_n == module.outputs@.len(),
        decreases out_n - o,
    {
        if o > 0 {
            impl_block = concat2(impl_block.as_str(), ", ");
        }
        let cell = concat3("self.b[", usize_to_string(module.outputs[o] as usize).as_str(), "]");
        impl_block = concat2(impl_block.as_str(), cell.as_str());
        o = o + 1;
    }
    impl_block = concat2(impl_block.as_str(), " ]\n        }\n");
    // A pure settling function for a combinational module.
    if module.func {
        impl_block = concat2(impl_block.as_str(), "        pub fn func(");
        let mut p: usize = 0;
        while p < in_n
            invariant
                p <= in_n,
            decreases in_n - p,
        {
            if p > 0 {
                impl_block = concat2(impl_block.as_str(), ", ");
            }
            let cell_idx = match gs_len.checked_add(p) {
                Some(v) => v,
                None => 0,
            };
            let arg = concat3("b", usize_to_string(cell_idx).as_str(), ": bool");
            impl_block = concat2(impl_block.as_str(), arg.as_str());
            p = p + 1;
        }
        impl_block = concat3(
            impl_block.as_str(),
            concat3(
                ") -> [bool; ",
                usize_to_string(module.outputs.len()).as_str(),
                "] {\n",
            ).as_str(),
            "",
        );
        let mut g2: usize = 0;
        while g2 < gs_len
            invariant
                g2 <= gs_len,
                gs_len == module.gates_sequential@.len(),
            decreases gs_len - g2,
        {
            let gate = module.gates_sequential[g2];
            let head = concat3("            let b", usize_to_string(g2).as_str(), " = !( b");
            let line = concat5(
                head.as_str(),
                usize_to_string(gate.0 as usize).as_str(),
                " || b",
                usize_to_string(gate.1 as usize).as_str(),
                " );\n",
            );
            impl_block = concat2(impl_block.as_str(), line.as_str());
            g2 = g2 + 1;
        }
        impl_block = concat2(impl_block.as_str(), "            [ ");
        let mut o2: usize = 0;
        while o2 < out_n
            invariant
                o2 <= out_n,
                out_n == module.outputs@.len(),
            decreases out_n - o2,
        {
            if o2 > 0 {
                impl_block = concat2(impl_block.as_str(), ", ");
            }
            let cell = concat2("b", usize_to_string(module.outputs[o2] as usize).as_str());
            impl_block = concat2(impl_block.as_str(), cell.as_str());
            o2 = o2 + 1;
        }
        impl_block = concat2(impl_block.as_str(), " ]\n        }\n");
    }
    impl_block = concat2(impl_block.as_str(), "    }\n");
    concat3(struct_def.as_str(), "\n\n", impl_block.as_str())
}

} // verus!
