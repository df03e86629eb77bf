use vstd::prelude::*;
use crate::types::{Component, IntermediateProducts};
use crate::text::{concat2, concat3, concat5, str_eq, string_of, usize_to_string};

verus! {

/// Renders the module overview table: one row per module of the file, with
/// its arity and the number of NOR gates it flattened to, or an error row
/// for a module that never flattened. Always succeeds.
pub fn document(product: &IntermediateProducts) -> (r: Result<String, String>)
    ensures
        r is Ok,
        r matches Ok(s) ==> s@.len() >= "| name | type | size |\n| -- | -- | -- |\n"@.len()
            && s@.subrange(0, "| name | type | size |\n| -- | -- | -- |\n"@.len() as int)
            == "| name | type | size |\n| -- | -- | -- |\n"@,
{
    let mut body = string_of("");
    let mut first = true;
    let n = product.ast.components.len();
    let mut i: usize = 0;
    while i < n
        invariant
            i <= n,
            n == product.ast.components@.len(),
        decreases n - i,
    {
        match &product.ast.components[i] {
            Component::Module(module) => {
                let row = match find_gate_count(product, module.name.as_str()) {
                    Some(gates) => {
                        let arity = concat3(
                            usize_to_string(module.inputs.len()).as_str(),
                            " -> ",
                            usize_to_string(module.outputs.len()).as_str(),
                        );
                        let head = concat5("| ", module.name.as_str(), " | ", arity.as_str(), " | ");
                        concat3(head.as_str(), usize_to_string(gates).as_str(), " |")
                    },
                    None => string_of("| error |"),
                };
                if !first {
                    body = concat2(body.as_str(), "\n");
                }
                body = concat2(body.as_str(), row.as_str());
                first = false;
            },
            _ => {},
        }
        i = i + 1;
    }
    let table = concat2("| name | type | size |\n| -- | -- | -- |\n", body.as_str());
    proof {
        let header = "| name | type | size |\n| -- | -- | -- |\n"@;
        assert(table@.subrange(0, header.len() as int) =~= header);
    }
    Ok(table)
}

/// How many sequential NOR gates the flattened form of this module holds.
fn find_gate_count(product: &IntermediateProducts, name: &str) -> (r: Option<usize>)
{
    let n = product.expanded_modules.len();
    let mut i: usize = 0;
    while i < n
        invariant
            i <= n,
            n == product.expanded_modules@.len(),
        decreases n - i,
    {
        if str_eq(product.expanded_modules[i].name.as_str(), name) {
            return Some(product.expanded_modules[i].gates_sequential.len());
        }
        i = i + 1;
    }
    None
}

} // verus!
