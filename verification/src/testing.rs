use vstd::prelude::*;
use crate::types::{Component, File, IntermediateProducts, ModuleType};
use crate::text::{concat2, contains_string, spec_contains_string, str_eq, views_of_strings};
use crate::vm;

verus! {

/// One test row after running: the inputs applied, the outputs expected,
/// the outputs observed, and whether they agreed.
#[derive(Debug, Clone)]
pub struct TestPattern {
    pub accept: bool,
    pub input: Vec<bool>,
    pub expect: Vec<bool>,
    pub output: Vec<bool>,
}

/// Everything one test run produces.
#[derive(Debug, Clone)]
pub struct TestProducts {
    pub warns: Vec<String>,
    pub errors: Vec<String>,
    pub test_list: Vec<String>,
    pub test_result: Vec<(String, Vec<TestPattern>)>,
}

/// The names of the file's test blocks, in order.
pub open spec fn spec_test_names(cs: Seq<Component>) -> Seq<Seq<char>>
    decreases cs.len(),
{
    if cs.len() == 0 {
        Seq::empty()
    } else {
        spec_test_names(cs.drop_last()) + (match cs.last() {
            Component::Test(t) => seq![t.name@],
            _ => Seq::empty(),
        })
    }
}

/// Collects the name of every test block, in order.
pub fn collect_tests(ast: &File) -> (r: Vec<String>)
    ensures
        views_of_strings(r@) == spec_test_names(ast.components@),
{
    let mut tests: Vec<String> = Vec::new();
    let n = ast.components.len();
    let mut i: usize = 0;
    while i < n
        invariant
            i <= n,
            n == ast.components@.len(),
            views_of_strings(tests@) == spec_test_names(ast.components@.take(i as int)),
        decreases n - i,
    {
        proof {
            assert(ast.components@.take(i + 1 as int).drop_last() =~= ast.components@.take(
                i as int,
            ));
            assert(ast.components@.take(i + 1 as int).last() == ast.components@[i as int]);
        }
        match &ast.components[i] {
            Component::Test(test) => {
                tests.push(test.name.clone());
                proof {
                    assert(views_of_strings(tests@) =~= spec_test_names(
                        ast.components@.take(i + 1 as int),
                    ));
                }
            },
            _ => {
                proof {
                    assert(views_of_strings(tests@) =~= spec_test_names(
                        ast.components@.take(i + 1 as int),
                    ));
                }
            },
        }
        i = i + 1;
    }
    proof {
        assert(ast.components@.take(n as int) =~= ast.components@);
    }
    tests
}

/// One message for every listed test whose subject repeats an earlier one,
/// in list order: the complete accounting of the duplicate check.
pub open spec fn spec_dup_test_msgs(modules: Seq<String>, i: int) -> Seq<Seq<char>>
    decreases i,
{
    if i <= 0 {
        Seq::empty()
    } else {
        spec_dup_test_msgs(modules, i - 1) + (if (exists|j: int|
            0 <= j < i - 1 && (#[trigger] modules[j])@ == modules[i - 1]@) {
            seq!["Multiple tests are provided for one module: "@ + modules[i - 1]@]
        } else {
            Seq::empty()
        })
    }
}

/// Accepts the test list exactly when no module is tested twice, and
/// otherwise reports one message per repeated occurrence, in order.
pub fn check_test_name_duplicates(modules: &Vec<String>) -> (r: Result<(), Vec<String>>)
    ensures
        r is Ok <==> (forall|i: int, j: int|
            0 <= i < j < modules@.len() ==> (#[trigger] modules@[i])@ != (
            #[trigger] modules@[j])@),
        r matches Err(e) ==> e@.len() >= 1 && views_of_strings(e@) == spec_dup_test_msgs(
            modules@,
            modules@.len() as int,
        ),
{
    let mut errors: Vec<String> = Vec::new();
    let n = modules.len();
    let mut i: usize = 0;
    while i < n
        invariant
            i <= n,
            n == modules@.len(),
            views_of_strings(errors@) == spec_dup_test_msgs(modules@, i as int),
            errors@.len() == 0 <==> (forall|p: int, q: int|
                0 <= p < q < i ==> (#[trigger] modules@[p])@ != (#[trigger] modules@[q])@),
        decreases n - i,
    {
        let mut j: usize = 0;
        let mut dup: bool = false;
        while j < i
            invariant
                j <= i,
                i < n,
                n == modules@.len(),
                dup <==> (exists|p: int|
                    0 <= p < j && (#[trigger] modules@[p])@ == modules@[i as int]@),
            decreases i - j,
        {
            if str_eq(modules[j].as_str(), modules[i].as_str()) {
                dup = true;
            }
            j = j + 1;
        }
        if dup {
            errors.push(
                concat2("Multiple tests are provided for one module: ", modules[i].as_str()),
            );
        }
        proof {
            assert(views_of_strings(errors@) =~= spec_dup_test_msgs(modules@, i + 1 as int));
        }
        i = i + 1;
    }
    if errors.len() == 0 {
        Ok(())
    } else {
        Err(errors)
    }
}

/// One message for every listed test whose subject is no function module,
/// in list order: a missing subject and a non-function subject get
/// different messages.
pub open spec fn spec_missing_msgs(
    provided: Seq<String>,
    func: Seq<String>,
    non_func: Seq<String>,
    i: int,
) -> Seq<Seq<char>>
    decreases i,
{
    if i <= 0 {
        Seq::empty()
    } else {
        spec_missing_msgs(provided, func, non_func, i - 1) + (if spec_contains_string(
            func,
            provided[i - 1]@,
        ) {
            Seq::empty()
        } else if spec_contains_string(non_func, provided[i - 1]@) {
            seq!["Testing non-function modules: "@ + provided[i - 1]@]
        } else {
            seq!["Undefined module used: "@ + provided[i - 1]@]
        })
    }
}

/// Flags every function module without a test as a warning, and every test
/// whose subject is no function module as an error: a missing subject and a
/// non-function subject get different messages, one per offending entry.
pub fn check_test_missing(provided_tests: &Vec<String>, product: &IntermediateProducts) -> (r: (
    Vec<String>,
    Vec<String>,
))
    ensures
        r.1@.len() == 0 <==> (forall|i: int|
            0 <= i < provided_tests@.len() ==> spec_contains_string(
                product.defined_func_module_list@,
                (#[trigger] provided_tests@[i])@,
            )),
        views_of_strings(r.1@) == spec_missing_msgs(
            provided_tests@,
            product.defined_func_module_list@,
            product.defined_non_func_module_list@,
            provided_tests@.len() as int,
        ),
{
    let mut warns: Vec<String> = Vec::new();
    let mut errors: Vec<String> = Vec::new();
    let fn_count = product.defined_func_module_list.len();
    let mut i: usize = 0;
    while i < fn_count
        invariant
            i <= fn_count,
            fn_count == product.defined_func_module_list@.len(),
            errors@.len() == 0,
        decreases fn_count - i,
    {
        if !contains_string(provided_tests, product.defined_func_module_list[i].as_str()) {
            warns.push(
                concat2(
                    "No test provided for module: ",
                    product.defined_func_module_list[i].as_str(),
                ),
            );
        }
        i = i + 1;
    }
    let n = provided_tests.len();
    let mut t: usize = 0;
    while t < n
        invariant
            t <= n,
            n == provided_tests@.len(),
            views_of_strings(errors@) == spec_missing_msgs(
                provided_tests@,
                product.defined_func_module_list@,
                product.defined_non_func_module_list@,
                t as int,
            ),
            errors@.len() == 0 <==> (forall|p: int|
                0 <= p < t ==> spec_contains_string(
                    product.defined_func_module_list@,
                    (#[trigger] provided_tests@[p])@,
                )),
        decreases n - t,
    {
        if !contains_string(&product.defined_func_module_list, provided_tests[t].as_str()) {
            if !contains_string(&product.defined_non_func_module_list, provided_tests[t].as_str())
                {
                errors.push(concat2("Undefined module used: ", provided_tests[t].as_str()));
            } else {
                errors.push(concat2("Testing non-function modules: ", provided_tests[t].as_str()));
            }
        }
        proof {
            assert(views_of_strings(errors@) =~= spec_missing_msgs(
                provided_tests@,
                product.defined_func_module_list@,
                product.defined_non_func_module_list@,
                t + 1 as int,
            ));
        }
        t = t + 1;
    }
    (warns, errors)
}

/// Runs every test block of a finished compile: serializes its subject,
/// loads it into a fresh machine, applies each pattern's inputs, advances a
/// thousand ticks, and compares the outputs with the expected row. One
/// result entry is produced per test block, in order; a subject that cannot
/// be prepared stops the run with an error.
pub fn test_gates(product: &IntermediateProducts, module_type_list: &Vec<ModuleType>) -> (r:
    crate::types::ResultwithWarn<Vec<(String, Vec<TestPattern>)>>)
    ensures
        r matches Err(e) ==> e.0@.len() >= 1,
        r matches Ok(res) ==> res.0@.map_values(|p: (String, Vec<TestPattern>)| p.0@)
            == spec_test_names(product.ast.components@),
{
    let mut errors: Vec<String> = Vec::new();
    let warns: Vec<String> = Vec::new();
    let mut result_map: Vec<(String, Vec<TestPattern>)> = Vec::new();
    let n = product.ast.components.len();
    let mut i: usize = 0;
    while i < n
        invariant
            i <= n,
            n == product.ast.components@.len(),
            errors@.len() == 0,
            result_map@.map_values(|p: (String, Vec<TestPattern>)| p.0@) == spec_test_names(
                product.ast.components@.take(i as int),
            ),
        decreases n - i,
    {
        proof {
            assert(product.ast.components@.take(i + 1 as int).drop_last()
                =~= product.ast.components@.take(i as int));
            assert(product.ast.components@.take(i + 1 as int).last() == product.ast.components@[
            i as int]);
        }
        match &product.ast.components[i] {
            Component::Test(test) => {
                let mtype = match crate::modulecheck::find_type(
                    module_type_list,
                    test.name.as_str(),
                ) {
                    Some(t) => t,
                    None => {
                        errors.push(concat2("Undefined module used: ", test.name.as_str()));
                        return Err((errors, warns));
                    },
                };
                let pn = test.patterns.len();
                let mut p: usize = 0;
                while p < pn
                    invariant
                        p <= pn,
                        pn == test.patterns@.len(),
                        errors@.len() == 0,
                    decreases pn - p,
                {
                    if test.patterns[p].inputs.len() != mtype.input_count
                        || test.patterns[p].outputs.len() != mtype.output_count {
                        errors.push(
                            concat2("Used module with unmatched type: ", test.name.as_str()),
                        );
                        return Err((errors, warns));
                    }
                    p = p + 1;
                }
                let binary = match crate::pipeline::serialize(product, test.name.as_str()) {
                    Ok(v) => v,
                    Err(v) => {
                        errors.push(v);
                        return Err((errors, warns));
                    },
                };
                let mut vm_module = match vm::Module::new(binary) {
                    Ok(v) => v,
                    Err(v) => {
                        errors.push(v);
                        return Err((errors, warns));
                    },
                };
                let mut test_result: Vec<TestPattern> = Vec::new();
                proof {
                    assert(vm_module.tick == 0);
                    assert(1000 * (pn as int) <= u128::MAX) by (nonlinear_arith)
                        requires pn <= usize::MAX;
                }
                let mut p2: usize = 0;
                while p2 < pn
                    invariant
                        p2 <= pn,
                        pn == test.patterns@.len(),
                        errors@.len() == 0,
                        vm_module.tick + 1000 * (pn - p2) <= u128::MAX,
                    decreases pn - p2,
                {
                    let pattern = &test.patterns[p2];
                    let in_n = pattern.inputs.len();
                    let mut input_index: usize = 0;
                    while input_index < in_n
                        invariant
                            input_index <= in_n,
                            in_n == pattern.inputs@.len(),
                            vm_module.tick + 1000 * (pn - p2) <= u128::MAX,
                        decreases in_n - input_index,
                    {
                        if input_index as u64 <= u32::MAX as u64 {
                            let _ = vm_module.set(input_index as u32, pattern.inputs[input_index]);
                        }
                        input_index = input_index + 1;
                    }
                    let _ = vm_module.next(1000);
                    let output = match vm_module.get_output() {
                        Ok(v) => v,
                        Err(v) => {
                            errors.push(v);
                            return Err((errors, warns));
                        },
                    };
                    let mut test_failed = false;
                    let out_n = output.len();
                    let mut out_index: usize = 0;
                    while out_index < out_n
                        invariant
                            out_index <= out_n,
                            out_n == output@.len(),
                            p2 < pn,
                            vm_module.tick + 1000 * (pn - p2 - 1) <= u128::MAX,
                        decreases out_n - out_index,
                    {
                        if out_index < pattern.outputs.len() {
                            if output[out_index] != pattern.outputs[out_index] {
                                test_failed = true;
                            }
                        } else {
                            test_failed = true;
                        }
                        out_index = out_index + 1;
                    }
                    let row = TestPattern {
                        accept: !test_failed,
                        input: clone_bools(&pattern.inputs),
                        expect: clone_bools(&pattern.outputs),
                        output,
                    };
                    test_result.push(row);
                    p2 = p2 + 1;
                }
                let ghost before = result_map@;
                result_map.push((test.name.clone(), test_result));
                proof {
                    assert(result_map@.map_values(|p: (String, Vec<TestPattern>)| p.0@)
                        =~= before.map_values(|p: (String, Vec<TestPattern>)| p.0@).push(
                        test.name@,
                    ));
                    assert(result_map@.map_values(|p: (String, Vec<TestPattern>)| p.0@)
                        =~= spec_test_names(product.ast.components@.take(i + 1 as int)));
                }
            },
            _ => {
                proof {
                    assert(result_map@.map_values(|p: (String, Vec<TestPattern>)| p.0@)
                        =~= spec_test_names(product.ast.components@.take(i + 1 as int)));
                }
            },
        }
        i = i + 1;
    }
    proof {
        assert(product.ast.components@.take(n as int) =~= product.ast.components@);
    }
    if errors.len() > 0 {
        return Err((errors, warns));
    }
    Ok((result_map, warns))
}

/// A copy of a boolean row.
fn clone_bools(v: &Vec<bool>) -> (r: Vec<bool>)
    ensures
        r@ == v@,
{
    let mut out: Vec<bool> = Vec::new();
    let n = v.len();
    let mut i: usize = 0;
    while i < n
        invariant
            i <= n,
            n == v@.len(),
            out@ =~= v@.take(i as int),
        decreases n - i,
    {
        out.push(v[i]);
        proof {
            assert(out@ =~= v@.take(i + 1 as int));
        }
        i = i + 1;
    }
    proof {
        assert(v@.take(n as int) =~= v@);
    }
    out
}

/// Runs the whole test stage on a finished compile: lists the test blocks,
/// rejects duplicated subjects, and runs every pattern.
pub fn test(products: IntermediateProducts) -> (r: TestProducts)
{
    let mut test_products = TestProducts {
        warns: Vec::new(),
        errors: Vec::new(),
        test_list: Vec::new(),
        test_result: Vec::new(),
    };
    test_products.test_list = collect_tests(&products.ast);
    let (mut warns, mut missing_errors) = check_test_missing(&test_products.test_list, &products);
    test_products.warns.append(&mut warns);
    if missing_errors.len() > 0 {
        test_products.errors.append(&mut missing_errors);
        return test_products;
    }
    match check_test_name_duplicates(&test_products.test_list) {
        Ok(()) => {},
        Err(mut msg) => {
            test_products.errors.append(&mut msg);
            return test_products;
        },
    }
    match test_gates(&products, &products.module_type_list) {
        Ok(mut res) => {
            test_products.test_result = res.0;
            test_products.warns.append(&mut res.1);
        },
        Err(mut res) => {
            test_products.errors.append(&mut res.0);
            test_products.warns.append(&mut res.1);
        },
    }
    test_products
}

} // verus!
