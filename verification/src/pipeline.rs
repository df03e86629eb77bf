use vstd::prelude::*;
use crate::types::{CompiledModule, File, IntermediateProducts, MType};
use crate::text::{concat2, views_of_strings};
use crate::modulecheck::{
    check_module_gates,
    check_module_name_duplicates,
    collect_modules,
    is_type_of,
    module_dependency,
    spec_dependency,
    spec_func_names,
    spec_gates_valid,
    spec_modules_of,
    spec_names_distinct,
    spec_non_func_names,
};
use crate::modulecheck::dep_views;
use crate::sort::{sort_dependency, spec_sort_input_ok, spec_sort_names};
use crate::compile::{module_expansion, spec_expansion_chain, spec_find_compiled};
use crate::codec::{serialize_to_vec, spec_encode};
use crate::types::compiled_wf;
use crate::types::gate_input_wf;
use crate::types::CompiledGateInput;

verus! {

/// Whether a compiled module passes the well-formedness the codec needs.
pub fn check_compiled_wf(m: &CompiledModule) -> (r: bool)
    ensures
        r == compiled_wf(*m),
{
    let gs_len = m.gates_sequential.len();
    let gy_len = m.gates_symmetry.len();
    let gates = match gs_len.checked_add(gy_len) {
        Some(v) => v,
        None => {
            return false;
        },
    };
    let cells = match gates.checked_add(m.inputs as usize) {
        Some(v) => v,
        None => {
            return false;
        },
    };
    if cells as u64 > u32::MAX as u64 {
        return false;
    }
    let name_len = m.name.as_str().unicode_len();
    if name_len as u64 > u32::MAX as u64 {
        return false;
    }
    if m.outputs.len() as u64 > u32::MAX as u64 {
        return false;
    }
    if !check_gate_list(&m.gates_sequential, gates, m.inputs) {
        return false;
    }
    if !check_gate_list(&m.gates_symmetry, gates, m.inputs) {
        return false;
    }
    let on = m.outputs.len();
    let mut o: usize = 0;
    while o < on
        invariant
            o <= on,
            on == m.outputs@.len(),
            cells as int == crate::types::compiled_cell_count(*m),
            forall|k: int|
                0 <= k < o ==> (#[trigger] m.outputs@[k]) < crate::types::compiled_cell_count(*m),
        decreases on - o,
    {
        if m.outputs[o] as u64 >= cells as u64 {
            return false;
        }
        o = o + 1;
    }
    true
}

/// Whether every reference of a gate list stays inside the module.
fn check_gate_list(
    gates: &Vec<(CompiledGateInput, CompiledGateInput)>,
    gate_count: usize,
    inputs: u32,
) -> (r: bool)
    ensures
        r == (forall|i: int|
            0 <= i < gates@.len() ==> gate_input_wf(
                (#[trigger] gates@[i]).0,
                gate_count as int,
                inputs as int,
            ) && gate_input_wf(gates@[i].1, gate_count as int, inputs as int)),
{
    let n = gates.len();
    let mut i: usize = 0;
    while i < n
        invariant
            i <= n,
            n == gates@.len(),
            forall|k: int|
                0 <= k < i ==> gate_input_wf(
                    (#[trigger] gates@[k]).0,
                    gate_count as int,
                    inputs as int,
                ) && gate_input_wf(gates@[k].1, gate_count as int, inputs as int),
        decreases n - i,
    {
        let g = gates[i];
        let ok0 = match g.0 {
            CompiledGateInput::NorGate(k) => (k as usize) < gate_count,
            CompiledGateInput::Input(k) => k < inputs,
        };
        let ok1 = match g.1 {
            CompiledGateInput::NorGate(k) => (k as usize) < gate_count,
            CompiledGateInput::Input(k) => k < inputs,
        };
        if !ok0 || !ok1 {
            return false;
        }
        i = i + 1;
    }
    true
}

/// Serializes one flattened module out of a finished compile. Succeeds
/// exactly when the compile carried no errors, the name denotes a flattened
/// module, and that module fits the word format; the words are then exactly
/// its encoding.
pub fn serialize(products: &IntermediateProducts, module: &str) -> (r: Result<Vec<u32>, String>)
    ensures
        r is Ok <==> products.errors@.len() == 0 && spec_find_compiled(
            products.expanded_modules@,
            module@,
        ) is Some && compiled_wf(
            spec_find_compiled(products.expanded_modules@, module@)->Some_0,
        ),
        r matches Ok(v) ==> v@ == spec_encode(
            spec_find_compiled(products.expanded_modules@, module@)->Some_0,
        ),
{
    if products.errors.len() > 0 {
        return Err(join_lines(&products.errors));
    }
    let idx = match find_expanded(&products.expanded_modules, module) {
        Some(i) => i,
        None => {
            return Err(concat2("An undefined module was specified: ", module));
        },
    };
    if !check_compiled_wf(&products.expanded_modules[idx]) {
        return Err(concat2("Module does not fit the word format: ", module));
    }
    let cm = clone_compiled(&products.expanded_modules[idx]);
    proof {
        assert(compiled_wf(cm));
    }
    let words = serialize_to_vec(cm);
    proof {
        assert(spec_encode(cm) =~= spec_encode(
            spec_find_compiled(products.expanded_modules@, module@)->Some_0,
        ));
    }
    Ok(words)
}

/// A field-for-field copy of a flattened module.
fn clone_compiled(m: &CompiledModule) -> (r: CompiledModule)
    ensures
        r.func == m.func,
        r.name == m.name,
        r.inputs == m.inputs,
        r.outputs@ == m.outputs@,
        r.gates_sequential@ == m.gates_sequential@,
        r.gates_symmetry@ == m.gates_symmetry@,
{
    let mut outputs: Vec<u32> = Vec::new();
    let on = m.outputs.len();
    let mut o: usize = 0;
    while o < on
        invariant
            o <= on,
            on == m.outputs@.len(),
            outputs@ =~= m.outputs@.take(o as int),
        decreases on - o,
    {
        outputs.push(m.outputs[o]);
        proof {
            assert(outputs@ =~= m.outputs@.take(o + 1 as int));
        }
        o = o + 1;
    }
    let mut gs: Vec<(CompiledGateInput, CompiledGateInput)> = Vec::new();
    let gn = m.gates_sequential.len();
    let mut g: usize = 0;
    while g < gn
        invariant
            g <= gn,
            gn == m.gates_sequential@.len(),
            gs@ =~= m.gates_sequential@.take(g as int),
        decreases gn - g,
    {
        gs.push(m.gates_sequential[g]);
        proof {
            assert(gs@ =~= m.gates_sequential@.take(g + 1 as int));
        }
        g = g + 1;
    }
    let mut gy: Vec<(CompiledGateInput, CompiledGateInput)> = Vec::new();
    let yn = m.gates_symmetry.len();
    let mut y: usize = 0;
    while y < yn
        invariant
            y <= yn,
            yn == m.gates_symmetry@.len(),
            gy@ =~= m.gates_symmetry@.take(y as int),
        decreases yn - y,
    {
        gy.push(m.gates_symmetry[y]);
        proof {
            assert(gy@ =~= m.gates_symmetry@.take(y + 1 as int));
        }
        y = y + 1;
    }
    proof {
        assert(m.outputs@.take(on as int) =~= m.outputs@);
        assert(m.gates_sequential@.take(gn as int) =~= m.gates_sequential@);
        assert(m.gates_symmetry@.take(yn as int) =~= m.gates_symmetry@);
    }
    CompiledModule {
        func: m.func,
        name: m.name.clone(),
        inputs: m.inputs,
        outputs,
        gates_sequential: gs,
        gates_symmetry: gy,
    }
}

/// Linear search of the flattened modules, first match wins.
fn find_expanded(ms: &Vec<CompiledModule>, name: &str) -> (r: Option<usize>)
    ensures
        r matches Some(i) ==> i < ms@.len() && spec_find_compiled(ms@, name@) == Some(
            ms@[i as int],
        ),
        r is None ==> spec_find_compiled(ms@, name@) is None,
{
    let n = ms.len();
    let mut i: usize = 0;
    while i < n
        invariant
            i <= n,
            n == ms@.len(),
            forall|j: int| 0 <= j < i ==> (#[trigger] ms@[j]).name@ != name@,
        decreases n - i,
    {
        if crate::text::str_eq(ms[i].name.as_str(), name) {
            proof {
                crate::compile::lemma_find_compiled_skip(ms@, name@, i as int);
                assert(ms@.skip(i as int).first() == ms@[i as int]);
            }
            return Some(i);
        }
        i = i + 1;
    }
    proof {
        crate::compile::lemma_find_compiled_skip(ms@, name@, n as int);
        assert(ms@.skip(n as int) =~= Seq::<CompiledModule>::empty());
    }
    None
}

/// Joins messages with line breaks.
fn join_lines(v: &Vec<String>) -> (r: String)
{
    let mut out = crate::text::string_of("");
    let n = v.len();
    let mut i: usize = 0;
    while i < n
        invariant
            i <= n,
            n == v@.len(),
        decreases n - i,
    {
        if i > 0 {
            out = concat2(out.as_str(), "\n");
        }
        out = concat2(out.as_str(), v[i].as_str());
        i = i + 1;
    }
    out
}

/// Runs the whole compile on an already parsed file: collects the catalog,
/// rejects duplicate names and ill-made bodies, orders the modules by their
/// dependencies, and flattens each one to NOR gates. Each stage's result
/// lands in the returned products; the first failing stage leaves its
/// messages in `errors` and stops the pipeline there.
/// Everything `intermediate_products` promises of its result: the catalog
/// and the two name lists are pinned, the error list is empty exactly when
/// every stage can succeed, and each stage's output is pinned as soon as
/// the stages before it succeed.
pub open spec fn spec_products_of(ast: File, r: IntermediateProducts) -> bool {
    &&& r.ast == ast
    &&& r.module_type_list@.len() == 1 + spec_modules_of(ast.components@).len()
    &&& r.module_type_list@[0].name@ == "nor"@
    &&& r.module_type_list@[0].mtype == (MType { input_count: 2, output_count: 1 })
    &&& forall|i: int|
        0 <= i < spec_modules_of(ast.components@).len() ==> is_type_of(
            #[trigger] r.module_type_list@[i + 1],
            spec_modules_of(ast.components@)[i],
        )
    &&& r.defined_func_module_list@.map_values(|s: String| s@) == seq!["nor"@] + spec_func_names(
        ast.components@,
    )
    &&& r.defined_non_func_module_list@.map_values(|s: String| s@) == spec_non_func_names(
        ast.components@,
    )
    &&& (r.errors@.len() == 0 <==> ({
        &&& spec_names_distinct(r.module_type_list@)
        &&& spec_gates_valid(ast.components@, r.module_type_list@)
        &&& crate::sort::spec_kahn(
            r.module_dependency@,
            r.module_type_list@,
            Seq::empty(),
        ).len() == r.module_type_list@.len()
        &&& crate::compile::spec_expansion_possible(
            ast,
            views_of_strings(r.module_dependency_sorted@),
        )
    }))
    &&& (spec_names_distinct(r.module_type_list@) && spec_gates_valid(
        ast.components@,
        r.module_type_list@,
    ) ==> dep_views(r.module_dependency@) == spec_dependency(ast.components@))
    &&& (spec_names_distinct(r.module_type_list@) && spec_gates_valid(
        ast.components@,
        r.module_type_list@,
    ) ==> views_of_strings(r.warns@) == crate::sort::spec_sort_warns(
        r.module_dependency@,
        r.module_type_list@,
    ))
    &&& (spec_names_distinct(r.module_type_list@) && spec_gates_valid(
        ast.components@,
        r.module_type_list@,
    ) && crate::sort::spec_kahn(r.module_dependency@, r.module_type_list@, Seq::empty()).len()
        == r.module_type_list@.len() ==> views_of_strings(r.module_dependency_sorted@)
        == spec_sort_names(r.module_dependency@, r.module_type_list@))
    &&& (r.errors@.len() == 0 ==> spec_expansion_chain(
        ast,
        views_of_strings(r.module_dependency_sorted@),
        r.expanded_modules@,
    ))
}

pub fn intermediate_products(ast: File) -> (r: IntermediateProducts)
    ensures
        spec_products_of(ast, r),
{
    let (non_func, func, module_type_list) = collect_modules(&ast);
    let mut products = IntermediateProducts {
        warns: Vec::new(),
        errors: Vec::new(),
        ast,
        defined_non_func_module_list: non_func,
        defined_func_module_list: func,
        module_type_list,
        module_dependency: Vec::new(),
        module_dependency_sorted: Vec::new(),
        expanded_modules: Vec::new(),
    };
    match check_module_name_duplicates(&products.module_type_list) {
        Ok(()) => {},
        Err(mut msg) => {
            products.errors.append(&mut msg);
            return products;
        },
    }
    match check_module_gates(&products.ast, &products.module_type_list) {
        Ok(()) => {},
        Err(mut msg) => {
            products.errors.append(&mut msg);
            return products;
        },
    }
    products.module_dependency = module_dependency(&products.ast);
    proof {
        lemma_dependency_names_cataloged(
            products.ast.components@,
            products.module_type_list@,
            products.module_dependency@,
        );
    }
    match sort_dependency(&products.module_dependency, &products.module_type_list) {
        Ok(mut res) => {
            products.module_dependency_sorted = res.0;
            products.warns.append(&mut res.1);
        },
        Err(mut res) => {
            products.errors.append(&mut res.0);
            products.warns.append(&mut res.1);
            return products;
        },
    }
    match module_expansion(&products.ast, &products.module_dependency_sorted) {
        Ok(v) => {
            products.expanded_modules = v;
        },
        Err(mut msg) => {
            products.errors.append(&mut msg);
            return products;
        },
    }
    products
}

/// Every edge the dependency builder produces runs between cataloged names,
/// as the sorter requires: callers are modules of the file, and callees have
/// passed the body checks.
proof fn lemma_dependency_names_cataloged(
    cs: Seq<crate::types::Component>,
    types: Seq<crate::types::ModuleType>,
    deps: Seq<crate::types::NodeDepends>,
)
    requires
        spec_gates_valid(cs, types),
        types.len() >= 1,
        types[0].name@ == "nor"@,
        types.len() == 1 + spec_modules_of(cs).len(),
        forall|i: int|
            0 <= i < spec_modules_of(cs).len() ==> is_type_of(
                #[trigger] types[i + 1],
                spec_modules_of(cs)[i],
            ),
        dep_views(deps) == spec_dependency(cs),
    ensures
        spec_sort_input_ok(deps, types) || !spec_names_distinct(types),
{
    if spec_names_distinct(types) {
        assert forall|k: int|
            0 <= k < deps.len() implies crate::sort::spec_has_name(
            types,
            (#[trigger] deps[k]).node@,
        ) by {
            lemma_dependency_edge_names(cs, types, k, deps);
        }
        assert forall|k: int|
            0 <= k < deps.len() implies crate::sort::spec_has_name(
            types,
            (#[trigger] deps[k]).depends@,
        ) by {
            lemma_dependency_edge_names(cs, types, k, deps);
        }
    }
}

/// One edge's two names are both cataloged.
proof fn lemma_dependency_edge_names(
    cs: Seq<crate::types::Component>,
    types: Seq<crate::types::ModuleType>,
    k: int,
    deps: Seq<crate::types::NodeDepends>,
)
    requires
        spec_gates_valid(cs, types),
        types.len() >= 1,
        types[0].name@ == "nor"@,
        types.len() == 1 + spec_modules_of(cs).len(),
        forall|i: int|
            0 <= i < spec_modules_of(cs).len() ==> is_type_of(
                #[trigger] types[i + 1],
                spec_modules_of(cs)[i],
            ),
        dep_views(deps) == spec_dependency(cs),
        0 <= k < deps.len(),
    ensures
        crate::sort::spec_has_name(types, deps[k].node@),
        crate::sort::spec_has_name(types, deps[k].depends@),
{
    lemma_dependency_pairs_from_modules(cs, k, deps);
    let (q, g) = choose|q: int, g: int|
        0 <= q < spec_modules_of(cs).len() && 0 <= g < spec_modules_of(cs)[q].gates@.len() && (
        #[trigger] spec_modules_of(cs)[q]).name@ == deps[k].node@ && (
        #[trigger] spec_modules_of(cs)[q].gates@[g]).module_name@ == deps[k].depends@;
    assert(is_type_of(types[q + 1], spec_modules_of(cs)[q]));
    assert(types[q + 1].name@ == deps[k].node@);
    // The callee passed the arity check, so the catalog holds its name.
    let m = spec_modules_of(cs)[q];
    assert(crate::modulecheck::spec_module_ok(m, cs, types));
    assert(crate::modulecheck::spec_find_type(types, m.gates@[g].module_name@) is Some);
    lemma_find_type_has_name(types, m.gates@[g].module_name@);
}

/// A successful catalog search means the catalog holds the name.
proof fn lemma_find_type_has_name(types: Seq<crate::types::ModuleType>, name: Seq<char>)
    requires
        crate::modulecheck::spec_find_type(types, name) is Some,
    ensures
        crate::sort::spec_has_name(types, name),
    decreases types.len(),
{
    if types.len() > 0 {
        if types.first().name@ == name {
            assert(types[0].name@ == name);
        } else {
            lemma_find_type_has_name(types.drop_first(), name);
            let i = choose|i: int|
                0 <= i < types.drop_first().len() && (#[trigger] types.drop_first()[i]).name@
                    == name;
            assert(types[i + 1].name@ == name);
        }
    }
}

/// Every edge comes from some module of the file calling some callee.
proof fn lemma_dependency_pairs_from_modules(
    cs: Seq<crate::types::Component>,
    k: int,
    deps: Seq<crate::types::NodeDepends>,
)
    requires
        dep_views(deps) == spec_dependency(cs),
        0 <= k < deps.len(),
    ensures
        exists|q: int, g: int|
            0 <= q < spec_modules_of(cs).len() && 0 <= g < spec_modules_of(cs)[q].gates@.len()
                && (#[trigger] spec_modules_of(cs)[q]).name@ == deps[k].node@ && (
            #[trigger] spec_modules_of(cs)[q].gates@[g]).module_name@ == deps[k].depends@,
{
    lemma_dependency_pairs_rec(cs, k, (deps[k].node@, deps[k].depends@));
}

/// Structure of the dependency list: every pair names a module and one of
/// its callees.
proof fn lemma_dependency_pairs_rec(cs: Seq<crate::types::Component>, k: int, p: (Seq<char>, Seq<char>))
    requires
        0 <= k < spec_dependency(cs).len(),
        spec_dependency(cs)[k] == p,
    ensures
        exists|q: int, g: int|
            0 <= q < spec_modules_of(cs).len() && 0 <= g < spec_modules_of(cs)[q].gates@.len()
                && (#[trigger] spec_modules_of(cs)[q]).name@ == p.0 && (#[trigger] spec_modules_of(
                cs,
            )[q].gates@[g]).module_name@ == p.1,
    decreases cs.len(),
{
    if cs.len() > 0 {
        let prefix = spec_dependency(cs.drop_last());
        if k < prefix.len() {
            lemma_dependency_pairs_rec(cs.drop_last(), k, p);
            let (q, g) = choose|q: int, g: int|
                0 <= q < spec_modules_of(cs.drop_last()).len() && 0 <= g < spec_modules_of(
                    cs.drop_last(),
                )[q].gates@.len() && (#[trigger] spec_modules_of(cs.drop_last())[q]).name@ == p.0
                    && (#[trigger] spec_modules_of(cs.drop_last())[q].gates@[g]).module_name@
                    == p.1;
            lemma_modules_of_prefix(cs, q);
            assert(spec_modules_of(cs)[q] == spec_modules_of(cs.drop_last())[q]);
        } else {
            match cs.last() {
                crate::types::Component::Module(m) => {
                    lemma_module_deps_pairs(m.name@, m.gates@, k - prefix.len(), p);
                    let g = choose|g: int|
                        0 <= g < m.gates@.len() && (#[trigger] m.gates@[g]).module_name@ == p.1
                            && m.name@ == p.0;
                    let q = spec_modules_of(cs).len() - 1;
                    assert(spec_modules_of(cs)[q] == m);
                },
                _ => {
                    assert(false);
                },
            }
        }
    }
}

/// A module's index survives adding later components.
proof fn lemma_modules_of_prefix(cs: Seq<crate::types::Component>, q: int)
    requires
        cs.len() > 0,
        0 <= q < spec_modules_of(cs.drop_last()).len(),
    ensures
        q < spec_modules_of(cs).len(),
        spec_modules_of(cs)[q] == spec_modules_of(cs.drop_last())[q],
{
}

/// Each pair a single module contributes names that module and one of its
/// gate calls.
proof fn lemma_module_deps_pairs(
    name: Seq<char>,
    gates: Seq<crate::types::Gate>,
    j: int,
    p: (Seq<char>, Seq<char>),
)
    requires
        0 <= j < crate::modulecheck::spec_module_deps(name, gates).len(),
        crate::modulecheck::spec_module_deps(name, gates)[j] == p,
    ensures
        p.0 == name,
        exists|g: int| 0 <= g < gates.len() && (#[trigger] gates[g]).module_name@ == p.1,
    decreases gates.len(),
{
    if gates.len() > 0 {
        let prefix = crate::modulecheck::spec_module_deps(name, gates.drop_last());
        if j < prefix.len() {
            lemma_module_deps_pairs(name, gates.drop_last(), j, p);
            let g = choose|g: int|
                0 <= g < gates.drop_last().len() && (#[trigger] gates.drop_last()[g]).module_name@
                    == p.1;
            assert(gates[g] == gates.drop_last()[g]);
        } else {
            assert(gates[gates.len() - 1].module_name@ == p.1);
        }
    }
}

/// Compiles one module of an already parsed file all the way to its encoded
/// words.
/// Two results of the same compile agree on everything visible: the error
/// state, every intermediate list up to name identity, and — when both
/// succeed — the flattened modules word for word.
pub proof fn lemma_products_agree(ast: File, p1: IntermediateProducts, p2: IntermediateProducts)
    requires
        spec_products_of(ast, p1),
        spec_products_of(ast, p2),
    ensures
        crate::sort::types_views_eq(p1.module_type_list@, p2.module_type_list@),
        p1.errors@.len() == 0 <==> p2.errors@.len() == 0,
        p1.errors@.len() == 0 ==> views_of_strings(p1.module_dependency_sorted@)
            == views_of_strings(p2.module_dependency_sorted@),
        p1.errors@.len() == 0 ==> crate::compile::memo_views_eq(
            p1.expanded_modules@,
            p2.expanded_modules@,
        ),
{
    let t1 = p1.module_type_list@;
    let t2 = p2.module_type_list@;
    assert(crate::sort::types_views_eq(t1, t2)) by {
        assert forall|i: int|
            0 <= i < t1.len() implies (#[trigger] t1[i]).name@ == (#[trigger] t2[i]).name@
                && t1[i].mtype == t2[i].mtype by {
            if i > 0 {
                let j = i - 1;
                assert(is_type_of(t1[j + 1], spec_modules_of(ast.components@)[j]));
                assert(is_type_of(t2[j + 1], spec_modules_of(ast.components@)[j]));
                assert(t1[i] == t1[j + 1] && t2[i] == t2[j + 1]);
            }
        }
    }
    // The per-stage conditions agree, so the two error states agree.
    assert(spec_names_distinct(t1) == spec_names_distinct(t2)) by {
        if spec_names_distinct(t1) {
            assert forall|i: int, j: int| 0 <= i < j < t2.len() implies (
            #[trigger] t2[i]).name@ != (#[trigger] t2[j]).name@ by {
                assert(t1[i].name@ != t1[j].name@);
            }
        }
        if spec_names_distinct(t2) {
            assert forall|i: int, j: int| 0 <= i < j < t1.len() implies (
            #[trigger] t1[i]).name@ != (#[trigger] t1[j]).name@ by {
                assert(t2[i].name@ != t2[j].name@);
            }
        }
    }
    crate::modulecheck::lemma_gates_valid_congruent(ast.components@, t1, t2);
    if spec_names_distinct(t1) && spec_gates_valid(ast.components@, t1) {
        let d1 = p1.module_dependency@;
        let d2 = p2.module_dependency@;
        assert(crate::sort::deps_views_eq(d1, d2)) by {
            assert forall|k: int|
                0 <= k < d1.len() implies (#[trigger] d1[k]).node@ == (#[trigger] d2[k]).node@
                    && d1[k].depends@ == d2[k].depends@ by {
                assert(dep_views(d1)[k] == spec_dependency(ast.components@)[k]);
                assert(dep_views(d2)[k] == spec_dependency(ast.components@)[k]);
            }
        }
        lemma_dependency_names_cataloged(ast.components@, t1, d1);
        lemma_dependency_names_cataloged(ast.components@, t2, d2);
        crate::sort::lemma_kahn_congruent(d1, t1, d2, t2, Seq::empty());
        if crate::sort::spec_kahn(d1, t1, Seq::empty()).len() == t1.len() {
            crate::sort::lemma_sort_names_congruent(d1, t1, d2, t2);
            assert(views_of_strings(p1.module_dependency_sorted@) == views_of_strings(
                p2.module_dependency_sorted@,
            ));
        }
    }
    if p1.errors@.len() == 0 {
        assert(p2.errors@.len() == 0);
        crate::compile::lemma_expansion_deterministic(
            ast,
            views_of_strings(p1.module_dependency_sorted@),
            p1.expanded_modules@,
            p2.expanded_modules@,
        );
    }
}

/// The exact success condition of a whole compile of one module: some run
/// of the pipeline on this file carries no error, flattens a module of this
/// name, and that module fits the word format. Any two such runs agree on
/// everything visible, so the condition does not depend on the witness.
pub open spec fn spec_compile_ok(ast: File, module: Seq<char>) -> bool {
    exists|p: IntermediateProducts|
        spec_products_of(ast, p) && p.errors@.len() == 0 && spec_find_compiled(
            p.expanded_modules@,
            module,
        ) is Some && compiled_wf(spec_find_compiled(p.expanded_modules@, module)->Some_0)
}

/// Compiles one module of an already parsed file all the way to its encoded
/// words: succeeds exactly when the pipeline succeeds and the name denotes
/// a flattened module that fits the word format, and then returns exactly
/// that module's encoding — whichever successful run is taken as witness.
pub fn compile(ast: File, module: &str) -> (r: Result<Vec<u32>, String>)
    ensures
        r is Ok <==> spec_compile_ok(ast, module@),
        r matches Ok(v) ==> forall|p: IntermediateProducts|
            #[trigger] spec_products_of(ast, p) && p.errors@.len() == 0 && spec_find_compiled(
                p.expanded_modules@,
                module@,
            ) is Some ==> v@ == spec_encode(
                spec_find_compiled(p.expanded_modules@, module@)->Some_0,
            ),
{
    let products = intermediate_products(ast);
    let ghost p0 = products;
    let r = serialize(&products, module);
    proof {
        if r is Ok {
            let cm = spec_find_compiled(p0.expanded_modules@, module@)->Some_0;
            assert(spec_products_of(ast, p0) && p0.errors@.len() == 0 && spec_find_compiled(
                p0.expanded_modules@,
                module@,
            ) is Some && compiled_wf(cm));
            assert(spec_compile_ok(ast, module@));
            assert forall|p2: IntermediateProducts|
                #[trigger] spec_products_of(ast, p2) && p2.errors@.len() == 0
                    && spec_find_compiled(p2.expanded_modules@, module@) is Some implies r->Ok_0@
                == spec_encode(spec_find_compiled(p2.expanded_modules@, module@)->Some_0) by {
                lemma_products_agree(ast, p0, p2);
                crate::compile::lemma_find_congruent(
                    p0.expanded_modules@,
                    p2.expanded_modules@,
                    module@,
                );
                let a = spec_find_compiled(p0.expanded_modules@, module@)->Some_0;
                let b = spec_find_compiled(p2.expanded_modules@, module@)->Some_0;
                assert(crate::codec::spec_gate_words(
                    a.gates_sequential@,
                    (a.gates_sequential@.len() + a.gates_symmetry@.len()) as int,
                ) == crate::codec::spec_gate_words(
                    b.gates_sequential@,
                    (b.gates_sequential@.len() + b.gates_symmetry@.len()) as int,
                ));
                assert(spec_encode(a) =~= spec_encode(b));
            }
        } else {
            if spec_compile_ok(ast, module@) {
                let p2 = choose|p2: IntermediateProducts|
                    spec_products_of(ast, p2) && p2.errors@.len() == 0 && spec_find_compiled(
                        p2.expanded_modules@,
                        module@,
                    ) is Some && compiled_wf(
                        spec_find_compiled(p2.expanded_modules@, module@)->Some_0,
                    );
                lemma_products_agree(ast, p0, p2);
                assert(p0.errors@.len() == 0);
                crate::compile::lemma_find_congruent(
                    p0.expanded_modules@,
                    p2.expanded_modules@,
                    module@,
                );
                assert(spec_find_compiled(p0.expanded_modules@, module@) is Some);
                let a = spec_find_compiled(p0.expanded_modules@, module@)->Some_0;
                let b = spec_find_compiled(p2.expanded_modules@, module@)->Some_0;
                assert(crate::compile::cm_views_eq(a, b));
                assert(crate::types::compiled_cell_count(a) == crate::types::compiled_cell_count(
                    b,
                ));
                let gc = (a.gates_sequential@.len() + a.gates_symmetry@.len()) as int;
                assert forall|i: int| 0 <= i < a.gates_sequential@.len() implies gate_input_wf(
                    #[trigger] a.gates_sequential@[i].0,
                    gc,
                    a.inputs as int,
                ) && gate_input_wf(a.gates_sequential@[i].1, gc, a.inputs as int) by {
                    assert(a.gates_sequential@[i] == b.gates_sequential@[i]);
                }
                assert forall|i: int| 0 <= i < a.gates_symmetry@.len() implies gate_input_wf(
                    #[trigger] a.gates_symmetry@[i].0,
                    gc,
                    a.inputs as int,
                ) && gate_input_wf(a.gates_symmetry@[i].1, gc, a.inputs as int) by {
                    assert(a.gates_symmetry@[i] == b.gates_symmetry@[i]);
                }
                assert forall|i: int| 0 <= i < a.outputs@.len() implies (#[trigger] a.outputs@[i])
                    < crate::types::compiled_cell_count(a) by {
                    assert(a.outputs@[i] == b.outputs@[i]);
                }
                assert(compiled_wf(a));
                assert(false);
            }
        }
    }
    r
}

} // verus!
