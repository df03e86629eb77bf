use vstd::prelude::*;
use crate::types::{Component, File, Gate, MType, Module, ModuleType, NodeDepends};
use crate::text::{concat2, contains_string, spec_contains_string, str_eq, string_of};

verus! {

/// The module definitions of a file, in order.
pub open spec fn spec_modules_of(cs: Seq<Component>) -> Seq<Module>
    decreases cs.len(),
{
    if cs.len() == 0 {
        Seq::empty()
    } else {
        spec_modules_of(cs.drop_last()) + (match cs.last() {
            Component::Module(m) => seq![m],
            _ => Seq::empty(),
        })
    }
}

/// The names of the function modules of a file, in order.
pub open spec fn spec_func_names(cs: Seq<Component>) -> Seq<Seq<char>>
    decreases cs.len(),
{
    if cs.len() == 0 {
        Seq::empty()
    } else {
        spec_func_names(cs.drop_last()) + (match cs.last() {
            Component::Module(m) => if m.func {
                seq![m.name@]
            } else {
                Seq::empty()
            },
            _ => Seq::empty(),
        })
    }
}

/// The names of the non-function modules of a file, in order.
pub open spec fn spec_non_func_names(cs: Seq<Component>) -> Seq<Seq<char>>
    decreases cs.len(),
{
    if cs.len() == 0 {
        Seq::empty()
    } else {
        spec_non_func_names(cs.drop_last()) + (match cs.last() {
            Component::Module(m) => if m.func {
                Seq::empty()
            } else {
                seq![m.name@]
            },
            _ => Seq::empty(),
        })
    }
}

/// Whether a catalog entry records this module's name and arity.
pub open spec fn is_type_of(t: ModuleType, m: Module) -> bool {
    &&& t.name@ == m.name@
    &&& t.mtype.input_count == m.inputs@.len()
    &&& t.mtype.output_count == m.outputs@.len()
}

/// Collects every module's name and arity. The primitive `nor`, two inputs
/// to one output, always heads the catalog and counts as a function module;
/// the remaining entries record the file's modules in order, each name also
/// landing on the function or the non-function list.
pub fn collect_modules(ast: &File) -> (r: (Vec<String>, Vec<String>, Vec<ModuleType>))
    ensures
        ({
            let mods = spec_modules_of(ast.components@);
            &&& r.2@.len() == 1 + mods.len()
            &&& r.2@[0].name@ == "nor"@
            &&& r.2@[0].mtype == (MType { input_count: 2, output_count: 1 })
            &&& forall|i: int| 0 <= i < mods.len() ==> is_type_of(#[trigger] r.2@[i + 1], mods[i])
            &&& r.1@.map_values(|s: String| s@) == seq!["nor"@] + spec_func_names(ast.components@)
            &&& r.0@.map_values(|s: String| s@) == spec_non_func_names(ast.components@)
        }),
{
    let mut modules: Vec<ModuleType> = Vec::new();
    let mut func_modules: Vec<String> = Vec::new();
    let mut non_func_modules: Vec<String> = Vec::new();
    modules.push(
        ModuleType { name: string_of("nor"), mtype: MType { input_count: 2, output_count: 1 } },
    );
    func_modules.push(string_of("nor"));
    let n = ast.components.len();
    let mut i: usize = 0;
    while i < n
        invariant
            i <= n,
            n == ast.components@.len(),
            modules@.len() == 1 + spec_modules_of(ast.components@.take(i as int)).len(),
            modules@[0].name@ == "nor"@,
            modules@[0].mtype == (MType { input_count: 2, output_count: 1 }),
            forall|k: int|
                0 <= k < spec_modules_of(ast.components@.take(i as int)).len() ==> is_type_of(
                    #[trigger] modules@[k + 1],
                    spec_modules_of(ast.components@.take(i as int))[k],
                ),
            func_modules@.map_values(|s: String| s@) == seq!["nor"@] + spec_func_names(
                ast.components@.take(i as int),
            ),
            non_func_modules@.map_values(|s: String| s@) == spec_non_func_names(
                ast.components@.take(i as int),
            ),
        decreases n - i,
    {
        proof {
            assert(ast.components@.take(i + 1 as int).drop_last() =~= ast.components@.take(
                i as int,
            ));
            assert(ast.components@.take(i + 1 as int).last() == ast.components@[i as int]);
        }
        match &ast.components[i] {
            Component::Module(module) => {
                let input_count = module.inputs.len();
                let output_count = module.outputs.len();
                modules.push(
                    ModuleType { name: module.name.clone(), mtype: MType { input_count, output_count } },
                );
                let ghost func_before = func_modules@;
                let ghost non_func_before = non_func_modules@;
                if module.func {
                    func_modules.push(module.name.clone());
                    proof {
                        assert(func_modules@.map_values(|s: String| s@) =~= func_before.map_values(
                            |s: String| s@,
                        ).push(module.name@));
                        assert(func_modules@.map_values(|s: String| s@) =~= seq!["nor"@]
                            + spec_func_names(ast.components@.take(i + 1 as int)));
                        assert(non_func_modules@.map_values(|s: String| s@)
                            =~= spec_non_func_names(ast.components@.take(i + 1 as int)));
                    }
                } else {
                    non_func_modules.push(module.name.clone());
                    proof {
                        assert(non_func_modules@.map_values(|s: String| s@)
                            =~= non_func_before.map_values(|s: String| s@).push(module.name@));
                        assert(func_modules@.map_values(|s: String| s@) =~= seq!["nor"@]
                            + spec_func_names(ast.components@.take(i + 1 as int)));
                        assert(non_func_modules@.map_values(|s: String| s@)
                            =~= spec_non_func_names(ast.components@.take(i + 1 as int)));
                    }
                }
            },
            _ => {
                proof {
                    assert(func_modules@.map_values(|s: String| s@) =~= seq!["nor"@]
                        + spec_func_names(ast.components@.take(i + 1 as int)));
                    assert(non_func_modules@.map_values(|s: String| s@) =~= spec_non_func_names(
                        ast.components@.take(i + 1 as int),
                    ));
                }
            },
        }
        i = i + 1;
    }
    proof {
        assert(ast.components@.take(n as int) =~= ast.components@);
    }
    (non_func_modules, func_modules, modules)
}

/// Whether no two catalog entries share a name.
pub open spec fn spec_names_distinct(modules: Seq<ModuleType>) -> bool {
    forall|i: int, j: int|
        0 <= i < j < modules.len() ==> (#[trigger] modules[i]).name@ != (
        #[trigger] modules[j]).name@
}

/// One message for every catalog entry that repeats an earlier name, in
/// catalog order: the complete accounting of the duplicate check.
pub open spec fn spec_dup_name_msgs(modules: Seq<ModuleType>, i: int) -> Seq<Seq<char>>
    decreases i,
{
    if i <= 0 {
        Seq::empty()
    } else {
        spec_dup_name_msgs(modules, i - 1) + (if (exists|j: int|
            0 <= j < i - 1 && (#[trigger] modules[j]).name@ == modules[i - 1].name@) {
            seq!["Defined module name Duplicated: "@ + modules[i - 1].name@]
        } else {
            Seq::empty()
        })
    }
}

/// Accepts the catalog exactly when no two entries share a name, and
/// otherwise reports one message per repeated occurrence, in order.
pub fn check_module_name_duplicates(modules: &Vec<ModuleType>) -> (r: Result<(), Vec<String>>)
    ensures
        r is Ok <==> spec_names_distinct(modules@),
        r matches Err(e) ==> e@.len() >= 1 && crate::text::views_of_strings(e@)
            == spec_dup_name_msgs(modules@, modules@.len() as int),
{
    let mut errors: Vec<String> = Vec::new();
    let n = modules.len();
    let mut i: usize = 0;
    while i < n
        invariant
            i <= n,
            n == modules@.len(),
            crate::text::views_of_strings(errors@) == spec_dup_name_msgs(modules@, i as int),
            errors@.len() == 0 <==> (forall|p: int, q: int|
                0 <= p < q < i ==> (#[trigger] modules@[p]).name@ != (#[trigger] modules@[q]).name@),
        decreases n - i,
    {
        let mut j: usize = 0;
        let mut dup: bool = false;
        while j < i
            invariant
                j <= i,
                i < n,
                n == modules@.len(),
                dup <==> (exists|p: int|
                    0 <= p < j && (#[trigger] modules@[p]).name@ == modules@[i as int].name@),
            decreases i - j,
        {
            if str_eq(modules[j].name.as_str(), modules[i].name.as_str()) {
                dup = true;
            }
            j = j + 1;
        }
        if dup {
            errors.push(concat2("Defined module name Duplicated: ", modules[i].name.as_str()));
        }
        proof {
            assert(crate::text::views_of_strings(errors@) =~= spec_dup_name_msgs(
                modules@,
                i + 1 as int,
            ));
        }
        i = i + 1;
    }
    if errors.len() == 0 {
        Ok(())
    } else {
        Err(errors)
    }
}

/// The identifiers declared by the outputs of a run of gate calls, in order.
pub open spec fn spec_gate_output_ids(gates: Seq<Gate>) -> Seq<String>
    decreases gates.len(),
{
    if gates.len() == 0 {
        Seq::empty()
    } else {
        spec_gate_output_ids(gates.drop_last()) + gates.last().outputs@
    }
}

/// Every identifier a module body declares: its inputs, then every gate
/// call's outputs, in textual order.
pub open spec fn spec_declared_ids(m: Module) -> Seq<String> {
    m.inputs@ + spec_gate_output_ids(m.gates@)
}

/// Whether no two of these identifiers are spelled the same.
pub open spec fn spec_ids_distinct(v: Seq<String>) -> bool {
    forall|i: int, j: int| 0 <= i < j < v.len() ==> (#[trigger] v[i])@ != (#[trigger] v[j])@
}

/// The first catalog entry with this name, if any.
pub open spec fn spec_find_type(types: Seq<ModuleType>, name: Seq<char>) -> Option<MType>
    decreases types.len(),
{
    if types.len() == 0 {
        None
    } else if types.first().name@ == name {
        Some(types.first().mtype)
    } else {
        spec_find_type(types.drop_first(), name)
    }
}

/// The `func` flag of the first module of the file with this name, if any.
pub open spec fn spec_find_func(cs: Seq<Component>, name: Seq<char>) -> Option<bool>
    decreases cs.len(),
{
    if cs.len() == 0 {
        None
    } else {
        match cs.first() {
            Component::Module(m) => if m.name@ == name {
                Some(m.func)
            } else {
                spec_find_func(cs.drop_first(), name)
            },
            _ => spec_find_func(cs.drop_first(), name),
        }
    }
}

/// One module's body is well made: its declared identifiers are distinct,
/// every identifier it uses is declared, a function module never uses an
/// identifier before the call that declares it, every gate call names a
/// cataloged module and matches its arity, and a function module only calls
/// function modules.
pub open spec fn spec_module_ok(m: Module, cs: Seq<Component>, types: Seq<ModuleType>) -> bool {
    &&& spec_ids_distinct(spec_declared_ids(m))
    &&& forall|k: int|
        0 <= k < m.outputs@.len() ==> spec_contains_string(
            spec_declared_ids(m),
            (#[trigger] m.outputs@[k])@,
        )
    &&& forall|g: int, k: int|
        0 <= g < m.gates@.len() && 0 <= k < (#[trigger] m.gates@[g]).inputs@.len()
            ==> spec_contains_string(spec_declared_ids(m), (#[trigger] m.gates@[g].inputs@[k])@)
    &&& m.func ==> forall|g: int, k: int|
        0 <= g < m.gates@.len() && 0 <= k < (#[trigger] m.gates@[g]).inputs@.len()
            ==> spec_contains_string(
            m.inputs@ + spec_gate_output_ids(m.gates@.take(g)),
            (#[trigger] m.gates@[g].inputs@[k])@,
        )
    &&& forall|g: int|
        0 <= g < m.gates@.len() ==> (spec_find_type(types, (#[trigger] m.gates@[g]).module_name@)
            matches Some(t) && t.input_count == m.gates@[g].inputs@.len() && t.output_count
            == m.gates@[g].outputs@.len())
    &&& m.func ==> forall|g: int|
        0 <= g < m.gates@.len() ==> (spec_find_func(cs, (#[trigger] m.gates@[g]).module_name@)
            matches Some(f) ==> f)
}

/// Every module of the file passes `spec_module_ok`.
pub open spec fn spec_gates_valid(cs: Seq<Component>, types: Seq<ModuleType>) -> bool {
    forall|q: int|
        0 <= q < spec_modules_of(cs).len() ==> spec_module_ok(
            #[trigger] spec_modules_of(cs)[q],
            cs,
            types,
        )
}

/// Skipping entries whose name does not match leaves the search unchanged.
proof fn lemma_find_type_skip(types: Seq<ModuleType>, name: Seq<char>, i: int)
    requires
        0 <= i <= types.len(),
        forall|j: int| 0 <= j < i ==> (#[trigger] types[j]).name@ != name,
    ensures
        spec_find_type(types, name) == spec_find_type(types.skip(i), name),
    decreases i,
{
    if i > 0 {
        assert(types.first().name@ != name);
        lemma_find_type_skip(types.drop_first(), name, i - 1);
        assert(types.drop_first().skip(i - 1) =~= types.skip(i));
        assert(forall|j: int|
            0 <= j < i - 1 ==> (#[trigger] types.drop_first()[j]).name@ != name) by {
            assert(forall|j: int| 0 <= j < i - 1 ==> types.drop_first()[j] == types[j + 1]);
        }
    } else {
        assert(types.skip(0) =~= types);
    }
}

/// Skipping components that are not a module with this name leaves the
/// search unchanged.
proof fn lemma_find_func_skip(cs: Seq<Component>, name: Seq<char>, i: int)
    requires
        0 <= i <= cs.len(),
        forall|j: int|
            0 <= j < i ==> match #[trigger] cs[j] {
                Component::Module(m) => m.name@ != name,
                _ => true,
            },
    ensures
        spec_find_func(cs, name) == spec_find_func(cs.skip(i), name),
    decreases i,
{
    if i > 0 {
        lemma_find_func_skip(cs.drop_first(), name, i - 1);
        assert(cs.drop_first().skip(i - 1) =~= cs.skip(i));
        assert(forall|j: int|
            0 <= j < i - 1 ==> match #[trigger] cs.drop_first()[j] {
                Component::Module(m) => m.name@ != name,
                _ => true,
            }) by {
            assert(forall|j: int| 0 <= j < i - 1 ==> cs.drop_first()[j] == cs[j + 1]);
        }
    } else {
        assert(cs.skip(0) =~= cs);
    }
}

/// Catalog search agrees across catalogs that agree on names and arities.
pub proof fn lemma_find_type_congruent(
    t1: Seq<ModuleType>,
    t2: Seq<ModuleType>,
    name: Seq<char>,
)
    requires
        crate::sort::types_views_eq(t1, t2),
    ensures
        spec_find_type(t1, name) == spec_find_type(t2, name),
    decreases t1.len(),
{
    if t1.len() > 0 {
        assert(t1[0].name@ == t2[0].name@ && t1[0].mtype == t2[0].mtype);
        if t1.first().name@ != name {
            assert(crate::sort::types_views_eq(t1.drop_first(), t2.drop_first())) by {
                assert forall|i: int|
                    0 <= i < t1.drop_first().len() implies (#[trigger] t1.drop_first()[i]).name@
                        == (#[trigger] t2.drop_first()[i]).name@ && t1.drop_first()[i].mtype
                        == t2.drop_first()[i].mtype by {
                    assert(t1.drop_first()[i] == t1[i + 1]);
                    assert(t2.drop_first()[i] == t2[i + 1]);
                }
            }
            lemma_find_type_congruent(t1.drop_first(), t2.drop_first(), name);
        }
    }
}

/// Body validity agrees across catalogs that agree on names and arities.
pub proof fn lemma_gates_valid_congruent(
    cs: Seq<Component>,
    t1: Seq<ModuleType>,
    t2: Seq<ModuleType>,
)
    requires
        crate::sort::types_views_eq(t1, t2),
    ensures
        spec_gates_valid(cs, t1) == spec_gates_valid(cs, t2),
{
    assert forall|q: int| 0 <= q < spec_modules_of(cs).len() implies spec_module_ok(
        #[trigger] spec_modules_of(cs)[q],
        cs,
        t1,
    ) == spec_module_ok(spec_modules_of(cs)[q], cs, t2) by {
        let m = spec_modules_of(cs)[q];
        assert forall|g: int| 0 <= g < m.gates@.len() implies spec_find_type(
            t1,
            (#[trigger] m.gates@[g]).module_name@,
        ) == spec_find_type(t2, m.gates@[g].module_name@) by {
            lemma_find_type_congruent(t1, t2, m.gates@[g].module_name@);
        }
    }
}

/// Linear search of the catalog for a name, first match wins.
pub fn find_type(types: &Vec<ModuleType>, name: &str) -> (r: Option<MType>)
    ensures
        r == spec_find_type(types@, name@),
{
    let n = types.len();
    let mut i: usize = 0;
    while i < n
        invariant
            i <= n,
            n == types@.len(),
            forall|j: int| 0 <= j < i ==> (#[trigger] types@[j]).name@ != name@,
        decreases n - i,
    {
        if str_eq(types[i].name.as_str(), name) {
            proof {
                lemma_find_type_skip(types@, name@, i as int);
                assert(types@.skip(i as int).first() == types@[i as int]);
            }
            return Some(types[i].mtype);
        }
        i = i + 1;
    }
    proof {
        lemma_find_type_skip(types@, name@, n as int);
        assert(types@.skip(n as int) =~= Seq::<ModuleType>::empty());
    }
    None
}

/// Linear search of the file for a module's `func` flag, first match wins.
fn find_func(ast: &File, name: &str) -> (r: Option<bool>)
    ensures
        r == spec_find_func(ast.components@, name@),
{
    let n = ast.components.len();
    let mut i: usize = 0;
    while i < n
        invariant
            i <= n,
            n == ast.components@.len(),
            forall|j: int|
                0 <= j < i ==> match #[trigger] ast.components@[j] {
                    Component::Module(m) => m.name@ != name@,
                    _ => true,
                },
        decreases n - i,
    {
        match &ast.components[i] {
            Component::Module(m) => {
                if str_eq(m.name.as_str(), name) {
                    proof {
                        lemma_find_func_skip(ast.components@, name@, i as int);
                        assert(ast.components@.skip(i as int).first() == ast.components@[i as int]);
                    }
                    return Some(m.func);
                }
            },
            _ => {},
        }
        i = i + 1;
    }
    proof {
        lemma_find_func_skip(ast.components@, name@, n as int);
        assert(ast.components@.skip(n as int) =~= Seq::<Component>::empty());
    }
    None
}

/// Copies out every identifier a module body declares, in declaration order.
fn collect_declared_ids(module: &Module) -> (r: Vec<String>)
    ensures
        r@ == spec_declared_ids(*module),
{
    let mut ids: Vec<String> = Vec::new();
    let n_in = module.inputs.len();
    let mut i: usize = 0;
    while i < n_in
        invariant
            i <= n_in,
            n_in == module.inputs@.len(),
            ids@ =~= module.inputs@.take(i as int),
        decreases n_in - i,
    {
        ids.push(module.inputs[i].clone());
        proof {
            assert(ids@ =~= module.inputs@.take(i + 1 as int));
        }
        i = i + 1;
    }
    proof {
        assert(module.inputs@.take(n_in as int) =~= module.inputs@);
    }
    let gn = module.gates.len();
    let mut g: usize = 0;
    while g < gn
        invariant
            g <= gn,
            gn == module.gates@.len(),
            ids@ =~= module.inputs@ + spec_gate_output_ids(module.gates@.take(g as int)),
        decreases gn - g,
    {
        proof {
            assert(module.gates@.take(g + 1 as int).drop_last() =~= module.gates@.take(g as int));
            assert(module.gates@.take(g + 1 as int).last() == module.gates@[g as int]);
        }
        let outs = &module.gates[g].outputs;
        let on = outs.len();
        let mut k: usize = 0;
        while k < on
            invariant
                k <= on,
                on == outs@.len(),
                outs@ == module.gates@[g as int].outputs@,
                g < gn,
                gn == module.gates@.len(),
                ids@ =~= module.inputs@ + spec_gate_output_ids(module.gates@.take(g as int))
                    + outs@.take(k as int),
            decreases on - k,
        {
            ids.push(outs[k].clone());
            proof {
                assert(ids@ =~= module.inputs@ + spec_gate_output_ids(
                    module.gates@.take(g as int),
                ) + outs@.take(k + 1 as int));
            }
            k = k + 1;
        }
        proof {
            assert(outs@.take(on as int) =~= outs@);
            assert(ids@ =~= module.inputs@ + spec_gate_output_ids(
                module.gates@.take(g + 1 as int),
            ));
        }
        g = g + 1;
    }
    proof {
        assert(module.gates@.take(gn as int) =~= module.gates@);
        assert(ids@ =~= spec_declared_ids(*module));
    }
    ids
}

/// Reports one message per identifier that repeats an earlier declaration.
fn check_ids_distinct(ids: &Vec<String>, module_name: &str, errors: &mut Vec<String>)
    ensures
        final(errors)@.len() >= old(errors)@.len(),
        final(errors)@.len() == old(errors)@.len() <==> spec_ids_distinct(ids@),
{
    let n = ids.len();
    let mut i: usize = 0;
    while i < n
        invariant
            i <= n,
            n == ids@.len(),
            errors@.len() >= old(errors)@.len(),
            errors@.len() == old(errors)@.len() <==> (forall|p: int, q: int|
                0 <= p < q < i ==> (#[trigger] ids@[p])@ != (#[trigger] ids@[q])@),
        decreases n - i,
    {
        let mut j: usize = 0;
        let mut dup: bool = false;
        while j < i
            invariant
                j <= i,
                i < n,
                n == ids@.len(),
                dup <==> (exists|p: int| 0 <= p < j && (#[trigger] ids@[p])@ == ids@[i as int]@),
            decreases i - j,
        {
            if str_eq(ids[j].as_str(), ids[i].as_str()) {
                dup = true;
            }
            j = j + 1;
        }
        if dup {
            errors.push(
                crate::text::concat5(
                    "Defined id Duplicated: ",
                    ids[i].as_str(),
                    " in ",
                    module_name,
                    "",
                ),
            );
        }
        i = i + 1;
    }
}

/// Reports one message per module output that no declaration covers.
fn check_outputs_declared(module: &Module, ids: &Vec<String>, errors: &mut Vec<String>)
    ensures
        final(errors)@.len() >= old(errors)@.len(),
        final(errors)@.len() == old(errors)@.len() <==> (forall|k: int|
            0 <= k < module.outputs@.len() ==> spec_contains_string(
                ids@,
                (#[trigger] module.outputs@[k])@,
            )),
{
    let n = module.outputs.len();
    let mut k: usize = 0;
    while k < n
        invariant
            k <= n,
            n == module.outputs@.len(),
            errors@.len() >= old(errors)@.len(),
            errors@.len() == old(errors)@.len() <==> (forall|p: int|
                0 <= p < k ==> spec_contains_string(ids@, (#[trigger] module.outputs@[p])@)),
        decreases n - k,
    {
        if !contains_string(ids, module.outputs[k].as_str()) {
            errors.push(
                crate::text::concat5(
                    "Undefined id used: Output ",
                    module.outputs[k].as_str(),
                    " in ",
                    module.name.as_str(),
                    "",
                ),
            );
        }
        k = k + 1;
    }
}

/// Reports one message per gate-call input that no declaration covers.
fn check_gate_inputs_declared(module: &Module, ids: &Vec<String>, errors: &mut Vec<String>)
    ensures
        final(errors)@.len() >= old(errors)@.len(),
        final(errors)@.len() == old(errors)@.len() <==> (forall|g: int, k: int|
            0 <= g < module.gates@.len() && 0 <= k < (#[trigger] module.gates@[g]).inputs@.len()
                ==> spec_contains_string(ids@, (#[trigger] module.gates@[g].inputs@[k])@)),
{
    let gn = module.gates.len();
    let mut g: usize = 0;
    while g < gn
        invariant
            g <= gn,
            gn == module.gates@.len(),
            errors@.len() >= old(errors)@.len(),
            errors@.len() == old(errors)@.len() <==> (forall|p: int, k: int|
                0 <= p < g && 0 <= k < (#[trigger] module.gates@[p]).inputs@.len()
                    ==> spec_contains_string(ids@, (#[trigger] module.gates@[p].inputs@[k])@)),
        decreases gn - g,
    {
        let ins = &module.gates[g].inputs;
        let kn = ins.len();
        let mut k: usize = 0;
        while k < kn
            invariant
                k <= kn,
                kn == ins@.len(),
                g < gn,
                gn == module.gates@.len(),
                ins@ == module.gates@[g as int].inputs@,
                errors@.len() >= old(errors)@.len(),
                errors@.len() == old(errors)@.len() <==> ((forall|p: int, q: int|
                    0 <= p < g && 0 <= q < (#[trigger] module.gates@[p]).inputs@.len()
                        ==> spec_contains_string(ids@, (#[trigger] module.gates@[p].inputs@[q])@))
                    && (forall|q: int|
                    0 <= q < k ==> spec_contains_string(ids@, (#[trigger] ins@[q])@))),
            decreases kn - k,
        {
            if !contains_string(ids, ins[k].as_str()) {
                errors.push(
                    crate::text::concat5(
                        "Undefined id used: Gate-In ",
                        ins[k].as_str(),
                        " in ",
                        module.name.as_str(),
                        "",
                    ),
                );
            }
            k = k + 1;
        }
        g = g + 1;
    }
}

/// For a function module, reports one message per gate-call input that is
/// used before the call that declares it. Other modules pass untouched.
fn check_func_order(module: &Module, errors: &mut Vec<String>)
    ensures
        final(errors)@.len() >= old(errors)@.len(),
        final(errors)@.len() == old(errors)@.len() <==> (module.func ==> (forall|g: int, k: int|
            0 <= g < module.gates@.len() && 0 <= k < (#[trigger] module.gates@[g]).inputs@.len()
                ==> spec_contains_string(
                module.inputs@ + spec_gate_output_ids(module.gates@.take(g)),
                (#[trigger] module.gates@[g].inputs@[k])@,
            ))),
{
    if !module.func {
        return ;
    }
    let mut avail = {
        let mut v: Vec<String> = Vec::new();
        let n_in = module.inputs.len();
        let mut i: usize = 0;
        while i < n_in
            invariant
                i <= n_in,
                n_in == module.inputs@.len(),
                v@ =~= module.inputs@.take(i as int),
            decreases n_in - i,
        {
            v.push(module.inputs[i].clone());
            proof {
                assert(v@ =~= module.inputs@.take(i + 1 as int));
            }
            i = i + 1;
        }
        proof {
            assert(module.inputs@.take(n_in as int) =~= module.inputs@);
            assert(v@ =~= module.inputs@ + spec_gate_output_ids(module.gates@.take(0)));
        }
        v
    };
    let gn = module.gates.len();
    let mut g: usize = 0;
    while g < gn
        invariant
            g <= gn,
            gn == module.gates@.len(),
            avail@ =~= module.inputs@ + spec_gate_output_ids(module.gates@.take(g as int)),
            errors@.len() >= old(errors)@.len(),
            errors@.len() == old(errors)@.len() <==> (forall|p: int, k: int|
                0 <= p < g && 0 <= k < (#[trigger] module.gates@[p]).inputs@.len()
                    ==> spec_contains_string(
                    module.inputs@ + spec_gate_output_ids(module.gates@.take(p)),
                    (#[trigger] module.gates@[p].inputs@[k])@,
                )),
        decreases gn - g,
    {
        let ins = &module.gates[g].inputs;
        let kn = ins.len();
        let mut k: usize = 0;
        while k < kn
            invariant
                k <= kn,
                kn == ins@.len(),
                g < gn,
                gn == module.gates@.len(),
                ins@ == module.gates@[g as int].inputs@,
                avail@ =~= module.inputs@ + spec_gate_output_ids(module.gates@.take(g as int)),
                errors@.len() >= old(errors)@.len(),
                errors@.len() == old(errors)@.len() <==> ((forall|p: int, q: int|
                    0 <= p < g && 0 <= q < (#[trigger] module.gates@[p]).inputs@.len()
                        ==> spec_contains_string(
                        module.inputs@ + spec_gate_output_ids(module.gates@.take(p)),
                        (#[trigger] module.gates@[p].inputs@[q])@,
                    )) && (forall|q: int|
                    0 <= q < k ==> spec_contains_string(avail@, (#[trigger] ins@[q])@))),
            decreases kn - k,
        {
            if !contains_string(&avail, ins[k].as_str()) {
                errors.push(
                    crate::text::concat5(
                        "In a function module, a value cannot be used before it is declared: ",
                        ins[k].as_str(),
                        " in ",
                        module.name.as_str(),
                        "",
                    ),
                );
            }
            k = k + 1;
        }
        proof {
            assert(module.gates@.take(g + 1 as int).drop_last() =~= module.gates@.take(g as int));
            assert(module.gates@.take(g + 1 as int).last() == module.gates@[g as int]);
        }
        let outs = &module.gates[g].outputs;
        let on = outs.len();
        let mut t: usize = 0;
        while t < on
            invariant
                t <= on,
                on == outs@.len(),
                g < gn,
                gn == module.gates@.len(),
                outs@ == module.gates@[g as int].outputs@,
                avail@ =~= module.inputs@ + spec_gate_output_ids(module.gates@.take(g as int))
                    + outs@.take(t as int),
                errors@.len() >= old(errors)@.len(),
                errors@.len() == old(errors)@.len() <==> (forall|p: int, q: int|
                    0 <= p < g + 1 && 0 <= q < (#[trigger] module.gates@[p]).inputs@.len()
                        ==> spec_contains_string(
                        module.inputs@ + spec_gate_output_ids(module.gates@.take(p)),
                        (#[trigger] module.gates@[p].inputs@[q])@,
                    )),
            decreases on - t,
        {
            avail.push(outs[t].clone());
            proof {
                assert(avail@ =~= module.inputs@ + spec_gate_output_ids(
                    module.gates@.take(g as int),
                ) + outs@.take(t + 1 as int));
            }
            t = t + 1;
        }
        proof {
            assert(outs@.take(on as int) =~= outs@);
            assert(avail@ =~= module.inputs@ + spec_gate_output_ids(
                module.gates@.take(g + 1 as int),
            ));
        }
        g = g + 1;
    }
}

/// Reports unknown callees, arity mismatches and, for a function module,
/// calls into non-function modules. Stops at the first unknown callee, as a
/// later arity check against it would be meaningless.
fn check_gate_calls(
    module: &Module,
    ast: &File,
    module_types: &Vec<ModuleType>,
    errors: &mut Vec<String>,
)
    ensures
        final(errors)@.len() >= old(errors)@.len(),
        final(errors)@.len() == old(errors)@.len() <==> ((forall|g: int|
            0 <= g < module.gates@.len() ==> (spec_find_type(
                module_types@,
                (#[trigger] module.gates@[g]).module_name@,
            ) matches Some(t) && t.input_count == module.gates@[g].inputs@.len() && t.output_count
                == module.gates@[g].outputs@.len())) && (module.func ==> (forall|g: int|
            0 <= g < module.gates@.len() ==> (spec_find_func(
                ast.components@,
                (#[trigger] module.gates@[g]).module_name@,
            ) matches Some(f) ==> f)))),
{
    let gn = module.gates.len();
    let mut g: usize = 0;
    while g < gn
        invariant
            g <= gn,
            gn == module.gates@.len(),
            errors@.len() >= old(errors)@.len(),
            errors@.len() == old(errors)@.len() <==> ((forall|p: int|
                0 <= p < g ==> (spec_find_type(
                    module_types@,
                    (#[trigger] module.gates@[p]).module_name@,
                ) matches Some(t) && t.input_count == module.gates@[p].inputs@.len()
                    && t.output_count == module.gates@[p].outputs@.len())) && (module.func ==> (
            forall|p: int|
                0 <= p < g ==> (spec_find_func(
                    ast.components@,
                    (#[trigger] module.gates@[p]).module_name@,
                ) matches Some(f) ==> f)))),
        decreases gn - g,
    {
        let gate = &module.gates[g];
        match find_type(module_types, gate.module_name.as_str()) {
            Some(mtype) => {
                if gate.inputs.len() != mtype.input_count || gate.outputs.len()
                    != mtype.output_count {
                    errors.push(
                        crate::text::concat5(
                            "Used module with unmatched type: ",
                            gate.module_name.as_str(),
                            " in ",
                            module.name.as_str(),
                            "",
                        ),
                    );
                }
            },
            None => {
                errors.push(
                    crate::text::concat5(
                        "Undefined module used: ",
                        gate.module_name.as_str(),
                        " in ",
                        module.name.as_str(),
                        "",
                    ),
                );
                return ;
            },
        }
        if module.func {
            match find_func(ast, gate.module_name.as_str()) {
                Some(false) => {
                    errors.push(
                        crate::text::concat5(
                            "Function modules cannot call non-function modules: ",
                            gate.module_name.as_str(),
                            " used in ",
                            module.name.as_str(),
                            "",
                        ),
                    );
                },
                _ => {},
            }
        }
        g = g + 1;
    }
}

/// Accepts the file exactly when every module passes `spec_module_ok`, and
/// reports every violation it finds otherwise.
/// How many of the first `i` components are modules that fail the body
/// checks: a floor for the error accounting, since every failing module
/// contributes at least one message.
pub open spec fn spec_bad_module_count(
    cs: Seq<Component>,
    types: Seq<ModuleType>,
    i: int,
) -> int
    decreases i,
{
    if i <= 0 {
        0
    } else {
        spec_bad_module_count(cs, types, i - 1) + (match cs[i - 1] {
            Component::Module(m) => if spec_module_ok(m, cs, types) {
                0int
            } else {
                1int
            },
            _ => 0int,
        })
    }
}

pub fn check_module_gates(ast: &File, module_types: &Vec<ModuleType>) -> (r: Result<
    (),
    Vec<String>,
>)
    ensures
        r is Ok <==> spec_gates_valid(ast.components@, module_types@),
        r matches Err(e) ==> e@.len() >= 1 && e@.len() >= spec_bad_module_count(
            ast.components@,
            module_types@,
            ast.components@.len() as int,
        ),
{
    let mut errors: Vec<String> = Vec::new();
    let n = ast.components.len();
    let mut i: usize = 0;
    while i < n
        invariant
            i <= n,
            n == ast.components@.len(),
            errors@.len() >= spec_bad_module_count(ast.components@, module_types@, i as int),
            errors@.len() == 0 <==> (forall|q: int|
                0 <= q < spec_modules_of(ast.components@.take(i as int)).len() ==> spec_module_ok(
                    #[trigger] spec_modules_of(ast.components@.take(i as int))[q],
                    ast.components@,
                    module_types@,
                )),
        decreases n - i,
    {
        proof {
            assert(ast.components@.take(i + 1 as int).drop_last() =~= ast.components@.take(
                i as int,
            ));
            assert(ast.components@.take(i + 1 as int).last() == ast.components@[i as int]);
        }
        match &ast.components[i] {
            Component::Module(module) => {
                let ghost len0 = errors@.len();
                let ghost prefix_ok = errors@.len() == 0;
                let ids = collect_declared_ids(module);
                check_ids_distinct(&ids, module.name.as_str(), &mut errors);
                check_outputs_declared(module, &ids, &mut errors);
                check_gate_inputs_declared(module, &ids, &mut errors);
                check_func_order(module, &mut errors);
                check_gate_calls(module, ast, module_types, &mut errors);
                proof {
                    let mods1 = spec_modules_of(ast.components@.take(i + 1 as int));
                    let mods0 = spec_modules_of(ast.components@.take(i as int));
                    assert(mods1 == mods0 + seq![*module]);
                    assert(errors@.len() == len0 <==> spec_module_ok(
                        *module,
                        ast.components@,
                        module_types@,
                    ));
                    if errors@.len() == 0 {
                        assert(prefix_ok && errors@.len() == len0);
                        assert forall|q: int| 0 <= q < mods1.len() implies spec_module_ok(
                            #[trigger] mods1[q],
                            ast.components@,
                            module_types@,
                        ) by {
                            if q < mods0.len() {
                                assert(mods1[q] == mods0[q]);
                            } else {
                                assert(mods1[q] == *module);
                            }
                        }
                    } else {
                        if prefix_ok && errors@.len() == len0 {
                            assert(false);
                        }
                        if !prefix_ok {
                            let q0 = choose|q: int|
                                0 <= q < mods0.len() && !spec_module_ok(
                                    #[trigger] mods0[q],
                                    ast.components@,
                                    module_types@,
                                );
                            assert(mods1[q0] == mods0[q0]);
                            assert(!spec_module_ok(mods1[q0], ast.components@, module_types@));
                        } else {
                            assert(!spec_module_ok(*module, ast.components@, module_types@));
                            assert(mods1[mods0.len() as int] == *module);
                        }
                    }
                    assert(errors@.len() >= spec_bad_module_count(
                        ast.components@,
                        module_types@,
                        i + 1 as int,
                    )) by {
                        assert(ast.components@[i as int] == Component::Module(*module));
                        if spec_module_ok(*module, ast.components@, module_types@) {
                            assert(errors@.len() >= len0);
                        } else {
                            assert(errors@.len() != len0 && errors@.len() >= len0);
                        }
                    }
                }
            },
            _ => {
                proof {
                    assert(spec_modules_of(ast.components@.take(i + 1 as int)) =~= spec_modules_of(
                        ast.components@.take(i as int),
                    ));
                    assert(spec_bad_module_count(ast.components@, module_types@, i + 1 as int)
                        == spec_bad_module_count(ast.components@, module_types@, i as int));
                }
            },
        }
        i = i + 1;
    }
    proof {
        assert(ast.components@.take(n as int) =~= ast.components@);
    }
    if errors.len() == 0 {
        Ok(())
    } else {
        Err(errors)
    }
}

/// The dependency edges one module contributes: one edge per distinct callee,
/// in first-call order.
pub open spec fn spec_module_deps(name: Seq<char>, gates: Seq<Gate>) -> Seq<(Seq<char>, Seq<char>)>
    decreases gates.len(),
{
    if gates.len() == 0 {
        Seq::empty()
    } else {
        spec_module_deps(name, gates.drop_last()) + (if (exists|j: int|
            0 <= j < gates.len() - 1 && (#[trigger] gates[j]).module_name@ == gates.last(
            ).module_name@) {
            Seq::empty()
        } else {
            seq![(name, gates.last().module_name@)]
        })
    }
}

/// The dependency edges of a whole file, module by module.
pub open spec fn spec_dependency(cs: Seq<Component>) -> Seq<(Seq<char>, Seq<char>)>
    decreases cs.len(),
{
    if cs.len() == 0 {
        Seq::empty()
    } else {
        spec_dependency(cs.drop_last()) + (match cs.last() {
            Component::Module(m) => spec_module_deps(m.name@, m.gates@),
            _ => Seq::empty(),
        })
    }
}

/// The views of a list of edges.
pub open spec fn dep_views(v: Seq<NodeDepends>) -> Seq<(Seq<char>, Seq<char>)> {
    v.map_values(|d: NodeDepends| (d.node@, d.depends@))
}

/// Builds the module-calls-module edge list: for every module, one edge to
/// each distinct callee its body names, in first-call order.
pub fn module_dependency(ast: &File) -> (r: Vec<NodeDepends>)
    ensures
        dep_views(r@) == spec_dependency(ast.components@),
{
    let mut dependency: Vec<NodeDepends> = Vec::new();
    let n = ast.components.len();
    let mut i: usize = 0;
    while i < n
        invariant
            i <= n,
            n == ast.components@.len(),
            dep_views(dependency@) == spec_dependency(ast.components@.take(i as int)),
        decreases n - i,
    {
        proof {
            assert(ast.components@.take(i + 1 as int).drop_last() =~= ast.components@.take(
                i as int,
            ));
            assert(ast.components@.take(i + 1 as int).last() == ast.components@[i as int]);
        }
        match &ast.components[i] {
            Component::Module(module) => {
                let gn = module.gates.len();
                let mut added: Vec<String> = Vec::new();
                let mut k: usize = 0;
                while k < gn
                    invariant
                        k <= gn,
                        gn == module.gates@.len(),
                        forall|p: int|
                            0 <= p < k ==> (spec_contains_string(
                                added@,
                                (#[trigger] module.gates@[p]).module_name@,
                            )),
                        forall|s: Seq<char>|
                            spec_contains_string(added@, s) ==> (exists|p: int|
                                0 <= p < k && (#[trigger] module.gates@[p]).module_name@ == s),
                        dep_views(dependency@) == spec_dependency(ast.components@.take(i as int))
                            + spec_module_deps(module.name@, module.gates@.take(k as int)),
                    decreases gn - k,
                {
                    proof {
                        assert(module.gates@.take(k + 1 as int).drop_last() =~= module.gates@.take(
                            k as int,
                        ));
                        assert(module.gates@.take(k + 1 as int).last() == module.gates@[k as int]);
                    }
                    let gate = &module.gates[k];
                    let ghost added_before = added@;
                    let ghost dep_before = dependency@;
                    if !contains_string(&added, gate.module_name.as_str()) {
                        added.push(gate.module_name.clone());
                        dependency.push(
                            NodeDepends {
                                node: module.name.clone(),
                                depends: gate.module_name.clone(),
                            },
                        );
                        proof {
                            assert(dep_views(dependency@) =~= dep_views(dep_before).push((
                                module.name@,
                                module.gates@[k as int].module_name@,
                            )));
                            assert(forall|j: int|
                                0 <= j < k ==> (#[trigger] module.gates@[j]).module_name@
                                    != module.gates@[k as int].module_name@);
                            let taken = module.gates@.take(k + 1 as int);
                            assert forall|j: int| 0 <= j < taken.len() - 1 implies (
                            #[trigger] taken[j]).module_name@ != taken.last().module_name@ by {
                                assert(taken[j] == module.gates@[j]);
                            }
                            assert(spec_module_deps(module.name@, taken) =~= spec_module_deps(
                                module.name@,
                                module.gates@.take(k as int),
                            ) + seq![(module.name@, module.gates@[k as int].module_name@)]);
                            assert(dep_views(dependency@) =~= spec_dependency(
                                ast.components@.take(i as int),
                            ) + spec_module_deps(module.name@, taken));
                            assert forall|p: int| 0 <= p < k + 1 implies spec_contains_string(
                                added@,
                                (#[trigger] module.gates@[p]).module_name@,
                            ) by {
                                if p < k {
                                    let w = choose|w: int|
                                        0 <= w < added_before.len() && added_before[w]@
                                            == module.gates@[p].module_name@;
                                    assert(added@[w]@ == module.gates@[p].module_name@);
                                } else {
                                    assert(added@[added@.len() - 1]@ == module.gates@[
                                    k as int].module_name@);
                                }
                            }
                            assert forall|s: Seq<char>|
                                spec_contains_string(added@, s) implies (exists|p: int|
                                0 <= p < k + 1 && (#[trigger] module.gates@[p]).module_name@
                                    == s) by {
                                let w = choose|w: int|
                                    0 <= w < added@.len() && added@[w]@ == s;
                                if w < added_before.len() {
                                    assert(added_before[w]@ == s);
                                    assert(spec_contains_string(added_before, s));
                                } else {
                                    assert(module.gates@[k as int].module_name@ == s);
                                }
                            }
                        }
                    } else {
                        proof {
                            assert(exists|j: int|
                                0 <= j < k && (#[trigger] module.gates@[j]).module_name@
                                    == module.gates@[k as int].module_name@);
                            assert forall|p: int| 0 <= p < k + 1 implies spec_contains_string(
                                added@,
                                (#[trigger] module.gates@[p]).module_name@,
                            ) by {
                                if p == k {
                                    assert(spec_contains_string(
                                        added@,
                                        module.gates@[k as int].module_name@,
                                    ));
                                }
                            }
                            let taken = module.gates@.take(k + 1 as int);
                            let j0 = choose|j: int|
                                0 <= j < k && (#[trigger] module.gates@[j]).module_name@
                                    == module.gates@[k as int].module_name@;
                            assert(taken[j0] == module.gates@[j0]);
                            assert(0 <= j0 < taken.len() - 1 && taken[j0].module_name@
                                == taken.last().module_name@);
                            assert(spec_module_deps(module.name@, taken) =~= spec_module_deps(
                                module.name@,
                                module.gates@.take(k as int),
                            ));
                        }
                    }
                    k = k + 1;
                }
                proof {
                    assert(module.gates@.take(gn as int) =~= module.gates@);
                    assert(dep_views(dependency@) =~= spec_dependency(
                        ast.components@.take(i + 1 as int),
                    ));
                }
            },
            _ => {
                proof {
                    assert(spec_dependency(ast.components@.take(i + 1 as int)) =~= spec_dependency(
                        ast.components@.take(i as int),
                    ));
                }
            },
        }
        i = i + 1;
    }
    proof {
        assert(ast.components@.take(n as int) =~= ast.components@);
    }
    dependency
}

} // verus!
