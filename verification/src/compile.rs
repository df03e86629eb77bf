use vstd::prelude::*;
use crate::types::{CompiledGate, CompiledGateInput, CompiledModule, Component, File, Gate, Module};
use crate::text::{concat2, str_eq, string_of};

verus! {

/// The first flattened module with this name, if any.
pub open spec fn spec_find_compiled(ms: Seq<CompiledModule>, name: Seq<char>) -> Option<
    CompiledModule,
>
    decreases ms.len(),
{
    if ms.len() == 0 {
        None
    } else if ms.first().name@ == name {
        Some(ms.first())
    } else {
        spec_find_compiled(ms.drop_first(), name)
    }
}

/// The flattened callee of the `g`-th gate call.
pub open spec fn spec_callee(m: Module, ms: Seq<CompiledModule>, g: int) -> CompiledModule {
    spec_find_compiled(ms, m.gates@[g].module_name@)->Some_0
}

/// How many NOR gates the first `i` gate calls of `m` emit: each call emits
/// a full copy of its callee's gate list.
pub open spec fn spec_ptr(m: Module, ms: Seq<CompiledModule>, i: int) -> int
    decreases i,
{
    if i <= 0 {
        0
    } else {
        spec_ptr(m, ms, i - 1) + spec_callee(m, ms, i - 1).gates_sequential@.len()
    }
}

/// The total number of NOR gates `m` emits.
pub open spec fn spec_total_gates(m: Module, ms: Seq<CompiledModule>) -> int {
    spec_ptr(m, ms, m.gates@.len() as int)
}

/// Every callee of `m` has already been flattened.
pub open spec fn spec_callees_known(m: Module, ms: Seq<CompiledModule>) -> bool {
    forall|g: int|
        0 <= g < m.gates@.len() ==> spec_find_compiled(
            ms,
            (#[trigger] m.gates@[g]).module_name@,
        ) is Some
}

/// Every gate call hands its callee exactly the arity it was flattened with.
pub open spec fn spec_arity_ok(m: Module, ms: Seq<CompiledModule>) -> bool {
    forall|g: int|
        0 <= g < m.gates@.len() ==> (#[trigger] m.gates@[g]).inputs@.len() == spec_callee(
            m,
            ms,
            g,
        ).inputs as int && m.gates@[g].outputs@.len() == spec_callee(m, ms, g).outputs@.len()
}

/// The flattened module fits the 32-bit cell layout.
pub open spec fn spec_size_ok(m: Module, ms: Seq<CompiledModule>) -> bool {
    spec_total_gates(m, ms) + m.inputs@.len() <= u32::MAX as int
}

/// Every reference inside every copied callee gate stays representable: a
/// shifted gate index still fits a word, and an input index names one of the
/// call's arguments.
pub open spec fn spec_refs_fit(m: Module, ms: Seq<CompiledModule>) -> bool {
    forall|g: int, e: int|
        0 <= g < m.gates@.len() && 0 <= e < spec_callee(m, ms, g).gates_sequential@.len() ==> {
            let egate = #[trigger] spec_callee(m, ms, g).gates_sequential@[e];
            &&& spec_ref_fits(m, ms, g, egate.0)
            &&& spec_ref_fits(m, ms, g, egate.1)
        }
}

/// Whether one copied reference stays representable at call `g`.
pub open spec fn spec_ref_fits(
    m: Module,
    ms: Seq<CompiledModule>,
    g: int,
    r: CompiledGateInput,
) -> bool {
    match r {
        CompiledGateInput::NorGate(k) => spec_ptr(m, ms, g) + k <= u32::MAX as int,
        CompiledGateInput::Input(k) => (k as int) < m.gates@[g].inputs@.len(),
    }
}

/// Every cell index recorded for a callee's outputs still fits a word.
pub open spec fn spec_om_fit(m: Module, ms: Seq<CompiledModule>) -> bool {
    forall|g: int, j: int|
        0 <= g < m.gates@.len() && 0 <= j < spec_callee(m, ms, g).outputs@.len() ==> spec_ptr(
            m,
            ms,
            g,
        ) + (#[trigger] spec_callee(m, ms, g).outputs@[j]) <= u32::MAX as int
}

/// The name-to-cell entries one gate call contributes: its `j`-th bound
/// output name maps to the callee's `j`-th output, shifted past the gates
/// emitted before the call.
pub open spec fn spec_om_gate(gate: Gate, callee: CompiledModule, pointer: int) -> Seq<
    (Seq<char>, CompiledGateInput),
> {
    Seq::new(
        callee.outputs@.len(),
        |j: int|
            (
                gate.outputs@[j]@,
                CompiledGateInput::NorGate((pointer + callee.outputs@[j]) as u32),
            ),
    )
}

/// The name-to-cell entries of the first `i` gate calls, in order.
pub open spec fn spec_om_gates(m: Module, ms: Seq<CompiledModule>, i: int) -> Seq<
    (Seq<char>, CompiledGateInput),
>
    decreases i,
{
    if i <= 0 {
        Seq::empty()
    } else {
        spec_om_gates(m, ms, i - 1) + spec_om_gate(
            m.gates@[i - 1],
            spec_callee(m, ms, i - 1),
            spec_ptr(m, ms, i - 1),
        )
    }
}

/// The whole name-to-cell table of `m`: every gate call's bound outputs,
/// then the module's declared inputs, which shadow earlier entries of the
/// same name.
pub open spec fn spec_om(m: Module, ms: Seq<CompiledModule>) -> Seq<
    (Seq<char>, CompiledGateInput),
> {
    spec_om_gates(m, ms, m.gates@.len() as int) + Seq::new(
        m.inputs@.len(),
        |k: int| (m.inputs@[k]@, CompiledGateInput::Input(k as u32)),
    )
}

/// Table lookup: the latest entry for a name wins.
pub open spec fn assoc_last(om: Seq<(Seq<char>, CompiledGateInput)>, name: Seq<char>) -> Option<
    CompiledGateInput,
>
    decreases om.len(),
{
    if om.len() == 0 {
        None
    } else if om.last().0 == name {
        Some(om.last().1)
    } else {
        assoc_last(om.drop_last(), name)
    }
}

/// Every identifier the body and the output list use resolves in the table.
pub open spec fn spec_resolvable(m: Module, ms: Seq<CompiledModule>) -> bool {
    &&& forall|g: int, e: int|
        0 <= g < m.gates@.len() && 0 <= e < spec_callee(m, ms, g).gates_sequential@.len() ==> {
            let egate = #[trigger] spec_callee(m, ms, g).gates_sequential@[e];
            &&& spec_ref_resolves(m, ms, g, egate.0)
            &&& spec_ref_resolves(m, ms, g, egate.1)
        }
    &&& forall|o: int|
        0 <= o < m.outputs@.len() ==> assoc_last(
            spec_om(m, ms),
            (#[trigger] m.outputs@[o])@,
        ) is Some
}

/// Whether one copied reference resolves: a gate index always does, an input
/// index resolves through the identifier the call site supplied.
pub open spec fn spec_ref_resolves(
    m: Module,
    ms: Seq<CompiledModule>,
    g: int,
    r: CompiledGateInput,
) -> bool {
    match r {
        CompiledGateInput::NorGate(k) => true,
        CompiledGateInput::Input(k) => assoc_last(
            spec_om(m, ms),
            m.gates@[g].inputs@[k as int]@,
        ) is Some,
    }
}

/// All the conditions under which a module flattens.
pub open spec fn spec_expandable(m: Module, ms: Seq<CompiledModule>) -> bool {
    &&& spec_callees_known(m, ms)
    &&& spec_arity_ok(m, ms)
    &&& spec_size_ok(m, ms)
    &&& spec_refs_fit(m, ms)
    &&& spec_om_fit(m, ms)
    &&& spec_resolvable(m, ms)
}

/// What one copied reference becomes: a gate index shifts past the gates
/// emitted before the call, an input index becomes whatever cell the call
/// site's identifier resolves to.
pub open spec fn spec_resolve_ref(
    m: Module,
    ms: Seq<CompiledModule>,
    g: int,
    r: CompiledGateInput,
) -> CompiledGateInput {
    match r {
        CompiledGateInput::NorGate(k) => CompiledGateInput::NorGate(
            (spec_ptr(m, ms, g) + k) as u32,
        ),
        CompiledGateInput::Input(k) => assoc_last(
            spec_om(m, ms),
            m.gates@[g].inputs@[k as int]@,
        )->Some_0,
    }
}

/// The NOR gates the first `i` gate calls emit, fully resolved.
pub open spec fn spec_expanded_gates(m: Module, ms: Seq<CompiledModule>, i: int) -> Seq<
    (CompiledGateInput, CompiledGateInput),
>
    decreases i,
{
    if i <= 0 {
        Seq::empty()
    } else {
        spec_expanded_gates(m, ms, i - 1) + Seq::new(
            spec_callee(m, ms, i - 1).gates_sequential@.len(),
            |e: int|
                (
                    spec_resolve_ref(m, ms, i - 1, spec_callee(m, ms, i - 1).gates_sequential@[e].0),
                    spec_resolve_ref(m, ms, i - 1, spec_callee(m, ms, i - 1).gates_sequential@[e].1),
                ),
        )
    }
}

/// The module's resolved output slots: a gate cell stays as it is, an input
/// lands after all emitted gates.
pub open spec fn spec_resolved_outputs(m: Module, ms: Seq<CompiledModule>) -> Seq<u32> {
    Seq::new(
        m.outputs@.len(),
        |o: int|
            match assoc_last(spec_om(m, ms), m.outputs@[o]@)->Some_0 {
                CompiledGateInput::NorGate(v) => v,
                CompiledGateInput::Input(v) => (v + spec_total_gates(m, ms)) as u32,
            },
    )
}

/// Whether `cm` is the flattening of `m` against the table `ms`.
pub open spec fn is_expansion_of(cm: CompiledModule, m: Module, ms: Seq<CompiledModule>) -> bool {
    &&& cm.func == m.func
    &&& cm.name@ == m.name@
    &&& cm.inputs as int == m.inputs@.len()
    &&& cm.outputs@ == spec_resolved_outputs(m, ms)
    &&& cm.gates_sequential@ == spec_expanded_gates(m, ms, m.gates@.len() as int)
    &&& cm.gates_symmetry@ == Seq::<(CompiledGateInput, CompiledGateInput)>::empty()
}

/// Whether `cm` is the flattened primitive: `nor` is one gate reading both
/// inputs, and its single output is that gate.
pub open spec fn is_nor_base(cm: CompiledModule) -> bool {
    &&& cm.func == true
    &&& cm.name@ == "nor"@
    &&& cm.inputs == 2
    &&& cm.outputs@ == seq![0u32]
    &&& cm.gates_sequential@ == seq![
        (CompiledGateInput::Input(0u32), CompiledGateInput::Input(1u32)),
    ]
    &&& cm.gates_symmetry@ == Seq::<(CompiledGateInput, CompiledGateInput)>::empty()
}

/// Whether the entries of a growing table flatten, entry by entry, the named
/// modules of a file: the primitive `nor` becomes its one-gate base form,
/// and every other name's module flattens against everything before it.
pub open spec fn spec_expansion_chain(
    ast: File,
    order: Seq<Seq<char>>,
    memo: Seq<CompiledModule>,
) -> bool {
    &&& memo.len() == order.len()
    &&& forall|i: int|
        0 <= i < order.len() && order[i] == "nor"@ ==> is_nor_base(#[trigger] memo[i])
    &&& forall|i: int|
        0 <= i < order.len() && order[i] != "nor"@ ==> (#[trigger] spec_find_ast_module(
            ast.components@,
            order[i],
        )) is Some
    &&& forall|i: int|
        0 <= i < order.len() && order[i] != "nor"@ ==> is_expansion_of(
            #[trigger] memo[i],
            spec_find_ast_module(ast.components@, order[i])->Some_0,
            memo.take(i),
        )
    &&& forall|i: int|
        0 <= i < order.len() && order[i] != "nor"@ ==> spec_expandable(
            spec_find_ast_module(ast.components@, order[i])->Some_0,
            #[trigger] memo.take(i),
        )
}

/// Whether the whole run can succeed: some table flattens every named
/// module in order. Any two such tables agree on everything visible, so
/// this is the run's exact success condition.
pub open spec fn spec_expansion_possible(ast: File, order: Seq<Seq<char>>) -> bool {
    exists|memo: Seq<CompiledModule>| spec_expansion_chain(ast, order, memo)
}

/// The first module of the file with this name, if any.
pub open spec fn spec_find_ast_module(cs: Seq<Component>, name: Seq<char>) -> Option<Module>
    decreases cs.len(),
{
    if cs.len() == 0 {
        None
    } else {
        match cs.first() {
            Component::Module(m) => if m.name@ == name {
                Some(m)
            } else {
                spec_find_ast_module(cs.drop_first(), name)
            },
            _ => spec_find_ast_module(cs.drop_first(), name),
        }
    }
}

/// Skipping components that are not a module with this name leaves the
/// search unchanged.
proof fn lemma_find_ast_module_skip(cs: Seq<Component>, name: Seq<char>, i: int)
    requires
        0 <= i <= cs.len(),
        forall|j: int|
            0 <= j < i ==> match #[trigger] cs[j] {
                Component::Module(m) => m.name@ != name,
                _ => true,
            },
    ensures
        spec_find_ast_module(cs, name) == spec_find_ast_module(cs.skip(i), name),
    decreases i,
{
    if i > 0 {
        lemma_find_ast_module_skip(cs.drop_first(), name, i - 1);
        assert(cs.drop_first().skip(i - 1) =~= cs.skip(i));
        assert(forall|j: int|
            0 <= j < i - 1 ==> match #[trigger] cs.drop_first()[j] {
                Component::Module(m) => m.name@ != name,
                _ => true,
            }) by {
            assert(forall|j: int| 0 <= j < i - 1 ==> cs.drop_first()[j] == cs[j + 1]);
        }
    } else {
        assert(cs.skip(0) =~= cs);
    }
}

/// Linear search of the file for a module definition, first match wins.
fn find_ast_module<'a>(ast: &'a File, name: &str) -> (r: Option<&'a Module>)
    ensures
        r matches Some(m) ==> spec_find_ast_module(ast.components@, name@) == Some(*m),
        r is None ==> spec_find_ast_module(ast.components@, name@) is None,
{
    let n = ast.components.len();
    let mut i: usize = 0;
    while i < n
        invariant
            i <= n,
            n == ast.components@.len(),
            forall|j: int|
                0 <= j < i ==> match #[trigger] ast.components@[j] {
                    Component::Module(m) => m.name@ != name@,
                    _ => true,
                },
        decreases n - i,
    {
        match &ast.components[i] {
            Component::Module(m) => {
                if str_eq(m.name.as_str(), name) {
                    proof {
                        lemma_find_ast_module_skip(ast.components@, name@, i as int);
                        assert(ast.components@.skip(i as int).first() == ast.components@[i as int]);
                    }
                    return Some(m);
                }
            },
            _ => {},
        }
        i = i + 1;
    }
    proof {
        lemma_find_ast_module_skip(ast.components@, name@, n as int);
        assert(ast.components@.skip(n as int) =~= Seq::<Component>::empty());
    }
    None
}

/// Skipping entries whose name does not match leaves the table search
/// unchanged.
pub proof fn lemma_find_compiled_skip(ms: Seq<CompiledModule>, name: Seq<char>, i: int)
    requires
        0 <= i <= ms.len(),
        forall|j: int| 0 <= j < i ==> (#[trigger] ms[j]).name@ != name,
    ensures
        spec_find_compiled(ms, name) == spec_find_compiled(ms.skip(i), name),
    decreases i,
{
    if i > 0 {
        lemma_find_compiled_skip(ms.drop_first(), name, i - 1);
        assert(ms.drop_first().skip(i - 1) =~= ms.skip(i));
        assert(forall|j: int| 0 <= j < i - 1 ==> (#[trigger] ms.drop_first()[j]).name@ != name) by {
            assert(forall|j: int| 0 <= j < i - 1 ==> ms.drop_first()[j] == ms[j + 1]);
        }
    } else {
        assert(ms.skip(0) =~= ms);
    }
}

/// Linear search of the flattened-module table, first match wins.
fn find_compiled_idx(memo: &Vec<CompiledModule>, name: &str) -> (r: Option<usize>)
    ensures
        r matches Some(i) ==> i < memo@.len() && spec_find_compiled(memo@, name@) == Some(
            memo@[i as int],
        ),
        r is None ==> spec_find_compiled(memo@, name@) is None,
{
    let n = memo.len();
    let mut i: usize = 0;
    while i < n
        invariant
            i <= n,
            n == memo@.len(),
            forall|j: int| 0 <= j < i ==> (#[trigger] memo@[j]).name@ != name@,
        decreases n - i,
    {
        if str_eq(memo[i].name.as_str(), name) {
            proof {
                lemma_find_compiled_skip(memo@, name@, i as int);
                assert(memo@.skip(i as int).first() == memo@[i as int]);
            }
            return Some(i);
        }
        i = i + 1;
    }
    proof {
        lemma_find_compiled_skip(memo@, name@, n as int);
        assert(memo@.skip(n as int) =~= Seq::<CompiledModule>::empty());
    }
    None
}

/// The view of a name-to-cell table.
pub open spec fn om_views(v: Seq<(String, CompiledGateInput)>) -> Seq<
    (Seq<char>, CompiledGateInput),
> {
    v.map_values(|p: (String, CompiledGateInput)| (p.0@, p.1))
}

/// Table lookup: scans from the end so the latest entry for a name wins.
fn om_get(om: &Vec<(String, CompiledGateInput)>, name: &str) -> (r: Option<CompiledGateInput>)
    ensures
        r == assoc_last(om_views(om@), name@),
{
    let n = om.len();
    let mut i: usize = n;
    proof {
        assert(om_views(om@).take(n as int) =~= om_views(om@));
    }
    while i > 0
        invariant
            i <= n,
            n == om@.len(),
            assoc_last(om_views(om@), name@) == assoc_last(
                om_views(om@).take(i as int),
                name@,
            ),
        decreases i,
    {
        proof {
            assert(om_views(om@).take(i as int).last() == (om@[i - 1].0@, om@[i - 1].1));
            assert(om_views(om@).take(i as int).drop_last() =~= om_views(om@).take(i - 1));
        }
        if str_eq(om[i - 1].0.as_str(), name) {
            return Some(om[i - 1].1);
        }
        i = i - 1;
    }
    proof {
        assert(om_views(om@).take(0) =~= Seq::<(Seq<char>, CompiledGateInput)>::empty());
    }
    None
}

/// Every lookup answer comes from some table entry.
proof fn lemma_assoc_last_member(
    om: Seq<(Seq<char>, CompiledGateInput)>,
    name: Seq<char>,
    v: CompiledGateInput,
)
    requires
        assoc_last(om, name) == Some(v),
    ensures
        exists|i: int| 0 <= i < om.len() && om[i] == (name, v),
    decreases om.len(),
{
    if om.last().0 == name {
        assert(om[om.len() - 1] == (name, v));
    } else {
        lemma_assoc_last_member(om.drop_last(), name, v);
        let i = choose|i: int| 0 <= i < om.drop_last().len() && om.drop_last()[i] == (name, v);
        assert(om[i] == (name, v));
    }
}

/// Whatever an input identifier resolves to as an `Input` cell names one of
/// the module's declared inputs.
proof fn lemma_om_input_bound(m: Module, ms: Seq<CompiledModule>, name: Seq<char>, v: u32)
    requires
        assoc_last(spec_om(m, ms), name) == Some(CompiledGateInput::Input(v)),
    ensures
        (v as int) < m.inputs@.len(),
{
    lemma_assoc_last_member(spec_om(m, ms), name, CompiledGateInput::Input(v));
    let i = choose|i: int|
        0 <= i < spec_om(m, ms).len() && spec_om(m, ms)[i] == (
            name,
            CompiledGateInput::Input(v),
        );
    let gates_part = spec_om_gates(m, ms, m.gates@.len() as int);
    if i < gates_part.len() {
        lemma_om_gates_all_norgate(m, ms, m.gates@.len() as int, i);
        assert(false);
    }
}

/// Every entry contributed by a call maps to a NOR cell, never to an
/// input.
proof fn lemma_om_gates_all_norgate(m: Module, ms: Seq<CompiledModule>, n: int, i: int)
    requires
        0 <= i < spec_om_gates(m, ms, n).len(),
    ensures
        spec_om_gates(m, ms, n)[i].1 is NorGate,
    decreases n,
{
    if n > 0 {
        if i < spec_om_gates(m, ms, n - 1).len() {
            lemma_om_gates_all_norgate(m, ms, n - 1, i);
        }
    }
}

/// Flattens one module against the table of already flattened callees:
/// copies each callee's gate list at its call site with gate indices
/// shifted, binds the call's output names to the copied cells, resolves
/// every identifier through the resulting table, and resolves the module's
/// own outputs last. Fails, reporting at least one message, exactly when a
/// callee is missing or mismatched, a copied reference cannot be
/// represented, the layout outgrows the word format, or an identifier
/// resolves to nothing.
#[verifier::rlimit(100)]
#[verifier::spinoff_prover]
fn expand_module(module: &Module, memo: &Vec<CompiledModule>) -> (r: Result<
    CompiledModule,
    Vec<String>,
>)
    ensures
        r is Ok <==> spec_expandable(*module, memo@),
        r matches Ok(cm) ==> is_expansion_of(cm, *module, memo@),
        r matches Err(e) ==> e@.len() >= 1,
{
    let ghost m = *module;
    let ghost ms = memo@;
    let gn = module.gates.len();
    // Callees and arity.
    let mut errors: Vec<String> = Vec::new();
    let mut g: usize = 0;
    while g < gn
        invariant
            g <= gn,
            gn == m.gates@.len(),
            m == *module,
            ms == memo@,
            errors@.len() == 0 <==> (forall|t: int|
                0 <= t < g ==> spec_find_compiled(ms, (#[trigger] m.gates@[t]).module_name@)
                    is Some && m.gates@[t].inputs@.len() == spec_callee(m, ms, t).inputs as int
                    && m.gates@[t].outputs@.len() == spec_callee(m, ms, t).outputs@.len()),
        decreases gn - g,
    {
        let gate = &module.gates[g];
        match find_compiled_idx(memo, gate.module_name.as_str()) {
            Some(ci) => {
                if gate.inputs.len() != memo[ci].inputs as usize || gate.outputs.len()
                    != memo[ci].outputs.len() {
                    errors.push(
                        concat2("Used module with unmatched type: ", gate.module_name.as_str()),
                    );
                }
            },
            None => {
                errors.push(concat2("Undefined gate used: ", gate.module_name.as_str()));
            },
        }
        g = g + 1;
    }
    if errors.len() > 0 {
        return Err(errors);
    }
    proof {
        assert(spec_callees_known(m, ms));
        assert(spec_arity_ok(m, ms));
    }
    // Resolve each call to its table entry.
    let mut callee_idx: Vec<usize> = Vec::new();
    let mut g2: usize = 0;
    while g2 < gn
        invariant
            g2 <= gn,
            gn == m.gates@.len(),
            m == *module,
            ms == memo@,
            spec_callees_known(m, ms),
            callee_idx@.len() == g2,
            forall|t: int|
                0 <= t < g2 ==> (#[trigger] callee_idx@[t]) < ms.len() && ms[callee_idx@[t] as int]
                    == spec_callee(m, ms, t),
        decreases gn - g2,
    {
        match find_compiled_idx(memo, module.gates[g2].module_name.as_str()) {
            Some(ci) => {
                callee_idx.push(ci);
            },
            None => {
                proof {
                    assert(false);
                }
            },
        }
        g2 = g2 + 1;
    }
    // Gate counts and the pointer of each call.
    let mut ptrs: Vec<u32> = Vec::new();
    let mut acc: u64 = 0;
    let mut g3: usize = 0;
    while g3 < gn
        invariant
            g3 <= gn,
            gn == m.gates@.len(),
            m == *module,
            ms == memo@,
            spec_callees_known(m, ms),
            callee_idx@.len() == gn,
            forall|t: int|
                0 <= t < gn ==> (#[trigger] callee_idx@[t]) < ms.len() && ms[callee_idx@[t] as int]
                    == spec_callee(m, ms, t),
            acc as int == spec_ptr(m, ms, g3 as int),
            acc <= u32::MAX as u64,
            ptrs@.len() == g3,
            forall|t: int| 0 <= t < g3 ==> (#[trigger] ptrs@[t]) as int == spec_ptr(m, ms, t),
        decreases gn - g3,
    {
        ptrs.push(acc as u32);
        let clen = memo[callee_idx[g3]].gates_sequential.len();
        if clen as u64 > u32::MAX as u64 {
            proof {
                lemma_ptr_bound(m, ms, g3 + 1 as int);
                assert(spec_ptr(m, ms, g3 + 1 as int) > u32::MAX as int);
                assert(!spec_size_ok(m, ms));
            }
            let mut errs: Vec<String> = Vec::new();
            errs.push(concat2("Module is too large: ", module.name.as_str()));
            return Err(errs);
        }
        acc = acc + clen as u64;
        if acc > u32::MAX as u64 {
            proof {
                lemma_ptr_bound(m, ms, g3 + 1 as int);
                assert(!spec_size_ok(m, ms));
            }
            let mut errs: Vec<String> = Vec::new();
            errs.push(concat2("Module is too large: ", module.name.as_str()));
            return Err(errs);
        }
        g3 = g3 + 1;
    }
    let total_gates: u32 = acc as u32;
    let in_count = module.inputs.len();
    if in_count as u64 > u32::MAX as u64 || acc + in_count as u64 > u32::MAX as u64 {
        let mut errs: Vec<String> = Vec::new();
        errs.push(concat2("Module is too large: ", module.name.as_str()));
        return Err(errs);
    }
    proof {
        assert(spec_size_ok(m, ms));
    }
    // The name-to-cell table.
    let mut om: Vec<(String, CompiledGateInput)> = Vec::new();
    let mut g4: usize = 0;
    while g4 < gn
        invariant
            g4 <= gn,
            gn == m.gates@.len(),
            m == *module,
            ms == memo@,
            spec_callees_known(m, ms),
            spec_arity_ok(m, ms),
            spec_size_ok(m, ms),
            callee_idx@.len() == gn,
            forall|t: int|
                0 <= t < gn ==> (#[trigger] callee_idx@[t]) < ms.len() && ms[callee_idx@[t] as int]
                    == spec_callee(m, ms, t),
            ptrs@.len() == gn,
            forall|t: int| 0 <= t < gn ==> (#[trigger] ptrs@[t]) as int == spec_ptr(m, ms, t),
            om_views(om@) == spec_om_gates(m, ms, g4 as int),
            forall|t: int, j: int|
                0 <= t < g4 && 0 <= j < spec_callee(m, ms, t).outputs@.len() ==> spec_ptr(m, ms, t)
                    + (#[trigger] spec_callee(m, ms, t).outputs@[j]) <= u32::MAX as int,
        decreases gn - g4,
    {
        let gate = &module.gates[g4];
        let ci = callee_idx[g4];
        let pointer = ptrs[g4];
        let on = memo[ci].outputs.len();
        let mut j: usize = 0;
        while j < on
            invariant
                j <= on,
                g4 < gn,
                gn == m.gates@.len(),
                m == *module,
                ms == memo@,
                spec_callees_known(m, ms),
                spec_arity_ok(m, ms),
                *gate == m.gates@[g4 as int],
                m.gates@[g4 as int].outputs@.len() == on,
                ci < ms.len(),
                ms[ci as int] == spec_callee(m, ms, g4 as int),
                on == spec_callee(m, ms, g4 as int).outputs@.len(),
                pointer as int == spec_ptr(m, ms, g4 as int),
                om_views(om@) == spec_om_gates(m, ms, g4 as int) + spec_om_gate(
                    m.gates@[g4 as int],
                    spec_callee(m, ms, g4 as int),
                    spec_ptr(m, ms, g4 as int),
                ).take(j as int),
                forall|j2: int|
                    0 <= j2 < j ==> spec_ptr(m, ms, g4 as int) + (#[trigger] spec_callee(
                        m,
                        ms,
                        g4 as int,
                    ).outputs@[j2]) <= u32::MAX as int,
            decreases on - j,
        {
            let out_idx = memo[ci].outputs[j];
            let v = match pointer.checked_add(out_idx) {
                Some(v) => v,
                None => {
                    proof {
                        assert(spec_ptr(m, ms, g4 as int) + spec_callee(m, ms, g4 as int).outputs@[
                        j as int] > u32::MAX as int);
                        assert(!spec_om_fit(m, ms));
                    }
                    let mut errs: Vec<String> = Vec::new();
                    errs.push(concat2("Module is too large: ", module.name.as_str()));
                    return Err(errs);
                },
            };
            let ghost om_old = om@;
            om.push((gate.outputs[j].clone(), CompiledGateInput::NorGate(v)));
            proof {
                let b = spec_om_gate(
                    m.gates@[g4 as int],
                    spec_callee(m, ms, g4 as int),
                    spec_ptr(m, ms, g4 as int),
                );
                assert(om_views(om@) =~= om_views(om_old).push((
                    om@.last().0@,
                    om@.last().1,
                )));
                assert(om@.last().0@ == m.gates@[g4 as int].outputs@[j as int]@);
                assert(b[j as int] == (
                    m.gates@[g4 as int].outputs@[j as int]@,
                    CompiledGateInput::NorGate(
                        (spec_ptr(m, ms, g4 as int) + spec_callee(m, ms, g4 as int).outputs@[
                        j as int]) as u32,
                    ),
                ));
                assert(om@.last().1 == b[j as int].1);
                assert(b.take(j + 1 as int) =~= b.take(j as int).push(b[j as int]));
                assert(om_views(om@) =~= spec_om_gates(m, ms, g4 as int) + b.take(j + 1 as int));
            }
            j = j + 1;
        }
        proof {
            assert(spec_om_gate(
                m.gates@[g4 as int],
                spec_callee(m, ms, g4 as int),
                spec_ptr(m, ms, g4 as int),
            ).take(on as int) =~= spec_om_gate(
                m.gates@[g4 as int],
                spec_callee(m, ms, g4 as int),
                spec_ptr(m, ms, g4 as int),
            ));
        }
        g4 = g4 + 1;
    }
    let mut k: usize = 0;
    while k < in_count
        invariant
            k <= in_count,
            in_count == m.inputs@.len(),
            in_count <= u32::MAX as usize,
            m == *module,
            ms == memo@,
            om_views(om@) == spec_om_gates(m, ms, m.gates@.len() as int) + Seq::new(
                k as nat,
                |k2: int| (m.inputs@[k2]@, CompiledGateInput::Input(k2 as u32)),
            ),
        decreases in_count - k,
    {
        let ghost om_old = om@;
        om.push((module.inputs[k].clone(), CompiledGateInput::Input(k as u32)));
        proof {
            let b = Seq::new(
                (k + 1) as nat,
                |k2: int| (m.inputs@[k2]@, CompiledGateInput::Input(k2 as u32)),
            );
            let b0 = Seq::new(
                k as nat,
                |k2: int| (m.inputs@[k2]@, CompiledGateInput::Input(k2 as u32)),
            );
            assert(om_views(om@) =~= om_views(om_old).push((om@.last().0@, om@.last().1)));
            assert(om@.last().0@ == m.inputs@[k as int]@);
            assert(om@.last().1 == CompiledGateInput::Input(k as u32));
            assert(b[k as int] == (m.inputs@[k as int]@, CompiledGateInput::Input(k as u32)));
            assert(b =~= b0.push(b[k as int]));
            assert(om_views(om@) =~= spec_om_gates(m, ms, m.gates@.len() as int) + b);
        }
        k = k + 1;
    }
    proof {
        assert(om_views(om@) =~= spec_om(m, ms));
        assert(spec_om_fit(m, ms));
    }
    // Copy and resolve every callee gate, keeping one message per
    // reference that cannot be represented or resolved: the whole module is
    // reported at once.
    let mut res_errors: Vec<String> = Vec::new();
    let mut expanded: Vec<CompiledGate> = Vec::new();
    let mut g5: usize = 0;
    while g5 < gn
        invariant
            g5 <= gn,
            gn == m.gates@.len(),
            m == *module,
            ms == memo@,
            spec_callees_known(m, ms),
            spec_arity_ok(m, ms),
            spec_size_ok(m, ms),
            spec_om_fit(m, ms),
            om_views(om@) == spec_om(m, ms),
            callee_idx@.len() == gn,
            forall|t: int|
                0 <= t < gn ==> (#[trigger] callee_idx@[t]) < ms.len() && ms[callee_idx@[t] as int]
                    == spec_callee(m, ms, t),
            ptrs@.len() == gn,
            forall|t: int| 0 <= t < gn ==> (#[trigger] ptrs@[t]) as int == spec_ptr(m, ms, t),
            res_errors@.len() == 0 ==> expanded@ == spec_expanded_gates(m, ms, g5 as int),
            res_errors@.len() == 0 <==> (forall|t: int, e: int|
                0 <= t < g5 && 0 <= e < spec_callee(m, ms, t).gates_sequential@.len() ==> {
                    let egate = #[trigger] spec_callee(m, ms, t).gates_sequential@[e];
                    &&& spec_ref_fits(m, ms, t, egate.0)
                    &&& spec_ref_fits(m, ms, t, egate.1)
                    &&& spec_ref_resolves(m, ms, t, egate.0)
                    &&& spec_ref_resolves(m, ms, t, egate.1)
                }),
        decreases gn - g5,
    {
        let gate = &module.gates[g5];
        let ci = callee_idx[g5];
        let pointer = ptrs[g5];
        let en = memo[ci].gates_sequential.len();
        let mut e: usize = 0;
        while e < en
            invariant
                e <= en,
                g5 < gn,
                gn == m.gates@.len(),
                m == *module,
                ms == memo@,
                spec_callees_known(m, ms),
                spec_arity_ok(m, ms),
                *gate == m.gates@[g5 as int],
                om_views(om@) == spec_om(m, ms),
                ci < ms.len(),
                ms[ci as int] == spec_callee(m, ms, g5 as int),
                en == spec_callee(m, ms, g5 as int).gates_sequential@.len(),
                pointer as int == spec_ptr(m, ms, g5 as int),
                res_errors@.len() == 0 ==> expanded@ == spec_expanded_gates(m, ms, g5 as int)
                    + Seq::new(
                    e as nat,
                    |e2: int|
                        (
                            spec_resolve_ref(
                                m,
                                ms,
                                g5 as int,
                                spec_callee(m, ms, g5 as int).gates_sequential@[e2].0,
                            ),
                            spec_resolve_ref(
                                m,
                                ms,
                                g5 as int,
                                spec_callee(m, ms, g5 as int).gates_sequential@[e2].1,
                            ),
                        ),
                ),
                res_errors@.len() == 0 <==> ((forall|t: int, e2: int|
                    0 <= t < g5 && 0 <= e2 < spec_callee(m, ms, t).gates_sequential@.len() ==> {
                        let egate = #[trigger] spec_callee(m, ms, t).gates_sequential@[e2];
                        &&& spec_ref_fits(m, ms, t, egate.0)
                        &&& spec_ref_fits(m, ms, t, egate.1)
                        &&& spec_ref_resolves(m, ms, t, egate.0)
                        &&& spec_ref_resolves(m, ms, t, egate.1)
                    }) && (forall|e2: int|
                    0 <= e2 < e ==> {
                        let egate = #[trigger] spec_callee(
                            m,
                            ms,
                            g5 as int,
                        ).gates_sequential@[e2];
                        &&& spec_ref_fits(m, ms, g5 as int, egate.0)
                        &&& spec_ref_fits(m, ms, g5 as int, egate.1)
                        &&& spec_ref_resolves(m, ms, g5 as int, egate.0)
                        &&& spec_ref_resolves(m, ms, g5 as int, egate.1)
                    })),
            decreases en - e,
        {
            let egate = memo[ci].gates_sequential[e];
            let r0 = resolve_ref(module, &om, gate, pointer, egate.0, Ghost(m), Ghost(ms), Ghost(g5 as int));
            let r1 = resolve_ref(module, &om, gate, pointer, egate.1, Ghost(m), Ghost(ms), Ghost(g5 as int));
            match (r0, r1) {
                (Ok(v0), Ok(v1)) => {
                    if res_errors.len() == 0 {
                        expanded.push((v0, v1));
                        proof {
                            assert(expanded@ =~= spec_expanded_gates(m, ms, g5 as int) + Seq::new(
                                (e + 1) as nat,
                                |e2: int|
                                    (
                                        spec_resolve_ref(
                                            m,
                                            ms,
                                            g5 as int,
                                            spec_callee(m, ms, g5 as int).gates_sequential@[e2].0,
                                        ),
                                        spec_resolve_ref(
                                            m,
                                            ms,
                                            g5 as int,
                                            spec_callee(m, ms, g5 as int).gates_sequential@[e2].1,
                                        ),
                                    ),
                            ));
                        }
                    }
                },
                (r0m, r1m) => {
                    match r0m {
                        Err(msg) => {
                            res_errors.push(msg);
                        },
                        Ok(_) => {},
                    }
                    match r1m {
                        Err(msg) => {
                            res_errors.push(msg);
                        },
                        Ok(_) => {},
                    }
                },
            }
            e = e + 1;
        }
        proof {
            if res_errors@.len() == 0 {
                assert(spec_expanded_gates(m, ms, g5 + 1 as int) =~= spec_expanded_gates(
                    m,
                    ms,
                    g5 as int,
                ) + Seq::new(
                    en as nat,
                    |e2: int|
                        (
                            spec_resolve_ref(
                                m,
                                ms,
                                g5 as int,
                                spec_callee(m, ms, g5 as int).gates_sequential@[e2].0,
                            ),
                            spec_resolve_ref(
                                m,
                                ms,
                                g5 as int,
                                spec_callee(m, ms, g5 as int).gates_sequential@[e2].1,
                            ),
                        ),
                ));
            }
        }
        g5 = g5 + 1;
    }
    // The module's own outputs, with the same per-offence accounting.
    let out_n = module.outputs.len();
    let mut outputs_resolved: Vec<u32> = Vec::new();
    let mut o: usize = 0;
    while o < out_n
        invariant
            o <= out_n,
            out_n == m.outputs@.len(),
            m == *module,
            ms == memo@,
            spec_size_ok(m, ms),
            om_views(om@) == spec_om(m, ms),
            total_gates as int == spec_total_gates(m, ms),
            res_errors@.len() == 0 ==> outputs_resolved@ == spec_resolved_outputs(m, ms).take(
                o as int,
            ),
            res_errors@.len() == 0 <==> ((forall|t: int, e2: int|
                0 <= t < gn && 0 <= e2 < spec_callee(m, ms, t).gates_sequential@.len() ==> {
                    let egate = #[trigger] spec_callee(m, ms, t).gates_sequential@[e2];
                    &&& spec_ref_fits(m, ms, t, egate.0)
                    &&& spec_ref_fits(m, ms, t, egate.1)
                    &&& spec_ref_resolves(m, ms, t, egate.0)
                    &&& spec_ref_resolves(m, ms, t, egate.1)
                }) && (forall|o2: int|
                0 <= o2 < o ==> assoc_last(spec_om(m, ms), (#[trigger] m.outputs@[o2])@) is Some)),
            gn == m.gates@.len(),
        decreases out_n - o,
    {
        match om_get(&om, module.outputs[o].as_str()) {
            Some(solved) => {
                if res_errors.len() == 0 {
                    let checked: u32 = match solved {
                        CompiledGateInput::NorGate(v) => v,
                        CompiledGateInput::Input(v) => {
                            proof {
                                lemma_om_input_bound(m, ms, m.outputs@[o as int]@, v);
                            }
                            v + total_gates
                        },
                    };
                    outputs_resolved.push(checked);
                    proof {
                        assert(outputs_resolved@ =~= spec_resolved_outputs(m, ms).take(
                            o + 1 as int,
                        ));
                    }
                }
            },
            None => {
                res_errors.push(
                    concat2("Undefined gate used in output: ", module.outputs[o].as_str()),
                );
            },
        }
        o = o + 1;
    }
    if res_errors.len() > 0 {
        proof {
            if spec_expandable(m, ms) {
                assert(res_errors@.len() == 0);
            }
        }
        return Err(res_errors);
    }
    proof {
        assert(spec_expanded_gates(m, ms, gn as int) == spec_expanded_gates(
            m,
            ms,
            m.gates@.len() as int,
        ));
        assert(spec_refs_fit(m, ms));
        assert(spec_resolved_outputs(m, ms).take(out_n as int) =~= spec_resolved_outputs(m, ms));
        assert(spec_resolvable(m, ms));
        assert(spec_expandable(m, ms));
    }
    Ok(
        CompiledModule {
            func: module.func,
            name: module.name.clone(),
            inputs: in_count as u32,
            outputs: outputs_resolved,
            gates_sequential: expanded,
            gates_symmetry: Vec::new(),
        },
    )
}

/// Flattens every module of the given order, dependencies first, into pure
/// NOR netlists. The primitive `nor` seeds the table; every other name's
/// module is looked up in the file and flattened against the table built so
/// far. A module that fails is skipped, its messages are kept, and the whole
/// run fails once every module has been tried — which happens exactly when
/// no table at all could flatten every named module.
pub fn module_expansion(ast: &File, modules: &Vec<String>) -> (r: Result<
    Vec<CompiledModule>,
    Vec<String>,
>)
    ensures
        r is Ok <==> spec_expansion_possible(*ast, crate::text::views_of_strings(modules@)),
        r matches Ok(memo) ==> spec_expansion_chain(
            *ast,
            crate::text::views_of_strings(modules@),
            memo@,
        ),
        r matches Err(e) ==> e@.len() >= 1,
{
    let ghost order = crate::text::views_of_strings(modules@);
    let mut errors: Vec<String> = Vec::new();
    let mut memo: Vec<CompiledModule> = Vec::new();
    let n = modules.len();
    let mut i: usize = 0;
    while i < n
        invariant
            i <= n,
            n == modules@.len(),
            order == crate::text::views_of_strings(modules@),
            errors@.len() == 0 ==> memo@.len() == i && (forall|t: int|
                0 <= t < i && order[t] == "nor"@ ==> is_nor_base(#[trigger] memo@[t])) && (
            forall|t: int|
                0 <= t < i && order[t] != "nor"@ ==> (#[trigger] spec_find_ast_module(
                    ast.components@,
                    order[t],
                )) is Some) && (forall|t: int|
                0 <= t < i && order[t] != "nor"@ ==> is_expansion_of(
                    #[trigger] memo@[t],
                    spec_find_ast_module(ast.components@, order[t])->Some_0,
                    memo@.take(t),
                )) && (forall|t: int|
                0 <= t < i && order[t] != "nor"@ ==> spec_expandable(
                    spec_find_ast_module(ast.components@, order[t])->Some_0,
                    #[trigger] memo@.take(t),
                )),
            errors@.len() > 0 ==> !spec_expansion_possible(*ast, order),
        decreases n - i,
    {
        let ghost memo_old = memo@;
        let ghost was_clean = errors@.len() == 0;
        let name = &modules[i];
        if str_eq(name.as_str(), "nor") {
            let mut nor_outputs: Vec<u32> = Vec::new();
            nor_outputs.push(0);
            let mut nor_gates: Vec<CompiledGate> = Vec::new();
            nor_gates.push((CompiledGateInput::Input(0), CompiledGateInput::Input(1)));
            memo.push(
                CompiledModule {
                    func: true,
                    name: string_of("nor"),
                    inputs: 2,
                    outputs: nor_outputs,
                    gates_sequential: nor_gates,
                    gates_symmetry: Vec::new(),
                },
            );
            proof {
                assert(memo@.last().outputs@ =~= seq![0u32]);
                assert(memo@.last().gates_sequential@ =~= seq![
                    (CompiledGateInput::Input(0u32), CompiledGateInput::Input(1u32)),
                ]);
                assert(memo@.last().gates_symmetry@ =~= Seq::<CompiledGate>::empty());
                assert(is_nor_base(memo@.last()));
            }
        } else {
            match find_ast_module(ast, name.as_str()) {
                None => {
                    errors.push(concat2("Undefined module used: ", name.as_str()));
                    proof {
                        if was_clean {
                            assert(order[i as int] == modules@[i as int]@);
                            lemma_failure_refutes_chain(*ast, order, i as int, memo@);
                        }
                    }
                },
                Some(module) => {
                    match expand_module(module, &memo) {
                        Ok(cm) => {
                            proof {
                                assert(is_expansion_of(cm, *module, memo@));
                                assert(spec_expandable(*module, memo@));
                            }
                            memo.push(cm);
                        },
                        Err(mut es) => {
                            proof {
                                if was_clean {
                                    assert(order[i as int] == modules@[i as int]@);
                                    assert(spec_find_ast_module(ast.components@, order[i as int])
                                        == Some(*module));
                                    assert(!spec_expandable(*module, memo@));
                                    lemma_failure_refutes_chain(*ast, order, i as int, memo@);
                                }
                            }
                            errors.append(&mut es);
                        },
                    }
                },
            }
        }
        proof {
            if errors@.len() == 0 {
                assert(order[i as int] == modules@[i as int]@);
                assert(memo@.take(i as int) =~= memo_old);
                assert forall|t: int|
                    0 <= t < i + 1 && order[t] == "nor"@ implies is_nor_base(
                    #[trigger] memo@[t],
                ) by {
                    if t < i {
                        assert(memo@[t] == memo_old[t]);
                    } else {
                        assert(memo@[t] == memo@.last());
                    }
                }
                assert forall|t: int|
                    0 <= t < i + 1 && order[t] != "nor"@ implies (
                #[trigger] spec_find_ast_module(ast.components@, order[t])) is Some by {
                    if t == i {
                        assert(order[t] == modules@[i as int]@);
                    }
                }
                assert forall|t: int|
                    0 <= t < i + 1 && order[t] != "nor"@ implies is_expansion_of(
                    #[trigger] memo@[t],
                    spec_find_ast_module(ast.components@, order[t])->Some_0,
                    memo@.take(t),
                ) by {
                    if t < i {
                        assert(memo@[t] == memo_old[t]);
                        assert(memo@.take(t) =~= memo_old.take(t));
                        assert(spec_find_ast_module(ast.components@, order[t]) is Some);
                        assert(is_expansion_of(
                            memo_old[t],
                            spec_find_ast_module(ast.components@, order[t])->Some_0,
                            memo_old.take(t),
                        ));
                    } else {
                        assert(memo@[t] == memo@.last());
                        assert(spec_find_ast_module(ast.components@, order[t]) is Some);
                        assert(is_expansion_of(
                            memo@[t],
                            spec_find_ast_module(ast.components@, order[t])->Some_0,
                            memo@.take(t),
                        ));
                    }
                }
                assert forall|t: int|
                    0 <= t < i + 1 && order[t] != "nor"@ implies spec_expandable(
                    spec_find_ast_module(ast.components@, order[t])->Some_0,
                    #[trigger] memo@.take(t),
                ) by {
                    if t < i {
                        assert(memo@.take(t) =~= memo_old.take(t));
                        assert(spec_expandable(
                            spec_find_ast_module(ast.components@, order[t])->Some_0,
                            memo_old.take(t),
                        ));
                    } else {
                        assert(memo@.take(t) =~= memo_old);
                        assert(spec_expandable(
                            spec_find_ast_module(ast.components@, order[t])->Some_0,
                            memo_old,
                        ));
                    }
                }
            }
        }
        i = i + 1;
    }
    if errors.len() == 0 {
        proof {
            assert(spec_expansion_chain(*ast, order, memo@));
        }
        Ok(memo)
    } else {
        Err(errors)
    }
}

/// Whether two flattened modules agree on everything the codec and the
/// machine can see: flag, name characters, arity, outputs and gates.
pub open spec fn cm_views_eq(a: CompiledModule, b: CompiledModule) -> bool {
    &&& a.func == b.func
    &&& a.name@ == b.name@
    &&& a.inputs == b.inputs
    &&& a.outputs@ == b.outputs@
    &&& a.gates_sequential@ == b.gates_sequential@
    &&& a.gates_symmetry@ == b.gates_symmetry@
}

/// Whether two tables agree entry by entry on everything visible.
pub open spec fn memo_views_eq(x: Seq<CompiledModule>, y: Seq<CompiledModule>) -> bool {
    &&& x.len() == y.len()
    &&& forall|i: int| 0 <= i < x.len() ==> cm_views_eq(#[trigger] x[i], #[trigger] y[i])
}

/// Table search agrees on view-equal tables.
pub proof fn lemma_find_congruent(x: Seq<CompiledModule>, y: Seq<CompiledModule>, name: Seq<char>)
    requires
        memo_views_eq(x, y),
    ensures
        spec_find_compiled(x, name) is Some <==> spec_find_compiled(y, name) is Some,
        spec_find_compiled(x, name) is Some ==> cm_views_eq(
            spec_find_compiled(x, name)->Some_0,
            spec_find_compiled(y, name)->Some_0,
        ),
    decreases x.len(),
{
    if x.len() > 0 {
        assert(cm_views_eq(x[0], y[0]));
        if x.first().name@ == name {
        } else {
            assert(memo_views_eq(x.drop_first(), y.drop_first())) by {
                assert forall|i: int| 0 <= i < x.drop_first().len() implies cm_views_eq(
                    #[trigger] x.drop_first()[i],
                    #[trigger] y.drop_first()[i],
                ) by {
                    assert(x.drop_first()[i] == x[i + 1]);
                    assert(y.drop_first()[i] == y[i + 1]);
                }
            }
            lemma_find_congruent(x.drop_first(), y.drop_first(), name);
        }
    }
}

/// Gate counting agrees on view-equal tables.
proof fn lemma_ptr_congruent(m: Module, x: Seq<CompiledModule>, y: Seq<CompiledModule>, i: int)
    requires
        memo_views_eq(x, y),
        0 <= i <= m.gates@.len(),
    ensures
        spec_ptr(m, x, i) == spec_ptr(m, y, i),
    decreases i,
{
    if i > 0 {
        lemma_ptr_congruent(m, x, y, i - 1);
        lemma_find_congruent(x, y, m.gates@[i - 1].module_name@);
    }
}

/// The name-to-cell table agrees on view-equal tables.
proof fn lemma_om_congruent(m: Module, x: Seq<CompiledModule>, y: Seq<CompiledModule>, i: int)
    requires
        memo_views_eq(x, y),
        0 <= i <= m.gates@.len(),
    ensures
        spec_om_gates(m, x, i) == spec_om_gates(m, y, i),
    decreases i,
{
    if i > 0 {
        lemma_om_congruent(m, x, y, i - 1);
        lemma_ptr_congruent(m, x, y, i - 1);
        lemma_find_congruent(x, y, m.gates@[i - 1].module_name@);
        assert(spec_om_gate(
            m.gates@[i - 1],
            spec_callee(m, x, i - 1),
            spec_ptr(m, x, i - 1),
        ) =~= spec_om_gate(m.gates@[i - 1], spec_callee(m, y, i - 1), spec_ptr(m, y, i - 1)));
    }
}

/// The emitted gates agree on view-equal tables.
proof fn lemma_expanded_congruent(
    m: Module,
    x: Seq<CompiledModule>,
    y: Seq<CompiledModule>,
    i: int,
)
    requires
        memo_views_eq(x, y),
        0 <= i <= m.gates@.len(),
    ensures
        spec_expanded_gates(m, x, i) == spec_expanded_gates(m, y, i),
    decreases i,
{
    lemma_om_congruent(m, x, y, m.gates@.len() as int);
    assert(spec_om(m, x) == spec_om(m, y));
    if i > 0 {
        lemma_expanded_congruent(m, x, y, i - 1);
        lemma_ptr_congruent(m, x, y, i - 1);
        lemma_find_congruent(x, y, m.gates@[i - 1].module_name@);
        assert(Seq::new(
            spec_callee(m, x, i - 1).gates_sequential@.len(),
            |e: int|
                (
                    spec_resolve_ref(m, x, i - 1, spec_callee(m, x, i - 1).gates_sequential@[e].0),
                    spec_resolve_ref(m, x, i - 1, spec_callee(m, x, i - 1).gates_sequential@[e].1),
                ),
        ) =~= Seq::new(
            spec_callee(m, y, i - 1).gates_sequential@.len(),
            |e: int|
                (
                    spec_resolve_ref(m, y, i - 1, spec_callee(m, y, i - 1).gates_sequential@[e].0),
                    spec_resolve_ref(m, y, i - 1, spec_callee(m, y, i - 1).gates_sequential@[e].1),
                ),
        ));
    }
}

/// Whether a module flattens is decided by the visible part of the table
/// alone: one direction of the congruence.
proof fn lemma_expandable_congruent_fwd(
    m: Module,
    x: Seq<CompiledModule>,
    y: Seq<CompiledModule>,
)
    requires
        memo_views_eq(x, y),
        spec_expandable(m, x),
    ensures
        spec_expandable(m, y),
{
    let gn = m.gates@.len() as int;
    lemma_ptr_congruent(m, x, y, gn);
    lemma_om_congruent(m, x, y, gn);
    assert(spec_om(m, x) == spec_om(m, y));
    assert forall|g: int| 0 <= g < gn implies spec_find_compiled(
        y,
        (#[trigger] m.gates@[g]).module_name@,
    ) is Some && cm_views_eq(spec_callee(m, x, g), spec_callee(m, y, g)) by {
        lemma_find_congruent(x, y, m.gates@[g].module_name@);
    }
    assert(spec_callees_known(m, y));
    assert(spec_arity_ok(m, y));
    assert(spec_size_ok(m, y));
    assert forall|g: int, e: int|
        0 <= g < gn && 0 <= e < spec_callee(m, y, g).gates_sequential@.len() implies {
        let egate = #[trigger] spec_callee(m, y, g).gates_sequential@[e];
        &&& spec_ref_fits(m, y, g, egate.0)
        &&& spec_ref_fits(m, y, g, egate.1)
        &&& spec_ref_resolves(m, y, g, egate.0)
        &&& spec_ref_resolves(m, y, g, egate.1)
    } by {
        lemma_ptr_congruent(m, x, y, g);
        assert(spec_callee(m, y, g).gates_sequential@ == spec_callee(m, x, g).gates_sequential@);
        assert(spec_callee(m, y, g).gates_sequential@[e] == spec_callee(
            m,
            x,
            g,
        ).gates_sequential@[e]);
    }
    assert(spec_refs_fit(m, y));
    assert forall|g: int, j: int|
        0 <= g < gn && 0 <= j < spec_callee(m, y, g).outputs@.len() implies spec_ptr(m, y, g) + (
    #[trigger] spec_callee(m, y, g).outputs@[j]) <= u32::MAX as int by {
        lemma_ptr_congruent(m, x, y, g);
        assert(spec_callee(m, y, g).outputs@ == spec_callee(m, x, g).outputs@);
    }
    assert(spec_om_fit(m, y));
    assert(spec_resolvable(m, y));
}

/// Whether a module flattens is decided by the visible part of the table
/// alone.
proof fn lemma_expandable_congruent(m: Module, x: Seq<CompiledModule>, y: Seq<CompiledModule>)
    requires
        memo_views_eq(x, y),
    ensures
        spec_expandable(m, x) == spec_expandable(m, y),
{
    assert(memo_views_eq(y, x));
    if spec_expandable(m, x) {
        lemma_expandable_congruent_fwd(m, x, y);
    }
    if spec_expandable(m, y) {
        lemma_expandable_congruent_fwd(m, y, x);
    }
}

/// A prefix of a chained table chains the matching prefix of the order.
proof fn lemma_chain_prefix(
    ast: File,
    order: Seq<Seq<char>>,
    memo: Seq<CompiledModule>,
    i: int,
)
    requires
        spec_expansion_chain(ast, order, memo),
        0 <= i <= order.len(),
    ensures
        spec_expansion_chain(ast, order.take(i), memo.take(i)),
{
    assert forall|t: int|
        0 <= t < i && order.take(i)[t] == "nor"@ implies is_nor_base(
        #[trigger] memo.take(i)[t]) by {
        assert(memo.take(i)[t] == memo[t]);
    }
    assert forall|t: int|
        0 <= t < i && order.take(i)[t] != "nor"@ implies (#[trigger] spec_find_ast_module(
        ast.components@,
        order.take(i)[t],
    )) is Some by {
        assert(order.take(i)[t] == order[t]);
    }
    assert forall|t: int|
        0 <= t < i && order.take(i)[t] != "nor"@ implies is_expansion_of(
        #[trigger] memo.take(i)[t],
        spec_find_ast_module(ast.components@, order.take(i)[t])->Some_0,
        memo.take(i).take(t),
    ) by {
        assert(memo.take(i)[t] == memo[t]);
        assert(memo.take(i).take(t) =~= memo.take(t));
        assert(order.take(i)[t] == order[t]);
    }
    assert forall|t: int|
        0 <= t < i && order.take(i)[t] != "nor"@ implies spec_expandable(
        spec_find_ast_module(ast.components@, order.take(i)[t])->Some_0,
        #[trigger] memo.take(i).take(t),
    ) by {
        assert(memo.take(i).take(t) =~= memo.take(t));
        assert(order.take(i)[t] == order[t]);
        assert(spec_expandable(
            spec_find_ast_module(ast.components@, order[t])->Some_0,
            memo.take(t),
        ));
    }
}

/// When a step of the run fails — the name denotes no module of the file,
/// or the module it denotes does not flatten against the table built so far
/// — no table at all can chain the whole order.
proof fn lemma_failure_refutes_chain(
    ast: File,
    order: Seq<Seq<char>>,
    i: int,
    memo: Seq<CompiledModule>,
)
    requires
        0 <= i < order.len(),
        order[i] != "nor"@,
        memo.len() == i,
        forall|t: int|
            0 <= t < i && order[t] == "nor"@ ==> is_nor_base(#[trigger] memo[t]),
        forall|t: int|
            0 <= t < i && order[t] != "nor"@ ==> (#[trigger] spec_find_ast_module(
                ast.components@,
                order[t],
            )) is Some,
        forall|t: int|
            0 <= t < i && order[t] != "nor"@ ==> is_expansion_of(
                #[trigger] memo[t],
                spec_find_ast_module(ast.components@, order[t])->Some_0,
                memo.take(t),
            ),
        forall|t: int|
            0 <= t < i && order[t] != "nor"@ ==> spec_expandable(
                spec_find_ast_module(ast.components@, order[t])->Some_0,
                #[trigger] memo.take(t),
            ),
        spec_find_ast_module(ast.components@, order[i]) is None || !spec_expandable(
            spec_find_ast_module(ast.components@, order[i])->Some_0,
            memo,
        ),
    ensures
        !spec_expansion_possible(ast, order),
{
    if spec_expansion_possible(ast, order) {
        let memo2 = choose|m2: Seq<CompiledModule>| spec_expansion_chain(ast, order, m2);
        assert(spec_find_ast_module(ast.components@, order[i]) is Some);
        let m = spec_find_ast_module(ast.components@, order[i])->Some_0;
        assert(spec_expandable(m, memo2.take(i)));
        // The exec prefix chains too, so the two prefixes agree on
        // everything visible, and failure transfers.
        assert(memo.take(i) =~= memo);
        assert(order.take(i).len() == i);
        assert(spec_expansion_chain(ast, order.take(i), memo)) by {
            assert forall|t: int|
                0 <= t < i && order.take(i)[t] == "nor"@ implies is_nor_base(
                #[trigger] memo[t]) by {
                assert(order.take(i)[t] == order[t]);
            }
            assert forall|t: int|
                0 <= t < i && order.take(i)[t] != "nor"@ implies (
            #[trigger] spec_find_ast_module(ast.components@, order.take(i)[t])) is Some by {
                assert(order.take(i)[t] == order[t]);
            }
            assert forall|t: int|
                0 <= t < i && order.take(i)[t] != "nor"@ implies is_expansion_of(
                #[trigger] memo[t],
                spec_find_ast_module(ast.components@, order.take(i)[t])->Some_0,
                memo.take(t),
            ) by {
                assert(order.take(i)[t] == order[t]);
            }
            assert forall|t: int|
                0 <= t < i && order.take(i)[t] != "nor"@ implies spec_expandable(
                spec_find_ast_module(ast.components@, order.take(i)[t])->Some_0,
                #[trigger] memo.take(t),
            ) by {
                assert(order.take(i)[t] == order[t]);
            }
        }
        lemma_chain_prefix(ast, order, memo2, i);
        lemma_expansion_deterministic(ast, order.take(i), memo, memo2.take(i));
        lemma_expandable_congruent(m, memo, memo2.take(i));
        assert(false);
    }
}

/// Flattening one module gives view-equal results over view-equal tables.
proof fn lemma_expansion_of_congruent(
    cm1: CompiledModule,
    cm2: CompiledModule,
    m: Module,
    x: Seq<CompiledModule>,
    y: Seq<CompiledModule>,
)
    requires
        memo_views_eq(x, y),
        is_expansion_of(cm1, m, x),
        is_expansion_of(cm2, m, y),
    ensures
        cm_views_eq(cm1, cm2),
{
    lemma_om_congruent(m, x, y, m.gates@.len() as int);
    assert(spec_om(m, x) == spec_om(m, y));
    lemma_ptr_congruent(m, x, y, m.gates@.len() as int);
    lemma_expanded_congruent(m, x, y, m.gates@.len() as int);
    assert(spec_resolved_outputs(m, x) =~= spec_resolved_outputs(m, y));
}

/// The flattening run is deterministic: two tables that both chain the same
/// file through the same order agree, entry by entry, on everything the
/// codec and the machine can see. Compiling the same module list twice
/// therefore yields the same netlists.
pub proof fn lemma_expansion_deterministic(
    ast: File,
    order: Seq<Seq<char>>,
    memo1: Seq<CompiledModule>,
    memo2: Seq<CompiledModule>,
)
    requires
        spec_expansion_chain(ast, order, memo1),
        spec_expansion_chain(ast, order, memo2),
    ensures
        memo_views_eq(memo1, memo2),
{
    lemma_chain_deterministic_upto(ast, order, memo1, memo2, order.len() as int);
    assert(memo1.take(order.len() as int) =~= memo1);
    assert(memo2.take(order.len() as int) =~= memo2);
}

/// Compiling the same module list twice yields byte-identical words: when
/// two flattening runs chain the same file through the same order, any
/// module found in one is found in the other and both encode to the same
/// word stream.
pub proof fn lemma_serialization_deterministic(
    ast: File,
    order: Seq<Seq<char>>,
    memo1: Seq<CompiledModule>,
    memo2: Seq<CompiledModule>,
    name: Seq<char>,
)
    requires
        spec_expansion_chain(ast, order, memo1),
        spec_expansion_chain(ast, order, memo2),
        spec_find_compiled(memo1, name) is Some,
    ensures
        spec_find_compiled(memo2, name) is Some,
        crate::codec::spec_encode(spec_find_compiled(memo1, name)->Some_0)
            == crate::codec::spec_encode(spec_find_compiled(memo2, name)->Some_0),
{
    lemma_expansion_deterministic(ast, order, memo1, memo2);
    lemma_find_congruent(memo1, memo2, name);
    let a = spec_find_compiled(memo1, name)->Some_0;
    let b = spec_find_compiled(memo2, name)->Some_0;
    assert(crate::codec::spec_gate_words(
        a.gates_sequential@,
        (a.gates_sequential@.len() + a.gates_symmetry@.len()) as int,
    ) == crate::codec::spec_gate_words(
        b.gates_sequential@,
        (b.gates_sequential@.len() + b.gates_symmetry@.len()) as int,
    ));
    assert(crate::codec::spec_encode(a) =~= crate::codec::spec_encode(b));
}

/// Entry-by-entry induction for `lemma_expansion_deterministic`.
proof fn lemma_chain_deterministic_upto(
    ast: File,
    order: Seq<Seq<char>>,
    memo1: Seq<CompiledModule>,
    memo2: Seq<CompiledModule>,
    i: int,
)
    requires
        spec_expansion_chain(ast, order, memo1),
        spec_expansion_chain(ast, order, memo2),
        0 <= i <= order.len(),
    ensures
        memo_views_eq(memo1.take(i), memo2.take(i)),
    decreases i,
{
    if i > 0 {
        lemma_chain_deterministic_upto(ast, order, memo1, memo2, i - 1);
        let t = i - 1;
        assert(memo1.take(t) =~= memo1.take(i).take(t));
        if order[t] == "nor"@ {
            assert(is_nor_base(memo1[t]) && is_nor_base(memo2[t]));
            assert(cm_views_eq(memo1[t], memo2[t]));
        } else {
            let m = spec_find_ast_module(ast.components@, order[t])->Some_0;
            assert(is_expansion_of(memo1[t], m, memo1.take(t)));
            assert(is_expansion_of(memo2[t], m, memo2.take(t)));
            lemma_expansion_of_congruent(memo1[t], memo2[t], m, memo1.take(t), memo2.take(t));
        }
        assert forall|j: int| 0 <= j < i implies cm_views_eq(
            #[trigger] memo1.take(i)[j],
            #[trigger] memo2.take(i)[j],
        ) by {
            if j < t {
                assert(memo1.take(t)[j] == memo1.take(i)[j]);
                assert(memo2.take(t)[j] == memo2.take(i)[j]);
            }
        }
    }
}

/// The cell-bound invariant of a compiled module: every gate reference and
/// every output index addresses one of its cells. This is `compiled_wf`
/// without the word-format size caps.
pub open spec fn spec_cell_bounds(cm: CompiledModule) -> bool {
    let gate_count = (cm.gates_sequential@.len() + cm.gates_symmetry@.len()) as int;
    &&& forall|i: int|
        0 <= i < cm.gates_sequential@.len() ==> {
            &&& crate::types::gate_input_wf(
                #[trigger] cm.gates_sequential@[i].0,
                gate_count,
                cm.inputs as int,
            )
            &&& crate::types::gate_input_wf(cm.gates_sequential@[i].1, gate_count, cm.inputs as int)
        }
    &&& forall|i: int|
        0 <= i < cm.gates_symmetry@.len() ==> {
            &&& crate::types::gate_input_wf(
                #[trigger] cm.gates_symmetry@[i].0,
                gate_count,
                cm.inputs as int,
            )
            &&& crate::types::gate_input_wf(cm.gates_symmetry@[i].1, gate_count, cm.inputs as int)
        }
    &&& forall|i: int|
        0 <= i < cm.outputs@.len() ==> #[trigger] cm.outputs@[i]
            < crate::types::compiled_cell_count(cm)
}

/// A table entry keeps its outputs on its own gate cells: the condition
/// under which flattening preserves the cell bounds. A module whose output
/// aliases one of its inputs escapes it — such an output lands past the
/// gate cells, and a caller copying that module would record a reference
/// past its own gates, which only serialization rejects.
pub open spec fn spec_outputs_on_gates(cm: CompiledModule) -> bool {
    &&& cm.gates_symmetry@.len() == 0
    &&& forall|j: int|
        0 <= j < cm.outputs@.len() ==> #[trigger] cm.outputs@[j] < cm.gates_sequential@.len()
}

/// A found table entry is one of the table's entries.
proof fn lemma_find_compiled_member(ms: Seq<CompiledModule>, name: Seq<char>)
    requires
        spec_find_compiled(ms, name) is Some,
    ensures
        exists|i: int|
            0 <= i < ms.len() && #[trigger] ms[i] == spec_find_compiled(ms, name)->Some_0,
    decreases ms.len(),
{
    if ms.first().name@ == name {
        assert(ms[0] == spec_find_compiled(ms, name)->Some_0);
    } else {
        lemma_find_compiled_member(ms.drop_first(), name);
        let i = choose|i: int|
            0 <= i < ms.drop_first().len() && #[trigger] ms.drop_first()[i] == spec_find_compiled(
                ms.drop_first(),
                name,
            )->Some_0;
        assert(ms[i + 1] == spec_find_compiled(ms, name)->Some_0);
    }
}

/// Every value the name-to-cell table holds addresses one of the module's
/// cells, when every table entry keeps its outputs on its own gate cells.
proof fn lemma_om_values_bounded(m: Module, ms: Seq<CompiledModule>, idx: int)
    requires
        spec_expandable(m, ms),
        forall|i: int|
            0 <= i < ms.len() ==> spec_cell_bounds(#[trigger] ms[i]) && spec_outputs_on_gates(
                ms[i],
            ),
        0 <= idx < spec_om(m, ms).len(),
    ensures
        crate::types::gate_input_wf(
            spec_om(m, ms)[idx].1,
            spec_total_gates(m, ms),
            m.inputs@.len() as int,
        ),
{
    let gates_part = spec_om_gates(m, ms, m.gates@.len() as int);
    if idx < gates_part.len() {
        lemma_om_gates_values_bounded(m, ms, m.gates@.len() as int, idx);
    } else {
        let k2 = idx - gates_part.len();
        assert(spec_om(m, ms)[idx] == (m.inputs@[k2]@, CompiledGateInput::Input(k2 as u32)));
        assert(spec_size_ok(m, ms));
        lemma_ptr_nonneg(m, ms, m.gates@.len() as int);
        assert(k2 <= u32::MAX as int);
    }
}

/// Entries contributed by calls record only cells below the total.
proof fn lemma_om_gates_values_bounded(m: Module, ms: Seq<CompiledModule>, n: int, idx: int)
    requires
        spec_expandable(m, ms),
        forall|i: int|
            0 <= i < ms.len() ==> spec_cell_bounds(#[trigger] ms[i]) && spec_outputs_on_gates(
                ms[i],
            ),
        0 <= n <= m.gates@.len(),
        0 <= idx < spec_om_gates(m, ms, n).len(),
    ensures
        crate::types::gate_input_wf(
            spec_om_gates(m, ms, n)[idx].1,
            spec_total_gates(m, ms),
            m.inputs@.len() as int,
        ),
    decreases n,
{
    assert(n >= 1);
    if idx < spec_om_gates(m, ms, n - 1).len() {
        lemma_om_gates_values_bounded(m, ms, n - 1, idx);
    } else {
        let callee = spec_callee(m, ms, n - 1);
        let j = idx - spec_om_gates(m, ms, n - 1).len();
        lemma_find_compiled_member(ms, m.gates@[n - 1].module_name@);
        assert(spec_outputs_on_gates(callee));
        assert(callee.outputs@[j] < callee.gates_sequential@.len());
        lemma_ptr_nonneg(m, ms, n - 1);
        lemma_ptr_bound(m, ms, n);
        assert(spec_ptr(m, ms, n - 1) + callee.outputs@[j] < spec_ptr(m, ms, n));
        assert(spec_ptr(m, ms, n - 1) + callee.outputs@[j] <= u32::MAX as int);
    }
}

/// The data-model invariant of the flattening result: as long as every
/// already flattened callee keeps its outputs on its own gate cells, the
/// module a run produces addresses only its own cells — every copied gate
/// reference lands on an emitted gate or a declared input, and every output
/// slot exists.
pub proof fn lemma_expansion_cell_bounds(cm: CompiledModule, m: Module, ms: Seq<CompiledModule>)
    requires
        is_expansion_of(cm, m, ms),
        spec_expandable(m, ms),
        forall|i: int|
            0 <= i < ms.len() ==> spec_cell_bounds(#[trigger] ms[i]) && spec_outputs_on_gates(
                ms[i],
            ),
    ensures
        spec_cell_bounds(cm),
{
    let gn = m.gates@.len() as int;
    let total = spec_total_gates(m, ms);
    lemma_expanded_bounds(cm, m, ms, gn);
    lemma_expanded_len(m, ms, gn);
    assert(cm.gates_sequential@.len() == total);
    assert forall|i: int| 0 <= i < cm.outputs@.len() implies #[trigger] cm.outputs@[i]
        < crate::types::compiled_cell_count(cm) by {
        assert(cm.outputs@[i] == spec_resolved_outputs(m, ms)[i]);
        let looked = assoc_last(spec_om(m, ms), m.outputs@[i]@);
        assert(looked is Some);
        lemma_assoc_last_member(spec_om(m, ms), m.outputs@[i]@, looked->Some_0);
        let w = choose|w: int|
            0 <= w < spec_om(m, ms).len() && spec_om(m, ms)[w] == (
                m.outputs@[i]@,
                looked->Some_0,
            );
        lemma_om_values_bounded(m, ms, w);
        match looked->Some_0 {
            CompiledGateInput::NorGate(v) => {
                assert(v < total);
            },
            CompiledGateInput::Input(v) => {
                lemma_om_input_bound(m, ms, m.outputs@[i]@, v);
            },
        }
    }
}

/// The emitted gate list is as long as the calls' copies together.
proof fn lemma_expanded_len(m: Module, ms: Seq<CompiledModule>, i: int)
    requires
        0 <= i <= m.gates@.len(),
    ensures
        spec_expanded_gates(m, ms, i).len() == spec_ptr(m, ms, i),
    decreases i,
{
    if i > 0 {
        lemma_expanded_len(m, ms, i - 1);
    }
}

/// Every emitted gate reference addresses one of the module's cells.
proof fn lemma_expanded_bounds(cm: CompiledModule, m: Module, ms: Seq<CompiledModule>, i: int)
    requires
        is_expansion_of(cm, m, ms),
        spec_expandable(m, ms),
        forall|t: int|
            0 <= t < ms.len() ==> spec_cell_bounds(#[trigger] ms[t]) && spec_outputs_on_gates(
                ms[t],
            ),
        0 <= i <= m.gates@.len(),
    ensures
        forall|e: int|
            0 <= e < spec_expanded_gates(m, ms, i).len() ==> crate::types::gate_input_wf(
                (#[trigger] spec_expanded_gates(m, ms, i)[e]).0,
                spec_total_gates(m, ms),
                m.inputs@.len() as int,
            ) && crate::types::gate_input_wf(
                spec_expanded_gates(m, ms, i)[e].1,
                spec_total_gates(m, ms),
                m.inputs@.len() as int,
            ),
    decreases i,
{
    if i > 0 {
        lemma_expanded_bounds(cm, m, ms, i - 1);
        let total = spec_total_gates(m, ms);
        let prev = spec_expanded_gates(m, ms, i - 1);
        let callee = spec_callee(m, ms, i - 1);
        lemma_find_compiled_member(ms, m.gates@[i - 1].module_name@);
        assert forall|e: int|
            0 <= e < spec_expanded_gates(m, ms, i).len() implies crate::types::gate_input_wf(
            (#[trigger] spec_expanded_gates(m, ms, i)[e]).0,
            total,
            m.inputs@.len() as int,
        ) && crate::types::gate_input_wf(
            spec_expanded_gates(m, ms, i)[e].1,
            total,
            m.inputs@.len() as int,
        ) by {
            if e >= prev.len() {
                let e2 = e - prev.len();
                let egate = callee.gates_sequential@[e2];
                lemma_ptr_bound(m, ms, i);
                assert(spec_cell_bounds(callee));
                lemma_resolved_ref_bounded(m, ms, i - 1, egate.0);
                lemma_resolved_ref_bounded(m, ms, i - 1, egate.1);
            }
        }
    }
}

/// One resolved reference addresses one of the module's cells.
proof fn lemma_resolved_ref_bounded(
    m: Module,
    ms: Seq<CompiledModule>,
    g: int,
    r: CompiledGateInput,
)
    requires
        spec_expandable(m, ms),
        forall|t: int|
            0 <= t < ms.len() ==> spec_cell_bounds(#[trigger] ms[t]) && spec_outputs_on_gates(
                ms[t],
            ),
        0 <= g < m.gates@.len(),
        spec_ref_fits(m, ms, g, r),
        spec_ref_resolves(m, ms, g, r),
        match r {
            CompiledGateInput::NorGate(k) => k < spec_callee(
                m,
                ms,
                g,
            ).gates_sequential@.len(),
            CompiledGateInput::Input(k) => true,
        },
    ensures
        crate::types::gate_input_wf(
            spec_resolve_ref(m, ms, g, r),
            spec_total_gates(m, ms),
            m.inputs@.len() as int,
        ),
{
    match r {
        CompiledGateInput::NorGate(k) => {
            lemma_ptr_nonneg(m, ms, g);
            lemma_ptr_bound(m, ms, g + 1);
            assert(spec_ptr(m, ms, g) + k < spec_ptr(m, ms, g + 1));
        },
        CompiledGateInput::Input(k) => {
            let name = m.gates@[g].inputs@[k as int]@;
            let looked = assoc_last(spec_om(m, ms), name);
            lemma_assoc_last_member(spec_om(m, ms), name, looked->Some_0);
            let w = choose|w: int|
                0 <= w < spec_om(m, ms).len() && spec_om(m, ms)[w] == (name, looked->Some_0);
            lemma_om_values_bounded(m, ms, w);
        },
    }
}

/// Gate counts never go negative.
proof fn lemma_ptr_nonneg(m: Module, ms: Seq<CompiledModule>, i: int)
    requires
        0 <= i,
    ensures
        spec_ptr(m, ms, i) >= 0,
    decreases i,
{
    if i > 0 {
        lemma_ptr_nonneg(m, ms, i - 1);
    }
}

/// The pointer of a call never shrinks as calls are added.
proof fn lemma_ptr_bound(m: Module, ms: Seq<CompiledModule>, i: int)
    requires
        0 <= i <= m.gates@.len(),
    ensures
        spec_ptr(m, ms, i) <= spec_total_gates(m, ms),
    decreases m.gates@.len() - i,
{
    if i < m.gates@.len() {
        lemma_ptr_bound(m, ms, i + 1);
    }
}

/// Resolves one copied reference at call `g`: shifts a gate index, or looks
/// an input index up through the call site's identifier.
fn resolve_ref(
    module: &Module,
    om: &Vec<(String, CompiledGateInput)>,
    gate: &Gate,
    pointer: u32,
    r: CompiledGateInput,
    Ghost(m): Ghost<Module>,
    Ghost(ms): Ghost<Seq<CompiledModule>>,
    Ghost(g): Ghost<int>,
) -> (res: Result<CompiledGateInput, String>)
    requires
        m == *module,
        0 <= g < m.gates@.len(),
        *gate == m.gates@[g],
        om_views(om@) == spec_om(m, ms),
        pointer as int == spec_ptr(m, ms, g),
    ensures
        res is Ok <==> spec_ref_fits(m, ms, g, r) && spec_ref_resolves(m, ms, g, r),
        res matches Ok(v) ==> v == spec_resolve_ref(m, ms, g, r),
{
    match r {
        CompiledGateInput::NorGate(k) => {
            match pointer.checked_add(k) {
                Some(v) => Ok(CompiledGateInput::NorGate(v)),
                None => Err(concat2("Module is too large: ", module.name.as_str())),
            }
        },
        CompiledGateInput::Input(k) => {
            if k as usize >= gate.inputs.len() {
                return Err(concat2("Undefined gate used: ", gate.module_name.as_str()));
            }
            match om_get(om, gate.inputs[k as usize].as_str()) {
                Some(v) => Ok(v),
                None => Err(concat2("Undefined gate used: ", gate.inputs[k as usize].as_str())),
            }
        },
    }
}

} // verus!
