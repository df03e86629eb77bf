use vstd::prelude::*;
use vstd::utf8::encode_utf8;
use crate::types::{ModuleType, NodeDepends, ResultwithWarn};
use crate::text::{lex_lt, lemma_lex_lt_trichotomy, str_eq, str_lt};
use crate::modulecheck::spec_names_distinct;

verus! {

/// Whether some catalog entry bears this name.
pub open spec fn spec_has_name(modules: Seq<ModuleType>, name: Seq<char>) -> bool {
    exists|i: int| 0 <= i < modules.len() && (#[trigger] modules[i]).name@ == name
}

/// The index of the catalog entry bearing this name.
pub open spec fn spec_name_index(modules: Seq<ModuleType>, name: Seq<char>) -> int {
    choose|i: int| 0 <= i < modules.len() && (#[trigger] modules[i]).name@ == name
}

/// What the sorter asks of its input: no two catalog entries share a name,
/// and both ends of every edge name a catalog entry.
pub open spec fn spec_sort_input_ok(deps: Seq<NodeDepends>, modules: Seq<ModuleType>) -> bool {
    &&& spec_names_distinct(modules)
    &&& forall|k: int|
        0 <= k < deps.len() ==> spec_has_name(modules, (#[trigger] deps[k]).node@)
    &&& forall|k: int|
        0 <= k < deps.len() ==> spec_has_name(modules, (#[trigger] deps[k]).depends@)
}

/// Module `x` may be emitted: it has not been emitted yet and every module
/// that depends on it has been.
pub open spec fn spec_ready(
    deps: Seq<NodeDepends>,
    modules: Seq<ModuleType>,
    emitted: Seq<int>,
    x: int,
) -> bool {
    &&& 0 <= x < modules.len()
    &&& !emitted.contains(x)
    &&& forall|k: int|
        0 <= k < deps.len() && (#[trigger] deps[k]).depends@ == modules[x].name@
            ==> emitted.contains(spec_name_index(modules, deps[k].node@))
}

/// Strict order on catalog entries: byte order of their names.
pub open spec fn spec_name_lt(a: ModuleType, b: ModuleType) -> bool {
    lex_lt(encode_utf8(a.name@), encode_utf8(b.name@))
}

/// The ready module whose name comes last in byte order; ties cannot happen
/// when names are distinct.
pub open spec fn spec_max_ready(
    deps: Seq<NodeDepends>,
    modules: Seq<ModuleType>,
    emitted: Seq<int>,
) -> int {
    choose|x: int|
        spec_ready(deps, modules, emitted, x) && forall|y: int|
            spec_ready(deps, modules, emitted, y) && y != x ==> spec_name_lt(
                #[trigger] modules[y],
                modules[x],
            )
}

/// The emission order of Kahn's algorithm: starting from `emitted`, keep
/// emitting the ready module whose name comes last in byte order, until no
/// module is ready. Dependents are emitted before their dependencies.
pub open spec fn spec_kahn(
    deps: Seq<NodeDepends>,
    modules: Seq<ModuleType>,
    emitted: Seq<int>,
) -> Seq<int>
    decreases modules.len() - emitted.len(),
{
    if emitted.len() < modules.len() && (exists|x: int| spec_ready(deps, modules, emitted, x)) {
        spec_kahn(deps, modules, emitted.push(spec_max_ready(deps, modules, emitted)))
    } else {
        emitted
    }
}

/// The sorter's successful output: the Kahn order reversed, as names, so
/// that every dependency comes before every module that uses it.
pub open spec fn spec_sort_names(deps: Seq<NodeDepends>, modules: Seq<ModuleType>) -> Seq<
    Seq<char>,
> {
    let k = spec_kahn(deps, modules, Seq::empty());
    Seq::new(k.len(), |i: int| modules[k[k.len() - 1 - i]].name@)
}

/// A concrete dependency cycle: a non-empty run of distinct module indices
/// in which each one depends on the next, and the last depends on the first.
pub open spec fn spec_is_cycle(
    deps: Seq<NodeDepends>,
    modules: Seq<ModuleType>,
    c: Seq<int>,
) -> bool {
    &&& c.len() >= 1
    &&& forall|i: int| 0 <= i < c.len() ==> 0 <= #[trigger] c[i] < modules.len()
    &&& forall|i: int, j: int| 0 <= i < j < c.len() ==> c[i] != c[j]
    &&& forall|i: int|
        0 <= i < c.len() - 1 ==> spec_edge(deps, modules, #[trigger] c[i], c[i + 1])
    &&& spec_edge(deps, modules, c[c.len() - 1], c[0])
}

/// Whether some edge says that module `a` depends on module `b`.
pub open spec fn spec_edge(
    deps: Seq<NodeDepends>,
    modules: Seq<ModuleType>,
    a: int,
    b: int,
) -> bool {
    exists|k: int|
        0 <= k < deps.len() && (#[trigger] deps[k]).node@ == modules[a].name@
            && deps[k].depends@ == modules[b].name@
}

/// Two distinct catalog entries never tie in name byte order.
proof fn lemma_name_order_total(modules: Seq<ModuleType>, a: int, b: int)
    requires
        spec_names_distinct(modules),
        0 <= a < modules.len(),
        0 <= b < modules.len(),
        a != b,
    ensures
        spec_name_lt(modules[a], modules[b]) != spec_name_lt(modules[b], modules[a]),
{
    let ea = encode_utf8(modules[a].name@);
    let eb = encode_utf8(modules[b].name@);
    if ea == eb {
        vstd::utf8::encode_utf8_decode_utf8(modules[a].name@);
        vstd::utf8::encode_utf8_decode_utf8(modules[b].name@);
        assert(modules[a].name@ == modules[b].name@);
    }
    lemma_lex_lt_trichotomy(ea, eb);
}

/// When one module is ready and beats every other ready module in name
/// order, it is the module the specification picks.
proof fn lemma_max_ready_unique(
    deps: Seq<NodeDepends>,
    modules: Seq<ModuleType>,
    emitted: Seq<int>,
    x: int,
)
    requires
        spec_names_distinct(modules),
        spec_ready(deps, modules, emitted, x),
        forall|y: int|
            spec_ready(deps, modules, emitted, y) && y != x ==> spec_name_lt(
                #[trigger] modules[y],
                modules[x],
            ),
    ensures
        spec_max_ready(deps, modules, emitted) == x,
{
    let m = spec_max_ready(deps, modules, emitted);
    assert(spec_ready(deps, modules, emitted, m) && forall|y: int|
        spec_ready(deps, modules, emitted, y) && y != m ==> spec_name_lt(
            #[trigger] modules[y],
            modules[m],
        ));
    if m != x {
        assert(spec_name_lt(modules[x], modules[m]));
        assert(spec_name_lt(modules[m], modules[x]));
        lemma_name_order_total(modules, m, x);
    }
}

/// Whether some resolved edge runs from `a` to `b`.
pub open spec fn has_edge_idx(edges: Seq<(usize, usize)>, a: int, b: int) -> bool {
    exists|t: int|
        0 <= t < edges.len() && (#[trigger] edges[t]).0 as int == a && edges[t].1 as int == b
}

/// Finds a not-yet-emitted module that depends on `cur`.
fn find_unemitted_caller(edges: &Vec<(usize, usize)>, flags: &Vec<bool>, cur: usize) -> (r: usize)
    requires
        forall|t: int|
            0 <= t < edges@.len() ==> (#[trigger] edges@[t]).0 < flags@.len(),
        exists|t: int|
            0 <= t < edges@.len() && (#[trigger] edges@[t]).1 as int == cur as int
                && !flags@[edges@[t].0 as int],
    ensures
        r < flags@.len(),
        !flags@[r as int],
        has_edge_idx(edges@, r as int, cur as int),
{
    let n = edges.len();
    let mut t: usize = 0;
    while t < n
        invariant
            t <= n,
            n == edges@.len(),
            forall|u: int|
                0 <= u < edges@.len() ==> (#[trigger] edges@[u]).0 < flags@.len(),
            exists|u: int|
                0 <= u < edges@.len() && (#[trigger] edges@[u]).1 as int == cur as int
                    && !flags@[edges@[u].0 as int],
            forall|u: int|
                0 <= u < t ==> !((#[trigger] edges@[u]).1 as int == cur as int && !flags@[edges@[
                u].0 as int]),
        decreases n - t,
    {
        let e = edges[t];
        if e.1 == cur && !flags[e.0] {
            return e.0;
        }
        t = t + 1;
    }
    proof {
        assert(false);
    }
    0
}

/// The position of `v` in `path`, if it occurs.
fn position_of(path: &Vec<usize>, v: usize) -> (r: Option<usize>)
    ensures
        r matches Some(p) ==> p < path@.len() && path@[p as int] == v,
        r is None ==> forall|j: int| 0 <= j < path@.len() ==> path@[j] != v,
{
    let n = path.len();
    let mut j: usize = 0;
    while j < n
        invariant
            j <= n,
            n == path@.len(),
            forall|u: int| 0 <= u < j ==> path@[u] != v,
        decreases n - j,
    {
        if path[j] == v {
            return Some(j);
        }
        j = j + 1;
    }
    None
}

/// A run of distinct values drawn from `[0, n)` has at most `n` entries.
proof fn lemma_distinct_bounded_len(s: Seq<int>, n: int)
    requires
        n >= 0,
        s.no_duplicates(),
        forall|i: int| 0 <= i < s.len() ==> 0 <= #[trigger] s[i] < n,
    ensures
        s.len() <= n,
{
    s.unique_seq_to_set();
    assert(s.to_set().subset_of(vstd::set_lib::set_int_range(0, n)));
    vstd::set_lib::lemma_int_range(0, n);
    vstd::set_lib::lemma_len_subset(s.to_set(), vstd::set_lib::set_int_range(0, n));
}

/// Whether `edges` resolves every edge of `deps` to catalog indices.
pub open spec fn edges_ok(
    edges: Seq<(usize, usize)>,
    deps: Seq<NodeDepends>,
    modules: Seq<ModuleType>,
) -> bool {
    &&& edges.len() == deps.len()
    &&& forall|k: int|
        0 <= k < edges.len() ==> (#[trigger] edges[k]).0 < modules.len() && edges[k].1
            < modules.len() && modules[edges[k].0 as int].name@ == deps[k].node@ && modules[edges[
        k].1 as int].name@ == deps[k].depends@
}

/// Whether the flag vector marks exactly the emitted indices.
pub open spec fn flags_match(flags: Seq<bool>, emitted: Seq<int>, n: int) -> bool {
    &&& flags.len() == n
    &&& forall|i: int| 0 <= i < n ==> ((#[trigger] flags[i]) <==> emitted.contains(i))
}

/// Readiness phrased over resolved edges and emission flags.
pub open spec fn ready_idx(edges: Seq<(usize, usize)>, flags: Seq<bool>, x: int) -> bool {
    &&& 0 <= x < flags.len()
    &&& !flags[x]
    &&& forall|t: int|
        0 <= t < edges.len() && (#[trigger] edges[t]).1 == x ==> flags[edges[t].0 as int]
}

/// The entry bearing a name is the one the specification's search picks.
proof fn lemma_name_index_is(modules: Seq<ModuleType>, name: Seq<char>, i: int)
    requires
        spec_names_distinct(modules),
        0 <= i < modules.len(),
        modules[i].name@ == name,
    ensures
        spec_name_index(modules, name) == i,
{
    let j = spec_name_index(modules, name);
    assert(0 <= j < modules.len() && modules[j].name@ == name);
}

/// Over matching flags and resolved edges, index readiness is exactly the
/// specification's readiness.
proof fn lemma_ready_corresponds(
    deps: Seq<NodeDepends>,
    modules: Seq<ModuleType>,
    edges: Seq<(usize, usize)>,
    flags: Seq<bool>,
    emitted: Seq<int>,
    x: int,
)
    requires
        spec_sort_input_ok(deps, modules),
        edges_ok(edges, deps, modules),
        flags_match(flags, emitted, modules.len() as int),
        0 <= x < modules.len(),
    ensures
        ready_idx(edges, flags, x) == spec_ready(deps, modules, emitted, x),
{
    if ready_idx(edges, flags, x) {
        assert forall|k: int|
            0 <= k < deps.len() && (#[trigger] deps[k]).depends@ == modules[x].name@ implies
            emitted.contains(spec_name_index(modules, deps[k].node@)) by {
            assert(modules[edges[k].1 as int].name@ == deps[k].depends@);
            assert(edges[k].1 as int == x);
            assert(flags[edges[k].0 as int]);
            lemma_name_index_is(modules, deps[k].node@, edges[k].0 as int);
        }
    }
    if spec_ready(deps, modules, emitted, x) {
        assert forall|t: int|
            0 <= t < edges.len() && (#[trigger] edges[t]).1 == x implies flags[edges[t].0 as int]
            by {
            assert(deps[t].depends@ == modules[x].name@);
            lemma_name_index_is(modules, deps[t].node@, edges[t].0 as int);
            assert(emitted.contains(edges[t].0 as int));
        }
    }
}

/// Resolves each edge's two names to their catalog indices.
fn resolve_edges(deps: &Vec<NodeDepends>, modules: &Vec<ModuleType>) -> (r: Vec<(usize, usize)>)
    requires
        spec_sort_input_ok(deps@, modules@),
    ensures
        edges_ok(r@, deps@, modules@),
{
    let mut edges: Vec<(usize, usize)> = Vec::new();
    let n = deps.len();
    let mut k: usize = 0;
    while k < n
        invariant
            k <= n,
            n == deps@.len(),
            spec_sort_input_ok(deps@, modules@),
            edges@.len() == k,
            forall|t: int|
                0 <= t < k ==> (#[trigger] edges@[t]).0 < modules@.len() && edges@[t].1
                    < modules@.len() && modules@[edges@[t].0 as int].name@ == deps@[t].node@
                    && modules@[edges@[t].1 as int].name@ == deps@[t].depends@,
        decreases n - k,
    {
        let a = index_of_name(modules, deps[k].node.as_str());
        let b = index_of_name(modules, deps[k].depends.as_str());
        match (a, b) {
            (Some(ia), Some(ib)) => {
                edges.push((ia, ib));
            },
            _ => {
                proof {
                    assert(false);
                }
            },
        }
        k = k + 1;
    }
    edges
}

/// Linear search of the catalog for an entry with this name.
fn index_of_name(modules: &Vec<ModuleType>, name: &str) -> (r: Option<usize>)
    ensures
        r matches Some(i) ==> i < modules@.len() && modules@[i as int].name@ == name@,
        r is None ==> !spec_has_name(modules@, name@),
{
    let n = modules.len();
    let mut i: usize = 0;
    while i < n
        invariant
            i <= n,
            n == modules@.len(),
            forall|j: int| 0 <= j < i ==> (#[trigger] modules@[j]).name@ != name@,
        decreases n - i,
    {
        if str_eq(modules[i].name.as_str(), name) {
            return Some(i);
        }
        i = i + 1;
    }
    None
}

/// Whether module `x` is ready: not yet emitted and no unemitted module
/// depends on it.
fn is_ready(edges: &Vec<(usize, usize)>, flags: &Vec<bool>, x: usize) -> (r: bool)
    requires
        x < flags@.len(),
        forall|t: int|
            0 <= t < edges@.len() ==> (#[trigger] edges@[t]).0 < flags@.len(),
    ensures
        r == ready_idx(edges@, flags@, x as int),
{
    if flags[x] {
        return false;
    }
    let n = edges.len();
    let mut t: usize = 0;
    while t < n
        invariant
            t <= n,
            n == edges@.len(),
            x < flags@.len(),
            !flags@[x as int],
            forall|u: int|
                0 <= u < edges@.len() ==> (#[trigger] edges@[u]).0 < flags@.len(),
            forall|u: int|
                0 <= u < t && (#[trigger] edges@[u]).1 == x as int ==> flags@[edges@[u].0 as int],
        decreases n - t,
    {
        let e = edges[t];
        if e.1 == x && !flags[e.0] {
            return false;
        }
        t = t + 1;
    }
    true
}

/// The ready module whose name comes last in byte order, if any is ready.
fn find_best_ready(
    edges: &Vec<(usize, usize)>,
    flags: &Vec<bool>,
    modules: &Vec<ModuleType>,
) -> (r: Option<usize>)
    requires
        spec_names_distinct(modules@),
        flags@.len() == modules@.len(),
        forall|t: int|
            0 <= t < edges@.len() ==> (#[trigger] edges@[t]).0 < flags@.len(),
    ensures
        r is None ==> forall|x: int|
            0 <= x < modules@.len() ==> !ready_idx(edges@, flags@, x),
        r matches Some(b) ==> b < modules@.len() && ready_idx(edges@, flags@, b as int) && forall|
            y: int,
        |
            0 <= y < modules@.len() && ready_idx(edges@, flags@, y) && y != b as int
                ==> spec_name_lt(#[trigger] modules@[y], modules@[b as int]),
{
    let n = modules.len();
    let mut best: Option<usize> = None;
    let mut i: usize = 0;
    while i < n
        invariant
            i <= n,
            n == modules@.len(),
            spec_names_distinct(modules@),
            flags@.len() == modules@.len(),
            forall|t: int|
                0 <= t < edges@.len() ==> (#[trigger] edges@[t]).0 < flags@.len(),
            best is None ==> forall|x: int| 0 <= x < i ==> !ready_idx(edges@, flags@, x),
            best matches Some(b) ==> b < i && ready_idx(edges@, flags@, b as int) && forall|y: int|
                0 <= y < i && ready_idx(edges@, flags@, y) && y != b as int ==> spec_name_lt(
                    #[trigger] modules@[y],
                    modules@[b as int],
                ),
        decreases n - i,
    {
        if is_ready(edges, flags, i) {
            match best {
                None => {
                    best = Some(i);
                },
                Some(b) => {
                    if str_lt(modules[b].name.as_str(), modules[i].name.as_str()) {
                        proof {
                            assert forall|y: int|
                                0 <= y < i + 1 && ready_idx(edges@, flags@, y) && y != i as int
                                implies spec_name_lt(#[trigger] modules@[y], modules@[i as int])
                                by {
                                if y != b as int {
                                    crate::text::lemma_lex_lt_transitive(
                                        encode_utf8(modules@[y].name@),
                                        encode_utf8(modules@[b as int].name@),
                                        encode_utf8(modules@[i as int].name@),
                                    );
                                }
                            }
                        }
                        best = Some(i);
                    } else {
                        proof {
                            lemma_name_order_total(modules@, b as int, i as int);
                        }
                    }
                },
            }
        }
        i = i + 1;
    }
    best
}

/// A run of `n` distinct values drawn from `[0, n)` holds every one of them.
proof fn lemma_distinct_bounded_onto(s: Seq<int>, n: int, v: int)
    requires
        n >= 0,
        s.no_duplicates(),
        forall|i: int| 0 <= i < s.len() ==> 0 <= #[trigger] s[i] < n,
        s.len() == n,
        0 <= v < n,
    ensures
        s.contains(v),
{
    if !s.contains(v) {
        s.unique_seq_to_set();
        let range = vstd::set_lib::set_int_range(0, n);
        vstd::set_lib::lemma_int_range(0, n);
        assert(s.to_set().subset_of(range));
        assert(range.contains(v) && !s.to_set().contains(v));
        s.to_set().lemma_subset_not_in_lt(range, v);
    }
}

/// The emission order as mathematical integers.
pub open spec fn to_ints(s: Seq<usize>) -> Seq<int> {
    s.map_values(|u: usize| u as int)
}

/// The dependent-before-dependency property of a partial emission order:
/// whenever an edge's target has been emitted, its source came earlier.
pub open spec fn emit_topo(edges: Seq<(usize, usize)>, order: Seq<usize>) -> bool {
    forall|t: int, p: int|
        0 <= t < edges.len() && 0 <= p < order.len() && (#[trigger] order[p]) as int == (
        #[trigger] edges[t]).1 as int ==> exists|q: int|
            0 <= q < p && order[q] as int == edges[t].0 as int
}

/// One emission step of the executable sorter matches one unfolding of the
/// specification's recursion and keeps every loop fact.
proof fn lemma_emit_step(
    deps: Seq<NodeDepends>,
    modules: Seq<ModuleType>,
    edges: Seq<(usize, usize)>,
    flags_old: Seq<bool>,
    flags_new: Seq<bool>,
    order_old: Seq<usize>,
    order_new: Seq<usize>,
    b: int,
)
    requires
        modules.len() <= usize::MAX as int,
        spec_sort_input_ok(deps, modules),
        edges_ok(edges, deps, modules),
        flags_match(flags_old, to_ints(order_old), modules.len() as int),
        to_ints(order_old).no_duplicates(),
        forall|i: int| 0 <= i < order_old.len() ==> (#[trigger] order_old[i]) < modules.len(),
        spec_kahn(deps, modules, Seq::empty()) == spec_kahn(deps, modules, to_ints(order_old)),
        emit_topo(edges, order_old),
        0 <= b < modules.len(),
        ready_idx(edges, flags_old, b),
        forall|y: int|
            0 <= y < modules.len() && ready_idx(edges, flags_old, y) && y != b ==> spec_name_lt(
                #[trigger] modules[y],
                modules[b],
            ),
        order_new == order_old.push(b as usize),
        flags_new == flags_old.update(b, true),
    ensures
        flags_match(flags_new, to_ints(order_new), modules.len() as int),
        to_ints(order_new).no_duplicates(),
        forall|i: int| 0 <= i < order_new.len() ==> (#[trigger] order_new[i]) < modules.len(),
        order_new.len() <= modules.len(),
        spec_kahn(deps, modules, Seq::empty()) == spec_kahn(deps, modules, to_ints(order_new)),
        emit_topo(edges, order_new),
{
    let n = modules.len() as int;
    let em = to_ints(order_old);
    let em2 = to_ints(order_new);
    assert(em2 =~= em.push(b));
    lemma_ready_corresponds(deps, modules, edges, flags_old, em, b);
    assert forall|y: int|
        spec_ready(deps, modules, em, y) && y != b implies spec_name_lt(
        #[trigger] modules[y],
        modules[b],
    ) by {
        lemma_ready_corresponds(deps, modules, edges, flags_old, em, y);
    }
    lemma_max_ready_unique(deps, modules, em, b);
    assert(!em.contains(b));
    assert(em2.no_duplicates());
    lemma_distinct_bounded_len(em2, n);
    assert(spec_kahn(deps, modules, em) == spec_kahn(deps, modules, em2));
    assert forall|i: int| 0 <= i < n implies ((#[trigger] flags_new[i]) <==> em2.contains(i)) by {
        if i == b {
            assert(em2[em2.len() - 1] == i);
        } else {
            if em2.contains(i) {
                let w = choose|w: int| 0 <= w < em2.len() && em2[w] == i;
                assert(em[w] == i);
            }
            if em.contains(i) {
                let w = choose|w: int| 0 <= w < em.len() && em[w] == i;
                assert(em2[w] == i);
            }
        }
    }
    assert forall|t: int, p: int|
        0 <= t < edges.len() && 0 <= p < order_new.len() && (#[trigger] order_new[p]) as int == (
        #[trigger] edges[t]).1 as int implies exists|q: int|
        0 <= q < p && order_new[q] as int == edges[t].0 as int by {
        if p == order_new.len() - 1 {
            assert(flags_old[edges[t].0 as int]);
            assert(em.contains(edges[t].0 as int));
            let w = choose|w: int| 0 <= w < em.len() && em[w] == edges[t].0 as int;
            assert(order_new[w] as int == edges[t].0 as int);
        } else {
            assert(order_old[p] as int == edges[t].1 as int);
            let q = choose|q: int| 0 <= q < p && order_old[q] as int == edges[t].0 as int;
            assert(order_new[q] as int == edges[t].0 as int);
        }
    }
}

/// Joins names with a separator.
fn join_names(names: &Vec<String>, sep: &str) -> (r: String)
    ensures
        r@ == crate::text::spec_join(crate::text::views_of_strings(names@), sep@),
{
    let ghost views = crate::text::views_of_strings(names@);
    let mut out = crate::text::string_of("");
    proof {
        reveal_strlit("");
        assert(out@ =~= crate::text::spec_join(views.take(0), sep@));
    }
    let n = names.len();
    let mut i: usize = 0;
    while i < n
        invariant
            i <= n,
            n == names@.len(),
            views == crate::text::views_of_strings(names@),
            out@ == crate::text::spec_join(views.take(i as int), sep@),
        decreases n - i,
    {
        proof {
            assert(views.take(i + 1 as int).drop_last() =~= views.take(i as int));
            assert(views.take(i + 1 as int).last() == views[i as int]);
            assert(views[i as int] == names@[i as int]@);
        }
        if i > 0 {
            out = crate::text::concat2(out.as_str(), sep);
        }
        out = crate::text::concat2(out.as_str(), names[i].as_str());
        proof {
            if i == 0 {
                reveal_strlit("");
                assert(out@ =~= views[0]);
                assert(views.take(1)[0] == views[0]);
            }
            assert(out@ =~= crate::text::spec_join(views.take(i + 1 as int), sep@));
        }
        i = i + 1;
    }
    proof {
        assert(views.take(n as int) =~= views);
    }
    out
}

/// Module `x` appears on neither side of any edge.
pub open spec fn spec_isolated(
    deps: Seq<NodeDepends>,
    modules: Seq<ModuleType>,
    x: int,
) -> bool {
    forall|k: int|
        0 <= k < deps.len() ==> (#[trigger] deps[k]).node@ != modules[x].name@ && deps[k].depends@
            != modules[x].name@
}

/// No module depends on module `x`.
pub open spec fn spec_is_root(deps: Seq<NodeDepends>, modules: Seq<ModuleType>, x: int) -> bool {
    forall|k: int| 0 <= k < deps.len() ==> (#[trigger] deps[k]).depends@ != modules[x].name@
}

/// The isolation warnings for the first `i` catalog entries, in order.
pub open spec fn spec_no_dep_warns(
    deps: Seq<NodeDepends>,
    modules: Seq<ModuleType>,
    i: int,
) -> Seq<Seq<char>>
    decreases i,
{
    if i <= 0 {
        Seq::empty()
    } else {
        spec_no_dep_warns(deps, modules, i - 1) + (if spec_isolated(deps, modules, i - 1) {
            seq!["Module has no dependency: "@ + modules[i - 1].name@]
        } else {
            Seq::empty()
        })
    }
}

/// A name slotted into an already name-ordered run.
pub open spec fn spec_insert_by_name(s: Seq<Seq<char>>, x: Seq<char>) -> Seq<Seq<char>>
    decreases s.len(),
{
    if s.len() == 0 {
        seq![x]
    } else if lex_lt(encode_utf8(x), encode_utf8(s[0])) {
        seq![x] + s
    } else {
        seq![s[0]] + spec_insert_by_name(s.drop_first(), x)
    }
}

/// The root modules of the first `i` catalog entries, by name order.
pub open spec fn spec_roots_sorted(
    deps: Seq<NodeDepends>,
    modules: Seq<ModuleType>,
    i: int,
) -> Seq<Seq<char>>
    decreases i,
{
    if i <= 0 {
        Seq::empty()
    } else if spec_is_root(deps, modules, i - 1) {
        spec_insert_by_name(spec_roots_sorted(deps, modules, i - 1), modules[i - 1].name@)
    } else {
        spec_roots_sorted(deps, modules, i - 1)
    }
}

/// Every advisory message of one sort: one per module no edge touches, in
/// catalog order, and then — exactly when more than one module is depended
/// on by nobody — one naming all those roots in name order.
pub open spec fn spec_sort_warns(deps: Seq<NodeDepends>, modules: Seq<ModuleType>) -> Seq<
    Seq<char>,
> {
    let roots = spec_roots_sorted(deps, modules, modules.len() as int);
    spec_no_dep_warns(deps, modules, modules.len() as int) + (if roots.len() > 1 {
        seq![
            "Multiple modules are not used by other modules: "@ + crate::text::spec_join(
                roots,
                ", "@,
            ),
        ]
    } else {
        Seq::empty()
    })
}

/// The advisory messages of one sort: one for every module that no edge
/// touches, and one naming the root modules when there are several.
#[verifier::spinoff_prover]
fn build_warnings(
    deps: &Vec<NodeDepends>,
    edges: &Vec<(usize, usize)>,
    modules: &Vec<ModuleType>,
) -> (r: Vec<String>)
    requires
        spec_sort_input_ok(deps@, modules@),
        edges_ok(edges@, deps@, modules@),
    ensures
        crate::text::views_of_strings(r@) == spec_sort_warns(deps@, modules@),
{
    let mut warns: Vec<String> = Vec::new();
    let n = modules.len();
    let en = edges.len();
    let mut i: usize = 0;
    while i < n
        invariant
            i <= n,
            n == modules@.len(),
            en == edges@.len(),
            spec_sort_input_ok(deps@, modules@),
            edges_ok(edges@, deps@, modules@),
            crate::text::views_of_strings(warns@) == spec_no_dep_warns(deps@, modules@, i as int),
        decreases n - i,
    {
        let mut touched = false;
        let mut t: usize = 0;
        while t < en
            invariant
                t <= en,
                i < n,
                n == modules@.len(),
                en == edges@.len(),
                edges_ok(edges@, deps@, modules@),
                touched ==> !spec_isolated(deps@, modules@, i as int),
                !touched ==> forall|k: int|
                    0 <= k < t ==> (#[trigger] edges@[k]).0 != i && edges@[k].1 != i,
            decreases en - t,
        {
            let e = edges[t];
            if e.0 == i || e.1 == i {
                touched = true;
            }
            t = t + 1;
        }
        proof {
            if !touched {
                assert forall|k: int|
                    0 <= k < deps@.len() implies (#[trigger] deps@[k]).node@ != modules@[
                i as int].name@ && deps@[k].depends@ != modules@[i as int].name@ by {
                    assert(modules@[edges@[k].0 as int].name@ == deps@[k].node@);
                    assert(modules@[edges@[k].1 as int].name@ == deps@[k].depends@);
                    if deps@[k].node@ == modules@[i as int].name@ {
                        assert(edges@[k].0 as int == i as int);
                    }
                    if deps@[k].depends@ == modules@[i as int].name@ {
                        assert(edges@[k].1 as int == i as int);
                    }
                }
                assert(spec_isolated(deps@, modules@, i as int));
            }
        }
        if !touched {
            warns.push(
                crate::text::concat2("Module has no dependency: ", modules[i].name.as_str()),
            );
        }
        proof {
            assert(crate::text::views_of_strings(warns@) =~= spec_no_dep_warns(
                deps@,
                modules@,
                i + 1 as int,
            ));
        }
        i = i + 1;
    }
    // Root modules: the ones no other module depends on, listed in byte
    // order of their names.
    let mut roots: Vec<String> = Vec::new();
    let mut i2: usize = 0;
    while i2 < n
        invariant
            i2 <= n,
            n == modules@.len(),
            en == edges@.len(),
            spec_sort_input_ok(deps@, modules@),
            edges_ok(edges@, deps@, modules@),
            crate::text::views_of_strings(roots@) == spec_roots_sorted(
                deps@,
                modules@,
                i2 as int,
            ),
        decreases n - i2,
    {
        let mut used = false;
        let mut t: usize = 0;
        while t < en
            invariant
                t <= en,
                i2 < n,
                n == modules@.len(),
                en == edges@.len(),
                edges_ok(edges@, deps@, modules@),
                used ==> !spec_is_root(deps@, modules@, i2 as int),
                !used ==> forall|k: int| 0 <= k < t ==> (#[trigger] edges@[k]).1 != i2,
            decreases en - t,
        {
            if edges[t].1 == i2 {
                used = true;
            }
            t = t + 1;
        }
        proof {
            if !used {
                assert forall|k: int|
                    0 <= k < deps@.len() implies (#[trigger] deps@[k]).depends@ != modules@[
                i2 as int].name@ by {
                    assert(modules@[edges@[k].1 as int].name@ == deps@[k].depends@);
                    if deps@[k].depends@ == modules@[i2 as int].name@ {
                        assert(edges@[k].1 as int == i2 as int);
                    }
                }
                assert(spec_is_root(deps@, modules@, i2 as int));
            }
        }
        if !used {
            let name = modules[i2].name.clone();
            let mut pos: usize = 0;
            let mut placed = false;
            let rl = roots.len();
            while pos < rl && !placed
                invariant
                    pos <= rl,
                    rl == roots@.len(),
                    name == modules@[i2 as int].name,
                    forall|j: int|
                        0 <= j < pos ==> !lex_lt(
                            encode_utf8(name@),
                            encode_utf8((#[trigger] roots@[j])@),
                        ),
                    placed ==> pos < rl && lex_lt(
                        encode_utf8(name@),
                        encode_utf8(roots@[pos as int]@),
                    ),
                decreases rl - pos + (if placed { 0int } else { 1int }),
            {
                if str_lt(name.as_str(), roots[pos].as_str()) {
                    placed = true;
                } else {
                    pos = pos + 1;
                }
            }
            proof {
                lemma_insert_by_name_at(
                    crate::text::views_of_strings(roots@),
                    name@,
                    pos as int,
                );
            }
            let ghost roots_before = roots@;
            roots.insert(pos, name);
            proof {
                assert(crate::text::views_of_strings(roots@) =~= crate::text::views_of_strings(
                    roots_before,
                ).take(pos as int) + seq![modules@[i2 as int].name@]
                    + crate::text::views_of_strings(roots_before).skip(pos as int));
                assert(crate::text::views_of_strings(roots@) == spec_insert_by_name(
                    crate::text::views_of_strings(roots_before),
                    modules@[i2 as int].name@,
                ));
            }
        }
        i2 = i2 + 1;
    }
    if roots.len() > 1 {
        let list = join_names(&roots, ", ");
        warns.push(
            crate::text::concat2("Multiple modules are not used by other modules: ", list.as_str()),
        );
    }
    proof {
        assert(crate::text::views_of_strings(warns@) =~= spec_sort_warns(deps@, modules@));
    }
    warns
}

/// Scanning to the first larger entry and splicing there is exactly the
/// ordered insertion.
proof fn lemma_insert_by_name_at(s: Seq<Seq<char>>, x: Seq<char>, pos: int)
    requires
        0 <= pos <= s.len(),
        forall|j: int| 0 <= j < pos ==> !lex_lt(encode_utf8(x), encode_utf8(#[trigger] s[j])),
        pos < s.len() ==> lex_lt(encode_utf8(x), encode_utf8(s[pos])),
    ensures
        spec_insert_by_name(s, x) == s.take(pos) + seq![x] + s.skip(pos),
    decreases s.len(),
{
    if s.len() == 0 {
        assert(spec_insert_by_name(s, x) =~= s.take(0) + seq![x] + s.skip(0));
    } else if lex_lt(encode_utf8(x), encode_utf8(s[0])) {
        assert(pos == 0);
        assert(spec_insert_by_name(s, x) =~= s.take(0) + seq![x] + s.skip(0));
    } else {
        assert(pos >= 1);
        lemma_insert_by_name_at(s.drop_first(), x, pos - 1);
        assert(s.drop_first().take(pos - 1) =~= s.take(pos).drop_first());
        assert(s.drop_first().skip(pos - 1) =~= s.skip(pos));
        assert(seq![s[0]] + spec_insert_by_name(s.drop_first(), x) =~= s.take(pos) + seq![x]
            + s.skip(pos));
    }
}

/// Orders the catalog so that every module comes after everything it
/// depends on. On success the order is a permutation of the catalog's names,
/// pinned exactly by the specification; warnings flag isolated modules and
/// multiple roots. When the edges allow no such order a concrete dependency
/// cycle exists, and the error names one.
#[verifier::rlimit(100)]
#[verifier::spinoff_prover]
pub fn sort_dependency(dependency_vec: &Vec<NodeDepends>, modules: &Vec<ModuleType>) -> (r:
    ResultwithWarn<Vec<String>>)
    requires
        spec_sort_input_ok(dependency_vec@, modules@),
    ensures
        r is Ok <==> spec_kahn(dependency_vec@, modules@, Seq::empty()).len() == modules@.len(),
        r matches Ok(ow) ==> crate::text::views_of_strings(ow.1@) == spec_sort_warns(
            dependency_vec@,
            modules@,
        ),
        r matches Err(ew) ==> crate::text::views_of_strings(ew.1@) == spec_sort_warns(
            dependency_vec@,
            modules@,
        ),
        r matches Ok(ow) ==> ow.0@.len() == modules@.len(),
        r matches Ok(ow) ==> (forall|p: int, q: int|
            0 <= p < q < ow.0@.len() ==> (#[trigger] ow.0@[p])@ != (#[trigger] ow.0@[q])@),
        r matches Ok(ow) ==> (forall|p: int|
            0 <= p < ow.0@.len() ==> spec_has_name(modules@, (#[trigger] ow.0@[p])@)),
        r matches Ok(ow) ==> (forall|j: int|
            0 <= j < modules@.len() ==> crate::text::spec_contains_string(
                ow.0@,
                (#[trigger] modules@[j]).name@,
            )),
        r matches Ok(ow) ==> (forall|k: int, p: int, q: int|
            0 <= k < dependency_vec@.len() && 0 <= p < ow.0@.len() && 0 <= q < ow.0@.len() && (
            #[trigger] ow.0@[p])@ == (#[trigger] dependency_vec@[k]).depends@ && (
            #[trigger] ow.0@[q])@ == dependency_vec@[k].node@ ==> p < q),
        r matches Ok(ow) ==> crate::text::views_of_strings(ow.0@) == spec_sort_names(
            dependency_vec@,
            modules@,
        ),
        r matches Err(ew) ==> ew.0@.len() == 1 && (exists|c: Seq<int>|
            spec_is_cycle(dependency_vec@, modules@, c) && ew.0@[0]@
                == "Cycle detected in the dependency graph:\n  "@ + crate::text::spec_join(
                Seq::new(c.len(), |i: int| modules@[c[i]].name@),
                " -> "@,
            ) + " -> "@ + modules@[c[0]].name@ + "\n"@),
{
    let n = modules.len();
    let edges = resolve_edges(dependency_vec, modules);
    let warns = build_warnings(dependency_vec, &edges, modules);
    let mut flags: Vec<bool> = vec![false; n];
    let mut order_idx: Vec<usize> = Vec::new();
    proof {
        assert(order_idx@.map_values(|u: usize| u as int) =~= Seq::<int>::empty());
    }
    let mut best = find_best_ready(&edges, &flags, modules);
    while best.is_some()
        invariant
            n == modules@.len(),
            spec_sort_input_ok(dependency_vec@, modules@),
            edges_ok(edges@, dependency_vec@, modules@),
            flags_match(flags@, to_ints(order_idx@), n as int),
            to_ints(order_idx@).no_duplicates(),
            forall|i: int| 0 <= i < order_idx@.len() ==> (#[trigger] order_idx@[i]) < n,
            order_idx@.len() <= n,
            spec_kahn(dependency_vec@, modules@, Seq::empty()) == spec_kahn(
                dependency_vec@,
                modules@,
                to_ints(order_idx@),
            ),
            emit_topo(edges@, order_idx@),
            best is None ==> forall|x: int| 0 <= x < n ==> !ready_idx(edges@, flags@, x),
            best matches Some(b) ==> b < n && ready_idx(edges@, flags@, b as int) && forall|y: int|
                0 <= y < n && ready_idx(edges@, flags@, y) && y != b as int ==> spec_name_lt(
                    #[trigger] modules@[y],
                    modules@[b as int],
                ),
        decreases n - order_idx@.len(),
    {
        let b = best.unwrap();
        let ghost flags_old = flags@;
        let ghost order_old = order_idx@;
        order_idx.push(b);
        flags[b] = true;
        proof {
            assert(flags@ =~= flags_old.update(b as int, true));
            lemma_emit_step(
                dependency_vec@,
                modules@,
                edges@,
                flags_old,
                flags@,
                order_old,
                order_idx@,
                b as int,
            );
        }
        best = find_best_ready(&edges, &flags, modules);
    }
    let ghost em = to_ints(order_idx@);
    proof {
        // No module is ready, so the specification's recursion has reached
        // its base case.
        assert forall|x: int| !spec_ready(dependency_vec@, modules@, em, x) by {
            if 0 <= x < n {
                lemma_ready_corresponds(dependency_vec@, modules@, edges@, flags@, em, x);
            }
        }
        assert(spec_kahn(dependency_vec@, modules@, em) == em);
    }
    if order_idx.len() == n {
        // Every module was emitted: reverse the order so that dependencies
        // come first, and hand the names out.
        let mut order_names: Vec<String> = Vec::new();
        let mut r2: usize = 0;
        while r2 < n
            invariant
                r2 <= n,
                n == modules@.len(),
                n == order_idx@.len(),
                forall|i: int| 0 <= i < order_idx@.len() ==> (#[trigger] order_idx@[i]) < n,
                order_names@.len() == r2,
                forall|i: int|
                    0 <= i < r2 ==> (#[trigger] order_names@[i])@ == modules@[order_idx@[n - 1
                        - i] as int].name@,
            decreases n - r2,
        {
            order_names.push(modules[order_idx[n - 1 - r2]].name.clone());
            r2 = r2 + 1;
        }
        proof {
            let order = order_names@;
            let k = spec_kahn(dependency_vec@, modules@, Seq::empty());
            assert(k == em);
            assert(crate::text::views_of_strings(order) =~= spec_sort_names(
                dependency_vec@,
                modules@,
            ));
            // Distinct names, each from the catalog, and all of the catalog.
            assert forall|p: int, q: int| 0 <= p < q < order.len() implies (
            #[trigger] order[p])@ != (#[trigger] order[q])@ by {
                assert(em[n - 1 - p] != em[n - 1 - q]);
            }
            assert forall|p: int| 0 <= p < order.len() implies spec_has_name(
                modules@,
                (#[trigger] order[p])@,
            ) by {
                assert(modules@[em[n - 1 - p]].name@ == order[p]@);
            }
            assert forall|j: int| 0 <= j < modules@.len() implies
                crate::text::spec_contains_string(order, (#[trigger] modules@[j]).name@) by {
                lemma_distinct_bounded_onto(em, n as int, j);
                let w = choose|w: int| 0 <= w < em.len() && em[w] == j;
                assert(order[n - 1 - w]@ == modules@[j].name@);
            }
            // Every dependency precedes its dependent.
            assert forall|k2: int, p: int, q: int|
                0 <= k2 < dependency_vec@.len() && 0 <= p < order.len() && 0 <= q < order.len()
                    && (#[trigger] order[p])@ == (#[trigger] dependency_vec@[k2]).depends@ && (
                #[trigger] order[q])@ == dependency_vec@[k2].node@ implies p < q by {
                let d = edges@[k2].1 as int;
                let c = edges@[k2].0 as int;
                assert(modules@[d].name@ == dependency_vec@[k2].depends@);
                assert(modules@[c].name@ == dependency_vec@[k2].node@);
                assert(modules@[em[n - 1 - p]].name@ == order[p]@);
                assert(modules@[em[n - 1 - q]].name@ == order[q]@);
                assert(em[n - 1 - p] == d);
                assert(em[n - 1 - q] == c);
                assert(order_idx@[n - 1 - p] as int == edges@[k2].1 as int);
                let q2 = choose|q2: int|
                    0 <= q2 < n - 1 - p && order_idx@[q2] as int == edges@[k2].0 as int;
                assert(em[q2] == c);
                assert(em[n - 1 - q] == em[q2]);
                assert(n - 1 - q == q2);
            }
            assert(spec_kahn(dependency_vec@, modules@, Seq::empty()).len() == modules@.len());
            assert(order.len() == modules@.len());
            assert(crate::text::views_of_strings(order) == spec_sort_names(
                dependency_vec@,
                modules@,
            ));
        }
        return Ok((order_names, warns));
    }
    // Some modules could not be emitted: every one of them has an unemitted
    // dependent, so following dependents from any of them must come back on
    // itself. Walk that path and report the cycle it closes.
    proof {
        assert forall|x: int|
            0 <= x < n && !flags@[x] implies exists|t: int|
            0 <= t < edges@.len() && (#[trigger] edges@[t]).1 as int == x && !flags@[edges@[
        t].0 as int] by {
            assert(!ready_idx(edges@, flags@, x));
        }
    }
    let mut start: usize = 0;
    let mut found_start = false;
    let mut s: usize = 0;
    while s < n
        invariant
            s <= n,
            n == flags@.len(),
            !found_start ==> forall|x: int| 0 <= x < s ==> flags@[x],
            found_start ==> start < n && !flags@[start as int],
        decreases n - s,
    {
        if !found_start && !flags[s] {
            start = s;
            found_start = true;
        }
        s = s + 1;
    }
    if !found_start {
        proof {
            assert forall|x: int| 0 <= x < n implies em.contains(x) by {
                assert(flags@[x]);
            }
            assert forall|x: int| 0 <= x < n implies em.to_set().contains(x) by {
                assert(em.contains(x));
            }
            em.unique_seq_to_set();
            vstd::set_lib::lemma_int_range(0, n as int);
            assert(vstd::set_lib::set_int_range(0, n as int).subset_of(em.to_set()));
            vstd::set_lib::lemma_len_subset(
                vstd::set_lib::set_int_range(0, n as int),
                em.to_set(),
            );
            assert(false);
        }
        return Err((Vec::new(), warns));
    }
    proof {
        assert(em.len() == order_idx@.len());
        assert(spec_kahn(dependency_vec@, modules@, Seq::empty()).len() < modules@.len());
    }
    let cycle_names = find_cycle(dependency_vec, &edges, &flags, modules, start);
    let ghost cyc = choose|c: Seq<int>|
        spec_is_cycle(dependency_vec@, modules@, c) && crate::text::views_of_strings(
            cycle_names@,
        ) == Seq::new(c.len(), |i: int| modules@[c[i]].name@);
    let list = join_names(&cycle_names, " -> ");
    let first = cycle_names[0].clone();
    proof {
        assert(first@ == crate::text::views_of_strings(cycle_names@)[0]);
        assert(first@ == modules@[cyc[0]].name@);
    }
    let msg = crate::text::concat5(
        "Cycle detected in the dependency graph:\n  ",
        list.as_str(),
        " -> ",
        first.as_str(),
        "\n",
    );
    let mut errors: Vec<String> = Vec::new();
    errors.push(msg);
    proof {
        assert(errors@[0]@ == "Cycle detected in the dependency graph:\n  "@
            + crate::text::spec_join(
            Seq::new(cyc.len(), |i: int| modules@[cyc[i]].name@),
            " -> "@,
        ) + " -> "@ + modules@[cyc[0]].name@ + "\n"@);
    }
    Err((errors, warns))
}

/// Walks from an unemitted module to an unemitted dependent, again and
/// again, until the walk returns to a module it already passed; the stretch
/// between, read backwards, is a dependency cycle, returned as names.
#[verifier::spinoff_prover]
fn find_cycle(
    deps: &Vec<NodeDepends>,
    edges: &Vec<(usize, usize)>,
    flags: &Vec<bool>,
    modules: &Vec<ModuleType>,
    start: usize,
) -> (r: Vec<String>)
    requires
        edges_ok(edges@, deps@, modules@),
        flags@.len() == modules@.len(),
        start < modules@.len(),
        !flags@[start as int],
        forall|x: int|
            0 <= x < modules@.len() && !flags@[x] ==> exists|t: int|
                0 <= t < edges@.len() && (#[trigger] edges@[t]).1 as int == x && !flags@[edges@[
                t].0 as int],
    ensures
        r@.len() >= 1,
        exists|c: Seq<int>|
            spec_is_cycle(deps@, modules@, c) && crate::text::views_of_strings(r@) == Seq::new(
                c.len(),
                |i: int| modules@[c[i]].name@,
            ),
{
    let n = modules.len();
    let mut path: Vec<usize> = Vec::new();
    path.push(start);
    loop
        invariant
            n == modules@.len(),
            n == flags@.len(),
            edges_ok(edges@, deps@, modules@),
            forall|x: int|
                0 <= x < n && !flags@[x] ==> exists|t: int|
                    0 <= t < edges@.len() && (#[trigger] edges@[t]).1 as int == x && !flags@[
                    edges@[t].0 as int],
            path@.len() >= 1,
            forall|j: int| 0 <= j < path@.len() ==> (#[trigger] path@[j]) < n && !flags@[path@[
            j] as int],
            forall|i: int, j: int| 0 <= i < j < path@.len() ==> path@[i] != path@[j],
            forall|j: int|
                0 <= j < path@.len() - 1 ==> has_edge_idx(
                    edges@,
                    (#[trigger] path@[j + 1]) as int,
                    path@[j] as int,
                ),
            path@.len() <= n,
        decreases n - path@.len(),
    {
        let cur = path[path.len() - 1];
        let c = find_unemitted_caller(edges, flags, cur);
        match position_of(&path, c) {
            Some(p) => {
                return collect_cycle_names(deps, edges, modules, &path, p);
            },
            None => {
                path.push(c);
                proof {
                    assert(path@.last() == c);
                    lemma_distinct_bounded_len(
                        path@.map_values(|u: usize| u as int),
                        n as int,
                    );
                    assert(path@.map_values(|u: usize| u as int).len() == path@.len());
                }
            },
        }
    }
}

/// Reads the closed stretch of a walk backwards and hands out its names.
#[verifier::spinoff_prover]
fn collect_cycle_names(
    deps: &Vec<NodeDepends>,
    edges: &Vec<(usize, usize)>,
    modules: &Vec<ModuleType>,
    path: &Vec<usize>,
    p: usize,
) -> (r: Vec<String>)
    requires
        edges_ok(edges@, deps@, modules@),
        (p as int) < path@.len(),
        forall|j: int| 0 <= j < path@.len() ==> (#[trigger] path@[j]) < modules@.len(),
        forall|i: int, j: int| 0 <= i < j < path@.len() ==> path@[i] != path@[j],
        forall|j: int|
            0 <= j < path@.len() - 1 ==> has_edge_idx(
                edges@,
                (#[trigger] path@[j + 1]) as int,
                path@[j] as int,
            ),
        has_edge_idx(edges@, path@[p as int] as int, path@[path@.len() - 1] as int),
    ensures
        r@.len() >= 1,
        exists|c: Seq<int>|
            spec_is_cycle(deps@, modules@, c) && crate::text::views_of_strings(r@) == Seq::new(
                c.len(),
                |i: int| modules@[c[i]].name@,
            ),
{
    let plen = path.len();
    let ghost cyc = Seq::new((plen - p) as nat, |i: int| path@[plen - 1 - i] as int);
    proof {
        lemma_cycle_from_walk(deps@, modules@, edges@, path@, p as int, cyc);
        assert(spec_is_cycle(deps@, modules@, cyc));
    }
    let mut cycle_names: Vec<String> = Vec::new();
    let mut idx: usize = plen;
    while idx > p
        invariant
            p <= idx <= plen,
            plen == path@.len(),
            cyc == Seq::new((plen - p) as nat, |i: int| path@[plen - 1 - i] as int),
            cycle_names@.len() == plen - idx,
            forall|j: int| 0 <= j < path@.len() ==> (#[trigger] path@[j]) < modules@.len(),
            spec_is_cycle(deps@, modules@, cyc),
            forall|k: int|
                0 <= k < cycle_names@.len() ==> (#[trigger] cycle_names@[k])@ == modules@[cyc[
                k]].name@,
        decreases idx,
    {
        idx = idx - 1;
        cycle_names.push(modules[path[idx]].name.clone());
        proof {
            assert(cyc[plen - 1 - idx as int] == path@[idx as int] as int);
        }
    }
    proof {
        assert(crate::text::views_of_strings(cycle_names@) =~= Seq::new(
            cyc.len(),
            |i: int| modules@[cyc[i]].name@,
        ));
    }
    cycle_names
}

/// Whether two catalogs agree on every name and arity.
pub open spec fn types_views_eq(a: Seq<ModuleType>, b: Seq<ModuleType>) -> bool {
    &&& a.len() == b.len()
    &&& forall|i: int|
        0 <= i < a.len() ==> (#[trigger] a[i]).name@ == (#[trigger] b[i]).name@ && a[i].mtype
            == b[i].mtype
}

/// Whether two edge lists agree on every pair of names.
pub open spec fn deps_views_eq(a: Seq<NodeDepends>, b: Seq<NodeDepends>) -> bool {
    &&& a.len() == b.len()
    &&& forall|k: int|
        0 <= k < a.len() ==> (#[trigger] a[k]).node@ == (#[trigger] b[k]).node@ && a[k].depends@
            == b[k].depends@
}

/// The entry index of a name agrees across view-equal catalogs with
/// distinct names.
proof fn lemma_name_index_congruent(
    m1: Seq<ModuleType>,
    m2: Seq<ModuleType>,
    name: Seq<char>,
)
    requires
        types_views_eq(m1, m2),
        spec_names_distinct(m1),
        spec_has_name(m1, name),
    ensures
        spec_has_name(m2, name),
        spec_name_index(m1, name) == spec_name_index(m2, name),
{
    let w = choose|i: int| 0 <= i < m1.len() && (#[trigger] m1[i]).name@ == name;
    assert(m2[w].name@ == name);
    let i1 = spec_name_index(m1, name);
    let i2 = spec_name_index(m2, name);
    assert(0 <= i1 < m1.len() && m1[i1].name@ == name);
    assert(0 <= i2 < m2.len() && m2[i2].name@ == name);
    assert(m1[i2].name@ == name);
    if i1 != i2 {
        assert(m1[i1].name@ != m1[i2].name@);
    }
}

/// Readiness agrees across view-equal inputs.
proof fn lemma_ready_congruent(
    d1: Seq<NodeDepends>,
    m1: Seq<ModuleType>,
    d2: Seq<NodeDepends>,
    m2: Seq<ModuleType>,
    em: Seq<int>,
    x: int,
)
    requires
        deps_views_eq(d1, d2),
        types_views_eq(m1, m2),
        spec_sort_input_ok(d1, m1),
        spec_ready(d1, m1, em, x),
    ensures
        spec_ready(d2, m2, em, x),
{
    assert forall|k: int|
        0 <= k < d2.len() && (#[trigger] d2[k]).depends@ == m2[x].name@ implies em.contains(
        spec_name_index(m2, d2[k].node@),
    ) by {
        assert(d1[k].depends@ == m1[x].name@);
        assert(em.contains(spec_name_index(m1, d1[k].node@)));
        lemma_name_index_congruent(m1, m2, d1[k].node@);
    }
}

/// Among the ready modules of a catalog with distinct names, one comes last
/// in name order, provided any is ready at all: scanning the catalog keeps
/// a running latest.
#[verifier::rlimit(100)]
#[verifier::spinoff_prover]
proof fn lemma_exists_max_ready(
    deps: Seq<NodeDepends>,
    modules: Seq<ModuleType>,
    em: Seq<int>,
    i: int,
)
    requires
        spec_names_distinct(modules),
        0 <= i <= modules.len(),
        exists|x: int| spec_ready(deps, modules, em, x) && x < i,
    ensures
        exists|x: int|
            spec_ready(deps, modules, em, x) && x < i && (forall|y: int|
                spec_ready(deps, modules, em, y) && y < i && y != x ==> spec_name_lt(
                    #[trigger] modules[y],
                    modules[x],
                )),
    decreases i,
{
    let w = choose|x: int| spec_ready(deps, modules, em, x) && x < i;
    assert(i >= 1);
    if spec_ready(deps, modules, em, i - 1) {
        if exists|x: int| spec_ready(deps, modules, em, x) && x < i - 1 {
            lemma_exists_max_ready(deps, modules, em, i - 1);
            let b = choose|x: int|
                spec_ready(deps, modules, em, x) && x < i - 1 && (forall|y: int|
                    spec_ready(deps, modules, em, y) && y < i - 1 && y != x ==> spec_name_lt(
                        #[trigger] modules[y],
                        modules[x],
                    ));
            lemma_name_order_total(modules, b, i - 1);
            if spec_name_lt(modules[b], modules[i - 1]) {
                assert forall|y: int|
                    spec_ready(deps, modules, em, y) && y < i && y != i - 1 implies spec_name_lt(
                    #[trigger] modules[y],
                    modules[i - 1],
                ) by {
                    if y != b {
                        crate::text::lemma_lex_lt_transitive(
                            encode_utf8(modules[y].name@),
                            encode_utf8(modules[b].name@),
                            encode_utf8(modules[i - 1].name@),
                        );
                    }
                }
            } else {
                assert forall|y: int|
                    spec_ready(deps, modules, em, y) && y < i && y != b implies spec_name_lt(
                    #[trigger] modules[y],
                    modules[b],
                ) by {
                    if y == i - 1 {
                        assert(spec_name_lt(modules[i - 1], modules[b]));
                    }
                }
            }
        } else {
            assert forall|y: int|
                spec_ready(deps, modules, em, y) && y < i && y != i - 1 implies spec_name_lt(
                #[trigger] modules[y],
                modules[i - 1],
            ) by {
                assert(spec_ready(deps, modules, em, y) && y < i - 1);
            }
        }
    } else {
        assert(w < i - 1);
        lemma_exists_max_ready(deps, modules, em, i - 1);
        let b = choose|x: int|
            spec_ready(deps, modules, em, x) && x < i - 1 && (forall|y: int|
                spec_ready(deps, modules, em, y) && y < i - 1 && y != x ==> spec_name_lt(
                    #[trigger] modules[y],
                    modules[x],
                ));
        assert forall|y: int|
            spec_ready(deps, modules, em, y) && y < i && y != b implies spec_name_lt(
            #[trigger] modules[y],
            modules[b],
        ) by {
            assert(y != i - 1);
        }
    }
}

/// The whole emission order agrees across view-equal inputs.
pub proof fn lemma_kahn_congruent(
    d1: Seq<NodeDepends>,
    m1: Seq<ModuleType>,
    d2: Seq<NodeDepends>,
    m2: Seq<ModuleType>,
    em: Seq<int>,
)
    requires
        deps_views_eq(d1, d2),
        types_views_eq(m1, m2),
        spec_sort_input_ok(d1, m1),
        spec_sort_input_ok(d2, m2),
    ensures
        spec_kahn(d1, m1, em) == spec_kahn(d2, m2, em),
    decreases m1.len() - em.len(),
{
    assert(deps_views_eq(d2, d1));
    assert(types_views_eq(m2, m1));
    let ready1 = exists|x: int| spec_ready(d1, m1, em, x);
    let ready2 = exists|x: int| spec_ready(d2, m2, em, x);
    if ready1 {
        let w = choose|x: int| spec_ready(d1, m1, em, x);
        lemma_ready_congruent(d1, m1, d2, m2, em, w);
        assert(ready2);
    }
    if ready2 {
        let w = choose|x: int| spec_ready(d2, m2, em, x);
        lemma_ready_congruent(d2, m2, d1, m1, em, w);
        assert(ready1);
    }
    if em.len() < m1.len() && ready1 {
        let w = choose|x: int| spec_ready(d1, m1, em, x);
        assert(spec_ready(d1, m1, em, w) && w < m1.len());
        lemma_exists_max_ready(d1, m1, em, m1.len() as int);
        let b = choose|x: int|
            spec_ready(d1, m1, em, x) && x < m1.len() && (forall|y: int|
                spec_ready(d1, m1, em, y) && y < m1.len() && y != x ==> spec_name_lt(
                    #[trigger] m1[y],
                    m1[x],
                ));
        assert forall|y: int|
            spec_ready(d1, m1, em, y) && y != b implies spec_name_lt(
            #[trigger] m1[y],
            m1[b],
        ) by {
            assert(y < m1.len());
        }
        lemma_max_ready_unique(d1, m1, em, b);
        lemma_ready_congruent(d1, m1, d2, m2, em, b);
        assert forall|y: int|
            spec_ready(d2, m2, em, y) && y != b implies spec_name_lt(
            #[trigger] m2[y],
            m2[b],
        ) by {
            lemma_ready_congruent(d2, m2, d1, m1, em, y);
            assert(spec_name_lt(m1[y], m1[b]));
            assert(encode_utf8(m2[y].name@) == encode_utf8(m1[y].name@));
            assert(encode_utf8(m2[b].name@) == encode_utf8(m1[b].name@));
        }
        lemma_max_ready_unique(d2, m2, em, b);
        lemma_kahn_congruent(d1, m1, d2, m2, em.push(b));
    }
}

/// The dependencies-first name order agrees across view-equal inputs.
pub proof fn lemma_sort_names_congruent(
    d1: Seq<NodeDepends>,
    m1: Seq<ModuleType>,
    d2: Seq<NodeDepends>,
    m2: Seq<ModuleType>,
)
    requires
        deps_views_eq(d1, d2),
        types_views_eq(m1, m2),
        spec_sort_input_ok(d1, m1),
        spec_sort_input_ok(d2, m2),
    ensures
        spec_sort_names(d1, m1) == spec_sort_names(d2, m2),
{
    lemma_kahn_congruent(d1, m1, d2, m2, Seq::empty());
    let k = spec_kahn(d1, m1, Seq::empty());
    assert(spec_sort_names(d1, m1) =~= spec_sort_names(d2, m2)) by {
        assert forall|i: int| 0 <= i < k.len() implies spec_sort_names(d1, m1)[i]
            == spec_sort_names(d2, m2)[i] by {
            lemma_kahn_elements_in_range(d1, m1, Seq::empty());
            assert(m1[k[k.len() - 1 - i]].name@ == m2[k[k.len() - 1 - i]].name@);
        }
    }
}

/// Every index the emission order holds lies inside the catalog.
proof fn lemma_kahn_elements_in_range(
    deps: Seq<NodeDepends>,
    modules: Seq<ModuleType>,
    em: Seq<int>,
)
    requires
        spec_names_distinct(modules),
        forall|i: int| 0 <= i < em.len() ==> 0 <= #[trigger] em[i] < modules.len(),
    ensures
        forall|i: int|
            0 <= i < spec_kahn(deps, modules, em).len() ==> 0 <= #[trigger] spec_kahn(
                deps,
                modules,
                em,
            )[i] < modules.len(),
    decreases modules.len() - em.len(),
{
    if em.len() < modules.len() && (exists|x: int| spec_ready(deps, modules, em, x)) {
        let w = choose|x: int| spec_ready(deps, modules, em, x);
        assert(spec_ready(deps, modules, em, w) && w < modules.len());
        lemma_exists_max_ready(deps, modules, em, modules.len() as int);
        let bm = choose|x: int|
            spec_ready(deps, modules, em, x) && x < modules.len() && (forall|y: int|
                spec_ready(deps, modules, em, y) && y < modules.len() && y != x
                    ==> spec_name_lt(#[trigger] modules[y], modules[x]));
        assert forall|y: int|
            spec_ready(deps, modules, em, y) && y != bm implies spec_name_lt(
            #[trigger] modules[y],
            modules[bm],
        ) by {
            assert(y < modules.len());
        }
        lemma_max_ready_unique(deps, modules, em, bm);
        let b = spec_max_ready(deps, modules, em);
        assert(spec_ready(deps, modules, em, b));
        assert(forall|i: int|
            0 <= i < em.push(b).len() ==> 0 <= #[trigger] em.push(b)[i] < modules.len());
        lemma_kahn_elements_in_range(deps, modules, em.push(b));
        assert(spec_kahn(deps, modules, em) == spec_kahn(deps, modules, em.push(b)));
    }
}

/// A dependencies-first order and a dependency cycle cannot coexist: any
/// order that lists every module once and puts every dependency before its
/// dependent refutes every cycle. Together with the sorter's contract this
/// closes the loop: the sorter succeeds on exactly the acyclic graphs, since
/// success hands out such an order and failure hands out such a cycle.
pub proof fn lemma_sorted_order_excludes_cycles(
    deps: Seq<NodeDepends>,
    modules: Seq<ModuleType>,
    order: Seq<String>,
)
    requires
        forall|j: int|
            0 <= j < modules.len() ==> crate::text::spec_contains_string(
                order,
                (#[trigger] modules[j]).name@,
            ),
        forall|k: int, p: int, q: int|
            0 <= k < deps.len() && 0 <= p < order.len() && 0 <= q < order.len() && (
            #[trigger] order[p])@ == (#[trigger] deps[k]).depends@ && (#[trigger] order[q])@
                == deps[k].node@ ==> p < q,
    ensures
        forall|c: Seq<int>| !spec_is_cycle(deps, modules, c),
{
    assert forall|c: Seq<int>| !spec_is_cycle(deps, modules, c) by {
        if spec_is_cycle(deps, modules, c) {
            let last = c.len() - 1;
            lemma_cycle_positions_descend(deps, modules, order, c, last);
            let p0 = cycle_pos(modules, order, c, 0);
            let pl = cycle_pos(modules, order, c, last);
            // The wrap-around edge puts the first position below the last,
            // yet the chain already put the last at or below the first.
            assert(spec_edge(deps, modules, c[last], c[0]));
            let k = choose|k: int|
                0 <= k < deps.len() && (#[trigger] deps[k]).node@ == modules[c[last]].name@
                    && deps[k].depends@ == modules[c[0]].name@;
            lemma_cycle_pos_bounds(deps, modules, order, c, 0);
            lemma_cycle_pos_bounds(deps, modules, order, c, last);
            assert(order[p0]@ == deps[k].depends@);
            assert(order[pl]@ == deps[k].node@);
            assert(p0 < pl);
        }
    }
}

/// The position in the order of the `i`-th module of a cycle.
spec fn cycle_pos(modules: Seq<ModuleType>, order: Seq<String>, c: Seq<int>, i: int) -> int {
    choose|p: int| 0 <= p < order.len() && (#[trigger] order[p])@ == modules[c[i]].name@
}

/// That position exists and names the right module.
proof fn lemma_cycle_pos_bounds(
    deps: Seq<NodeDepends>,
    modules: Seq<ModuleType>,
    order: Seq<String>,
    c: Seq<int>,
    i: int,
)
    requires
        forall|j: int|
            0 <= j < modules.len() ==> crate::text::spec_contains_string(
                order,
                (#[trigger] modules[j]).name@,
            ),
        spec_is_cycle(deps, modules, c),
        0 <= i < c.len(),
    ensures
        0 <= cycle_pos(modules, order, c, i) < order.len(),
        order[cycle_pos(modules, order, c, i)]@ == modules[c[i]].name@,
{
    assert(crate::text::spec_contains_string(order, modules[c[i]].name@));
}

/// Walking a cycle forwards walks the order strictly backwards.
proof fn lemma_cycle_positions_descend(
    deps: Seq<NodeDepends>,
    modules: Seq<ModuleType>,
    order: Seq<String>,
    c: Seq<int>,
    i: int,
)
    requires
        forall|j: int|
            0 <= j < modules.len() ==> crate::text::spec_contains_string(
                order,
                (#[trigger] modules[j]).name@,
            ),
        forall|k: int, p: int, q: int|
            0 <= k < deps.len() && 0 <= p < order.len() && 0 <= q < order.len() && (
            #[trigger] order[p])@ == (#[trigger] deps[k]).depends@ && (#[trigger] order[q])@
                == deps[k].node@ ==> p < q,
        spec_is_cycle(deps, modules, c),
        0 <= i < c.len(),
    ensures
        cycle_pos(modules, order, c, i) <= cycle_pos(modules, order, c, 0) - i,
    decreases i,
{
    if i > 0 {
        lemma_cycle_positions_descend(deps, modules, order, c, i - 1);
        assert(spec_edge(deps, modules, c[i - 1], c[i]));
        let k = choose|k: int|
            0 <= k < deps.len() && (#[trigger] deps[k]).node@ == modules[c[i - 1]].name@
                && deps[k].depends@ == modules[c[i]].name@;
        lemma_cycle_pos_bounds(deps, modules, order, c, i - 1);
        lemma_cycle_pos_bounds(deps, modules, order, c, i);
        let p = cycle_pos(modules, order, c, i);
        let q = cycle_pos(modules, order, c, i - 1);
        assert(order[p]@ == deps[k].depends@);
        assert(order[q]@ == deps[k].node@);
        assert(p < q);
    }
}

/// A walk whose steps are edges and which closes on position `p` yields a
/// genuine dependency cycle when read backwards.
proof fn lemma_cycle_from_walk(
    deps: Seq<NodeDepends>,
    modules: Seq<ModuleType>,
    edges: Seq<(usize, usize)>,
    path: Seq<usize>,
    p: int,
    cyc: Seq<int>,
)
    requires
        edges_ok(edges, deps, modules),
        0 <= p < path.len(),
        forall|j: int| 0 <= j < path.len() ==> (#[trigger] path[j]) < modules.len(),
        forall|i: int, j: int| 0 <= i < j < path.len() ==> path[i] != path[j],
        forall|j: int|
            0 <= j < path.len() - 1 ==> has_edge_idx(
                edges,
                (#[trigger] path[j + 1]) as int,
                path[j] as int,
            ),
        has_edge_idx(edges, path[p] as int, path[path.len() - 1] as int),
        cyc == Seq::new(
            (path.len() - p) as nat,
            |i: int| path[path.len() - 1 - i] as int,
        ),
    ensures
        spec_is_cycle(deps, modules, cyc),
{
    let plen = path.len() as int;
    assert(cyc.len() == plen - p);
    assert forall|i: int| 0 <= i < cyc.len() - 1 implies spec_edge(
        deps,
        modules,
        #[trigger] cyc[i],
        cyc[i + 1],
    ) by {
        let j = plen - 2 - i;
        assert(cyc[i] == path[j + 1] as int);
        assert(cyc[i + 1] == path[j] as int);
        assert(has_edge_idx(edges, path[j + 1] as int, path[j] as int));
        lemma_edge_from_idx(deps, modules, edges, path[j + 1] as int, path[j] as int);
    }
    assert(cyc[cyc.len() - 1] == path[p] as int);
    assert(cyc[0] == path[plen - 1] as int);
    lemma_edge_from_idx(deps, modules, edges, path[p] as int, path[plen - 1] as int);
    assert forall|i: int, j: int| 0 <= i < j < cyc.len() implies cyc[i] != cyc[j] by {
        assert(cyc[i] == path[plen - 1 - i] as int);
        assert(cyc[j] == path[plen - 1 - j] as int);
    }
}

/// A resolved edge is an edge of the input.
proof fn lemma_edge_from_idx(
    deps: Seq<NodeDepends>,
    modules: Seq<ModuleType>,
    edges: Seq<(usize, usize)>,
    a: int,
    b: int,
)
    requires
        edges_ok(edges, deps, modules),
        has_edge_idx(edges, a, b),
    ensures
        spec_edge(deps, modules, a, b),
{
    let t = choose|t: int|
        0 <= t < edges.len() && (#[trigger] edges[t]).0 as int == a && edges[t].1 as int == b;
    assert(deps[t].node@ == modules[a].name@ && deps[t].depends@ == modules[b].name@);
}

} // verus!
