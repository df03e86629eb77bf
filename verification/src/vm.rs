use vstd::prelude::*;
use crate::spec_nor;
use crate::text::string_of;

verus! {

/// One NOR gate of a loaded netlist: the two cell indices it reads.
pub type NORGate = (u32, u32);

/// The state vector of a loaded netlist: gate cells first, then input cells.
pub type GatesCond = Vec<bool>;

/// A loaded netlist together with its mutable simulation state.
#[derive(Debug, Clone)]
pub struct Module {
    pub func: bool,
    pub name: String,
    pub inputs: u32,
    pub outputs: Vec<u32>,
    pub gates_sequential: Vec<NORGate>,
    pub gates_symmetry: Vec<NORGate>,
    pub cond: GatesCond,
    pub tick: u128,
}

/// Number of gate cells of a loaded module.
pub open spec fn vm_gate_count(m: Module) -> int {
    (m.gates_sequential@.len() + m.gates_symmetry@.len()) as int
}

/// Number of state cells of a loaded module: gate cells plus input cells.
pub open spec fn vm_cell_count(m: Module) -> int {
    vm_gate_count(m) + m.inputs as int
}

/// Whether every reference of `gates` stays below `cells`.
pub open spec fn gates_in_bounds(gates: Seq<NORGate>, cells: int) -> bool {
    forall|i: int|
        0 <= i < gates.len() ==> (#[trigger] gates[i]).0 < cells && gates[i].1 < cells
}

/// A runnable module: the state vector has exactly one cell per gate and per
/// input, and every gate reads existing cells.
pub open spec fn vm_wf(m: Module) -> bool {
    &&& m.cond@.len() == vm_cell_count(m)
    &&& gates_in_bounds(m.gates_sequential@, vm_cell_count(m))
    &&& gates_in_bounds(m.gates_symmetry@, vm_cell_count(m))
}

/// State after the first `n` sequential gates have fired, in order, each one
/// reading the partially updated state: gate `i` overwrites cell `i` with the
/// NOR of its two references as they stand at that moment.
pub open spec fn spec_seq_pass(gates: Seq<NORGate>, c: Seq<bool>, n: int) -> Seq<bool>
    decreases n,
{
    if n <= 0 {
        c
    } else {
        let p = spec_seq_pass(gates, c, n - 1);
        p.update(n - 1, spec_nor(p[gates[n - 1].0 as int], p[gates[n - 1].1 as int]))
    }
}

/// State after the first `n` symmetric gates have fired simultaneously:
/// symmetric gate `i` overwrites cell `base + i` with the NOR of its two
/// references as they stood in the snapshot `snap`.
pub open spec fn spec_sym_pass(
    gates: Seq<NORGate>,
    snap: Seq<bool>,
    c: Seq<bool>,
    base: int,
    n: int,
) -> Seq<bool>
    decreases n,
{
    if n <= 0 {
        c
    } else {
        spec_sym_pass(gates, snap, c, base, n - 1).update(
            base + n - 1,
            spec_nor(snap[gates[n - 1].0 as int], snap[gates[n - 1].1 as int]),
        )
    }
}

/// One full tick: the sequential pass reads the evolving state, then the
/// symmetric pass reads the snapshot taken before the tick began.
pub open spec fn spec_tick_cond(gs: Seq<NORGate>, gy: Seq<NORGate>, c: Seq<bool>) -> Seq<bool> {
    spec_sym_pass(
        gy,
        c,
        spec_seq_pass(gs, c, gs.len() as int),
        gs.len() as int,
        gy.len() as int,
    )
}

/// The state after `n` full ticks.
pub open spec fn spec_ticks_cond(
    gs: Seq<NORGate>,
    gy: Seq<NORGate>,
    c: Seq<bool>,
    n: nat,
) -> Seq<bool>
    decreases n,
{
    if n == 0 {
        c
    } else {
        spec_ticks_cond(gs, gy, spec_tick_cond(gs, gy, c), (n - 1) as nat)
    }
}

/// Checks that every reference of `gates` stays below `cells`.
fn check_gates_in_bounds(gates: &Vec<NORGate>, cells: usize) -> (r: bool)
    ensures
        r == gates_in_bounds(gates@, cells as int),
{
    let n = gates.len();
    let mut i: usize = 0;
    while i < n
        invariant
            i <= n,
            n == gates@.len(),
            forall|j: int| 0 <= j < i ==> (#[trigger] gates@[j]).0 < cells && gates@[j].1 < cells,
        decreases n - i,
    {
        let g = gates[i];
        if g.0 as usize >= cells || g.1 as usize >= cells {
            return false;
        }
        i = i + 1;
    }
    true
}

impl Module {
    /// Loads a module from its encoded word stream, with every cell cleared
    /// and the tick counter at zero.
    pub fn new(data: Vec<u32>) -> (r: Result<Self, String>)
        ensures
            r is Ok <==> crate::codec::spec_decode(data@) is Ok,
            r matches Ok(m) ==> crate::codec::is_decode_of(m, data@),
            r matches Err(e) ==> crate::codec::spec_decode(data@) matches Err(msg) && e@ == msg,
    {
        crate::codec::deserialize_from_vec(data.as_slice())
    }

    /// Whether this module is runnable: the state vector has one cell per
    /// gate and per input, and every gate reads existing cells.
    pub fn is_wf(&self) -> (r: bool)
        ensures
            r == vm_wf(*self),
    {
        let cl = self.cond.len();
        let gs_len = self.gates_sequential.len();
        let gy_len = self.gates_symmetry.len();
        let gates = match gs_len.checked_add(gy_len) {
            Some(v) => v,
            None => {
                return false;
            },
        };
        let cells = match gates.checked_add(self.inputs as usize) {
            Some(v) => v,
            None => {
                return false;
            },
        };
        if cl != cells {
            return false;
        }
        check_gates_in_bounds(&self.gates_sequential, cells) && check_gates_in_bounds(
            &self.gates_symmetry,
            cells,
        )
    }

    /// Clears every state cell and restarts the tick counter.
    pub fn reset(&mut self)
        ensures
            final(self).cond@ == Seq::new(old(self).cond@.len(), |i: int| false),
            final(self).tick == 0,
            final(self).func == old(self).func,
            final(self).name == old(self).name,
            final(self).inputs == old(self).inputs,
            final(self).outputs == old(self).outputs,
            final(self).gates_sequential == old(self).gates_sequential,
            final(self).gates_symmetry == old(self).gates_symmetry,
    {
        let n = self.cond.len();
        let mut i: usize = 0;
        while i < n
            invariant
                i <= n,
                n == self.cond@.len(),
                forall|j: int| 0 <= j < i ==> self.cond@[j] == false,
                self.cond@.len() == old(self).cond@.len(),
                self.func == old(self).func,
                self.name == old(self).name,
                self.inputs == old(self).inputs,
                self.outputs == old(self).outputs,
                self.gates_sequential == old(self).gates_sequential,
                self.gates_symmetry == old(self).gates_symmetry,
            decreases n - i,
        {
            self.cond[i] = false;
            i = i + 1;
        }
        self.tick = 0;
        proof {
            assert(self.cond@ =~= Seq::new(old(self).cond@.len(), |k: int| false));
        }
    }

    /// Sets the `index`-th input cell to `value`. Fails, and changes nothing,
    /// when the index does not address an input cell.
    pub fn set(&mut self, index: u32, value: bool) -> (r: Result<(), String>)
        ensures
            r is Ok <==> index as int + vm_gate_count(*old(self)) < old(self).cond@.len(),
            r is Ok ==> final(self).cond@ == old(self).cond@.update(
                index as int + vm_gate_count(*old(self)),
                value,
            ),
            r is Err ==> *final(self) == *old(self),
            vm_wf(*old(self)) ==> (r is Ok <==> (index as int) < old(self).inputs as int),
            final(self).tick == old(self).tick,
            final(self).func == old(self).func,
            final(self).name == old(self).name,
            final(self).inputs == old(self).inputs,
            final(self).outputs == old(self).outputs,
            final(self).gates_sequential == old(self).gates_sequential,
            final(self).gates_symmetry == old(self).gates_symmetry,
            final(self).cond@.len() == old(self).cond@.len(),
    {
        let pos = match self.cell_index_of_input(index) {
            Some(v) => v,
            None => {
                return Err(string_of("Index out of bounds"));
            },
        };
        self.cond[pos] = value;
        Ok(())
    }

    /// Flips the `index`-th input cell. Fails, and changes nothing, when the
    /// index does not address an input cell.
    pub fn inv(&mut self, index: u32) -> (r: Result<(), String>)
        ensures
            r is Ok <==> index as int + vm_gate_count(*old(self)) < old(self).cond@.len(),
            r is Ok ==> final(self).cond@ == old(self).cond@.update(
                index as int + vm_gate_count(*old(self)),
                !old(self).cond@[index as int + vm_gate_count(*old(self))],
            ),
            r is Err ==> *final(self) == *old(self),
            vm_wf(*old(self)) ==> (r is Ok <==> (index as int) < old(self).inputs as int),
            final(self).tick == old(self).tick,
            final(self).func == old(self).func,
            final(self).name == old(self).name,
            final(self).inputs == old(self).inputs,
            final(self).outputs == old(self).outputs,
            final(self).gates_sequential == old(self).gates_sequential,
            final(self).gates_symmetry == old(self).gates_symmetry,
            final(self).cond@.len() == old(self).cond@.len(),
    {
        let pos = match self.cell_index_of_input(index) {
            Some(v) => v,
            None => {
                return Err(string_of("Index out of bounds"));
            },
        };
        let cur = self.cond[pos];
        self.cond[pos] = !cur;
        Ok(())
    }

    /// The position of the `index`-th input cell inside the state vector, if
    /// it exists.
    fn cell_index_of_input(&self, index: u32) -> (r: Option<usize>)
        ensures
            r is Some <==> index as int + vm_gate_count(*self) < self.cond@.len(),
            r matches Some(p) ==> p as int == index as int + vm_gate_count(*self),
    {
        let cl = self.cond.len();
        let gates = match self.gates_sequential.len().checked_add(self.gates_symmetry.len()) {
            Some(v) => v,
            None => {
                return None;
            },
        };
        let pos = match gates.checked_add(index as usize) {
            Some(v) => v,
            None => {
                return None;
            },
        };
        if pos < cl {
            Some(pos)
        } else {
            None
        }
    }

    /// Gathers the value of every output cell, in declaration order. Fails
    /// when some output index addresses no cell.
    pub fn get_output(&self) -> (r: Result<GatesCond, String>)
        ensures
            r is Ok <==> (forall|k: int|
                0 <= k < self.outputs@.len() ==> #[trigger] self.outputs@[k] < self.cond@.len()),
            r matches Ok(v) ==> {
                &&& v@.len() == self.outputs@.len()
                &&& forall|k: int|
                    0 <= k < v@.len() ==> #[trigger] v@[k] == self.cond@[self.outputs@[k] as int]
            },
    {
        let mut outputs: Vec<bool> = Vec::new();
        let n = self.outputs.len();
        let mut i: usize = 0;
        while i < n
            invariant
                i <= n,
                n == self.outputs@.len(),
                outputs@.len() == i,
                forall|k: int| 0 <= k < i ==> #[trigger] self.outputs@[k] < self.cond@.len(),
                forall|k: int|
                    0 <= k < i ==> #[trigger] outputs@[k] == self.cond@[self.outputs@[k] as int],
            decreases n - i,
        {
            let idx = self.outputs[i];
            if idx as usize >= self.cond.len() {
                return Err(string_of("Index out of bounds"));
            }
            outputs.push(self.cond[idx as usize]);
            i = i + 1;
        }
        Ok(outputs)
    }

    /// Gathers the value of every input cell, in order. Fails when some input
    /// cell lies outside the state vector.
    pub fn get_input(&self) -> (r: Result<GatesCond, String>)
        ensures
            r is Ok <==> (self.inputs == 0 || self.inputs as int + vm_gate_count(*self)
                <= self.cond@.len()),
            r matches Ok(v) ==> {
                &&& v@.len() == self.inputs as int
                &&& forall|k: int|
                    0 <= k < v@.len() ==> #[trigger] v@[k] == self.cond@[k + vm_gate_count(*self)]
            },
    {
        let cl = self.cond.len();
        let gates = match self.gates_sequential.len().checked_add(self.gates_symmetry.len()) {
            Some(v) => v,
            None => {
                if self.inputs == 0 {
                    return Ok(Vec::new());
                }
                return Err(string_of("Index out of bounds"));
            },
        };
        let mut inputs: Vec<bool> = Vec::new();
        let n = self.inputs;
        let mut i: u32 = 0;
        while i < n
            invariant
                i <= n,
                n == self.inputs,
                gates == vm_gate_count(*self),
                cl == self.cond@.len(),
                inputs@.len() == i as int,
                i > 0 ==> i as int + vm_gate_count(*self) <= self.cond@.len(),
                forall|k: int|
                    0 <= k < i as int ==> #[trigger] inputs@[k] == self.cond@[k + vm_gate_count(
                        *self,
                    )],
            decreases n - i,
    {
            let pos = match gates.checked_add(i as usize) {
                Some(v) => v,
                None => {
                    return Err(string_of("Index out of bounds"));
                },
            };
            if pos >= cl {
                return Err(string_of("Index out of bounds"));
            }
            inputs.push(self.cond[pos]);
            i = i + 1;
        }
        Ok(inputs)
    }

    /// The raw state vector: every gate cell followed by every input cell.
    pub fn get_gates(&self) -> (r: GatesCond)
        ensures
            r@ =~= self.cond@,
    {
        let mut copy: Vec<bool> = Vec::new();
        let n = self.cond.len();
        let mut i: usize = 0;
        while i < n
            invariant
                i <= n,
                n == self.cond@.len(),
                copy@.len() == i,
                forall|k: int| 0 <= k < i ==> #[trigger] copy@[k] == self.cond@[k],
            decreases n - i,
        {
            copy.push(self.cond[i]);
            i = i + 1;
        }
        copy
    }

    /// The number of ticks run since the last reset.
    pub fn get_tick(&self) -> (r: u128)
        ensures
            r == self.tick,
    {
        self.tick
    }

    /// Advances the netlist by `n` ticks. Each tick runs the sequential pass
    /// in gate order over the live state, then the symmetric pass against the
    /// snapshot taken when the tick began, and then counts the tick. Fails,
    /// and changes nothing, when the module is not runnable.
    pub fn next(&mut self, n: u32) -> (r: Result<u128, String>)
        requires
            old(self).tick + n as int <= u128::MAX,
        ensures
            r is Ok <==> vm_wf(*old(self)),
            r is Err ==> *final(self) == *old(self),
            r is Ok ==> {
                &&& final(self).cond@ == spec_ticks_cond(
                    old(self).gates_sequential@,
                    old(self).gates_symmetry@,
                    old(self).cond@,
                    n as nat,
                )
                &&& final(self).tick == old(self).tick + n as int
                &&& r == Ok::<u128, String>(final(self).tick)
                &&& vm_wf(*final(self))
            },
            final(self).func == old(self).func,
            final(self).name == old(self).name,
            final(self).inputs == old(self).inputs,
            final(self).outputs == old(self).outputs,
            final(self).gates_sequential == old(self).gates_sequential,
            final(self).gates_symmetry == old(self).gates_symmetry,
    {
        if !self.is_wf() {
            return Err(string_of("gates access error"));
        }
        let mut k: u32 = 0;
        while k < n
            invariant
                k <= n,
                old(self).tick + n as int <= u128::MAX,
                vm_wf(*self),
                self.cond@ == spec_ticks_cond(
                    old(self).gates_sequential@,
                    old(self).gates_symmetry@,
                    old(self).cond@,
                    k as nat,
                ),
                self.tick == old(self).tick + k as int,
                self.func == old(self).func,
                self.name == old(self).name,
                self.inputs == old(self).inputs,
                self.outputs == old(self).outputs,
                self.gates_sequential == old(self).gates_sequential,
                self.gates_symmetry == old(self).gates_symmetry,
            decreases n - k,
        {
            self.run_one_tick();
            k = k + 1;
            proof {
                lemma_ticks_cond_unfold_back(
                    old(self).gates_sequential@,
                    old(self).gates_symmetry@,
                    old(self).cond@,
                    k as nat,
                );
            }
        }
        Ok(self.tick)
    }

    /// One tick of a runnable module: the sequential pass over the live
    /// state, then the symmetric pass against the pre-tick snapshot.
    fn run_one_tick(&mut self)
        requires
            vm_wf(*old(self)),
            old(self).tick < u128::MAX,
        ensures
            final(self).cond@ == spec_tick_cond(
                old(self).gates_sequential@,
                old(self).gates_symmetry@,
                old(self).cond@,
            ),
            final(self).tick == old(self).tick + 1,
            vm_wf(*final(self)),
            final(self).func == old(self).func,
            final(self).name == old(self).name,
            final(self).inputs == old(self).inputs,
            final(self).outputs == old(self).outputs,
            final(self).gates_sequential == old(self).gates_sequential,
            final(self).gates_symmetry == old(self).gates_symmetry,
    {
        let ghost c0 = self.cond@;
        let snap = self.get_gates();
        let gs_len = self.gates_sequential.len();
        let mut i: usize = 0;
        while i < gs_len
            invariant
                i <= gs_len,
                gs_len == self.gates_sequential@.len(),
                vm_wf(*self),
                snap@ == c0,
                self.cond@ == spec_seq_pass(self.gates_sequential@, c0, i as int),
                self.cond@.len() == c0.len(),
                self.tick == old(self).tick,
                self.func == old(self).func,
                self.name == old(self).name,
                self.inputs == old(self).inputs,
                self.outputs == old(self).outputs,
                self.gates_sequential == old(self).gates_sequential,
                self.gates_symmetry == old(self).gates_symmetry,
            decreases gs_len - i,
        {
            let g = self.gates_sequential[i];
            let a = self.cond[g.0 as usize];
            let b = self.cond[g.1 as usize];
            self.cond[i] = !(a || b);
            i = i + 1;
        }
        let gy_len = self.gates_symmetry.len();
        let cells = self.cond.len();
        let ghost c1 = self.cond@;
        let mut j: usize = 0;
        while j < gy_len
            invariant
                j <= gy_len,
                cells == self.cond@.len(),
                gy_len == self.gates_symmetry@.len(),
                gs_len == self.gates_sequential@.len(),
                vm_wf(*self),
                snap@ == c0,
                self.cond@ == spec_sym_pass(self.gates_symmetry@, c0, c1, gs_len as int, j as int),
                self.cond@.len() == c1.len(),
                c1.len() == c0.len(),
                self.tick == old(self).tick,
                self.func == old(self).func,
                self.name == old(self).name,
                self.inputs == old(self).inputs,
                self.outputs == old(self).outputs,
                self.gates_sequential == old(self).gates_sequential,
                self.gates_symmetry == old(self).gates_symmetry,
            decreases gy_len - j,
        {
            let g = self.gates_symmetry[j];
            let a = snap[g.0 as usize];
            let b = snap[g.1 as usize];
            self.cond[gs_len + j] = !(a || b);
            j = j + 1;
        }
        self.tick = self.tick + 1;
    }
}

/// A sequential pass only rewrites the cells below `n`.
proof fn lemma_seq_pass_untouched(gates: Seq<NORGate>, c: Seq<bool>, n: int, j: int)
    requires
        n <= c.len(),
        n <= j < c.len(),
    ensures
        spec_seq_pass(gates, c, n)[j] == c[j],
    decreases n,
{
    if n > 0 {
        lemma_seq_pass_untouched(gates, c, n - 1, j);
        lemma_seq_pass_len(gates, c, n - 1);
    }
}

/// A sequential pass never changes the length of the state.
proof fn lemma_seq_pass_len(gates: Seq<NORGate>, c: Seq<bool>, n: int)
    requires
        n <= c.len(),
    ensures
        spec_seq_pass(gates, c, n).len() == c.len(),
    decreases n,
{
    if n > 0 {
        lemma_seq_pass_len(gates, c, n - 1);
    }
}

/// Once sequential gate `j` has fired, later steps of the same pass leave its
/// cell alone.
proof fn lemma_seq_pass_stable(gates: Seq<NORGate>, c: Seq<bool>, n: int, j: int)
    requires
        0 <= j < n <= c.len(),
    ensures
        spec_seq_pass(gates, c, n)[j] == spec_seq_pass(gates, c, j + 1)[j],
    decreases n,
{
    if n > j + 1 {
        lemma_seq_pass_stable(gates, c, n - 1, j);
        lemma_seq_pass_len(gates, c, n - 1);
    }
}

/// When every gate reads only cells that fired earlier in the same pass, or
/// cells the pass never writes, a second pass recomputes exactly the values
/// the first pass left behind.
proof fn lemma_seq_pass_idempotent_upto(gates: Seq<NORGate>, c: Seq<bool>, n: int)
    requires
        gates.len() <= c.len(),
        gates_in_bounds(gates, c.len() as int),
        0 <= n <= gates.len(),
        forall|i: int|
            0 <= i < gates.len() ==> (((#[trigger] gates[i]).0 as int) < i || gates[i].0
                >= gates.len()) && ((gates[i].1 as int) < i || gates[i].1 >= gates.len()),
    ensures
        spec_seq_pass(gates, spec_seq_pass(gates, c, gates.len() as int), n) == spec_seq_pass(
            gates,
            c,
            gates.len() as int,
        ),
    decreases n,
{
    let len = gates.len() as int;
    let c1 = spec_seq_pass(gates, c, len);
    lemma_seq_pass_len(gates, c, len);
    if n > 0 {
        lemma_seq_pass_idempotent_upto(gates, c, n - 1);
        let g = gates[n - 1];
        // The value cell `n - 1` holds in `c1` is what gate `n - 1` computed.
        lemma_seq_pass_stable(gates, c, len, n - 1);
        lemma_seq_pass_len(gates, c, n - 1);
        let q = spec_seq_pass(gates, c, n - 1);
        assert(c1[n - 1] == spec_nor(q[g.0 as int], q[g.1 as int]));
        // Each reference reads the same value in `q` and in `c1`.
        if (g.0 as int) < n - 1 {
            lemma_seq_pass_stable(gates, c, len, g.0 as int);
            lemma_seq_pass_stable(gates, c, n - 1, g.0 as int);
        } else {
            lemma_seq_pass_untouched(gates, c, len, g.0 as int);
            lemma_seq_pass_untouched(gates, c, n - 1, g.0 as int);
        }
        if (g.1 as int) < n - 1 {
            lemma_seq_pass_stable(gates, c, len, g.1 as int);
            lemma_seq_pass_stable(gates, c, n - 1, g.1 as int);
        } else {
            lemma_seq_pass_untouched(gates, c, len, g.1 as int);
            lemma_seq_pass_untouched(gates, c, n - 1, g.1 as int);
        }
        assert(c1[n - 1] == spec_nor(c1[g.0 as int], c1[g.1 as int]));
        assert(spec_seq_pass(gates, c1, n) =~= c1);
    }
}

/// A purely combinational netlist settles in one tick: when there are no
/// symmetric gates and every sequential gate reads only strictly earlier
/// gate cells or input cells, the state after any positive number of ticks
/// equals the state after the first tick.
pub proof fn lemma_sequential_settles(gs: Seq<NORGate>, gy: Seq<NORGate>, c: Seq<bool>, n: nat)
    requires
        gy.len() == 0,
        gs.len() <= c.len(),
        gates_in_bounds(gs, c.len() as int),
        forall|i: int|
            0 <= i < gs.len() ==> (((#[trigger] gs[i]).0 as int) < i || gs[i].0 >= gs.len()) && ((
            gs[i].1 as int) < i || gs[i].1 >= gs.len()),
        n >= 1,
    ensures
        spec_ticks_cond(gs, gy, c, n) == spec_ticks_cond(gs, gy, c, 1),
    decreases n,
{
    let len = gs.len() as int;
    let c1 = spec_tick_cond(gs, gy, c);
    assert(c1 == spec_seq_pass(gs, c, len));
    if n > 1 {
        lemma_seq_pass_len(gs, c, len);
        lemma_seq_pass_idempotent_upto(gs, c, len);
        assert(spec_tick_cond(gs, gy, c1) == c1);
        lemma_sequential_settles(gs, gy, c1, (n - 1) as nat);
        lemma_ticks_cond_unfold_back(gs, gy, c, n);
        if n - 1 >= 1 {
            lemma_ticks_cond_unfold_back(gs, gy, c, (n - 1) as nat);
        }
        assert(spec_ticks_cond(gs, gy, c, n) == spec_tick_cond(
            gs,
            gy,
            spec_ticks_cond(gs, gy, c, (n - 1) as nat),
        ));
    }
}

/// A symmetric pass never changes the length of the state.
proof fn lemma_sym_pass_len(gates: Seq<NORGate>, snap: Seq<bool>, c: Seq<bool>, base: int, n: int)
    requires
        base >= 0,
        base + n <= c.len(),
    ensures
        spec_sym_pass(gates, snap, c, base, n).len() == c.len(),
    decreases n,
{
    if n > 0 {
        lemma_sym_pass_len(gates, snap, c, base, n - 1);
    }
}

/// After one tick, each symmetric gate's cell holds the NOR of the values its
/// two references had when the tick began: a change made to the state during
/// the tick, such as the sequential pass rewriting a gate cell, is not seen
/// by the symmetric pass before the following tick.
pub proof fn lemma_symmetric_reads_snapshot(gs: Seq<NORGate>, gy: Seq<NORGate>, c: Seq<bool>, i: int)
    requires
        0 <= i < gy.len(),
        gs.len() + gy.len() <= c.len(),
    ensures
        spec_tick_cond(gs, gy, c)[gs.len() + i] == spec_nor(
            c[gy[i].0 as int],
            c[gy[i].1 as int],
        ),
{
    let len = gs.len() as int;
    let c1 = spec_seq_pass(gs, c, len);
    lemma_seq_pass_len(gs, c, len);
    lemma_sym_pass_at(gy, c, c1, len, gy.len() as int, i);
}

/// Inside a symmetric pass, the cell written for gate `i` keeps the value
/// computed from the snapshot.
proof fn lemma_sym_pass_at(
    gates: Seq<NORGate>,
    snap: Seq<bool>,
    c: Seq<bool>,
    base: int,
    n: int,
    i: int,
)
    requires
        base >= 0,
        base + n <= c.len(),
        0 <= i < n <= gates.len(),
    ensures
        spec_sym_pass(gates, snap, c, base, n)[base + i] == spec_nor(
            snap[gates[i].0 as int],
            snap[gates[i].1 as int],
        ),
    decreases n,
{
    if i == n - 1 {
        lemma_sym_pass_len(gates, snap, c, base, n - 1);
    } else {
        lemma_sym_pass_at(gates, snap, c, base, n - 1, i);
        lemma_sym_pass_len(gates, snap, c, base, n - 1);
    }
}

/// Running `n + 1` ticks is running `n` ticks and then one more.
pub proof fn lemma_ticks_cond_unfold_back(
    gs: Seq<NORGate>,
    gy: Seq<NORGate>,
    c: Seq<bool>,
    n: nat,
)
    requires
        n >= 1,
    ensures
        spec_ticks_cond(gs, gy, c, n) == spec_tick_cond(
            gs,
            gy,
            spec_ticks_cond(gs, gy, c, (n - 1) as nat),
        ),
    decreases n,
{
    if n == 1 {
        assert(spec_ticks_cond(gs, gy, c, 1) == spec_ticks_cond(
            gs,
            gy,
            spec_tick_cond(gs, gy, c),
            0,
        ));
        assert(spec_ticks_cond(gs, gy, c, 0) == c);
    } else {
        lemma_ticks_cond_unfold_back(gs, gy, spec_tick_cond(gs, gy, c), (n - 1) as nat);
    }
}

} // verus!
