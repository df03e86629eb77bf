use vstd::prelude::*;
use vstd::string::StrSliceExecFns;
use crate::types::{CompiledGateInput, CompiledModule, compiled_wf, compiled_cell_count};
use crate::text::string_of;
use crate::vm;

verus! {

/// First word of every encoded module.
pub const NCGB_MAGIC: u32 = 0x6247434e;

/// Second word of every encoded module: the cell width tag.
pub const NCGB_WORD_SIZE: u32 = 32;

/// The code points `char::from_u32` accepts.
pub open spec fn is_unicode_scalar(w: u32) -> bool {
    w < 0xD800 || (0xE000 <= w && w <= 0x10FFFF)
}

/// Relies on `char::from_u32`: it returns the character with code `w`
/// exactly when `w` is a Unicode scalar value, and `None` otherwise.
#[verifier::external_body]
fn char_from_u32(w: u32) -> (r: Option<char>)
    ensures
        r is Some <==> is_unicode_scalar(w),
        r matches Some(c) ==> c as u32 == w,
{
    char::from_u32(w)
}

/// The word a gate reference becomes on the wire: a gate index stays as it
/// is, an input index is shifted past all `total` gate cells.
pub open spec fn spec_ref_word(g: CompiledGateInput, total: int) -> int {
    match g {
        CompiledGateInput::NorGate(n) => n as int,
        CompiledGateInput::Input(n) => n as int + total,
    }
}

/// The reference a wire word denotes, given the module's total gate count.
pub open spec fn spec_word_ref(w: u32, total: int) -> CompiledGateInput {
    if w < total {
        CompiledGateInput::NorGate(w)
    } else {
        CompiledGateInput::Input((w - total) as u32)
    }
}

/// The wire words of a gate list: two words per gate.
pub open spec fn spec_gate_words(gates: Seq<(CompiledGateInput, CompiledGateInput)>, total: int)
    -> Seq<u32> {
    Seq::new(
        2 * gates.len(),
        |k: int|
            if k % 2 == 0 {
                spec_ref_word(gates[k / 2].0, total) as u32
            } else {
                spec_ref_word(gates[k / 2].1, total) as u32
            },
    )
}

/// The full encoding of a compiled module: magic, width tag, function flag,
/// length-prefixed name, input count, length-prefixed output indices, the two
/// gate counts, and the two gate lists.
pub open spec fn spec_encode(m: CompiledModule) -> Seq<u32> {
    let total = (m.gates_sequential@.len() + m.gates_symmetry@.len()) as int;
    seq![
        NCGB_MAGIC,
        NCGB_WORD_SIZE,
        if m.func { 1u32 } else { 0u32 },
        m.name@.len() as u32,
    ] + m.name@.map_values(|c: char| c as u32) + seq![m.inputs, m.outputs@.len() as u32]
        + m.outputs@ + seq![m.gates_sequential@.len() as u32, m.gates_symmetry@.len() as u32]
        + spec_gate_words(m.gates_sequential@, total) + spec_gate_words(m.gates_symmetry@, total)
}

/// What a successful decode yields, before the name's code points are turned
/// back into characters.
pub struct DecodedModule {
    pub func: bool,
    pub name_words: Seq<u32>,
    pub inputs: u32,
    pub outputs: Seq<u32>,
    pub gates_sequential: Seq<(u32, u32)>,
    pub gates_symmetry: Seq<(u32, u32)>,
}

/// The code points of a name that survive decoding: the ones that denote
/// Unicode scalar values, in order.
pub open spec fn spec_name_kept(ws: Seq<u32>) -> Seq<u32>
    decreases ws.len(),
{
    if ws.len() == 0 {
        Seq::empty()
    } else if is_unicode_scalar(ws.last()) {
        spec_name_kept(ws.drop_last()).push(ws.last())
    } else {
        spec_name_kept(ws.drop_last())
    }
}

/// The decode of a word stream, checking each length before consuming the
/// section it guards. Every failure is a descriptive message, never a crash.
pub open spec fn spec_decode(data: Seq<u32>) -> Result<DecodedModule, Seq<char>> {
    let n = data.len() as int;
    if n < 2 || data[0] != NCGB_MAGIC {
        Err("Invalid magic number"@)
    } else if data[1] != NCGB_WORD_SIZE {
        Err("Unsupported data size"@)
    } else if 2 >= n {
        Err("Data is too short to contain func module flag"@)
    } else if data[2] != 0 && data[2] != 1 {
        Err("Unsupported func module flag"@)
    } else if 3 >= n {
        Err("Data is too short to contain name length"@)
    } else if 4 + data[3] as int > n {
        Err("Data is too short to contain name"@)
    } else {
        let name_words = data.subrange(4, 4 + data[3] as int);
        let i0 = 4 + data[3] as int;
        if i0 >= n {
            Err("Data is too short to contain inputs"@)
        } else if i0 + 1 >= n {
            Err("Data is too short to contain outputs length"@)
        } else if i0 + 2 + data[i0 + 1] as int > n {
            Err("Data is too short to contain outputs"@)
        } else {
            let inputs = data[i0];
            let outputs = data.subrange(i0 + 2, i0 + 2 + data[i0 + 1] as int);
            let i1 = i0 + 2 + data[i0 + 1] as int;
            if i1 >= n {
                Err("Data is too short to contain gates length"@)
            } else if i1 + 1 >= n {
                Err("Data is too short to contain gates length"@)
            } else {
                let gs_len = data[i1] as int;
                let gy_len = data[i1 + 1] as int;
                let i2 = i1 + 2;
                if i2 + 2 * gs_len > n {
                    Err("Data is too short to contain gates"@)
                } else if i2 + 2 * gs_len + 2 * gy_len > n {
                    Err("Data is too short to contain gates"@)
                } else if gs_len + gy_len + inputs as int > usize::MAX as int {
                    Err("Module is too large"@)
                } else {
                    let i3 = i2 + 2 * gs_len;
                    Ok(
                        DecodedModule {
                            func: data[2] == 1,
                            name_words,
                            inputs,
                            outputs,
                            gates_sequential: Seq::new(
                                gs_len as nat,
                                |k: int| (data[i2 + 2 * k], data[i2 + 2 * k + 1]),
                            ),
                            gates_symmetry: Seq::new(
                                gy_len as nat,
                                |k: int| (data[i3 + 2 * k], data[i3 + 2 * k + 1]),
                            ),
                        },
                    )
                }
            }
        }
    }
}

/// The state a freshly loaded module starts in: every cell cleared.
pub open spec fn spec_initial_cond(d: DecodedModule) -> Seq<bool> {
    Seq::new(
        (d.gates_sequential.len() + d.gates_symmetry.len() + d.inputs as nat) as nat,
        |k: int| false,
    )
}

/// Whether a loaded module is what decoding `data` yields: the same flag,
/// counts, outputs and gates, the kept code points of the wire name as its
/// name, a cleared state vector and a zero tick counter.
pub open spec fn is_decode_of(m: vm::Module, data: Seq<u32>) -> bool {
    &&& spec_decode(data) matches Ok(d) && {
        &&& m.func == d.func
        &&& m.name@.map_values(|c: char| c as u32) == spec_name_kept(d.name_words)
        &&& m.inputs == d.inputs
        &&& m.outputs@ == d.outputs
        &&& m.gates_sequential@ == d.gates_sequential
        &&& m.gates_symmetry@ == d.gates_symmetry
        &&& m.cond@ == spec_initial_cond(d)
        &&& m.tick == 0
    }
}

/// Where each field of a well-formed module lands in its encoding.
proof fn lemma_encode_layout(m: CompiledModule)
    requires
        compiled_wf(m),
    ensures
        ({
            let e = spec_encode(m);
            let nl = m.name@.len() as int;
            let ol = m.outputs@.len() as int;
            let gs = m.gates_sequential@.len() as int;
            let gy = m.gates_symmetry@.len() as int;
            let total = gs + gy;
            &&& e.len() == 8 + nl + ol + 2 * gs + 2 * gy
            &&& e[0] == NCGB_MAGIC
            &&& e[1] == NCGB_WORD_SIZE
            &&& e[2] == if m.func { 1u32 } else { 0u32 }
            &&& e[3] as int == nl
            &&& e.subrange(4, 4 + nl) == m.name@.map_values(|c: char| c as u32)
            &&& e[4 + nl] == m.inputs
            &&& e[5 + nl] as int == ol
            &&& e.subrange(6 + nl, 6 + nl + ol) == m.outputs@
            &&& e[6 + nl + ol] as int == gs
            &&& e[7 + nl + ol] as int == gy
            &&& forall|k: int|
                0 <= k < gs ==> e[8 + nl + ol + 2 * k] as int == spec_ref_word(
                    (#[trigger] m.gates_sequential@[k]).0,
                    total,
                ) && e[8 + nl + ol + 2 * k + 1] as int == spec_ref_word(
                    m.gates_sequential@[k].1,
                    total,
                )
            &&& forall|k: int|
                0 <= k < gy ==> e[8 + nl + ol + 2 * gs + 2 * k] as int == spec_ref_word(
                    (#[trigger] m.gates_symmetry@[k]).0,
                    total,
                ) && e[8 + nl + ol + 2 * gs + 2 * k + 1] as int == spec_ref_word(
                    m.gates_symmetry@[k].1,
                    total,
                )
        }),
{
    let e = spec_encode(m);
    let nl = m.name@.len() as int;
    let ol = m.outputs@.len() as int;
    let gs = m.gates_sequential@.len() as int;
    let gy = m.gates_symmetry@.len() as int;
    let total = gs + gy;
    let name_words = m.name@.map_values(|c: char| c as u32);
    let gsw = spec_gate_words(m.gates_sequential@, total);
    let gyw = spec_gate_words(m.gates_symmetry@, total);
    assert(e.subrange(4, 4 + nl) =~= name_words);
    assert(e.subrange(6 + nl, 6 + nl + ol) =~= m.outputs@);
    assert forall|k: int| 0 <= k < gs implies e[8 + nl + ol + 2 * k] as int == spec_ref_word(
        (#[trigger] m.gates_sequential@[k]).0,
        total,
    ) && e[8 + nl + ol + 2 * k + 1] as int == spec_ref_word(m.gates_sequential@[k].1, total) by {
        assert(e[8 + nl + ol + 2 * k] == gsw[2 * k]);
        assert(e[8 + nl + ol + 2 * k + 1] == gsw[2 * k + 1]);
        assert((2 * k) % 2 == 0 && (2 * k) / 2 == k);
        assert((2 * k + 1) % 2 == 1 && (2 * k + 1) / 2 == k);
        assert(gate_ref_fits(m.gates_sequential@[k].0, total, m.inputs as int));
        assert(gate_ref_fits(m.gates_sequential@[k].1, total, m.inputs as int));
    }
    assert forall|k: int| 0 <= k < gy implies e[8 + nl + ol + 2 * gs + 2 * k] as int
        == spec_ref_word((#[trigger] m.gates_symmetry@[k]).0, total) && e[8 + nl + ol + 2 * gs + 2
        * k + 1] as int == spec_ref_word(m.gates_symmetry@[k].1, total) by {
        assert(e[8 + nl + ol + 2 * gs + 2 * k] == gyw[2 * k]);
        assert(e[8 + nl + ol + 2 * gs + 2 * k + 1] == gyw[2 * k + 1]);
        assert((2 * k) % 2 == 0 && (2 * k) / 2 == k);
        assert((2 * k + 1) % 2 == 1 && (2 * k + 1) / 2 == k);
        assert(gate_ref_fits(m.gates_symmetry@[k].0, total, m.inputs as int));
        assert(gate_ref_fits(m.gates_symmetry@[k].1, total, m.inputs as int));
    }
}

/// A reference of a well-formed module encodes to a word no larger than
/// `u32::MAX`, so the cast in the encoding keeps its value.
spec fn gate_ref_fits(g: CompiledGateInput, total: int, inputs: int) -> bool {
    spec_ref_word(g, total) <= u32::MAX as int
}

/// Decoding undoes encoding: the word stream of a well-formed compiled
/// module decodes to exactly its fields, and each wire word denotes the
/// reference it came from.
#[verifier::rlimit(60)]
pub proof fn lemma_codec_round_trip(m: CompiledModule)
    requires
        compiled_wf(m),
    ensures
        spec_decode(spec_encode(m)) is Ok,
        ({
            let d = spec_decode(spec_encode(m))->Ok_0;
            let total = (m.gates_sequential@.len() + m.gates_symmetry@.len()) as int;
            &&& d.func == m.func
            &&& d.name_words == m.name@.map_values(|c: char| c as u32)
            &&& d.inputs == m.inputs
            &&& d.outputs == m.outputs@
            &&& d.gates_sequential.len() == m.gates_sequential@.len()
            &&& d.gates_symmetry.len() == m.gates_symmetry@.len()
            &&& forall|k: int|
                0 <= k < d.gates_sequential.len() ==> spec_word_ref(
                    (#[trigger] d.gates_sequential[k]).0,
                    total,
                ) == m.gates_sequential@[k].0 && spec_word_ref(d.gates_sequential[k].1, total)
                    == m.gates_sequential@[k].1
            &&& forall|k: int|
                0 <= k < d.gates_symmetry.len() ==> spec_word_ref(
                    (#[trigger] d.gates_symmetry[k]).0,
                    total,
                ) == m.gates_symmetry@[k].0 && spec_word_ref(d.gates_symmetry[k].1, total)
                    == m.gates_symmetry@[k].1
        }),
{
    lemma_encode_layout(m);
    let e = spec_encode(m);
    let nl = m.name@.len() as int;
    let ol = m.outputs@.len() as int;
    let gs = m.gates_sequential@.len() as int;
    let gy = m.gates_symmetry@.len() as int;
    let total = gs + gy;
    let d = spec_decode(e)->Ok_0;
    assert(d.name_words == e.subrange(4, 4 + nl));
    assert(d.outputs == e.subrange(6 + nl, 6 + nl + ol));
    assert forall|k: int| 0 <= k < d.gates_sequential.len() implies spec_word_ref(
        (#[trigger] d.gates_sequential[k]).0,
        total,
    ) == m.gates_sequential@[k].0 && spec_word_ref(d.gates_sequential[k].1, total)
        == m.gates_sequential@[k].1 by {
        assert(d.gates_sequential[k] == (e[8 + nl + ol + 2 * k], e[8 + nl + ol + 2 * k + 1]));
    }
    assert forall|k: int| 0 <= k < d.gates_symmetry.len() implies spec_word_ref(
        (#[trigger] d.gates_symmetry[k]).0,
        total,
    ) == m.gates_symmetry@[k].0 && spec_word_ref(d.gates_symmetry[k].1, total)
        == m.gates_symmetry@[k].1 by {
        assert(d.gates_symmetry[k] == (
            e[8 + nl + ol + 2 * gs + 2 * k],
            e[8 + nl + ol + 2 * gs + 2 * k + 1],
        ));
    }
}

/// Every code point of a real string is kept by decoding.
pub proof fn lemma_name_kept_of_chars(name: Seq<char>)
    ensures
        spec_name_kept(name.map_values(|c: char| c as u32)) == name.map_values(
            |c: char| c as u32,
        ),
    decreases name.len(),
{
    let ws = name.map_values(|c: char| c as u32);
    if name.len() > 0 {
        lemma_name_kept_of_chars(name.drop_last());
        assert(ws.drop_last() =~= name.drop_last().map_values(|c: char| c as u32));
        vstd::utf8::char_is_scalar(name.last());
        assert(is_unicode_scalar(ws.last()));
        assert(spec_name_kept(ws) =~= ws);
    } else {
        assert(ws =~= Seq::<u32>::empty());
    }
}

/// Two strings with the same code points hold the same characters.
pub proof fn lemma_char_codes_injective(a: Seq<char>, b: Seq<char>)
    requires
        a.map_values(|c: char| c as u32) == b.map_values(|c: char| c as u32),
    ensures
        a == b,
{
    assert(a.map_values(|c: char| c as u32).len() == a.len());
    assert(b.map_values(|c: char| c as u32).len() == b.len());
    assert forall|i: int| 0 <= i < a.len() implies a[i] == b[i] by {
        assert(a.map_values(|c: char| c as u32)[i] == a[i] as u32);
        assert(b.map_values(|c: char| c as u32)[i] == b[i] as u32);
        vstd::utf8::char_u32_cast(a[i], a[i] as u32);
        vstd::utf8::char_u32_cast(b[i], b[i] as u32);
    }
    assert(a =~= b);
}

/// Loading the encoding of a well-formed compiled module yields a runnable
/// machine with the same name, flag, arity, outputs and gates, every cell
/// cleared and the tick counter at zero.
pub proof fn lemma_load_of_encode(m: CompiledModule, md: vm::Module)
    requires
        compiled_wf(m),
        is_decode_of(md, spec_encode(m)),
    ensures
        md.func == m.func,
        md.name@ == m.name@,
        md.inputs == m.inputs,
        md.outputs@ == m.outputs@,
        md.gates_sequential@.len() == m.gates_sequential@.len(),
        md.gates_symmetry@.len() == m.gates_symmetry@.len(),
        md.tick == 0,
        md.cond@ == Seq::new(compiled_cell_count(m) as nat, |k: int| false),
        vm::vm_wf(md),
{
    lemma_codec_round_trip(m);
    let d = spec_decode(spec_encode(m))->Ok_0;
    lemma_name_kept_of_chars(m.name@);
    lemma_char_codes_injective(md.name@, m.name@);
    let total = (m.gates_sequential@.len() + m.gates_symmetry@.len()) as int;
    let cells = compiled_cell_count(m);
    assert(md.cond@ =~= Seq::new(cells as nat, |k: int| false));
    assert forall|i: int| 0 <= i < md.gates_sequential@.len() implies (
    #[trigger] md.gates_sequential@[i]).0 < cells && md.gates_sequential@[i].1 < cells by {
        assert(spec_word_ref(md.gates_sequential@[i].0, total) == m.gates_sequential@[i].0);
        assert(spec_word_ref(md.gates_sequential@[i].1, total) == m.gates_sequential@[i].1);
        assert(crate::types::gate_input_wf(m.gates_sequential@[i].0, total, m.inputs as int));
        assert(crate::types::gate_input_wf(m.gates_sequential@[i].1, total, m.inputs as int));
        lemma_word_ref_bound(md.gates_sequential@[i].0, total, m.inputs as int);
        lemma_word_ref_bound(md.gates_sequential@[i].1, total, m.inputs as int);
    }
    assert forall|i: int| 0 <= i < md.gates_symmetry@.len() implies (
    #[trigger] md.gates_symmetry@[i]).0 < cells && md.gates_symmetry@[i].1 < cells by {
        assert(spec_word_ref(md.gates_symmetry@[i].0, total) == m.gates_symmetry@[i].0);
        assert(spec_word_ref(md.gates_symmetry@[i].1, total) == m.gates_symmetry@[i].1);
        assert(crate::types::gate_input_wf(m.gates_symmetry@[i].0, total, m.inputs as int));
        assert(crate::types::gate_input_wf(m.gates_symmetry@[i].1, total, m.inputs as int));
        lemma_word_ref_bound(md.gates_symmetry@[i].0, total, m.inputs as int);
        lemma_word_ref_bound(md.gates_symmetry@[i].1, total, m.inputs as int);
    }
}

/// A wire word whose reference stays inside a module addresses an existing
/// cell.
proof fn lemma_word_ref_bound(w: u32, total: int, inputs: int)
    requires
        total >= 0,
        inputs >= 0,
        crate::types::gate_input_wf(spec_word_ref(w, total), total, inputs),
    ensures
        w < total + inputs,
{
}

/// Cutting the last word off an encoded module always breaks decoding: some
/// length check fails before the stream ends.
pub proof fn lemma_decode_truncated(m: CompiledModule)
    requires
        compiled_wf(m),
    ensures
        spec_decode(spec_encode(m).drop_last()) is Err,
{
    lemma_encode_layout(m);
    let e = spec_encode(m);
    let nl = m.name@.len() as int;
    let ol = m.outputs@.len() as int;
    let gs = m.gates_sequential@.len() as int;
    let gy = m.gates_symmetry@.len() as int;
    let t = e.drop_last();
    assert(t.len() == e.len() - 1);
    assert(forall|i: int| 0 <= i < t.len() ==> t[i] == e[i]);
    if gy > 0 {
        assert(t.subrange(4, 4 + nl) =~= e.subrange(4, 4 + nl));
        assert(t.subrange(6 + nl, 6 + nl + ol) =~= e.subrange(6 + nl, 6 + nl + ol));
        assert(8 + nl + ol + 2 * gs + 2 * gy > t.len());
        assert(spec_decode(t) is Err);
    } else if gs > 0 {
        assert(t.subrange(4, 4 + nl) =~= e.subrange(4, 4 + nl));
        assert(t.subrange(6 + nl, 6 + nl + ol) =~= e.subrange(6 + nl, 6 + nl + ol));
        assert(8 + nl + ol + 2 * gs > t.len());
        assert(spec_decode(t) is Err);
    } else {
        assert(t.subrange(4, 4 + nl) =~= e.subrange(4, 4 + nl));
        assert(t.subrange(6 + nl, 6 + nl + ol) =~= e.subrange(6 + nl, 6 + nl + ol));
        assert(7 + nl + ol >= t.len());
        assert(spec_decode(t) is Err);
    }
}

/// Decodes one module from a word stream. Checks every length before it
/// consumes the section it guards, and returns a message rather than
/// failing, whatever the input holds.
pub fn deserialize_from_vec(data: &[u32]) -> (r: Result<vm::Module, String>)
    ensures
        r is Ok <==> spec_decode(data@) is Ok,
        r matches Ok(m) ==> is_decode_of(m, data@),
        r matches Err(e) ==> spec_decode(data@) matches Err(msg) && e@ == msg,
{
    let n = data.len();
    if n < 2 || data[0] != NCGB_MAGIC {
        return Err(string_of("Invalid magic number"));
    }
    if data[1] != NCGB_WORD_SIZE {
        return Err(string_of("Unsupported data size"));
    }
    if 2 >= n {
        return Err(string_of("Data is too short to contain func module flag"));
    }
    if data[2] != 0 && data[2] != 1 {
        return Err(string_of("Unsupported func module flag"));
    }
    let func = data[2] == 1;
    if 3 >= n {
        return Err(string_of("Data is too short to contain name length"));
    }
    let name_len = data[3] as usize;
    if name_len > n - 4 {
        return Err(string_of("Data is too short to contain name"));
    }
    // Turn the name's code points back into characters, keeping the valid
    // ones in order.
    let mut name_chars: Vec<char> = Vec::new();
    let mut i: usize = 0;
    while i < name_len
        invariant
            i <= name_len,
            4 + name_len <= n,
            n == data@.len(),
            name_chars@.map_values(|c: char| c as u32) == spec_name_kept(
                data@.subrange(4, 4 + i as int),
            ),
        decreases name_len - i,
    {
        proof {
            assert(data@.subrange(4, 4 + (i + 1) as int).drop_last() =~= data@.subrange(
                4,
                4 + i as int,
            ));
            assert(data@.subrange(4, 4 + (i + 1) as int).last() == data@[4 + i as int]);
        }
        match char_from_u32(data[4 + i]) {
            Some(c) => {
                name_chars.push(c);
                proof {
                    assert(name_chars@.map_values(|c: char| c as u32) =~= name_chars@.drop_last()
                        .map_values(|c: char| c as u32).push(name_chars@.last() as u32));
                }
            },
            None => {},
        }
        i = i + 1;
    }
    proof {
        assert(data@.subrange(4, 4 + name_len as int) =~= data@.subrange(4, 4 + name_len as int));
    }
    let name = crate::text::string_from_chars(name_chars);
    let i0 = 4 + name_len;
    if i0 >= n {
        return Err(string_of("Data is too short to contain inputs"));
    }
    let inputs = data[i0];
    if i0 + 1 >= n {
        return Err(string_of("Data is too short to contain outputs length"));
    }
    let outputs_len = data[i0 + 1] as usize;
    if outputs_len > n - i0 - 2 {
        return Err(string_of("Data is too short to contain outputs"));
    }
    let mut outputs: Vec<u32> = Vec::new();
    let mut j: usize = 0;
    while j < outputs_len
        invariant
            j <= outputs_len,
            i0 + 2 + outputs_len <= n,
            n == data@.len(),
            outputs@ =~= data@.subrange(i0 + 2, i0 + 2 + j as int),
        decreases outputs_len - j,
    {
        outputs.push(data[i0 + 2 + j]);
        proof {
            assert(outputs@ =~= data@.subrange(i0 + 2, i0 + 2 + (j + 1) as int));
        }
        j = j + 1;
    }
    let i1 = i0 + 2 + outputs_len;
    if i1 >= n {
        return Err(string_of("Data is too short to contain gates length"));
    }
    if i1 + 1 >= n {
        return Err(string_of("Data is too short to contain gates length"));
    }
    let gs_len = data[i1] as usize;
    let gy_len = data[i1 + 1] as usize;
    let i2 = i1 + 2;
    if gs_len > (n - i2) / 2 {
        proof {
            assert(i2 + 2 * gs_len as int > n as int);
        }
        return Err(string_of("Data is too short to contain gates"));
    }
    proof {
        assert(i2 + 2 * gs_len as int <= n as int);
    }
    let i3 = i2 + 2 * gs_len;
    if gy_len > (n - i3) / 2 {
        proof {
            assert(i3 + 2 * gy_len as int > n as int);
        }
        return Err(string_of("Data is too short to contain gates"));
    }
    proof {
        assert(i3 + 2 * gy_len as int <= n as int);
    }
    let mut gates_sequential: Vec<(u32, u32)> = Vec::new();
    let mut k: usize = 0;
    while k < gs_len
        invariant
            k <= gs_len,
            i2 + 2 * gs_len <= n,
            n == data@.len(),
            gates_sequential@.len() == k,
            forall|t: int|
                0 <= t < k ==> #[trigger] gates_sequential@[t] == (
                    data@[i2 + 2 * t],
                    data@[i2 + 2 * t + 1],
                ),
        decreases gs_len - k,
    {
        gates_sequential.push((data[i2 + 2 * k], data[i2 + 2 * k + 1]));
        k = k + 1;
    }
    let mut gates_symmetry: Vec<(u32, u32)> = Vec::new();
    let mut k2: usize = 0;
    while k2 < gy_len
        invariant
            k2 <= gy_len,
            i2 + 2 * gs_len <= n,
            i3 == i2 + 2 * gs_len,
            i3 + 2 * gy_len <= n,
            n == data@.len(),
            gates_symmetry@.len() == k2,
            forall|t: int|
                0 <= t < k2 ==> #[trigger] gates_symmetry@[t] == (
                    data@[i3 + 2 * t],
                    data@[i3 + 2 * t + 1],
                ),
        decreases gy_len - k2,
    {
        gates_symmetry.push((data[i3 + 2 * k2], data[i3 + 2 * k2 + 1]));
        k2 = k2 + 1;
    }
    let cells_gates = gs_len + gy_len;
    let cells = match cells_gates.checked_add(inputs as usize) {
        Some(v) => v,
        None => {
            return Err(string_of("Module is too large"));
        },
    };
    let cond: Vec<bool> = vec![false; cells];
    let m = vm::Module {
        func,
        name,
        inputs,
        outputs,
        gates_sequential,
        gates_symmetry,
        cond,
        tick: 0,
    };
    proof {
        let d = spec_decode(data@)->Ok_0;
        assert(m.outputs@ =~= d.outputs);
        assert(m.gates_sequential@ =~= d.gates_sequential);
        assert(m.gates_symmetry@ =~= d.gates_symmetry);
        assert(m.cond@ =~= spec_initial_cond(d));
    }
    Ok(m)
}

/// Encodes a compiled module as its word stream.
pub fn serialize_to_vec(module: CompiledModule) -> (r: Vec<u32>)
    requires
        compiled_wf(module),
    ensures
        r@ == spec_encode(module),
{
    let ghost total_ghost = (module.gates_sequential@.len() + module.gates_symmetry@.len()) as int;
    let mut result: Vec<u32> = Vec::new();
    result.push(NCGB_MAGIC);
    result.push(NCGB_WORD_SIZE);
    result.push(if module.func { 1 } else { 0 });
    let name_len = module.name.as_str().unicode_len();
    result.push(name_len as u32);
    let mut i: usize = 0;
    while i < name_len
        invariant
            i <= name_len,
            name_len == module.name@.len(),
            module.name@.len() <= u32::MAX as int,
            result@ =~= seq![
                NCGB_MAGIC,
                NCGB_WORD_SIZE,
                if module.func { 1u32 } else { 0u32 },
                module.name@.len() as u32,
            ] + module.name@.map_values(|c: char| c as u32).take(i as int),
        decreases name_len - i,
    {
        let c = module.name.as_str().get_char(i);
        result.push(c as u32);
        proof {
            let words = module.name@.map_values(|c: char| c as u32);
            assert(words.take(i + 1 as int) =~= words.take(i as int).push(words[i as int]));
        }
        i = i + 1;
    }
    proof {
        let words = module.name@.map_values(|c: char| c as u32);
        assert(words.take(name_len as int) =~= words);
    }
    result.push(module.inputs);
    result.push(module.outputs.len() as u32);
    let ghost header = seq![
        NCGB_MAGIC,
        NCGB_WORD_SIZE,
        if module.func { 1u32 } else { 0u32 },
        module.name@.len() as u32,
    ] + module.name@.map_values(|c: char| c as u32) + seq![
        module.inputs,
        module.outputs@.len() as u32,
    ];
    let out_len = module.outputs.len();
    let mut j: usize = 0;
    while j < out_len
        invariant
            j <= out_len,
            out_len == module.outputs@.len(),
            result@ =~= header + module.outputs@.take(j as int),
        decreases out_len - j,
    {
        result.push(module.outputs[j]);
        proof {
            assert(module.outputs@.take(j + 1 as int) =~= module.outputs@.take(j as int).push(
                module.outputs@[j as int],
            ));
        }
        j = j + 1;
    }
    proof {
        assert(module.outputs@.take(out_len as int) =~= module.outputs@);
    }
    let gs_len = module.gates_sequential.len();
    let gy_len = module.gates_symmetry.len();
    result.push(gs_len as u32);
    result.push(gy_len as u32);
    let total = gs_len + gy_len;
    let ghost header2 = header + module.outputs@ + seq![
        module.gates_sequential@.len() as u32,
        module.gates_symmetry@.len() as u32,
    ];
    proof {
        assert(result@ =~= header2);
    }
    push_gate_words(&mut result, &module.gates_sequential, total, Ghost(header2));
    let ghost header3 = header2 + spec_gate_words(module.gates_sequential@, total as int);
    push_gate_words(&mut result, &module.gates_symmetry, total, Ghost(header3));
    proof {
        assert(result@ =~= spec_encode(module));
    }
    result
}

/// Appends the two wire words of every gate in `gates` to `out`.
fn push_gate_words(
    out: &mut Vec<u32>,
    gates: &Vec<(CompiledGateInput, CompiledGateInput)>,
    total: usize,
    Ghost(prefix): Ghost<Seq<u32>>,
)
    requires
        old(out)@ == prefix,
        total <= u32::MAX as usize,
        forall|i: int|
            0 <= i < gates@.len() ==> crate::types::gate_input_wf(
                (#[trigger] gates@[i]).0,
                total as int,
                u32::MAX as int + 1 - total as int,
            ) && crate::types::gate_input_wf(
                gates@[i].1,
                total as int,
                u32::MAX as int + 1 - total as int,
            ),
    ensures
        final(out)@ == prefix + spec_gate_words(gates@, total as int),
{
    let n = gates.len();
    let mut i: usize = 0;
    while i < n
        invariant
            i <= n,
            n == gates@.len(),
            total <= u32::MAX as usize,
            out@ =~= prefix + spec_gate_words(gates@, total as int).take(2 * i as int),
            forall|t: int|
                0 <= t < gates@.len() ==> crate::types::gate_input_wf(
                    (#[trigger] gates@[t]).0,
                    total as int,
                    u32::MAX as int + 1 - total as int,
                ) && crate::types::gate_input_wf(
                    gates@[t].1,
                    total as int,
                    u32::MAX as int + 1 - total as int,
                ),
        decreases n - i,
    {
        let g = gates[i];
        let w0 = ref_word(g.0, total);
        let w1 = ref_word(g.1, total);
        out.push(w0);
        out.push(w1);
        proof {
            let words = spec_gate_words(gates@, total as int);
            assert(words[2 * i as int] == w0);
            assert(words[2 * i as int + 1] == w1);
            assert(words.take(2 * (i + 1) as int) =~= words.take(2 * i as int).push(
                words[2 * i as int],
            ).push(words[2 * i as int + 1]));
        }
        i = i + 1;
    }
    proof {
        assert(spec_gate_words(gates@, total as int).take(2 * n as int) =~= spec_gate_words(
            gates@,
            total as int,
        ));
    }
}

/// The wire word of one gate reference.
fn ref_word(g: CompiledGateInput, total: usize) -> (r: u32)
    requires
        total <= u32::MAX as usize,
        crate::types::gate_input_wf(g, total as int, u32::MAX as int + 1 - total as int),
    ensures
        r as int == spec_ref_word(g, total as int),
{
    match g {
        CompiledGateInput::NorGate(n) => n,
        CompiledGateInput::Input(n) => n + total as u32,
    }
}

} // verus!
