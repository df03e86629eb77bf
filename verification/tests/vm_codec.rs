use ncg_core::types::{CompiledGateInput, CompiledModule};
use ncg_core::codec::{deserialize_from_vec, serialize_to_vec, NCGB_MAGIC, NCGB_WORD_SIZE};
use ncg_core::vm::Module;

fn sample_compiled() -> CompiledModule {
    CompiledModule {
        func: true,
        name: "or".to_string(),
        inputs: 2,
        outputs: vec![1],
        gates_sequential: vec![
            (CompiledGateInput::Input(0), CompiledGateInput::Input(1)),
            (CompiledGateInput::NorGate(0), CompiledGateInput::NorGate(0)),
        ],
        gates_symmetry: vec![],
    }
}

#[test]
fn encode_decode_round_trips_field_for_field() {
    let words = serialize_to_vec(sample_compiled());
    let loaded = deserialize_from_vec(&words).expect("decodes");
    let original = sample_compiled();
    assert_eq!(loaded.func, original.func);
    assert_eq!(loaded.name, original.name);
    assert_eq!(loaded.inputs, original.inputs);
    assert_eq!(loaded.outputs, original.outputs);
    // On the wire a gate reference is a raw cell index: inputs sit after
    // the two gates.
    assert_eq!(loaded.gates_sequential, vec![(2, 3), (0, 0)]);
    assert!(loaded.gates_symmetry.is_empty());
    assert_eq!(loaded.cond, vec![false; 4]);
    assert_eq!(loaded.tick, 0);
}

#[test]
fn truncating_the_words_is_an_error_not_a_crash() {
    let mut words = serialize_to_vec(sample_compiled());
    words.pop();
    assert!(deserialize_from_vec(&words).is_err());
}

#[test]
fn every_prefix_of_the_words_fails_to_decode() {
    let words = serialize_to_vec(sample_compiled());
    for len in 0..words.len() {
        assert!(deserialize_from_vec(&words[..len]).is_err(), "prefix {}", len);
    }
}

#[test]
fn decode_rejects_bad_magic() {
    let mut words = serialize_to_vec(sample_compiled());
    words[0] = 0xdeadbeef;
    assert_eq!(deserialize_from_vec(&words).unwrap_err(), "Invalid magic number");
}

#[test]
fn decode_rejects_bad_word_size() {
    let mut words = serialize_to_vec(sample_compiled());
    words[1] = 64;
    assert_eq!(deserialize_from_vec(&words).unwrap_err(), "Unsupported data size");
}

#[test]
fn decode_rejects_bad_flag() {
    let mut words = serialize_to_vec(sample_compiled());
    words[2] = 7;
    assert_eq!(deserialize_from_vec(&words).unwrap_err(), "Unsupported func module flag");
}

#[test]
fn encoded_header_is_as_specified() {
    let words = serialize_to_vec(sample_compiled());
    assert_eq!(words[0], NCGB_MAGIC);
    assert_eq!(words[0], 0x6247434e);
    assert_eq!(words[1], NCGB_WORD_SIZE);
    assert_eq!(words[2], 1);
    assert_eq!(words[3], 2);
    assert_eq!(words[4], 'o' as u32);
    assert_eq!(words[5], 'r' as u32);
    assert_eq!(words[6], 2);
    assert_eq!(words[7], 1);
    assert_eq!(words[8], 1);
    assert_eq!(words[9], 2);
    assert_eq!(words[10], 0);
    assert_eq!(&words[11..], &[2, 3, 0, 0]);
}

#[test]
fn set_and_inv_reject_out_of_range_inputs() {
    let words = serialize_to_vec(sample_compiled());
    let mut vm = Module::new(words).expect("loads");
    let before = vm.get_gates();
    assert!(vm.set(2, true).is_err());
    assert!(vm.inv(9).is_err());
    assert_eq!(vm.get_gates(), before);
    assert!(vm.set(1, true).is_ok());
    assert!(vm.inv(1).is_ok());
    assert_eq!(vm.get_input().unwrap(), vec![false, false]);
}

#[test]
fn sequential_only_netlist_settles_in_one_tick() {
    // A three-gate chain reading strictly earlier cells and the input.
    let m = CompiledModule {
        func: true,
        name: "chain".to_string(),
        inputs: 1,
        outputs: vec![2],
        gates_sequential: vec![
            (CompiledGateInput::Input(0), CompiledGateInput::Input(0)),
            (CompiledGateInput::NorGate(0), CompiledGateInput::NorGate(0)),
            (CompiledGateInput::NorGate(1), CompiledGateInput::NorGate(1)),
        ],
        gates_symmetry: vec![],
    };
    let mut vm = Module::new(serialize_to_vec(m)).expect("loads");
    vm.set(0, true).unwrap();
    vm.next(1).unwrap();
    let settled = vm.get_gates();
    vm.next(5).unwrap();
    assert_eq!(vm.get_gates(), settled);
    assert_eq!(vm.get_output().unwrap(), vec![false]);
    assert_eq!(vm.get_tick(), 6);
}

#[test]
fn symmetric_gate_reads_the_pre_tick_state() {
    // One symmetric gate that reads its own cell and the input: with both
    // low it oscillates, proving each tick reads the snapshot taken before
    // the tick began.
    let mut vm = Module {
        func: false,
        name: "osc".to_string(),
        inputs: 1,
        outputs: vec![0],
        gates_sequential: vec![],
        gates_symmetry: vec![(0, 1)],
        cond: vec![false, false],
        tick: 0,
    };
    vm.next(1).unwrap();
    assert_eq!(vm.get_output().unwrap(), vec![true]);
    vm.next(1).unwrap();
    assert_eq!(vm.get_output().unwrap(), vec![false]);
    vm.next(1).unwrap();
    assert_eq!(vm.get_output().unwrap(), vec![true]);
}

#[test]
fn sr_latch_holds_its_state_across_ticks() {
    // Two cross-coupled symmetric NOR gates with set and reset inputs.
    let fresh = || Module {
        func: false,
        name: "latch".to_string(),
        inputs: 2,
        outputs: vec![0, 1],
        gates_sequential: vec![],
        // Gate cells 0 and 1; set input is cell 2, reset input cell 3.
        gates_symmetry: vec![(1, 2), (0, 3)],
        cond: vec![false, true, false, false],
        tick: 0,
    };
    let mut vm = fresh();
    // Pulse set: q (cell 0) goes low, then nq rises and the state holds.
    vm.set(0, true).unwrap();
    vm.next(4).unwrap();
    let held = vm.get_output().unwrap();
    vm.set(0, false).unwrap();
    vm.next(4).unwrap();
    assert_eq!(vm.get_output().unwrap(), held);
}

#[test]
fn reset_clears_state_and_tick() {
    let words = serialize_to_vec(sample_compiled());
    let mut vm = Module::new(words).expect("loads");
    vm.set(0, true).unwrap();
    vm.next(3).unwrap();
    vm.reset();
    assert_eq!(vm.get_tick(), 0);
    assert_eq!(vm.get_gates(), vec![false; 4]);
}

#[test]
fn next_on_a_broken_netlist_is_an_error() {
    let mut vm = Module {
        func: false,
        name: "broken".to_string(),
        inputs: 0,
        outputs: vec![],
        gates_sequential: vec![(5, 5)],
        gates_symmetry: vec![],
        cond: vec![false],
        tick: 0,
    };
    assert_eq!(vm.next(1).unwrap_err(), "gates access error");
}
