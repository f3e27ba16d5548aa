use mcx_circuit::args::Arguments;
use mcx_circuit::circuit::{Circuit, Qubit, QubitDesc, QubitRegister, QubitRegisterEnum};

fn arg_desc(name: &str, index: u32) -> QubitDesc {
    QubitDesc { reg: QubitRegister(QubitRegisterEnum::Argument(name.to_owned())), index }
}

fn result_desc(index: u32) -> QubitDesc {
    QubitDesc { reg: QubitRegister(QubitRegisterEnum::Result), index }
}

fn single_arg(name: &str, bits: Vec<bool>) -> Arguments {
    let mut args = Arguments::new();
    args.set(name.to_owned(), bits);
    args
}

/// One wire that is both the argument bit and the result bit, with one
/// unconditional NOT on it.
fn bare_not_circuit() -> Circuit {
    let mut c = Circuit::new();
    let q = c.get_ancilla_qubit();
    c.add_qubit_description(q, arg_desc("x", 0));
    c.add_qubit_description(q, result_desc(0));
    c.x(q);
    c
}

/// Two wires `a` and `b`, each its own argument and result bit, with one
/// gate flipping `b` under a control on `a` of the given polarity.
fn controlled_circuit(negated: bool) -> Circuit {
    let mut c = Circuit::new();
    let a = c.get_ancilla_qubit();
    let b = c.get_ancilla_qubit();
    c.add_qubit_description(a, arg_desc("a", 0));
    c.add_qubit_description(a, result_desc(0));
    c.add_qubit_description(b, arg_desc("b", 0));
    c.add_qubit_description(b, result_desc(1));
    c.cx(a, negated, b);
    c
}

fn two_args(a: bool, b: bool) -> Arguments {
    let mut args = Arguments::new();
    args.set("a".to_owned(), vec![a]);
    args.set("b".to_owned(), vec![b]);
    args
}

#[test]
fn bare_not_flips_false_to_true() {
    let c = bare_not_circuit();
    assert_eq!(c.execute(&single_arg("x", vec![false])), vec![true]);
}

#[test]
fn bare_not_flips_true_to_false() {
    let c = bare_not_circuit();
    assert_eq!(c.execute(&single_arg("x", vec![true])), vec![false]);
}

#[test]
fn execute_is_deterministic() {
    let c = controlled_circuit(false);
    let args = two_args(true, false);
    let first = c.execute(&args);
    let second = c.execute(&args);
    assert_eq!(first, second);
    assert_eq!(first, vec![true, true]);
}

#[test]
fn positive_control_fires_on_true() {
    let c = controlled_circuit(false);
    assert_eq!(c.execute(&two_args(true, false)), vec![true, true]);
}

#[test]
fn positive_control_idles_on_false() {
    let c = controlled_circuit(false);
    assert_eq!(c.execute(&two_args(false, false)), vec![false, false]);
}

#[test]
fn negative_control_idles_on_true() {
    let c = controlled_circuit(true);
    assert_eq!(c.execute(&two_args(true, false)), vec![true, false]);
}

#[test]
fn negative_control_fires_on_false() {
    let c = controlled_circuit(true);
    assert_eq!(c.execute(&two_args(false, false)), vec![false, true]);
}

/// Three controls with polarities (positive, positive, negative) on one
/// target. The target flips only when every control is active.
fn three_control_circuit() -> Circuit {
    let mut c = Circuit::new();
    let c1 = c.get_ancilla_qubit();
    let c2 = c.get_ancilla_qubit();
    let c3 = c.get_ancilla_qubit();
    let t = c.get_ancilla_qubit();
    c.add_qubit_description(c1, arg_desc("c1", 0));
    c.add_qubit_description(c2, arg_desc("c2", 0));
    c.add_qubit_description(c3, arg_desc("c3", 0));
    c.add_qubit_description(t, result_desc(0));
    c.mcx(vec![(c1, false), (c2, false), (c3, true)], t);
    c
}

fn three_args(c1: bool, c2: bool, c3: bool) -> Arguments {
    let mut args = Arguments::new();
    args.set("c1".to_owned(), vec![c1]);
    args.set("c2".to_owned(), vec![c2]);
    args.set("c3".to_owned(), vec![c3]);
    args
}

#[test]
fn multi_control_fires_when_all_controls_active() {
    let c = three_control_circuit();
    assert_eq!(c.execute(&three_args(true, true, false)), vec![true]);
}

#[test]
fn multi_control_suppressed_by_first_control() {
    let c = three_control_circuit();
    assert_eq!(c.execute(&three_args(false, true, false)), vec![false]);
}

#[test]
fn multi_control_suppressed_by_second_control() {
    let c = three_control_circuit();
    assert_eq!(c.execute(&three_args(true, false, false)), vec![false]);
}

#[test]
fn multi_control_suppressed_by_negative_control() {
    let c = three_control_circuit();
    assert_eq!(c.execute(&three_args(true, true, true)), vec![false]);
}

#[test]
fn duplicate_controls_collapse() {
    let mut c = Circuit::new();
    let a = c.get_ancilla_qubit();
    let b = c.get_ancilla_qubit();
    c.add_qubit_description(a, arg_desc("a", 0));
    c.add_qubit_description(b, result_desc(0));
    c.mcx(vec![(a, false), (a, false)], b);
    assert_eq!(c.execute(&single_arg("a", vec![true])), vec![true]);
    assert_eq!(c.execute(&single_arg("a", vec![false])), vec![false]);
}

#[test]
fn control_on_own_target_reads_pre_gate_value() {
    // The control reads the target's value from before the flip, so the
    // gate clears a set wire and leaves a cleared wire alone.
    let mut c = Circuit::new();
    let a = c.get_ancilla_qubit();
    c.add_qubit_description(a, arg_desc("x", 0));
    c.add_qubit_description(a, result_desc(0));
    c.cx(a, false, a);
    assert_eq!(c.execute(&single_arg("x", vec![true])), vec![false]);
    assert_eq!(c.execute(&single_arg("x", vec![false])), vec![false]);
}

#[test]
fn aliased_wire_passes_argument_through() {
    let mut c = Circuit::new();
    let q = c.get_ancilla_qubit();
    c.add_qubit_description(q, arg_desc("x", 0));
    c.add_qubit_description(q, result_desc(0));
    assert_eq!(c.execute(&single_arg("x", vec![true])), vec![true]);
    assert_eq!(c.execute(&single_arg("x", vec![false])), vec![false]);
}

#[test]
fn unreferenced_wire_does_not_affect_result() {
    let mut c = Circuit::new();
    let a = c.get_ancilla_qubit();
    let b = c.get_ancilla_qubit();
    c.add_qubit_description(a, arg_desc("a", 0));
    c.add_qubit_description(a, result_desc(0));
    c.add_qubit_description(b, arg_desc("b", 0));
    c.add_qubit_description(b, result_desc(1));
    c.cx(a, false, b);
    let _spare = c.get_ancilla_qubit();
    assert_eq!(c.execute(&two_args(true, false)), vec![true, true]);
    assert_eq!(c.execute(&two_args(false, false)), vec![false, false]);
}

#[test]
fn extra_argument_entries_are_ignored() {
    let c = controlled_circuit(false);
    let mut args = two_args(true, false);
    args.set("unused".to_owned(), vec![true, false, true]);
    assert_eq!(c.execute(&args), vec![true, true]);
}

#[test]
fn circuit_without_result_descriptors_yields_empty_output() {
    let mut c = Circuit::new();
    let q = c.get_ancilla_qubit();
    c.add_qubit_description(q, arg_desc("x", 0));
    c.x(q);
    assert_eq!(c.execute(&single_arg("x", vec![true])), Vec::<bool>::new());
}

#[test]
fn uncovered_result_positions_default_to_false() {
    let mut c = Circuit::new();
    let q = c.get_ancilla_qubit();
    c.add_qubit_description(q, arg_desc("x", 0));
    c.add_qubit_description(q, result_desc(2));
    assert_eq!(c.execute(&single_arg("x", vec![true])), vec![false, false, true]);
}

#[test]
fn wires_are_allocated_in_increasing_order() {
    let mut c = Circuit::new();
    assert_eq!(c.get_ancilla_qubit().index, 0);
    assert_eq!(c.get_ancilla_qubit().index, 1);
    assert_eq!(c.get_ancilla_qubit().index, 2);
    assert_eq!(c.qubits_count, 3);
}

#[test]
fn qubit_new_keeps_index() {
    assert_eq!(Qubit::new(7).index, 7);
    assert_eq!(Qubit::new(7), Qubit::new(7));
}

#[test]
fn latest_binding_of_a_name_wins() {
    let c = bare_not_circuit();
    let mut args = Arguments::new();
    args.set("x".to_owned(), vec![true]);
    args.set("x".to_owned(), vec![false]);
    assert_eq!(c.execute(&args), vec![true]);
}
