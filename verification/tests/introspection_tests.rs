use mcx_circuit::circuit::{Circuit, QubitDesc, QubitRegister, QubitRegisterEnum};

fn argument_register(name: &str) -> QubitRegister {
    QubitRegister(QubitRegisterEnum::Argument(name.to_owned()))
}

#[test]
fn register_role_predicates() {
    let anc = QubitRegister(QubitRegisterEnum::Ancillary);
    let ret = QubitRegister(QubitRegisterEnum::Result);
    let arg = argument_register("x");
    assert!(anc.is_ancillary() && !anc.is_result() && !anc.is_argument());
    assert!(ret.is_result() && !ret.is_ancillary() && !ret.is_argument());
    assert!(arg.is_argument() && !arg.is_ancillary() && !arg.is_result());
}

#[test]
fn register_names() {
    assert_eq!(QubitRegister(QubitRegisterEnum::Ancillary).name(), "anc");
    assert_eq!(QubitRegister(QubitRegisterEnum::Result).name(), "ret");
    assert_eq!(argument_register("theta").name(), "theta");
}

#[test]
fn argument_name_of_argument_register() {
    assert_eq!(argument_register("x").argument_name(), Some("x".to_owned()));
    assert_eq!(QubitRegister(QubitRegisterEnum::Result).argument_name(), None);
    assert_eq!(QubitRegister(QubitRegisterEnum::Ancillary).argument_name(), None);
}

#[test]
fn map_list_synthesizes_ancillas_in_increasing_order() {
    // Wires 0 and 2 carry descriptors; wires 1 and 3 carry none and must be
    // reported as ancillary positions 0 and 1 respectively.
    let mut c = Circuit::new();
    let w0 = c.get_ancilla_qubit();
    let _w1 = c.get_ancilla_qubit();
    let w2 = c.get_ancilla_qubit();
    let _w3 = c.get_ancilla_qubit();
    c.add_qubit_description(
        w2,
        QubitDesc { reg: argument_register("x"), index: 0 },
    );
    c.add_qubit_description(w0, QubitDesc { reg: QubitRegister(QubitRegisterEnum::Result), index: 0 });
    let list = c.qubits_map_list();
    assert_eq!(list.len(), 4);
    for (i, (q, _)) in list.iter().enumerate() {
        assert_eq!(q.index as usize, i);
    }
    assert_eq!(list[0].1.len(), 1);
    assert!(list[0].1[0].reg.is_result());
    assert_eq!(list[1].1.len(), 1);
    assert!(list[1].1[0].reg.is_ancillary());
    assert_eq!(list[1].1[0].index, 0);
    assert_eq!(list[2].1.len(), 1);
    assert!(list[2].1[0].reg.is_argument());
    assert_eq!(list[2].1[0].reg.argument_name(), Some("x".to_owned()));
    assert_eq!(list[3].1.len(), 1);
    assert!(list[3].1[0].reg.is_ancillary());
    assert_eq!(list[3].1[0].index, 1);
}

#[test]
fn attaching_a_descriptor_twice_stores_it_once() {
    let mut c = Circuit::new();
    let q = c.get_ancilla_qubit();
    let desc = QubitDesc { reg: QubitRegister(QubitRegisterEnum::Result), index: 0 };
    c.add_qubit_description(q, desc.clone());
    c.add_qubit_description(q, desc.clone());
    let list = c.qubits_map_list();
    assert_eq!(list.len(), 1);
    assert_eq!(list[0].1.len(), 1);
    assert_eq!(list[0].1[0], desc);
}

#[test]
fn distinct_descriptors_accumulate_in_attachment_order() {
    let mut c = Circuit::new();
    let q = c.get_ancilla_qubit();
    c.add_qubit_description(q, QubitDesc { reg: argument_register("x"), index: 0 });
    c.add_qubit_description(q, QubitDesc { reg: QubitRegister(QubitRegisterEnum::Result), index: 0 });
    let list = c.qubits_map_list();
    assert_eq!(list.len(), 1);
    assert_eq!(list[0].1.len(), 2);
    assert!(list[0].1[0].reg.is_argument());
    assert!(list[0].1[1].reg.is_result());
}
