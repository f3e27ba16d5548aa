//! Laws of the circuit model, proved once for all circuits: determinism,
//! gate-application semantics, set semantics of controls and of
//! descriptor attachment, and the irrelevance of unused wires and of unused
//! argument entries.

use crate::model::{
    apply_gate, apply_gates, arg_value, attach, gate_fires, init_vals, read, spec_execute,
    CircuitView, DescView, GateView, RegisterView,
};
use vstd::prelude::*;

verus! {

/// Execution is deterministic: a fixed circuit and a fixed argument
/// assignment always yield the same result vector.
pub proof fn lemma_execute_deterministic(
    c: CircuitView,
    args: Map<Seq<char>, Seq<bool>>,
    r1: Seq<bool>,
    r2: Seq<bool>,
)
    requires
        r1 == spec_execute(c, args),
        r2 == spec_execute(c, args),
    ensures
        r1 == r2,
{
}

/// A gate flips its target exactly when it fires, and touches no other
/// wire.
pub proof fn lemma_gate_flips_target_iff_fires(g: GateView, vals: Map<nat, bool>)
    ensures
        read(apply_gate(vals, g), g.target) == (read(vals, g.target) != gate_fires(g, vals)),
        forall|w: nat|
            w != g.target ==> #[trigger] read(apply_gate(vals, g), w) == read(vals, w),
{
}

/// One control whose polarity-adjusted reading is inactive suppresses the
/// flip: the target keeps its value.
pub proof fn lemma_inactive_control_suppresses(g: GateView, vals: Map<nat, bool>, j: int)
    requires
        0 <= j < g.controls.len(),
        read(vals, g.controls[j].0) == g.controls[j].1,
    ensures
        read(apply_gate(vals, g), g.target) == read(vals, g.target),
{
    assert(!gate_fires(g, vals));
}

/// When one gate's controls all occur among another's, the latter fires
/// only if the former does.
proof fn lemma_gate_fires_mono(g1: GateView, g2: GateView, vals: Map<nat, bool>)
    requires
        forall|c: (nat, bool)| g2.controls.contains(c) ==> g1.controls.contains(c),
        gate_fires(g1, vals),
    ensures
        gate_fires(g2, vals),
{
    assert forall|j: int|
        0 <= j < g2.controls.len() implies read(vals, (#[trigger] g2.controls[j]).0)
        != g2.controls[j].1 by {
        assert(g2.controls.contains(g2.controls[j]));
        let k = choose|k: int| 0 <= k < g1.controls.len() && g1.controls[k] == g2.controls[j];
        assert(read(vals, g1.controls[k].0) != g1.controls[k].1);
    }
}

/// Controls behave as a set: two gates on the same target whose control
/// collections hold the same controls, in whatever order and multiplicity,
/// transform the wire values identically.
pub proof fn lemma_controls_are_a_set(g1: GateView, g2: GateView, vals: Map<nat, bool>)
    requires
        g1.target == g2.target,
        forall|c: (nat, bool)| g1.controls.contains(c) <==> g2.controls.contains(c),
    ensures
        apply_gate(vals, g1) == apply_gate(vals, g2),
{
    if gate_fires(g1, vals) {
        lemma_gate_fires_mono(g1, g2, vals);
    }
    if gate_fires(g2, vals) {
        lemma_gate_fires_mono(g2, g1, vals);
    }
}

/// A gate with a single control fires exactly when that control's wire,
/// adjusted by the polarity, is active: with polarity `false` when the wire
/// reads `true`, with polarity `true` when it reads `false`.
pub proof fn lemma_single_control_fires(vals: Map<nat, bool>, s: nat, pol: bool, t: nat)
    ensures
        gate_fires((GateView { controls: seq![(s, pol)], target: t }), vals) == (read(vals, s)
            != pol),
{
    let g = GateView { controls: seq![(s, pol)], target: t };
    assert(g.controls[0] == (s, pol));
    if read(vals, s) != pol {
        assert forall|j: int|
            0 <= j < g.controls.len() implies read(vals, (#[trigger] g.controls[j]).0)
            != g.controls[j].1 by {
            assert(g.controls[j] == (s, pol));
        }
    }
}

/// Attaching the same descriptor twice is the same as attaching it once:
/// descriptor sets deduplicate.
pub proof fn lemma_attach_idempotent(descs: Seq<(nat, Seq<DescView>)>, w: nat, d: DescView)
    ensures
        attach(attach(descs, w, d), w, d) == attach(descs, w, d),
    decreases descs.len(),
{
    let once = attach(descs, w, d);
    if descs.len() == 0 {
        assert(seq![d][0] == d);
        assert(once.first().1.contains(d));
        assert(attach(once, w, d) =~= once);
    } else if descs.first().0 == w {
        assert(once.first().0 == w);
        if descs.first().1.contains(d) {
            assert(once.first().1.contains(d));
        } else {
            let pushed = descs.first().1.push(d);
            assert(pushed[descs.first().1.len() as int] == d);
            assert(once.first().1.contains(d));
        }
        assert(attach(once, w, d) =~= once);
    } else {
        lemma_attach_idempotent(descs.drop_first(), w, d);
        assert(once.first() == descs.first());
        assert(once.drop_first() =~= attach(descs.drop_first(), w, d));
        assert(attach(once, w, d) =~= seq![once.first()] + attach(once.drop_first(), w, d));
        assert(attach(once, w, d) =~= once);
    }
}

/// The result of execution does not depend on how many wires were
/// allocated: a wire that no descriptor and no gate mentions never affects
/// the result.
pub proof fn lemma_result_independent_of_wire_count(
    c1: CircuitView,
    c2: CircuitView,
    args: Map<Seq<char>, Seq<bool>>,
)
    requires
        c1.gates == c2.gates,
        c1.descs == c2.descs,
    ensures
        spec_execute(c1, args) == spec_execute(c2, args),
{
}

/// Whether a descriptor's argument name, if it has one, is bound alike by
/// two assignments.
pub open spec fn desc_args_agree(
    d: DescView,
    a1: Map<Seq<char>, Seq<bool>>,
    a2: Map<Seq<char>, Seq<bool>>,
) -> bool {
    match d.reg {
        RegisterView::Argument(name) => a1.dom().contains(name) && a2.dom().contains(name)
            && a1[name] == a2[name],
        _ => true,
    }
}

/// Whether two assignments agree on every argument name the circuit's
/// descriptors reference.
pub open spec fn args_agree(
    descs: Seq<(nat, Seq<DescView>)>,
    a1: Map<Seq<char>, Seq<bool>>,
    a2: Map<Seq<char>, Seq<bool>>,
) -> bool {
    forall|i: int, j: int|
        0 <= i < descs.len() && 0 <= j < descs[i].1.len() ==> desc_args_agree(
            #[trigger] descs[i].1[j],
            a1,
            a2,
        )
}

/// Two assignments that agree on a wire's referenced names give the wire
/// the same initial value.
proof fn lemma_arg_value_agree(
    ds: Seq<DescView>,
    a1: Map<Seq<char>, Seq<bool>>,
    a2: Map<Seq<char>, Seq<bool>>,
)
    requires
        forall|j: int| 0 <= j < ds.len() ==> desc_args_agree(#[trigger] ds[j], a1, a2),
    ensures
        arg_value(ds, a1) == arg_value(ds, a2),
    decreases ds.len(),
{
    if ds.len() > 0 {
        assert(desc_args_agree(ds[ds.len() - 1], a1, a2));
        assert forall|j: int|
            0 <= j < ds.drop_last().len() implies desc_args_agree(
            #[trigger] ds.drop_last()[j],
            a1,
            a2,
        ) by {
            assert(ds.drop_last()[j] == ds[j]);
        }
        lemma_arg_value_agree(ds.drop_last(), a1, a2);
    }
}

/// Two assignments that agree on all referenced names initialise the wires
/// identically.
proof fn lemma_init_vals_agree(
    descs: Seq<(nat, Seq<DescView>)>,
    a1: Map<Seq<char>, Seq<bool>>,
    a2: Map<Seq<char>, Seq<bool>>,
)
    requires
        args_agree(descs, a1, a2),
    ensures
        init_vals(descs, a1) == init_vals(descs, a2),
    decreases descs.len(),
{
    if descs.len() > 0 {
        let last = descs.len() - 1;
        assert forall|j: int|
            0 <= j < descs.last().1.len() implies desc_args_agree(
            #[trigger] descs.last().1[j],
            a1,
            a2,
        ) by {
            assert(descs[last].1[j] == descs.last().1[j]);
        }
        lemma_arg_value_agree(descs.last().1, a1, a2);
        assert forall|i: int, j: int|
            0 <= i < descs.drop_last().len() && 0 <= j < descs.drop_last()[i].1.len()
            implies desc_args_agree(#[trigger] descs.drop_last()[i].1[j], a1, a2) by {
            assert(descs.drop_last()[i] == descs[i]);
        }
        lemma_init_vals_agree(descs.drop_last(), a1, a2);
    }
}

/// Entries of the assignment that no `Argument` descriptor references never
/// affect the result: two assignments that agree on the referenced names
/// yield the same result vector.
pub proof fn lemma_extra_arguments_ignored(
    c: CircuitView,
    a1: Map<Seq<char>, Seq<bool>>,
    a2: Map<Seq<char>, Seq<bool>>,
)
    requires
        args_agree(c.descs, a1, a2),
    ensures
        spec_execute(c, a1) == spec_execute(c, a2),
{
    lemma_init_vals_agree(c.descs, a1, a2);
}

/// The descriptor list of a wire tagged as argument bit zero and result bit
/// zero.
pub open spec fn alias_descs(w: nat, name: Seq<char>) -> Seq<(nat, Seq<DescView>)> {
    seq![
        (w, seq![
            (DescView { reg: RegisterView::Argument(name), index: 0 }),
            (DescView { reg: RegisterView::Result, index: 0 }),
        ]),
    ]
}

/// Evaluates the model on the one-wire argument-and-result descriptor list:
/// the wire starts at the argument bit, the result length is one, and the
/// single result bit reads the wire.
proof fn lemma_alias_descs_model(w: nat, name: Seq<char>, args: Map<Seq<char>, Seq<bool>>, m: Map<
    nat,
    bool,
>)
    ensures
        init_vals(alias_descs(w, name), args) == Map::<nat, bool>::empty().insert(
            w,
            args[name][0],
        ),
        crate::model::result_len(alias_descs(w, name)) == 1,
        crate::model::fill_all(Seq::new(1nat, |k: int| false), alias_descs(w, name), m) == seq![
            read(m, w),
        ],
{
    let da = DescView { reg: RegisterView::Argument(name), index: 0 };
    let dr = DescView { reg: RegisterView::Result, index: 0 };
    let ds = seq![da, dr];
    let descs = alias_descs(w, name);
    let b = args[name][0];
    let zeros = Seq::new(1nat, |k: int| false);
    let empty_ds = Seq::<DescView>::empty();
    let empty_descs = Seq::<(nat, Seq<DescView>)>::empty();
    assert(ds.last() == dr);
    assert(ds.drop_last() =~= seq![da]);
    assert(seq![da].last() == da);
    assert(seq![da].drop_last() =~= empty_ds);
    assert(descs.last() == (w, ds));
    assert(descs.drop_last() =~= empty_descs);

    // Initial values: the last argument descriptor of the wire decides.
    assert(arg_value(seq![da], args) == Some(b));
    assert(arg_value(ds, args) == Some(b));
    assert(init_vals(empty_descs, args) == Map::<nat, bool>::empty());
    assert(init_vals(descs, args) == Map::<nat, bool>::empty().insert(w, b));

    // Result length: the single result descriptor sits at position zero.
    assert(crate::model::wire_result_len(empty_ds) == 0);
    assert(crate::model::wire_result_len(seq![da]) == 0);
    assert(crate::model::wire_result_len(ds) == 1);
    assert(crate::model::result_len(empty_descs) == 0);
    assert(crate::model::result_len(descs) == 1);

    // Filling: the single result bit reads the wire.
    let v = read(m, w);
    assert(crate::model::fill_wire(zeros, empty_ds, v) == zeros);
    assert(crate::model::fill_wire(zeros, seq![da], v) == zeros);
    assert(zeros.update(0, v) =~= seq![v]);
    assert(crate::model::fill_wire(zeros, ds, v) == seq![v]);
    assert(crate::model::fill_all(zeros, empty_descs, m) == zeros);
    assert(crate::model::fill_all(zeros, descs, m) == seq![v]);
}

/// A wire tagged as both argument and result, in a circuit with no gates,
/// hands its argument bit through unchanged.
pub proof fn lemma_alias_identity(
    c: CircuitView,
    args: Map<Seq<char>, Seq<bool>>,
    w: nat,
    name: Seq<char>,
)
    requires
        c.gates.len() == 0,
        c.descs == alias_descs(w, name),
        args.dom().contains(name),
        args[name].len() >= 1,
    ensures
        spec_execute(c, args) == seq![args[name][0]],
{
    let b = args[name][0];
    let vals = init_vals(c.descs, args);
    lemma_alias_descs_model(w, name, args, vals);
    assert(apply_gates(vals, c.gates) == vals);
    assert(read(vals, w) == b);
    assert(spec_execute(c, args) == seq![b]);
}

/// A single unconditional NOT on a wire tagged as both argument and result
/// returns the negated argument bit.
pub proof fn lemma_bare_not(
    c: CircuitView,
    args: Map<Seq<char>, Seq<bool>>,
    w: nat,
    name: Seq<char>,
)
    requires
        c.gates == seq![(GateView { controls: Seq::empty(), target: w })],
        c.descs == alias_descs(w, name),
        args.dom().contains(name),
        args[name].len() >= 1,
    ensures
        spec_execute(c, args) == seq![!args[name][0]],
{
    let b = args[name][0];
    let g = GateView { controls: Seq::empty(), target: w };
    let init = init_vals(c.descs, args);
    let vals = apply_gates(init, c.gates);
    assert(c.gates.last() == g);
    assert(c.gates.drop_last() =~= Seq::<GateView>::empty());
    assert(apply_gates(init, Seq::<GateView>::empty()) == init);
    assert(gate_fires(g, init));
    assert(vals == init.insert(w, read(init, w) != true));
    lemma_alias_descs_model(w, name, args, vals);
    assert(read(init, w) == b);
    assert(read(vals, w) == !b);
    assert(spec_execute(c, args) == seq![!b]);
}

} // verus!
