//! Mathematical model of circuits and of their execution.
//!
//! Every executable type of the library has a view into this model, and every
//! contract is stated over it. Wires are identified by natural numbers; a
//! circuit is its wire count, its gate sequence, and an association sequence
//! from wire to the ordered sequence of descriptors attached to it. Execution
//! is a fold: initialise wire values from the argument assignment, apply the
//! gates in order, then gather the result bits.

use vstd::prelude::*;

verus! {

/// The role a wire plays at the circuit boundary.
#[verifier::ext_equal]
pub enum RegisterView {
    /// Internal scratch wire, never stored explicitly in a descriptor map.
    Ancillary,
    /// The wire holds an output bit of the circuit.
    Result,
    /// The wire holds an input bit of the named argument array.
    Argument(Seq<char>),
}

/// One descriptor attached to a wire: a role and a position within that role.
#[verifier::ext_equal]
pub struct DescView {
    pub reg: RegisterView,
    pub index: nat,
}

/// A multi-controlled NOT gate: the target flips when every control,
/// adjusted by its polarity, is active. Polarity `false` means the control
/// is active when its wire reads `true`; polarity `true` means the control
/// is active when its wire reads `false`.
#[verifier::ext_equal]
pub struct GateView {
    pub controls: Seq<(nat, bool)>,
    pub target: nat,
}

/// A whole circuit: the next free wire index, the gates in application
/// order, and for each wire that carries descriptors, the descriptors in
/// attachment order.
#[verifier::ext_equal]
pub struct CircuitView {
    pub qubits_count: nat,
    pub gates: Seq<GateView>,
    pub descs: Seq<(nat, Seq<DescView>)>,
}

/// The descriptor sequence stored for wire `w`: the first entry with key `w`,
/// or the empty sequence when none exists.
pub open spec fn desc_seq(descs: Seq<(nat, Seq<DescView>)>, w: nat) -> Seq<DescView>
    decreases descs.len(),
{
    if descs.len() == 0 {
        Seq::empty()
    } else if descs.first().0 == w {
        descs.first().1
    } else {
        desc_seq(descs.drop_first(), w)
    }
}

/// Whether some entry for wire `w` exists.
pub open spec fn has_entry(descs: Seq<(nat, Seq<DescView>)>, w: nat) -> bool {
    exists|k: int| 0 <= k < descs.len() && (#[trigger] descs[k]).0 == w
}

/// The argument bit a descriptor sequence assigns to its wire: the value
/// named by the last `Argument` descriptor, or `None` when the wire carries
/// no `Argument` descriptor.
pub open spec fn arg_value(ds: Seq<DescView>, args: Map<Seq<char>, Seq<bool>>) -> Option<bool>
    decreases ds.len(),
{
    if ds.len() == 0 {
        None
    } else {
        match ds.last().reg {
            RegisterView::Argument(name) => Some(args[name][ds.last().index as int]),
            _ => arg_value(ds.drop_last(), args),
        }
    }
}

/// The wire values before any gate runs: each wire with an `Argument`
/// descriptor holds its argument bit; every other wire is absent and reads
/// as `false`.
pub open spec fn init_vals(
    descs: Seq<(nat, Seq<DescView>)>,
    args: Map<Seq<char>, Seq<bool>>,
) -> Map<nat, bool>
    decreases descs.len(),
{
    if descs.len() == 0 {
        Map::empty()
    } else {
        let rest = init_vals(descs.drop_last(), args);
        match arg_value(descs.last().1, args) {
            Some(b) => rest.insert(descs.last().0, b),
            None => rest,
        }
    }
}

/// Reading a wire: a wire absent from the value map reads as `false`.
pub open spec fn read(vals: Map<nat, bool>, w: nat) -> bool {
    if vals.dom().contains(w) {
        vals[w]
    } else {
        false
    }
}

/// Whether a gate fires: every control, adjusted by its polarity, must be
/// active. The empty control set fires unconditionally. All controls read
/// the pre-gate values, so a control placed on a gate's own target reads the
/// value from before the flip.
pub open spec fn gate_fires(g: GateView, vals: Map<nat, bool>) -> bool {
    forall|j: int|
        0 <= j < g.controls.len() ==> read(vals, (#[trigger] g.controls[j]).0) != g.controls[j].1
}

/// One gate application: the target flips exactly when its gate fires.
pub open spec fn apply_gate(vals: Map<nat, bool>, g: GateView) -> Map<nat, bool> {
    vals.insert(g.target, read(vals, g.target) != gate_fires(g, vals))
}

/// Applying a gate sequence in order, each gate reading the values the
/// previous gates left behind.
pub open spec fn apply_gates(vals: Map<nat, bool>, gates: Seq<GateView>) -> Map<nat, bool>
    decreases gates.len(),
{
    if gates.len() == 0 {
        vals
    } else {
        apply_gate(apply_gates(vals, gates.drop_last()), gates.last())
    }
}

/// The result length a single wire's descriptors demand: one past the
/// largest `Result` position, or zero when the wire holds no `Result`
/// descriptor.
pub open spec fn wire_result_len(ds: Seq<DescView>) -> nat
    decreases ds.len(),
{
    if ds.len() == 0 {
        0
    } else {
        let prev = wire_result_len(ds.drop_last());
        let cur: nat = match ds.last().reg {
            RegisterView::Result => ds.last().index + 1,
            _ => 0,
        };
        if cur > prev {
            cur
        } else {
            prev
        }
    }
}

/// The length of the result vector: one past the largest `Result` position
/// over the whole circuit, or zero when no `Result` descriptor exists.
pub open spec fn result_len(descs: Seq<(nat, Seq<DescView>)>) -> nat
    decreases descs.len(),
{
    if descs.len() == 0 {
        0
    } else {
        let prev = result_len(descs.drop_last());
        let cur = wire_result_len(descs.last().1);
        if cur > prev {
            cur
        } else {
            prev
        }
    }
}

/// Writing one wire's value `v` into the result vector at every position a
/// `Result` descriptor of that wire names.
pub open spec fn fill_wire(r: Seq<bool>, ds: Seq<DescView>, v: bool) -> Seq<bool>
    decreases ds.len(),
{
    if ds.len() == 0 {
        r
    } else {
        let prev = fill_wire(r, ds.drop_last(), v);
        match ds.last().reg {
            RegisterView::Result => if ds.last().index < prev.len() {
                prev.update(ds.last().index as int, v)
            } else {
                prev
            },
            _ => prev,
        }
    }
}

/// Writing every wire's final value into the result vector, wire entries in
/// stored order.
pub open spec fn fill_all(
    r: Seq<bool>,
    descs: Seq<(nat, Seq<DescView>)>,
    vals: Map<nat, bool>,
) -> Seq<bool>
    decreases descs.len(),
{
    if descs.len() == 0 {
        r
    } else {
        fill_wire(
            fill_all(r, descs.drop_last(), vals),
            descs.last().1,
            read(vals, descs.last().0),
        )
    }
}

/// The wire values after the whole gate list has run.
pub open spec fn final_vals(c: CircuitView, args: Map<Seq<char>, Seq<bool>>) -> Map<nat, bool> {
    apply_gates(init_vals(c.descs, args), c.gates)
}

/// What `Circuit::execute` returns: the result vector, initially all
/// `false`, filled from the final wire values at the positions the `Result`
/// descriptors name. A position no descriptor covers stays `false`.
pub open spec fn spec_execute(c: CircuitView, args: Map<Seq<char>, Seq<bool>>) -> Seq<bool> {
    fill_all(Seq::new(result_len(c.descs), |i: int| false), c.descs, final_vals(c, args))
}

/// Whether an argument assignment supplies every bit one wire's descriptors
/// ask for.
pub open spec fn wire_args_ok(ds: Seq<DescView>, args: Map<Seq<char>, Seq<bool>>) -> bool {
    forall|j: int|
        0 <= j < ds.len() ==> match (#[trigger] ds[j]).reg {
            RegisterView::Argument(name) => args.dom().contains(name) && ds[j].index < args[name].len(),
            _ => true,
        }
}

/// Whether an argument assignment supplies every bit the circuit's
/// `Argument` descriptors ask for.
pub open spec fn args_ok(descs: Seq<(nat, Seq<DescView>)>, args: Map<Seq<char>, Seq<bool>>) -> bool {
    forall|i: int| 0 <= i < descs.len() ==> wire_args_ok((#[trigger] descs[i]).1, args)
}

/// Whether every `Result` descriptor position lies below `bound`.
pub open spec fn result_positions_below(descs: Seq<(nat, Seq<DescView>)>, bound: nat) -> bool {
    forall|i: int, j: int|
        0 <= i < descs.len() && 0 <= j < descs[i].1.len()
            && (#[trigger] descs[i].1[j]).reg is Result ==> descs[i].1[j].index < bound
}

/// Attaching a descriptor to a wire: the wire's existing entry gains the
/// descriptor unless it already holds it (set semantics); a wire without an
/// entry gains a fresh one at the end.
pub open spec fn attach(
    descs: Seq<(nat, Seq<DescView>)>,
    w: nat,
    d: DescView,
) -> Seq<(nat, Seq<DescView>)>
    decreases descs.len(),
{
    if descs.len() == 0 {
        seq![(w, seq![d])]
    } else if descs.first().0 == w {
        seq![
            (w, if descs.first().1.contains(d) {
                descs.first().1
            } else {
                descs.first().1.push(d)
            }),
        ] + descs.drop_first()
    } else {
        seq![descs.first()] + attach(descs.drop_first(), w, d)
    }
}

/// How many wires below `w` carry no descriptor entry: the position the
/// introspection view gives a synthesized ancillary descriptor.
pub open spec fn ancillas_below(descs: Seq<(nat, Seq<DescView>)>, w: nat) -> nat
    decreases w,
{
    if w == 0 {
        0
    } else {
        ancillas_below(descs, (w - 1) as nat) + if has_entry(descs, (w - 1) as nat) {
            0nat
        } else {
            1nat
        }
    }
}

/// The stored descriptors of a wire whose first entry stands at `i`.
pub proof fn lemma_desc_seq_found(descs: Seq<(nat, Seq<DescView>)>, w: nat, i: int)
    requires
        0 <= i < descs.len(),
        descs[i].0 == w,
        forall|k: int| 0 <= k < i ==> (#[trigger] descs[k]).0 != w,
    ensures
        desc_seq(descs, w) == descs[i].1,
    decreases i,
{
    if i == 0 {
    } else {
        assert(descs[0].0 != w);
        assert forall|k: int| 0 <= k < i - 1 implies (#[trigger] descs.drop_first()[k]).0 != w by {
            assert(descs.drop_first()[k] == descs[k + 1]);
        }
        assert(descs.drop_first()[i - 1] == descs[i]);
        lemma_desc_seq_found(descs.drop_first(), w, i - 1);
    }
}

/// A wire without an entry stores no descriptors.
pub proof fn lemma_desc_seq_absent(descs: Seq<(nat, Seq<DescView>)>, w: nat)
    requires
        forall|k: int| 0 <= k < descs.len() ==> (#[trigger] descs[k]).0 != w,
    ensures
        desc_seq(descs, w) == Seq::<DescView>::empty(),
    decreases descs.len(),
{
    if descs.len() > 0 {
        assert(descs[0].0 != w);
        assert forall|k: int|
            0 <= k < descs.drop_first().len() implies (#[trigger] descs.drop_first()[k]).0
            != w by {
            assert(descs.drop_first()[k] == descs[k + 1]);
        }
        lemma_desc_seq_absent(descs.drop_first(), w);
    }
}

/// At most `w` wires below `w` lack an entry.
pub proof fn lemma_ancillas_below_le(descs: Seq<(nat, Seq<DescView>)>, w: nat)
    ensures
        ancillas_below(descs, w) <= w,
    decreases w,
{
    if w > 0 {
        lemma_ancillas_below_le(descs, (w - 1) as nat);
    }
}

/// `attach` on a sequence without an entry for `w` appends a fresh entry
/// holding only the new descriptor.
pub proof fn lemma_attach_absent(descs: Seq<(nat, Seq<DescView>)>, w: nat, d: DescView)
    requires
        forall|k: int| 0 <= k < descs.len() ==> (#[trigger] descs[k]).0 != w,
    ensures
        attach(descs, w, d) =~= descs.push((w, seq![d])),
    decreases descs.len(),
{
    if descs.len() == 0 {
    } else {
        assert(descs[0].0 != w);
        assert forall|k: int|
            0 <= k < descs.drop_first().len() implies (#[trigger] descs.drop_first()[k]).0
            != w by {
            assert(descs.drop_first()[k] == descs[k + 1]);
        }
        lemma_attach_absent(descs.drop_first(), w, d);
    }
}

/// `attach` on a sequence whose first entry for `w` stands at `i` updates
/// that entry alone: the descriptor is appended there unless already held.
pub proof fn lemma_attach_found(descs: Seq<(nat, Seq<DescView>)>, w: nat, d: DescView, i: int)
    requires
        0 <= i < descs.len(),
        descs[i].0 == w,
        forall|k: int| 0 <= k < i ==> (#[trigger] descs[k]).0 != w,
    ensures
        attach(descs, w, d) =~= descs.update(
            i,
            (w, if descs[i].1.contains(d) {
                descs[i].1
            } else {
                descs[i].1.push(d)
            }),
        ),
    decreases i,
{
    if i == 0 {
    } else {
        assert(descs[0].0 != w);
        assert forall|k: int| 0 <= k < i - 1 implies (#[trigger] descs.drop_first()[k]).0 != w by {
            assert(descs.drop_first()[k] == descs[k + 1]);
        }
        assert(descs.drop_first()[i - 1] == descs[i]);
        lemma_attach_found(descs.drop_first(), w, d, i - 1);
    }
}

/// Every `Result` position a single wire's descriptors name lies below that
/// wire's demanded result length.
pub proof fn lemma_wire_result_positions(ds: Seq<DescView>, j: int)
    requires
        0 <= j < ds.len(),
        ds[j].reg is Result,
    ensures
        ds[j].index < wire_result_len(ds),
    decreases ds.len(),
{
    if j == ds.len() - 1 {
    } else {
        lemma_wire_result_positions(ds.drop_last(), j);
    }
}

/// Every `Result` position in the circuit lies below the result length.
pub proof fn lemma_result_positions(descs: Seq<(nat, Seq<DescView>)>, i: int, j: int)
    requires
        0 <= i < descs.len(),
        0 <= j < descs[i].1.len(),
        descs[i].1[j].reg is Result,
    ensures
        descs[i].1[j].index < result_len(descs),
    decreases descs.len(),
{
    if i == descs.len() - 1 {
        lemma_wire_result_positions(descs[i].1, j);
    } else {
        lemma_result_positions(descs.drop_last(), i, j);
    }
}

/// Filling result positions for one wire never changes the vector's length.
pub proof fn lemma_fill_wire_len(r: Seq<bool>, ds: Seq<DescView>, v: bool)
    ensures
        fill_wire(r, ds, v).len() == r.len(),
    decreases ds.len(),
{
    if ds.len() > 0 {
        lemma_fill_wire_len(r, ds.drop_last(), v);
    }
}

/// Filling result positions never changes the vector's length.
pub proof fn lemma_fill_all_len(r: Seq<bool>, descs: Seq<(nat, Seq<DescView>)>, vals: Map<nat, bool>)
    ensures
        fill_all(r, descs, vals).len() == r.len(),
    decreases descs.len(),
{
    if descs.len() > 0 {
        lemma_fill_all_len(r, descs.drop_last(), vals);
        lemma_fill_wire_len(fill_all(r, descs.drop_last(), vals), descs.last().1, read(vals, descs.last().0));
    }
}

} // verus!
