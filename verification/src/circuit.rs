//! The executable circuit representation: wires, registers, descriptors,
//! gates, the builder operations, the execution engine, and the
//! introspection view that synthesizes ancillary descriptors.

use crate::model::{
    ancillas_below, apply_gate, apply_gates, arg_value, args_ok, attach, desc_seq, fill_all,
    fill_wire, gate_fires, has_entry, init_vals, lemma_ancillas_below_le, lemma_attach_absent,
    lemma_attach_found, lemma_desc_seq_absent, lemma_desc_seq_found, lemma_fill_all_len,
    lemma_fill_wire_len, lemma_result_positions, read, result_len,
    result_positions_below, spec_execute, wire_args_ok, wire_result_len, CircuitView, DescView,
    GateView, RegisterView,
};
use crate::args::Arguments;
use crate::valmap::ValMap;
use vstd::prelude::*;

verus! {

/// A wire of the circuit: an opaque integer handle, unique within one
/// circuit, obtained from `Circuit::get_ancilla_qubit`.
#[derive(Debug, Clone, Copy, PartialEq, Eq, Hash, Structural)]
pub struct Qubit {
    pub index: u32,
}

impl Qubit {
    /// Wraps an index as a wire handle.
    pub fn new(index: u32) -> (r: Self)
        ensures
            r.index == index,
    {
        Self { index }
    }
}

/// The role a wire plays at the circuit boundary.
#[derive(Debug, PartialEq, Eq, Hash)]
pub enum QubitRegisterEnum {
    /// Internal scratch wire with no external meaning.
    Ancillary,
    /// The wire holds an output bit of the circuit.
    Result,
    /// The wire holds an input bit of the named argument array.
    Argument(String),
}

impl View for QubitRegisterEnum {
    type V = RegisterView;

    open spec fn view(&self) -> RegisterView {
        match self {
            QubitRegisterEnum::Ancillary => RegisterView::Ancillary,
            QubitRegisterEnum::Result => RegisterView::Result,
            QubitRegisterEnum::Argument(name) => RegisterView::Argument(name@),
        }
    }
}

impl Clone for QubitRegisterEnum {
    fn clone(&self) -> (r: Self)
        ensures
            r == *self,
    {
        match self {
            QubitRegisterEnum::Ancillary => QubitRegisterEnum::Ancillary,
            QubitRegisterEnum::Result => QubitRegisterEnum::Result,
            QubitRegisterEnum::Argument(name) => QubitRegisterEnum::Argument(name.clone()),
        }
    }
}

/// A register tag: the role a wire plays.
#[derive(Debug, PartialEq, Eq, Hash)]
pub struct QubitRegister(pub QubitRegisterEnum);

impl View for QubitRegister {
    type V = RegisterView;

    open spec fn view(&self) -> RegisterView {
        self.0@
    }
}

impl Clone for QubitRegister {
    fn clone(&self) -> (r: Self)
        ensures
            r == *self,
    {
        QubitRegister(self.0.clone())
    }
}

impl QubitRegister {
    /// Whether this register is a result output.
    pub fn is_result(&self) -> (r: bool)
        ensures
            r == (self@ is Result),
    {
        matches!(self.0, QubitRegisterEnum::Result)
    }

    /// Whether this register is an ancillary scratch wire.
    pub fn is_ancillary(&self) -> (r: bool)
        ensures
            r == (self@ is Ancillary),
    {
        matches!(self.0, QubitRegisterEnum::Ancillary)
    }

    /// Whether this register is an argument input.
    pub fn is_argument(&self) -> (r: bool)
        ensures
            r == (self@ is Argument),
    {
        matches!(self.0, QubitRegisterEnum::Argument(..))
    }

    /// The argument name, or `None` when the register is not an argument.
    pub fn argument_name(&self) -> (r: Option<String>)
        ensures
            (self@ is Argument) <==> (r is Some),
            self@ matches RegisterView::Argument(name) ==> r matches Some(s) && s@ == name,
    {
        match &self.0 {
            QubitRegisterEnum::Argument(name) => Some(name.clone()),
            _ => None,
        }
    }

    /// A short printable name for the register's role.
    pub fn name(&self) -> (r: String)
        ensures
            r@ == match self@ {
                RegisterView::Ancillary => "anc"@,
                RegisterView::Result => "ret"@,
                RegisterView::Argument(name) => name,
            },
    {
        match &self.0 {
            QubitRegisterEnum::Ancillary => "anc".to_owned(),
            QubitRegisterEnum::Result => "ret".to_owned(),
            QubitRegisterEnum::Argument(name) => name.clone(),
        }
    }
}

/// A descriptor attached to a wire: the register role and the position of
/// the wire within that role.
#[derive(Debug, PartialEq, Eq, Hash)]
pub struct QubitDesc {
    pub reg: QubitRegister,
    pub index: u32,
}

impl View for QubitDesc {
    type V = DescView;

    open spec fn view(&self) -> DescView {
        DescView { reg: self.reg@, index: self.index as nat }
    }
}

impl Clone for QubitDesc {
    fn clone(&self) -> (r: Self)
        ensures
            r == *self,
    {
        QubitDesc { reg: self.reg.clone(), index: self.index }
    }
}

/// Descriptor equality, decided over the views.
fn desc_eq(a: &QubitDesc, b: &QubitDesc) -> (r: bool)
    ensures
        r == (a@ == b@),
{
    if a.index != b.index {
        return false;
    }
    match (&a.reg.0, &b.reg.0) {
        (QubitRegisterEnum::Ancillary, QubitRegisterEnum::Ancillary) => true,
        (QubitRegisterEnum::Result, QubitRegisterEnum::Result) => true,
        (QubitRegisterEnum::Argument(n1), QubitRegisterEnum::Argument(n2)) => *n1 == *n2,
        _ => false,
    }
}

/// Clones a stored descriptor list, element for element.
fn clone_descs(v: &Vec<QubitDesc>) -> (r: Vec<QubitDesc>)
    ensures
        r@ == v@,
{
    let n = v.len();
    let mut r: Vec<QubitDesc> = Vec::new();
    let mut i: usize = 0;
    while i < n
        invariant
            n == v.len(),
            i <= n,
            r@ == v@.take(i as int),
        decreases n - i,
    {
        r.push(v[i].clone());
        proof {
            assert(r@ =~= v@.take(i as int + 1));
        }
        i += 1;
    }
    proof {
        assert(v@.take(n as int) =~= v@);
    }
    r
}

/// A multi-controlled NOT gate: a target wire and a collection of
/// polarity-tagged control wires. Duplicate controls and control order do
/// not change a gate's behaviour.
#[derive(Debug)]
pub struct GateX {
    controls: Vec<(Qubit, bool)>,
    target: Qubit,
}

/// Clones a control list, element for element.
fn clone_controls(v: &Vec<(Qubit, bool)>) -> (r: Vec<(Qubit, bool)>)
    ensures
        r@ == v@,
{
    let n = v.len();
    let mut r: Vec<(Qubit, bool)> = Vec::new();
    let mut i: usize = 0;
    while i < n
        invariant
            n == v.len(),
            i <= n,
            r@ == v@.take(i as int),
        decreases n - i,
    {
        r.push(v[i]);
        proof {
            assert(r@ =~= v@.take(i as int + 1));
        }
        i += 1;
    }
    proof {
        assert(v@.take(n as int) =~= v@);
    }
    r
}

impl Clone for GateX {
    fn clone(&self) -> (r: Self)
        ensures
            r@ == self@,
    {
        GateX { controls: clone_controls(&self.controls), target: self.target }
    }
}

/// The view of a control list.
pub open spec fn controls_view(cs: Seq<(Qubit, bool)>) -> Seq<(nat, bool)> {
    cs.map_values(|c: (Qubit, bool)| (c.0.index as nat, c.1))
}

impl View for GateX {
    type V = GateView;

    closed spec fn view(&self) -> GateView {
        GateView { controls: controls_view(self.controls@), target: self.target.index as nat }
    }
}

/// The view of a stored descriptor list.
pub open spec fn desc_list_view(ds: Seq<QubitDesc>) -> Seq<DescView> {
    ds.map_values(|d: QubitDesc| d@)
}

/// The view of the stored wire-to-descriptors association list.
pub open spec fn desc_map_view(m: Seq<(Qubit, Vec<QubitDesc>)>) -> Seq<(nat, Seq<DescView>)> {
    m.map_values(|e: (Qubit, Vec<QubitDesc>)| (e.0.index as nat, desc_list_view(e.1@)))
}

/// A reversible boolean circuit: the number of allocated wires, the gates in
/// application order, and the descriptors attached to each wire.
#[derive(Debug)]
pub struct Circuit {
    pub qubits_count: u32,
    pub gates: Vec<GateX>,
    qubits_map: Vec<(Qubit, Vec<QubitDesc>)>,
}

impl View for Circuit {
    type V = CircuitView;

    closed spec fn view(&self) -> CircuitView {
        CircuitView {
            qubits_count: self.qubits_count as nat,
            gates: self.gates@.map_values(|g: GateX| g@),
            descs: desc_map_view(self.qubits_map@),
        }
    }
}

impl Default for Circuit {
    /// The empty circuit: no wires, no gates, no descriptors.
    fn default() -> (r: Self)
        ensures
            r@.qubits_count == 0,
            r@.gates == Seq::<GateView>::empty(),
            r@.descs == Seq::<(nat, Seq<DescView>)>::empty(),
    {
        Circuit::new()
    }
}

impl Circuit {
    /// The empty circuit: no wires, no gates, no descriptors.
    pub fn new() -> (r: Self)
        ensures
            r@.qubits_count == 0,
            r@.gates == Seq::<GateView>::empty(),
            r@.descs == Seq::<(nat, Seq<DescView>)>::empty(),
    {
        let r = Circuit { qubits_count: 0, gates: Vec::new(), qubits_map: Vec::new() };
        proof {
            assert(r@.gates =~= Seq::<GateView>::empty());
            assert(r@.descs =~= Seq::<(nat, Seq<DescView>)>::empty());
        }
        r
    }

    /// Allocates a fresh wire with the next unused index.
    pub fn get_ancilla_qubit(&mut self) -> (q: Qubit)
        requires
            old(self)@.qubits_count < u32::MAX,
        ensures
            q.index as nat == old(self)@.qubits_count,
            final(self)@.qubits_count == old(self)@.qubits_count + 1,
            final(self)@.gates == old(self)@.gates,
            final(self)@.descs == old(self)@.descs,
    {
        let q = Qubit::new(self.qubits_count);
        self.qubits_count = self.qubits_count + 1;
        q
    }

    /// Attaches `description` to `qubit`, with set semantics: attaching a
    /// descriptor the wire already carries changes nothing. The wire is not
    /// checked against the wire count; callers pass wires obtained from
    /// allocation.
    pub fn add_qubit_description(&mut self, qubit: Qubit, description: QubitDesc)
        ensures
            final(self)@.descs == attach(old(self)@.descs, qubit.index as nat, description@),
            final(self)@.gates == old(self)@.gates,
            final(self)@.qubits_count == old(self)@.qubits_count,
    {
        let ghost w = qubit.index as nat;
        let ghost d = description@;
        let ghost old_descs = self@.descs;
        let n = self.qubits_map.len();
        let mut i: usize = 0;
        while i < n
            invariant
                n == self.qubits_map.len(),
                i <= n,
                self.qubits_map@ == old(self).qubits_map@,
                self.gates@ == old(self).gates@,
                self.qubits_count == old(self).qubits_count,
                w == qubit.index as nat,
                d == description@,
                old_descs == old(self)@.descs,
                forall|k: int| 0 <= k < i ==> (#[trigger] old_descs[k]).0 != w,
            decreases n - i,
        {
            proof {
                assert(old_descs[i as int] == (
                    self.qubits_map@[i as int].0.index as nat,
                    desc_list_view(self.qubits_map@[i as int].1@),
                ));
            }
            if self.qubits_map[i].0.index == qubit.index {
                let mut entry = self.qubits_map.remove(i);
                let ghost ds = desc_list_view(entry.1@);
                proof {
                    assert(old_descs[i as int].1 == ds);
                }
                let m = entry.1.len();
                let mut j: usize = 0;
                let mut present = false;
                while j < m
                    invariant
                        m == entry.1.len(),
                        j <= m,
                        d == description@,
                        ds == desc_list_view(entry.1@),
                        present <==> exists|l: int|
                            0 <= l < j && (#[trigger] ds[l]) == d,
                    decreases m - j,
                {
                    proof {
                        assert(ds[j as int] == entry.1@[j as int]@);
                    }
                    if desc_eq(&entry.1[j], &description) {
                        present = true;
                    }
                    j += 1;
                }
                proof {
                    assert(present <==> ds.contains(d));
                }
                if !present {
                    entry.1.push(description);
                    proof {
                        assert(desc_list_view(entry.1@) =~= ds.push(d));
                    }
                }
                let ghost new_entry_view = (w, desc_list_view(entry.1@));
                self.qubits_map.insert(i, entry);
                proof {
                    assert(self.qubits_map@ =~= old(self).qubits_map@.update(
                        i as int,
                        self.qubits_map@[i as int],
                    ));
                    lemma_attach_found(old_descs, w, d, i as int);
                    assert(self@.descs =~= old_descs.update(i as int, new_entry_view));
                    assert(self@.descs =~= attach(old_descs, w, d));
                    assert(self@.gates =~= old(self)@.gates);
                }
                return;
            }
            i += 1;
        }
        let mut ds: Vec<QubitDesc> = Vec::new();
        ds.push(description);
        let ghost new_entry_view = (w, desc_list_view(ds@));
        self.qubits_map.push((qubit, ds));
        proof {
            assert(new_entry_view.1 =~= seq![d]);
            lemma_attach_absent(old_descs, w, d);
            assert(self@.descs =~= old_descs.push(new_entry_view));
            assert(self@.descs =~= attach(old_descs, w, d));
            assert(self@.gates =~= old(self)@.gates);
        }
    }

    /// Appends a gate with the given control set. Controls behave as a set:
    /// duplicates and order do not change what such a gate does.
    pub fn mcx(&mut self, controls: Vec<(Qubit, bool)>, target: Qubit)
        ensures
            final(self)@.gates == old(self)@.gates.push(
                (GateView { controls: controls_view(controls@), target: target.index as nat }),
            ),
            final(self)@.qubits_count == old(self)@.qubits_count,
            final(self)@.descs == old(self)@.descs,
    {
        let ghost gv = GateView { controls: controls_view(controls@), target: target.index as nat };
        self.gates.push(GateX { controls, target });
        proof {
            assert(self@.gates =~= old(self)@.gates.push(gv));
        }
    }

    /// Appends a gate with the single control `(source, inversed)`.
    pub fn cx(&mut self, source: Qubit, inversed: bool, target: Qubit)
        ensures
            final(self)@.gates == old(self)@.gates.push(
                (GateView {
                    controls: seq![(source.index as nat, inversed)],
                    target: target.index as nat,
                }),
            ),
            final(self)@.qubits_count == old(self)@.qubits_count,
            final(self)@.descs == old(self)@.descs,
    {
        let mut controls: Vec<(Qubit, bool)> = Vec::new();
        controls.push((source, inversed));
        proof {
            assert(controls_view(controls@) =~= seq![(source.index as nat, inversed)]);
        }
        self.mcx(controls, target);
    }

    /// The stored descriptor list of wire `w`, when one exists.
    fn find_descs(&self, w: u32) -> (r: Option<&Vec<QubitDesc>>)
        ensures
            (r is Some) <==> has_entry(self@.descs, w as nat),
            r matches Some(v) ==> desc_list_view(v@) == desc_seq(self@.descs, w as nat),
    {
        let ghost descs = self@.descs;
        let n = self.qubits_map.len();
        let mut i: usize = 0;
        while i < n
            invariant
                n == self.qubits_map.len(),
                descs == self@.descs,
                i <= n,
                forall|k: int| 0 <= k < i ==> (#[trigger] descs[k]).0 != w as nat,
            decreases n - i,
        {
            proof {
                assert(descs[i as int] == (
                    self.qubits_map@[i as int].0.index as nat,
                    desc_list_view(self.qubits_map@[i as int].1@),
                ));
            }
            if self.qubits_map[i].0.index == w {
                proof {
                    lemma_desc_seq_found(descs, w as nat, i as int);
                }
                return Some(&self.qubits_map[i].1);
            }
            i += 1;
        }
        proof {
            lemma_desc_seq_absent(descs, w as nat);
        }
        None
    }

    /// The full wire-to-descriptor mapping for introspection or export, one
    /// entry per allocated wire in increasing index order. A wire with no
    /// stored descriptors is reported with a synthesized `Ancillary`
    /// descriptor whose position counts such wires from index zero upward.
    /// The circuit must store no explicit `Ancillary` descriptor, and every
    /// stored descriptor must sit on an allocated wire.
    pub fn qubits_map_list(&self) -> (r: Vec<(Qubit, Vec<QubitDesc>)>)
        requires
            forall|k: int|
                0 <= k < self@.descs.len() ==> (#[trigger] self@.descs[k]).0 < self@.qubits_count,
            forall|k: int, l: int|
                0 <= k < self@.descs.len() && 0 <= l < self@.descs[k].1.len() ==> !((
                #[trigger] self@.descs[k].1[l]).reg is Ancillary),
        ensures
            r@.len() == self@.qubits_count,
            forall|i: int| 0 <= i < r@.len() ==> ((#[trigger] r@[i]).0.index as int) == i,
            forall|i: int|
                0 <= i < r@.len() && has_entry(self@.descs, i as nat) ==> desc_list_view(
                    (#[trigger] r@[i]).1@,
                ) == desc_seq(self@.descs, i as nat),
            forall|i: int|
                0 <= i < r@.len() && !has_entry(self@.descs, i as nat) ==> desc_list_view(
                    (#[trigger] r@[i]).1@,
                ) == seq![
                    (DescView {
                        reg: RegisterView::Ancillary,
                        index: ancillas_below(self@.descs, i as nat),
                    }),
                ],
    {
        let ghost descs = self@.descs;
        let count = self.qubits_count;
        let mut r: Vec<(Qubit, Vec<QubitDesc>)> = Vec::new();
        let mut anc: u32 = 0;
        let mut w: u32 = 0;
        while w < count
            invariant
                count == self.qubits_count,
                descs == self@.descs,
                w <= count,
                r@.len() == w as nat,
                anc as nat == ancillas_below(descs, w as nat),
                forall|i: int| 0 <= i < w as int ==> ((#[trigger] r@[i]).0.index as int) == i,
                forall|i: int|
                    0 <= i < w as int && has_entry(descs, i as nat) ==> desc_list_view(
                        (#[trigger] r@[i]).1@,
                    ) == desc_seq(descs, i as nat),
                forall|i: int|
                    0 <= i < w as int && !has_entry(descs, i as nat) ==> desc_list_view(
                        (#[trigger] r@[i]).1@,
                    ) == seq![
                        (DescView {
                            reg: RegisterView::Ancillary,
                            index: ancillas_below(descs, i as nat),
                        }),
                    ],
            decreases count - w,
        {
            proof {
                lemma_ancillas_below_le(descs, w as nat);
            }
            match self.find_descs(w) {
                Some(v) => {
                    let cl = clone_descs(v);
                    r.push((Qubit::new(w), cl));
                },
                None => {
                    let mut ds: Vec<QubitDesc> = Vec::new();
                    ds.push(QubitDesc { reg: QubitRegister(QubitRegisterEnum::Ancillary), index: anc });
                    proof {
                        assert(desc_list_view(ds@) =~= seq![
                            (DescView {
                                reg: RegisterView::Ancillary,
                                index: ancillas_below(descs, w as nat),
                            }),
                        ]);
                    }
                    r.push((Qubit::new(w), ds));
                    anc = anc + 1;
                },
            }
            w += 1;
        }
        r
    }

    /// Evaluates the circuit on a concrete argument assignment and returns
    /// the result bits.
    ///
    /// Wire values start at `false`, argument wires are loaded from `args`,
    /// the gates run in order, and the result vector is gathered from the
    /// `Result` descriptors; a position no descriptor covers stays `false`.
    /// The assignment must supply every bit the `Argument` descriptors name,
    /// the circuit must carry at least one descriptor, and every `Result`
    /// position must leave room for the length computation.
    pub fn execute(&self, args: &Arguments) -> (r: Vec<bool>)
        requires
            args_ok(self@.descs, args@),
            self@.descs.len() > 0,
            result_positions_below(self@.descs, u32::MAX as nat),
        ensures
            r@ == spec_execute(self@, args@),
    {
        let ghost descs = self@.descs;
        let ghost gargs = args@;
        let n = self.qubits_map.len();

        // Load every argument wire from the assignment.
        let mut vals = ValMap::new();
        let mut i: usize = 0;
        proof {
            assert(descs.take(0) =~= Seq::<(nat, Seq<DescView>)>::empty());
        }
        while i < n
            invariant
                n == self.qubits_map.len(),
                descs == self@.descs,
                gargs == args@,
                i <= n,
                args_ok(descs, gargs),
                vals@ == init_vals(descs.take(i as int), gargs),
            decreases n - i,
        {
            let entry = &self.qubits_map[i];
            let ghost w = entry.0.index as nat;
            let ghost ds = desc_list_view(entry.1@);
            proof {
                assert(descs[i as int] == (w, ds));
                assert(wire_args_ok(ds, gargs));
                assert(ds.take(0) =~= Seq::<DescView>::empty());
            }
            let m = entry.1.len();
            let mut j: usize = 0;
            while j < m
                invariant
                    m == entry.1.len(),
                    j <= m,
                    gargs == args@,
                    w == entry.0.index as nat,
                    ds == desc_list_view(entry.1@),
                    wire_args_ok(ds, gargs),
                    descs == self@.descs,
                    i < descs.len(),
                    vals@ == match arg_value(ds.take(j as int), gargs) {
                        Some(b) => init_vals(descs.take(i as int), gargs).insert(w, b),
                        None => init_vals(descs.take(i as int), gargs),
                    },
                decreases m - j,
            {
                proof {
                    assert(ds.take(j as int + 1).drop_last() =~= ds.take(j as int));
                    assert(ds.take(j as int + 1).last() == ds[j as int]);
                    assert(ds[j as int] == entry.1@[j as int]@);
                }
                let desc = &entry.1[j];
                if let QubitRegisterEnum::Argument(name) = &desc.reg.0 {
                    let b = args.get_bit(name, desc.index);
                    vals.set(entry.0.index, b);
                    proof {
                        assert(vals@ =~= init_vals(descs.take(i as int), gargs).insert(w, b));
                    }
                }
                j += 1;
            }
            proof {
                assert(ds.take(m as int) =~= ds);
                assert(descs.take(i as int + 1).drop_last() =~= descs.take(i as int));
                assert(descs.take(i as int + 1).last() == descs[i as int]);
            }
            i += 1;
        }
        proof {
            assert(descs.take(n as int) =~= descs);
        }

        // Apply the gates in order; every control reads the pre-gate values.
        let ghost gates = self@.gates;
        let ghost init = init_vals(descs, gargs);
        let gn = self.gates.len();
        let mut gi: usize = 0;
        proof {
            assert(gates.take(0) =~= Seq::<GateView>::empty());
        }
        while gi < gn
            invariant
                gn == self.gates.len(),
                gates == self@.gates,
                gi <= gn,
                vals@ == apply_gates(init, gates.take(gi as int)),
            decreases gn - gi,
        {
            let gate = &self.gates[gi];
            let ghost gv = gate@;
            proof {
                assert(gates[gi as int] == gv);
            }
            let cn = gate.controls.len();
            let mut cj: usize = 0;
            let mut active = true;
            while cj < cn
                invariant
                    cn == gate.controls.len(),
                    cj <= cn,
                    gv == gate@,
                    vals@ == apply_gates(init, gates.take(gi as int)),
                    active == forall|l: int|
                        0 <= l < cj ==> read(vals@, (#[trigger] gv.controls[l]).0)
                            != gv.controls[l].1,
                decreases cn - cj,
            {
                proof {
                    assert(gv.controls[cj as int] == (
                        gate.controls@[cj as int].0.index as nat,
                        gate.controls@[cj as int].1,
                    ));
                }
                let (cq, pol) = gate.controls[cj];
                let cv = vals.get(cq.index);
                active = active && (cv != pol);
                cj += 1;
            }
            proof {
                assert(active == gate_fires(gv, vals@));
            }
            let tv = vals.get(gate.target.index);
            vals.set(gate.target.index, tv ^ active);
            proof {
                assert(gates.take(gi as int + 1).drop_last() =~= gates.take(gi as int));
                assert(gates.take(gi as int + 1).last() == gates[gi as int]);
                assert(vals@ =~= apply_gate(apply_gates(init, gates.take(gi as int)), gv));
            }
            gi += 1;
        }
        proof {
            assert(gates.take(gn as int) =~= gates);
        }

        // The result length: one past the largest declared result position.
        let mut rl: u32 = 0;
        let mut i2: usize = 0;
        proof {
            assert(descs.take(0) =~= Seq::<(nat, Seq<DescView>)>::empty());
        }
        while i2 < n
            invariant
                n == self.qubits_map.len(),
                descs == self@.descs,
                i2 <= n,
                result_positions_below(descs, u32::MAX as nat),
                rl as nat == result_len(descs.take(i2 as int)),
            decreases n - i2,
        {
            let entry = &self.qubits_map[i2];
            let ghost ds = desc_list_view(entry.1@);
            proof {
                assert(descs[i2 as int] == (entry.0.index as nat, ds));
                assert(ds.take(0) =~= Seq::<DescView>::empty());
            }
            let m = entry.1.len();
            let mut j: usize = 0;
            let mut wrl: u32 = 0;
            while j < m
                invariant
                    m == entry.1.len(),
                    j <= m,
                    ds == desc_list_view(entry.1@),
                    descs == self@.descs,
                    i2 < descs.len(),
                    descs[i2 as int].1 == ds,
                    result_positions_below(descs, u32::MAX as nat),
                    wrl as nat == wire_result_len(ds.take(j as int)),
                decreases m - j,
            {
                proof {
                    assert(ds.take(j as int + 1).drop_last() =~= ds.take(j as int));
                    assert(ds.take(j as int + 1).last() == ds[j as int]);
                    assert(ds[j as int] == entry.1@[j as int]@);
                }
                let desc = &entry.1[j];
                if desc.reg.is_result() {
                    proof {
                        assert(descs[i2 as int].1[j as int].reg is Result);
                        assert(descs[i2 as int].1[j as int].index < u32::MAX as nat);
                    }
                    if desc.index + 1 > wrl {
                        wrl = desc.index + 1;
                    }
                }
                j += 1;
            }
            proof {
                assert(ds.take(m as int) =~= ds);
                assert(descs.take(i2 as int + 1).drop_last() =~= descs.take(i2 as int));
                assert(descs.take(i2 as int + 1).last() == descs[i2 as int]);
            }
            if wrl > rl {
                rl = wrl;
            }
            i2 += 1;
        }
        proof {
            assert(descs.take(n as int) =~= descs);
            assert(rl as nat == result_len(descs));
        }

        // Gather the result bits from the final wire values.
        let ghost zeros = Seq::new(result_len(descs), |k: int| false);
        let rl_usize = rl as usize;
        let mut result: Vec<bool> = Vec::new();
        let mut p: usize = 0;
        while p < rl_usize
            invariant
                rl_usize == rl as usize,
                rl as nat == result_len(descs),
                zeros == Seq::new(result_len(descs), |k: int| false),
                p <= rl_usize,
                result@ == zeros.take(p as int),
            decreases rl_usize - p,
        {
            result.push(false);
            proof {
                assert(result@ =~= zeros.take(p as int + 1));
            }
            p += 1;
        }
        proof {
            assert(result@ =~= zeros);
        }
        let mut i3: usize = 0;
        proof {
            assert(descs.take(0) =~= Seq::<(nat, Seq<DescView>)>::empty());
        }
        while i3 < n
            invariant
                n == self.qubits_map.len(),
                descs == self@.descs,
                i3 <= n,
                zeros == Seq::new(result_len(descs), |k: int| false),
                result_positions_below(descs, u32::MAX as nat),
                result@ == fill_all(zeros, descs.take(i3 as int), vals@),
            decreases n - i3,
        {
            let entry = &self.qubits_map[i3];
            let ghost ds = desc_list_view(entry.1@);
            let ghost before = result@;
            proof {
                assert(descs[i3 as int] == (entry.0.index as nat, ds));
                assert(ds.take(0) =~= Seq::<DescView>::empty());
                lemma_fill_all_len(zeros, descs.take(i3 as int), vals@);
            }
            let v = vals.get(entry.0.index);
            let m = entry.1.len();
            let mut j: usize = 0;
            while j < m
                invariant
                    m == entry.1.len(),
                    j <= m,
                    ds == desc_list_view(entry.1@),
                    descs == self@.descs,
                    i3 < descs.len(),
                    descs[i3 as int] == (entry.0.index as nat, ds),
                    before == fill_all(zeros, descs.take(i3 as int), vals@),
                    before.len() == zeros.len(),
                    zeros == Seq::new(result_len(descs), |k: int| false),
                    v == read(vals@, entry.0.index as nat),
                    result@ == fill_wire(before, ds.take(j as int), v),
                decreases m - j,
            {
                proof {
                    assert(ds.take(j as int + 1).drop_last() =~= ds.take(j as int));
                    assert(ds.take(j as int + 1).last() == ds[j as int]);
                    assert(ds[j as int] == entry.1@[j as int]@);
                    lemma_fill_wire_len(before, ds.take(j as int), v);
                }
                let desc = &entry.1[j];
                if desc.reg.is_result() {
                    proof {
                        lemma_result_positions(descs, i3 as int, j as int);
                    }
                    let pos = desc.index as usize;
                    result[pos] = v;
                    proof {
                        assert(result@ =~= fill_wire(before, ds.take(j as int + 1), v));
                    }
                }
                j += 1;
            }
            proof {
                assert(ds.take(m as int) =~= ds);
                assert(descs.take(i3 as int + 1).drop_last() =~= descs.take(i3 as int));
                assert(descs.take(i3 as int + 1).last() == descs[i3 as int]);
            }
            i3 += 1;
        }
        proof {
            assert(descs.take(n as int) =~= descs);
        }
        result
    }

    /// Appends an unconditional NOT of the target wire.
    pub fn x(&mut self, target: Qubit)
        ensures
            final(self)@.gates == old(self)@.gates.push(
                (GateView { controls: Seq::empty(), target: target.index as nat }),
            ),
            final(self)@.qubits_count == old(self)@.qubits_count,
            final(self)@.descs == old(self)@.descs,
    {
        let controls: Vec<(Qubit, bool)> = Vec::new();
        proof {
            assert(controls_view(controls@) =~= Seq::<(nat, bool)>::empty());
        }
        self.mcx(controls, target);
    }
}

} // verus!
