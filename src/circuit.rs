//! The circuit model: an append-only list of gates over a five-gate alphabet,
//! the output wires, and what a circuit computes on given input bits.
use vstd::prelude::*;

verus! {

/// One gate. A wire is addressed by the position of its driving gate in the list.
#[derive(Clone, Copy, Debug, PartialEq, Eq, Structural)]
pub enum Gate {
    /// An input bit of the contributor.
    InContrib,
    /// An input bit of the evaluator.
    InEval,
    /// Exclusive or of two earlier wires.
    Xor(u32, u32),
    /// Conjunction of two earlier wires.
    And(u32, u32),
    /// Negation of an earlier wire.
    Not(u32),
}

/// A finished circuit: its gates in append order and the wires it outputs.
#[derive(Clone, Debug)]
pub struct Circuit {
    pub gates: Vec<Gate>,
    pub outputs: Vec<u32>,
}

/// The most gates a circuit may hold (the executor refuses larger ones).
pub const MAX_GATES: usize = 0x0fff_ffff;

impl Gate {
    pub open spec fn is_input(self) -> bool {
        self is InContrib || self is InEval
    }

    /// Every wire this gate reads lies below `pos`.
    pub open spec fn reads_below(self, pos: nat) -> bool {
        match self {
            Gate::Xor(x, y) => x < pos && y < pos,
            Gate::And(x, y) => x < pos && y < pos,
            Gate::Not(x) => x < pos,
            _ => true,
        }
    }
}

/// Number of contributor input gates.
pub open spec fn count_contributor(gates: Seq<Gate>) -> nat
    decreases gates.len(),
{
    if gates.len() == 0 {
        0
    } else {
        count_contributor(gates.drop_last()) + if gates.last() is InContrib {
            1nat
        } else {
            0nat
        }
    }
}

/// Number of evaluator input gates.
pub open spec fn count_evaluator(gates: Seq<Gate>) -> nat
    decreases gates.len(),
{
    if gates.len() == 0 {
        0
    } else {
        count_evaluator(gates.drop_last()) + if gates.last() is InEval {
            1nat
        } else {
            0nat
        }
    }
}

/// The bit on the wire of gate `g`, given the wires before it (`w`), the
/// number of contributor and evaluator inputs before it, and the input bits.
pub open spec fn gate_value(
    g: Gate,
    w: Seq<bool>,
    nc: nat,
    ne: nat,
    contributor: Seq<bool>,
    evaluator: Seq<bool>,
) -> bool {
    match g {
        Gate::InContrib => contributor[nc as int],
        Gate::InEval => evaluator[ne as int],
        Gate::Xor(x, y) => w[x as int] != w[y as int],
        Gate::And(x, y) => w[x as int] && w[y as int],
        Gate::Not(x) => !w[x as int],
    }
}

/// The bit on every wire of a gate list: the k-th contributor input gate
/// carries `contributor[k]`, the k-th evaluator input gate `evaluator[k]`.
pub open spec fn wire_values(gates: Seq<Gate>, contributor: Seq<bool>, evaluator: Seq<bool>) -> Seq<bool>
    decreases gates.len(),
{
    if gates.len() == 0 {
        Seq::empty()
    } else {
        let p = gates.drop_last();
        let w = wire_values(p, contributor, evaluator);
        w.push(
            gate_value(
                gates.last(),
                w,
                count_contributor(p),
                count_evaluator(p),
                contributor,
                evaluator,
            ),
        )
    }
}

/// Gates read only earlier wires, and the list fits the executor.
pub open spec fn gates_wf(gates: Seq<Gate>) -> bool {
    &&& gates.len() <= MAX_GATES
    &&& forall|i: int| 0 <= i < gates.len() ==> (#[trigger] gates[i]).reads_below(i as nat)
}

pub proof fn lemma_wire_values_len(gates: Seq<Gate>, contributor: Seq<bool>, evaluator: Seq<bool>)
    ensures
        wire_values(gates, contributor, evaluator).len() == gates.len(),
    decreases gates.len(),
{
    if gates.len() > 0 {
        lemma_wire_values_len(gates.drop_last(), contributor, evaluator);
    }
}

/// Appending gates leaves the earlier wires as they were.
pub proof fn lemma_wire_values_prefix(
    gates: Seq<Gate>,
    n: int,
    contributor: Seq<bool>,
    evaluator: Seq<bool>,
)
    requires
        0 <= n <= gates.len(),
    ensures
        wire_values(gates.subrange(0, n), contributor, evaluator) == wire_values(
            gates,
            contributor,
            evaluator,
        ).subrange(0, n),
    decreases gates.len(),
{
    lemma_wire_values_len(gates, contributor, evaluator);
    if n == gates.len() {
        assert(gates.subrange(0, n) =~= gates);
        assert(wire_values(gates, contributor, evaluator).subrange(0, n) =~= wire_values(
            gates,
            contributor,
            evaluator,
        ));
    } else {
        let p = gates.drop_last();
        lemma_wire_values_prefix(p, n, contributor, evaluator);
        assert(p.subrange(0, n) =~= gates.subrange(0, n));
        lemma_wire_values_len(p, contributor, evaluator);
        assert(wire_values(p, contributor, evaluator).subrange(0, n) =~= wire_values(
            gates,
            contributor,
            evaluator,
        ).subrange(0, n));
    }
}

impl Circuit {
    /// Gates read only earlier wires, there is at least one output, and every
    /// output names a wire.
    pub open spec fn wf(&self) -> bool {
        &&& gates_wf(self.gates@)
        &&& self.outputs@.len() > 0
        &&& forall|j: int| 0 <= j < self.outputs@.len() ==> (#[trigger] self.outputs@[j]) < self.gates@.len()
    }

    /// The bits on the output wires.
    pub open spec fn output(&self, contributor: Seq<bool>, evaluator: Seq<bool>) -> Seq<bool> {
        let w = wire_values(self.gates@, contributor, evaluator);
        Seq::new(self.outputs@.len(), |j: int| w[self.outputs@[j] as int])
    }
}

/// The executor's error type (`tandem::Error`), carried through unchanged.
#[verifier::external_type_specification]
#[verifier::external_body]
pub struct ExTandemError(tandem::Error);

/// Relies on `tandem::Circuit::new` and `tandem::simulate`: a two-party
/// execution of the circuit whose output, when it succeeds, is the circuit's
/// output wires on the given contributor and evaluator bits.
#[verifier::external_body]
pub(crate) fn run_tandem(circuit: &Circuit, contributor: &Vec<bool>, evaluator: &Vec<bool>) -> (r: Result<Vec<bool>, tandem::Error>)
    requires
        circuit.wf(),
        contributor@.len() == count_contributor(circuit.gates@),
        evaluator@.len() == count_evaluator(circuit.gates@),
    ensures
        r matches Ok(out) ==> out@ == circuit.output(contributor@, evaluator@),
{
    let gates = circuit.gates.iter().map(|g| match *g {
        Gate::InContrib => tandem::Gate::InContrib,
        Gate::InEval => tandem::Gate::InEval,
        Gate::Xor(x, y) => tandem::Gate::Xor(x, y),
        Gate::And(x, y) => tandem::Gate::And(x, y),
        Gate::Not(x) => tandem::Gate::Not(x),
    }).collect();
    tandem::simulate(&tandem::Circuit::new(gates, circuit.outputs.clone()), contributor, evaluator)
}

/// Runs a finished circuit on the contributor's and the evaluator's bits
/// through the executor; on success the result is the circuit's output.
pub fn execute_circuit(circuit: &Circuit, contributor: &Vec<bool>, evaluator: &Vec<bool>) -> (r: Result<Vec<bool>, tandem::Error>)
    requires
        circuit.wf(),
        contributor@.len() == count_contributor(circuit.gates@),
        evaluator@.len() == count_evaluator(circuit.gates@),
    ensures
        r matches Ok(out) ==> out@ == circuit.output(contributor@, evaluator@),
{
    run_tandem(circuit, contributor, evaluator)
}

} // verus!
