//! Circuits: gates in the order of their application, and the run.
use vstd::prelude::*;
use vstd::arithmetic::power2::{lemma_pow2_pos, pow2};
use crate::amplitude::{amp_one, one_bits, value, zero_bits, C};
use crate::error::Error;
use crate::gate::{
    is_controlled_x, is_hadamard, is_pauli_x, operator_dimension, operator_fits, Gate, GateView,
};
use crate::index::{all_below, bit, bit_at, lemma_bits_determine, targets_below};
use crate::matrix::{alloc_fits, Vector};

verus! {

/// `String::push` appends the character to the end of the string.
pub assume_specification[ String::push ](s: &mut String, c: char)
    ensures
        final(s)@ == old(s)@.push(c),
;

/// A fixed number of qubits and the gates applied to them, first to last.
pub struct Circuit {
    qubits: usize,
    gates: Vec<Gate>,
}

/// What a circuit is: its number of qubits and its gates, first to last.
pub struct CircuitView {
    pub qubits: nat,
    pub gates: Seq<GateView>,
}

/// The label of basis index `i` on `n` qubits: its `n` binary digits, the
/// highest first, so that the last character is qubit 0.
pub open spec fn label(i: nat, n: nat) -> Seq<char> {
    Seq::new(
        n,
        |j: int|
            if bit(i, (n - 1 - j) as nat) == 1 {
                '1'
            } else {
                '0'
            },
    )
}

/// Whether `v` is basis state `i` of a space of dimension `size`: one at `i`,
/// zero elsewhere.
pub open spec fn is_basis(v: Vector, i: nat, size: nat) -> bool {
    &&& v.size() == size
    &&& forall|k: int|
        0 <= k < size ==> v.at(k) == if k == i {
            one_bits()
        } else {
            zero_bits()
        }
}

/// Whether `outcome` lists the entries of `state`, each under the label of
/// its index on `n` qubits.
pub open spec fn lists_state(outcome: Seq<(String, C)>, state: Vector, n: nat) -> bool {
    &&& outcome.len() == state.size()
    &&& forall|i: int|
        0 <= i < outcome.len() ==> (#[trigger] outcome[i]).0@ == label(i as nat, n) && value(
            outcome[i].1,
        ) == state.at(i)
}

/// Whether `after` is `before` with one more gate at its end, on `targets`.
pub open spec fn appended(before: CircuitView, after: CircuitView, targets: Seq<usize>) -> bool {
    &&& after.qubits == before.qubits
    &&& after.gates.len() == before.gates.len() + 1
    &&& after.gates.drop_last() == before.gates
    &&& after.gates.last().targets == targets
}

/// Basis indices on `n` qubits with one label are one index: an outcome lists
/// every label once.
pub proof fn lemma_label_injective(i: nat, j: nat, n: nat)
    requires
        i < pow2(n),
        j < pow2(n),
        label(i, n) == label(j, n),
    ensures
        i == j,
{
    assert forall|b: nat| b < n implies bit(i, b) == bit(j, b) by {
        let at = n - 1 - b;
        assert((n - 1 - at) as nat == b);
        assert(label(i, n)[at] == if bit(i, b) == 1 { '1' } else { '0' });
        assert(label(j, n)[at] == if bit(j, b) == 1 { '1' } else { '0' });
        assert(bit(i, b) <= 1 && bit(j, b) <= 1);
    }
    lemma_bits_determine(i, j, n);
}

/// The column of a holdable operator can be held too.
proof fn lemma_column_fits(d: nat)
    requires
        d >= 1,
        alloc_fits(d, d),
    ensures
        alloc_fits(d, 1),
{
    assert((d + 3) * 1 <= (d + 3) * d) by (nonlinear_arith)
        requires
            d >= 1,
    ;
}

/// The label of basis index `i` on `n` qubits.
pub fn label_of(i: usize, n: usize) -> (s: String)
    ensures
        s@ == label(i as nat, n as nat),
{
    let mut s = String::new();
    let mut j: usize = 0;
    while j < n
        invariant
            j <= n,
            s@.len() == j,
            forall|k: int| 0 <= k < j ==> s@[k] == label(i as nat, n as nat)[k],
        decreases n - j,
    {
        let digit = if bit_at(i, n - 1 - j) == 1 {
            '1'
        } else {
            '0'
        };
        s.push(digit);
        j += 1;
    }
    assert(s@ =~= label(i as nat, n as nat));
    s
}

/// The entries of `state`, each with the label of its index on `n` qubits, in
/// the order of the indices.
pub fn label_state(state: &Vector, n: usize) -> (outcome: Vec<(String, C)>)
    ensures
        lists_state(outcome@, *state, n as nat),
{
    let size: usize = state.len();
    let mut outcome: Vec<(String, C)> = Vec::new();
    let mut i: usize = 0;
    while i < size
        invariant
            i <= size,
            size == state.size(),
            outcome@.len() == i,
            forall|k: int|
                0 <= k < i ==> (#[trigger] outcome@[k]).0@ == label(k as nat, n as nat)
                    && value(outcome@[k].1) == state.at(k),
        decreases size - i,
    {
        let entry = (label_of(i, n), state.get(i));
        outcome.push(entry);
        i += 1;
    }
    outcome
}

impl View for Circuit {
    type V = CircuitView;

    closed spec fn view(&self) -> CircuitView {
        CircuitView { qubits: self.qubits as nat, gates: self.gates@.map_values(|g: Gate| g@) }
    }
}

impl Circuit {
    /// What holds of every circuit: an operator on all its qubits can be
    /// held, and every gate acts on qubits of the circuit.
    #[verifier::type_invariant]
    spec fn inv(&self) -> bool {
        &&& operator_fits(self.qubits as nat)
        &&& forall|i: int|
            0 <= i < self.gates@.len() ==> all_below(
                (#[trigger] self.gates@[i])@.targets,
                self.qubits as nat,
            )
    }

    /// The circuit on `qubits` qubits without a gate. An operator on that
    /// many qubits must be holdable, which [`operator_dimension`] decides.
    pub fn new(qubits: usize) -> (c: Circuit)
        requires
            operator_fits(qubits as nat),
        ensures
            c@.qubits == qubits,
            c@.gates.len() == 0,
    {
        Circuit { gates: Vec::new(), qubits }
    }

    /// The number of qubits. Every gate of a circuit acts on qubits of the
    /// circuit, and an operator on all of them can be held.
    pub fn qubits(&self) -> (n: usize)
        ensures
            n == self@.qubits,
            operator_fits(n as nat),
            forall|i: int|
                0 <= i < self@.gates.len() ==> all_below(
                    (#[trigger] self@.gates[i]).targets,
                    n as nat,
                ),
    {
        proof {
            use_type_invariant(self);
            assert forall|i: int| 0 <= i < self@.gates.len() implies all_below(
                (#[trigger] self@.gates[i]).targets,
                self.qubits as nat,
            ) by {
                assert(self@.gates[i] == self.gates@[i]@);
            }
        }
        self.qubits
    }

    /// The number of gates.
    pub fn len(&self) -> (n: usize)
        ensures
            n == self@.gates.len(),
    {
        self.gates.len()
    }

    /// Basis state `i` of the circuit's state space, where there is one.
    pub fn get_vec(&self, i: usize) -> (r: Result<Vector, Error>)
        ensures
            match r {
                Ok(v) => i < pow2(self@.qubits) && is_basis(v, i as nat, pow2(self@.qubits)),
                Err(e) => e == Error::InvalidInitialIndex && i >= pow2(self@.qubits),
            },
    {
        proof {
            use_type_invariant(self);
            lemma_pow2_pos(self.qubits as nat);
        }
        let size: usize = match operator_dimension(self.qubits) {
            Some(d) => d,
            None => 0,
        };
        if i >= size {
            return Err(Error::InvalidInitialIndex);
        }
        proof {
            lemma_column_fits(size as nat);
        }
        let mut v = Vector::zeros(size);
        v.set(i, amp_one());
        Ok(v)
    }

    /// Puts `g` at the end.
    fn push(&mut self, g: Gate)
        requires
            all_below(g@.targets, old(self)@.qubits),
        ensures
            appended(old(self)@, final(self)@, g@.targets),
            final(self)@.gates.last() == g@,
    {
        proof {
            use_type_invariant(&*self);
        }
        let ghost before = self.gates@;
        let mut gates: Vec<Gate> = Vec::new();
        std::mem::swap(&mut gates, &mut self.gates);
        gates.push(g);
        self.gates = gates;
        proof {
            assert(self.gates@.drop_last() =~= before);
            assert(self.gates@.map_values(|g: Gate| g@).drop_last() =~= before.map_values(
                |g: Gate| g@,
            ));
        }
    }

    /// Appends a Hadamard gate on `target`. On failure the circuit stays as
    /// it was.
    pub fn h(&mut self, target: usize) -> (r: Result<(), Error>)
        ensures
            target >= old(self)@.qubits ==> r == Err::<(), Error>(Error::QubitIndexOutOfRange),
            match r {
                Ok(_) => appended(old(self)@, final(self)@, seq![target]) && is_hadamard(
                    final(self)@.gates.last().operator,
                ),
                Err(e) => final(self)@ == old(self)@ && (e == Error::NotUnitary || (e
                    == Error::QubitIndexOutOfRange && target >= old(self)@.qubits)),
            },
    {
        if target >= self.qubits {
            return Err(Error::QubitIndexOutOfRange);
        }
        match Gate::h(target) {
            Ok(g) => {
                self.push(g);
                Ok(())
            },
            Err(e) => Err(e),
        }
    }

    /// Appends a Pauli-X gate on `target`. On failure the circuit stays as it
    /// was.
    pub fn x(&mut self, target: usize) -> (r: Result<(), Error>)
        ensures
            target >= old(self)@.qubits ==> r == Err::<(), Error>(Error::QubitIndexOutOfRange),
            match r {
                Ok(_) => appended(old(self)@, final(self)@, seq![target]) && is_pauli_x(
                    final(self)@.gates.last().operator,
                ),
                Err(e) => final(self)@ == old(self)@ && (e == Error::NotUnitary || (e
                    == Error::QubitIndexOutOfRange && target >= old(self)@.qubits)),
            },
    {
        if target >= self.qubits {
            return Err(Error::QubitIndexOutOfRange);
        }
        match Gate::x(target) {
            Ok(g) => {
                self.push(g);
                Ok(())
            },
            Err(e) => Err(e),
        }
    }

    /// Appends Pauli-X on `target`, controlled by `control`. On failure the
    /// circuit stays as it was.
    pub fn cx(&mut self, control: usize, target: usize) -> (r: Result<(), Error>)
        ensures
            target >= old(self)@.qubits || control >= old(self)@.qubits ==> r == Err::<(), Error>(
                Error::QubitIndexOutOfRange,
            ),
            match r {
                Ok(_) => {
                    &&& appended(old(self)@, final(self)@, seq![target, control])
                    &&& control != target
                    &&& is_controlled_x(final(self)@.gates.last().operator, 4)
                },
                Err(e) => {
                    &&& final(self)@ == old(self)@
                    &&& e == Error::NotUnitary || (e == Error::DuplicateTarget && control
                        == target) || (e == Error::QubitIndexOutOfRange && (target >= old(
                        self,
                    )@.qubits || control >= old(self)@.qubits))
                },
            },
    {
        if target >= self.qubits || control >= self.qubits {
            return Err(Error::QubitIndexOutOfRange);
        }
        match Gate::cx(control, target) {
            Ok(g) => {
                self.push(g);
                Ok(())
            },
            Err(e) => Err(e),
        }
    }

    /// Appends Pauli-X on `target`, controlled by every qubit of `controls`.
    /// On failure the circuit stays as it was.
    pub fn cnx(&mut self, controls: Vec<usize>, target: usize) -> (r: Result<(), Error>)
        ensures
            target >= old(self)@.qubits || !all_below(controls@, old(self)@.qubits) ==> r == Err::<
                (),
                Error,
            >(Error::QubitIndexOutOfRange),
            match r {
                Ok(_) => {
                    &&& appended(old(self)@, final(self)@, seq![target] + controls@)
                    &&& is_controlled_x(
                        final(self)@.gates.last().operator,
                        pow2(1 + controls@.len()),
                    )
                },
                Err(e) => {
                    &&& final(self)@ == old(self)@
                    &&& e == Error::QubitIndexOutOfRange ==> target >= old(self)@.qubits
                        || !all_below(controls@, old(self)@.qubits)
                    &&& e == Error::MalformedOperator ==> !operator_fits(1 + controls@.len())
                    &&& e == Error::DuplicateTarget ==> !(seq![target]
                        + controls@).no_duplicates()
                    &&& e != Error::InvalidInitialIndex && e != Error::NoQubits
                },
            },
    {
        if target >= self.qubits || !targets_below(&controls, self.qubits) {
            return Err(Error::QubitIndexOutOfRange);
        }
        let ghost wanted = seq![target] + controls@;
        proof {
            assert(all_below(wanted, self.qubits as nat)) by {
                assert forall|i: int| 0 <= i < wanted.len() implies wanted[i] < self.qubits by {
                    if i > 0 {
                        assert(wanted[i] == controls@[i - 1]);
                    }
                }
            }
        }
        match Gate::cnx(controls, target) {
            Ok(g) => {
                self.push(g);
                Ok(())
            },
            Err(e) => Err(e),
        }
    }

    /// Appends `g`, whose targets must all be qubits of the circuit. On
    /// failure the circuit stays as it was.
    pub fn add_gate(&mut self, g: Gate) -> (r: Result<(), Error>)
        ensures
            match r {
                Ok(_) => all_below(g@.targets, old(self)@.qubits) && appended(
                    old(self)@,
                    final(self)@,
                    g@.targets,
                ) && final(self)@.gates.last() == g@,
                Err(e) => e == Error::QubitIndexOutOfRange && !all_below(
                    g@.targets,
                    old(self)@.qubits,
                ) && final(self)@ == old(self)@,
            },
    {
        let below = {
            let targets = g.qubits();
            let mut i: usize = 0;
            let mut ok = true;
            while i < targets.len()
                invariant
                    i <= targets.len(),
                    targets@ == g@.targets,
                    ok <==> forall|k: int| 0 <= k < i ==> targets@[k] < self.qubits,
                decreases targets.len() - i,
            {
                if targets[i] >= self.qubits {
                    ok = false;
                }
                i += 1;
            }
            ok
        };
        if !below {
            return Err(Error::QubitIndexOutOfRange);
        }
        self.push(g);
        Ok(())
    }

    /// Runs the circuit from the all-zero basis state: every gate, first to
    /// last, is embedded into the whole system and applied to the state. The
    /// outcome lists the final amplitudes by basis index, each with its label.
    ///
    /// What the amplitudes are after a gate is `faer`'s product and stated
    /// nowhere; with no gate they are those of the all-zero basis state.
    /// Every gate of a circuit acts on qubits of the circuit, so the only
    /// failure is that of a circuit without qubits.
    pub fn run(&self) -> (r: Result<Vec<(String, C)>, Error>)
        ensures
            self@.qubits == 0 <==> r is Err,
            r matches Err(e) ==> e == Error::NoQubits,
            r matches Ok(outcome) ==> {
                &&& outcome@.len() == pow2(self@.qubits)
                &&& forall|i: int|
                    0 <= i < outcome@.len() ==> (#[trigger] outcome@[i]).0@ == label(
                        i as nat,
                        self@.qubits,
                    )
                &&& forall|i: int, j: int|
                    0 <= i < j < outcome@.len() ==> (#[trigger] outcome@[i]).0@ != (
                    #[trigger] outcome@[j]).0@
                &&& self@.gates.len() == 0 ==> forall|i: int|
                    0 <= i < outcome@.len() ==> value((#[trigger] outcome@[i]).1) == if i == 0 {
                        one_bits()
                    } else {
                        zero_bits()
                    }
            },
    {
        proof {
            use_type_invariant(self);
            lemma_pow2_pos(self.qubits as nat);
        }
        if self.qubits == 0 {
            return Err(Error::NoQubits);
        }
        let mut current = match self.get_vec(0) {
            Ok(v) => v,
            Err(e) => { return Err(e); },
        };
        let mut k: usize = 0;
        while k < self.gates.len()
            invariant
                k <= self.gates.len(),
                operator_fits(self.qubits as nat),
                current.size() == pow2(self.qubits as nat),
                k == 0 ==> is_basis(current, 0, pow2(self.qubits as nat)),
            decreases self.gates.len() - k,
        {
            let big = self.gates[k].turn_big(self.qubits);
            proof {
                lemma_pow2_pos(self.qubits as nat);
                lemma_column_fits(pow2(self.qubits as nat));
            }
            current = big.apply(&current);
            k += 1;
        }
        let outcome = label_state(&current, self.qubits);
        proof {
            assert forall|i: int, j: int| 0 <= i < j < outcome@.len() implies (
            #[trigger] outcome@[i]).0@ != (#[trigger] outcome@[j]).0@ by {
                if outcome@[i].0@ == outcome@[j].0@ {
                    lemma_label_injective(i as nat, j as nat, self.qubits as nat);
                }
            }
        }
        Ok(outcome)
    }
}

} // verus!
