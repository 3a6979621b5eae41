//! Gates: validated operators on an ordered list of qubits.
use std::collections::HashSet;
use vstd::prelude::*;
use vstd::arithmetic::power2::{
    lemma2_to64, lemma_pow2_adds, lemma_pow2_pos, lemma_pow2_strictly_increases,
    lemma_pow2_unfold, pow2,
};
use crate::amplitude::{
    amp_div, amp_neg, amp_one, amp_sqrt, amp_sub, neg_bits, one_bits, quad_div, quad_sqrt,
    quad_sub, zero_bits, Bits,
};
use crate::error::Error;
use crate::index::{
    agree_elsewhere, agrees_elsewhere, all_below, all_set, bit, dimension, gather,
    lemma_gather_bound, lemma_gather_concat, lemma_gather_injective, lemma_gather_of_controls,
    lemma_gather_surjective, lemma_pow2_exceeds, replaced, small_index,
};
use crate::matrix::{alloc_fits, alloc_fits_exec, Matrix};
use crate::unitary::is_unit;

verus! {

broadcast use vstd::std_specs::hash::group_hash_axioms;

/// An operator on an ordered list of distinct qubits. The place of a qubit in
/// the list is the bit that it has in the operator's own indices.
pub struct Gate {
    mat: Matrix,
    targets: Vec<usize>,
}

/// What a gate is: its operator and its targets, in order.
pub struct GateView {
    pub operator: Matrix,
    pub targets: Seq<usize>,
}

/// Whether `m` is square with dimension two to the number of targets.
pub open spec fn well_shaped(m: Matrix, targets: Seq<usize>) -> bool {
    m.is_square() && m.height() == pow2(targets.len())
}

/// What construction answers for an operator and a target list, once the
/// verdict of the unitarity check is known: the error, or none.
pub open spec fn construction_outcome(m: Matrix, targets: Seq<usize>, unitary: bool) -> Option<
    Error,
> {
    if !well_shaped(m, targets) {
        Some(Error::MalformedOperator)
    } else if !unitary {
        Some(Error::NotUnitary)
    } else if !targets.no_duplicates() {
        Some(Error::DuplicateTarget)
    } else {
        None
    }
}

/// Whether an operator on `n` qubits can be held: its dimension fits a
/// `usize` and `faer` can lay the matrix out.
pub open spec fn operator_fits(n: nat) -> bool {
    pow2(n) <= usize::MAX && alloc_fits(pow2(n), pow2(n))
}

/// The entry of the Hadamard operator, one over the square root of two, as
/// `qd` computes it from one.
pub open spec fn hadamard_entry() -> Bits {
    quad_div(one_bits(), quad_sqrt(quad_sub(one_bits(), neg_bits(one_bits()))))
}

/// Whether `m` is the Hadamard operator: two by two, every entry
/// [`hadamard_entry`], the last one negated.
pub open spec fn is_hadamard(m: Matrix) -> bool {
    &&& m.height() == 2
    &&& m.width() == 2
    &&& m.at(0, 0) == hadamard_entry()
    &&& m.at(0, 1) == hadamard_entry()
    &&& m.at(1, 0) == hadamard_entry()
    &&& m.at(1, 1) == neg_bits(hadamard_entry())
}

/// Whether `m` is the Pauli-X operator: two by two, zero on the diagonal and
/// one off it.
pub open spec fn is_pauli_x(m: Matrix) -> bool {
    &&& m.height() == 2
    &&& m.width() == 2
    &&& m.at(0, 0) == zero_bits()
    &&& m.at(0, 1) == one_bits()
    &&& m.at(1, 0) == one_bits()
    &&& m.at(1, 1) == zero_bits()
}

/// Whether `big` is the identity but for its trailing block, from `offset`
/// on in both directions, which is `small`.
pub open spec fn is_controlled(big: Matrix, small: Matrix, offset: nat) -> bool {
    &&& big.is_square()
    &&& big.height() == offset + small.height()
    &&& forall|i: int, j: int|
        big.has(i, j) ==> big.at(i, j) == if i >= offset && j >= offset {
            small.at(i - offset, j - offset)
        } else if i == j {
            one_bits()
        } else {
            zero_bits()
        }
}

/// The index that stands in for `i` where the last two of `d` indices change
/// places.
pub open spec fn swap_last_two(i: int, d: nat) -> int {
    if i == d - 1 {
        d - 2
    } else if i == d - 2 {
        d - 1
    } else {
        i
    }
}

/// Whether `m` is the operator of a Pauli-X under controls, of dimension `d`:
/// the identity with its last two rows changing places, which flips the
/// target where every control is set.
pub open spec fn is_controlled_x(m: Matrix, d: nat) -> bool {
    &&& d >= 2
    &&& m.height() == d
    &&& m.width() == d
    &&& forall|i: int, j: int|
        m.has(i, j) ==> m.at(i, j) == if swap_last_two(i, d) == j {
            one_bits()
        } else {
            zero_bits()
        }
}

/// Whether `big` is `small` embedded into `n` qubits at `targets`: where row
/// and column agree on every other qubit, the entry is the one that `small`
/// has at the indices gathered from the targets' bits, and zero elsewhere.
pub open spec fn is_embedding(big: Matrix, small: Matrix, targets: Seq<usize>, n: nat) -> bool {
    &&& big.height() == pow2(n)
    &&& big.width() == pow2(n)
    &&& forall|r: int, c: int|
        big.has(r, c) ==> big.at(r, c) == embedded_entry(small, targets, n, r, c)
}

/// The entry at `(r, c)` of the embedding of `small` into `n` qubits.
pub open spec fn embedded_entry(small: Matrix, targets: Seq<usize>, n: nat, r: int, c: int) -> Bits {
    if agree_elsewhere(r as nat, c as nat, n, targets) {
        small.at(gather(r as nat, targets) as int, gather(c as nat, targets) as int)
    } else {
        zero_bits()
    }
}

/// Whether a value occurs twice in `targets`.
pub fn has_duplicate(targets: &Vec<usize>) -> (r: bool)
    ensures
        r == !targets@.no_duplicates(),
{
    let mut seen: HashSet<usize> = HashSet::new();
    let mut i: usize = 0;
    while i < targets.len()
        invariant
            i <= targets.len(),
            forall|v: usize|
                seen@.contains(v) <==> exists|k: int| 0 <= k < i && targets[k] == v,
            forall|a: int, b: int| 0 <= a < b < i ==> targets[a] != targets[b],
        decreases targets.len() - i,
    {
        let fresh = seen.insert(targets[i]);
        if !fresh {
            let ghost k = choose|k: int| 0 <= k < i && targets[k] == targets[i as int];
            assert(targets@[k] == targets@[i as int] && k != i);
            return true;
        }
        i += 1;
    }
    false
}

/// Whether an operator on `n` qubits can be held, and its dimension if so.
pub fn operator_dimension(n: usize) -> (r: Option<usize>)
    ensures
        r is Some <==> operator_fits(n as nat),
        r matches Some(d) ==> d == pow2(n as nat),
{
    match dimension(n) {
        Some(d) => if alloc_fits_exec(d, d) {
            Some(d)
        } else {
            None
        },
        None => None,
    }
}

/// Whether an operator on `k + c` qubits can be held, and its dimension if
/// so.
pub fn joint_dimension(k: usize, c: usize) -> (r: Option<usize>)
    ensures
        r is Some <==> operator_fits((k + c) as nat),
        r matches Some(d) ==> d == pow2((k + c) as nat),
{
    if c > usize::MAX - k {
        proof {
            lemma_pow2_exceeds((k + c) as nat);
        }
        None
    } else {
        operator_dimension(k + c)
    }
}

/// Whether `mat` is square with dimension two to the number of targets.
pub fn is_well_shaped(mat: &Matrix, targets: &Vec<usize>) -> (r: bool)
    ensures
        r == well_shaped(*mat, targets@),
{
    let (nrows, ncols) = mat.shape();
    nrows == ncols && match dimension(targets.len()) {
        Some(d) => nrows == d,
        None => false,
    }
}

/// The answer of construction for an operator and a target list, given the
/// verdict of the unitarity check.
pub fn admission(mat: &Matrix, targets: &Vec<usize>, unitary: bool) -> (r: Option<Error>)
    ensures
        r == construction_outcome(*mat, targets@, unitary),
{
    if !is_well_shaped(mat, targets) {
        Some(Error::MalformedOperator)
    } else if !unitary {
        Some(Error::NotUnitary)
    } else if has_duplicate(targets) {
        Some(Error::DuplicateTarget)
    } else {
        None
    }
}

impl View for Gate {
    type V = GateView;

    closed spec fn view(&self) -> GateView {
        GateView { operator: self.mat, targets: self.targets@ }
    }
}

impl Gate {
    /// What holds of every gate: its operator is square with dimension two to
    /// the number of targets, and no target occurs twice.
    #[verifier::type_invariant]
    spec fn inv(&self) -> bool {
        well_shaped(self.mat, self.targets@) && self.targets@.no_duplicates()
    }

    /// Makes a gate of an operator and its targets.
    ///
    /// The operator must be square, of dimension two to the number of
    /// targets; then it must pass `is_unit`; then no target may occur twice.
    /// The first of these that fails names the error.
    pub fn new(mat: Matrix, targets: Vec<usize>) -> (r: Result<Gate, Error>)
        ensures
            match r {
                Ok(g) => {
                    &&& construction_outcome(mat, targets@, true) is None
                    &&& g@.operator == mat
                    &&& g@.targets == targets@
                },
                Err(e) => {
                    ||| construction_outcome(mat, targets@, true) == Some(e)
                    ||| construction_outcome(mat, targets@, false) == Some(e)
                },
            },
    {
        let unitary = is_well_shaped(&mat, &targets) && is_unit(&mat);
        match admission(&mat, &targets, unitary) {
            Some(e) => Err(e),
            None => Ok(Gate { mat, targets }),
        }
    }

    /// The targets, in order.
    pub fn qubits(&self) -> (t: &[usize])
        ensures
            t@ == self@.targets,
            self@.targets.no_duplicates(),
    {
        proof {
            use_type_invariant(self);
        }
        self.targets.as_slice()
    }

    /// The operator.
    pub fn matrix(&self) -> (m: &Matrix)
        ensures
            *m == self@.operator,
            well_shaped(*m, self@.targets),
    {
        proof {
            use_type_invariant(self);
        }
        &self.mat
    }

    /// The Hadamard gate on `target`, unless the unitarity check rejects it.
    pub fn h(target: usize) -> (r: Result<Gate, Error>)
        ensures
            match r {
                Ok(g) => g@.targets == seq![target] && is_hadamard(g@.operator),
                Err(e) => e == Error::NotUnitary,
            },
    {
        let one = amp_one();
        let two = amp_sub(one, amp_neg(one));
        let x = amp_div(one, amp_sqrt(two));
        let mut mat = Matrix::zeros(2, 2);
        mat.set(0, 0, x);
        mat.set(0, 1, x);
        mat.set(1, 0, x);
        mat.set(1, 1, amp_neg(x));
        let mut targets: Vec<usize> = Vec::new();
        targets.push(target);
        proof {
            lemma2_to64();
            assert(targets@ =~= seq![target]);
        }
        Gate::new(mat, targets)
    }

    /// The Pauli-X gate on `target`, unless the unitarity check rejects it.
    pub fn x(target: usize) -> (r: Result<Gate, Error>)
        ensures
            match r {
                Ok(g) => g@.targets == seq![target] && is_pauli_x(g@.operator),
                Err(e) => e == Error::NotUnitary,
            },
    {
        let mut mat = Matrix::zeros(2, 2);
        mat.set(0, 1, amp_one());
        mat.set(1, 0, amp_one());
        let mut targets: Vec<usize> = Vec::new();
        targets.push(target);
        proof {
            lemma2_to64();
            assert(targets@ =~= seq![target]);
        }
        Gate::new(mat, targets)
    }

    /// Pauli-X on `target`, controlled by `control`.
    pub fn cx(control: usize, target: usize) -> (r: Result<Gate, Error>)
        ensures
            match r {
                Ok(g) => {
                    &&& g@.targets == seq![target, control]
                    &&& control != target
                    &&& is_controlled_x(g@.operator, 4)
                },
                Err(e) => e == Error::NotUnitary || (e == Error::DuplicateTarget && control
                    == target),
            },
    {
        let mut controls: Vec<usize> = Vec::new();
        controls.push(control);
        proof {
            assert(controls@ =~= seq![control]);
            assert(seq![target] + seq![control] =~= seq![target, control]);
            lemma_small_operators_fit();
        }
        let r = Gate::cnx(controls, target);
        proof {
            lemma2_to64();
            let s = seq![target, control];
            assert(s[0] == target && s[1] == control);
        }
        r
    }

    /// Pauli-X on `target`, controlled by every qubit of `controls`.
    pub fn cnx(controls: Vec<usize>, target: usize) -> (r: Result<Gate, Error>)
        ensures
            !operator_fits(1 + controls@.len()) ==> r == Err::<Gate, Error>(
                Error::MalformedOperator,
            ),
            operator_fits(1 + controls@.len()) ==> match r {
                Ok(g) => {
                    &&& g@.targets == seq![target] + controls@
                    &&& g@.targets.no_duplicates()
                    &&& is_controlled_x(g@.operator, pow2(1 + controls@.len()))
                },
                Err(e) => e == Error::NotUnitary || (e == Error::DuplicateTarget && !(seq![target]
                    + controls@).no_duplicates()),
            },
    {
        proof {
            lemma2_to64();
        }
        match Gate::x(target) {
            Ok(x) => {
                let ghost small = x@.operator;
                let ghost d = pow2(1 + controls@.len());
                let r = x.controlled(controls);
                proof {
                    if r is Ok {
                        let big = r->Ok_0@.operator;
                        lemma_pow2_unfold(1 + controls@.len());
                        lemma_pow2_pos(controls@.len());
                        assert(is_controlled(big, small, (d - 2) as nat));
                        assert forall|i: int, j: int| big.has(i, j) implies big.at(i, j)
                            == if swap_last_two(i, d) == j {
                            one_bits()
                        } else {
                            zero_bits()
                        } by {
                            if i >= d - 2 && j >= d - 2 {
                                assert(small.has(i - (d - 2), j - (d - 2)));
                            }
                        }
                    }
                }
                r
            },
            Err(e) => {
                if joint_dimension(1, controls.len()).is_some() {
                    Err(e)
                } else {
                    Err(Error::MalformedOperator)
                }
            },
        }
    }

    /// A gate that applies this one where every qubit of `controls` is set,
    /// and leaves the state alone elsewhere: its operator is the identity on
    /// the old targets and the controls together, but for the trailing block,
    /// which is this gate's operator; its targets are the old ones, then the
    /// controls.
    ///
    /// Where an operator of that size cannot be held the error is
    /// `MalformedOperator`; else the answer is that of [`Gate::new`] for the
    /// new operator and targets.
    pub fn controlled(self, controls: Vec<usize>) -> (r: Result<Gate, Error>)
        ensures
            !operator_fits(self@.targets.len() + controls@.len()) ==> r == Err::<Gate, Error>(
                Error::MalformedOperator,
            ),
            operator_fits(self@.targets.len() + controls@.len()) ==> match r {
                Ok(g) => {
                    &&& g@.targets == self@.targets + controls@
                    &&& g@.targets.no_duplicates()
                    &&& is_controlled(
                        g@.operator,
                        self@.operator,
                        (pow2(self@.targets.len() + controls@.len()) - pow2(
                            self@.targets.len(),
                        )) as nat,
                    )
                },
                Err(e) => e == Error::NotUnitary || (e == Error::DuplicateTarget && !(
                self@.targets + controls@).no_duplicates()),
            },
    {
        proof {
            use_type_invariant(&self);
        }
        let Gate { mat: small, targets: mut targets } = self;
        let mut controls = controls;
        let k: usize = targets.len();
        let c: usize = controls.len();
        let power: usize = match joint_dimension(k, c) {
            Some(d) => d,
            None => { return Err(Error::MalformedOperator); },
        };
        let old_power: usize = small.shape().0;
        proof {
            if c > 0 {
                lemma_pow2_strictly_increases(k as nat, (k + c) as nat);
            }
        }
        let offset: usize = power - old_power;
        let mut mat = Matrix::identity(power, power);
        let mut j: usize = 0;
        while j < old_power
            invariant
                j <= old_power,
                old_power == small.height(),
                old_power == small.width(),
                power == offset + old_power,
                mat.height() == power,
                mat.width() == power,
                forall|r: int, s: int|
                    mat.has(r, s) ==> mat.at(r, s) == if r >= offset && offset <= s < offset + j {
                        small.at(r - offset, s - offset)
                    } else if r == s {
                        one_bits()
                    } else {
                        zero_bits()
                    },
            decreases old_power - j,
        {
            let new_j: usize = offset + j;
            let mut i: usize = 0;
            while i < old_power
                invariant
                    i <= old_power,
                    j < old_power,
                    new_j == offset + j,
                    old_power == small.height(),
                    old_power == small.width(),
                    power == offset + old_power,
                    mat.height() == power,
                    mat.width() == power,
                    forall|r: int, s: int|
                        mat.has(r, s) ==> mat.at(r, s) == if r >= offset && (offset <= s < new_j
                            || (s == new_j && r < offset + i)) {
                            small.at(r - offset, s - offset)
                        } else if r == s {
                            one_bits()
                        } else {
                            zero_bits()
                        },
                decreases old_power - i,
            {
                let new_i: usize = offset + i;
                mat.set(new_i, new_j, small.get(i, j));
                i += 1;
            }
            j += 1;
        }
        targets.append(&mut controls);
        Gate::new(mat, targets)
    }

    /// The operator of this gate on a system of `n` qubits: it acts as this
    /// gate's own operator on the targets and as the identity on every other
    /// qubit.
    pub fn turn_big(&self, n: usize) -> (big: Matrix)
        requires
            operator_fits(n as nat),
        ensures
            is_embedding(big, self@.operator, self@.targets, n as nat),
    {
        let own: usize = self.mat.shape().0;
        proof {
            use_type_invariant(self);
            if self.targets.len() >= usize::BITS {
                lemma_pow2_exceeds(self.targets@.len());
            }
        }
        let power: usize = match operator_dimension(n) {
            Some(d) => d,
            None => 0,
        };
        let mut mat = Matrix::zeros(power, power);
        let mut row: usize = 0;
        while row < power
            invariant
                row <= power,
                power == pow2(n as nat),
                self.targets.len() < usize::BITS,
                well_shaped(self.mat, self.targets@),
                mat.height() == power,
                mat.width() == power,
                forall|r: int, c: int|
                    mat.has(r, c) ==> mat.at(r, c) == if r < row {
                        embedded_entry(self.mat, self.targets@, n as nat, r, c)
                    } else {
                        zero_bits()
                    },
            decreases power - row,
        {
            let mut col: usize = 0;
            while col < power
                invariant
                    col <= power,
                    row < power,
                    power == pow2(n as nat),
                    self.targets.len() < usize::BITS,
                    well_shaped(self.mat, self.targets@),
                    mat.height() == power,
                    mat.width() == power,
                    forall|r: int, c: int|
                        mat.has(r, c) ==> mat.at(r, c) == if r < row || (r == row && c < col) {
                            embedded_entry(self.mat, self.targets@, n as nat, r, c)
                        } else {
                            zero_bits()
                        },
                decreases power - col,
            {
                if agrees_elsewhere(row, col, n, &self.targets) {
                    let small_row: usize = small_index(row, &self.targets);
                    let small_col: usize = small_index(col, &self.targets);
                    mat.set(row, col, self.mat.get(small_row, small_col));
                }
                col += 1;
            }
            row += 1;
        }
        mat
    }
}

/// Whether `m` is the identity of dimension `d` to the bit: one on the
/// diagonal, zero elsewhere.
pub open spec fn is_exact_identity(m: Matrix, d: nat) -> bool {
    &&& m.height() == d
    &&& m.width() == d
    &&& forall|i: int, j: int|
        m.has(i, j) ==> m.at(i, j) == if i == j {
            one_bits()
        } else {
            zero_bits()
        }
}

/// Embedding the identity gives the identity: a gate that leaves its targets
/// alone leaves the whole system alone, whatever the targets and their
/// order.
pub proof fn lemma_embedding_of_identity(big: Matrix, small: Matrix, targets: Seq<usize>, n: nat)
    requires
        n <= usize::MAX,
        is_embedding(big, small, targets, n),
        is_exact_identity(small, pow2(targets.len())),
    ensures
        is_exact_identity(big, pow2(n)),
{
    assert forall|r: int, c: int| big.has(r, c) implies big.at(r, c) == if r == c {
        one_bits()
    } else {
        zero_bits()
    } by {
        lemma_gather_bound(r as nat, targets);
        lemma_gather_bound(c as nat, targets);
        let gr = gather(r as nat, targets) as int;
        let gc = gather(c as nat, targets) as int;
        assert(small.has(gr, gc));
        if r != c && agree_elsewhere(r as nat, c as nat, n, targets) && gr == gc {
            lemma_gather_injective(r as nat, c as nat, n, targets);
        }
    }
}

/// Every row of an embedded operator is a row of the operator itself, spread
/// over the columns that agree with the row on every qubit that is no target:
/// each index `s` into the operator has one such column, [`replaced`], and no
/// other, and there the embedding holds the operator's entry at the gathered
/// row and `s`. All other columns of the row hold zero. So the embedding is
/// one copy of the operator for each state of the other qubits.
pub proof fn lemma_embedding_rows(
    big: Matrix,
    small: Matrix,
    targets: Seq<usize>,
    n: nat,
    r: nat,
    s: nat,
)
    requires
        n <= usize::MAX,
        is_embedding(big, small, targets, n),
        targets.no_duplicates(),
        all_below(targets, n),
        r < pow2(n),
        s < pow2(targets.len()),
    ensures
        replaced(r, s, targets, n) < pow2(n),
        agree_elsewhere(r, replaced(r, s, targets, n), n, targets),
        gather(replaced(r, s, targets, n), targets) == s,
        big.at(r as int, replaced(r, s, targets, n) as int) == small.at(
            gather(r, targets) as int,
            s as int,
        ),
        forall|c: nat|
            c < pow2(n) && agree_elsewhere(r, c, n, targets) && gather(c, targets) == s ==> c
                == replaced(r, s, targets, n),
        forall|c: nat|
            c < pow2(n) && !agree_elsewhere(r, c, n, targets) ==> big.at(r as int, c as int)
                == zero_bits(),
{
    let home = replaced(r, s, targets, n);
    lemma_gather_surjective(r, s, n, targets);
    assert(big.has(r as int, home as int));
    assert forall|c: nat|
        c < pow2(n) && agree_elsewhere(r, c, n, targets) && gather(c, targets)
            == s implies c == home by {
        assert(agree_elsewhere(c, home, n, targets));
        lemma_gather_injective(c, home, n, targets);
    }
    assert forall|c: nat| c < pow2(n) && !agree_elsewhere(r, c, n, targets) implies big.at(
        r as int,
        c as int,
    ) == zero_bits() by {
        assert(big.has(r as int, c as int));
    }
}

/// A controlled gate acts as its inner gate where every control is set, and
/// as the identity elsewhere: embedded into `n` qubits, its operator has at
/// `(r, c)` the entry of the embedded inner gate where all controls are set
/// in both `r` and `c`, and the entry of the identity everywhere else. The
/// controls of the extension and the targets of the embedding follow one
/// convention.
pub proof fn lemma_controlled_embedding(
    extended: Matrix,
    small: Matrix,
    targets: Seq<usize>,
    controls: Seq<usize>,
    n: nat,
    r: nat,
    c: nat,
)
    requires
        n <= usize::MAX,
        r < pow2(n),
        c < pow2(n),
        well_shaped(small, targets),
        is_controlled(
            extended,
            small,
            (pow2(targets.len() + controls.len()) - pow2(targets.len())) as nat,
        ),
    ensures
        embedded_entry(extended, targets + controls, n, r as int, c as int) == if all_set(
            r,
            controls,
        ) && all_set(c, controls) {
            embedded_entry(small, targets, n, r as int, c as int)
        } else if r == c {
            one_bits()
        } else {
            zero_bits()
        },
{
    let all = targets + controls;
    let own = pow2(targets.len());
    let top = pow2(controls.len());
    let offset = (pow2(targets.len() + controls.len()) - own) as nat;
    let gr = gather(r, all);
    let gc = gather(c, all);
    let hr = gather(r, controls);
    let hc = gather(c, controls);
    lemma_pow2_adds(targets.len(), controls.len());
    lemma_gather_concat(r, targets, controls);
    lemma_gather_concat(c, targets, controls);
    lemma_gather_of_controls(r, controls);
    lemma_gather_of_controls(c, controls);
    lemma_gather_bound(r, targets);
    lemma_gather_bound(c, targets);
    lemma_gather_bound(r, all);
    lemma_gather_bound(c, all);
    assert(own * top >= own) by (nonlinear_arith)
        requires
            top >= 1,
    ;
    assert(offset == own * (top - 1)) by (nonlinear_arith)
        requires
            offset == own * top - own,
    ;
    assert(extended.has(gr as int, gc as int));
    assert forall|b: usize| all.contains(b) <==> targets.contains(b) || controls.contains(b) by {
        if targets.contains(b) {
            let i = choose|i: int| 0 <= i < targets.len() && targets[i] == b;
            assert(all[i] == b);
        }
        if controls.contains(b) {
            let i = choose|i: int| 0 <= i < controls.len() && controls[i] == b;
            assert(all[targets.len() + i] == b);
        }
        if all.contains(b) {
            let i = choose|i: int| 0 <= i < all.len() && all[i] == b;
            if i < targets.len() {
                assert(targets[i] == b);
            } else {
                assert(controls[i - targets.len()] == b);
            }
        }
    }
    if all_set(r, controls) && all_set(c, controls) {
        assert(gr == gather(r, targets) + offset) by (nonlinear_arith)
            requires
                gr == gather(r, targets) + own * hr,
                hr == top - 1,
                offset == own * (top - 1),
        ;
        assert(gc == gather(c, targets) + offset) by (nonlinear_arith)
            requires
                gc == gather(c, targets) + own * hc,
                hc == top - 1,
                offset == own * (top - 1),
        ;
        assert(agree_elsewhere(r, c, n, all) == agree_elsewhere(r, c, n, targets)) by {
            if agree_elsewhere(r, c, n, all) {
                assert forall|b: usize| b < n && !targets.contains(b) implies bit(r, b as nat)
                    == bit(c, b as nat) by {
                    if controls.contains(b) {
                        let i = choose|i: int| 0 <= i < controls.len() && controls[i] == b;
                        assert(bit(r, controls[i] as nat) == 1);
                        assert(bit(c, controls[i] as nat) == 1);
                    }
                }
            }
        }
    } else {
        if agree_elsewhere(r, c, n, all) {
            if !all_set(r, controls) {
                assert(gr < offset) by (nonlinear_arith)
                    requires
                        gr == gather(r, targets) + own * hr,
                        gather(r, targets) < own,
                        hr < top - 1,
                        offset == own * (top - 1),
                ;
            } else {
                assert(gc < offset) by (nonlinear_arith)
                    requires
                        gc == gather(c, targets) + own * hc,
                        gather(c, targets) < own,
                        hc < top - 1,
                        offset == own * (top - 1),
                ;
            }
            if gr == gc {
                lemma_gather_injective(r, c, n, all);
            }
        }
    }
}

/// Operators on one and on two qubits can always be held.
pub proof fn lemma_small_operators_fit()
    ensures
        operator_fits(1),
        operator_fits(2),
{
    lemma2_to64();
}

} // verus!
