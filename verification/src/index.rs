//! Basis indices and their bits.
//!
//! A basis state of `n` qubits is a number below `2^n` whose bit `i` is the
//! state of qubit `i`. A gate on `k` targets addresses its own operator by a
//! number below `2^k` whose bit `i` is the state of the qubit that stands at
//! place `i` of its target list.
use vstd::prelude::*;
use vstd::arithmetic::power2::{
    lemma_pow2_adds, lemma_pow2_pos, lemma_pow2_strictly_increases, lemma_pow2_unfold, pow2,
};
use vstd::bits::{lemma_usize_pow2_no_overflow, lemma_usize_shl_is_mul, lemma_usize_shr_is_div};

verus! {

/// Bit `i` of `x`, as 0 or 1.
pub open spec fn bit(x: nat, i: nat) -> nat {
    (x / pow2(i)) % 2
}

/// The index into a gate's own operator that the basis index `x` selects:
/// its bit `i` is the bit of `x` at position `targets[i]`.
pub open spec fn gather(x: nat, targets: Seq<usize>) -> nat
    decreases targets.len(),
{
    if targets.len() == 0 {
        0
    } else {
        gather(x, targets.drop_last()) + bit(x, targets.last() as nat) * pow2(
            (targets.len() - 1) as nat,
        )
    }
}

/// Whether `x` and `y` agree on every bit below `n` that is no target.
pub open spec fn agree_elsewhere(x: nat, y: nat, n: nat, targets: Seq<usize>) -> bool {
    forall|b: usize| b < n && !targets.contains(b) ==> bit(x, b as nat) == bit(y, b as nat)
}

/// Whether every qubit of `controls` is set in the basis index `x`.
pub open spec fn all_set(x: nat, controls: Seq<usize>) -> bool {
    forall|i: int| 0 <= i < controls.len() ==> bit(x, controls[i] as nat) == 1
}

/// The basis index on `n` qubits that has, at each target, the bit that `s`
/// has at the target's place in the list, and at every other qubit the bit
/// of `r`.
pub open spec fn replaced(r: nat, s: nat, targets: Seq<usize>, n: nat) -> nat
    decreases n,
{
    if n == 0 {
        0
    } else {
        replaced(r, s, targets, (n - 1) as nat) + replaced_bit(r, s, targets, (n - 1) as nat)
            * pow2((n - 1) as nat)
    }
}

/// Bit `b` of [`replaced`].
pub open spec fn replaced_bit(r: nat, s: nat, targets: Seq<usize>, b: nat) -> nat {
    if targets.contains(b as usize) {
        bit(s, targets.index_of(b as usize) as nat)
    } else {
        bit(r, b)
    }
}

/// Whether every target is below `n`.
pub open spec fn all_below(targets: Seq<usize>, n: nat) -> bool {
    forall|i: int| 0 <= i < targets.len() ==> targets[i] < n
}

/// A gathered index addresses an operator of dimension two to the number of
/// targets.
pub proof fn lemma_gather_bound(x: nat, targets: Seq<usize>)
    ensures
        gather(x, targets) < pow2(targets.len()),
    decreases targets.len(),
{
    if targets.len() == 0 {
        lemma_pow2_pos(0);
    } else {
        let k = (targets.len() - 1) as nat;
        lemma_gather_bound(x, targets.drop_last());
        lemma_pow2_unfold(targets.len());
        assert(bit(x, targets.last() as nat) * pow2(k) <= pow2(k)) by (nonlinear_arith)
            requires
                bit(x, targets.last() as nat) <= 1,
        ;
    }
}

/// Bit `b + 1` of `x` is bit `b` of its half.
pub proof fn lemma_bit_of_half(x: nat, b: nat)
    ensures
        bit(x / 2, b) == bit(x, b + 1),
{
    lemma_pow2_pos(b);
    lemma_pow2_unfold(b + 1);
    vstd::arithmetic::div_mod::lemma_div_denominator(x as int, 2, pow2(b) as int);
}

/// A number below two to the `n` is determined by its lowest `n` bits.
pub proof fn lemma_bits_determine(x: nat, y: nat, n: nat)
    requires
        x < pow2(n),
        y < pow2(n),
        forall|b: nat| b < n ==> bit(x, b) == bit(y, b),
    ensures
        x == y,
    decreases n,
{
    if n == 0 {
        assert(pow2(0) == 1) by {
            vstd::arithmetic::power2::lemma2_to64();
        }
    } else {
        let m = (n - 1) as nat;
        lemma_pow2_unfold(n);
        let hx = x / 2;
        let hy = y / 2;
        assert forall|b: nat| b < m implies bit(hx, b) == bit(hy, b) by {
            lemma_bit_of_half(x, b);
            lemma_bit_of_half(y, b);
            assert(bit(x, b + 1) == bit(y, b + 1));
        }
        lemma_bits_determine(hx, hy, m);
        assert(bit(x, 0) == bit(y, 0));
        assert(pow2(0) == 1) by {
            vstd::arithmetic::power2::lemma2_to64();
        }
    }
}

/// Equal gathered indices come from equal bits at every target.
pub proof fn lemma_gather_determines_bits(x: nat, y: nat, targets: Seq<usize>)
    requires
        gather(x, targets) == gather(y, targets),
    ensures
        forall|i: int|
            0 <= i < targets.len() ==> bit(x, targets[i] as nat) == bit(y, targets[i] as nat),
    decreases targets.len(),
{
    if targets.len() > 0 {
        let rest = targets.drop_last();
        let p = pow2((targets.len() - 1) as nat);
        let bx = bit(x, targets.last() as nat);
        let by = bit(y, targets.last() as nat);
        lemma_gather_bound(x, rest);
        lemma_gather_bound(y, rest);
        assert(bx == by && gather(x, rest) == gather(y, rest)) by (nonlinear_arith)
            requires
                gather(x, rest) + bx * p == gather(y, rest) + by * p,
                gather(x, rest) < p,
                gather(y, rest) < p,
                bx <= 1,
                by <= 1,
        ;
        lemma_gather_determines_bits(x, y, rest);
        assert forall|i: int| 0 <= i < targets.len() implies bit(x, targets[i] as nat) == bit(
            y,
            targets[i] as nat,
        ) by {
            if i < targets.len() - 1 {
                assert(rest[i] == targets[i]);
            }
        }
    }
}

/// Among the basis indices of `n` qubits that agree on every qubit that is no
/// target, the gathered index tells one from another: the embedding puts each
/// entry of a gate's operator at one place of such a block only.
pub proof fn lemma_gather_injective(r: nat, c: nat, n: nat, targets: Seq<usize>)
    requires
        n <= usize::MAX,
        r < pow2(n),
        c < pow2(n),
        agree_elsewhere(r, c, n, targets),
        gather(r, targets) == gather(c, targets),
    ensures
        r == c,
{
    lemma_gather_determines_bits(r, c, targets);
    assert forall|b: nat| b < n implies bit(r, b) == bit(c, b) by {
        let at = b as usize;
        if targets.contains(at) {
            let i = choose|i: int| 0 <= i < targets.len() && targets[i] == at;
            assert(bit(r, targets[i] as nat) == bit(c, targets[i] as nat));
        }
    }
    lemma_bits_determine(r, c, n);
}

/// Adding a bit above a number leaves the bits of the number as they are.
pub proof fn lemma_bit_of_sum(w: nat, d: nat, m: nat, b: nat)
    requires
        w < pow2(m),
        d <= 1,
        b <= m,
    ensures
        bit(w + d * pow2(m), b) == if b == m {
            d
        } else {
            bit(w, b)
        },
{
    let p = pow2(m);
    let q = pow2(b);
    let x = w + d * p;
    lemma_pow2_pos(m);
    lemma_pow2_pos(b);
    if b == m {
        vstd::arithmetic::div_mod::lemma_div_multiples_vanish_fancy(d as int, w as int, p as int);
        assert(x == p * d + w) by (nonlinear_arith)
            requires
                x == w + d * p,
        ;
    } else {
        let e = (m - b) as nat;
        lemma_pow2_adds(b, e);
        lemma_pow2_unfold(e);
        let h = pow2((e - 1) as nat);
        let j = 2 * (d * h);
        assert(x == w + j * q) by (nonlinear_arith)
            requires
                x == w + d * p,
                p == q * (2 * h),
                j == 2 * (d * h),
        ;
        vstd::arithmetic::div_mod::lemma_hoist_over_denominator(w as int, j as int, q);
        vstd::arithmetic::div_mod::lemma_mod_multiples_vanish(
            (d * h) as int,
            (w / q) as int,
            2,
        );
    }
}

/// Bit `i` of a gathered index is the bit at target `i`.
pub proof fn lemma_gather_bits(x: nat, targets: Seq<usize>, i: int)
    requires
        0 <= i < targets.len(),
    ensures
        bit(gather(x, targets), i as nat) == bit(x, targets[i] as nat),
    decreases targets.len(),
{
    let rest = targets.drop_last();
    lemma_gather_bound(x, rest);
    lemma_bit_of_sum(gather(x, rest), bit(x, targets.last() as nat), rest.len(), i as nat);
    if i < rest.len() {
        lemma_gather_bits(x, rest, i);
    }
}

/// [`replaced`] is below two to the `n` and has the bits that
/// [`replaced_bit`] names.
pub proof fn lemma_replaced(r: nat, s: nat, targets: Seq<usize>, n: nat)
    ensures
        replaced(r, s, targets, n) < pow2(n),
        forall|b: nat| b < n ==> bit(replaced(r, s, targets, n), b) == replaced_bit(r, s, targets, b),
    decreases n,
{
    if n == 0 {
        lemma_pow2_pos(0);
    } else {
        let m = (n - 1) as nat;
        let w = replaced(r, s, targets, m);
        let d = replaced_bit(r, s, targets, m);
        lemma_replaced(r, s, targets, m);
        lemma_pow2_unfold(n);
        assert(d * pow2(m) <= pow2(m)) by (nonlinear_arith)
            requires
                d <= 1,
        ;
        assert forall|b: nat| b < n implies bit(replaced(r, s, targets, n), b) == replaced_bit(
            r,
            s,
            targets,
            b,
        ) by {
            lemma_bit_of_sum(w, d, m, b);
        }
    }
}

/// Among the basis indices of `n` qubits that agree with `r` on every qubit
/// that is no target, each index of a gate's own operator is gathered from
/// one: with [`lemma_gather_injective`], the embedding lays one copy of the
/// operator into each such block.
pub proof fn lemma_gather_surjective(r: nat, s: nat, n: nat, targets: Seq<usize>)
    requires
        n <= usize::MAX,
        targets.no_duplicates(),
        all_below(targets, n),
        s < pow2(targets.len()),
    ensures
        replaced(r, s, targets, n) < pow2(n),
        agree_elsewhere(r, replaced(r, s, targets, n), n, targets),
        gather(replaced(r, s, targets, n), targets) == s,
{
    let c = replaced(r, s, targets, n);
    let g = gather(c, targets);
    lemma_replaced(r, s, targets, n);
    lemma_gather_bound(c, targets);
    assert forall|b: usize| b < n && !targets.contains(b) implies bit(r, b as nat) == bit(
        c,
        b as nat,
    ) by {
        assert(bit(c, b as nat) == replaced_bit(r, s, targets, b as nat));
    }
    assert forall|i: nat| i < targets.len() implies bit(g, i) == bit(s, i) by {
        let at = targets[i as int];
        lemma_gather_bits(c, targets, i as int);
        assert(targets.contains(at));
        assert(bit(c, at as nat) == replaced_bit(r, s, targets, at as nat));
        assert(targets[targets.index_of(at)] == at);
    }
    lemma_bits_determine(g, s, targets.len());
}

/// Gathering over a list made of two gathers over each, the second above the
/// first.
pub proof fn lemma_gather_concat(x: nat, low: Seq<usize>, high: Seq<usize>)
    ensures
        gather(x, low + high) == gather(x, low) + pow2(low.len()) * gather(x, high),
    decreases high.len(),
{
    if high.len() == 0 {
        assert(low + high =~= low);
        assert(pow2(low.len()) * gather(x, high) == 0) by (nonlinear_arith)
            requires
                gather(x, high) == 0,
        ;
    } else {
        let all = low + high;
        let rest = high.drop_last();
        assert(all.drop_last() =~= low + rest);
        assert(all.last() == high.last());
        lemma_gather_concat(x, low, rest);
        lemma_pow2_adds(low.len(), rest.len());
        let b = bit(x, high.last() as nat);
        let pl = pow2(low.len());
        let pr = pow2(rest.len());
        let g = gather(x, rest);
        assert(gather(x, high) == g + b * pr);
        assert((all.len() - 1) as nat == low.len() + rest.len());
        assert(gather(x, all) == gather(x, low + rest) + b * pow2(low.len() + rest.len()));
        assert(pl * g + b * (pl * pr) == pl * (g + b * pr)) by (nonlinear_arith);
    }
}

/// The gathered index of the controls is the highest there is where all of
/// them are set, and only there.
pub proof fn lemma_gather_of_controls(x: nat, controls: Seq<usize>)
    ensures
        gather(x, controls) < pow2(controls.len()),
        all_set(x, controls) <==> gather(x, controls) == pow2(controls.len()) - 1,
    decreases controls.len(),
{
    lemma_gather_bound(x, controls);
    if controls.len() == 0 {
        assert(pow2(0) == 1) by {
            vstd::arithmetic::power2::lemma2_to64();
        }
    } else {
        let rest = controls.drop_last();
        let p = pow2(rest.len());
        let b = bit(x, controls.last() as nat);
        lemma_gather_of_controls(x, rest);
        lemma_pow2_unfold(controls.len());
        assert(b * p == if b == 1 { p } else { 0 }) by (nonlinear_arith)
            requires
                b <= 1,
        ;
        if all_set(x, controls) {
            assert(b == 1);
            assert forall|i: int| 0 <= i < rest.len() implies bit(x, rest[i] as nat) == 1 by {
                assert(rest[i] == controls[i]);
            }
        }
        if all_set(x, rest) && b == 1 {
            assert forall|i: int| 0 <= i < controls.len() implies bit(x, controls[i] as nat)
                == 1 by {
                if i < rest.len() {
                    assert(rest[i] == controls[i]);
                }
            }
        }
    }
}

/// Two to a number that is not below the width of a `usize` exceeds every
/// `usize`.
pub proof fn lemma_pow2_exceeds(n: nat)
    requires
        n >= usize::BITS,
    ensures
        pow2(n) > usize::MAX,
{
    lemma_usize_pow2_no_overflow((usize::BITS - 1) as nat);
    lemma_pow2_unfold(usize::BITS as nat);
    if n > usize::BITS {
        lemma_pow2_strictly_increases(usize::BITS as nat, n);
    }
    assert(usize::MAX < pow2(usize::BITS as nat)) by {
        vstd::arithmetic::power2::lemma2_to64();
        vstd::arithmetic::power2::lemma2_to64_rest();
    }
}

/// Two to the `n`, where a `usize` holds it.
pub fn dimension(n: usize) -> (r: Option<usize>)
    ensures
        r is Some <==> pow2(n as nat) <= usize::MAX,
        r matches Some(d) ==> d == pow2(n as nat),
{
    if n < usize::BITS as usize {
        proof {
            lemma_usize_pow2_no_overflow(n as nat);
            lemma_usize_shl_is_mul(1, n);
        }
        Some(1usize << n)
    } else {
        proof {
            lemma_pow2_exceeds(n as nat);
        }
        None
    }
}

/// Bit `pos` of `x`.
pub fn bit_at(x: usize, pos: usize) -> (r: usize)
    ensures
        r == bit(x as nat, pos as nat),
        r <= 1,
{
    if pos < usize::BITS as usize {
        let shifted: usize = x >> pos;
        proof {
            lemma_usize_shr_is_div(x, pos);
            assert(shifted & 1 == shifted % 2) by (bit_vector);
        }
        shifted & 1
    } else {
        proof {
            lemma_pow2_exceeds(pos as nat);
            vstd::arithmetic::div_mod::lemma_basic_div(x as int, pow2(pos as nat) as int);
        }
        0
    }
}

/// Whether `value` stands in `targets`.
pub fn is_target(targets: &Vec<usize>, value: usize) -> (r: bool)
    ensures
        r == targets@.contains(value),
{
    let mut i: usize = 0;
    while i < targets.len()
        invariant
            i <= targets.len(),
            forall|k: int| 0 <= k < i ==> targets[k] != value,
        decreases targets.len() - i,
    {
        if targets[i] == value {
            return true;
        }
        i += 1;
    }
    false
}

/// Whether every target is below `n`.
pub fn targets_below(targets: &Vec<usize>, n: usize) -> (r: bool)
    ensures
        r == all_below(targets@, n as nat),
{
    let mut i: usize = 0;
    while i < targets.len()
        invariant
            i <= targets.len(),
            forall|k: int| 0 <= k < i ==> targets[k] < n,
        decreases targets.len() - i,
    {
        if targets[i] >= n {
            return false;
        }
        i += 1;
    }
    true
}

/// Whether the basis indices `row` and `col` agree on every one of the `n`
/// qubits that is no target.
pub fn agrees_elsewhere(row: usize, col: usize, n: usize, targets: &Vec<usize>) -> (r: bool)
    ensures
        r == agree_elsewhere(row as nat, col as nat, n as nat, targets@),
{
    let mut pos: usize = 0;
    while pos < n
        invariant
            pos <= n,
            forall|b: usize|
                b < pos && !targets@.contains(b) ==> bit(row as nat, b as nat) == bit(
                    col as nat,
                    b as nat,
                ),
        decreases n - pos,
    {
        if !is_target(targets, pos) {
            if bit_at(row, pos) != bit_at(col, pos) {
                return false;
            }
        }
        pos += 1;
    }
    true
}

/// The index into a gate's own operator that the basis index `x` selects.
pub fn small_index(x: usize, targets: &Vec<usize>) -> (r: usize)
    requires
        targets.len() < usize::BITS,
    ensures
        r == gather(x as nat, targets@),
        r < pow2(targets.len() as nat),
{
    let mut small: usize = 0;
    let mut i: usize = 0;
    proof {
        lemma_pow2_pos(0);
    }
    while i < targets.len()
        invariant
            i <= targets.len(),
            targets.len() < usize::BITS,
            small == gather(x as nat, targets@.take(i as int)),
            small < pow2(i as nat),
        decreases targets.len() - i,
    {
        let place: usize = 1usize << i;
        proof {
            lemma_usize_pow2_no_overflow(i as nat);
            lemma_usize_shl_is_mul(1, i);
            lemma_pow2_unfold((i + 1) as nat);
            let next = targets@.take(i + 1);
            assert(next.drop_last() =~= targets@.take(i as int));
            assert(next.last() == targets[i as int]);
            assert(gather(x as nat, next) == gather(x as nat, targets@.take(i as int)) + bit(
                x as nat,
                targets[i as int] as nat,
            ) * pow2(i as nat));
        }
        let b: usize = bit_at(x, targets[i]);
        proof {
            let p = pow2(i as nat);
            assert(b * p == if b == 1 { p } else { 0 }) by (nonlinear_arith)
                requires
                    b <= 1,
            ;
        }
        if b == 1 {
            proof {
                let s = small;
                assert(s | place == s + place) by (bit_vector)
                    requires
                        place == 1usize << i,
                        i < usize::BITS,
                        s < place,
                ;
            }
            small = small | place;
        }
        i += 1;
    }
    proof {
        assert(targets@.take(targets.len() as int) =~= targets@);
    }
    small
}

} // verus!
