use vstd::arithmetic::div_mod::{
    lemma_div_denominator, lemma_div_is_ordered, lemma_fundamental_div_mod,
};
use vstd::prelude::*;

verus! {

/// Little-endian base-64 digits of `t`, with no trailing zero digit.
/// Empty for `t == 0`.
pub open spec fn decompose(t: nat) -> Seq<usize>
    decreases t,
{
    if t == 0 {
        seq![]
    } else {
        seq![(t % 64) as usize] + decompose(t / 64)
    }
}

/// `64` to the power `k`.
pub open spec fn pow64(k: nat) -> nat
    decreases k,
{
    if k == 0 {
        1
    } else {
        64 * pow64((k - 1) as nat)
    }
}

/// Every digit of a decomposition is below 64.
pub proof fn lemma_decompose_digits(t: nat)
    ensures
        forall|i: int| 0 <= i < decompose(t).len() ==> decompose(t)[i] < 64,
    decreases t,
{
    if t != 0 {
        lemma_decompose_digits(t / 64);
        let rest = decompose(t / 64);
        assert forall|i: int| 0 <= i < decompose(t).len() implies decompose(t)[i] < 64 by {
            if i > 0 {
                assert(decompose(t)[i] == rest[i - 1]);
            }
        }
    }
}

/// A number below `64^k` has at most `k` digits.
pub proof fn lemma_decompose_len_bound(t: nat, k: nat)
    requires
        t < pow64(k),
    ensures
        decompose(t).len() <= k,
    decreases t,
{
    if t != 0 {
        assert(k > 0);
        let p = pow64((k - 1) as nat);
        assert(t / 64 < p) by (nonlinear_arith)
            requires
                t < 64 * p,
        ;
        lemma_decompose_len_bound(t / 64, (k - 1) as nat);
    }
}

/// Every `usize` has at most eleven base-64 digits.
pub proof fn lemma_decompose_len_usize(t: usize)
    ensures
        decompose(t as nat).len() <= 11,
{
    reveal_with_fuel(pow64, 12);
    assert(pow64(11) == 0x4_0000_0000_0000_0000nat);
    lemma_decompose_len_bound(t as nat, 11);
}

/// The decomposition has no trailing zero digit.
pub proof fn lemma_decompose_last_nonzero(t: nat)
    requires
        t != 0,
    ensures
        decompose(t).len() >= 1,
        decompose(t).last() != 0,
    decreases t,
{
    let rest = decompose(t / 64);
    if t / 64 != 0 {
        lemma_decompose_last_nonzero(t / 64);
        assert(decompose(t).last() == rest.last());
    } else {
        assert(rest.len() == 0);
        assert(decompose(t).last() == (t % 64) as usize);
    }
}

/// One more than `t`: the lowest digit is incremented when it is below 63.
pub proof fn lemma_decompose_succ_no_carry(t: nat)
    requires
        t % 64 < 63,
    ensures
        decompose(t + 1) == seq![((t % 64) + 1) as usize] + decompose(t / 64),
{
    assert((t + 1) % 64 == t % 64 + 1);
    assert((t + 1) / 64 == t / 64);
}

/// One more than `t`: a lowest digit of 63 becomes 0 and carries.
pub proof fn lemma_decompose_succ_carry(t: nat)
    requires
        t % 64 == 63,
    ensures
        decompose(t + 1) == seq![0usize] + decompose(t / 64 + 1),
{
    assert((t + 1) % 64 == 0);
    assert((t + 1) / 64 == t / 64 + 1);
}

/// The digits of `x` from position `i` up, read as one number.
pub open spec fn prefix(x: nat, i: nat) -> nat {
    x / pow64(i)
}

/// The digit of `x` at position `i`; zero past its last digit.
pub open spec fn digit_at(x: nat, i: int) -> usize {
    if 0 <= i < decompose(x).len() {
        decompose(x)[i]
    } else {
        0
    }
}

pub proof fn lemma_pow64_pos(i: nat)
    ensures
        pow64(i) >= 1,
    decreases i,
{
    if i > 0 {
        lemma_pow64_pos((i - 1) as nat);
    }
}

/// Dropping one more digit divides the prefix by 64.
pub proof fn lemma_prefix_succ(x: nat, i: nat)
    ensures
        prefix(x, i + 1) == prefix(x, i) / 64,
        prefix(x, i) == 64 * prefix(x, i + 1) + prefix(x, i) % 64,
{
    lemma_pow64_pos(i);
    assert(pow64(i + 1) == 64 * pow64(i));
    lemma_div_denominator(x as int, pow64(i) as int, 64);
    assert(pow64(i) * 64 == 64 * pow64(i)) by (nonlinear_arith);
    lemma_fundamental_div_mod(prefix(x, i) as int, 64);
}

/// The digit at position `i` is the prefix from `i` modulo 64, and past the
/// last digit the prefix is zero.
pub proof fn lemma_digit_prefix(x: nat, i: nat)
    ensures
        digit_at(x, i as int) == prefix(x, i) % 64,
        i >= decompose(x).len() <==> prefix(x, i) == 0,
    decreases x,
{
    lemma_pow64_pos(i);
    if x == 0 {
        assert(prefix(0, i) == 0);
    } else if i == 0 {
        assert(pow64(0) == 1);
        assert(prefix(x, 0) == x);
    } else {
        let j = (i - 1) as nat;
        lemma_digit_prefix(x / 64, j);
        lemma_pow64_pos(j);
        lemma_div_denominator(x as int, 64, pow64(j) as int);
        assert(pow64(i) == 64 * pow64(j));
        assert(prefix(x / 64, j) == prefix(x, i));
        if i < decompose(x).len() {
            assert(decompose(x)[i as int] == decompose(x / 64)[j as int]);
        }
    }
}

/// The prefix grows with the number.
pub proof fn lemma_prefix_monotone(x: nat, y: nat, i: nat)
    requires
        x <= y,
    ensures
        prefix(x, i) <= prefix(y, i),
{
    lemma_pow64_pos(i);
    lemma_div_is_ordered(x as int, y as int, pow64(i) as int);
}

/// The prefix from position zero is the number itself.
pub proof fn lemma_prefix_zero(x: nat)
    ensures
        prefix(x, 0) == x,
{
    assert(pow64(0) == 1);
}

/// Prefixes that agree from `i + 1` up and have equal digits at `i` agree
/// from `i` up.
pub proof fn lemma_prefix_step(x: nat, y: nat, i: nat)
    requires
        prefix(x, i + 1) == prefix(y, i + 1),
    ensures
        (prefix(x, i) == prefix(y, i)) == (digit_at(x, i as int) == digit_at(y, i as int)),
{
    lemma_prefix_succ(x, i);
    lemma_prefix_succ(y, i);
    lemma_digit_prefix(x, i);
    lemma_digit_prefix(y, i);
}

} // verus!
