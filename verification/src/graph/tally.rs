//! Sums over sequences, by which the constructions keep count of what is
//! given, taken and made.

use vstd::prelude::*;

verus! {

/// Sum of `f` over the items of `s`.
pub open spec fn tally<T>(s: Seq<T>, f: spec_fn(T) -> nat) -> nat
    decreases s.len(),
{
    if s.len() == 0 {
        0
    } else {
        tally(s.drop_last(), f) + f(s.last())
    }
}

/// One more item adds what it weighs.
pub proof fn lemma_tally_push<T>(s: Seq<T>, x: T, f: spec_fn(T) -> nat)
    ensures
        tally(s.push(x), f) == tally(s, f) + f(x),
{
    assert(s.push(x).drop_last() =~= s);
}

/// Two sequences in a row sum to the sum of both.
pub proof fn lemma_tally_add<T>(a: Seq<T>, b: Seq<T>, f: spec_fn(T) -> nat)
    ensures
        tally(a + b, f) == tally(a, f) + tally(b, f),
    decreases b.len(),
{
    if b.len() == 0 {
        assert(a + b =~= a);
    } else {
        lemma_tally_add(a, b.drop_last(), f);
        assert((a + b).drop_last() =~= a + b.drop_last());
    }
}

/// An item put in anywhere adds what it weighs.
pub proof fn lemma_tally_insert<T>(s: Seq<T>, i: int, x: T, f: spec_fn(T) -> nat)
    requires
        0 <= i <= s.len(),
    ensures
        tally(s.insert(i, x), f) == tally(s, f) + f(x),
    decreases s.len() - i,
{
    if i == s.len() {
        assert(s.insert(i, x) =~= s.push(x));
        lemma_tally_push(s, x, f);
    } else {
        lemma_tally_insert(s.drop_last(), i, x, f);
        assert(s.insert(i, x).drop_last() =~= s.drop_last().insert(i, x));
    }
}

/// An item put in place of another adds what it weighs more.
pub proof fn lemma_tally_update<T>(s: Seq<T>, i: int, x: T, f: spec_fn(T) -> nat)
    requires
        0 <= i < s.len(),
    ensures
        tally(s.update(i, x), f) + f(s[i]) == tally(s, f) + f(x),
    decreases s.len(),
{
    if i == s.len() - 1 {
        assert(s.update(i, x).drop_last() =~= s.drop_last());
    } else {
        lemma_tally_update(s.drop_last(), i, x, f);
        assert(s.update(i, x).drop_last() =~= s.drop_last().update(i, x));
    }
}

/// A longer part of a sequence sums to no less.
pub proof fn lemma_tally_take<T>(s: Seq<T>, f: spec_fn(T) -> nat, j: int)
    requires
        0 <= j < s.len(),
    ensures
        tally(s.take(j + 1), f) == tally(s.take(j), f) + f(s[j]),
{
    assert(s.take(j + 1).drop_last() =~= s.take(j));
}

/// A part of a sequence sums to no more than the whole.
pub proof fn lemma_tally_rest<T>(s: Seq<T>, f: spec_fn(T) -> nat, j: int)
    requires
        0 <= j <= s.len(),
    ensures
        tally(s.take(j), f) <= tally(s, f),
    decreases s.len() - j,
{
    if j < s.len() {
        lemma_tally_take(s, f, j);
        lemma_tally_rest(s, f, j + 1);
    } else {
        assert(s.take(j) =~= s);
    }
}

/// A sum is at least what one of its items weighs.
pub proof fn lemma_tally_one<T>(s: Seq<T>, f: spec_fn(T) -> nat, i: int)
    requires
        0 <= i < s.len(),
    ensures
        tally(s, f) >= f(s[i]),
    decreases s.len(),
{
    if i < s.len() - 1 {
        lemma_tally_one(s.drop_last(), f, i);
    }
}

/// A sum is at least what two of its items weigh.
pub proof fn lemma_tally_two<T>(s: Seq<T>, f: spec_fn(T) -> nat, i: int, j: int)
    requires
        0 <= i < j < s.len(),
    ensures
        tally(s, f) >= f(s[i]) + f(s[j]),
    decreases s.len(),
{
    if j == s.len() - 1 {
        lemma_tally_one(s.drop_last(), f, i);
    } else {
        lemma_tally_two(s.drop_last(), f, i, j);
    }
}

/// A sum of nothing but zeros is zero, and the other way round.
pub proof fn lemma_tally_zero<T>(s: Seq<T>, f: spec_fn(T) -> nat)
    ensures
        tally(s, f) == 0 <==> forall|i: int| 0 <= i < s.len() ==> f(#[trigger] s[i]) == 0,
    decreases s.len(),
{
    if s.len() > 0 {
        lemma_tally_zero(s.drop_last(), f);
        if tally(s, f) == 0 {
            assert forall|i: int| 0 <= i < s.len() implies f(#[trigger] s[i]) == 0 by {
                if i < s.len() - 1 {
                    assert(s.drop_last()[i] == s[i]);
                }
            }
        } else {
            if forall|i: int| 0 <= i < s.len() ==> f(#[trigger] s[i]) == 0 {
                assert forall|i: int| 0 <= i < s.drop_last().len() implies f(
                    #[trigger] s.drop_last()[i],
                ) == 0 by {
                    assert(s.drop_last()[i] == s[i]);
                }
                assert(f(s[s.len() - 1]) == 0);
            }
        }
    }
}

/// A sum of a function that takes one value on every item.
pub proof fn lemma_tally_const<T>(s: Seq<T>, f: spec_fn(T) -> nat, c: nat)
    requires
        forall|i: int| 0 <= i < s.len() ==> f(#[trigger] s[i]) == c,
    ensures
        tally(s, f) == s.len() * c,
    decreases s.len(),
{
    if s.len() > 0 {
        lemma_tally_const(s.drop_last(), f, c);
        assert(s.len() * c == (s.len() - 1) * c + c) by (nonlinear_arith);
    } else {
        assert(0 * c == 0);
    }
}

/// Sequences whose items weigh the same, one by one, have the same sum.
pub proof fn lemma_tally_alike<S, T>(s: Seq<S>, f: spec_fn(S) -> nat, t: Seq<T>, g: spec_fn(T) -> nat)
    requires
        s.len() == t.len(),
        forall|i: int| 0 <= i < s.len() ==> f(#[trigger] s[i]) == g(t[i]),
    ensures
        tally(s, f) == tally(t, g),
    decreases s.len(),
{
    if s.len() > 0 {
        lemma_tally_alike(s.drop_last(), f, t.drop_last(), g);
    }
}

/// The sum of a sum of two functions is the sum of their sums.
pub proof fn lemma_tally_sum<T>(
    s: Seq<T>,
    f: spec_fn(T) -> nat,
    g: spec_fn(T) -> nat,
    both: spec_fn(T) -> nat,
)
    requires
        forall|i: int| 0 <= i < s.len() ==> both(#[trigger] s[i]) == f(s[i]) + g(s[i]),
    ensures
        tally(s, both) == tally(s, f) + tally(s, g),
    decreases s.len(),
{
    if s.len() > 0 {
        let front = s.drop_last();
        assert forall|i: int| 0 <= i < front.len() implies both(#[trigger] front[i]) == f(front[i])
            + g(front[i]) by {
            assert(front[i] == s[i]);
        }
        lemma_tally_sum(front, f, g, both);
        assert(both(s[s.len() - 1]) == f(s[s.len() - 1]) + g(s[s.len() - 1]));
    }
}

} // verus!
