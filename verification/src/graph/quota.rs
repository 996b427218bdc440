//! What the two constructions share: the demand that each vertex still has,
//! its stable ordering by size, and the greedy pass that serves one vertex
//! from the others.

use crate::graph::tally::{
    lemma_tally_alike, lemma_tally_insert, lemma_tally_push, lemma_tally_rest, lemma_tally_take,
    lemma_tally_two, lemma_tally_update, tally,
};
use vstd::prelude::*;

verus! {

/// The demand of one vertex that is still open: how many edge ends it has to
/// give and how many to take. A directed construction gives out-degree and
/// takes in-degree; an undirected one only gives.
#[derive(Clone, Copy)]
pub struct Quota {
    pub give: usize,
    pub take: usize,
    pub vertex: usize,
}

/// Whether the selection `sel` covers the vertex `v`: `None` covers all.
pub open spec fn picks(sel: Option<usize>, v: usize) -> bool {
    sel matches Some(only) ==> only == v
}

/// What a quota of a selected vertex has to give.
pub open spec fn gives(sel: Option<usize>) -> spec_fn(Quota) -> nat {
    |q: Quota|
        if picks(sel, q.vertex) {
            q.give as nat
        } else {
            0
        }
}

/// What a quota of a selected vertex has to take.
pub open spec fn takes(sel: Option<usize>) -> spec_fn(Quota) -> nat {
    |q: Quota|
        if picks(sel, q.vertex) {
            q.take as nat
        } else {
            0
        }
}

/// One for a selected vertex.
pub open spec fn hits(sel: Option<usize>) -> spec_fn(usize) -> nat {
    |v: usize|
        if picks(sel, v) {
            1nat
        } else {
            0nat
        }
}

/// One for a quota of a selected vertex.
pub open spec fn stands(sel: Option<usize>) -> spec_fn(Quota) -> nat {
    |q: Quota|
        if picks(sel, q.vertex) {
            1nat
        } else {
            0nat
        }
}

/// No vertex has two quotas.
pub open spec fn distinct(s: Seq<Quota>) -> bool {
    forall|v: usize| #[trigger] tally(s, stands(Some(v))) <= 1
}

/// Quotas of which no vertex has two have different vertices.
pub proof fn lemma_distinct_apart(s: Seq<Quota>, i: int, j: int)
    requires
        distinct(s),
        0 <= i < s.len(),
        0 <= j < s.len(),
        i != j,
    ensures
        s[i].vertex != s[j].vertex,
{
    let v = s[i].vertex;
    assert(tally(s, stands(Some(v))) <= 1);
    if i < j {
        lemma_tally_two(s, stands(Some(v)), i, j);
    } else {
        lemma_tally_two(s, stands(Some(v)), j, i);
    }
}

/// Whether `a` may stand before `b`: it has at least as much to give, and
/// with as much to give at least as much to take.
pub open spec fn before(a: Quota, b: Quota) -> bool {
    a.give > b.give || (a.give == b.give && a.take >= b.take)
}

/// Where `q` goes in `s`: right behind the last quota that may stand before
/// it.
pub open spec fn slot(s: Seq<Quota>, q: Quota) -> int
    decreases s.len(),
{
    if s.len() == 0 {
        0
    } else if before(s.last(), q) {
        s.len() as int
    } else {
        slot(s.drop_last(), q)
    }
}

/// `s` in descending order, largest demand first; quotas of which neither is
/// larger keep the order they had.
pub open spec fn sorted_desc(s: Seq<Quota>) -> Seq<Quota>
    decreases s.len(),
{
    if s.len() == 0 {
        s
    } else {
        let front = sorted_desc(s.drop_last());
        front.insert(slot(front, s.last()), s.last())
    }
}

/// The place of a quota lies within the sequence, behind a quota that may
/// stand before it and before all that may not.
pub proof fn lemma_slot_bounds(s: Seq<Quota>, q: Quota)
    ensures
        0 <= slot(s, q) <= s.len(),
        forall|k: int| slot(s, q) <= k < s.len() ==> !before(#[trigger] s[k], q),
        slot(s, q) > 0 ==> before(s[slot(s, q) - 1], q),
    decreases s.len(),
{
    if s.len() > 0 && !before(s.last(), q) {
        lemma_slot_bounds(s.drop_last(), q);
        assert forall|k: int| slot(s, q) <= k < s.len() implies !before(#[trigger] s[k], q) by {
            if k < s.len() - 1 {
                assert(s.drop_last()[k] == s[k]);
            }
        }
    }
}

/// Sorting keeps the length and every sum.
pub proof fn lemma_sorted_desc_tally(s: Seq<Quota>, f: spec_fn(Quota) -> nat)
    ensures
        sorted_desc(s).len() == s.len(),
        tally(sorted_desc(s), f) == tally(s, f),
    decreases s.len(),
{
    if s.len() > 0 {
        let front = sorted_desc(s.drop_last());
        lemma_sorted_desc_tally(s.drop_last(), f);
        lemma_slot_bounds(front, s.last());
        lemma_tally_insert(front, slot(front, s.last()), s.last(), f);
    }
}

/// Sorting brings in no vertex.
pub proof fn lemma_sorted_desc_within(s: Seq<Quota>, n: int)
    requires
        forall|k: int| 0 <= k < s.len() ==> (#[trigger] s[k]).vertex < n,
    ensures
        forall|k: int|
            0 <= k < sorted_desc(s).len() ==> (#[trigger] sorted_desc(s)[k]).vertex < n,
    decreases s.len(),
{
    if s.len() > 0 {
        let front = s.drop_last();
        assert forall|k: int| 0 <= k < front.len() implies (#[trigger] front[k]).vertex < n by {
            assert(front[k] == s[k]);
        }
        lemma_sorted_desc_within(front, n);
        lemma_slot_bounds(sorted_desc(front), s.last());
        assert(s[s.len() - 1].vertex < n);
    }
}

/// The result of sorting is in descending order.
pub proof fn lemma_sorted_desc_ordered(s: Seq<Quota>)
    ensures
        forall|i: int, j: int|
            0 <= i < j < sorted_desc(s).len() ==> before(
                #[trigger] sorted_desc(s)[i],
                #[trigger] sorted_desc(s)[j],
            ),
    decreases s.len(),
{
    if s.len() > 0 {
        let front = sorted_desc(s.drop_last());
        let q = s.last();
        let at = slot(front, q);
        lemma_sorted_desc_ordered(s.drop_last());
        lemma_slot_bounds(front, q);
        let r = front.insert(at, q);
        assert forall|i: int, j: int| 0 <= i < j < r.len() implies before(
            #[trigger] r[i],
            #[trigger] r[j],
        ) by {
            if j < at {
                assert(r[i] == front[i] && r[j] == front[j]);
            } else if j == at {
                assert(r[i] == front[i]);
                if i < at - 1 {
                    assert(before(front[i], front[at - 1]));
                }
            } else if i < at {
                assert(r[i] == front[i] && r[j] == front[j - 1]);
            } else if i == at {
                assert(r[j] == front[j - 1]);
                assert(!before(front[j - 1], q));
            } else {
                assert(r[i] == front[i - 1] && r[j] == front[j - 1]);
            }
        }
    }
}

/// Whether `a` may stand before `b`.
pub fn may_precede(a: &Quota, b: &Quota) -> (r: bool)
    ensures
        r == before(*a, *b),
{
    a.give > b.give || (a.give == b.give && a.take >= b.take)
}

/// Sorts the quotas in descending order, largest demand first, and keeps the
/// order of those of which neither is larger.
pub fn sort_quotas(quotas: &mut Vec<Quota>)
    ensures
        final(quotas)@ == sorted_desc(old(quotas)@),
{
    let mut sorted: Vec<Quota> = Vec::new();
    let mut i: usize = 0;
    assert(quotas@.take(0) =~= Seq::<Quota>::empty());
    while i < quotas.len()
        invariant
            i <= quotas.len(),
            sorted@ == sorted_desc(quotas@.take(i as int)),
            sorted@.len() == i,
        decreases quotas.len() - i,
    {
        let q = quotas[i];
        let mut at: usize = sorted.len();
        assert(sorted@.take(at as int) =~= sorted@);
        while at > 0 && !may_precede(&sorted[at - 1], &q)
            invariant
                at <= sorted.len(),
                slot(sorted@, q) == slot(sorted@.take(at as int), q),
            decreases at,
        {
            assert(sorted@.take(at as int).drop_last() =~= sorted@.take(at - 1));
            at -= 1;
        }
        proof {
            let next = quotas@.take(i + 1);
            assert(next.drop_last() =~= quotas@.take(i as int));
            assert(next.last() == q);
        }
        sorted.insert(at, q);
        i += 1;
    }
    assert(quotas@.take(i as int) =~= quotas@);
    *quotas = sorted;
}

/// The outcome of a pass: the quotas after it, the vertices that gave, one
/// item for each unit, and the units that nobody could give.
pub struct Fed {
    pub quotas: Seq<Quota>,
    pub donors: Seq<usize>,
    pub missing: nat,
}

/// The greedy pass that collects `need` units. It walks the quotas from
/// position `j` on and takes one unit from each that has something to give
/// and is not barred. With repeated edges a quota is taken from until it is
/// empty, without them once.
pub open spec fn feed(
    quotas: Seq<Quota>,
    donors: Seq<usize>,
    j: int,
    need: nat,
    barred: Option<usize>,
    repeated: bool,
) -> Fed
    decreases quotas.len() - j, need,
{
    if need == 0 || j < 0 || j >= quotas.len() {
        Fed { quotas, donors, missing: need }
    } else if quotas[j].give == 0 || barred == Some(quotas[j].vertex) {
        feed(quotas, donors, j + 1, need, barred, repeated)
    } else {
        feed(
            quotas.update(j, Quota { give: (quotas[j].give - 1) as usize, ..quotas[j] }),
            donors.push(quotas[j].vertex),
            if repeated {
                j
            } else {
                j + 1
            },
            (need - 1) as nat,
            barred,
            repeated,
        )
    }
}

/// What a pass keeps and what it moves: every unit that leaves a quota
/// appears as a donor, nothing else changes, and a barred vertex gives
/// nothing.
pub proof fn lemma_feed(
    quotas: Seq<Quota>,
    donors: Seq<usize>,
    j: int,
    need: nat,
    barred: Option<usize>,
    repeated: bool,
    sel: Option<usize>,
    n: int,
)
    ensures
        ({
            let fed = feed(quotas, donors, j, need, barred, repeated);
            &&& fed.quotas.len() == quotas.len()
            &&& forall|k: int|
                0 <= k < quotas.len() ==> (#[trigger] fed.quotas[k]).vertex == quotas[k].vertex
                    && fed.quotas[k].take == quotas[k].take && fed.quotas[k].give
                    <= quotas[k].give
            &&& fed.donors.len() + fed.missing == donors.len() + need
            &&& tally(fed.donors, hits(sel)) + tally(fed.quotas, gives(sel)) == tally(
                donors,
                hits(sel),
            ) + tally(quotas, gives(sel))
            &&& (forall|k: int| 0 <= k < donors.len() ==> Some(#[trigger] donors[k]) != barred)
                ==> (forall|k: int|
                0 <= k < fed.donors.len() ==> Some(#[trigger] fed.donors[k]) != barred)
            &&& (forall|k: int| 0 <= k < donors.len() ==> (#[trigger] donors[k]) < n) && (forall|
                k: int,
            |
                0 <= k < quotas.len() ==> (#[trigger] quotas[k]).vertex < n) ==> (forall|k: int|
                0 <= k < fed.donors.len() ==> (#[trigger] fed.donors[k]) < n)
        }),
    decreases quotas.len() - j, need,
{
    if need == 0 || j < 0 || j >= quotas.len() {
    } else if quotas[j].give == 0 || barred == Some(quotas[j].vertex) {
        lemma_feed(quotas, donors, j + 1, need, barred, repeated, sel, n);
    } else {
        let less = Quota { give: (quotas[j].give - 1) as usize, ..quotas[j] };
        let next = quotas.update(j, less);
        let more = donors.push(quotas[j].vertex);
        lemma_feed(
            next,
            more,
            if repeated {
                j
            } else {
                j + 1
            },
            (need - 1) as nat,
            barred,
            repeated,
            sel,
            n,
        );
        lemma_tally_update(quotas, j, less, gives(sel));
        lemma_tally_push(donors, quotas[j].vertex, hits(sel));
    }
}

/// Without repeated edges a pass takes from a vertex no more often than the
/// vertex has quotas.
pub proof fn lemma_feed_once(
    quotas: Seq<Quota>,
    donors: Seq<usize>,
    j: int,
    need: nat,
    barred: Option<usize>,
    v: usize,
)
    requires
        0 <= j,
        tally(donors, hits(Some(v))) <= tally(
            quotas.take(if j <= quotas.len() {
                j
            } else {
                quotas.len() as int
            }),
            stands(Some(v)),
        ),
    ensures
        tally(feed(quotas, donors, j, need, barred, false).donors, hits(Some(v))) <= tally(
            quotas,
            stands(Some(v)),
        ),
    decreases quotas.len() - j, need,
{
    if j >= quotas.len() {
        assert(quotas.take(quotas.len() as int) =~= quotas);
    } else {
        lemma_tally_take(quotas, stands(Some(v)), j);
        if need == 0 {
            lemma_tally_rest(quotas, stands(Some(v)), j);
        } else if quotas[j].give == 0 || barred == Some(quotas[j].vertex) {
            lemma_feed_once(quotas, donors, j + 1, need, barred, v);
        } else {
            let less = Quota { give: (quotas[j].give - 1) as usize, ..quotas[j] };
            let next = quotas.update(j, less);
            let more = donors.push(quotas[j].vertex);
            lemma_tally_push(donors, quotas[j].vertex, hits(Some(v)));
            lemma_tally_alike(next.take(j + 1), stands(Some(v)), quotas.take(j + 1), stands(Some(v)));
            lemma_tally_alike(next, stands(Some(v)), quotas, stands(Some(v)));
            lemma_feed_once(next, more, j + 1, (need - 1) as nat, barred, v);
        }
    }
}

/// Collects `need` units from the quotas, from position `start` on, and
/// returns the vertices that gave, one item for each unit, and the number of
/// units that are missing.
pub fn feed_from(
    quotas: &mut Vec<Quota>,
    start: usize,
    need: usize,
    barred: Option<usize>,
    repeated: bool,
) -> (served: (Vec<usize>, usize))
    ensures
        ({
            let fed = feed(
                old(quotas)@,
                Seq::empty(),
                start as int,
                need as nat,
                barred,
                repeated,
            );
            &&& final(quotas)@ == fed.quotas
            &&& served.0@ == fed.donors
            &&& served.1 == fed.missing
        }),
{
    let mut donors: Vec<usize> = Vec::new();
    let mut missing = need;
    let mut j = start;
    while missing > 0 && j < quotas.len()
        invariant
            feed(quotas@, donors@, j as int, missing as nat, barred, repeated) == feed(
                old(quotas)@,
                Seq::empty(),
                start as int,
                need as nat,
                barred,
                repeated,
            ),
        decreases quotas.len() - j, missing,
    {
        let q = quotas[j];
        let is_barred = match barred {
            Some(vertex) => vertex == q.vertex,
            None => false,
        };
        if q.give == 0 || is_barred {
            j += 1;
        } else {
            quotas.set(j, Quota { give: q.give - 1, take: q.take, vertex: q.vertex });
            donors.push(q.vertex);
            missing -= 1;
            if !repeated {
                j += 1;
            }
        }
    }
    (donors, missing)
}

/// The quotas that still have something to give, in their order.
pub open spec fn givers(s: Seq<Quota>) -> Seq<Quota>
    decreases s.len(),
{
    if s.len() == 0 {
        s
    } else if s.last().give > 0 {
        givers(s.drop_last()).push(s.last())
    } else {
        givers(s.drop_last())
    }
}

/// Dropping the quotas that give nothing drops at least one where there is
/// one, keeps what is given, and adds to no sum.
pub proof fn lemma_givers(s: Seq<Quota>, sel: Option<usize>, f: spec_fn(Quota) -> nat, n: int)
    ensures
        givers(s).len() <= s.len(),
        (exists|k: int| 0 <= k < s.len() && (#[trigger] s[k]).give == 0) ==> givers(s).len()
            < s.len(),
        tally(givers(s), gives(sel)) == tally(s, gives(sel)),
        tally(givers(s), f) <= tally(s, f),
        (forall|k: int| 0 <= k < s.len() ==> (#[trigger] s[k]).vertex < n) ==> (forall|k: int|
            0 <= k < givers(s).len() ==> (#[trigger] givers(s)[k]).vertex < n),
    decreases s.len(),
{
    if s.len() > 0 {
        let front = s.drop_last();
        lemma_givers(front, sel, f, n);
        if s.last().give > 0 {
            lemma_tally_push(givers(front), s.last(), gives(sel));
            lemma_tally_push(givers(front), s.last(), f);
        }
        if exists|k: int| 0 <= k < s.len() && (#[trigger] s[k]).give == 0 {
            let k = choose|k: int| 0 <= k < s.len() && (#[trigger] s[k]).give == 0;
            if k < s.len() - 1 {
                assert(front[k].give == 0);
            }
        }
        if forall|k: int| 0 <= k < s.len() ==> (#[trigger] s[k]).vertex < n {
            assert forall|k: int| 0 <= k < front.len() implies (#[trigger] front[k]).vertex
                < n by {
                assert(front[k] == s[k]);
            }
            assert(s[s.len() - 1].vertex < n);
        }
    }
}

/// What only quotas with nothing to give carry is gone once these are
/// dropped.
pub proof fn lemma_givers_zero(s: Seq<Quota>, f: spec_fn(Quota) -> nat)
    requires
        forall|k: int| 0 <= k < s.len() && (#[trigger] s[k]).give > 0 ==> f(s[k]) == 0,
    ensures
        tally(givers(s), f) == 0,
    decreases s.len(),
{
    if s.len() > 0 {
        let front = s.drop_last();
        assert forall|k: int| 0 <= k < front.len() && (#[trigger] front[k]).give > 0 implies f(
            front[k],
        ) == 0 by {
            assert(front[k] == s[k]);
        }
        lemma_givers_zero(front, f);
        if s.last().give > 0 {
            lemma_tally_push(givers(front), s.last(), f);
            assert(f(s[s.len() - 1]) == 0);
        }
    }
}

/// Keeps the quotas that still have something to give.
pub fn keep_givers(quotas: &mut Vec<Quota>)
    ensures
        final(quotas)@ == givers(old(quotas)@),
{
    let mut kept: Vec<Quota> = Vec::new();
    let mut i: usize = 0;
    assert(quotas@.take(0) =~= Seq::<Quota>::empty());
    while i < quotas.len()
        invariant
            i <= quotas.len(),
            kept@ == givers(quotas@.take(i as int)),
        decreases quotas.len() - i,
    {
        proof {
            let next = quotas@.take(i + 1);
            assert(next.drop_last() =~= quotas@.take(i as int));
            assert(next.last() == quotas@[i as int]);
        }
        if quotas[i].give > 0 {
            kept.push(quotas[i]);
        }
        i += 1;
    }
    assert(quotas@.take(i as int) =~= quotas@);
    *quotas = kept;
}

} // verus!
