//! The mathematical model of an edge multiset: a map from ordered vertex
//! pairs to the number of parallel copies, with the sums that define degrees.

use vstd::prelude::*;

verus! {

/// Number of copies of the ordered pair `(u, v)`; absent pairs count zero.
pub open spec fn multiplicity(m: Map<(int, int), nat>, u: int, v: int) -> nat {
    if m.contains_key((u, v)) {
        m[(u, v)]
    } else {
        0
    }
}

/// One more copy of the ordered pair `(u, v)`.
pub open spec fn add_one(m: Map<(int, int), nat>, u: int, v: int) -> Map<(int, int), nat> {
    m.insert((u, v), multiplicity(m, u, v) + 1)
}

/// One copy less of the ordered pair `(u, v)`; the entry disappears with its
/// last copy, and a pair that is not stored leaves the map as it is.
pub open spec fn take_one(m: Map<(int, int), nat>, u: int, v: int) -> Map<(int, int), nat> {
    if multiplicity(m, u, v) <= 1 {
        m.remove((u, v))
    } else {
        m.insert((u, v), (multiplicity(m, u, v) - 1) as nat)
    }
}

/// The edge `u - v` added: for an undirected store both orientations are
/// counted, a self-loop once.
pub open spec fn with_edge(m: Map<(int, int), nat>, directed: bool, u: int, v: int) -> Map<
    (int, int),
    nat,
> {
    if directed || u == v {
        add_one(m, u, v)
    } else {
        add_one(add_one(m, u, v), v, u)
    }
}

/// The edge `u - v` removed, mirroring `with_edge`.
pub open spec fn without_edge(m: Map<(int, int), nat>, directed: bool, u: int, v: int) -> Map<
    (int, int),
    nat,
> {
    if directed || u == v {
        take_one(m, u, v)
    } else {
        take_one(take_one(m, u, v), v, u)
    }
}

/// The store that holds exactly the edges of `edges`, inserted in order.
pub open spec fn from_edges(edges: Seq<(int, int)>, directed: bool) -> Map<(int, int), nat>
    decreases edges.len(),
{
    if edges.len() == 0 {
        Map::empty()
    } else {
        with_edge(from_edges(edges.drop_last(), directed), directed, edges.last().0, edges.last().1)
    }
}

/// The form in which an edge is drawn for a switch: as stored for a directed
/// store, smaller endpoint first for an undirected one.
pub open spec fn normal_form(e: (int, int), directed: bool) -> (int, int) {
    if directed || e.0 <= e.1 {
        e
    } else {
        (e.1, e.0)
    }
}

/// `list` holds one item for each entry of `m`, the entries taken in the
/// order of `pairs`: the pair in normal form and its multiplicity.
pub open spec fn lists_entries(
    m: Map<(int, int), nat>,
    directed: bool,
    list: Seq<((usize, usize), usize)>,
    pairs: Seq<(int, int)>,
) -> bool {
    &&& pairs.no_duplicates()
    &&& pairs.len() == list.len()
    &&& forall|e: (int, int)| m.contains_key(e) <==> pairs.contains(e)
    &&& forall|i: int|
        0 <= i < list.len() ==> {
            let n = normal_form(pairs[i], directed);
            &&& (#[trigger] list[i]).0.0 == n.0
            &&& list[i].0.1 == n.1
            &&& list[i].1 == m[pairs[i]]
        }
}

/// Every stored pair has both endpoints in `0..n`.
pub open spec fn spans(m: Map<(int, int), nat>, n: int) -> bool {
    forall|u: int, v: int| #[trigger] m.contains_key((u, v)) ==> 0 <= u < n && 0 <= v < n
}

/// What every store maintains: no entry counts zero, and an undirected store
/// holds each edge in both orientations with the same count.
pub open spec fn valid_counts(m: Map<(int, int), nat>, directed: bool) -> bool {
    &&& forall|u: int, v: int| #[trigger] m.contains_key((u, v)) ==> m[(u, v)] > 0
    &&& !directed ==> forall|u: int, v: int|
        #[trigger] multiplicity(m, u, v) == multiplicity(m, v, u)
}

/// Copies leaving `u` towards the vertices `0..n`.
pub open spec fn row_sum(m: Map<(int, int), nat>, u: int, n: int) -> nat
    decreases n,
{
    if n <= 0 {
        0
    } else {
        row_sum(m, u, n - 1) + multiplicity(m, u, n - 1)
    }
}

/// Copies arriving at `v` from the vertices `0..n`.
pub open spec fn col_sum(m: Map<(int, int), nat>, v: int, n: int) -> nat
    decreases n,
{
    if n <= 0 {
        0
    } else {
        col_sum(m, v, n - 1) + multiplicity(m, n - 1, v)
    }
}

/// Out-degree of `u` in a store over the vertices `0..n`.
pub open spec fn out_degree(m: Map<(int, int), nat>, u: int, n: int) -> nat {
    row_sum(m, u, n)
}

/// In-degree of `v` in a store over the vertices `0..n`.
pub open spec fn in_degree(m: Map<(int, int), nat>, v: int, n: int) -> nat {
    col_sum(m, v, n)
}

/// Degree of `v` in an undirected store over the vertices `0..n`: the copies
/// in its row, a self-loop counted twice.
pub open spec fn degree(m: Map<(int, int), nat>, v: int, n: int) -> nat {
    row_sum(m, v, n) + multiplicity(m, v, v)
}

/// Sum of the out-degrees of the vertices `0..k`, which for a directed store
/// with `k == n` is its number of edges.
pub open spec fn out_degree_total(m: Map<(int, int), nat>, k: int, n: int) -> nat
    decreases k,
{
    if k <= 0 {
        0
    } else {
        out_degree_total(m, k - 1, n) + out_degree(m, k - 1, n)
    }
}

/// Sum of the degrees of the vertices `0..k` of an undirected store, which
/// with `k == n` is twice its number of edges.
pub open spec fn degree_total(m: Map<(int, int), nat>, k: int, n: int) -> nat
    decreases k,
{
    if k <= 0 {
        0
    } else {
        degree_total(m, k - 1, n) + degree(m, k - 1, n)
    }
}

/// Number of edges of a store over the vertices `0..n`.
pub open spec fn edge_total(m: Map<(int, int), nat>, directed: bool, n: int) -> nat {
    if directed {
        out_degree_total(m, n, n)
    } else {
        degree_total(m, n, n) / 2
    }
}

/// How `with_edge` changes each multiplicity, and that it keeps a store valid.
pub proof fn lemma_with_edge(m: Map<(int, int), nat>, directed: bool, u: int, v: int)
    requires
        valid_counts(m, directed),
    ensures
        valid_counts(with_edge(m, directed, u, v), directed),
        forall|a: int, b: int| #[trigger]
            multiplicity(with_edge(m, directed, u, v), a, b) == multiplicity(m, a, b) + (if (a, b)
                == (u, v) || (!directed && (a, b) == (v, u)) {
                1nat
            } else {
                0nat
            }),
{
    let r = with_edge(m, directed, u, v);
    assert forall|a: int, b: int| #[trigger]
        multiplicity(r, a, b) == multiplicity(m, a, b) + (if (a, b) == (u, v) || (!directed && (
            a,
            b,
        ) == (v, u)) {
            1nat
        } else {
            0nat
        }) by {
        assert(multiplicity(m, a, b) == multiplicity(m, b, a) || directed);
    }
    if !directed {
        assert forall|a: int, b: int| #[trigger]
            multiplicity(r, a, b) == multiplicity(r, b, a) by {
            assert(multiplicity(m, a, b) == multiplicity(m, b, a));
        }
    }
}

/// How `without_edge` changes each multiplicity, and that it keeps a store
/// valid.
pub proof fn lemma_without_edge(m: Map<(int, int), nat>, directed: bool, u: int, v: int)
    requires
        valid_counts(m, directed),
    ensures
        valid_counts(without_edge(m, directed, u, v), directed),
        forall|a: int, b: int| #[trigger]
            multiplicity(without_edge(m, directed, u, v), a, b) == multiplicity(m, a, b) - (if
                multiplicity(m, u, v) > 0 && ((a, b) == (u, v) || (!directed && (a, b) == (v, u))) {
                1int
            } else {
                0int
            }),
{
    let r = without_edge(m, directed, u, v);
    assert(multiplicity(m, u, v) == multiplicity(m, v, u) || directed);
    assert forall|a: int, b: int| #[trigger]
        multiplicity(r, a, b) == multiplicity(m, a, b) - (if multiplicity(m, u, v) > 0 && ((a, b)
            == (u, v) || (!directed && (a, b) == (v, u))) {
            1int
        } else {
            0int
        }) by {
        assert(multiplicity(m, a, b) == multiplicity(m, b, a) || directed);
    }
    if !directed {
        assert forall|a: int, b: int| #[trigger]
            multiplicity(r, a, b) == multiplicity(r, b, a) by {
            assert(multiplicity(m, a, b) == multiplicity(m, b, a));
        }
    }
}

/// A store without entries has no degrees.
pub proof fn lemma_sums_empty(u: int, n: int)
    ensures
        row_sum(Map::<(int, int), nat>::empty(), u, n) == 0,
        col_sum(Map::<(int, int), nat>::empty(), u, n) == 0,
    decreases n,
{
    if n > 0 {
        lemma_sums_empty(u, n - 1);
    }
}

/// A row sum follows a change of one entry of that row.
pub proof fn lemma_row_sum_shift(
    a: Map<(int, int), nat>,
    b: Map<(int, int), nat>,
    u: int,
    at: int,
    delta: int,
    n: int,
)
    requires
        forall|v: int|
            v != at ==> #[trigger] multiplicity(b, u, v) == multiplicity(a, u, v),
        multiplicity(b, u, at) == multiplicity(a, u, at) + delta,
    ensures
        row_sum(b, u, n) == row_sum(a, u, n) + (if 0 <= at < n {
            delta
        } else {
            0
        }),
    decreases n,
{
    if n > 0 {
        lemma_row_sum_shift(a, b, u, at, delta, n - 1);
    }
}

/// A row sum does not see changes outside its row.
pub proof fn lemma_row_sum_same(a: Map<(int, int), nat>, b: Map<(int, int), nat>, u: int, n: int)
    requires
        forall|v: int| #[trigger] multiplicity(b, u, v) == multiplicity(a, u, v),
    ensures
        row_sum(b, u, n) == row_sum(a, u, n),
    decreases n,
{
    if n > 0 {
        lemma_row_sum_same(a, b, u, n - 1);
    }
}

/// A column sum follows a change of one entry of that column.
pub proof fn lemma_col_sum_shift(
    a: Map<(int, int), nat>,
    b: Map<(int, int), nat>,
    v: int,
    at: int,
    delta: int,
    n: int,
)
    requires
        forall|u: int|
            u != at ==> #[trigger] multiplicity(b, u, v) == multiplicity(a, u, v),
        multiplicity(b, at, v) == multiplicity(a, at, v) + delta,
    ensures
        col_sum(b, v, n) == col_sum(a, v, n) + (if 0 <= at < n {
            delta
        } else {
            0
        }),
    decreases n,
{
    if n > 0 {
        lemma_col_sum_shift(a, b, v, at, delta, n - 1);
    }
}

/// A column sum does not see changes outside its column.
pub proof fn lemma_col_sum_same(a: Map<(int, int), nat>, b: Map<(int, int), nat>, v: int, n: int)
    requires
        forall|u: int| #[trigger] multiplicity(b, u, v) == multiplicity(a, u, v),
    ensures
        col_sum(b, v, n) == col_sum(a, v, n),
    decreases n,
{
    if n > 0 {
        lemma_col_sum_same(a, b, v, n - 1);
    }
}

/// Every multiplicity is below `limit`.
pub open spec fn below(m: Map<(int, int), nat>, limit: int) -> bool {
    forall|u: int, v: int| #[trigger] multiplicity(m, u, v) < limit
}

/// Adding the edge `u - v` raises the out-degree of `u` and the in-degree of
/// `v`, in an undirected store the degree of each endpoint (a self-loop
/// counts twice), and nothing else.
pub proof fn lemma_with_edge_degrees(
    m: Map<(int, int), nat>,
    directed: bool,
    u: int,
    v: int,
    a: int,
    n: int,
)
    requires
        valid_counts(m, directed),
        0 <= u < n,
        0 <= v < n,
    ensures
        row_sum(with_edge(m, directed, u, v), a, n) == row_sum(m, a, n) + (if a == u {
            1nat
        } else {
            0nat
        }) + (if !directed && u != v && a == v {
            1nat
        } else {
            0nat
        }),
        col_sum(with_edge(m, directed, u, v), a, n) == col_sum(m, a, n) + (if a == v {
            1nat
        } else {
            0nat
        }) + (if !directed && u != v && a == u {
            1nat
        } else {
            0nat
        }),
        !directed ==> degree(with_edge(m, directed, u, v), a, n) == degree(m, a, n) + (if a == u {
            1nat
        } else {
            0nat
        }) + (if a == v {
            1nat
        } else {
            0nat
        }),
{
    let r = with_edge(m, directed, u, v);
    lemma_with_edge(m, directed, u, v);
    if a == u {
        lemma_row_sum_shift(m, r, a, v, 1, n);
    } else if !directed && a == v {
        lemma_row_sum_shift(m, r, a, u, 1, n);
    } else {
        lemma_row_sum_same(m, r, a, n);
    }
    if a == v {
        lemma_col_sum_shift(m, r, a, u, 1, n);
    } else if !directed && a == u {
        lemma_col_sum_shift(m, r, a, v, 1, n);
    } else {
        lemma_col_sum_same(m, r, a, n);
    }
}

/// Removing a stored edge `u - v` undoes what adding it did to the degrees;
/// removing one that is not stored changes nothing.
pub proof fn lemma_without_edge_degrees(
    m: Map<(int, int), nat>,
    directed: bool,
    u: int,
    v: int,
    a: int,
    n: int,
)
    requires
        valid_counts(m, directed),
        0 <= u < n,
        0 <= v < n,
    ensures
        multiplicity(m, u, v) == 0 ==> without_edge(m, directed, u, v) == m,
        multiplicity(m, u, v) > 0 ==> row_sum(without_edge(m, directed, u, v), a, n) == row_sum(
            m,
            a,
            n,
        ) - (if a == u {
            1int
        } else {
            0int
        }) - (if !directed && u != v && a == v {
            1int
        } else {
            0int
        }),
        multiplicity(m, u, v) > 0 ==> col_sum(without_edge(m, directed, u, v), a, n) == col_sum(
            m,
            a,
            n,
        ) - (if a == v {
            1int
        } else {
            0int
        }) - (if !directed && u != v && a == u {
            1int
        } else {
            0int
        }),
        !directed && multiplicity(m, u, v) > 0 ==> degree(without_edge(m, directed, u, v), a, n)
            == degree(m, a, n) - (if a == u {
            1int
        } else {
            0int
        }) - (if a == v {
            1int
        } else {
            0int
        }),
{
    let r = without_edge(m, directed, u, v);
    lemma_without_edge(m, directed, u, v);
    assert(multiplicity(m, u, v) == multiplicity(m, v, u) || directed);
    if multiplicity(m, u, v) == 0 {
        assert(r =~= m);
    } else {
        if a == u {
            lemma_row_sum_shift(m, r, a, v, -1, n);
        } else if !directed && a == v {
            lemma_row_sum_shift(m, r, a, u, -1, n);
        } else {
            lemma_row_sum_same(m, r, a, n);
        }
        if a == v {
            lemma_col_sum_shift(m, r, a, u, -1, n);
        } else if !directed && a == u {
            lemma_col_sum_shift(m, r, a, v, -1, n);
        } else {
            lemma_col_sum_same(m, r, a, n);
        }
    }
}

/// Adding or removing an edge between vertices of `0..n` keeps a store
/// within `0..n`.
pub proof fn lemma_edge_spans(m: Map<(int, int), nat>, directed: bool, u: int, v: int, n: int)
    requires
        spans(m, n),
        0 <= u < n,
        0 <= v < n,
    ensures
        spans(with_edge(m, directed, u, v), n),
        spans(without_edge(m, directed, u, v), n),
{
}

/// Two stores in which every vertex has the same degrees.
pub open spec fn same_degrees(
    a: Map<(int, int), nat>,
    b: Map<(int, int), nat>,
    directed: bool,
    n: int,
) -> bool {
    &&& directed ==> forall|u: int| #[trigger] out_degree(a, u, n) == out_degree(b, u, n)
    &&& directed ==> forall|u: int| #[trigger] in_degree(a, u, n) == in_degree(b, u, n)
    &&& !directed ==> forall|u: int| #[trigger] degree(a, u, n) == degree(b, u, n)
}

/// Stores with the same degrees have the same number of edges.
pub proof fn lemma_same_degrees_same_total(
    a: Map<(int, int), nat>,
    b: Map<(int, int), nat>,
    directed: bool,
    k: int,
    n: int,
)
    requires
        same_degrees(a, b, directed, n),
    ensures
        directed ==> out_degree_total(a, k, n) == out_degree_total(b, k, n),
        !directed ==> degree_total(a, k, n) == degree_total(b, k, n),
        k == n ==> edge_total(a, directed, n) == edge_total(b, directed, n),
    decreases k,
{
    if k > 0 {
        lemma_same_degrees_same_total(a, b, directed, k - 1, n);
        if directed {
            assert(out_degree(a, k - 1, n) == out_degree(b, k - 1, n));
        } else {
            assert(degree(a, k - 1, n) == degree(b, k - 1, n));
        }
    }
    if k == n && k <= 0 {
        assert(out_degree_total(a, k, n) == 0);
    }
}

} // verus!
