//! One edge of a generated graph, with an optional weight.

use vstd::prelude::*;

verus! {

/// An edge from `u` to `v`; `weighted` says whether `w` carries a weight.
#[derive(Clone, Copy)]
pub struct Edge {
    u: usize,
    v: usize,
    w: i64,
    weighted: bool,
}

impl Edge {
    /// First endpoint.
    pub closed spec fn source(&self) -> usize {
        self.u
    }

    /// Second endpoint.
    pub closed spec fn target(&self) -> usize {
        self.v
    }

    /// The weight, if the edge has one.
    pub closed spec fn weight(&self) -> Option<i64> {
        if self.weighted {
            Some(self.w)
        } else {
            None
        }
    }

    /// An edge is unweighted exactly when it stores the weight zero unmarked.
    pub closed spec fn wf(&self) -> bool {
        !self.weighted ==> self.w == 0
    }

    /// The edge from `u` to `v` with the weight `w`, if any.
    pub closed spec fn of(u: usize, v: usize, w: Option<i64>) -> Edge {
        match w {
            Some(w) => Edge { u, v, w, weighted: true },
            None => Edge { u, v, w: 0, weighted: false },
        }
    }

    /// What the parts of an edge are.
    pub proof fn lemma_of(u: usize, v: usize, w: Option<i64>)
        ensures
            Edge::of(u, v, w).wf(),
            Edge::of(u, v, w).source() == u,
            Edge::of(u, v, w).target() == v,
            Edge::of(u, v, w).weight() == w,
    {
    }

    pub fn new(u: usize, v: usize, w: Option<i64>) -> (e: Edge)
        ensures
            e == Edge::of(u, v, w),
            e.wf(),
            e.source() == u,
            e.target() == v,
            e.weight() == w,
    {
        if let Some(w) = w {
            Edge { u, v, w, weighted: true }
        } else {
            Edge { u, v, w: 0, weighted: false }
        }
    }

    /// Both endpoints, the weight dropped.
    pub fn endpoints(&self) -> (p: (usize, usize))
        ensures
            p == (self.source(), self.target()),
    {
        (self.u, self.v)
    }

    /// The weight of a weighted edge.
    pub fn get_weight(&self) -> (w: Option<i64>)
        ensures
            w == self.weight(),
    {
        if self.weighted {
            Some(self.w)
        } else {
            None
        }
    }
}

impl From<Edge> for (usize, usize) {
    fn from(edge: Edge) -> (pair: (usize, usize)) {
        (edge.u, edge.v)
    }
}

impl vstd::std_specs::convert::FromSpecImpl<Edge> for (usize, usize) {
    open spec fn obeys_from_spec() -> bool {
        true
    }

    open spec fn from_spec(edge: Edge) -> (usize, usize) {
        (edge.source(), edge.target())
    }
}

impl From<(usize, usize)> for Edge {
    fn from(pair: (usize, usize)) -> (e: Edge) {
        Edge { u: pair.0, v: pair.1, w: 0, weighted: false }
    }
}

impl vstd::std_specs::convert::FromSpecImpl<(usize, usize)> for Edge {
    open spec fn obeys_from_spec() -> bool {
        true
    }

    open spec fn from_spec(pair: (usize, usize)) -> Edge {
        Edge::of(pair.0, pair.1, None)
    }
}

impl From<(u64, u64)> for Edge {
    fn from(pair: (u64, u64)) -> (e: Edge) {
        Edge {
            u: #[verifier::truncate]
            (pair.0 as usize),
            v: #[verifier::truncate]
            (pair.1 as usize),
            w: 0,
            weighted: false,
        }
    }
}

impl vstd::std_specs::convert::FromSpecImpl<(u64, u64)> for Edge {
    open spec fn obeys_from_spec() -> bool {
        true
    }

    open spec fn from_spec(pair: (u64, u64)) -> Edge {
        Edge::of(pair.0 as usize, pair.1 as usize, None)
    }
}

impl From<(u32, u32)> for Edge {
    fn from(pair: (u32, u32)) -> (e: Edge) {
        Edge {
            u: #[verifier::truncate]
            (pair.0 as usize),
            v: #[verifier::truncate]
            (pair.1 as usize),
            w: 0,
            weighted: false,
        }
    }
}

impl vstd::std_specs::convert::FromSpecImpl<(u32, u32)> for Edge {
    open spec fn obeys_from_spec() -> bool {
        true
    }

    open spec fn from_spec(pair: (u32, u32)) -> Edge {
        Edge::of(pair.0 as usize, pair.1 as usize, None)
    }
}

impl From<(isize, isize)> for Edge {
    fn from(pair: (isize, isize)) -> (e: Edge) {
        Edge {
            u: #[verifier::truncate]
            (pair.0 as usize),
            v: #[verifier::truncate]
            (pair.1 as usize),
            w: 0,
            weighted: false,
        }
    }
}

impl vstd::std_specs::convert::FromSpecImpl<(isize, isize)> for Edge {
    open spec fn obeys_from_spec() -> bool {
        true
    }

    open spec fn from_spec(pair: (isize, isize)) -> Edge {
        Edge::of(pair.0 as usize, pair.1 as usize, None)
    }
}

impl From<(i64, i64)> for Edge {
    fn from(pair: (i64, i64)) -> (e: Edge) {
        Edge {
            u: #[verifier::truncate]
            (pair.0 as usize),
            v: #[verifier::truncate]
            (pair.1 as usize),
            w: 0,
            weighted: false,
        }
    }
}

impl vstd::std_specs::convert::FromSpecImpl<(i64, i64)> for Edge {
    open spec fn obeys_from_spec() -> bool {
        true
    }

    open spec fn from_spec(pair: (i64, i64)) -> Edge {
        Edge::of(pair.0 as usize, pair.1 as usize, None)
    }
}

impl From<(i32, i32)> for Edge {
    fn from(pair: (i32, i32)) -> (e: Edge) {
        Edge {
            u: #[verifier::truncate]
            (pair.0 as usize),
            v: #[verifier::truncate]
            (pair.1 as usize),
            w: 0,
            weighted: false,
        }
    }
}

impl vstd::std_specs::convert::FromSpecImpl<(i32, i32)> for Edge {
    open spec fn obeys_from_spec() -> bool {
        true
    }

    open spec fn from_spec(pair: (i32, i32)) -> Edge {
        Edge::of(pair.0 as usize, pair.1 as usize, None)
    }
}

} // verus!
