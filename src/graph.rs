//! The indicator dependency graph: a deduplicated arena of indicator nodes whose
//! insertion order is a valid evaluation order.
use crate::types::{Field, IndicatorId, IndicatorSpec};
use vstd::prelude::*;

verus! {

/// The primitive indicators a composite one reads, in the order it reads them.
pub open spec fn deps_of_spec(s: IndicatorSpec) -> Seq<IndicatorSpec> {
    match s {
        IndicatorSpec::Boll { period, .. } => seq![
            IndicatorSpec::Sma { field: Field::Close, period },
            IndicatorSpec::StdDev { field: Field::Close, period },
        ],
        IndicatorSpec::Macd { fast, slow, .. } => seq![
            IndicatorSpec::Ema { field: Field::Close, period: fast },
            IndicatorSpec::Ema { field: Field::Close, period: slow },
        ],
        _ => Seq::empty(),
    }
}

/// `v` with `s` appended unless it is already there.
pub open spec fn with_node(v: Seq<IndicatorSpec>, s: IndicatorSpec) -> Seq<IndicatorSpec> {
    if v.contains(s) {
        v
    } else {
        v.push(s)
    }
}

/// The node list after adding `s` to `v`: nothing changes when `s` is present; otherwise
/// its missing dependencies are appended first, then `s` itself.
pub open spec fn added(v: Seq<IndicatorSpec>, s: IndicatorSpec) -> Seq<IndicatorSpec> {
    if v.contains(s) {
        v
    } else {
        let d = deps_of_spec(s);
        if d.len() == 2 {
            with_node(with_node(v, d[0]), d[1]).push(s)
        } else {
            v.push(s)
        }
    }
}

/// No spec occurs twice.
pub open spec fn unique(v: Seq<IndicatorSpec>) -> bool {
    forall|i: int, j: int| 0 <= i < j < v.len() ==> v[i] != v[j]
}

/// Every composite's dependencies are present.
pub open spec fn closed(v: Seq<IndicatorSpec>) -> bool {
    forall|i: int, k: int|
        0 <= i < v.len() && 0 <= k < deps_of_spec(v[i]).len() ==> v.contains(
            #[trigger] deps_of_spec(v[i])[k],
        )
}

/// The id of the node for `s` in `v`, 1-based, or 0 when there is none.
pub open spec fn id_in(v: Seq<IndicatorSpec>, s: IndicatorSpec) -> int {
    if v.contains(s) {
        (choose|i: int| 0 <= i < v.len() && v[i] == s) + 1
    } else {
        0
    }
}

#[derive(Debug)]
pub struct IndicatorGraph {
    capacity: usize,
    specs: Vec<IndicatorSpec>,
    deps: Vec<Vec<IndicatorId>>,
}

impl View for IndicatorGraph {
    type V = Seq<IndicatorSpec>;

    /// The node specs in insertion order; node `i` has id `i + 1`.
    closed spec fn view(&self) -> Seq<IndicatorSpec> {
        self.specs@
    }
}

pub proof fn lemma_id_unique(v: Seq<IndicatorSpec>, s: IndicatorSpec, i: int)
    requires
        unique(v),
        0 <= i < v.len(),
        v[i] == s,
    ensures
        id_in(v, s) == i + 1,
{
    assert(v.contains(s));
}

proof fn lemma_with_node(v: Seq<IndicatorSpec>, s: IndicatorSpec)
    requires
        unique(v),
    ensures
        unique(with_node(v, s)),
        with_node(v, s).contains(s),
        forall|x: IndicatorSpec| v.contains(x) ==> with_node(v, s).contains(x),
        v.is_prefix_of(with_node(v, s)),
{
    if !v.contains(s) {
        assert(v.push(s)[v.len() as int] == s);
        assert forall|x: IndicatorSpec| v.contains(x) implies v.push(s).contains(x) by {
            let k = choose|k: int| 0 <= k < v.len() && v[k] == x;
            assert(v.push(s)[k] == x);
        }
    }
}

impl IndicatorGraph {
    /// The output length each node keeps.
    pub closed spec fn cap(&self) -> nat {
        self.capacity as nat
    }

    /// The ids of the nodes that node `i` (0-based) reads.
    pub closed spec fn deps_at(&self, i: int) -> Seq<IndicatorId> {
        self.deps@[i]@
    }

    pub closed spec fn wf(&self) -> bool {
        &&& unique(self.specs@)
        &&& self.specs@.len() <= u32::MAX
        &&& self.deps@.len() == self.specs@.len()
        &&& forall|i: int|
            0 <= i < self.specs@.len() ==> {
                let d = deps_of_spec(#[trigger] self.specs@[i]);
                &&& self.deps@[i]@.len() == d.len()
                &&& forall|k: int|
                    0 <= k < d.len() ==> {
                        let id = (#[trigger] self.deps@[i]@[k]).0 as int;
                        &&& 1 <= id <= i
                        &&& self.specs@[id - 1] == d[k]
                    }
            }
    }

    /// A well-formed graph holds each spec once, with its dependencies.
    pub proof fn lemma_wf_view(&self)
        requires
            self.wf(),
        ensures
            unique(self@),
            closed(self@),
    {
        assert forall|i: int, k: int|
            0 <= i < self@.len() && 0 <= k < deps_of_spec(self@[i]).len() implies self@.contains(
            #[trigger] deps_of_spec(self@[i])[k],
        ) by {
            let id = self.deps@[i]@[k].0 as int;
            assert(self@[id - 1] == deps_of_spec(self@[i])[k]);
        }
    }

    pub fn new(capacity: usize) -> (r: Self)
        ensures
            r.wf(),
            r@ == Seq::<IndicatorSpec>::empty(),
            r.cap() == capacity,
    {
        IndicatorGraph { capacity, specs: Vec::new(), deps: Vec::new() }
    }

    pub fn capacity(&self) -> (r: usize)
        ensures
            r == self.cap(),
    {
        self.capacity
    }

    /// Number of nodes.
    pub fn len(&self) -> (r: usize)
        ensures
            r == self@.len(),
    {
        self.specs.len()
    }

    /// The id of the node for `spec`, if there is one.
    pub fn find(&self, spec: &IndicatorSpec) -> (r: Option<IndicatorId>)
        requires
            self.wf(),
        ensures
            r == (if self@.contains(*spec) {
                Some(IndicatorId(id_in(self@, *spec) as u32))
            } else {
                None::<IndicatorId>
            }),
    {
        let mut i: usize = 0;
        while i < self.specs.len()
            invariant
                self.wf(),
                0 <= i <= self.specs@.len(),
                forall|j: int| 0 <= j < i ==> self.specs@[j] != *spec,
            decreases self.specs@.len() - i,
        {
            if self.specs[i] == *spec {
                proof {
                    lemma_id_unique(self.specs@, *spec, i as int);
                }
                return Some(IndicatorId((i + 1) as u32));
            }
            i = i + 1;
        }
        None
    }

    /// Appends a node whose spec is absent and whose dependencies are present.
    fn push_node(&mut self, spec: IndicatorSpec, deps: Vec<IndicatorId>) -> (r: IndicatorId)
        requires
            old(self).wf(),
            !old(self)@.contains(spec),
            old(self)@.len() < u32::MAX,
            deps@.len() == deps_of_spec(spec).len(),
            forall|k: int|
                0 <= k < deps@.len() ==> {
                    let id = (#[trigger] deps@[k]).0 as int;
                    &&& 1 <= id <= old(self)@.len()
                    &&& old(self)@[id - 1] == deps_of_spec(spec)[k]
                },
        ensures
            final(self).wf(),
            final(self)@ == old(self)@.push(spec),
            final(self).cap() == old(self).cap(),
            r.0 == final(self)@.len(),
    {
        let n = self.specs.len();
        self.specs.push(spec);
        self.deps.push(deps);
        proof {
            assert forall|i: int, j: int| 0 <= i < j < self.specs@.len() implies self.specs@[i]
                != self.specs@[j] by {
                if j == n {
                    if self.specs@[i] == spec {
                        assert(old(self)@[i] == spec);
                    }
                } else {
                    assert(self.specs@[i] == old(self).specs@[i]);
                }
            }
            assert forall|i: int| 0 <= i < self.specs@.len() implies {
                let d = deps_of_spec(#[trigger] self.specs@[i]);
                &&& self.deps@[i]@.len() == d.len()
                &&& forall|k: int|
                    0 <= k < d.len() ==> {
                        let id = (#[trigger] self.deps@[i]@[k]).0 as int;
                        &&& 1 <= id <= i
                        &&& self.specs@[id - 1] == d[k]
                    }
            } by {
                if i < n {
                    assert(self.specs@[i] == old(self).specs@[i]);
                    assert(self.deps@[i] == old(self).deps@[i]);
                    assert forall|k: int| 0 <= k < deps_of_spec(self.specs@[i]).len() implies {
                        let id = (#[trigger] self.deps@[i]@[k]).0 as int;
                        self.specs@[id - 1] == old(self).specs@[id - 1]
                    } by {}
                }
            }
        }
        IndicatorId((n + 1) as u32)
    }

    /// Adds the node for a dependency-free spec unless present; returns its id.
    fn add_leaf(&mut self, spec: IndicatorSpec) -> (r: IndicatorId)
        requires
            old(self).wf(),
            deps_of_spec(spec).len() == 0,
            old(self)@.len() < u32::MAX,
        ensures
            final(self).wf(),
            final(self)@ == with_node(old(self)@, spec),
            final(self).cap() == old(self).cap(),
            1 <= r.0 <= final(self)@.len(),
            final(self)@[r.0 - 1] == spec,
    {
        match self.find(&spec) {
            Some(id) => {
                proof {
                    let k = choose|k: int| 0 <= k < self@.len() && self@[k] == spec;
                    lemma_id_unique(self@, spec, k);
                }
                id
            },
            None => {
                let r = self.push_node(spec, Vec::new());
                assert(self@[r.0 - 1] == spec);
                r
            },
        }
    }

    /// Returns the node for `spec`, creating it (and first its missing dependencies)
    /// when absent. Equal specs always yield the same id.
    pub fn add(&mut self, spec: IndicatorSpec) -> (r: IndicatorId)
        requires
            old(self).wf(),
            old(self)@.len() + 3 <= u32::MAX,
        ensures
            final(self).wf(),
            final(self)@ == added(old(self)@, spec),
            final(self).cap() == old(self).cap(),
            1 <= r.0 <= final(self)@.len(),
            final(self)@[r.0 - 1] == spec,
            r.0 == id_in(final(self)@, spec),
    {
        let r = match self.find(&spec) {
            Some(id) => {
                proof {
                    let k = choose|k: int| 0 <= k < self@.len() && self@[k] == spec;
                    lemma_id_unique(self@, spec, k);
                }
                id
            },
            None => {
                let ghost prev = self@;
                match spec {
                    IndicatorSpec::Boll { period, .. } => {
                        let a = self.add_leaf(IndicatorSpec::Sma { field: Field::Close, period });
                        let ghost mid = self@;
                        let b = self.add_leaf(IndicatorSpec::StdDev { field: Field::Close, period });
                        proof {
                            lemma_with_node(prev, IndicatorSpec::Sma { field: Field::Close, period });
                            assert(mid.is_prefix_of(self@));
                            assert(self@[a.0 - 1] == mid[a.0 - 1]);
                            assert(!self@.contains(spec));
                        }
                        self.push_node(spec, vec![a, b])
                    },
                    IndicatorSpec::Macd { fast, slow, .. } => {
                        let a = self.add_leaf(IndicatorSpec::Ema { field: Field::Close, period: fast });
                        let ghost mid = self@;
                        let b = self.add_leaf(IndicatorSpec::Ema { field: Field::Close, period: slow });
                        proof {
                            lemma_with_node(prev, IndicatorSpec::Ema { field: Field::Close, period: fast });
                            lemma_with_node(mid, IndicatorSpec::Ema { field: Field::Close, period: slow });
                            assert(mid.is_prefix_of(self@));
                            assert(self@[a.0 - 1] == mid[a.0 - 1]);
                            assert(!self@.contains(spec));
                        }
                        self.push_node(spec, vec![a, b])
                    },
                    _ => self.push_node(spec, Vec::new()),
                }
            },
        };
        proof {
            lemma_id_unique(self@, spec, r.0 - 1);
        }
        r
    }

    /// The spec of node `id`, if it exists.
    pub fn spec_of(&self, id: IndicatorId) -> (r: Option<IndicatorSpec>)
        ensures
            r == (if 1 <= id.0 <= self@.len() {
                Some(self@[id.0 - 1])
            } else {
                None::<IndicatorSpec>
            }),
    {
        if id.0 >= 1 && (id.0 as usize) <= self.specs.len() {
            Some(self.specs[(id.0 - 1) as usize])
        } else {
            None
        }
    }

    /// The ids that node `id` reads, in order; `None` for an unknown id.
    pub fn deps_of(&self, id: IndicatorId) -> (r: Option<Vec<IndicatorId>>)
        requires
            self.wf(),
        ensures
            r matches Some(d) ==> 1 <= id.0 <= self@.len() && d@ == self.deps_at(id.0 - 1),
            r is None <==> !(1 <= id.0 <= self@.len()),
            forall|d: Vec<IndicatorId>, k: int|
                r == Some(d) && 0 <= k < d@.len() ==> {
                    let dep = #[trigger] d@[k];
                    &&& 1 <= dep.0 < id.0
                    &&& self@[dep.0 - 1] == deps_of_spec(self@[id.0 - 1])[k]
                },
    {
        if id.0 >= 1 && (id.0 as usize) <= self.specs.len() {
            let i = (id.0 - 1) as usize;
            let src = &self.deps[i];
            let mut out: Vec<IndicatorId> = Vec::new();
            let mut k: usize = 0;
            while k < src.len()
                invariant
                    k <= src@.len(),
                    out@ == src@.take(k as int),
                decreases src@.len() - k,
            {
                out.push(src[k]);
                k = k + 1;
                assert(out@ =~= src@.take(k as int));
            }
            assert(src@.take(src@.len() as int) =~= src@);
            proof {
                assert(self.specs@[i as int] == self@[id.0 - 1]);
                assert forall|k: int| 0 <= k < out@.len() implies {
                    let dep = #[trigger] out@[k];
                    &&& 1 <= dep.0 < id.0
                    &&& self@[dep.0 - 1] == deps_of_spec(self@[id.0 - 1])[k]
                } by {
                    assert(out@[k] == self.deps@[i as int]@[k]);
                }
            }
            Some(out)
        } else {
            None
        }
    }

    /// All node ids in evaluation order (every node after the nodes it reads).
    pub fn order(&self) -> (r: Vec<IndicatorId>)
        requires
            self@.len() <= u32::MAX,
        ensures
            r@.len() == self@.len(),
            forall|i: int| 0 <= i < r@.len() ==> (#[trigger] r@[i]).0 == i + 1,
    {
        let n = self.specs.len();
        let mut out: Vec<IndicatorId> = Vec::new();
        let mut i: usize = 0;
        while i < n
            invariant
                n == self@.len() <= u32::MAX,
                i <= n,
                out@.len() == i,
                forall|j: int| 0 <= j < i ==> (#[trigger] out@[j]).0 == j + 1,
            decreases n - i,
        {
            out.push(IndicatorId((i + 1) as u32));
            i = i + 1;
        }
        out
    }
}

/// Adding keeps every node where it was and keeps specs unique.
pub proof fn lemma_added_grows(v: Seq<IndicatorSpec>, s: IndicatorSpec)
    requires
        unique(v),
    ensures
        unique(added(v, s)),
        v.is_prefix_of(added(v, s)),
        added(v, s).contains(s),
        added(v, s).len() <= v.len() + 3,
{
    if !v.contains(s) {
        let d = deps_of_spec(s);
        if d.len() == 2 {
            lemma_with_node(v, d[0]);
            lemma_with_node(with_node(v, d[0]), d[1]);
            let u = with_node(with_node(v, d[0]), d[1]);
            assert(!u.contains(s)) by {
                if u.contains(s) {
                    let k = choose|k: int| 0 <= k < u.len() && u[k] == s;
                    if k >= v.len() {
                        assert(u[k] == d[0] || u[k] == d[1]);
                    } else {
                        assert(u[k] == v[k]);
                    }
                }
            }
            assert(u.push(s)[u.len() as int] == s);
            assert(v.is_prefix_of(u.push(s)));
        } else {
            assert(v.push(s)[v.len() as int] == s);
        }
    }
}

/// A node's id does not change as the list grows.
pub proof fn lemma_id_stable(v: Seq<IndicatorSpec>, w: Seq<IndicatorSpec>, s: IndicatorSpec)
    requires
        unique(v),
        unique(w),
        v.is_prefix_of(w),
        v.contains(s),
    ensures
        w.contains(s),
        id_in(w, s) == id_in(v, s),
{
    let i = choose|i: int| 0 <= i < v.len() && v[i] == s;
    assert(w[i] == s);
    lemma_id_unique(v, s, i);
    lemma_id_unique(w, s, i);
}

/// Adding equal specs twice yields the same node list and the same id, and adding
/// Bollinger bands provides the SMA and STDDEV nodes of the close that later requests
/// for them reuse (likewise the two EMA nodes of MACD).
pub proof fn lemma_add_dedup(v: Seq<IndicatorSpec>, s: IndicatorSpec)
    requires
        unique(v),
        closed(v),
    ensures
        added(added(v, s), s) == added(v, s),
        id_in(added(added(v, s), s), s) == id_in(added(v, s), s),
        forall|k: int|
            0 <= k < deps_of_spec(s).len() ==> added(added(v, s), #[trigger] deps_of_spec(s)[k])
                == added(v, s),
{
    let w = added(v, s);
    assert(w.contains(s)) by {
        if !v.contains(s) {
            let d = deps_of_spec(s);
            if d.len() == 2 {
                let u = with_node(with_node(v, d[0]), d[1]);
                assert(u.push(s)[u.len() as int] == s);
            } else {
                assert(v.push(s)[v.len() as int] == s);
            }
        }
    }
    if !v.contains(s) {
        let d = deps_of_spec(s);
        if d.len() == 2 {
            lemma_with_node(v, d[0]);
            lemma_with_node(with_node(v, d[0]), d[1]);
            let u = with_node(with_node(v, d[0]), d[1]);
            assert(u.contains(d[0]));
            assert forall|k: int| 0 <= k < d.len() implies w.contains(#[trigger] d[k]) by {
                let x = d[k];
                let j = choose|j: int| 0 <= j < u.len() && u[j] == x;
                assert(w[j] == x);
            }
        }
    } else {
        let i = choose|i: int| 0 <= i < v.len() && v[i] == s;
        assert forall|k: int| 0 <= k < deps_of_spec(s).len() implies w.contains(
            #[trigger] deps_of_spec(s)[k],
        ) by {
            assert(deps_of_spec(v[i])[k] == deps_of_spec(s)[k]);
        }
    }
}

} // verus!
