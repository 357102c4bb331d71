//! The diagram: a simple undirected graph of spiders and boundaries with
//! typed edges, an owned global scalar, and a list of symbolic scalar
//! factors.
//!
//! Vertices are identified by stable `usize` handles; deleting a vertex
//! leaves a hole, so surviving handles keep their meaning across rewrites.
//! Adjacency is a dense symmetric matrix of optional edge types, which keeps
//! every edge query a single lookup and makes parallel edges unrepresentable:
//! `add_edge_smart` resolves would-be parallel edges and self-loops on the
//! spot by the diagrammatic identities, adjusting phases and the scalar.

use vstd::prelude::*;
use crate::param::Expr;
use crate::phase::Phase;
use crate::scalar::Scalar4;

verus! {

use vstd::arithmetic::power2::pow2;
use vstd::pervasive::VecAdditionalExecFns;

broadcast use vstd::arithmetic::power2::lemma_pow2_pos;

/// A vertex handle.
pub type V = usize;

/// Vertex kinds: boundary, Z-spider, X-spider, and the unsupported W node,
/// which every rule rejects.
#[derive(Clone, Copy, Debug, PartialEq, Eq, Structural, Hash)]
pub enum VType {
    B,
    Z,
    X,
    Wio,
}

/// Edge kinds: plain wires and Hadamard wires.
#[derive(Clone, Copy, Debug, PartialEq, Eq, Structural, Hash)]
pub enum EType {
    N,
    H,
}

impl EType {
    /// The other edge kind.
    pub fn opposite(self) -> (r: EType)
        ensures
            r == (if self == EType::N { EType::H } else { EType::N }),
    {
        match self {
            EType::N => EType::H,
            EType::H => EType::N,
        }
    }
}

/// Everything a vertex carries: kind, phase, symbolic variables (a bitmask),
/// and placement metadata that has no semantic meaning.
#[derive(Clone, Copy, Debug, PartialEq, Eq)]
pub struct VData {
    pub ty: VType,
    pub phase: Phase,
    pub vars: u64,
    pub row: i64,
    pub qubit: i64,
}

impl VData {
    /// A phaseless, variable-free vertex of the given kind.
    pub fn plain(ty: VType, row: i64, qubit: i64) -> (r: VData)
        ensures
            r.ty == ty,
            r.phase.wf(),
            r.phase.val() == 0,
            r.vars == 0,
            r.row == row,
            r.qubit == qubit,
    {
        VData { ty, phase: Phase::zero(), vars: 0, row, qubit }
    }
}

/// A ZX-diagram.
#[derive(Clone, Debug, PartialEq)]
pub struct Graph {
    pub vdata: Vec<Option<VData>>,
    pub adj: Vec<Vec<Option<EType>>>,
    pub scalar: Scalar4,
    pub factors: Vec<(Expr, Scalar4)>,
    pub inputs: Vec<V>,
    pub outputs: Vec<V>,
}

impl Graph {
    /// The size of the vertex table (live and deleted slots together).
    pub open spec fn n(self) -> int {
        self.vdata@.len() as int
    }

    /// Whether `v` is a live vertex handle.
    pub open spec fn live(self, v: int) -> bool {
        0 <= v < self.n() && self.vdata@[v] is Some
    }

    /// The data of a live vertex.
    pub open spec fn vd(self, v: int) -> VData {
        self.vdata@[v].unwrap()
    }

    /// The edge between two in-range vertices.
    pub open spec fn edge(self, u: int, v: int) -> Option<EType> {
        self.adj@[u]@[v]
    }

    /// The edge between two handles, `None` when either is out of range.
    pub open spec fn edge_opt(self, u: int, v: int) -> Option<EType> {
        if 0 <= u < self.n() && 0 <= v < self.n() {
            self.edge(u, v)
        } else {
            None
        }
    }

    /// Structural well-formedness of the diagram.
    pub open spec fn wf(self) -> bool {
        &&& self.adj@.len() == self.n()
        &&& forall|u: int| 0 <= u < self.n() ==> (#[trigger] self.adj@[u])@.len() == self.n()
        &&& forall|u: int, v: int|
            0 <= u < self.n() && 0 <= v < self.n() ==> #[trigger] self.adj@[u]@[v]
                == self.adj@[v]@[u]
        &&& forall|v: int| 0 <= v < self.n() ==> (#[trigger] self.adj@[v]@[v]) is None
        &&& forall|u: int, v: int|
            0 <= u < self.n() && 0 <= v < self.n() && (#[trigger] self.adj@[u]@[v]) is Some
                ==> self.vdata@[u] is Some && self.vdata@[v] is Some
        &&& forall|v: int|
            0 <= v < self.n() && (#[trigger] self.vdata@[v]) is Some
                ==> self.vdata@[v].unwrap().phase.wf()
        &&& forall|v: int|
            0 <= v < self.n() && (#[trigger] self.vdata@[v]) is Some
                && self.vdata@[v].unwrap().ty == VType::B
                ==> self.vdata@[v].unwrap().phase.val() == 0 && self.vdata@[v].unwrap().vars == 0
        &&& self.scalar.wf()
        &&& forall|i: int| 0 <= i < self.factors@.len() ==> (#[trigger] self.factors@[i]).1.wf()
    }

    /// The degree of a vertex: the number of distinct neighbors.
    pub open spec fn spec_degree(self, v: int) -> nat {
        cnt_row(self.adj@[v]@, self.n())
    }

    /// Two diagrams agree on every vertex slot outside `s`.
    pub open spec fn verts_same_except(self, b: Graph, s: Set<int>) -> bool {
        &&& self.n() == b.n()
        &&& forall|v: int|
            0 <= v < self.n() && !s.contains(v) ==> self.vdata@[v] == #[trigger] b.vdata@[v]
    }

    /// Two diagrams agree on every edge not incident to `s`.
    pub open spec fn edges_same_except(self, b: Graph, s: Set<int>) -> bool {
        forall|u: int, v: int|
            0 <= u < self.n() && 0 <= v < self.n() && !s.contains(u) && !s.contains(v)
                ==> #[trigger] self.edge(u, v) == b.edge(u, v)
    }

    /// Scalar, factors and boundary lists all unchanged.
    pub open spec fn scalar_io_same(self, b: Graph) -> bool {
        &&& self.scalar == b.scalar
        &&& self.factors@ == b.factors@
        &&& self.inputs@ == b.inputs@
        &&& self.outputs@ == b.outputs@
    }

    /// The empty diagram with scalar one.
    pub fn new() -> (g: Graph)
        ensures
            g.wf(),
            g.n() == 0,
            g.scalar == Scalar4::spec_one(),
            g.factors@.len() == 0,
            g.inputs@.len() == 0,
            g.outputs@.len() == 0,
    {
        Graph {
            vdata: Vec::new(),
            adj: Vec::new(),
            scalar: Scalar4::one(),
            factors: Vec::new(),
            inputs: Vec::new(),
            outputs: Vec::new(),
        }
    }

    /// Adds a vertex with the given data; the fresh handle is returned.
    pub fn add_vertex_with_data(&mut self, vd: VData) -> (r: V)
        requires
            old(self).wf(),
            old(self).n() < usize::MAX,
            vd.phase.wf(),
            vd.ty == VType::B ==> vd.phase.val() == 0 && vd.vars == 0,
        ensures
            final(self).wf(),
            r == old(self).n(),
            final(self).n() == old(self).n() + 1,
            final(self).live(r as int),
            final(self).vd(r as int) == vd,
            forall|v: int| 0 <= v < old(self).n() ==> final(self).vdata@[v] == #[trigger] old(
                self,
            ).vdata@[v],
            forall|u: int, v: int|
                #![trigger old(self).adj@[u]@[v]]
                0 <= u < old(self).n() && 0 <= v < old(self).n() ==> final(self).edge(u, v)
                    == old(self).edge(u, v),
            forall|v: int|
                0 <= v <= old(self).n() ==> #[trigger] final(self).edge(r as int, v) is None
                    && final(self).edge(v, r as int) is None,
            final(self).scalar_io_same(*old(self)),
    {
        let n = self.vdata.len();
        let mut i: usize = 0;
        while i < n
            invariant
                n == old(self).n(),
                i <= n,
                self.vdata@ == old(self).vdata@,
                self.adj@.len() == n,
                forall|u: int|
                    0 <= u < n ==> (#[trigger] self.adj@[u])@.len() == (if u < i {
                        n + 1
                    } else {
                        n as int
                    }),
                forall|u: int, v: int|
                    0 <= u < n && 0 <= v < n ==> #[trigger] self.adj@[u]@[v] == old(self).adj@[u]@[v],
                forall|u: int| 0 <= u < i ==> #[trigger] self.adj@[u]@[n as int] is None,
                self.scalar == old(self).scalar,
                self.factors@ == old(self).factors@,
                self.inputs@ == old(self).inputs@,
                self.outputs@ == old(self).outputs@,
            decreases n - i,
        {
            self.adj[i].push(None);
            i = i + 1;
        }
        let mut newrow: Vec<Option<EType>> = Vec::new();
        let mut j: usize = 0;
        while j <= n
            invariant
                n < usize::MAX,
                j <= n + 1,
                newrow@.len() == j,
                forall|v: int| 0 <= v < j ==> #[trigger] newrow@[v] is None,
            decreases n + 1 - j,
        {
            newrow.push(None);
            j = j + 1;
        }
        self.adj.push(newrow);
        self.vdata.push(Some(vd));
        n
    }

    /// Adds a phaseless vertex of the given kind.
    pub fn add_vertex(&mut self, ty: VType) -> (r: V)
        requires
            old(self).wf(),
            old(self).n() < usize::MAX,
        ensures
            final(self).wf(),
            r == old(self).n(),
            final(self).n() == old(self).n() + 1,
            final(self).live(r as int),
            final(self).vd(r as int).ty == ty,
            final(self).vd(r as int).phase.wf(),
            final(self).vd(r as int).phase.val() == 0,
            final(self).vd(r as int).vars == 0,
            forall|v: int| 0 <= v < old(self).n() ==> final(self).vdata@[v] == #[trigger] old(
                self,
            ).vdata@[v],
            forall|u: int, v: int|
                #![trigger old(self).adj@[u]@[v]]
                0 <= u < old(self).n() && 0 <= v < old(self).n() ==> final(self).edge(u, v)
                    == old(self).edge(u, v),
            forall|v: int|
                0 <= v <= old(self).n() ==> #[trigger] final(self).edge(r as int, v) is None
                    && final(self).edge(v, r as int) is None,
            final(self).scalar_io_same(*old(self)),
    {
        self.add_vertex_with_data(VData::plain(ty, 0, 0))
    }

    /// Adds a vertex of the given kind and phase.
    pub fn add_vertex_with_phase(&mut self, ty: VType, phase: Phase) -> (r: V)
        requires
            old(self).wf(),
            old(self).n() < usize::MAX,
            phase.wf(),
            ty == VType::B ==> phase.val() == 0,
        ensures
            final(self).wf(),
            r == old(self).n(),
            final(self).n() == old(self).n() + 1,
            final(self).live(r as int),
            final(self).vd(r as int).ty == ty,
            final(self).vd(r as int).phase == phase,
            final(self).vd(r as int).vars == 0,
            forall|v: int| 0 <= v < old(self).n() ==> final(self).vdata@[v] == #[trigger] old(
                self,
            ).vdata@[v],
            forall|u: int, v: int|
                #![trigger old(self).adj@[u]@[v]]
                0 <= u < old(self).n() && 0 <= v < old(self).n() ==> final(self).edge(u, v)
                    == old(self).edge(u, v),
            forall|v: int|
                0 <= v <= old(self).n() ==> #[trigger] final(self).edge(r as int, v) is None
                    && final(self).edge(v, r as int) is None,
            final(self).scalar_io_same(*old(self)),
    {
        self.add_vertex_with_data(VData { ty, phase, vars: 0, row: 0, qubit: 0 })
    }

    /// Removes a live vertex together with all its incident edges.
    pub fn remove_vertex(&mut self, v: V)
        requires
            old(self).wf(),
            old(self).live(v as int),
        ensures
            final(self).wf(),
            final(self).n() == old(self).n(),
            forall|u: int| #[trigger] final(self).live(u) == (old(self).live(u) && u != v),
            final(self).vdata@[v as int] is None,
            forall|u: int|
                0 <= u < old(self).n() && u != v ==> final(self).vdata@[u] == #[trigger] old(
                    self,
                ).vdata@[u],
            forall|a: int, b: int|
                #![trigger old(self).adj@[a]@[b]]
                0 <= a < old(self).n() && 0 <= b < old(self).n() ==> final(self).edge(a, b) == (if a
                    == v || b == v {
                    None
                } else {
                    old(self).edge(a, b)
                }),
            final(self).scalar_io_same(*old(self)),
    {
        let n = self.vdata.len();
        self.vdata.set(v, None);
        let mut i: usize = 0;
        while i < n
            invariant
                n == old(self).n(),
                v < n,
                i <= n,
                self.vdata@ == old(self).vdata@.update(v as int, None::<VData>),
                self.adj@.len() == n,
                forall|u: int|
                    0 <= u < n ==> (#[trigger] self.adj@[u])@.len() == n,
                forall|a: int, b: int|
                    0 <= a < n && 0 <= b < n && a != v ==> #[trigger] self.adj@[a]@[b] == (if b == v
                        && a < i {
                        None
                    } else {
                        old(self).adj@[a]@[b]
                    }),
                forall|b: int|
                    0 <= b < n ==> #[trigger] self.adj@[v as int]@[b] == old(self).adj@[v as int]@[b],
                self.scalar == old(self).scalar,
                self.factors@ == old(self).factors@,
                self.inputs@ == old(self).inputs@,
                self.outputs@ == old(self).outputs@,
            decreases n - i,
        {
            if i != v {
                self.adj[i].set(v, None);
            }
            i = i + 1;
        }
        let mut j: usize = 0;
        while j < n
            invariant
                n == old(self).n(),
                v < n,
                j <= n,
                self.vdata@ == old(self).vdata@.update(v as int, None::<VData>),
                self.adj@.len() == n,
                forall|u: int| 0 <= u < n ==> (#[trigger] self.adj@[u])@.len() == n,
                forall|a: int, b: int|
                    0 <= a < n && 0 <= b < n && a != v ==> #[trigger] self.adj@[a]@[b] == (if b
                        == v {
                        None
                    } else {
                        old(self).adj@[a]@[b]
                    }),
                forall|b: int| 0 <= b < n ==> #[trigger] self.adj@[v as int]@[b] == (if b < j {
                    None
                } else {
                    old(self).adj@[v as int]@[b]
                }),
                self.scalar == old(self).scalar,
                self.factors@ == old(self).factors@,
                self.inputs@ == old(self).inputs@,
                self.outputs@ == old(self).outputs@,
            decreases n - j,
        {
            self.adj[v].set(j, None);
            j = j + 1;
        }
    }

    /// The kind of a vertex, or `None` for a missing handle.
    pub fn vertex_type_opt(&self, v: V) -> (r: Option<VType>)
        ensures
            r == (if self.live(v as int) {
                Some(self.vd(v as int).ty)
            } else {
                None::<VType>
            }),
    {
        if v < self.vdata.len() {
            match &self.vdata[v] {
                Some(vd) => Some(vd.ty),
                None => None,
            }
        } else {
            None
        }
    }

    /// The data of a vertex, or `None` for a missing handle.
    pub fn vertex_data_opt(&self, v: V) -> (r: Option<VData>)
        ensures
            r == (if self.live(v as int) {
                Some(self.vd(v as int))
            } else {
                None::<VData>
            }),
    {
        if v < self.vdata.len() {
            self.vdata[v]
        } else {
            None
        }
    }

    /// The kind of a live vertex.
    pub fn vertex_type(&self, v: V) -> (r: VType)
        requires
            self.live(v as int),
        ensures
            r == self.vd(v as int).ty,
    {
        self.vdata[v].unwrap().ty
    }

    /// The phase of a live vertex.
    pub fn phase(&self, v: V) -> (r: Phase)
        requires
            self.live(v as int),
        ensures
            r == self.vd(v as int).phase,
    {
        self.vdata[v].unwrap().phase
    }

    /// The variable set of a live vertex.
    pub fn vars(&self, v: V) -> (r: u64)
        requires
            self.live(v as int),
        ensures
            r == self.vd(v as int).vars,
    {
        self.vdata[v].unwrap().vars
    }

    /// The phase and variable set of a live vertex together.
    pub fn phase_and_vars(&self, v: V) -> (r: (Phase, u64))
        requires
            self.live(v as int),
        ensures
            r.0 == self.vd(v as int).phase,
            r.1 == self.vd(v as int).vars,
    {
        let vd = self.vdata[v].unwrap();
        (vd.phase, vd.vars)
    }

    /// The row placement of a live vertex.
    pub fn row(&self, v: V) -> (r: i64)
        requires
            self.live(v as int),
        ensures
            r == self.vd(v as int).row,
    {
        self.vdata[v].unwrap().row
    }

    /// The qubit placement of a live vertex.
    pub fn qubit(&self, v: V) -> (r: i64)
        requires
            self.live(v as int),
        ensures
            r == self.vd(v as int).qubit,
    {
        self.vdata[v].unwrap().qubit
    }

    /// Overwrites the phase of a live, non-boundary vertex.
    pub fn set_phase(&mut self, v: V, p: Phase)
        requires
            old(self).wf(),
            old(self).live(v as int),
            p.wf(),
            old(self).vd(v as int).ty == VType::B ==> p.val() == 0,
        ensures
            final(self).wf(),
            final(self).n() == old(self).n(),
            final(self).live(v as int),
            final(self).vd(v as int) == (VData { phase: p, ..old(self).vd(v as int) }),
            forall|u: int|
                0 <= u < old(self).n() && u != v ==> final(self).vdata@[u] == #[trigger] old(
                    self,
                ).vdata@[u],
            final(self).adj@ == old(self).adj@,
            final(self).scalar_io_same(*old(self)),
    {
        let mut vd = self.vdata[v].unwrap();
        vd.phase = p;
        self.vdata.set(v, Some(vd));
    }

    /// Overwrites the kind of a live vertex: a spider kind always, or
    /// Boundary when the vertex carries no phase and no variables.
    pub fn set_vertex_type(&mut self, v: V, ty: VType)
        requires
            old(self).wf(),
            old(self).live(v as int),
            ty == VType::Z || ty == VType::X || (ty == VType::B && old(self).vd(
                v as int,
            ).phase.val() == 0 && old(self).vd(v as int).vars == 0),
        ensures
            final(self).wf(),
            final(self).n() == old(self).n(),
            final(self).live(v as int),
            final(self).vd(v as int) == (VData { ty, ..old(self).vd(v as int) }),
            forall|u: int|
                0 <= u < old(self).n() && u != v ==> final(self).vdata@[u] == #[trigger] old(
                    self,
                ).vdata@[u],
            final(self).adj@ == old(self).adj@,
            final(self).scalar_io_same(*old(self)),
    {
        let mut vd = self.vdata[v].unwrap();
        vd.ty = ty;
        self.vdata.set(v, Some(vd));
    }

    /// Adds a phase delta to a live, non-boundary vertex.
    pub fn add_to_phase(&mut self, v: V, d: Phase)
        requires
            old(self).wf(),
            old(self).live(v as int),
            d.wf(),
            old(self).vd(v as int).ty != VType::B,
        ensures
            final(self).wf(),
            final(self).n() == old(self).n(),
            final(self).live(v as int),
            final(self).vd(v as int).ty == old(self).vd(v as int).ty,
            final(self).vd(v as int).vars == old(self).vd(v as int).vars,
            final(self).vd(v as int).row == old(self).vd(v as int).row,
            final(self).vd(v as int).qubit == old(self).vd(v as int).qubit,
            final(self).vd(v as int).phase.wf(),
            final(self).vd(v as int).phase.val() == (old(self).vd(v as int).phase.val()
                + d.val()) % (pow2(62) as int),
            forall|u: int|
                0 <= u < old(self).n() && u != v ==> final(self).vdata@[u] == #[trigger] old(
                    self,
                ).vdata@[u],
            final(self).adj@ == old(self).adj@,
            final(self).scalar_io_same(*old(self)),
    {
        let mut vd = self.vdata[v].unwrap();
        vd.phase = vd.phase.add(d);
        self.vdata.set(v, Some(vd));
    }

    /// Unions (XORs) a variable set into a live, non-boundary vertex.
    pub fn add_to_vars(&mut self, v: V, m: u64)
        requires
            old(self).wf(),
            old(self).live(v as int),
            old(self).vd(v as int).ty != VType::B || m == 0,
        ensures
            final(self).wf(),
            final(self).n() == old(self).n(),
            final(self).live(v as int),
            final(self).vd(v as int) == (VData {
                vars: old(self).vd(v as int).vars ^ m,
                ..old(self).vd(v as int)
            }),
            forall|u: int|
                0 <= u < old(self).n() && u != v ==> final(self).vdata@[u] == #[trigger] old(
                    self,
                ).vdata@[u],
            final(self).adj@ == old(self).adj@,
            final(self).scalar_io_same(*old(self)),
    {
        let mut vd = self.vdata[v].unwrap();
        vd.vars = vd.vars ^ m;
        proof {
            let w0 = old(self).vd(v as int).vars;
            if m == 0 {
                assert(w0 ^ 0u64 == w0) by (bit_vector);
            }
        }
        self.vdata.set(v, Some(vd));
    }

    /// The edge between two handles, `None` when absent or out of range.
    pub fn edge_type_opt(&self, u: V, v: V) -> (r: Option<EType>)
        requires
            self.wf(),
        ensures
            r == self.edge_opt(u as int, v as int),
    {
        if u < self.vdata.len() && v < self.vdata.len() {
            self.adj[u][v]
        } else {
            None
        }
    }

    /// The type of an existing edge.
    pub fn edge_type(&self, u: V, v: V) -> (r: EType)
        requires
            self.wf(),
            self.edge_opt(u as int, v as int) is Some,
        ensures
            Some(r) == self.edge_opt(u as int, v as int),
    {
        self.adj[u][v].unwrap()
    }

    /// Whether two vertices are joined by an edge.
    pub fn connected(&self, u: V, v: V) -> (r: bool)
        requires
            self.wf(),
        ensures
            r == (self.edge_opt(u as int, v as int) is Some),
    {
        if u < self.vdata.len() && v < self.vdata.len() {
            self.adj[u][v].is_some()
        } else {
            false
        }
    }

    /// Adds an edge where none exists.
    pub fn add_edge_with_type(&mut self, u: V, v: V, et: EType)
        requires
            old(self).wf(),
            old(self).live(u as int),
            old(self).live(v as int),
            u != v,
            old(self).edge(u as int, v as int) is None,
        ensures
            final(self).wf(),
            final(self).n() == old(self).n(),
            final(self).vdata@ == old(self).vdata@,
            forall|a: int, b: int|
                #![trigger old(self).adj@[a]@[b]]
                0 <= a < old(self).n() && 0 <= b < old(self).n() ==> final(self).edge(a, b) == (if a
                    == u && b == v || a == v && b == u {
                    Some(et)
                } else {
                    old(self).edge(a, b)
                }),
            final(self).scalar_io_same(*old(self)),
    {
        self.adj[u].set(v, Some(et));
        self.adj[v].set(u, Some(et));
    }

    /// Adds a plain edge where none exists.
    pub fn add_edge(&mut self, u: V, v: V)
        requires
            old(self).wf(),
            old(self).live(u as int),
            old(self).live(v as int),
            u != v,
            old(self).edge(u as int, v as int) is None,
        ensures
            final(self).wf(),
            final(self).n() == old(self).n(),
            final(self).vdata@ == old(self).vdata@,
            forall|a: int, b: int|
                #![trigger old(self).adj@[a]@[b]]
                0 <= a < old(self).n() && 0 <= b < old(self).n() ==> final(self).edge(a, b) == (if a
                    == u && b == v || a == v && b == u {
                    Some(EType::N)
                } else {
                    old(self).edge(a, b)
                }),
            final(self).scalar_io_same(*old(self)),
    {
        self.add_edge_with_type(u, v, EType::N)
    }

    /// Removes an existing edge.
    pub fn remove_edge(&mut self, u: V, v: V)
        requires
            old(self).wf(),
            0 <= u < old(self).n(),
            0 <= v < old(self).n(),
            old(self).edge(u as int, v as int) is Some,
        ensures
            final(self).wf(),
            final(self).n() == old(self).n(),
            final(self).vdata@ == old(self).vdata@,
            forall|a: int, b: int|
                #![trigger old(self).adj@[a]@[b]]
                0 <= a < old(self).n() && 0 <= b < old(self).n() ==> final(self).edge(a, b) == (if a
                    == u && b == v || a == v && b == u {
                    None
                } else {
                    old(self).edge(a, b)
                }),
            final(self).scalar_io_same(*old(self)),
    {
        self.adj[u].set(v, None);
        self.adj[v].set(u, None);
    }

    /// Toggles an existing edge between plain and Hadamard.
    pub fn toggle_edge_type(&mut self, u: V, v: V)
        requires
            old(self).wf(),
            0 <= u < old(self).n(),
            0 <= v < old(self).n(),
            old(self).edge(u as int, v as int) is Some,
        ensures
            final(self).wf(),
            final(self).n() == old(self).n(),
            final(self).vdata@ == old(self).vdata@,
            forall|a: int, b: int|
                #![trigger old(self).adj@[a]@[b]]
                0 <= a < old(self).n() && 0 <= b < old(self).n() ==> final(self).edge(a, b) == (if a
                    == u && b == v || a == v && b == u {
                    Some(if old(self).edge(u as int, v as int) == Some(EType::N) {
                        EType::H
                    } else {
                        EType::N
                    })
                } else {
                    old(self).edge(a, b)
                }),
            final(self).scalar_io_same(*old(self)),
    {
        let et = self.adj[u][v].unwrap();
        let flipped = et.opposite();
        self.adj[u].set(v, Some(flipped));
        self.adj[v].set(u, Some(flipped));
    }

    /// Replaces the list of diagram inputs.
    pub fn set_inputs(&mut self, inputs: Vec<V>)
        requires
            old(self).wf(),
        ensures
            final(self).wf(),
            *final(self) == (Graph { inputs, ..*old(self) }),
    {
        self.inputs = inputs;
    }

    /// Replaces the list of diagram outputs.
    pub fn set_outputs(&mut self, outputs: Vec<V>)
        requires
            old(self).wf(),
        ensures
            final(self).wf(),
            *final(self) == (Graph { outputs, ..*old(self) }),
    {
        self.outputs = outputs;
    }

    /// The list of diagram inputs.
    pub fn inputs(&self) -> (r: &Vec<V>)
        ensures
            r@ == self.inputs@,
    {
        &self.inputs
    }

    /// The list of diagram outputs.
    pub fn outputs(&self) -> (r: &Vec<V>)
        ensures
            r@ == self.outputs@,
    {
        &self.outputs
    }

    /// The global scalar.
    pub fn scalar(&self) -> (r: Scalar4)
        ensures
            r == self.scalar,
    {
        self.scalar
    }

    /// The list of symbolic scalar factors.
    pub fn factors(&self) -> (r: &Vec<(Expr, Scalar4)>)
        ensures
            r@ == self.factors@,
    {
        &self.factors
    }

    /// Multiplies the global scalar by another scalar.
    pub fn scalar_mul(&mut self, s: Scalar4)
        requires
            old(self).wf(),
            s.wf(),
        ensures
            final(self).wf(),
            *final(self) == (Graph {
                scalar: Scalar4::spec_mul(old(self).scalar, s),
                ..*old(self)
            }),
    {
        self.scalar = self.scalar.times(s);
    }

    /// Multiplies the global scalar by `sqrt(2)^k`.
    pub fn scalar_mul_sqrt2_pow(&mut self, k: i64)
        requires
            old(self).wf(),
            crate::scalar::coeff_fits(k as int),
        ensures
            final(self).wf(),
            *final(self) == (Graph {
                scalar: Scalar4::spec_mul(
                    old(self).scalar,
                    Scalar4 { c0: 1, c1: 0, c2: 0, c3: 0, pow: k, ok: true },
                ),
                ..*old(self)
            }),
    {
        let f = Scalar4::sqrt2_pow(k);
        self.scalar = self.scalar.times(f);
    }

    /// Multiplies the global scalar by the unit `exp(i * pi * p)`; a phase
    /// the ring cannot represent marks the scalar invalid instead.
    pub fn scalar_mul_phase(&mut self, p: Phase)
        requires
            old(self).wf(),
            p.wf(),
        ensures
            final(self).wf(),
            *final(self) == (Graph {
                scalar: if p.exp <= 2 {
                    Scalar4::spec_mul(
                        old(self).scalar,
                        Scalar4::spec_eighth_unit(Scalar4::spec_eighth_of(p)),
                    )
                } else {
                    Scalar4::invalid()
                },
                ..*old(self)
            }),
    {
        if p.is_eighth() {
            let f = Scalar4::from_phase(p);
            self.scalar = self.scalar.times(f);
        } else {
            self.scalar = Scalar4 { c0: 0, c1: 0, c2: 0, c3: 0, pow: 0, ok: false };
        }
    }

    /// Multiplies the global scalar by `1 + exp(i * pi * p)`; a phase the
    /// ring cannot represent marks the scalar invalid instead.
    pub fn scalar_mul_one_plus_phase(&mut self, p: Phase)
        requires
            old(self).wf(),
            p.wf(),
        ensures
            final(self).wf(),
            *final(self) == (Graph {
                scalar: if p.exp <= 2 {
                    Scalar4::spec_mul(
                        old(self).scalar,
                        Scalar4::spec_add(
                            Scalar4::spec_one(),
                            Scalar4::spec_eighth_unit(Scalar4::spec_eighth_of(p)),
                        ),
                    )
                } else {
                    Scalar4::invalid()
                },
                ..*old(self)
            }),
    {
        if p.is_eighth() {
            let f = Scalar4::one_plus_phase(p);
            self.scalar = self.scalar.times(f);
        } else {
            self.scalar = Scalar4 { c0: 0, c1: 0, c2: 0, c3: 0, pow: 0, ok: false };
        }
    }


    /// The number of distinct neighbors of a live vertex.
    pub fn degree(&self, v: V) -> (r: usize)
        requires
            self.wf(),
            self.live(v as int),
        ensures
            r == self.spec_degree(v as int),
    {
        let n = self.vdata.len();
        let mut c: usize = 0;
        let mut i: usize = 0;
        while i < n
            invariant
                self.wf(),
                v < n,
                n == self.n(),
                i <= n,
                c <= i,
                c == cnt_row(self.adj@[v as int]@, i as int),
            decreases n - i,
        {
            if self.adj[v][i].is_some() {
                c = c + 1;
            }
            i = i + 1;
        }
        c
    }

    /// The neighbors of a live vertex, in increasing handle order.
    pub fn neighbor_vec(&self, v: V) -> (r: Vec<V>)
        requires
            self.wf(),
            self.live(v as int),
        ensures
            r@.len() == self.spec_degree(v as int),
            forall|i: int, j: int| 0 <= i < j < r@.len() ==> r@[i] < r@[j],
            forall|i: int| 0 <= i < r@.len() ==> (#[trigger] r@[i] as int) < self.n(),
            forall|i: int|
                0 <= i < r@.len() ==> self.edge(v as int, #[trigger] r@[i] as int) is Some,
            forall|w: int|
                0 <= w < self.n() && self.edge(v as int, w) is Some ==> r@.contains(w as V),
    {
        let n = self.vdata.len();
        let mut r: Vec<V> = Vec::new();
        let mut i: usize = 0;
        while i < n
            invariant
                self.wf(),
                v < n,
                n == self.n(),
                i <= n,
                r@.len() == cnt_row(self.adj@[v as int]@, i as int),
                forall|a: int, b: int| 0 <= a < b < r@.len() ==> r@[a] < r@[b],
                forall|a: int| 0 <= a < r@.len() ==> (#[trigger] r@[a] as int) < i,
                forall|a: int|
                    0 <= a < r@.len() ==> self.edge(v as int, #[trigger] r@[a] as int) is Some,
                forall|w: int|
                    0 <= w < i && self.edge(v as int, w) is Some ==> r@.contains(w as V),
            decreases n - i,
        {
            if self.adj[v][i].is_some() {
                let ghost prev = r@;
                r.push(i);
                proof {
                    assert forall|w: int| 0 <= w <= i && self.edge(v as int, w) is Some
                        implies r@.contains(w as V) by {
                        if w == i as int {
                            assert(r@[prev.len() as int] == i as V);
                        } else {
                            let a = choose|a: int| 0 <= a < prev.len() && prev[a] == w as V;
                            assert(r@[a] == w as V);
                        }
                    };
                }
            }
            i = i + 1;
        }
        r
    }

    /// The incident edges of a live vertex as `(neighbor, kind)` pairs, in
    /// increasing neighbor order.
    pub fn incident_edge_vec(&self, v: V) -> (r: Vec<(V, EType)>)
        requires
            self.wf(),
            self.live(v as int),
        ensures
            r@.len() == self.spec_degree(v as int),
            forall|i: int, j: int| 0 <= i < j < r@.len() ==> r@[i].0 < r@[j].0,
            forall|i: int| 0 <= i < r@.len() ==> ((#[trigger] r@[i]).0 as int) < self.n(),
            forall|i: int|
                0 <= i < r@.len() ==> self.edge(v as int, (#[trigger] r@[i]).0 as int) == Some(
                    r@[i].1,
                ),
            forall|w: int|
                0 <= w < self.n() && self.edge(v as int, w) is Some ==> exists|i: int|
                    0 <= i < r@.len() && (#[trigger] r@[i]).0 == w,
    {
        let n = self.vdata.len();
        let mut r: Vec<(V, EType)> = Vec::new();
        let mut i: usize = 0;
        while i < n
            invariant
                self.wf(),
                v < n,
                n == self.n(),
                i <= n,
                r@.len() == cnt_row(self.adj@[v as int]@, i as int),
                forall|a: int, b: int| 0 <= a < b < r@.len() ==> r@[a].0 < r@[b].0,
                forall|a: int| 0 <= a < r@.len() ==> ((#[trigger] r@[a]).0 as int) < i,
                forall|a: int|
                    0 <= a < r@.len() ==> self.edge(v as int, (#[trigger] r@[a]).0 as int)
                        == Some(r@[a].1),
                forall|w: int|
                    0 <= w < i && self.edge(v as int, w) is Some ==> exists|a: int|
                        0 <= a < r@.len() && (#[trigger] r@[a]).0 == w,
            decreases n - i,
        {
            match self.adj[v][i] {
                Some(et) => {
                    let ghost prev = r@;
                    r.push((i, et));
                    proof {
                        assert forall|w: int| 0 <= w <= i && self.edge(v as int, w) is Some
                            implies exists|a: int|
                            0 <= a < r@.len() && (#[trigger] r@[a]).0 == w by {
                            if w == i as int {
                                assert((r@[prev.len() as int]).0 == w);
                            } else {
                                let a = choose|a: int|
                                    0 <= a < prev.len() && (#[trigger] prev[a]).0 == w;
                                assert((r@[a]).0 == w);
                            }
                        };
                    }
                },
                None => {},
            }
            i = i + 1;
        }
        r
    }

    /// The live vertex handles, in increasing order.
    pub fn vertices(&self) -> (r: Vec<V>)
        requires
            self.wf(),
        ensures
            r@.len() == cnt_live(self.vdata@, self.n()),
            forall|i: int, j: int| 0 <= i < j < r@.len() ==> r@[i] < r@[j],
            forall|i: int| 0 <= i < r@.len() ==> self.live(#[trigger] r@[i] as int),
            forall|w: int| 0 <= w < self.n() && self.vdata@[w] is Some ==> r@.contains(w as V),
    {
        let n = self.vdata.len();
        let mut r: Vec<V> = Vec::new();
        let mut i: usize = 0;
        while i < n
            invariant
                self.wf(),
                n == self.n(),
                i <= n,
                r@.len() == cnt_live(self.vdata@, i as int),
                forall|a: int, b: int| 0 <= a < b < r@.len() ==> r@[a] < r@[b],
                forall|a: int| 0 <= a < r@.len() ==> (#[trigger] r@[a] as int) < i,
                forall|a: int| 0 <= a < r@.len() ==> self.live(#[trigger] r@[a] as int),
                forall|w: int| 0 <= w < i && self.vdata@[w] is Some ==> r@.contains(w as V),
            decreases n - i,
        {
            if self.vdata[i].is_some() {
                let ghost prev = r@;
                r.push(i);
                proof {
                    assert forall|w: int| 0 <= w <= i && self.vdata@[w] is Some
                        implies r@.contains(w as V) by {
                        if w == i as int {
                            assert(r@[prev.len() as int] == i as V);
                        } else {
                            let a = choose|a: int| 0 <= a < prev.len() && prev[a] == w as V;
                            assert(r@[a] == w as V);
                        }
                    };
                }
            }
            i = i + 1;
        }
        r
    }

    /// The size of the vertex table, deleted slots included.
    pub fn num_slots(&self) -> (r: usize)
        ensures
            r == self.n(),
    {
        self.vdata.len()
    }

    /// Whether a handle names a live vertex.
    pub fn contains_vertex(&self, v: V) -> (r: bool)
        ensures
            r == self.live(v as int),
    {
        v < self.vdata.len() && self.vdata[v].is_some()
    }

    /// The number of live vertices.
    pub fn num_vertices(&self) -> (r: usize)
        requires
            self.wf(),
        ensures
            r == cnt_live(self.vdata@, self.n()),
    {
        let n = self.vdata.len();
        let mut c: usize = 0;
        let mut i: usize = 0;
        while i < n
            invariant
                self.wf(),
                n == self.n(),
                i <= n,
                c <= i,
                c == cnt_live(self.vdata@, i as int),
            decreases n - i,
        {
            if self.vdata[i].is_some() {
                c = c + 1;
            }
            i = i + 1;
        }
        c
    }

    /// The number of edges.
    pub fn num_edges(&self) -> (r: u64)
        requires
            self.wf(),
            self.n() < 0x1_0000_0000,
        ensures
            r == cnt_pairs(self.adj@, self.n()),
    {
        let n = self.vdata.len();
        let mut c: u64 = 0;
        let mut i: usize = 0;
        while i < n
            invariant
                self.wf(),
                n == self.n(),
                n < 0x1_0000_0000,
                i <= n,
                c == cnt_pairs(self.adj@, i as int),
            decreases n - i,
        {
            let mut j: usize = 0;
            proof {
                lemma_cnt_pairs_bound(self.adj@, i as int);
                lemma_cnt_row_bound(self.adj@[i as int]@, i as int);
                assert(i * i + i < 0x1_0000_0000 * 0x1_0000_0000) by (nonlinear_arith)
                    requires
                        0 <= i < 0x1_0000_0000,
                ;
            }
            while j < i
                invariant
                    self.wf(),
                    n == self.n(),
                    n < 0x1_0000_0000,
                    i < n,
                    j <= i,
                    c == cnt_pairs(self.adj@, i as int) + cnt_row(self.adj@[i as int]@, j as int),
                    cnt_pairs(self.adj@, i as int) <= i * i,
                    cnt_row(self.adj@[i as int]@, j as int) <= j,
                    i * i + i < 0x1_0000_0000 * 0x1_0000_0000,
                decreases i - j,
            {
                proof {
                    lemma_cnt_row_bound(self.adj@[i as int]@, j as int);
                }
                if self.adj[i][j].is_some() {
                    c = c + 1;
                }
                j = j + 1;
            }
            i = i + 1;
        }
        c
    }


    /// Adds an edge, resolving self-loops and would-be parallel edges by the
    /// diagrammatic identities.
    ///
    /// A self-loop on a spider disappears: a plain loop changes nothing, a
    /// Hadamard loop adds `pi` to the spider and multiplies the scalar by
    /// `sqrt(2)^-1`.  A parallel edge between two spiders combines with the
    /// existing one: equal kinds either fuse into one edge or cancel both
    /// edges with a `sqrt(2)^-2` scalar (Hopf), depending on the colors;
    /// mixed kinds leave the fusing edge and push a `pi` onto the first
    /// vertex with a `sqrt(2)^-1` scalar.
    pub fn add_edge_smart(&mut self, u: V, v: V, et: EType)
        requires
            old(self).wf(),
            old(self).live(u as int),
            old(self).live(v as int),
            u == v ==> old(self).vd(u as int).ty == VType::Z || old(self).vd(u as int).ty
                == VType::X,
            u != v && old(self).edge(u as int, v as int) is Some ==> (old(self).vd(u as int).ty
                == VType::Z || old(self).vd(u as int).ty == VType::X) && (old(self).vd(
                v as int,
            ).ty == VType::Z || old(self).vd(v as int).ty == VType::X),
        ensures
            final(self).wf(),
            final(self).n() == old(self).n(),
            forall|w: int| final(self).live(w) == old(self).live(w),
            forall|w: int|
                0 <= w < old(self).n() && w != u ==> final(self).vdata@[w] == #[trigger] old(
                    self,
                ).vdata@[w],
            final(self).vd(u as int).ty == old(self).vd(u as int).ty,
            final(self).vd(u as int).vars == old(self).vd(u as int).vars,
            final(self).vd(u as int).row == old(self).vd(u as int).row,
            final(self).vd(u as int).qubit == old(self).vd(u as int).qubit,
            final(self).vd(u as int).phase.wf(),
            final(self).factors@ == old(self).factors@,
            final(self).inputs@ == old(self).inputs@,
            final(self).outputs@ == old(self).outputs@,
            u != v ==> {
                let same = old(self).vd(u as int).ty == old(self).vd(v as int).ty;
                let prior = old(self).edge(u as int, v as int);
                &&& forall|a: int, b: int|
                    #![trigger old(self).adj@[a]@[b]]
                    0 <= a < old(self).n() && 0 <= b < old(self).n() ==> final(self).edge(a, b)
                        == (if a == u && b == v || a == v && b == u {
                        combined_edge(same, prior, et)
                    } else {
                        old(self).edge(a, b)
                    })
                &&& final(self).vd(u as int).phase.val() == (if combined_pi(prior, et) {
                    (old(self).vd(u as int).phase.val() + pow2(61)) % (pow2(62) as int)
                } else {
                    old(self).vd(u as int).phase.val()
                })
                &&& (!combined_pi(prior, et) ==> final(self).vdata@[u as int] == old(self).vdata@[u as int])
                &&& final(self).scalar == (if combined_pow(same, prior, et) == 0 {
                    old(self).scalar
                } else {
                    Scalar4::spec_mul(
                        old(self).scalar,
                        Scalar4 {
                            c0: 1,
                            c1: 0,
                            c2: 0,
                            c3: 0,
                            pow: combined_pow(same, prior, et) as i64,
                            ok: true,
                        },
                    )
                })
            },
            u == v ==> {
                &&& forall|a: int, b: int|
                    #![trigger old(self).adj@[a]@[b]]
                    0 <= a < old(self).n() && 0 <= b < old(self).n() ==> final(self).edge(a, b)
                        == old(self).edge(a, b)
                &&& final(self).vd(u as int).phase.val() == (if et == EType::H {
                    (old(self).vd(u as int).phase.val() + pow2(61)) % (pow2(62) as int)
                } else {
                    old(self).vd(u as int).phase.val()
                })
                &&& et == EType::N ==> *final(self) == *old(self)
                &&& final(self).scalar == (if et == EType::H {
                    Scalar4::spec_mul(
                        old(self).scalar,
                        Scalar4 { c0: 1, c1: 0, c2: 0, c3: 0, pow: (-1) as i64, ok: true },
                    )
                } else {
                    old(self).scalar
                })
            },
    {
        if u == v {
            if et == EType::H {
                let pi = Phase::pi();
                self.add_to_phase(u, pi);
                let ghost mid = *self;
                self.scalar_mul_sqrt2_pow(-1);
                proof {
                    assert(self.vdata@ == mid.vdata@);
                    assert(self.adj@ == mid.adj@);
                    assert(self.vd(u as int).phase.val() == (old(self).vd(u as int).phase.val()
                        + pow2(61)) % (pow2(62) as int));
                    assert(self.scalar == Scalar4::spec_mul(
                        old(self).scalar,
                        Scalar4 { c0: 1, c1: 0, c2: 0, c3: 0, pow: (-1) as i64, ok: true },
                    ));
                    assert(forall|a: int, b: int|
                        0 <= a < old(self).n() && 0 <= b < old(self).n()
                            ==> #[trigger] self.edge(a, b) == old(self).edge(a, b));
                }
            }
            return ;
        }
        let prior = self.adj[u][v];
        match prior {
            None => {
                self.add_edge_with_type(u, v, et);
                proof {
                    let same = old(self).vd(u as int).ty == old(self).vd(v as int).ty;
                    assert(combined_edge(same, None::<EType>, et) == Some(et));
                    assert(forall|a: int, b: int|
                        #![trigger old(self).adj@[a]@[b]]
                        0 <= a < old(self).n() && 0 <= b < old(self).n() ==> self.edge(a, b) == (
                        if a == u && b == v || a == v && b == u {
                            combined_edge(same, None::<EType>, et)
                        } else {
                            old(self).edge(a, b)
                        }));
                    assert(!combined_pi(None::<EType>, et));
                    assert(self.vdata@[u as int] == old(self).vdata@[u as int]);
                    assert(self.vd(u as int).phase.val() == old(self).vd(u as int).phase.val());
                    assert(combined_pow(same, None::<EType>, et) == 0);
                    assert(self.scalar == old(self).scalar);
                }
            },
            Some(e) => {
                let tu = self.vdata[u].unwrap().ty;
                let tv = self.vdata[v].unwrap().ty;
                let same = tu == tv;
                if e == et {
                    if same == (e == EType::H) {
                        // Hopf: the two edges cancel against a scalar
                        self.remove_edge(u, v);
                        self.scalar_mul_sqrt2_pow(-2);
                    } else {
                        // the parallel edge fuses away; nothing changes
                    }
                } else {
                    // mixed kinds: keep the fusing edge, push a pi onto `u`
                    let keep = if same {
                        EType::N
                    } else {
                        EType::H
                    };
                    if keep != e {
                        self.toggle_edge_type(u, v);
                    }
                    let pi = Phase::pi();
                    self.add_to_phase(u, pi);
                    self.scalar_mul_sqrt2_pow(-1);
                }
            },
        }
    }

    /// Appends a symbolic factor `(e, s)` to the accumulated product.
    pub fn mul_scalar_factor(&mut self, e: Expr, s: Scalar4)
        requires
            old(self).wf(),
            s.wf(),
        ensures
            final(self).wf(),
            final(self).vdata@ == old(self).vdata@,
            final(self).adj@ == old(self).adj@,
            final(self).scalar == old(self).scalar,
            final(self).inputs@ == old(self).inputs@,
            final(self).outputs@ == old(self).outputs@,
            final(self).factors@ == old(self).factors@.push((e, s)),
    {
        self.factors.push((e, s));
    }
}

/// The number of present entries of a row below `upto`.
pub open spec fn cnt_row(row: Seq<Option<EType>>, upto: int) -> nat
    decreases upto,
{
    if upto <= 0 {
        0
    } else {
        cnt_row(row, upto - 1) + (if row[upto - 1] is Some {
            1nat
        } else {
            0nat
        })
    }
}

/// The number of present entries of a vertex table below `upto`.
pub open spec fn cnt_live(verts: Seq<Option<VData>>, upto: int) -> nat
    decreases upto,
{
    if upto <= 0 {
        0
    } else {
        cnt_live(verts, upto - 1) + (if verts[upto - 1] is Some {
            1nat
        } else {
            0nat
        })
    }
}

/// The number of edges among pairs `(w, u)` with `w < u < upto`.
pub open spec fn cnt_pairs(adj: Seq<Vec<Option<EType>>>, upto: int) -> nat
    decreases upto,
{
    if upto <= 0 {
        0
    } else {
        cnt_pairs(adj, upto - 1) + cnt_row(adj[upto - 1]@, upto - 1)
    }
}

/// The edge left between two spiders after a parallel edge is combined:
/// `same` says whether the two spiders have the same color.
pub open spec fn combined_edge(same: bool, prior: Option<EType>, et: EType) -> Option<EType> {
    match prior {
        None => Some(et),
        Some(e) => {
            if e == et {
                if same == (e == EType::H) {
                    None
                } else {
                    Some(e)
                }
            } else {
                if same {
                    Some(EType::N)
                } else {
                    Some(EType::H)
                }
            }
        },
    }
}

/// Whether combining a parallel edge pushes a `pi` phase onto the first
/// endpoint.
pub open spec fn combined_pi(prior: Option<EType>, et: EType) -> bool {
    match prior {
        None => false,
        Some(e) => e != et,
    }
}

/// The power of `sqrt(2)` the combination multiplies into the scalar.
pub open spec fn combined_pow(same: bool, prior: Option<EType>, et: EType) -> int {
    match prior {
        None => 0,
        Some(e) => {
            if e != et {
                -1
            } else if same == (e == EType::H) {
                -2
            } else {
                0
            }
        },
    }
}

/// A row count is at most the range counted.
pub proof fn lemma_cnt_row_bound(row: Seq<Option<EType>>, upto: int)
    ensures
        cnt_row(row, upto) <= (if upto > 0 {
            upto
        } else {
            0
        }),
    decreases upto,
{
    if upto > 0 {
        lemma_cnt_row_bound(row, upto - 1);
    }
}

/// A pair count is at most `upto * upto`.
pub proof fn lemma_cnt_pairs_bound(adj: Seq<Vec<Option<EType>>>, upto: int)
    ensures
        cnt_pairs(adj, upto) <= (if upto > 0 {
            upto * upto
        } else {
            0
        }),
    decreases upto,
{
    if upto > 0 {
        lemma_cnt_pairs_bound(adj, upto - 1);
        lemma_cnt_row_bound(adj[upto - 1]@, upto - 1);
        assert((upto - 1) * (upto - 1) + (upto - 1) <= upto * upto) by (nonlinear_arith)
            requires
                upto >= 1,
        ;
    }
}

} // verus!
