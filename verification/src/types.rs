//! The library's public data types and their mathematical views.

use vstd::prelude::*;

use crate::text::{
    chars_of, lemma_lex_asym, lemma_lex_irreflexive, lemma_lex_transitive, lemma_sorted_distinct,
    lex_lt, range_lt, strictly_sorted,
};

verus! {

/// Inclusive bounds mandated by the input specification.
pub const MIN_VERTICES: usize = 4;

pub const MAX_VERTICES: usize = 500;

pub const MIN_FACES: usize = 4;

pub const MAX_FACES: usize = 2000;

/// Selects whether legal one-face edges are accepted.
#[derive(Debug, Clone, Copy, PartialEq, Eq, Structural)]
pub enum AuditMode {
    /// Every edge must have exactly two oppositely directed face uses.
    Closed,
    /// An edge may have one face use. Such edges form oriented boundary loops.
    Boundary,
}

impl Default for AuditMode {
    fn default() -> (r: Self)
        ensures
            r == AuditMode::Closed,
    {
        AuditMode::Closed
    }
}

/// Why the input text was rejected before any topology audit could run.
#[derive(Debug, Clone, PartialEq, Eq)]
pub enum Reject {
    /// Line with no recognized leading keyword.
    UnknownLine { line: u32 },
    /// `v` declaration without exactly one id token.
    BadVertex { line: u32 },
    /// `f` declaration whose token count is not exactly three.
    BadFaceArity { line: u32 },
    /// Face or vertex id that is not 1–32 chars of `[A-Za-z0-9_-]`.
    BadId { line: u32, id: String },
    /// `f` whose three vertices are not pairwise distinct.
    RepeatedVertex { line: u32 },
    /// Same vertex id declared by more than one `v` line.
    DuplicateVertex { line: u32, id: String },
    /// Face references a vertex that was never declared.
    UnknownVertex { line: u32, id: String },
    /// The same (unordered) triangle appears on two different `f` lines.
    DuplicateFace { line: u32 },
    /// Fewer than 4 or more than 500 unique declared vertices.
    BadVertexCount { count: usize },
    /// Fewer than 4 or more than 2000 faces.
    BadFaceCount { count: usize },
}

/// [`Reject`] with its ids as character sequences.
pub enum RejectV {
    UnknownLine { line: u32 },
    BadVertex { line: u32 },
    BadFaceArity { line: u32 },
    BadId { line: u32, id: Seq<char> },
    RepeatedVertex { line: u32 },
    DuplicateVertex { line: u32, id: Seq<char> },
    UnknownVertex { line: u32, id: Seq<char> },
    DuplicateFace { line: u32 },
    BadVertexCount { count: usize },
    BadFaceCount { count: usize },
}

impl View for Reject {
    type V = RejectV;

    open spec fn view(&self) -> RejectV {
        match self {
            Reject::UnknownLine { line } => RejectV::UnknownLine { line: *line },
            Reject::BadVertex { line } => RejectV::BadVertex { line: *line },
            Reject::BadFaceArity { line } => RejectV::BadFaceArity { line: *line },
            Reject::BadId { line, id } => RejectV::BadId { line: *line, id: id@ },
            Reject::RepeatedVertex { line } => RejectV::RepeatedVertex { line: *line },
            Reject::DuplicateVertex { line, id } => RejectV::DuplicateVertex {
                line: *line,
                id: id@,
            },
            Reject::UnknownVertex { line, id } => RejectV::UnknownVertex { line: *line, id: id@ },
            Reject::DuplicateFace { line } => RejectV::DuplicateFace { line: *line },
            Reject::BadVertexCount { count } => RejectV::BadVertexCount { count: *count },
            Reject::BadFaceCount { count } => RejectV::BadFaceCount { count: *count },
        }
    }
}

impl Reject {
    /// The 1-based document line a rejection points at; the two count
    /// rejections concern the whole document and have none.
    pub fn line(&self) -> (r: Option<u32>)
        ensures
            r == match self {
                Reject::UnknownLine { line } => Some(*line),
                Reject::BadVertex { line } => Some(*line),
                Reject::BadFaceArity { line } => Some(*line),
                Reject::BadId { line, .. } => Some(*line),
                Reject::RepeatedVertex { line } => Some(*line),
                Reject::DuplicateVertex { line, .. } => Some(*line),
                Reject::UnknownVertex { line, .. } => Some(*line),
                Reject::DuplicateFace { line } => Some(*line),
                Reject::BadVertexCount { .. } => None::<u32>,
                Reject::BadFaceCount { .. } => None::<u32>,
            },
    {
        match self {
            Reject::UnknownLine { line } => Some(*line),
            Reject::BadVertex { line } => Some(*line),
            Reject::BadFaceArity { line } => Some(*line),
            Reject::BadId { line, .. } => Some(*line),
            Reject::RepeatedVertex { line } => Some(*line),
            Reject::DuplicateVertex { line, .. } => Some(*line),
            Reject::UnknownVertex { line, .. } => Some(*line),
            Reject::DuplicateFace { line } => Some(*line),
            Reject::BadVertexCount { .. } => None,
            Reject::BadFaceCount { .. } => None,
        }
    }
}

/// The kind of failure found while auditing undirected edges.
#[derive(Debug, Clone, Copy, PartialEq, Eq, Structural)]
pub enum EdgeFault {
    /// The edge belongs to only one directed face (a mesh boundary).
    Boundary,
    /// The edge occurs twice but in the same direction (a flipped face),
    /// or its two occurrences cannot be paired oppositely.
    Misoriented,
    /// The edge is incident on three or more faces (non-manifold edge).
    Nonmanifold,
}

/// A failed undirected edge, addressed by the lexicographically ordered
/// pair of its endpoint ids.
#[derive(Debug, Clone, PartialEq, Eq)]
pub struct EdgeFailure {
    pub a: String,
    pub b: String,
    pub uses: usize,
    pub fault: EdgeFault,
}

/// [`EdgeFailure`] with its ids as character sequences.
pub struct EdgeFailureV {
    pub a: Seq<char>,
    pub b: Seq<char>,
    pub uses: usize,
    pub fault: EdgeFault,
}

impl View for EdgeFailure {
    type V = EdgeFailureV;

    open spec fn view(&self) -> EdgeFailureV {
        EdgeFailureV { a: self.a@, b: self.b@, uses: self.uses, fault: self.fault }
    }
}

/// Structured result of auditing one mesh document.
#[derive(Debug, Clone, PartialEq, Eq)]
pub enum Report {
    Rejected(Reject),
    EdgeFailed(EdgeFailure),
    /// The faces around this vertex do not form exactly one cyclic fan in
    /// closed mode, or one simple path/cycle in boundary mode.
    VertexFailed { id: String, sectors: usize },
    /// Two or more edge-connected components exist; this is the smallest
    /// vertex id outside the component containing the smallest vertex
    /// overall.
    ComponentFailed { id: String },
    /// A closed connected orientable surface passed the default audit.
    ClosedOk { vertices: usize, edges: usize, faces: usize, euler: i64, genus: u32 },
    /// A connected orientable surface, possibly with boundary, passed the
    /// explicit boundary audit. Each inner vector is one boundary loop.
    BoundaryOk {
        vertices: usize,
        edges: usize,
        faces: usize,
        euler: i64,
        genus: u32,
        boundary: Vec<Vec<String>>,
    },
    /// All combinatorial stages passed, but `χ = 2 - 2g - b` does not yield
    /// a non-negative integer genus. No genus or successful status is
    /// reported in that case.
    TopologyFailed {
        vertices: usize,
        edges: usize,
        faces: usize,
        euler: i64,
        boundary_count: usize,
    },
}

/// [`Report`] with its ids as character sequences.
pub enum ReportV {
    Rejected(RejectV),
    EdgeFailed(EdgeFailureV),
    VertexFailed { id: Seq<char>, sectors: usize },
    ComponentFailed { id: Seq<char> },
    ClosedOk { vertices: usize, edges: usize, faces: usize, euler: i64, genus: u32 },
    BoundaryOk {
        vertices: usize,
        edges: usize,
        faces: usize,
        euler: i64,
        genus: u32,
        boundary: Seq<Seq<Seq<char>>>,
    },
    TopologyFailed {
        vertices: usize,
        edges: usize,
        faces: usize,
        euler: i64,
        boundary_count: usize,
    },
}

impl View for Report {
    type V = ReportV;

    open spec fn view(&self) -> ReportV {
        match self {
            Report::Rejected(r) => ReportV::Rejected(r@),
            Report::EdgeFailed(f) => ReportV::EdgeFailed(f@),
            Report::VertexFailed { id, sectors } => ReportV::VertexFailed {
                id: id@,
                sectors: *sectors,
            },
            Report::ComponentFailed { id } => ReportV::ComponentFailed { id: id@ },
            Report::ClosedOk { vertices, edges, faces, euler, genus } => ReportV::ClosedOk {
                vertices: *vertices,
                edges: *edges,
                faces: *faces,
                euler: *euler,
                genus: *genus,
            },
            Report::BoundaryOk { vertices, edges, faces, euler, genus, boundary } =>
                ReportV::BoundaryOk {
                vertices: *vertices,
                edges: *edges,
                faces: *faces,
                euler: *euler,
                genus: *genus,
                boundary: boundary.deep_view(),
            },
            Report::TopologyFailed { vertices, edges, faces, euler, boundary_count } =>
                ReportV::TopologyFailed {
                vertices: *vertices,
                edges: *edges,
                faces: *faces,
                euler: *euler,
                boundary_count: *boundary_count,
            },
        }
    }
}

/// A parsed mesh: ordered face list plus sorted vertex id inventory.
#[derive(Debug, Clone)]
pub struct Mesh {
    /// All declared vertex ids, sorted lexicographically.
    pub vertices: Vec<String>,
    /// Directed faces; each face is three vertex ids in declared order.
    pub faces: Vec<[String; 3]>,
}

/// [`Mesh`] with its ids as character sequences.
pub struct MeshV {
    pub vertices: Seq<Seq<char>>,
    pub faces: Seq<Seq<Seq<char>>>,
}

impl View for Mesh {
    type V = MeshV;

    open spec fn view(&self) -> MeshV {
        MeshV { vertices: self.vertices.deep_view(), faces: self.faces.deep_view() }
    }
}

/// A face given by the positions of its three corners in the sorted
/// vertex list, in the face's declared order.
pub type Tri = (usize, usize, usize);

/// Corner `k` (taken modulo 3) of a face.
pub open spec fn corner(t: Tri, k: int) -> int {
    let r = k % 3;
    if r == 0 {
        t.0 as int
    } else if r == 1 {
        t.1 as int
    } else {
        t.2 as int
    }
}

impl MeshV {
    /// The invariant of a mesh that the audits rely on, as `parse`
    /// establishes it: ids sorted strictly (so pairwise distinct), every
    /// face made of three distinct declared ids, and sizes small enough
    /// that every count fits the machine integers used.
    pub open spec fn wf(self) -> bool {
        &&& strictly_sorted(self.vertices)
        &&& forall|f: int| 0 <= f < self.faces.len() ==> #[trigger] self.faces[f].len() == 3
        &&& forall|f: int, k: int|
            0 <= f < self.faces.len() && 0 <= k < 3 ==> self.vertices.contains(
                #[trigger] self.faces[f][k],
            )
        &&& forall|f: int|
            0 <= f < self.faces.len() ==> {
                &&& #[trigger] self.faces[f][0] != self.faces[f][1]
                &&& self.faces[f][1] != self.faces[f][2]
                &&& self.faces[f][0] != self.faces[f][2]
            }
        &&& self.vertices.len() + 3 * self.faces.len() <= u32::MAX
    }

    /// Number of vertices.
    pub open spec fn n(self) -> int {
        self.vertices.len() as int
    }

    /// Position of id `x` in the sorted vertex list.
    pub open spec fn index_of(self, x: Seq<char>) -> int {
        choose|i: int| 0 <= i < self.vertices.len() && self.vertices[i] == x
    }

    /// The faces as corner positions: the index model every audit stage is
    /// stated over. Under [`MeshV::wf`] position order is id order.
    pub open spec fn tris(self) -> Seq<Tri> {
        Seq::new(
            self.faces.len(),
            |f: int|
                (
                    self.index_of(self.faces[f][0]) as usize,
                    self.index_of(self.faces[f][1]) as usize,
                    self.index_of(self.faces[f][2]) as usize,
                ),
        )
    }

    /// Id of the vertex at position `i`.
    pub open spec fn name(self, i: int) -> Seq<char> {
        self.vertices[i]
    }
}

/// In a well-formed mesh a lower position holds a smaller id.
pub proof fn lemma_position_order(m: MeshV, i: int, j: int)
    requires
        m.wf(),
        0 <= i < m.n(),
        0 <= j < m.n(),
        lex_lt(m.name(i), m.name(j)),
    ensures
        i < j,
{
    if i == j {
        lemma_lex_irreflexive(m.name(i));
    } else if j < i {
        assert(lex_lt(m.name(j), m.name(i)));
        lemma_lex_asym(m.name(j), m.name(i));
    }
}

/// Ids that increase from each to the next increase throughout.
proof fn lemma_chain_sorted(s: Seq<Seq<char>>, i: int, j: int)
    requires
        forall|k: int| 0 <= k < s.len() - 1 ==> lex_lt(#[trigger] s[k], s[k + 1]),
        0 <= i < j < s.len(),
    ensures
        lex_lt(s[i], s[j]),
    decreases j - i,
{
    if j > i + 1 {
        lemma_chain_sorted(s, i, j - 1);
        assert(lex_lt(s[j - 1], s[j]));
        lemma_lex_transitive(s[i], s[j - 1], s[j]);
    }
}

/// Whether `x` comes strictly before `y` in the order of ids.
fn id_lt(x: &String, y: &String) -> (r: bool)
    ensures
        r == lex_lt(x@, y@),
{
    let mut cs = chars_of(x.as_str());
    let k = cs.len();
    let ys = chars_of(y.as_str());
    let mut i: usize = 0;
    while i < ys.len()
        invariant
            k == x@.len(),
            cs@ == x@ + ys@.take(i as int),
            i <= ys.len(),
        decreases ys.len() - i,
    {
        cs.push(ys[i]);
        i = i + 1;
        proof {
            assert(cs@ =~= x@ + ys@.take(i as int));
        }
    }
    proof {
        assert(ys@.take(i as int) =~= ys@);
        assert(cs@.subrange(0, k as int) =~= x@);
        assert(cs@.subrange(k as int, cs.len() as int) =~= y@);
    }
    range_lt(&cs, 0, k, k, cs.len())
}

impl Mesh {
    /// Whether the mesh meets the invariant the audits rely on
    /// ([`MeshV::wf`]), as every mesh that `parse` returns does.
    pub fn is_well_formed(&self) -> (b: bool)
        ensures
            b == self@.wf(),
    {
        let ghost m = self@;
        let nv = self.vertices.len();
        let nf = self.faces.len();
        if nv > 0xFFFF_FFFF || nf > 0xFFFF_FFFF {
            return false;
        }
        if (nv as u64) + 3 * (nf as u64) > 0xFFFF_FFFF {
            return false;
        }
        let mut i: usize = 1;
        while i < nv
            invariant
                m == self@,
                nv == self.vertices.len(),
                1 <= i,
                i <= nv || nv == 0,
                forall|k: int| 0 <= k && k + 1 < i && k + 1 < nv ==> lex_lt(#[trigger] m.vertices[k], m.vertices[k + 1]),
            decreases nv - i,
        {
            proof {
                assert(m.vertices[i - 1] == self.vertices@[i - 1]@);
                assert(m.vertices[i as int] == self.vertices@[i as int]@);
            }
            if !id_lt(&self.vertices[i - 1], &self.vertices[i]) {
                return false;
            }
            i = i + 1;
        }
        proof {
            assert forall|a: int, b: int| 0 <= a < b < m.vertices.len() implies lex_lt(
                #[trigger] m.vertices[a],
                #[trigger] m.vertices[b],
            ) by {
                lemma_chain_sorted(m.vertices, a, b);
            }
        }
        let mut f: usize = 0;
        while f < nf
            invariant
                m == self@,
                nv == self.vertices.len(),
                nf == self.faces.len(),
                f <= nf,
                strictly_sorted(m.vertices),
                forall|g: int| 0 <= g < nf ==> #[trigger] m.faces[g].len() == 3,
                forall|g: int, k: int|
                    0 <= g < f && 0 <= k < 3 ==> m.vertices.contains(#[trigger] m.faces[g][k]),
                forall|g: int|
                    0 <= g < f ==> {
                        &&& #[trigger] m.faces[g][0] != m.faces[g][1]
                        &&& m.faces[g][1] != m.faces[g][2]
                        &&& m.faces[g][0] != m.faces[g][2]
                    },
            decreases nf - f,
        {
            let face = &self.faces[f];
            proof {
                assert(m.faces[f as int] == face.deep_view());
                assert(face@[0]@ == m.faces[f as int][0]);
                assert(face@[1]@ == m.faces[f as int][1]);
                assert(face@[2]@ == m.faces[f as int][2]);
            }
            if face[0] == face[1] || face[1] == face[2] || face[0] == face[2] {
                return false;
            }
            let mut k: usize = 0;
            while k < 3
                invariant
                    m == self@,
                    nv == self.vertices.len(),
                    nf == self.faces.len(),
                    f < nf,
                    face == &self.faces@[f as int],
                    m.faces[f as int] == face.deep_view(),
                    k <= 3,
                    forall|q: int| 0 <= q < k ==> m.vertices.contains(#[trigger] m.faces[f as int][q]),
                decreases 3 - k,
            {
                let mut j: usize = 0;
                let mut found = false;
                while j < nv
                    invariant
                        m == self@,
                        nv == self.vertices.len(),
                        k < 3,
                        m.faces[f as int] == face.deep_view(),
                        j <= nv,
                        found ==> m.vertices.contains(m.faces[f as int][k as int]),
                        !found ==> forall|q: int| 0 <= q < j ==> m.vertices[q] != m.faces[f as int][k as int],
                    decreases nv - j,
                {
                    proof {
                        assert(m.vertices[j as int] == self.vertices@[j as int]@);
                        assert(face@[k as int]@ == m.faces[f as int][k as int]);
                    }
                    if self.vertices[j] == face[k] {
                        found = true;
                        proof {
                            assert(m.vertices[j as int] == m.faces[f as int][k as int]);
                        }
                    }
                    j = j + 1;
                }
                if !found {
                    proof {
                        assert(!m.vertices.contains(m.faces[f as int][k as int]));
                    }
                    return false;
                }
                k = k + 1;
            }
            f = f + 1;
        }
        true
    }

    /// Index of the sorted vertex list entry equal to `x`.
    fn position_of(&self, x: &String) -> (r: usize)
        requires
            self@.wf(),
            self@.vertices.contains(x@),
        ensures
            r < self.vertices.len(),
            r as int == self@.index_of(x@),
            self@.vertices[r as int] == x@,
    {
        let ghost m = self@;
        let mut i: usize = 0;
        while i < self.vertices.len()
            invariant
                m == self@,
                m.wf(),
                m.vertices.contains(x@),
                i <= self.vertices.len(),
                forall|j: int| 0 <= j < i ==> m.vertices[j] != x@,
            decreases self.vertices.len() - i,
        {
            if self.vertices[i] == *x {
                proof {
                    assert(m.vertices[i as int] == x@);
                    let c = m.index_of(x@);
                    if c != i {
                        lemma_sorted_distinct(m.vertices, c, i as int);
                    }
                }
                return i;
            }
            proof {
                assert(m.vertices[i as int] == self.vertices@[i as int]@);
            }
            i = i + 1;
        }
        proof {
            let j = choose|j: int| 0 <= j < m.vertices.len() && m.vertices[j] == x@;
            assert(false);
        }
        0
    }

    /// The faces as corner positions ([`MeshV::tris`]).
    pub fn index_faces(&self) -> (r: Vec<Tri>)
        requires
            self@.wf(),
        ensures
            r@ == self@.tris(),
    {
        let ghost m = self@;
        let mut r: Vec<Tri> = Vec::new();
        let mut f: usize = 0;
        while f < self.faces.len()
            invariant
                m == self@,
                m.wf(),
                f <= self.faces.len(),
                r@ == m.tris().take(f as int),
            decreases self.faces.len() - f,
        {
            let face = &self.faces[f];
            proof {
                assert(m.faces[f as int] == face.deep_view());
                assert(m.faces[f as int].len() == 3);
                assert(m.vertices.contains(m.faces[f as int][0]));
                assert(m.vertices.contains(m.faces[f as int][1]));
                assert(m.vertices.contains(m.faces[f as int][2]));
                assert(face@[0]@ == m.faces[f as int][0]);
                assert(face@[1]@ == m.faces[f as int][1]);
                assert(face@[2]@ == m.faces[f as int][2]);
            }
            let a = self.position_of(&face[0]);
            let b = self.position_of(&face[1]);
            let c = self.position_of(&face[2]);
            r.push((a, b, c));
            f = f + 1;
            proof {
                assert(r@ =~= m.tris().take(f as int));
            }
        }
        proof {
            assert(m.tris().take(f as int) =~= m.tris());
        }
        r
    }
}

} // verus!
