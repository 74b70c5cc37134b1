//! A mesh: the lists read from the mesh files, the cell adjacency built
//! from them, and queries on it.
use vstd::prelude::*;
use crate::boundary::{boundary_outcome, find_name, lemma_find_name_range, parse_boundary, BoundaryMap, PatchSpec};
use crate::error::FoamError;
use crate::field::{field_outcome, parse_internal_field};
use crate::lists::{
    body, face_views, points_result, faces_outcome, list_outcome, parse_faces, parse_points,
    parse_scalars, parse_signed_scalars, scan_points, scan_values, signed_dec, unsigned_dec,
};
use crate::topology::{
    build_topology, covered, is_topology, lemma_boundary_face, max_owner, patches_in_range,
    resolved, topology_check, Topology,
};

verus! {

/// A mesh with points of type `P`.
pub struct FoamMesh<P> {
    pub boundary: BoundaryMap,
    pub points: Vec<P>,
    /// A face is a list of point indices.
    pub faces: Vec<Vec<usize>>,
    pub cell_faces: Vec<Vec<usize>>,
    /// The cell that owns each face.
    pub owners: Vec<usize>,
    /// The cell on the other side of each face, or the id of its patch.
    pub neighbors: Vec<i64>,
    pub cell_neighbors: Vec<Vec<i64>>,
    pub cell_centers: Option<Vec<P>>,
    /// How many faces are internal: the length of the neighbour list as read.
    pub num_inner_faces: usize,
    /// One more than the largest owner index.
    pub num_cells: usize,
    /// The neighbour list as read, before the patches were marked.
    pub raw_neighbors: Ghost<Seq<i64>>,
}

impl<P> FoamMesh<P> {
    /// The adjacency lists agree with the face lists.
    pub open spec fn wf(&self) -> bool {
        &&& self.raw_neighbors@.len() == self.num_inner_faces
        &&& self.num_inner_faces <= self.owners@.len()
        &&& patches_in_range(self.boundary@, self.owners@.len() as int)
        &&& self.neighbors@ == resolved(
            self.raw_neighbors@,
            self.owners@.len(),
            self.boundary@,
        )
        &&& self.num_cells == max_owner(self.owners@) + 1
        &&& self.num_cells <= self.cell_neighbors@.len()
        &&& is_topology(
            Topology {
                neighbors: self.neighbors,
                cell_faces: self.cell_faces,
                cell_neighbors: self.cell_neighbors,
                num_cells: self.num_cells,
            },
            self.owners@,
            self.neighbors@,
        )
    }

    /// The number of internal faces.
    pub fn num_inner_faces(&self) -> (r: usize)
        ensures
            r == self.num_inner_faces,
    {
        self.num_inner_faces
    }

    /// One more than the largest owner index.
    pub fn num_cells(&self) -> (r: usize)
        ensures
            r == self.num_cells,
    {
        self.num_cells
    }

    /// Builds a mesh from the texts of its boundary, faces, owner,
    /// neighbour and points files, each with `skip` header lines. The files
    /// are read in that order and the first failure is returned; the points
    /// are read last, each bracketed line decoded by `decode_point`.
    pub fn new<F: Fn(&str) -> Option<P>>(
        boundary_text: &str,
        faces_text: &str,
        owner_text: &str,
        neighbour_text: &str,
        points_text: &str,
        skip: usize,
        decode_point: F,
    ) -> (r: Result<FoamMesh<P>, FoamError>)
        requires
            boundary_text@.len() < 0x4000_0000_0000_0000,
            forall|s: &str| decode_point.requires((s,)),
        ensures
            ({
                let bo = boundary_outcome(boundary_text@, skip as int);
                let fo = faces_outcome(faces_text@, skip as int);
                let oo = list_outcome(scan_values(body(owner_text@, skip as int), unsigned_dec()));
                let no = list_outcome(
                    scan_values(body(neighbour_text@, skip as int), signed_dec()),
                );
                let pb = body(points_text@, skip as int);
                match r {
                    Ok(m) => {
                        &&& m.wf()
                        &&& bo == Ok::<Seq<PatchSpec>, FoamError>(m.boundary@)
                        &&& fo == Ok::<Seq<Seq<usize>>, FoamError>(face_views(m.faces@))
                        &&& oo == Ok::<Seq<usize>, FoamError>(m.owners@)
                        &&& no == Ok::<Seq<i64>, FoamError>(m.raw_neighbors@)
                        &&& points_result(decode_point, pb, skip as int, Ok(m.points))
                        &&& m.cell_centers is None
                    },
                    Err(e) => {
                        ||| bo == Err::<Seq<PatchSpec>, FoamError>(e)
                        ||| bo is Ok && fo == Err::<Seq<Seq<usize>>, FoamError>(e)
                        ||| bo is Ok && fo is Ok && oo == Err::<Seq<usize>, FoamError>(e)
                        ||| bo is Ok && fo is Ok && oo is Ok && no == Err::<Seq<i64>, FoamError>(
                            e,
                        )
                        ||| bo is Ok && fo is Ok && oo is Ok && no is Ok && topology_check(
                            oo->Ok_0,
                            no->Ok_0,
                            bo->Ok_0,
                        ) == Err::<int, FoamError>(e)
                        ||| bo is Ok && fo is Ok && oo is Ok && no is Ok && topology_check(
                            oo->Ok_0,
                            no->Ok_0,
                            bo->Ok_0,
                        ) is Ok && points_result(decode_point, pb, skip as int, Err(e))
                    },
                }
            }),
            (forall|s: &str, o: Option<P>| #[trigger] decode_point.ensures((s,), o) ==> o is Some)
                ==> (r is Ok <==> ({
                let bo = boundary_outcome(boundary_text@, skip as int);
                let oo = list_outcome(scan_values(body(owner_text@, skip as int), unsigned_dec()));
                let no = list_outcome(
                    scan_values(body(neighbour_text@, skip as int), signed_dec()),
                );
                let pb = body(points_text@, skip as int);
                &&& bo is Ok
                &&& faces_outcome(faces_text@, skip as int) is Ok
                &&& oo is Ok
                &&& no is Ok
                &&& topology_check(oo->Ok_0, no->Ok_0, bo->Ok_0) is Ok
                &&& scan_points(pb).1.len() == scan_points(pb).0
            })),
    {
        let boundary = match parse_boundary(boundary_text, skip) {
            Ok(b) => b,
            Err(e) => {
                return Err(e);
            },
        };
        let faces = match parse_faces(faces_text, skip) {
            Ok(f) => f,
            Err(e) => {
                return Err(e);
            },
        };
        let owners = match parse_scalars(owner_text, skip) {
            Ok(o) => o,
            Err(e) => {
                return Err(e);
            },
        };
        let raw = match parse_signed_scalars(neighbour_text, skip) {
            Ok(n) => n,
            Err(e) => {
                return Err(e);
            },
        };
        let ghost raw_v = raw@;
        let num_inner_faces = raw.len();
        let topo = match build_topology(&owners, raw, &boundary) {
            Ok(t) => t,
            Err(e) => {
                return Err(e);
            },
        };
        let points = match parse_points(points_text, skip, decode_point) {
            Ok(p) => p,
            Err(e) => {
                return Err(e);
            },
        };
        Ok(FoamMesh {
            boundary,
            points,
            faces,
            cell_faces: topo.cell_faces,
            owners,
            neighbors: topo.neighbors,
            cell_neighbors: topo.cell_neighbors,
            cell_centers: None,
            num_inner_faces,
            num_cells: topo.num_cells,
            raw_neighbors: Ghost(raw_v),
        })
    }

    /// Reads cell centres from the text of a field file, decoding each with
    /// `decode`, and holds them in place of any read before. On failure the
    /// mesh is left as it was.
    pub fn read_cell_centers<F: Fn(&str) -> Option<P>>(&mut self, text: &str, decode: F) -> (r:
        Result<(), FoamError>)
        requires
            forall|s: &str| decode.requires((s,)),
        ensures
            exists|res: Result<Vec<P>, FoamError>|
                #![trigger field_outcome(decode, text@, res)]
                field_outcome(decode, text@, res) && match res {
                    Ok(v) => r is Ok && final(self).cell_centers == Some(v),
                    Err(e) => r == Err::<(), FoamError>(e) && final(self).cell_centers == old(
                        self,
                    ).cell_centers,
                },
            final(self).boundary@ == old(self).boundary@,
            final(self).points == old(self).points,
            final(self).faces == old(self).faces,
            final(self).cell_faces == old(self).cell_faces,
            final(self).owners == old(self).owners,
            final(self).neighbors == old(self).neighbors,
            final(self).cell_neighbors == old(self).cell_neighbors,
            final(self).num_inner_faces == old(self).num_inner_faces,
            final(self).num_cells == old(self).num_cells,
            final(self).raw_neighbors == old(self).raw_neighbors,
    {
        let res = parse_internal_field(text, decode);
        match res {
            Ok(v) => {
                self.cell_centers = Some(v);
                Ok(())
            },
            Err(e) => Err(e),
        }
    }

    /// The entries across the faces of cell `cell_id`.
    pub fn cell_neighbor_cells(&self, cell_id: usize) -> (r: Option<&Vec<i64>>)
        ensures
            match r {
                Some(v) => cell_id < self.cell_neighbors@.len() && v@
                    == self.cell_neighbors@[cell_id as int]@,
                None => cell_id >= self.cell_neighbors@.len(),
            },
    {
        if cell_id < self.cell_neighbors.len() {
            Some(&self.cell_neighbors[cell_id])
        } else {
            None
        }
    }

    /// Whether cell `cell_id` has a face on the boundary: on any patch, or
    /// on the patch named `bd_name`.
    pub fn is_cell_on_boundary(&self, cell_id: usize, bd_name: Option<String>) -> (r: bool)
        requires
            self.wf(),
        ensures
            r == cell_on_boundary(self, cell_id as int, name_view(bd_name)),
    {
        if cell_id >= self.num_cells {
            return false;
        }
        let mut bid: i64 = 0;
        let named = match &bd_name {
            Some(name) => {
                match self.boundary.get(name.as_str()) {
                    Some(bd) => {
                        bid = bd.boundary_id;
                    },
                    None => {
                        return false;
                    },
                }
                true
            },
            None => false,
        };
        proof {
            if bd_name is Some {
                lemma_find_name_range(self.boundary@, bd_name->0@);
            }
        }
        let ns = &self.cell_neighbors[cell_id];
        let mut k: usize = 0;
        while k < ns.len()
            invariant
                k <= ns@.len(),
                cell_id < self.num_cells,
                ns@ == self.cell_neighbors@[cell_id as int]@,
                named == bd_name is Some,
                named ==> find_name(self.boundary@, bd_name->0@) >= 0 && bid
                    == self.boundary@[find_name(self.boundary@, bd_name->0@)].boundary_id,
                forall|j: int|
                    0 <= j < k ==> !(if named {
                        #[trigger] ns@[j] == bid
                    } else {
                        ns@[j] < 0
                    }),
            decreases ns@.len() - k,
        {
            let nb = ns[k];
            if (!named && nb < 0) || (named && nb == bid) {
                assert(ns@[k as int] == nb);
                return true;
            }
            k += 1;
        }
        false
    }

    /// Whether face `face_id` is a boundary face: of any patch, or of the
    /// patch named `bd_name`.
    pub fn is_face_on_boundary(&self, face_id: usize, bd_name: Option<String>) -> (r: bool)
        ensures
            r == face_on_boundary(self, face_id as int, name_view(bd_name)),
    {
        if face_id >= self.faces.len() || face_id >= self.neighbors.len() {
            return false;
        }
        match &bd_name {
            Some(name) => match self.boundary.get(name.as_str()) {
                Some(bd) => self.neighbors[face_id] == bd.boundary_id,
                None => false,
            },
            None => self.neighbors[face_id] < 0,
        }
    }

    /// The owners of the faces of the patch named `bd_name`, in face
    /// order; empty where no patch has that name.
    pub fn boundary_cells(&self, bd_name: &str) -> (r: Vec<usize>)
        requires
            self.wf(),
        ensures
            r@ == boundary_cells_of(self, bd_name@),
    {
        match self.boundary.get(bd_name) {
            Some(bd) => {
                proof {
                    lemma_find_name_range(self.boundary@, bd_name@);
                }
                let ghost p = self.boundary@[find_name(self.boundary@, bd_name@)];
                assert(p.start_face + p.num_faces <= self.owners@.len());
                let mut r: Vec<usize> = Vec::new();
                let nf = self.owners.len();
                assert(bd.start_face + bd.num_faces <= nf);
                let mut f: usize = bd.start_face;
                let e = bd.start_face + bd.num_faces;
                while f < e
                    invariant
                        bd.start_face <= f <= e <= self.owners@.len(),
                        r@ == Seq::new(
                            (f - bd.start_face) as nat,
                            |k: int| self.owners@[bd.start_face + k],
                        ),
                    decreases e - f,
                {
                    r.push(self.owners[f]);
                    f += 1;
                    assert(r@ =~= Seq::new(
                        (f - bd.start_face) as nat,
                        |k: int| self.owners@[bd.start_face + k],
                    ));
                }
                r
            },
            None => Vec::new(),
        }
    }
}

pub open spec fn name_view(n: Option<String>) -> Option<Seq<char>> {
    match n {
        Some(s) => Some(s@),
        None => None,
    }
}

/// Whether a cell lies on the boundary, or on the named patch: one of its
/// entries across faces is negative, or is that patch's id.
pub open spec fn cell_on_boundary<P>(m: &FoamMesh<P>, c: int, name: Option<Seq<char>>) -> bool {
    if c < 0 || c >= m.num_cells {
        false
    } else {
        let ns = m.cell_neighbors@[c]@;
        match name {
            None => exists|j: int| 0 <= j < ns.len() && #[trigger] ns[j] < 0,
            Some(n) => {
                let p = find_name(m.boundary@, n);
                p >= 0 && exists|j: int|
                    0 <= j < ns.len() && #[trigger] ns[j] == m.boundary@[p].boundary_id
            },
        }
    }
}

/// Whether a face lies on the boundary, or on the named patch.
pub open spec fn face_on_boundary<P>(m: &FoamMesh<P>, f: int, name: Option<Seq<char>>) -> bool {
    if f < 0 || f >= m.faces@.len() || f >= m.neighbors@.len() {
        false
    } else {
        match name {
            None => m.neighbors@[f] < 0,
            Some(n) => {
                let p = find_name(m.boundary@, n);
                p >= 0 && m.neighbors@[f] == m.boundary@[p].boundary_id
            },
        }
    }
}

/// The owners of the faces of the named patch, in face order.
pub open spec fn boundary_cells_of<P>(m: &FoamMesh<P>, name: Seq<char>) -> Seq<usize> {
    let p = find_name(m.boundary@, name);
    if p < 0 {
        seq![]
    } else {
        let b = m.boundary@[p];
        Seq::new(b.num_faces as nat, |k: int| m.owners@[b.start_face + k])
    }
}

/// On a mesh whose neighbour entries as read are all cells, whose patch
/// ids are negative, and whose patches cover every face past the internal
/// ones, a face is on the boundary exactly when a patch's range holds it.
pub proof fn lemma_face_on_boundary<P>(m: &FoamMesh<P>, f: int)
    requires
        m.wf(),
        forall|i: int| 0 <= i < m.raw_neighbors@.len() ==> #[trigger] m.raw_neighbors@[i] >= 0,
        forall|i: int| 0 <= i < m.boundary@.len() ==> (#[trigger] m.boundary@[i]).boundary_id < 0,
        forall|g: int|
            m.raw_neighbors@.len() <= g < m.owners@.len() ==> #[trigger] covered(m.boundary@, g),
        0 <= f < m.faces@.len(),
        f < m.owners@.len(),
    ensures
        face_on_boundary(m, f, None) <==> covered(m.boundary@, f),
{
    lemma_boundary_face(m.raw_neighbors@, m.owners@.len(), m.boundary@, f);
}

} // verus!
