//! Cell adjacency built from the owner and neighbour lists of the faces.
use vstd::prelude::*;
use crate::boundary::{BoundaryMap, PatchSpec, same_patch};
use crate::error::FoamError;

verus! {

/// The neighbour list with the faces of patch `p` marked by its id.
pub open spec fn apply_patch(ns: Seq<i64>, p: PatchSpec) -> Seq<i64> {
    Seq::new(
        ns.len(),
        |f: int|
            if p.start_face <= f < p.start_face + p.num_faces {
                p.boundary_id
            } else {
                ns[f]
            },
    )
}

/// The patches applied in order.
pub open spec fn apply_patches(ns: Seq<i64>, ps: Seq<PatchSpec>) -> Seq<i64>
    decreases ps.len(),
{
    if ps.len() == 0 {
        ns
    } else {
        apply_patch(apply_patches(ns, ps.drop_last()), ps.last())
    }
}

/// The neighbour list of all `nfaces` faces: the internal faces' entries,
/// -10 for every other face, then each patch's id over its faces.
pub open spec fn resolved(raw: Seq<i64>, nfaces: nat, ps: Seq<PatchSpec>) -> Seq<i64> {
    apply_patches(raw + Seq::new((nfaces - raw.len()) as nat, |i: int| -10i64), ps)
}

/// The largest owner index.
pub open spec fn max_owner(owners: Seq<usize>) -> int
    decreases owners.len(),
{
    if owners.len() == 0 {
        0
    } else {
        let m = max_owner(owners.drop_last());
        if owners.len() == 1 || owners.last() > m {
            owners.last() as int
        } else {
            m
        }
    }
}

/// The largest neighbour entry, -10 for none.
pub open spec fn max_neighbor(ns: Seq<i64>) -> int
    decreases ns.len(),
{
    if ns.len() == 0 {
        -10
    } else {
        let m = max_neighbor(ns.drop_last());
        if ns.len() == 1 || ns.last() > m {
            ns.last() as int
        } else {
            m
        }
    }
}

/// How many cells the adjacency lists are made for.
pub open spec fn cell_count(owners: Seq<usize>, ns: Seq<i64>) -> int {
    let a = max_owner(owners);
    let b = max_neighbor(ns);
    (if a >= b {
        a
    } else {
        b
    }) + 1
}

/// The faces owned by cell `c`, in face order.
pub open spec fn owned_faces(owners: Seq<usize>, c: int) -> Seq<usize>
    decreases owners.len(),
{
    if owners.len() == 0 {
        seq![]
    } else {
        let p = owned_faces(owners.drop_last(), c);
        if owners.last() == c {
            p.push((owners.len() - 1) as usize)
        } else {
            p
        }
    }
}

/// The faces whose neighbour is cell `c`, in face order.
pub open spec fn neighbored_faces(ns: Seq<i64>, c: int) -> Seq<usize>
    decreases ns.len(),
{
    if ns.len() == 0 {
        seq![]
    } else {
        let p = neighbored_faces(ns.drop_last(), c);
        if ns.last() == c {
            p.push((ns.len() - 1) as usize)
        } else {
            p
        }
    }
}

/// The faces of cell `c`: those it owns, then those it neighbours.
pub open spec fn faces_of_cell(owners: Seq<usize>, ns: Seq<i64>, c: int) -> Seq<usize> {
    owned_faces(owners, c) + neighbored_faces(ns, c)
}

/// What lies across each face of cell `c`, face by face: for a face it
/// neighbours, the owner; for a face it owns, the neighbour entry (a cell
/// or a patch id).
pub open spec fn across_of_cell(owners: Seq<usize>, ns: Seq<i64>, c: int) -> Seq<i64>
    decreases owners.len(),
{
    if owners.len() == 0 || ns.len() != owners.len() {
        seq![]
    } else {
        let p = across_of_cell(owners.drop_last(), ns.drop_last(), c);
        let o = owners.last();
        let n = ns.last();
        let q = if n == c {
            p.push(o as i64)
        } else {
            p
        };
        if o == c {
            q.push(n)
        } else {
            q
        }
    }
}

/// Each patch's faces lie among the `nfaces` faces.
pub open spec fn patches_in_range(ps: Seq<PatchSpec>, nfaces: int) -> bool {
    forall|i: int| 0 <= i < ps.len() ==> #[trigger] ps[i].start_face + ps[i].num_faces <= nfaces
}

/// The outcome of building the topology, as an error or as the cell count.
pub open spec fn topology_check(owners: Seq<usize>, raw: Seq<i64>, ps: Seq<PatchSpec>) -> Result<
    int,
    FoamError,
> {
    if owners.len() == 0 {
        Err(FoamError::EmptyMesh)
    } else if raw.len() > owners.len() {
        Err(FoamError::NeighborsExceedFaces)
    } else if !patches_in_range(ps, owners.len() as int) {
        Err(FoamError::PatchOutOfRange)
    } else {
        let n = cell_count(owners, resolved(raw, owners.len(), ps));
        if n > usize::MAX || n > i64::MAX {
            Err(FoamError::CellCountOverflow)
        } else {
            Ok(n)
        }
    }
}

/// The adjacency of the cells of a mesh.
pub struct Topology {
    /// The neighbour entry of every face: a cell, or a patch id.
    pub neighbors: Vec<i64>,
    pub cell_faces: Vec<Vec<usize>>,
    pub cell_neighbors: Vec<Vec<i64>>,
    /// One more than the largest owner index.
    pub num_cells: usize,
}

/// `t` is the topology of the faces with `owners` and neighbour entries `ns`.
pub open spec fn is_topology(t: Topology, owners: Seq<usize>, ns: Seq<i64>) -> bool {
    &&& t.neighbors@ == ns
    &&& ns.len() == owners.len()
    &&& t.num_cells == max_owner(owners) + 1
    &&& t.cell_faces@.len() == cell_count(owners, ns)
    &&& t.cell_neighbors@.len() == cell_count(owners, ns)
    &&& forall|c: int|
        0 <= c < t.cell_faces@.len() ==> (#[trigger] t.cell_faces@[c])@ == faces_of_cell(
            owners,
            ns,
            c,
        )
    &&& forall|c: int|
        0 <= c < t.cell_neighbors@.len() ==> (#[trigger] t.cell_neighbors@[c])@
            == across_of_cell(owners, ns, c)
}

proof fn lemma_max_owner(owners: Seq<usize>)
    ensures
        forall|i: int| 0 <= i < owners.len() ==> #[trigger] owners[i] <= max_owner(owners),
        max_owner(owners) >= 0,
    decreases owners.len(),
{
    if owners.len() > 0 {
        lemma_max_owner(owners.drop_last());
        assert forall|i: int| 0 <= i < owners.len() implies #[trigger] owners[i] <= max_owner(
            owners,
        ) by {
            if i < owners.len() - 1 {
                assert(owners.drop_last()[i] == owners[i]);
            }
        }
    }
}

proof fn lemma_max_neighbor(ns: Seq<i64>)
    ensures
        forall|i: int| 0 <= i < ns.len() ==> #[trigger] ns[i] <= max_neighbor(ns),
        i64::MIN <= max_neighbor(ns) <= i64::MAX,
    decreases ns.len(),
{
    if ns.len() > 0 {
        lemma_max_neighbor(ns.drop_last());
        assert forall|i: int| 0 <= i < ns.len() implies #[trigger] ns[i] <= max_neighbor(ns) by {
            if i < ns.len() - 1 {
                assert(ns.drop_last()[i] == ns[i]);
            }
        }
    }
}

/// Builds the cell adjacency from the owner of each face, the neighbour of
/// each internal face (the first `raw.len()` faces) and the patches.
pub fn build_topology(owners: &Vec<usize>, raw: Vec<i64>, boundary: &BoundaryMap) -> (r: Result<
    Topology,
    FoamError,
>)
    ensures
        match r {
            Ok(t) => topology_check(owners@, raw@, boundary@) == Ok::<int, FoamError>(
                t.cell_faces@.len() as int,
            ) && is_topology(t, owners@, resolved(raw@, owners@.len(), boundary@)),
            Err(e) => topology_check(owners@, raw@, boundary@) == Err::<int, FoamError>(e),
        },
{
    let nf = owners.len();
    if nf == 0 {
        return Err(FoamError::EmptyMesh);
    }
    if raw.len() > nf {
        return Err(FoamError::NeighborsExceedFaces);
    }
    let ghost ps = boundary@;
    let np = boundary.len();
    let mut i: usize = 0;
    while i < np
        invariant
            np == ps.len(),
            ps == boundary@,
            nf == owners@.len(),
            0 < nf,
            raw@.len() <= nf,
            i <= np,
            forall|k: int| 0 <= k < i ==> #[trigger] ps[k].start_face + ps[k].num_faces <= nf,
        decreases np - i,
    {
        let b = boundary.patch_at(i);
        if b.start_face > nf || b.num_faces > nf - b.start_face {
            assert(ps[i as int].start_face + ps[i as int].num_faces > nf);
            assert(!patches_in_range(ps, nf as int));
            return Err(FoamError::PatchOutOfRange);
        }
        i += 1;
    }
    let mut nbs = raw;
    let ghost raw_v = nbs@;
    let mut k: usize = nbs.len();
    while k < nf
        invariant
            raw_v.len() <= k <= nf,
            nbs@ == raw_v + Seq::new((k - raw_v.len()) as nat, |i: int| -10i64),
        decreases nf - k,
    {
        nbs.push(-10);
        k += 1;
        assert(nbs@ =~= raw_v + Seq::new((k - raw_v.len()) as nat, |i: int| -10i64));
    }
    let ghost base = nbs@;
    let mut i: usize = 0;
    assert(ps.take(0) =~= seq![]);
    while i < np
        invariant
            np == ps.len(),
            ps == boundary@,
            i <= np,
            nbs@.len() == nf,
            base.len() == nf,
            patches_in_range(ps, nf as int),
            nbs@ == apply_patches(base, ps.take(i as int)),
        decreases np - i,
    {
        let b = boundary.patch_at(i);
        assert(ps.take(i + 1).drop_last() =~= ps.take(i as int));
        let ghost prev = nbs@;
        let s = b.start_face;
        let e = b.start_face + b.num_faces;
        let mut f: usize = s;
        assert(nbs@ =~= Seq::new(nf as nat, |g: int| if s <= g < f { b.boundary_id } else { prev[g] }));
        while f < e
            invariant
                s <= f <= e <= nf,
                prev.len() == nf,
                nbs@ == Seq::new(nf as nat, |g: int| if s <= g < f { b.boundary_id } else { prev[g] }),
            decreases e - f,
        {
            nbs.set(f, b.boundary_id);
            f += 1;
            assert(nbs@ =~= Seq::new(nf as nat, |g: int| if s <= g < f { b.boundary_id } else { prev[g] }));
        }
        assert(nbs@ =~= apply_patch(prev, ps[i as int]));
        i += 1;
    }
    assert(ps.take(np as int) =~= ps);
    let ghost ns = nbs@;
    // largest owner and neighbour
    let mut mo: usize = owners[0];
    let mut i: usize = 1;
    assert(owners@.take(1).drop_last() =~= seq![]);
    while i < nf
        invariant
            1 <= i <= nf == owners@.len(),
            mo == max_owner(owners@.take(i as int)),
        decreases nf - i,
    {
        assert(owners@.take(i + 1).drop_last() =~= owners@.take(i as int));
        if owners[i] > mo {
            mo = owners[i];
        }
        i += 1;
    }
    assert(owners@.take(nf as int) =~= owners@);
    let mut mn: i64 = nbs[0];
    let mut i: usize = 1;
    assert(ns.take(1).drop_last() =~= seq![]);
    while i < nf
        invariant
            1 <= i <= nf == ns.len(),
            ns == nbs@,
            mn == max_neighbor(ns.take(i as int)),
        decreases nf - i,
    {
        assert(ns.take(i + 1).drop_last() =~= ns.take(i as int));
        if nbs[i] > mn {
            mn = nbs[i];
        }
        i += 1;
    }
    assert(ns.take(nf as int) =~= ns);
    let top: u64 = if mn >= 0 && mn as u64 > mo as u64 {
        mn as u64
    } else {
        mo as u64
    };
    if top >= 0x7fff_ffff_ffff_ffff || top >= usize::MAX as u64 {
        return Err(FoamError::CellCountOverflow);
    }
    let n = (top + 1) as usize;
    proof {
        lemma_max_owner(owners@);
        lemma_max_neighbor(ns);
    }
    let mut cf: Vec<Vec<usize>> = Vec::new();
    let mut cn: Vec<Vec<i64>> = Vec::new();
    let mut c: usize = 0;
    while c < n
        invariant
            c <= n,
            cf@.len() == c,
            cn@.len() == c,
            forall|d: int| 0 <= d < c ==> (#[trigger] cf@[d])@ == Seq::<usize>::empty(),
            forall|d: int| 0 <= d < c ==> (#[trigger] cn@[d])@ == Seq::<i64>::empty(),
        decreases n - c,
    {
        cf.push(Vec::new());
        cn.push(Vec::new());
        c += 1;
    }
    assert(owners@.take(0) =~= seq![]);
    let mut i: usize = 0;
    while i < nf
        invariant
            i <= nf == owners@.len(),
            cf@.len() == n,
            forall|o: int| 0 <= o < nf ==> #[trigger] owners@[o] < n,
            forall|d: int|
                0 <= d < n ==> (#[trigger] cf@[d])@ == owned_faces(owners@.take(i as int), d),
        decreases nf - i,
    {
        assert(owners@.take(i + 1).drop_last() =~= owners@.take(i as int));
        let o = owners[i];
        cf[o].push(i);
        i += 1;
        assert forall|d: int| 0 <= d < n implies (#[trigger] cf@[d])@ == owned_faces(
            owners@.take(i as int),
            d,
        ) by {}
    }
    assert(owners@.take(nf as int) =~= owners@);
    assert(ns.take(0) =~= seq![]);
    let mut i: usize = 0;
    while i < nf
        invariant
            i <= nf == owners@.len(),
            ns.len() == nf,
            ns == nbs@,
            cf@.len() == n,
            cn@.len() == n,
            n <= 0x7fff_ffff_ffff_ffff,
            forall|o: int| 0 <= o < nf ==> #[trigger] owners@[o] < n,
            forall|o: int| 0 <= o < nf ==> #[trigger] ns[o] < n,
            forall|d: int|
                0 <= d < n ==> (#[trigger] cf@[d])@ == owned_faces(owners@, d) + neighbored_faces(
                    ns.take(i as int),
                    d,
                ),
            forall|d: int|
                0 <= d < n ==> (#[trigger] cn@[d])@ == across_of_cell(
                    owners@.take(i as int),
                    ns.take(i as int),
                    d,
                ),
        decreases nf - i,
    {
        assert(owners@.take(i + 1).drop_last() =~= owners@.take(i as int));
        assert(ns.take(i + 1).drop_last() =~= ns.take(i as int));
        let o = owners[i];
        let nb = nbs[i];
        if nb >= 0 {
            let u = nb as usize;
            cf[u].push(i);
            cn[u].push(o as i64);
        }
        cn[o].push(nb);
        i += 1;
        assert forall|d: int| 0 <= d < n implies (#[trigger] cf@[d])@ == owned_faces(owners@, d)
            + neighbored_faces(ns.take(i as int), d) by {}
        assert forall|d: int| 0 <= d < n implies (#[trigger] cn@[d])@ == across_of_cell(
            owners@.take(i as int),
            ns.take(i as int),
            d,
        ) by {}
    }
    assert(owners@.take(nf as int) =~= owners@);
    assert(ns.take(nf as int) =~= ns);
    Ok(Topology { neighbors: nbs, cell_faces: cf, cell_neighbors: cn, num_cells: mo + 1 })
}

proof fn lemma_across_len(owners: Seq<usize>, ns: Seq<i64>, c: int)
    requires
        ns.len() == owners.len(),
    ensures
        across_of_cell(owners, ns, c).len() == owned_faces(owners, c).len() + neighbored_faces(
            ns,
            c,
        ).len(),
    decreases owners.len(),
{
    if owners.len() > 0 {
        lemma_across_len(owners.drop_last(), ns.drop_last(), c);
    }
}

proof fn lemma_across_has(owners: Seq<usize>, ns: Seq<i64>, c: int, f: int)
    requires
        ns.len() == owners.len(),
        0 <= f < owners.len(),
    ensures
        owners[f] == c ==> exists|k: int|
            0 <= k < across_of_cell(owners, ns, c).len() && #[trigger] across_of_cell(
                owners,
                ns,
                c,
            )[k] == ns[f],
        ns[f] == c ==> exists|k: int|
            0 <= k < across_of_cell(owners, ns, c).len() && #[trigger] across_of_cell(
                owners,
                ns,
                c,
            )[k] == owners[f] as i64,
    decreases owners.len(),
{
    let r = across_of_cell(owners, ns, c);
    let p = across_of_cell(owners.drop_last(), ns.drop_last(), c);
    assert(forall|k: int| 0 <= k < p.len() ==> r[k] == #[trigger] p[k]);
    let n = owners.len() - 1;
    if f == n {
        if owners[f] == c {
            assert(r[r.len() - 1] == ns[f]);
        }
        if ns[f] == c {
            assert(r[p.len() as int] == owners[f] as i64);
        }
    } else {
        lemma_across_has(owners.drop_last(), ns.drop_last(), c, f);
        assert(owners.drop_last()[f] == owners[f]);
        assert(ns.drop_last()[f] == ns[f]);
        if owners[f] == c {
            let k = choose|k: int| 0 <= k < p.len() && #[trigger] p[k] == ns[f];
            assert(r[k] == ns[f]);
        }
        if ns[f] == c {
            let k = choose|k: int| 0 <= k < p.len() && #[trigger] p[k] == owners[f] as i64;
            assert(r[k] == owners[f] as i64);
        }
    }
}

/// Each cell has one entry across faces for each of its faces; and across
/// every internal face each side lists the other: the owner lists the
/// neighbour and the neighbour lists the owner.
pub proof fn lemma_adjacency(t: Topology, owners: Seq<usize>, ns: Seq<i64>)
    requires
        is_topology(t, owners, ns),
    ensures
        forall|c: int|
            0 <= c < t.cell_faces@.len() ==> (#[trigger] t.cell_faces@[c])@.len()
                == t.cell_neighbors@[c]@.len(),
        forall|f: int|
            0 <= f < ns.len() && #[trigger] ns[f] >= 0 ==> {
                &&& owners[f] < t.cell_neighbors@.len()
                &&& ns[f] < t.cell_neighbors@.len()
                &&& exists|k: int|
                    0 <= k < t.cell_neighbors@[owners[f] as int]@.len() && #[trigger] t.cell_neighbors@[owners[f] as int]@[k]
                        == ns[f]
                &&& exists|k: int|
                    0 <= k < t.cell_neighbors@[ns[f] as int]@.len() && #[trigger] t.cell_neighbors@[ns[f] as int]@[k]
                        == owners[f] as i64
            },
{
    lemma_max_owner(owners);
    lemma_max_neighbor(ns);
    assert forall|c: int| 0 <= c < t.cell_faces@.len() implies (#[trigger] t.cell_faces@[c])@.len()
        == t.cell_neighbors@[c]@.len() by {
        lemma_across_len(owners, ns, c);
    }
    assert forall|f: int| 0 <= f < ns.len() && #[trigger] ns[f] >= 0 implies {
        &&& owners[f] < t.cell_neighbors@.len()
        &&& ns[f] < t.cell_neighbors@.len()
        &&& exists|k: int|
            0 <= k < t.cell_neighbors@[owners[f] as int]@.len() && #[trigger] t.cell_neighbors@[owners[f] as int]@[k]
                == ns[f]
        &&& exists|k: int|
            0 <= k < t.cell_neighbors@[ns[f] as int]@.len() && #[trigger] t.cell_neighbors@[ns[f] as int]@[k]
                == owners[f] as i64
    } by {
        let o = owners[f] as int;
        let n = ns[f] as int;
        assert(owners[f] <= max_owner(owners));
        assert(ns[f] <= max_neighbor(ns));
        assert(o < t.cell_neighbors@.len());
        assert(n < t.cell_neighbors@.len());
        let ro = t.cell_neighbors@[o]@;
        let rn = t.cell_neighbors@[n]@;
        assert(ro == across_of_cell(owners, ns, o));
        assert(rn == across_of_cell(owners, ns, n));
        lemma_across_has(owners, ns, o, f);
        lemma_across_has(owners, ns, n, f);
        let k1 = choose|k: int| 0 <= k < ro.len() && #[trigger] across_of_cell(owners, ns, o)[k] == ns[f];
        assert(ro[k1] == ns[f]);
        let k2 = choose|k: int| 0 <= k < rn.len() && #[trigger] across_of_cell(owners, ns, n)[k] == owners[f] as i64;
        assert(rn[k2] == owners[f] as i64);
    }
}

/// Face `f` lies in the range of one of the patches.
pub open spec fn covered(ps: Seq<PatchSpec>, f: int) -> bool {
    exists|i: int|
        0 <= i < ps.len() && (#[trigger] ps[i]).start_face <= f < ps[i].start_face
            + ps[i].num_faces
}

proof fn lemma_patches_mark(base: Seq<i64>, ps: Seq<PatchSpec>, f: int)
    requires
        0 <= f < base.len(),
        forall|i: int| 0 <= i < ps.len() ==> (#[trigger] ps[i]).boundary_id < 0,
    ensures
        apply_patches(base, ps).len() == base.len(),
        apply_patches(base, ps)[f] < 0 <==> (base[f] < 0 || covered(ps, f)),
    decreases ps.len(),
{
    if ps.len() > 0 {
        let q = ps.drop_last();
        assert forall|i: int| 0 <= i < q.len() implies (#[trigger] q[i]).boundary_id < 0 by {
            assert(q[i] == ps[i]);
        }
        lemma_patches_mark(base, q, f);
        if covered(q, f) {
            let i = choose|i: int|
                0 <= i < q.len() && (#[trigger] q[i]).start_face <= f < q[i].start_face
                    + q[i].num_faces;
            assert(ps[i] == q[i]);
        }
        if covered(ps, f) {
            let i = choose|i: int|
                0 <= i < ps.len() && (#[trigger] ps[i]).start_face <= f < ps[i].start_face
                    + ps[i].num_faces;
            if i < q.len() {
                assert(q[i] == ps[i]);
            }
        }
    }
}

/// Where every neighbour entry as read is a cell, every patch id is
/// negative, and the patches cover every face past the internal ones, a
/// face's resolved entry is negative exactly when a patch's range holds it.
pub proof fn lemma_boundary_face(raw: Seq<i64>, nfaces: nat, ps: Seq<PatchSpec>, f: int)
    requires
        raw.len() <= nfaces,
        forall|i: int| 0 <= i < raw.len() ==> #[trigger] raw[i] >= 0,
        forall|i: int| 0 <= i < ps.len() ==> (#[trigger] ps[i]).boundary_id < 0,
        forall|g: int| raw.len() <= g < nfaces ==> #[trigger] covered(ps, g),
        0 <= f < nfaces,
    ensures
        resolved(raw, nfaces, ps)[f] < 0 <==> covered(ps, f),
{
    let base = raw + Seq::new((nfaces - raw.len()) as nat, |i: int| -10i64);
    lemma_patches_mark(base, ps, f);
    if f >= raw.len() {
        assert(covered(ps, f));
    } else {
        assert(base[f] == raw[f]);
    }
}

} // verus!
