//! Index-level helpers of the stippling pipeline: triangle edges, and the
//! edge-to-triangles map that a Delaunay triangulation is walked with. The
//! geometric side of the pipeline (point positions, circumcircles, the
//! Voronoi construction) lives with the caller; everything here works on
//! vertex and triangle indices alone.

use std::collections::HashMap;
use vstd::prelude::*;

verus! {

/// Point indices must stay below this bound so an edge packs into a `u64`
/// map key.
pub const MAX_POINT_INDEX: u64 = 0x1_0000_0000;

/// The packed key of the edge `{a, b}`: larger index first, so that both
/// orientations of the edge read as one key.
pub open spec fn edge_key_spec(a: int, b: int) -> int {
    if a > b {
        a * 0x1_0000_0000 + b
    } else {
        b * 0x1_0000_0000 + a
    }
}

/// Packs the edge `{a, b}` into its normalised `u64` map key.
pub fn edge_key(a: usize, b: usize) -> (r: u64)
    requires
        a < MAX_POINT_INDEX,
        b < MAX_POINT_INDEX,
    ensures
        r as int == edge_key_spec(a as int, b as int),
{
    if a > b {
        (a as u64) * 0x1_0000_0000 + (b as u64)
    } else {
        (b as u64) * 0x1_0000_0000 + (a as u64)
    }
}

/// The packed keys of a triangle's three edges.
pub open spec fn tri_edge_keys(t: [usize; 3]) -> Seq<int> {
    seq![
        edge_key_spec(t@[0] as int, t@[1] as int),
        edge_key_spec(t@[1] as int, t@[2] as int),
        edge_key_spec(t@[0] as int, t@[2] as int),
    ]
}

/// Every vertex index of every triangle fits the edge-key packing.
pub open spec fn tri_indices_bounded(ts: Seq<[usize; 3]>) -> bool {
    forall|k: int, j: int|
        0 <= k < ts.len() && 0 <= j < 3 ==> ((#[trigger] ts[k]@[j]) as int) < 0x1_0000_0000
}

/// What `get_edge_triangles` builds: every edge of every triangle is a
/// key; every key is an edge of the first triangle its value names; the
/// value's second slot is the sentinel `usize::MAX` or names another
/// triangle that has the edge too.
pub open spec fn edge_map_ok(ts: Seq<[usize; 3]>, m: Map<u64, (usize, usize)>) -> bool {
    &&& forall|k: int, j: int|
        0 <= k < ts.len() && 0 <= j < 3 ==> m.contains_key(
            (#[trigger] tri_edge_keys(ts[k])[j]) as u64,
        )
    &&& forall|key: u64|
        m.contains_key(key) ==> {
            let v = #[trigger] m[key];
            &&& v.0 < ts.len()
            &&& tri_edge_keys(ts[v.0 as int]).contains(key as int)
            &&& (v.1 == usize::MAX || (v.1 < ts.len() && tri_edge_keys(ts[v.1 as int]).contains(
                key as int,
            )))
        }
}

/// Holds index-level edge helpers; the geometric edge operations live with
/// the caller's point type.
pub struct Edge {}

/// Holds index-level triangle helpers; the geometric triangle operations
/// live with the caller's point type.
pub struct Triangle {}

impl Triangle {
    /// The three edges of a triangle, as vertex-index pairs.
    pub fn get_edge_indexes(triangle: &[usize; 3]) -> (r: [(usize, usize); 3])
        ensures
            r@ == seq![
                (triangle@[0], triangle@[1]),
                (triangle@[1], triangle@[2]),
                (triangle@[0], triangle@[2]),
            ],
    {
        let r = [
            (triangle[0], triangle[1]),
            (triangle[1], triangle[2]),
            (triangle[0], triangle[2]),
        ];
        proof {
            assert(r@ =~= seq![
                (triangle@[0], triangle@[1]),
                (triangle@[1], triangle@[2]),
                (triangle@[0], triangle@[2]),
            ]);
        }
        r
    }

    /// Looks up the triangle on the far side of an edge: `None` when the
    /// edge belongs to one triangle only (it lies on the convex hull),
    /// else the index that is not the requesting triangle's. The map must
    /// name the requester on any edge it shows as shared, as
    /// `get_edge_triangles` builds it for the triangles being walked.
    pub fn get_neighbouring_triangle(
        requested_triangle_index: usize,
        edge_indices: (usize, usize),
        edge_triangle: &HashMap<u64, (usize, usize)>,
    ) -> (r: Option<usize>)
        requires
            edge_indices.0 < MAX_POINT_INDEX,
            edge_indices.1 < MAX_POINT_INDEX,
            ({
                let key = edge_key_spec(edge_indices.0 as int, edge_indices.1 as int) as u64;
                edge_triangle@.contains_key(key) && edge_triangle@[key].1 != usize::MAX
                    ==> edge_triangle@[key].0 == requested_triangle_index
                    || edge_triangle@[key].1 == requested_triangle_index
            }),
        ensures
            ({
                let key = edge_key_spec(edge_indices.0 as int, edge_indices.1 as int) as u64;
                &&& !edge_triangle@.contains_key(key) ==> r is None
                &&& edge_triangle@.contains_key(key) && edge_triangle@[key].1 == usize::MAX ==> r
                    is None
                &&& edge_triangle@.contains_key(key) && edge_triangle@[key].1 != usize::MAX ==> r
                    == Some(
                    if edge_triangle@[key].0 == requested_triangle_index {
                        edge_triangle@[key].1
                    } else {
                        edge_triangle@[key].0
                    },
                )
            }),
    {
        let key = edge_key(edge_indices.0, edge_indices.1);
        match edge_triangle.get(&key) {
            Some(found) => {
                let (i0, i1) = *found;
                if i1 == usize::MAX {
                    None
                } else if i0 == requested_triangle_index {
                    Some(i1)
                } else {
                    Some(i0)
                }
            },
            None => None,
        }
    }
}

/// Builds the edge-to-triangles map of a triangulation: each normalised
/// edge key maps to the first triangle holding the edge, and to the last
/// other one, or to the sentinel `usize::MAX` while the edge belongs to
/// one triangle only (a convex-hull edge).
pub fn get_edge_triangles(triangles: &Vec<[usize; 3]>) -> (r: Result<
    HashMap<u64, (usize, usize)>,
    String,
>)
    requires
        tri_indices_bounded(triangles@),
    ensures
        triangles@.len() < usize::MAX ==> (r matches Ok(m) && edge_map_ok(triangles@, m@)),
        triangles@.len() == usize::MAX ==> r is Err,
{
    let n = triangles.len();
    if n == usize::MAX {
        return Err(
            "There were too many triangles to keep the sentinel index free".to_owned(),
        );
    }

    let mut edge_triangle: HashMap<u64, (usize, usize)> = HashMap::new();
    let mut i: usize = 0;
    while i < n
        invariant
            i <= n,
            n < usize::MAX,
            n == triangles@.len(),
            tri_indices_bounded(triangles@),
            forall|k: int, j: int|
                0 <= k < i && 0 <= j < 3 ==> edge_triangle@.contains_key(
                    (#[trigger] tri_edge_keys(triangles@[k])[j]) as u64,
                ),
            forall|key: u64|
                edge_triangle@.contains_key(key) ==> {
                    let v = #[trigger] edge_triangle@[key];
                    &&& v.0 < i
                    &&& tri_edge_keys(triangles@[v.0 as int]).contains(key as int)
                    &&& (v.1 == usize::MAX || (v.1 < i && tri_edge_keys(
                        triangles@[v.1 as int],
                    ).contains(key as int)))
                },
        decreases n - i,
    {
        let t = triangles[i];
        let mut j: usize = 0;
        while j < 3
            invariant
                j <= 3,
                i < n,
                n < usize::MAX,
                n == triangles@.len(),
                tri_indices_bounded(triangles@),
                t == triangles@[i as int],
                forall|k: int, j2: int|
                    0 <= k < i && 0 <= j2 < 3 ==> edge_triangle@.contains_key(
                        (#[trigger] tri_edge_keys(triangles@[k])[j2]) as u64,
                    ),
                forall|j2: int|
                    0 <= j2 < j ==> edge_triangle@.contains_key(
                        (#[trigger] tri_edge_keys(triangles@[i as int])[j2]) as u64,
                    ),
                forall|key: u64|
                    edge_triangle@.contains_key(key) ==> {
                        let v = #[trigger] edge_triangle@[key];
                        &&& v.0 <= i
                        &&& tri_edge_keys(triangles@[v.0 as int]).contains(key as int)
                        &&& (v.1 == usize::MAX || (v.1 <= i && tri_edge_keys(
                            triangles@[v.1 as int],
                        ).contains(key as int)))
                    },
            decreases 3 - j,
        {
            let (e0, e1) = if j == 0 {
                (t[0], t[1])
            } else if j == 1 {
                (t[1], t[2])
            } else {
                (t[0], t[2])
            };
            let key = edge_key(e0, e1);
            proof {
                assert(key as int == tri_edge_keys(triangles@[i as int])[j as int]);
            }
            let existing = match edge_triangle.get(&key) {
                Some(v) => Some(*v),
                None => None,
            };
            match existing {
                Some(v) => {
                    edge_triangle.insert(key, (v.0, i));
                },
                None => {
                    edge_triangle.insert(key, (i, usize::MAX));
                },
            }
            j = j + 1;
        }
        i = i + 1;
    }
    Ok(edge_triangle)
}

} // verus!
