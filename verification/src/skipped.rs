//! What TetGen skipped, mapped back to the scene: each distinct facet marker it wrote in
//! `_skipped.face`, with the scene face and surface group it stands for, or the box fitting zone
//! whose triangle it is.
use vstd::prelude::*;
use vstd::slice::slice_subrange;

verus! {

/// What a `.poly` marker at or above the scene's face count stands for: one triangle of a box
/// fitting zone; the zone's twelve triangles carry the markers from `first_marker` on.
#[derive(Clone, Debug, PartialEq, Eq)]
pub struct ZoneFacets {
    pub zone: String,
    pub solver_id: i32,
    pub first_marker: u32,
}

/// A facet TetGen skipped, mapped back to the scene.
#[derive(Clone, Debug, PartialEq, Eq)]
pub struct SkippedFacet {
    /// The `.poly` facet marker TetGen wrote.
    pub marker: i64,
    /// The scene face, when the marker is one.
    pub scene_face: Option<u32>,
    /// The scene face's surface group, when it has a named one.
    pub group: Option<String>,
    /// The box fitting zone whose triangle it is.
    pub fitting_zone: Option<String>,
}

/// The first zone from `k` on whose twelve markers include `marker`.
pub open spec fn zone_of(zones: Seq<ZoneFacets>, marker: i64, k: int) -> Option<int>
    decreases zones.len() - k,
{
    if k < 0 || k >= zones.len() {
        None
    } else if zones[k].first_marker <= marker < zones[k].first_marker + 12 {
        Some(k)
    } else {
        zone_of(zones, marker, k + 1)
    }
}

/// What marker `m` stands for: the scene face `m` when it is one, with that face's group when it
/// has a named one; the first box zone whose twelve markers include it.
pub open spec fn mapped(m: i64, scene_faces: int, face_groups: Seq<String>, zones: Seq<ZoneFacets>) -> SkippedFacet {
    let scene_face: Option<u32> = if 0 <= m < scene_faces {
        Some(m as u32)
    } else {
        None
    };
    SkippedFacet {
        marker: m,
        scene_face,
        group: if 0 <= m < scene_faces && m < face_groups.len() && face_groups[m as int]@.len() > 0 {
            Some(face_groups[m as int])
        } else {
            None
        },
        fitting_zone: match zone_of(zones, m, 0) {
            Some(k) => Some(zones[k].zone),
            None => None,
        },
    }
}

/// One of the first `n` of `s` is `k`.
pub open spec fn among_first(s: Seq<i64>, n: int, k: i64) -> bool {
    exists|q: int| 0 <= q < n && #[trigger] s[q] == k
}

/// The distinct values of `ks`, ascending.
fn sorted_distinct(ks: &[i64]) -> (r: Vec<i64>)
    ensures
        forall|p: int, q: int| 0 <= p < q < r@.len() ==> #[trigger] r@[p] < #[trigger] r@[q],
        forall|k: i64| #[trigger] r@.contains(k) <==> ks@.contains(k),
    decreases ks@.len(),
{
    if ks.len() <= 1 {
        let mut out: Vec<i64> = Vec::new();
        if ks.len() == 1 {
            out.push(ks[0]);
        }
        proof {
            assert forall|k: i64| #[trigger] out@.contains(k) <==> ks@.contains(k) by {
                if ks@.contains(k) {
                    assert(out@[0] == k);
                }
                if out@.contains(k) {
                    assert(ks@[0] == k);
                }
            }
        }
        return out;
    }
    let mid = ks.len() / 2;
    let left = slice_subrange(ks, 0, mid);
    let right = slice_subrange(ks, mid, ks.len());
    let a = sorted_distinct(left);
    let b = sorted_distinct(right);
    let mut out: Vec<i64> = Vec::new();
    let mut i: usize = 0;
    let mut j: usize = 0;
    while i < a.len() || j < b.len()
        invariant
            forall|p: int, q: int| 0 <= p < q < a@.len() ==> #[trigger] a@[p] < #[trigger] a@[q],
            forall|p: int, q: int| 0 <= p < q < b@.len() ==> #[trigger] b@[p] < #[trigger] b@[q],
            i <= a@.len(),
            j <= b@.len(),
            forall|p: int, q: int| 0 <= p < q < out@.len() ==> #[trigger] out@[p] < #[trigger] out@[q],
            out@.len() > 0 && i < a@.len() ==> out@.last() < a@[i as int],
            out@.len() > 0 && j < b@.len() ==> out@.last() < b@[j as int],
            forall|k: i64|
                #[trigger] among_first(out@, out@.len() as int, k) <==> (among_first(a@, i as int, k) || among_first(b@, j as int, k)),
        decreases a@.len() + b@.len() - i - j,
    {
        let ghost (o0, i0, j0) = (out@, i as int, j as int);
        assert(forall|k: i64|
            #[trigger] among_first(o0, o0.len() as int, k) <==> (among_first(a@, i0, k) || among_first(b@, j0, k)));
        let take_a = j == b.len() || (i < a.len() && a[i] <= b[j]);
        let take_b = i == a.len() || (j < b.len() && b[j] <= a[i]);
        let x = if take_a {
            a[i]
        } else {
            b[j]
        };
        out.push(x);
        if take_a {
            i = i + 1;
        }
        if take_b {
            j = j + 1;
        }
        proof {
            assert forall|p: int, q: int| 0 <= p < q < out@.len() implies #[trigger] out@[p] < #[trigger] out@[q] by {
                if q == o0.len() && p < o0.len() - 1 {
                    assert(o0[p] < o0.last());
                }
            }
            assert forall|k: i64|
                #[trigger] among_first(out@, out@.len() as int, k) <==> (among_first(a@, i as int, k) || among_first(b@, j as int, k)) by {
                if among_first(out@, out@.len() as int, k) {
                    let q = choose|q: int| 0 <= q < out@.len() && #[trigger] out@[q] == k;
                    if q < o0.len() {
                        assert(o0[q] == k);
                        assert(among_first(o0, o0.len() as int, k));
                        if among_first(a@, i0, k) {
                            let q2 = choose|q2: int| 0 <= q2 < i0 && #[trigger] a@[q2] == k;
                            assert(a@[q2] == k && q2 < i);
                        } else {
                            let q2 = choose|q2: int| 0 <= q2 < j0 && #[trigger] b@[q2] == k;
                            assert(b@[q2] == k && q2 < j);
                        }
                    } else if take_a {
                        assert(a@[i0] == k);
                    } else {
                        assert(b@[j0] == k);
                    }
                }
                if among_first(a@, i as int, k) {
                    let q = choose|q: int| 0 <= q < i && #[trigger] a@[q] == k;
                    if q < i0 {
                        assert(among_first(a@, i0, k));
                        assert(among_first(o0, o0.len() as int, k));
                        let q2 = choose|q2: int| 0 <= q2 < o0.len() && #[trigger] o0[q2] == k;
                        assert(out@[q2] == k);
                    } else {
                        assert(out@[o0.len() as int] == k);
                    }
                }
                if among_first(b@, j as int, k) {
                    let q = choose|q: int| 0 <= q < j && #[trigger] b@[q] == k;
                    if q < j0 {
                        assert(among_first(b@, j0, k));
                        assert(among_first(o0, o0.len() as int, k));
                        let q2 = choose|q2: int| 0 <= q2 < o0.len() && #[trigger] o0[q2] == k;
                        assert(out@[q2] == k);
                    } else {
                        assert(out@[o0.len() as int] == k);
                    }
                }
            }
        }
    }
    proof {
        assert forall|k: i64| #[trigger] out@.contains(k) <==> ks@.contains(k) by {
            assert(out@.contains(k) == among_first(out@, out@.len() as int, k));
            assert(a@.contains(k) == among_first(a@, a@.len() as int, k));
            assert(b@.contains(k) == among_first(b@, b@.len() as int, k));
            if ks@.contains(k) {
                let q = choose|q: int| 0 <= q < ks@.len() && ks@[q] == k;
                if q < mid {
                    assert(left@[q] == k);
                } else {
                    assert(right@[q - mid] == k);
                }
            }
            if left@.contains(k) {
                let q = choose|q: int| 0 <= q < left@.len() && left@[q] == k;
                assert(ks@[q] == k);
            }
            if right@.contains(k) {
                let q = choose|q: int| 0 <= q < right@.len() && right@[q] == k;
                assert(ks@[q + mid] == k);
            }
        }
    }
    out
}

/// One entry per distinct marker, ascending, mapped back to the scene ([`mapped`]).
pub fn map_skipped(
    markers: &Vec<i64>,
    scene_faces: usize,
    face_groups: &Vec<String>,
    zones: &Vec<ZoneFacets>,
) -> (r: Vec<SkippedFacet>)
    requires
        scene_faces <= u32::MAX,
    ensures
        forall|p: int, q: int| 0 <= p < q < r@.len() ==> (#[trigger] r@[p]).marker < (#[trigger] r@[q]).marker,
        forall|m: i64| markers@.contains(m) <==> exists|p: int| 0 <= p < r@.len() && (#[trigger] r@[p]).marker == m,
        forall|p: int|
            0 <= p < r@.len() ==> #[trigger] r@[p] == mapped(r@[p].marker, scene_faces as int, face_groups@, zones@),
{
    let distinct = sorted_distinct(markers.as_slice());
    let mut out: Vec<SkippedFacet> = Vec::new();
    let mut p: usize = 0;
    while p < distinct.len()
        invariant
            p <= distinct@.len(),
            scene_faces <= u32::MAX,
            out@.len() == p,
            forall|q: int| 0 <= q < p ==> (#[trigger] out@[q]).marker == distinct@[q],
            forall|q: int|
                0 <= q < p ==> #[trigger] out@[q] == mapped(out@[q].marker, scene_faces as int, face_groups@, zones@),
        decreases distinct@.len() - p,
    {
        let m = distinct[p];
        let scene_face: Option<u32> = if 0 <= m && m < scene_faces as i64 {
            Some(m as u32)
        } else {
            None
        };
        let group: Option<String> = if 0 <= m && m < scene_faces as i64 && (m as usize) < face_groups.len()
            && !face_groups[m as usize].as_str().is_empty() {
            Some(face_groups[m as usize].clone())
        } else {
            None
        };
        let mut hit: Option<usize> = None;
        let mut k: usize = 0;
        while k < zones.len()
            invariant
                k <= zones@.len(),
                hit is None ==> zone_of(zones@, m, 0) == zone_of(zones@, m, k as int),
                hit matches Some(j) ==> j < zones@.len() && zone_of(zones@, m, 0) == Some(j as int),
            decreases zones@.len() - k,
        {
            if hit.is_none() {
                let first = zones[k].first_marker as i64;
                if first <= m && m < first + 12 {
                    hit = Some(k);
                }
            }
            k = k + 1;
        }
        let fitting_zone: Option<String> = match hit {
            Some(j) => Some(zones[j].zone.clone()),
            None => None,
        };
        let ghost want = mapped(m, scene_faces as int, face_groups@, zones@);
        assert(fitting_zone == want.fitting_zone);
        assert(group == want.group);
        assert(scene_face == want.scene_face);
        out.push(SkippedFacet { marker: m, scene_face, group, fitting_zone });
        p = p + 1;
    }
    proof {
        assert forall|m: i64| markers@.contains(m) <==> exists|q: int| 0 <= q < out@.len() && (#[trigger] out@[q]).marker == m by {
            if markers@.contains(m) {
                assert(distinct@.contains(m));
                let q = choose|q: int| 0 <= q < distinct@.len() && distinct@[q] == m;
                assert(out@[q].marker == m);
            }
            if exists|q: int| 0 <= q < out@.len() && (#[trigger] out@[q]).marker == m {
                let q = choose|q: int| 0 <= q < out@.len() && (#[trigger] out@[q]).marker == m;
                assert(distinct@[q] == m);
                assert(distinct@.contains(m));
            }
        }
    }
    out
}

} // verus!
