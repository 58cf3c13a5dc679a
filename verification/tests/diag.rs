use simpa_core::diag::{intersections, marker_pairs, stop_pair, stopped_on_self_intersection};
use simpa_core::poly::{Face, Model};

/// The survey's self-intersecting cube (`mkpolybad.py`): facets 8 and 9 form the x = 5 wall,
/// facet 12 is the triangle (9, 10, 11) piercing it.
fn bad_cube() -> Model {
    let tri = |a: u32, b: u32, c: u32, m: u32| Face {
        vertices: [a - 1, b - 1, c - 1],
        face_index: m,
    };
    Model::of_faces(
        vec![
            tri(1, 4, 6, 8),
            tri(8, 1, 6, 9),
            tri(9, 10, 11, 12),
            tri(1, 2, 3, 0),
        ],
        11,
    )
}

/// The survey's self-intersecting cube in full: facet k (0-based) has marker k, and facet
/// 12 = (9, 10, 11) pierces the x = 5 wall, facets 8 = (1, 4, 6) and 9 = (8, 1, 6).
fn tg_bad() -> Model {
    let facets: [[u32; 3]; 13] = [
        [1, 2, 3],
        [1, 3, 4],
        [3, 5, 6],
        [3, 6, 4],
        [3, 7, 5],
        [3, 2, 7],
        [2, 1, 8],
        [7, 2, 8],
        [1, 4, 6],
        [8, 1, 6],
        [8, 6, 5],
        [7, 8, 5],
        [9, 10, 11],
    ];
    Model::of_faces(
        facets
            .iter()
            .enumerate()
            .map(|(k, f)| Face {
                vertices: f.map(|v| v - 1),
                face_index: k as u32,
            })
            .collect(),
        11,
    )
}

fn lines(text: &str) -> Vec<String> {
    text.lines().map(str::to_string).collect()
}

#[test]
fn tetgen_1_6_warnings_become_marker_pairs() {
    let stdout = "Recovering boundaries...
Warning:  A segment and a facet intersect.
  segment: [9,10] tag(-1).
  facet triangle: [1,4,6] tag(8)
Warning:  A segment and a facet intersect.
  segment: [11,9] tag(-1).
  facet triangle: [8,1,6] tag(9)
Warning:  A segment and a facet intersect.
  segment: [6,1] tag(-1).
  facet triangle: [9,10,11] tag(12)
Boundary recovery seconds:  0.001";
    let lines: Vec<String> = stdout.lines().map(str::to_string).collect();
    let found = intersections(&lines, &bad_cube());
    let pairs: Vec<(Vec<u32>, Vec<u32>)> = found
        .iter()
        .map(|i| {
            (
                i.first.markers.clone(),
                i.second.as_ref().unwrap().markers.clone(),
            )
        })
        .collect();
    assert_eq!(
        pairs,
        [
            (vec![12], vec![8]),
            (vec![12], vec![9]),
            (vec![8, 9], vec![12])
        ]
    );
    assert_eq!(found[0].first.kind, "segment");
    assert_eq!(found[0].second.as_ref().unwrap().tag, Some(8));
}

#[test]
fn upstreams_legacy_messages_are_read_one_based() {
    let lines = [
        " Facet #3 intersects facet #10 at triangles:".to_string(),
        "  Facet (1, 2, 3) (7) is not a valid polygon.".to_string(),
    ];
    let found = intersections(&lines, &tg_bad());
    assert_eq!(found.len(), 2);
    assert_eq!(found[0].first.markers, [2]);
    assert_eq!(found[0].second.as_ref().unwrap().markers, [9]);
    assert_eq!(found[1].first.markers, [6]);
    assert!(found[1].second.is_none());
    // The number is a position: it maps to the marker of the facet there. In `bad_cube` the
    // third facet carries marker 12 and there is no tenth, so that side names nothing.
    let found = intersections(&lines[..1], &bad_cube());
    assert_eq!(found[0].first.markers, [12]);
    assert!(found[0].second.as_ref().unwrap().markers.is_empty());
}

#[test]
fn tetgen_1_5_stops_with_its_pair_named() {
    let stdout = lines(
        "Recovering boundaries...
Found a segment and a subface intersect.
  1st: [9, 10] 1.
  2nd: [1,4,6] 9
A self-intersection was detected. Program stopped.
Hint: use -d option to detect all self-intersections.",
    );
    assert!(stopped_on_self_intersection(&stdout));
    let pair = stop_pair(&stdout, &tg_bad()).expect("the stop names a pair");
    assert_eq!(pair.message, "Found a segment and a subface intersect.");
    assert_eq!(
        (pair.first.kind.as_str(), &pair.first.points, pair.first.tag),
        ("segment", &vec![9, 10], Some(1))
    );
    assert_eq!(
        pair.first.markers,
        [12],
        "the segment is an edge of facet 12"
    );
    let second = pair.second.as_ref().unwrap();
    assert_eq!(
        (second.kind.as_str(), &second.points, second.tag),
        ("facet", &vec![1, 4, 6], Some(9))
    );
    assert_eq!(second.markers, [8], "facet #9 is the ninth facet, marker 8");
    assert_eq!(marker_pairs(std::slice::from_ref(&pair)), [[8, 12]]);

    // Says no: TetGen 1.6.0's own stop line is not 1.5.0's, and a run that ends well has none.
    let v16 = lines("The input surface mesh contain self-intersections. Program stopped.");
    assert!(!stopped_on_self_intersection(&v16));
    assert!(stop_pair(&v16, &tg_bad()).is_none());
    let ok = lines("Writing scene_mesh.1.neigh.\n\nOutput seconds:  0");
    assert!(!stopped_on_self_intersection(&ok));
}

#[test]
fn tetgen_1_5_stop_forms_map_to_markers() {
    // A model with 600 facets, marker k at position k, facet 553 = (608, 611, 610) and 581 =
    // (608, 611, 774): the raw Elmia hall's first pair.
    let mut faces = Vec::new();
    for k in 0..600u32 {
        let vertices = match k {
            553 => [607, 610, 609],
            581 => [607, 610, 773],
            _ => [k, k + 1, k + 2],
        };
        faces.push(Face {
            vertices,
            face_index: k,
        });
    }
    let model = Model::of_faces(faces, 800);
    let two_facets = lines(
        "Found two facets intersect each other.
  1st: [608, 611, 610] #554
  2nd: [608, 611, 774] #582
A self-intersection was detected. Program stopped.",
    );
    let p = stop_pair(&two_facets, &model).unwrap();
    assert_eq!(p.first.markers, [553]);
    assert_eq!(p.second.as_ref().unwrap().markers, [581]);
    // Two segments: each mapped by its points to the facets having it as an edge.
    let segments = lines(
        "Found two segments intersect each other.
  1st: [608,611] 1.
  2nd: [611,774] 1.",
    );
    let p = stop_pair(&segments, &model).unwrap();
    assert_eq!(p.first.markers, [553, 581]);
    assert_eq!(p.second.as_ref().unwrap().markers, [581]);
    assert_eq!(marker_pairs(std::slice::from_ref(&p)), [[553, 581]]);
    // The two forms without a `Found` line.
    let invalid =
        lines("Error:  Invalid PLC.\n  Two segments (608, 610) and (611, 774) intersect.");
    let p = stop_pair(&invalid, &model).unwrap();
    assert_eq!(p.first.markers, [553]);
    assert_eq!(p.second.as_ref().unwrap().markers, [581]);
    let edge = lines(
        "Warning:  A non-valid facet - edge intersection
      subface: (608, 611, 610) edge: (611, 774)",
    );
    let p = stop_pair(&edge, &model).unwrap();
    assert_eq!(p.first.markers, [553]);
    assert_eq!(p.second.as_ref().unwrap().markers, [581]);
    // A `Found` line without its two lines names nothing.
    assert!(stop_pair(&two_facets[..1], &model).is_none());
}

#[test]
fn tetgen_1_5_minus_d_pairs_are_read_once_each() {
    // tetgen -d on tg_bad (TetGen 1.5.0, exit 0): 8 pairs printed, 2 distinct.
    let stdout = lines(
        "Detecting self-intersecting facets...
  Facet #9 intersects facet #13 at triangles:
    (   1,    4,    6) and (   9,   10,   11)
  Facet #10 intersects facet #13 at triangles:
    (   8,    1,    6) and (   9,   10,   11)
  Facet #9 intersects facet #13 at triangles:
    (   1,    4,    6) and (   9,   10,   11)
  Facet #10 intersects facet #13 at triangles:
    (   8,    1,    6) and (   9,   10,   11)

!! Found 8 pairs of faces are intersecting.
",
    );
    let found = intersections(&stdout, &tg_bad());
    assert_eq!(found.len(), 2, "{found:#?}");
    assert_eq!(marker_pairs(&found), [[8, 12], [9, 12]]);
    // A repeated triangle is read too.
    let dup = lines("  Facet #2 duplicates facet #7 at triangle:");
    let found = intersections(&dup, &tg_bad());
    assert_eq!(marker_pairs(&found), [[1, 6]]);
}

#[test]
fn lines_that_report_nothing_give_nothing() {
    let lines: Vec<String> = [
        "Opening scene_mesh.poly.",
        "Warning:  Found 3 duplicated vertices.",
        "  [1,2] something",
        "The input surface mesh is correct.",
    ]
    .iter()
    .map(|s| s.to_string())
    .collect();
    assert!(intersections(&lines, &bad_cube()).is_empty());
    // A warning without details is kept, naming nothing.
    let lines = [
        "Warning:  Two facets intersect.".to_string(),
        "  ...".to_string(),
    ];
    let found = intersections(&lines, &bad_cube());
    assert_eq!(found.len(), 1);
    assert_eq!(found[0].first.kind, "unknown");
    assert!(found[0].first.markers.is_empty());
}

#[test]
fn tags_past_u32_and_unicode_spaces() {
    // A facet triangle whose tag does not fit a marker names no marker.
    let lines = [
        "Warning:  Two facets intersect.".to_string(),
        "  facet triangle: [1,4,6] tag(4294967296)".to_string(),
        "  facet triangle: [8,1,6] tag(9)".to_string(),
    ];
    let found = intersections(&lines, &tg_bad());
    assert_eq!(found.len(), 1);
    assert!(found[0].first.markers.is_empty());
    assert_eq!(found[0].second.as_ref().unwrap().markers, [9]);
    // `trim` removes Unicode white space too.
    let stop = ["\u{a0}A self-intersection was detected. Program stopped.\u{3000}".to_string()];
    assert!(stopped_on_self_intersection(&stop));
}
