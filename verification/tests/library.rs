//! Direct checks of the library's building blocks: the parser's details,
//! each audit stage on its own, the counts, and the laws on small meshes.

use meshcheck::{
    analyze, analyze_boundary, analyze_with, audit_connected, audit_edges, audit_edges_with,
    audit_vertex_sectors, audit_vertex_sectors_with, edge_count, parse, AuditMode, EdgeFailure,
    EdgeFault, Mesh, Reject, Report,
};

const TET: &str = "v a\nv b\nv c\nv d\nf a b c\nf a c d\nf a d b\nf b d c\n";
const DISC: &str = "v a\nv b\nv c\nv d\nv o\nf o a b\nf o b c\nf o c d\nf o d a\n";
const FLIPPED: &str = "v a\nv b\nv c\nv d\nf a c b\nf a c d\nf a d b\nf b d c\n";
const TWO_SHELLS: &str = "v a\nv b\nv c\nv d\nv e\nv f\nv g\n\
    f a b c\nf a c d\nf a d b\nf b d c\nf a e f\nf a f g\nf a g e\nf e g f\n";
const DISJOINT: &str = "v a\nv b\nv c\nv d\nv e\nv f\nv g\nv h\n\
    f a b c\nf a c d\nf a d b\nf b d c\nf e f g\nf e g h\nf e h f\nf f h g\n";

fn mesh(doc: &str) -> Mesh {
    match parse(doc) {
        Ok(m) => m,
        Err(e) => panic!("fixture should parse, got {e:?}"),
    }
}

fn s(x: &str) -> String {
    String::from(x)
}

// ---------- Reject::line ---------------------------------------------------

#[test]
fn reject_line_points_at_the_line_or_at_nothing_for_counts() {
    assert_eq!(Reject::UnknownLine { line: 3 }.line(), Some(3));
    assert_eq!(Reject::BadVertex { line: 4 }.line(), Some(4));
    assert_eq!(Reject::BadFaceArity { line: 5 }.line(), Some(5));
    assert_eq!(Reject::BadId { line: 6, id: s("?") }.line(), Some(6));
    assert_eq!(Reject::RepeatedVertex { line: 7 }.line(), Some(7));
    assert_eq!(Reject::DuplicateVertex { line: 8, id: s("a") }.line(), Some(8));
    assert_eq!(Reject::UnknownVertex { line: 9, id: s("x") }.line(), Some(9));
    assert_eq!(Reject::DuplicateFace { line: 10 }.line(), Some(10));
    assert_eq!(Reject::BadVertexCount { count: 3 }.line(), None);
    assert_eq!(Reject::BadFaceCount { count: 2001 }.line(), None);
}

#[test]
fn audit_mode_defaults_to_closed() {
    assert_eq!(AuditMode::default(), AuditMode::Closed);
}

// ---------- parse ------------------------------------------------------------

#[test]
fn parse_sorts_vertex_ids_and_keeps_faces_in_document_order() {
    let m = mesh("v d\nv b\nv a\nv c\nf d c b\nf a b c\nf a c d\nf a d b\n");
    assert_eq!(m.vertices, vec![s("a"), s("b"), s("c"), s("d")]);
    assert_eq!(
        m.faces,
        vec![
            [s("d"), s("c"), s("b")],
            [s("a"), s("b"), s("c")],
            [s("a"), s("c"), s("d")],
            [s("a"), s("d"), s("b")],
        ]
    );
}

#[test]
fn parse_orders_ids_by_bytes() {
    let m = mesh("v b\nv B\nv 10\nv 9\nf b B 10\nf b 10 9\nf b 9 B\nf B 9 10\n");
    assert_eq!(m.vertices, vec![s("10"), s("9"), s("B"), s("b")]);
}

#[test]
fn crlf_line_ends_and_tabs_are_whitespace() {
    let doc = "v a\r\nv\tb\r\nv c\r\nv d\r\nf a b c\r\nf a c d\r\nf a d b\r\nf b d c\r\n";
    let m = mesh(doc);
    assert_eq!(m.vertices.len(), 4);
    assert_eq!(m.faces.len(), 4);
    assert_eq!(analyze(doc), analyze(TET));
}

#[test]
fn a_comment_may_hide_a_whole_record() {
    let doc = "v a\nv b\nv c\nv d\n#f a b x\nf a b c #f junk\nf a c d\nf a d b\nf b d c\n";
    assert_eq!(mesh(doc).faces.len(), 4);
}

#[test]
fn vertex_record_needs_exactly_one_id() {
    assert_eq!(
        parse("v a\nv\nv c\nv d\n").unwrap_err(),
        Reject::BadVertex { line: 2 }
    );
    assert_eq!(
        parse("v a\nv b c\n").unwrap_err(),
        Reject::BadVertex { line: 2 }
    );
}

#[test]
fn face_record_needs_exactly_three_ids() {
    assert_eq!(
        parse("v a\nv b\nv c\nf a b\n").unwrap_err(),
        Reject::BadFaceArity { line: 4 }
    );
    assert_eq!(parse("f\n").unwrap_err(), Reject::BadFaceArity { line: 1 });
}

#[test]
fn id_length_limit_is_inclusive() {
    let long = "x".repeat(32);
    let doc = format!("v {long}\nv b\nv c\nv d\nf {long} b c\nf {long} c d\nf {long} d b\nf b d c\n");
    assert_eq!(mesh(&doc).vertices[3], long);

    let too_long = "y".repeat(33);
    let doc = format!("v a\nv {too_long}\n");
    assert_eq!(
        parse(&doc).unwrap_err(),
        Reject::BadId { line: 2, id: too_long }
    );
}

#[test]
fn bad_face_id_is_reported_with_its_text() {
    // The id is rebuilt character by character; the whole token comes back.
    let doc = "v a\nv b\nv c\nv d\nf a b c\nf a c d.e\n";
    assert_eq!(
        parse(doc).unwrap_err(),
        Reject::BadId { line: 6, id: s("d.e") }
    );
}

#[test]
fn rejections_follow_document_order() {
    // A bad id on line 2 wins over the duplicate vertex on line 3.
    assert_eq!(
        parse("v a\nv b*\nv a\n").unwrap_err(),
        Reject::BadId { line: 2, id: s("b*") }
    );
    // A repeated corner is checked before the duplicate face test.
    assert_eq!(
        parse("v a\nv b\nv c\nf a b c\nf a a b\n").unwrap_err(),
        Reject::RepeatedVertex { line: 5 }
    );
}

#[test]
fn unknown_vertex_is_checked_after_counts() {
    // Only three vertices declared: the count wins over the unknown `x`.
    assert_eq!(
        parse("v a\nv b\nv c\nf a b x\nf a b c\nf a c x\nf b c x\n").unwrap_err(),
        Reject::BadVertexCount { count: 3 }
    );
    // The reference may come before its declaration.
    let doc = "f a b c\nf a c d\nf a d b\nf b d c\nv a\nv b\nv c\nv d\n";
    assert_eq!(mesh(doc).vertices.len(), 4);
}

#[test]
fn unknown_vertex_line_is_that_of_the_first_face_using_it() {
    let doc = "v a\nv b\nv c\nv d\nf a b c\nf a c d\nf z a b\nf a d b\nf b d c\n";
    assert_eq!(
        parse(doc).unwrap_err(),
        Reject::UnknownVertex { line: 7, id: s("z") }
    );
}

// ---------- the stages one by one ------------------------------------------

#[test]
fn edge_stage_alone_reports_the_flipped_edge() {
    let m = mesh(FLIPPED);
    assert_eq!(
        audit_edges(&m),
        Err(EdgeFailure { a: s("a"), b: s("b"), uses: 2, fault: EdgeFault::Misoriented })
    );
    assert_eq!(audit_edges(&mesh(TET)), Ok(()));
}

#[test]
fn edge_stage_boundary_policy_depends_on_mode() {
    let m = mesh(DISC);
    assert_eq!(
        audit_edges(&m),
        Err(EdgeFailure { a: s("a"), b: s("b"), uses: 1, fault: EdgeFault::Boundary })
    );
    assert_eq!(audit_edges_with(&m, AuditMode::Closed), audit_edges(&m));
    assert_eq!(audit_edges_with(&m, AuditMode::Boundary), Ok(()));
}

#[test]
fn vertex_stage_alone_counts_sectors() {
    assert_eq!(audit_vertex_sectors(&mesh(TWO_SHELLS)), Err((s("a"), 2)));
    assert_eq!(audit_vertex_sectors(&mesh(TET)), Ok(()));
    // A disc's rim vertex has a path link: fine with boundaries only.
    let disc = mesh(DISC);
    assert_eq!(audit_vertex_sectors(&disc), Err((s("a"), 1)));
    assert_eq!(audit_vertex_sectors_with(&disc, AuditMode::Boundary), Ok(()));
}

#[test]
fn isolated_vertex_has_zero_sectors() {
    let m = mesh("v a\nv b\nv c\nv d\nv e\nf a b c\nf a c d\nf a d b\nf b d c\n");
    assert_eq!(audit_vertex_sectors(&m), Err((s("e"), 0)));
    assert_eq!(audit_vertex_sectors_with(&m, AuditMode::Boundary), Err((s("e"), 0)));
}

#[test]
fn connectivity_stage_alone_names_the_first_unreached_vertex() {
    assert_eq!(audit_connected(&mesh(DISJOINT)), Err(s("e")));
    assert_eq!(audit_connected(&mesh(TET)), Ok(()));
    // Touching at a vertex is no connection: `e`, `f`, `g` stay unreached.
    assert_eq!(audit_connected(&mesh(TWO_SHELLS)), Err(s("e")));
}

#[test]
fn edge_count_counts_undirected_edges_once() {
    assert_eq!(edge_count(&mesh(TET)), 6);
    assert_eq!(edge_count(&mesh(DISC)), 8);
    assert_eq!(edge_count(&mesh(FLIPPED)), 6);
    assert_eq!(edge_count(&mesh(DISJOINT)), 12);
}

// ---------- the whole audit -----------------------------------------------

#[test]
fn analyze_boundary_and_analyze_with_agree() {
    for doc in [TET, DISC, FLIPPED, TWO_SHELLS, DISJOINT] {
        assert_eq!(analyze(doc), analyze_with(doc, AuditMode::Closed));
        assert_eq!(analyze_boundary(doc), analyze_with(doc, AuditMode::Boundary));
    }
}

#[test]
fn euler_formula_gives_exact_values_for_a_disc() {
    // V = 5, E = 8, F = 4: chi = 1 = 2 - 2g - b with b = 1, so g = 0.
    assert_eq!(
        analyze_boundary(DISC),
        Report::BoundaryOk {
            vertices: 5,
            edges: 8,
            faces: 4,
            euler: 1,
            genus: 0,
            boundary: vec![vec![s("a"), s("b"), s("c"), s("d")]],
        }
    );
}

#[test]
fn closed_surface_audited_with_boundaries_has_no_loops() {
    // Law: in boundary mode a mesh without one-face edges reports no loops
    // and the same genus as the closed audit.
    match (analyze(TET), analyze_boundary(TET)) {
        (
            Report::ClosedOk { vertices, edges, faces, euler, genus },
            Report::BoundaryOk { vertices: v2, edges: e2, faces: f2, euler: x2, genus: g2, boundary },
        ) => {
            assert_eq!((vertices, edges, faces, euler, genus), (v2, e2, f2, x2, g2));
            assert!(boundary.is_empty());
        }
        other => panic!("unexpected reports {other:?}"),
    }
}

#[test]
fn boundary_loop_follows_face_orientation_not_its_reverse() {
    // Same disc with every face reversed: the rim runs the other way, and the
    // loop still starts at its smallest id.
    let doc = "v a\nv b\nv c\nv d\nv o\nf o b a\nf o c b\nf o d c\nf o a d\n";
    match analyze_boundary(doc) {
        Report::BoundaryOk { boundary, .. } => {
            assert_eq!(boundary, vec![vec![s("a"), s("d"), s("c"), s("b")]]);
        }
        other => panic!("expected a disc, got {other:?}"),
    }
}

#[test]
fn each_loop_closes_along_one_face_edges() {
    // Law: consecutive loop entries (and last to first) are one-face edges
    // traversed in their face's direction; loops are disjoint and sorted.
    let doc = "v a\nv b\nv c\nv d\nv e\nv f\nv g\nv h\n\
        f a b f\nf a f e\nf b c g\nf b g f\nf c d h\nf c h g\nf d a e\nf d e h\n";
    let m = mesh(doc);
    let loops = match analyze_boundary(doc) {
        Report::BoundaryOk { boundary, .. } => boundary,
        other => panic!("expected an annulus, got {other:?}"),
    };
    assert_eq!(loops.len(), 2);
    let mut seen = std::collections::BTreeSet::new();
    for l in &loops {
        for k in 0..l.len() {
            let (x, y) = (&l[k], &l[(k + 1) % l.len()]);
            assert!(seen.insert(x.clone()), "vertex {x} on two loops");
            let forward = m
                .faces
                .iter()
                .filter(|f| (0..3).any(|i| &f[i] == x && &f[(i + 1) % 3] == y))
                .count();
            let backward = m
                .faces
                .iter()
                .filter(|f| (0..3).any(|i| &f[i] == y && &f[(i + 1) % 3] == x))
                .count();
            assert_eq!((forward, backward), (1, 0));
        }
    }
    assert!(loops[0][0] < loops[1][0]);
}

#[test]
fn stages_run_in_fixed_priority() {
    // Edge failure outranks everything else, even a bad vertex elsewhere.
    let doc = "v a\nv b\nv c\nv d\nv e\nf a c b\nf a c d\nf a d b\nf b d c\n";
    assert!(matches!(analyze(doc), Report::EdgeFailed(_)));
    // Vertex failure outranks disconnectivity.
    assert_eq!(analyze(TWO_SHELLS), Report::VertexFailed { id: s("a"), sectors: 2 });
    // Rejection outranks all audits.
    assert_eq!(
        analyze("v a\nv b\nv c\nv d\nf a c b\nf a c d\nf a d b\nf b d c\nf b c d\n"),
        Report::Rejected(Reject::DuplicateFace { line: 9 })
    );
}

// ---------- the mesh invariant ----------------------------------------------

#[test]
fn parsed_meshes_are_well_formed() {
    for doc in [TET, DISC, FLIPPED, TWO_SHELLS, DISJOINT] {
        assert!(mesh(doc).is_well_formed());
    }
}

#[test]
fn hand_built_meshes_are_checked_for_the_invariant() {
    let face = |a: &str, b: &str, c: &str| [s(a), s(b), s(c)];
    let good = Mesh {
        vertices: vec![s("a"), s("b"), s("c")],
        faces: vec![face("a", "b", "c")],
    };
    assert!(good.is_well_formed());
    let unsorted = Mesh {
        vertices: vec![s("b"), s("a"), s("c")],
        faces: vec![face("a", "b", "c")],
    };
    assert!(!unsorted.is_well_formed());
    let repeated_id = Mesh {
        vertices: vec![s("a"), s("a"), s("c")],
        faces: vec![],
    };
    assert!(!repeated_id.is_well_formed());
    let undeclared = Mesh {
        vertices: vec![s("a"), s("b"), s("c")],
        faces: vec![face("a", "b", "x")],
    };
    assert!(!undeclared.is_well_formed());
    let repeated_corner = Mesh {
        vertices: vec![s("a"), s("b"), s("c")],
        faces: vec![face("a", "b", "a")],
    };
    assert!(!repeated_corner.is_well_formed());
}
