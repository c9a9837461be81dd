//! The printed form of reports and the exit codes.

use meshcheck::{
    analyze, analyze_with_boundary, exit_code, reject_kind, render, EdgeFailure, EdgeFault, Reject,
    Report,
};

const TET: &str = "v a\nv b\nv c\nv d\nf a b c\nf a c d\nf a d b\nf b d c\n";
const DISC: &str = "v a\nv b\nv c\nv d\nv o\nf o a b\nf o b c\nf o c d\nf o d a\n";
const ANNULUS: &str = "v a\nv b\nv c\nv d\nv e\nv f\nv g\nv h\n\
    f a b f\nf a f e\nf b c g\nf b g f\nf c d h\nf c h g\nf d a e\nf d e h\n";

fn s(x: &str) -> String {
    String::from(x)
}

#[test]
fn closed_sphere_prints_its_counts() {
    let r = analyze(TET);
    assert_eq!(render(&r), "ok V=4 E=6 F=4 chi=2 genus=0");
    assert_eq!(exit_code(&r), 0);
}

#[test]
fn disc_prints_one_boundary_line() {
    let r = analyze_with_boundary(DISC);
    assert_eq!(
        render(&r),
        "ok-boundary V=5 E=8 F=4 chi=1 genus=0 holes=1\nboundary a-b-c-d"
    );
    assert_eq!(exit_code(&r), 0);
}

#[test]
fn printed_loops_are_the_reported_loops() {
    let r = analyze_with_boundary(ANNULUS);
    let loops = match &r {
        Report::BoundaryOk { boundary, .. } => boundary.clone(),
        other => panic!("expected an annulus, got {other:?}"),
    };
    let text = render(&r);
    let mut lines = text.lines();
    assert_eq!(
        lines.next(),
        Some("ok-boundary V=8 E=16 F=8 chi=0 genus=0 holes=2")
    );
    for l in &loops {
        assert_eq!(lines.next().map(String::from), Some(format!("boundary {}", l.join("-"))));
    }
    assert_eq!(lines.next(), None);
    assert_eq!(text, "ok-boundary V=8 E=16 F=8 chi=0 genus=0 holes=2\nboundary a-b-c-d\nboundary e-h-g-f");
}

#[test]
fn negative_euler_characteristic_prints_a_minus_sign() {
    let r = Report::ClosedOk { vertices: 10, edges: 36, faces: 24, euler: -2, genus: 2 };
    assert_eq!(render(&r), "ok V=10 E=36 F=24 chi=-2 genus=2");
    let r = Report::ClosedOk { vertices: 0, edges: 0, faces: 0, euler: i64::MIN, genus: u32::MAX };
    assert_eq!(render(&r), "ok V=0 E=0 F=0 chi=-9223372036854775808 genus=4294967295");
}

#[test]
fn failures_print_their_witnesses_and_exit_codes() {
    let edge = Report::EdgeFailed(EdgeFailure {
        a: s("a"),
        b: s("b"),
        uses: 6,
        fault: EdgeFault::Nonmanifold,
    });
    assert_eq!(render(&edge), "edge-fail edge=a-b uses=6 fault=nonmanifold");
    assert_eq!(exit_code(&edge), 2);
    let flipped = Report::EdgeFailed(EdgeFailure {
        a: s("a"),
        b: s("b"),
        uses: 2,
        fault: EdgeFault::Misoriented,
    });
    assert_eq!(render(&flipped), "edge-fail edge=a-b uses=2 fault=misoriented");
    let hole = Report::EdgeFailed(EdgeFailure {
        a: s("a"),
        b: s("b"),
        uses: 1,
        fault: EdgeFault::Boundary,
    });
    assert_eq!(render(&hole), "edge-fail edge=a-b uses=1 fault=boundary");

    let vertex = Report::VertexFailed { id: s("a"), sectors: 2 };
    assert_eq!(render(&vertex), "vertex-fail vertex=a sectors=2");
    assert_eq!(exit_code(&vertex), 3);

    let component = Report::ComponentFailed { id: s("e") };
    assert_eq!(render(&component), "component-fail vertex=e");
    assert_eq!(exit_code(&component), 4);

    let topology = Report::TopologyFailed {
        vertices: 7,
        edges: 12,
        faces: 4,
        euler: -1,
        boundary_count: 10,
    };
    assert_eq!(render(&topology), "topology-fail V=7 E=12 F=4 chi=-1 holes=10");
    assert_eq!(exit_code(&topology), 5);
}

#[test]
fn rejections_print_kind_line_and_detail() {
    let doc = "v a\nv b\nv c\nv d\nf a b c\nf a c d\nf a d b\nf b d c\nf a b x\n";
    let r = analyze(doc);
    assert_eq!(render(&r), "reject kind=unknown_vertex line=9 id=x");
    assert_eq!(exit_code(&r), 1);

    let cases = [
        (Reject::UnknownLine { line: 1 }, "reject kind=unknown_line line=1"),
        (Reject::BadVertex { line: 20 }, "reject kind=bad_vertex line=20"),
        (Reject::BadFaceArity { line: 8 }, "reject kind=bad_face_arity line=8"),
        (Reject::BadId { line: 3, id: s("a!") }, "reject kind=bad_id line=3 id=a!"),
        (Reject::RepeatedVertex { line: 105 }, "reject kind=repeated_vertex line=105"),
        (
            Reject::DuplicateVertex { line: 5, id: s("a") },
            "reject kind=duplicate_vertex line=5 id=a",
        ),
        (Reject::DuplicateFace { line: 11 }, "reject kind=duplicate_face line=11"),
        (Reject::BadVertexCount { count: 501 }, "reject kind=bad_vertex_count count=501"),
        (Reject::BadFaceCount { count: 0 }, "reject kind=bad_face_count count=0"),
    ];
    for (reject, text) in cases {
        assert_eq!(render(&Report::Rejected(reject)), text);
    }
    assert_eq!(reject_kind(&Reject::DuplicateFace { line: 1 }), "duplicate_face");
}
