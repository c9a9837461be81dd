//! The text form of a report: the one line (and, for a surface with holes,
//! one further line per boundary loop) that the command prints, and the
//! exit code it ends with.

use vstd::prelude::*;
use vstd::string::StringExecFns;

use crate::text::string_push;
use crate::types::{EdgeFault, Reject, RejectV, Report, ReportV};

verus! {

/// The decimal digit for `d < 10`.
pub open spec fn digit_char(d: nat) -> char {
    if d == 0 {
        '0'
    } else if d == 1 {
        '1'
    } else if d == 2 {
        '2'
    } else if d == 3 {
        '3'
    } else if d == 4 {
        '4'
    } else if d == 5 {
        '5'
    } else if d == 6 {
        '6'
    } else if d == 7 {
        '7'
    } else if d == 8 {
        '8'
    } else {
        '9'
    }
}

/// The decimal numeral of `n`, without leading zeros.
pub open spec fn decimal(n: nat) -> Seq<char>
    decreases n,
{
    if n < 10 {
        seq![digit_char(n)]
    } else {
        decimal(n / 10).push(digit_char(n % 10))
    }
}

/// The decimal numeral of `x`, with a leading `-` when it is negative.
pub open spec fn signed_decimal(x: int) -> Seq<char> {
    if x < 0 {
        seq!['-'] + decimal((-x) as nat)
    } else {
        decimal(x as nat)
    }
}

/// The name of a rejection's kind.
pub open spec fn reject_kind_text(r: RejectV) -> Seq<char> {
    match r {
        RejectV::UnknownLine { .. } => "unknown_line"@,
        RejectV::BadVertex { .. } => "bad_vertex"@,
        RejectV::BadFaceArity { .. } => "bad_face_arity"@,
        RejectV::BadId { .. } => "bad_id"@,
        RejectV::RepeatedVertex { .. } => "repeated_vertex"@,
        RejectV::DuplicateVertex { .. } => "duplicate_vertex"@,
        RejectV::UnknownVertex { .. } => "unknown_vertex"@,
        RejectV::DuplicateFace { .. } => "duplicate_face"@,
        RejectV::BadVertexCount { .. } => "bad_vertex_count"@,
        RejectV::BadFaceCount { .. } => "bad_face_count"@,
    }
}

/// ` line=<n>` for a rejection that points at a line, else nothing.
pub open spec fn reject_line_text(r: RejectV) -> Seq<char> {
    match r {
        RejectV::UnknownLine { line } => " line="@ + decimal(line as nat),
        RejectV::BadVertex { line } => " line="@ + decimal(line as nat),
        RejectV::BadFaceArity { line } => " line="@ + decimal(line as nat),
        RejectV::BadId { line, .. } => " line="@ + decimal(line as nat),
        RejectV::RepeatedVertex { line } => " line="@ + decimal(line as nat),
        RejectV::DuplicateVertex { line, .. } => " line="@ + decimal(line as nat),
        RejectV::UnknownVertex { line, .. } => " line="@ + decimal(line as nat),
        RejectV::DuplicateFace { line } => " line="@ + decimal(line as nat),
        RejectV::BadVertexCount { .. } => Seq::empty(),
        RejectV::BadFaceCount { .. } => Seq::empty(),
    }
}

/// ` id=<id>` or ` count=<n>` where the rejection carries one.
pub open spec fn reject_detail_text(r: RejectV) -> Seq<char> {
    match r {
        RejectV::BadId { id, .. } => " id="@ + id,
        RejectV::DuplicateVertex { id, .. } => " id="@ + id,
        RejectV::UnknownVertex { id, .. } => " id="@ + id,
        RejectV::BadVertexCount { count } => " count="@ + decimal(count as nat),
        RejectV::BadFaceCount { count } => " count="@ + decimal(count as nat),
        _ => Seq::empty(),
    }
}

/// The name of an edge fault.
pub open spec fn fault_text(f: EdgeFault) -> Seq<char> {
    match f {
        EdgeFault::Boundary => "boundary"@,
        EdgeFault::Misoriented => "misoriented"@,
        EdgeFault::Nonmanifold => "nonmanifold"@,
    }
}

/// The ids of a loop joined by `-`.
pub open spec fn joined(l: Seq<Seq<char>>) -> Seq<char>
    decreases l.len(),
{
    if l.len() == 0 {
        Seq::empty()
    } else if l.len() == 1 {
        l[0]
    } else {
        joined(l.drop_last()) + seq!['-'] + l.last()
    }
}

/// One `boundary <ids>` line per loop, each after a line break.
pub open spec fn loop_lines(ls: Seq<Seq<Seq<char>>>) -> Seq<char>
    decreases ls.len(),
{
    if ls.len() == 0 {
        Seq::empty()
    } else {
        loop_lines(ls.drop_last()) + "\nboundary "@ + joined(ls.last())
    }
}

/// ` V=<v> E=<e> F=<f> chi=<x>`.
pub open spec fn counts_text(v: usize, e: usize, f: usize, x: i64) -> Seq<char> {
    " V="@ + decimal(v as nat) + " E="@ + decimal(e as nat) + " F="@ + decimal(f as nat) + " chi="@
        + signed_decimal(x as int)
}

/// The text of a report.
pub open spec fn render_text(r: ReportV) -> Seq<char> {
    match r {
        ReportV::Rejected(j) => "reject kind="@ + reject_kind_text(j) + reject_line_text(j)
            + reject_detail_text(j),
        ReportV::EdgeFailed(f) => "edge-fail edge="@ + f.a + seq!['-'] + f.b + " uses="@ + decimal(
            f.uses as nat,
        ) + " fault="@ + fault_text(f.fault),
        ReportV::VertexFailed { id, sectors } => "vertex-fail vertex="@ + id + " sectors="@
            + decimal(sectors as nat),
        ReportV::ComponentFailed { id } => "component-fail vertex="@ + id,
        ReportV::ClosedOk { vertices, edges, faces, euler, genus } => "ok"@ + counts_text(
            vertices,
            edges,
            faces,
            euler,
        ) + " genus="@ + decimal(genus as nat),
        ReportV::BoundaryOk { vertices, edges, faces, euler, genus, boundary } => "ok-boundary"@
            + counts_text(vertices, edges, faces, euler) + " genus="@ + decimal(genus as nat)
            + " holes="@ + decimal(boundary.len()) + loop_lines(boundary),
        ReportV::TopologyFailed { vertices, edges, faces, euler, boundary_count } =>
            "topology-fail"@ + counts_text(vertices, edges, faces, euler) + " holes="@ + decimal(
            boundary_count as nat,
        ),
    }
}

/// The command's exit code for a report: 0 for a surface, 1 for a
/// rejection, 2 for an edge failure, 3 for a vertex failure, 4 for a
/// disconnected mesh, 5 when no genus exists.
pub open spec fn exit_code_of(r: ReportV) -> u8 {
    match r {
        ReportV::ClosedOk { .. } => 0,
        ReportV::BoundaryOk { .. } => 0,
        ReportV::Rejected(_) => 1,
        ReportV::EdgeFailed(_) => 2,
        ReportV::VertexFailed { .. } => 3,
        ReportV::ComponentFailed { .. } => 4,
        ReportV::TopologyFailed { .. } => 5,
    }
}

/// The number a string of decimal digits denotes, most significant first.
pub open spec fn numeral_value(s: Seq<char>) -> int
    decreases s.len(),
{
    if s.len() == 0 {
        0
    } else {
        10 * numeral_value(s.drop_last()) + ((s.last() as int) - ('0' as int))
    }
}

proof fn lemma_digit_value(d: nat)
    requires
        d < 10,
    ensures
        (digit_char(d) as int) - ('0' as int) == d,
        '0' <= digit_char(d) <= '9',
{
}

/// `decimal(n)` is the base-10 numeral of `n`: digits only, no leading
/// zero, denoting `n`.
pub proof fn law_decimal_is_numeral(n: nat)
    ensures
        numeral_value(decimal(n)) == n,
        decimal(n).len() > 0,
        forall|i: int| 0 <= i < decimal(n).len() ==> '0' <= #[trigger] decimal(n)[i] <= '9',
        n > 0 ==> decimal(n)[0] != '0',
    decreases n,
{
    lemma_digit_value(n % 10);
    if n < 10 {
        assert(n % 10 == n);
        let d = decimal(n);
        assert(d == seq![digit_char(n)]);
        assert(d.drop_last() =~= Seq::<char>::empty());
        assert(numeral_value(d.drop_last()) == 0);
        assert(d.last() == digit_char(n));
        assert(numeral_value(d) == 10 * numeral_value(d.drop_last()) + ((d.last() as int) - ('0' as int)));
    } else {
        law_decimal_is_numeral(n / 10);
        let d = decimal(n);
        assert(d.drop_last() =~= decimal(n / 10));
        assert(n == 10 * (n / 10) + n % 10);
        assert(d.last() == digit_char(n % 10));
        assert(numeral_value(d) == 10 * numeral_value(d.drop_last()) + ((d.last() as int) - ('0' as int)));
        assert forall|i: int| 0 <= i < d.len() implies '0' <= #[trigger] d[i] <= '9' by {
            if i < d.len() - 1 {
                assert(d[i] == decimal(n / 10)[i]);
            }
        }
        assert(d[0] == decimal(n / 10)[0]);
    }
}

/// The decimal digit for `d < 10`.
fn digit(d: u64) -> (c: char)
    requires
        d < 10,
    ensures
        c == digit_char(d as nat),
{
    if d == 0 {
        '0'
    } else if d == 1 {
        '1'
    } else if d == 2 {
        '2'
    } else if d == 3 {
        '3'
    } else if d == 4 {
        '4'
    } else if d == 5 {
        '5'
    } else if d == 6 {
        '6'
    } else if d == 7 {
        '7'
    } else if d == 8 {
        '8'
    } else {
        '9'
    }
}

/// Appends the decimal numeral of `n`.
pub fn push_decimal(out: &mut String, n: u64)
    ensures
        final(out)@ == old(out)@ + decimal(n as nat),
    decreases n,
{
    if n >= 10 {
        push_decimal(out, n / 10);
    }
    string_push(out, digit(n % 10));
    proof {
        assert(out@ =~= old(out)@ + decimal(n as nat));
    }
}

/// Appends the decimal numeral of `x`, signed.
pub fn push_signed(out: &mut String, x: i64)
    ensures
        final(out)@ == old(out)@ + signed_decimal(x as int),
{
    if x < 0 {
        string_push(out, '-');
        let m: u64 = (0i128 - x as i128) as u64;
        push_decimal(out, m);
        proof {
            assert(out@ =~= old(out)@ + signed_decimal(x as int));
        }
    } else {
        push_decimal(out, x as u64);
    }
}

/// The name of a rejection's kind.
pub fn reject_kind(r: &Reject) -> (k: &'static str)
    ensures
        k@ == reject_kind_text(r@),
{
    match r {
        Reject::UnknownLine { .. } => "unknown_line",
        Reject::BadVertex { .. } => "bad_vertex",
        Reject::BadFaceArity { .. } => "bad_face_arity",
        Reject::BadId { .. } => "bad_id",
        Reject::RepeatedVertex { .. } => "repeated_vertex",
        Reject::DuplicateVertex { .. } => "duplicate_vertex",
        Reject::UnknownVertex { .. } => "unknown_vertex",
        Reject::DuplicateFace { .. } => "duplicate_face",
        Reject::BadVertexCount { .. } => "bad_vertex_count",
        Reject::BadFaceCount { .. } => "bad_face_count",
    }
}

/// The name of an edge fault.
fn fault_name(f: EdgeFault) -> (k: &'static str)
    ensures
        k@ == fault_text(f),
{
    match f {
        EdgeFault::Boundary => "boundary",
        EdgeFault::Misoriented => "misoriented",
        EdgeFault::Nonmanifold => "nonmanifold",
    }
}

/// The text of a rejection.
fn render_reject(r: &Reject) -> (out: String)
    ensures
        out@ == "reject kind="@ + reject_kind_text(r@) + reject_line_text(r@) + reject_detail_text(r@),
{
    let mut out = String::new();
    out.append("reject kind=");
    out.append(reject_kind(r));
    let ghost head = out@;
    match r.line() {
        Some(line) => {
            out.append(" line=");
            push_decimal(&mut out, line as u64);
        },
        None => {},
    }
    proof {
        assert(out@ =~= head + reject_line_text(r@));
    }
    let ghost mid = out@;
    match r {
        Reject::BadId { id, .. } | Reject::DuplicateVertex { id, .. } | Reject::UnknownVertex {
            id,
            ..
        } => {
            out.append(" id=");
            out.append(id.as_str());
        },
        Reject::BadVertexCount { count } | Reject::BadFaceCount { count } => {
            out.append(" count=");
            push_decimal(&mut out, *count as u64);
        },
        _ => {},
    }
    proof {
        assert(out@ =~= mid + reject_detail_text(r@));
    }
    out
}

/// Appends ` V=<v> E=<e> F=<f> chi=<x>`.
fn push_counts(out: &mut String, v: usize, e: usize, f: usize, x: i64)
    ensures
        final(out)@ == old(out)@ + counts_text(v, e, f, x),
{
    out.append(" V=");
    push_decimal(out, v as u64);
    out.append(" E=");
    push_decimal(out, e as u64);
    out.append(" F=");
    push_decimal(out, f as u64);
    out.append(" chi=");
    push_signed(out, x);
    proof {
        assert(out@ =~= old(out)@ + counts_text(v, e, f, x));
    }
}

/// Appends the ids of a loop joined by `-`.
fn push_joined(out: &mut String, l: &Vec<String>)
    ensures
        final(out)@ == old(out)@ + joined(l.deep_view()),
{
    let ghost ids = l.deep_view();
    let mut k: usize = 0;
    while k < l.len()
        invariant
            ids == l.deep_view(),
            k <= l.len(),
            out@ == old(out)@ + joined(ids.take(k as int)),
        decreases l.len() - k,
    {
        if k > 0 {
            string_push(out, '-');
        }
        out.append(l[k].as_str());
        proof {
            let t = ids.take(k + 1);
            assert(t.drop_last() =~= ids.take(k as int));
            assert(t.last() == ids[k as int]);
            assert(ids[k as int] == l@[k as int]@);
            if k == 0 {
                assert(joined(t) == t[0]);
                assert(out@ =~= old(out)@ + joined(t));
            } else {
                assert(joined(t) == joined(ids.take(k as int)) + seq!['-'] + ids[k as int]);
                assert(out@ =~= old(out)@ + joined(t));
            }
        }
        k = k + 1;
    }
    proof {
        assert(ids.take(l.len() as int) =~= ids);
    }
}

/// Appends one `boundary <ids>` line per loop.
fn push_loop_lines(out: &mut String, ls: &Vec<Vec<String>>)
    ensures
        final(out)@ == old(out)@ + loop_lines(ls.deep_view()),
{
    let ghost all = ls.deep_view();
    let mut i: usize = 0;
    while i < ls.len()
        invariant
            all == ls.deep_view(),
            i <= ls.len(),
            out@ == old(out)@ + loop_lines(all.take(i as int)),
        decreases ls.len() - i,
    {
        out.append("\nboundary ");
        push_joined(out, &ls[i]);
        proof {
            let t = all.take(i + 1);
            assert(t.drop_last() =~= all.take(i as int));
            assert(t.last() == all[i as int]);
            assert(all[i as int] == ls@[i as int].deep_view());
            assert(out@ =~= old(out)@ + loop_lines(t));
        }
        i = i + 1;
    }
    proof {
        assert(all.take(ls.len() as int) =~= all);
    }
}

/// The text of a report, as the command prints it.
pub fn render(report: &Report) -> (out: String)
    ensures
        out@ == render_text(report@),
{
    match report {
        Report::Rejected(r) => render_reject(r),
        Report::EdgeFailed(f) => {
            let mut out = String::new();
            out.append("edge-fail edge=");
            out.append(f.a.as_str());
            string_push(&mut out, '-');
            out.append(f.b.as_str());
            out.append(" uses=");
            push_decimal(&mut out, f.uses as u64);
            out.append(" fault=");
            out.append(fault_name(f.fault));
            proof {
                assert(out@ =~= render_text(report@));
            }
            out
        },
        Report::VertexFailed { id, sectors } => {
            let mut out = String::new();
            out.append("vertex-fail vertex=");
            out.append(id.as_str());
            out.append(" sectors=");
            push_decimal(&mut out, *sectors as u64);
            proof {
                assert(out@ =~= render_text(report@));
            }
            out
        },
        Report::ComponentFailed { id } => {
            let mut out = String::new();
            out.append("component-fail vertex=");
            out.append(id.as_str());
            proof {
                assert(out@ =~= render_text(report@));
            }
            out
        },
        Report::ClosedOk { vertices, edges, faces, euler, genus } => {
            let mut out = String::new();
            out.append("ok");
            push_counts(&mut out, *vertices, *edges, *faces, *euler);
            out.append(" genus=");
            push_decimal(&mut out, *genus as u64);
            proof {
                assert(out@ =~= render_text(report@));
            }
            out
        },
        Report::BoundaryOk { vertices, edges, faces, euler, genus, boundary } => {
            let mut out = String::new();
            out.append("ok-boundary");
            push_counts(&mut out, *vertices, *edges, *faces, *euler);
            out.append(" genus=");
            push_decimal(&mut out, *genus as u64);
            out.append(" holes=");
            push_decimal(&mut out, boundary.len() as u64);
            push_loop_lines(&mut out, boundary);
            proof {
                assert(out@ =~= render_text(report@));
            }
            out
        },
        Report::TopologyFailed { vertices, edges, faces, euler, boundary_count } => {
            let mut out = String::new();
            out.append("topology-fail");
            push_counts(&mut out, *vertices, *edges, *faces, *euler);
            out.append(" holes=");
            push_decimal(&mut out, *boundary_count as u64);
            proof {
                assert(out@ =~= render_text(report@));
            }
            out
        },
    }
}

/// The command's exit code for a report.
pub fn exit_code(report: &Report) -> (c: u8)
    ensures
        c == exit_code_of(report@),
{
    match report {
        Report::ClosedOk { .. } | Report::BoundaryOk { .. } => 0,
        Report::Rejected(_) => 1,
        Report::EdgeFailed(_) => 2,
        Report::VertexFailed { .. } => 3,
        Report::ComponentFailed { .. } => 4,
        Report::TopologyFailed { .. } => 5,
    }
}

} // verus!
