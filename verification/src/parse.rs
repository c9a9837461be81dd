//! The mesh document grammar and its parser.
//!
//! One record per line, `#` starts a comment, blank lines are allowed:
//! ```text
//! v <id>
//! f <id> <id> <id>
//! ```

use vstd::prelude::*;

use crate::text::{
    chars_of, lemma_lex_asym, lemma_lex_total, lemma_lex_transitive, lemma_sorted_unique,
    lex_lt, line_ranges, line_tokens, lines, range_eq, range_is_char, range_lt, ranges_match,
    string_of_range, strictly_sorted, token_ranges,
};
use crate::types::{Mesh, MeshV, Reject, RejectV, MAX_FACES, MAX_VERTICES, MIN_FACES, MIN_VERTICES};

verus! {

/// A character allowed in ids: `[A-Za-z0-9_-]`.
pub open spec fn is_id_char(c: char) -> bool {
    ||| ('a' as int) <= (c as int) <= ('z' as int)
    ||| ('A' as int) <= (c as int) <= ('Z' as int)
    ||| ('0' as int) <= (c as int) <= ('9' as int)
    ||| c == '_'
    ||| c == '-'
}

/// An id is 1 to 32 characters of `[A-Za-z0-9_-]`.
pub open spec fn valid_id(x: Seq<char>) -> bool {
    &&& 1 <= x.len() <= 32
    &&& forall|i: int| 0 <= i < x.len() ==> is_id_char(#[trigger] x[i])
}

/// The id a line declares as a vertex (`v <id>`), if it is one.
pub open spec fn vertex_decl(line: Seq<char>) -> Option<Seq<char>> {
    let t = line_tokens(line);
    if t.len() == 2 && t[0] == seq!['v'] {
        Some(t[1])
    } else {
        None
    }
}

/// The ids a line declares as a face (`f <id> <id> <id>`), if it is one.
pub open spec fn face_decl(line: Seq<char>) -> Option<Seq<Seq<char>>> {
    let t = line_tokens(line);
    if t.len() == 4 && t[0] == seq!['f'] {
        Some(t.subrange(1, 4))
    } else {
        None
    }
}

/// The vertex ids declared by the first `i` lines, in order.
pub open spec fn vdecls(ls: Seq<Seq<char>>, i: int) -> Seq<Seq<char>>
    decreases i,
{
    if i <= 0 {
        Seq::empty()
    } else {
        let d = vdecls(ls, i - 1);
        match vertex_decl(ls[i - 1]) {
            Some(x) => d.push(x),
            None => d,
        }
    }
}

/// The faces declared by the first `i` lines, in order, each with the
/// index of its line.
pub open spec fn fdecls(ls: Seq<Seq<char>>, i: int) -> Seq<(Seq<Seq<char>>, int)>
    decreases i,
{
    if i <= 0 {
        Seq::empty()
    } else {
        let d = fdecls(ls, i - 1);
        match face_decl(ls[i - 1]) {
            Some(f) => d.push((f, i - 1)),
            None => d,
        }
    }
}

/// `g` holds every id of `f`: for two faces of three distinct ids each,
/// the same undirected triangle.
pub open spec fn same_tri(g: Seq<Seq<char>>, f: Seq<Seq<char>>) -> bool {
    forall|k: int| 0 <= k < 3 ==> g.contains(#[trigger] f[k])
}

/// The 1-based number of the line at index `i`, as a `u32`.
pub open spec fn line_no(i: int) -> u32 {
    (i + 1) as u32
}

/// The rejection line `i` earns on its own, given the lines before it.
pub open spec fn line_error(ls: Seq<Seq<char>>, i: int) -> Option<RejectV> {
    let t = line_tokens(ls[i]);
    let line = line_no(i);
    if t.len() == 0 {
        None
    } else if t[0] == seq!['v'] {
        if t.len() != 2 {
            Some(RejectV::BadVertex { line })
        } else if !valid_id(t[1]) {
            Some(RejectV::BadId { line, id: t[1] })
        } else if vdecls(ls, i).contains(t[1]) {
            Some(RejectV::DuplicateVertex { line, id: t[1] })
        } else {
            None
        }
    } else if t[0] == seq!['f'] {
        if t.len() != 4 {
            Some(RejectV::BadFaceArity { line })
        } else if !valid_id(t[1]) {
            Some(RejectV::BadId { line, id: t[1] })
        } else if !valid_id(t[2]) {
            Some(RejectV::BadId { line, id: t[2] })
        } else if !valid_id(t[3]) {
            Some(RejectV::BadId { line, id: t[3] })
        } else if t[1] == t[2] || t[2] == t[3] || t[1] == t[3] {
            Some(RejectV::RepeatedVertex { line })
        } else if exists|k: int|
            0 <= k < fdecls(ls, i).len() && same_tri(#[trigger] fdecls(ls, i)[k].0, t.subrange(1, 4)) {
            Some(RejectV::DuplicateFace { line })
        } else {
            None
        }
    } else {
        Some(RejectV::UnknownLine { line })
    }
}

/// The rejection of the first line, among the first `k`, that earns one.
pub open spec fn first_line_error(ls: Seq<Seq<char>>, k: int) -> Option<RejectV>
    decreases k,
{
    if k <= 0 {
        None
    } else {
        match first_line_error(ls, k - 1) {
            Some(e) => Some(e),
            None => line_error(ls, k - 1),
        }
    }
}

/// The first of the first `k` faces that names an undeclared id: the
/// rejection for its first such id, on the face's line.
pub open spec fn unknown_in(fs: Seq<(Seq<Seq<char>>, int)>, vs: Seq<Seq<char>>, k: int) -> Option<
    RejectV,
>
    decreases k,
{
    if k <= 0 {
        None
    } else {
        match unknown_in(fs, vs, k - 1) {
            Some(e) => Some(e),
            None => {
                let (f, i) = fs[k - 1];
                if !vs.contains(f[0]) {
                    Some(RejectV::UnknownVertex { line: line_no(i), id: f[0] })
                } else if !vs.contains(f[1]) {
                    Some(RejectV::UnknownVertex { line: line_no(i), id: f[1] })
                } else if !vs.contains(f[2]) {
                    Some(RejectV::UnknownVertex { line: line_no(i), id: f[2] })
                } else {
                    None
                }
            },
        }
    }
}

/// Why a document is rejected, if it is: the first bad line; else a vertex
/// count outside 4..=500; else a face count outside 4..=2000; else the
/// first face naming an undeclared vertex.
pub open spec fn parse_error(s: Seq<char>) -> Option<RejectV> {
    let ls = lines(s);
    let n = ls.len() as int;
    match first_line_error(ls, n) {
        Some(e) => Some(e),
        None => {
            let vs = vdecls(ls, n);
            let fs = fdecls(ls, n);
            if !(MIN_VERTICES <= vs.len() <= MAX_VERTICES) {
                Some(RejectV::BadVertexCount { count: vs.len() as usize })
            } else if !(MIN_FACES <= fs.len() <= MAX_FACES) {
                Some(RejectV::BadFaceCount { count: fs.len() as usize })
            } else {
                unknown_in(fs, vs, fs.len() as int)
            }
        },
    }
}

/// The strictly increasing arrangement of a list of distinct ids.
pub open spec fn sorted_ids(ids: Seq<Seq<char>>) -> Seq<Seq<char>> {
    choose|r: Seq<Seq<char>>| strictly_sorted(r) && r.to_set() == ids.to_set()
}

/// The mesh a document describes, or why it is rejected.
pub open spec fn parse_outcome(s: Seq<char>) -> Result<MeshV, RejectV> {
    let ls = lines(s);
    let n = ls.len() as int;
    match parse_error(s) {
        Some(e) => Err(e),
        None => Ok(
            MeshV {
                vertices: sorted_ids(vdecls(ls, n)),
                faces: Seq::new(fdecls(ls, n).len(), |k: int| fdecls(ls, n)[k].0),
            },
        ),
    }
}

/// The characters a range selects.
pub open spec fn rv(cs: Seq<char>, r: (usize, usize)) -> Seq<char> {
    cs.subrange(r.0 as int, r.1 as int)
}

/// The characters each range of a list selects.
pub open spec fn range_views(cs: Seq<char>, rs: Seq<(usize, usize)>) -> Seq<Seq<char>> {
    Seq::new(rs.len(), |k: int| rv(cs, rs[k]))
}

/// Every range of the list lies within `cs`.
pub open spec fn ranges_ok(cs: Seq<char>, rs: Seq<(usize, usize)>) -> bool {
    forall|k: int| 0 <= k < rs.len() ==> (#[trigger] rs[k]).0 <= rs[k].1 <= cs.len()
}

/// A face as the ranges of its three ids.
pub type FaceRanges = ((usize, usize), (usize, usize), (usize, usize));

/// The ids of a face given by ranges.
pub open spec fn face_view(cs: Seq<char>, f: FaceRanges) -> Seq<Seq<char>> {
    seq![rv(cs, f.0), rv(cs, f.1), rv(cs, f.2)]
}

/// The three ranges of a face lie within `cs`.
pub open spec fn face_ok(cs: Seq<char>, f: FaceRanges) -> bool {
    &&& f.0.0 <= f.0.1 <= cs.len()
    &&& f.1.0 <= f.1.1 <= cs.len()
    &&& f.2.0 <= f.2.1 <= cs.len()
}

/// Whether the id in `lo..hi` is valid.
fn valid_id_range(cs: &Vec<char>, lo: usize, hi: usize) -> (r: bool)
    requires
        lo <= hi <= cs.len(),
    ensures
        r == valid_id(cs@.subrange(lo as int, hi as int)),
{
    let ghost x = cs@.subrange(lo as int, hi as int);
    if hi - lo < 1 || hi - lo > 32 {
        return false;
    }
    let mut i = lo;
    while i < hi
        invariant
            lo <= i <= hi <= cs.len(),
            x == cs@.subrange(lo as int, hi as int),
            forall|k: int| 0 <= k < i - lo ==> is_id_char(#[trigger] x[k]),
        decreases hi - i,
    {
        let c = cs[i];
        let ok = (c >= 'a' && c <= 'z') || (c >= 'A' && c <= 'Z') || (c >= '0' && c <= '9') || c
            == '_' || c == '-';
        proof {
            assert(x[i - lo] == c);
        }
        if !ok {
            return false;
        }
        i = i + 1;
    }
    true
}

/// Whether the id in `lo..hi` is selected by some range of the list.
fn contains_range(cs: &Vec<char>, list: &Vec<(usize, usize)>, lo: usize, hi: usize) -> (r: bool)
    requires
        lo <= hi <= cs.len(),
        ranges_ok(cs@, list@),
    ensures
        r == range_views(cs@, list@).contains(cs@.subrange(lo as int, hi as int)),
{
    let ghost x = cs@.subrange(lo as int, hi as int);
    let ghost vs = range_views(cs@, list@);
    let mut k: usize = 0;
    while k < list.len()
        invariant
            lo <= hi <= cs.len(),
            ranges_ok(cs@, list@),
            x == cs@.subrange(lo as int, hi as int),
            vs == range_views(cs@, list@),
            k <= list.len(),
            forall|j: int| 0 <= j < k ==> vs[j] != x,
        decreases list.len() - k,
    {
        let (a, b) = list[k];
        proof {
            assert(list@[k as int].0 <= list@[k as int].1 <= cs.len());
        }
        if range_eq(cs, a, b, lo, hi) {
            proof {
                assert(vs[k as int] == x);
            }
            return true;
        }
        k = k + 1;
    }
    proof {
        if vs.contains(x) {
            let j = choose|j: int| 0 <= j < vs.len() && vs[j] == x;
            assert(vs[j] != x);
        }
    }
    false
}

/// Whether the id in `lo..hi` is one of the ids of face `g`.
fn in_face(cs: &Vec<char>, g: FaceRanges, lo: usize, hi: usize) -> (r: bool)
    requires
        lo <= hi <= cs.len(),
        face_ok(cs@, g),
    ensures
        r == face_view(cs@, g).contains(cs@.subrange(lo as int, hi as int)),
{
    let ghost x = cs@.subrange(lo as int, hi as int);
    let ghost fv = face_view(cs@, g);
    let r = range_eq(cs, (g.0).0, (g.0).1, lo, hi) || range_eq(cs, (g.1).0, (g.1).1, lo, hi)
        || range_eq(cs, (g.2).0, (g.2).1, lo, hi);
    proof {
        if r {
            if rv(cs@, g.0) == x {
                assert(fv[0] == x);
            } else if rv(cs@, g.1) == x {
                assert(fv[1] == x);
            } else {
                assert(fv[2] == x);
            }
        } else {
            if fv.contains(x) {
                let j = choose|j: int| 0 <= j < fv.len() && fv[j] == x;
                assert(j == 0 || j == 1 || j == 2);
            }
        }
    }
    r
}

/// What the parser has gathered after scanning the first `i` lines: the
/// declared vertex ids and faces (as ranges, with their line indices), and
/// no line so far earned a rejection.
pub open spec fn scan_ok(
    cs: Seq<char>,
    ls: Seq<Seq<char>>,
    i: int,
    vt: Seq<(usize, usize)>,
    ft: Seq<FaceRanges>,
    fl: Seq<usize>,
) -> bool {
    &&& ranges_ok(cs, vt)
    &&& range_views(cs, vt) == vdecls(ls, i)
    &&& ft.len() == fdecls(ls, i).len()
    &&& fl.len() == fdecls(ls, i).len()
    &&& forall|k: int| 0 <= k < ft.len() ==> face_ok(cs, #[trigger] ft[k])
    &&& forall|k: int| 0 <= k < ft.len() ==> face_view(cs, #[trigger] ft[k]) == fdecls(ls, i)[k].0
    &&& forall|k: int| 0 <= k < fl.len() ==> #[trigger] fl[k] == fdecls(ls, i)[k].1
    &&& first_line_error(ls, i) is None
}

/// A rejection carrying the id in `lo..hi`.
fn id_string(cs: &Vec<char>, r: (usize, usize)) -> (s: String)
    requires
        r.0 <= r.1 <= cs.len(),
    ensures
        s@ == rv(cs@, r),
{
    string_of_range(cs, r.0, r.1)
}

/// Scans line `i`: either records its declaration or returns the rejection
/// it earns.
fn scan_line(
    cs: &Vec<char>,
    lo: usize,
    hi: usize,
    i: usize,
    vt: &mut Vec<(usize, usize)>,
    ft: &mut Vec<FaceRanges>,
    fl: &mut Vec<usize>,
    Ghost(ls): Ghost<Seq<Seq<char>>>,
) -> (r: Option<Reject>)
    requires
        scan_ok(cs@, ls, i as int, old(vt)@, old(ft)@, old(fl)@),
        i < ls.len(),
        i + 1 <= usize::MAX,
        lo <= hi <= cs.len(),
        cs@.subrange(lo as int, hi as int) == ls[i as int],
    ensures
        r is None ==> scan_ok(cs@, ls, i + 1, final(vt)@, final(ft)@, final(fl)@),
        r matches Some(e) ==> line_error(ls, i as int) == Some(e@),
{
    let tk = token_ranges(cs, lo, hi);
    let ghost t = line_tokens(ls[i as int]);
    let ghost line = line_no(i as int);
    proof {
        assert(t.len() == tk.len());
        assert forall|k: int| 0 <= k < tk.len() implies rv(cs@, #[trigger] tk@[k]) == t[k] by {}
        assert(line == ((i + 1) as u32));
    }
    if tk.len() == 0 {
        proof {
            assert(vdecls(ls, i + 1) == vdecls(ls, i as int));
            assert(fdecls(ls, i + 1) == fdecls(ls, i as int));
        }
        return None;
    }
    let (a0, b0) = tk[0];
    if range_is_char(cs, a0, b0, 'v') {
        proof {
            assert(t[0] == seq!['v']);
        }
        if tk.len() != 2 {
            return Some(Reject::BadVertex { line: (i + 1) as u32 });
        }
        let (a1, b1) = tk[1];
        if !valid_id_range(cs, a1, b1) {
            return Some(Reject::BadId { line: (i + 1) as u32, id: string_of_range(cs, a1, b1) });
        }
        if contains_range(cs, vt, a1, b1) {
            return Some(
                Reject::DuplicateVertex { line: (i + 1) as u32, id: string_of_range(cs, a1, b1) },
            );
        }
        let ghost vt0 = vt@;
        vt.push((a1, b1));
        proof {
            assert(vertex_decl(ls[i as int]) == Some(t[1]));
            assert(vdecls(ls, i + 1) == vdecls(ls, i as int).push(t[1]));
            assert(range_views(cs@, vt@) =~= range_views(cs@, vt0).push(t[1]));
            assert(face_decl(ls[i as int]) is None);
            assert(fdecls(ls, i + 1) == fdecls(ls, i as int));
            assert(ranges_ok(cs@, vt@)) by {
                assert forall|k: int| 0 <= k < vt@.len() implies (#[trigger] vt@[k]).0 <= vt@[k].1 <= cs.len() by {
                    if k < vt0.len() {
                        assert(vt@[k] == vt0[k]);
                    }
                }
            }
        }
        return None;
    }
    if range_is_char(cs, a0, b0, 'f') {
        proof {
            assert(t[0] == seq!['f']);
            assert(t[0] != seq!['v']) by {
                assert(seq!['f'][0] != seq!['v'][0]);
            }
        }
        if tk.len() != 4 {
            return Some(Reject::BadFaceArity { line: (i + 1) as u32 });
        }
        let r1 = tk[1];
        let r2 = tk[2];
        let r3 = tk[3];
        if !valid_id_range(cs, r1.0, r1.1) {
            return Some(Reject::BadId { line: (i + 1) as u32, id: id_string(cs, r1) });
        }
        if !valid_id_range(cs, r2.0, r2.1) {
            return Some(Reject::BadId { line: (i + 1) as u32, id: id_string(cs, r2) });
        }
        if !valid_id_range(cs, r3.0, r3.1) {
            return Some(Reject::BadId { line: (i + 1) as u32, id: id_string(cs, r3) });
        }
        if range_eq(cs, r1.0, r1.1, r2.0, r2.1) || range_eq(cs, r2.0, r2.1, r3.0, r3.1) || range_eq(
            cs,
            r1.0,
            r1.1,
            r3.0,
            r3.1,
        ) {
            return Some(Reject::RepeatedVertex { line: (i + 1) as u32 });
        }
        let face: FaceRanges = (r1, r2, r3);
        let ghost fv = t.subrange(1, 4);
        proof {
            assert(face_view(cs@, face) =~= fv);
        }
        let mut k: usize = 0;
        while k < ft.len()
            invariant
                scan_ok(cs@, ls, i as int, vt@, ft@, fl@),
                face_ok(cs@, face),
                face == (r1, r2, r3),
                face_view(cs@, face) == fv,
                i + 1 <= usize::MAX,
                i < ls.len(),
                t == line_tokens(ls[i as int]),
                t.len() == 4,
                t[0] == seq!['f'],
                t[0] != seq!['v'],
                valid_id(t[1]) && valid_id(t[2]) && valid_id(t[3]),
                !(t[1] == t[2] || t[2] == t[3] || t[1] == t[3]),
                fv == t.subrange(1, 4),
                line == line_no(i as int),
                line == ((i + 1) as u32),
                fv.len() == 3,
                k <= ft.len(),
                forall|j: int| 0 <= j < k ==> !same_tri(#[trigger] fdecls(ls, i as int)[j].0, fv),
            decreases ft.len() - k,
        {
            let g = ft[k];
            proof {
                assert(face_ok(cs@, ft@[k as int]));
                assert(face_view(cs@, ft@[k as int]) == fdecls(ls, i as int)[k as int].0);
            }
            let same = in_face(cs, g, r1.0, r1.1) && in_face(cs, g, r2.0, r2.1) && in_face(
                cs,
                g,
                r3.0,
                r3.1,
            );
            proof {
                let gv = fdecls(ls, i as int)[k as int].0;
                assert(fv[0] == rv(cs@, r1));
                assert(fv[1] == rv(cs@, r2));
                assert(fv[2] == rv(cs@, r3));
                if same {
                    assert forall|m: int| 0 <= m < 3 implies gv.contains(#[trigger] fv[m]) by {
                        if m == 0 {
                        } else if m == 1 {
                        } else {
                        }
                    }
                } else {
                    if same_tri(gv, fv) {
                        assert(gv.contains(fv[0]));
                        assert(gv.contains(fv[1]));
                        assert(gv.contains(fv[2]));
                    }
                }
            }
            if same {
                proof {
                    assert(same_tri(fdecls(ls, i as int)[k as int].0, t.subrange(1, 4)));
                }
                return Some(Reject::DuplicateFace { line: (i + 1) as u32 });
            }
            k = k + 1;
        }
        let ghost ft0 = ft@;
        let ghost fl0 = fl@;
        ft.push(face);
        fl.push(i);
        proof {
            assert(face_decl(ls[i as int]) == Some(fv));
            assert(fdecls(ls, i + 1) == fdecls(ls, i as int).push((fv, i as int)));
            assert(vertex_decl(ls[i as int]) is None);
            assert(vdecls(ls, i + 1) == vdecls(ls, i as int));
            assert(line_error(ls, i as int) is None);
            assert forall|j: int| 0 <= j < ft@.len() implies face_ok(cs@, #[trigger] ft@[j]) by {
                if j < ft0.len() {
                    assert(ft@[j] == ft0[j]);
                }
            }
            assert forall|j: int| 0 <= j < ft@.len() implies face_view(cs@, #[trigger] ft@[j]) == fdecls(ls, i + 1)[j].0 by {
                if j < ft0.len() {
                    assert(ft@[j] == ft0[j]);
                }
            }
            assert forall|j: int| 0 <= j < fl@.len() implies #[trigger] fl@[j] == fdecls(ls, i + 1)[j].1 by {
                if j < fl0.len() {
                    assert(fl@[j] == fl0[j]);
                }
            }
        }
        return None;
    }
    proof {
        assert(t[0] != seq!['v']);
        assert(t[0] != seq!['f']);
    }
    Some(Reject::UnknownLine { line: (i + 1) as u32 })
}

/// The tokens a line declaring face `f` consists of.
pub open spec fn face_tokens(f: Seq<Seq<char>>) -> Seq<Seq<char>> {
    seq![seq!['f']] + f
}

/// The first of the first `k` lines whose tokens are exactly `f <ids of f>`.
pub open spec fn first_face_line(ls: Seq<Seq<char>>, f: Seq<Seq<char>>, k: int) -> Option<int>
    decreases k,
{
    if k <= 0 {
        None
    } else {
        match first_face_line(ls, f, k - 1) {
            Some(j) => Some(j),
            None => if line_tokens(ls[k - 1]) == face_tokens(f) {
                Some(k - 1)
            } else {
                None
            },
        }
    }
}

/// Locate the 1-based line on which a given directed face was declared.
fn find_face_line(
    cs: &Vec<char>,
    lr: &Vec<(usize, usize)>,
    face: FaceRanges,
    Ghost(ls): Ghost<Seq<Seq<char>>>,
) -> (r: Option<u32>)
    requires
        ranges_match(cs@, lr@, ls),
        face_ok(cs@, face),
    ensures
        r == match first_face_line(ls, face_view(cs@, face), ls.len() as int) {
            Some(j) => Some(line_no(j)),
            None => None::<u32>,
        },
{
    let ghost f = face_view(cs@, face);
    let mut i: usize = 0;
    while i < lr.len()
        invariant
            ranges_match(cs@, lr@, ls),
            face_ok(cs@, face),
            f == face_view(cs@, face),
            i <= lr.len(),
            first_face_line(ls, f, i as int) is None,
        decreases lr.len() - i,
    {
        let (lo, hi) = lr[i];
        proof {
            assert(lr@[i as int].0 <= lr@[i as int].1 <= cs.len());
        }
        let tk = token_ranges(cs, lo, hi);
        let ghost t = line_tokens(ls[i as int]);
        proof {
            assert(cs@.subrange(lo as int, hi as int) == ls[i as int]);
            assert forall|k: int| 0 <= k < tk.len() implies rv(cs@, #[trigger] tk@[k]) == t[k] by {}
        }
        let matched = tk.len() == 4 && range_is_char(cs, tk[0].0, tk[0].1, 'f') && range_eq(
            cs,
            tk[1].0,
            tk[1].1,
            (face.0).0,
            (face.0).1,
        ) && range_eq(cs, tk[2].0, tk[2].1, (face.1).0, (face.1).1) && range_eq(
            cs,
            tk[3].0,
            tk[3].1,
            (face.2).0,
            (face.2).1,
        );
        proof {
            if matched {
                assert(t =~= face_tokens(f));
            } else {
                if t == face_tokens(f) {
                    assert(t.len() == 4);
                    assert(t[0] == seq!['f']);
                    assert(t[1] == f[0]);
                    assert(t[2] == f[1]);
                    assert(t[3] == f[2]);
                }
            }
        }
        if matched {
            proof {
                assert(first_face_line(ls, f, i + 1) == Some(i as int));
                lemma_first_face_line_stable(ls, f, i + 1, ls.len() as int);
            }
            return Some((i + 1) as u32);
        }
        i = i + 1;
    }
    None
}

proof fn lemma_first_face_line_stable(ls: Seq<Seq<char>>, f: Seq<Seq<char>>, k: int, m: int)
    requires
        k <= m,
        first_face_line(ls, f, k) is Some,
    ensures
        first_face_line(ls, f, m) == first_face_line(ls, f, k),
    decreases m - k,
{
    if k < m {
        lemma_first_face_line_stable(ls, f, k, m - 1);
    }
}

proof fn lemma_first_line_error_stable(ls: Seq<Seq<char>>, k: int, m: int)
    requires
        k <= m,
        first_line_error(ls, k) is Some,
    ensures
        first_line_error(ls, m) == first_line_error(ls, k),
    decreases m - k,
{
    if k < m {
        lemma_first_line_error_stable(ls, k, m - 1);
    }
}

proof fn lemma_no_line_error(ls: Seq<Seq<char>>, k: int, j: int)
    requires
        first_line_error(ls, k) is None,
        0 <= j < k,
    ensures
        line_error(ls, j) is None,
    decreases k,
{
    if j < k - 1 {
        lemma_no_line_error(ls, k - 1, j);
    }
}

proof fn lemma_unknown_in_stable(fs: Seq<(Seq<Seq<char>>, int)>, vs: Seq<Seq<char>>, k: int, m: int)
    requires
        k <= m,
        unknown_in(fs, vs, k) is Some,
    ensures
        unknown_in(fs, vs, m) == unknown_in(fs, vs, k),
    decreases m - k,
{
    if k < m {
        lemma_unknown_in_stable(fs, vs, k, m - 1);
    }
}

/// Every face line before `i` appears among the first `i` face declarations.
proof fn lemma_fdecls_contains(ls: Seq<Seq<char>>, i: int, j: int)
    requires
        0 <= j < i,
        face_decl(ls[j]) is Some,
    ensures
        exists|k: int| 0 <= k < fdecls(ls, i).len() && #[trigger] fdecls(ls, i)[k] == (face_decl(ls[j])->0, j),
    decreases i,
{
    if j < i - 1 {
        lemma_fdecls_contains(ls, i - 1, j);
        let k = choose|k: int| 0 <= k < fdecls(ls, i - 1).len() && #[trigger] fdecls(ls, i - 1)[k] == (face_decl(ls[j])->0, j);
        assert(fdecls(ls, i)[k] == fdecls(ls, i - 1)[k]);
    } else {
        let d = fdecls(ls, i - 1);
        assert(fdecls(ls, i)[d.len() as int] == (face_decl(ls[j])->0, j));
    }
}

/// Each face declaration comes from its line.
proof fn lemma_fdecls_entry(ls: Seq<Seq<char>>, i: int, k: int)
    requires
        0 <= k < fdecls(ls, i).len(),
    ensures
        0 <= fdecls(ls, i)[k].1 < i,
        face_decl(ls[fdecls(ls, i)[k].1]) == Some(fdecls(ls, i)[k].0),
    decreases i,
{
    if i > 0 {
        let d = fdecls(ls, i - 1);
        if k < d.len() {
            lemma_fdecls_entry(ls, i - 1, k);
            assert(fdecls(ls, i)[k] == d[k]);
        }
    }
}

proof fn lemma_first_face_line_at(ls: Seq<Seq<char>>, f: Seq<Seq<char>>, j: int, k: int)
    requires
        0 <= j < k,
        line_tokens(ls[j]) == face_tokens(f),
        forall|q: int| 0 <= q < j ==> line_tokens(ls[q]) != face_tokens(f),
    ensures
        first_face_line(ls, f, k) == Some(j),
    decreases k,
{
    if k - 1 > j {
        lemma_first_face_line_at(ls, f, j, k - 1);
    } else {
        lemma_first_face_line_none(ls, f, j);
    }
}

proof fn lemma_first_face_line_none(ls: Seq<Seq<char>>, f: Seq<Seq<char>>, k: int)
    requires
        forall|q: int| 0 <= q < k ==> line_tokens(ls[q]) != face_tokens(f),
    ensures
        first_face_line(ls, f, k) is None,
    decreases k,
{
    if k > 0 {
        lemma_first_face_line_none(ls, f, k - 1);
    }
}

/// In a document without bad lines, the first line spelling out a declared
/// face is the line that declared it.
proof fn lemma_face_line(ls: Seq<Seq<char>>, k: int)
    requires
        first_line_error(ls, ls.len() as int) is None,
        0 <= k < fdecls(ls, ls.len() as int).len(),
    ensures
        first_face_line(ls, fdecls(ls, ls.len() as int)[k].0, ls.len() as int) == Some(
            fdecls(ls, ls.len() as int)[k].1,
        ),
{
    let n = ls.len() as int;
    let (g, j) = fdecls(ls, n)[k];
    lemma_fdecls_entry(ls, n, k);
    let t = line_tokens(ls[j]);
    assert(t.len() == 4 && t[0] == seq!['f'] && t.subrange(1, 4) == g);
    assert(t =~= face_tokens(g));
    lemma_no_line_error(ls, n, j);
    assert(t[0] != seq!['v']) by {
        assert(seq!['f'][0] != seq!['v'][0]);
    }
    assert forall|q: int| 0 <= q < j implies line_tokens(ls[q]) != face_tokens(g) by {
        if line_tokens(ls[q]) == face_tokens(g) {
            let tq = line_tokens(ls[q]);
            assert(tq.subrange(1, 4) =~= g);
            assert(face_decl(ls[q]) == Some(g));
            lemma_fdecls_contains(ls, j, q);
            let m = choose|m: int| 0 <= m < fdecls(ls, j).len() && #[trigger] fdecls(ls, j)[m] == (g, q);
            assert(same_tri(fdecls(ls, j)[m].0, t.subrange(1, 4))) by {
                assert forall|z: int| 0 <= z < 3 implies g.contains(#[trigger] g[z]) by {}
            }
        }
    }
    lemma_first_face_line_at(ls, g, j, n);
}

/// Inserts the id range `x` into a list of id ranges kept in strictly
/// increasing id order.
fn insert_sorted(cs: &Vec<char>, out: &mut Vec<(usize, usize)>, x: (usize, usize))
    requires
        ranges_ok(cs@, old(out)@),
        x.0 <= x.1 <= cs.len(),
        strictly_sorted(range_views(cs@, old(out)@)),
        !range_views(cs@, old(out)@).contains(rv(cs@, x)),
    ensures
        ranges_ok(cs@, final(out)@),
        strictly_sorted(range_views(cs@, final(out)@)),
        range_views(cs@, final(out)@).to_set() == range_views(cs@, old(out)@).to_set().insert(rv(cs@, x)),
        final(out)@.len() == old(out)@.len() + 1,
{
    let ghost xv = rv(cs@, x);
    let ghost v0 = range_views(cs@, out@);
    let ghost o0 = out@;
    let mut p: usize = 0;
    while p < out.len() && range_lt(cs, out[p].0, out[p].1, x.0, x.1)
        invariant
            ranges_ok(cs@, out@),
            out@ == o0,
            v0 == range_views(cs@, out@),
            xv == rv(cs@, x),
            x.0 <= x.1 <= cs.len(),
            p <= out.len(),
            forall|j: int| 0 <= j < p ==> lex_lt(#[trigger] v0[j], xv),
        decreases out.len() - p,
    {
        proof {
            assert(out@[p as int].0 <= out@[p as int].1 <= cs.len());
        }
        p = p + 1;
    }
    proof {
        if p < out.len() {
            assert(out@[p as int].0 <= out@[p as int].1 <= cs.len());
            assert(!lex_lt(v0[p as int], xv));
            assert(v0[p as int] != xv);
            lemma_lex_total(v0[p as int], xv);
            assert(lex_lt(xv, v0[p as int]));
            assert forall|j: int| p <= j < v0.len() implies lex_lt(xv, #[trigger] v0[j]) by {
                if j > p {
                    assert(lex_lt(v0[p as int], v0[j]));
                    lemma_lex_transitive(xv, v0[p as int], v0[j]);
                }
            }
        }
    }
    out.insert(p, x);
    proof {
        let v1 = range_views(cs@, out@);
        assert(v1 =~= v0.insert(p as int, xv));
        assert forall|i: int, j: int| 0 <= i < j < v1.len() implies lex_lt(#[trigger] v1[i], #[trigger] v1[j]) by {
            if j < p {
                assert(v1[i] == v0[i] && v1[j] == v0[j]);
            } else if j == p {
                assert(v1[i] == v0[i]);
            } else if i == p {
                assert(v1[j] == v0[j - 1]);
            } else if i < p {
                assert(v1[i] == v0[i] && v1[j] == v0[j - 1]);
                assert(lex_lt(v0[i], xv));
                assert(lex_lt(xv, v0[j - 1]));
                lemma_lex_transitive(v0[i], xv, v0[j - 1]);
            } else {
                assert(v1[i] == v0[i - 1] && v1[j] == v0[j - 1]);
            }
        }
        assert(v1.to_set() =~= v0.to_set().insert(xv)) by {
            assert forall|y: Seq<char>| v1.to_set().contains(y) implies v0.to_set().insert(xv).contains(y) by {
                let k = choose|k: int| 0 <= k < v1.len() && v1[k] == y;
                if k < p {
                    assert(v0[k] == y);
                } else if k > p {
                    assert(v0[k - 1] == y);
                }
            }
            assert forall|y: Seq<char>| v0.to_set().insert(xv).contains(y) implies v1.to_set().contains(y) by {
                if y == xv {
                    assert(v1[p as int] == xv);
                } else {
                    let k = choose|k: int| 0 <= k < v0.len() && v0[k] == y;
                    if k < p {
                        assert(v1[k] == y);
                    } else {
                        assert(v1[k + 1] == y);
                    }
                }
            }
        }
        assert forall|k: int| 0 <= k < out@.len() implies (#[trigger] out@[k]).0 <= out@[k].1 <= cs.len() by {
            if k < p {
                assert(out@[k] == o0[k]);
            } else if k > p {
                assert(out@[k] == o0[k - 1]);
            }
        }
    }
}

/// In a document without bad lines no vertex id is declared twice.
proof fn lemma_vdecls_distinct(ls: Seq<Seq<char>>, i: int)
    requires
        first_line_error(ls, i) is None,
        i <= ls.len(),
    ensures
        forall|a: int, b: int|
            0 <= a < b < vdecls(ls, i).len() ==> #[trigger] vdecls(ls, i)[a] != #[trigger] vdecls(ls, i)[b],
    decreases i,
{
    if i > 0 {
        lemma_vdecls_distinct(ls, i - 1);
        let d = vdecls(ls, i - 1);
        match vertex_decl(ls[i - 1]) {
            Some(x) => {
                assert(line_error(ls, i - 1) is None);
                let t = line_tokens(ls[i - 1]);
                assert(t[0] == seq!['v']);
                assert(!d.contains(x));
                let e = vdecls(ls, i);
                assert(e == d.push(x));
                assert forall|a: int, b: int| 0 <= a < b < e.len() implies #[trigger] e[a] != #[trigger] e[b] by {
                    if b == d.len() {
                        assert(e[a] == d[a]);
                        if d[a] == x {
                            assert(d.contains(x));
                        }
                    } else {
                        assert(e[a] == d[a] && e[b] == d[b]);
                    }
                }
            },
            None => {},
        }
    }
}

/// A declared face of a document without bad lines has three distinct ids.
proof fn lemma_face_distinct(ls: Seq<Seq<char>>, k: int)
    requires
        first_line_error(ls, ls.len() as int) is None,
        0 <= k < fdecls(ls, ls.len() as int).len(),
    ensures
        ({
            let g = fdecls(ls, ls.len() as int)[k].0;
            &&& g.len() == 3
            &&& g[0] != g[1]
            &&& g[1] != g[2]
            &&& g[0] != g[2]
            &&& valid_id(g[0]) && valid_id(g[1]) && valid_id(g[2])
        }),
{
    let n = ls.len() as int;
    let (g, j) = fdecls(ls, n)[k];
    lemma_fdecls_entry(ls, n, k);
    lemma_no_line_error(ls, n, j);
    let t = line_tokens(ls[j]);
    assert(t[0] != seq!['v']) by {
        assert(seq!['f'][0] != seq!['v'][0]);
    }
    assert(g == t.subrange(1, 4));
    assert(g[0] == t[1] && g[1] == t[2] && g[2] == t[3]);
}

/// The faces of the first `i` lines begin the faces of the first `k`.
proof fn lemma_fdecls_prefix(ls: Seq<Seq<char>>, i: int, k: int)
    requires
        0 <= i <= k,
    ensures
        fdecls(ls, i).len() <= fdecls(ls, k).len(),
        forall|q: int| 0 <= q < fdecls(ls, i).len() ==> #[trigger] fdecls(ls, k)[q] == fdecls(ls, i)[q],
    decreases k - i,
{
    if i < k {
        lemma_fdecls_prefix(ls, i, k - 1);
        assert forall|q: int| 0 <= q < fdecls(ls, i).len() implies #[trigger] fdecls(ls, k)[q] == fdecls(
            ls,
            i,
        )[q] by {
            assert(fdecls(ls, k)[q] == fdecls(ls, k - 1)[q]);
        }
    }
}

/// A face is preceded, in the face list, by exactly the faces of the lines
/// before its own.
proof fn lemma_fdecls_index(ls: Seq<Seq<char>>, i: int, k: int)
    requires
        0 <= k < fdecls(ls, i).len(),
    ensures
        fdecls(ls, fdecls(ls, i)[k].1).len() == k,
    decreases i,
{
    if i > 0 {
        let d = fdecls(ls, i - 1);
        if k < d.len() {
            lemma_fdecls_index(ls, i - 1, k);
            assert(fdecls(ls, i)[k] == d[k]);
        }
    }
}

/// Lines with the same tokens, one by one, declare the same vertices and
/// faces and earn the same rejections.
proof fn lemma_same_tokens(ls1: Seq<Seq<char>>, ls2: Seq<Seq<char>>, i: int)
    requires
        ls1.len() == ls2.len(),
        forall|j: int| 0 <= j < ls1.len() ==> #[trigger] line_tokens(ls1[j]) == line_tokens(ls2[j]),
        0 <= i <= ls1.len(),
    ensures
        vdecls(ls1, i) == vdecls(ls2, i),
        fdecls(ls1, i) == fdecls(ls2, i),
        first_line_error(ls1, i) == first_line_error(ls2, i),
    decreases i,
{
    if i > 0 {
        lemma_same_tokens(ls1, ls2, i - 1);
        assert(line_tokens(ls1[i - 1]) == line_tokens(ls2[i - 1]));
        assert(vertex_decl(ls1[i - 1]) == vertex_decl(ls2[i - 1]));
        assert(face_decl(ls1[i - 1]) == face_decl(ls2[i - 1]));
        assert(line_error(ls1, i - 1) == line_error(ls2, i - 1));
    }
}

/// A document's outcome depends on each line only through its tokens: two
/// documents with the same number of lines, whose lines have the same
/// tokens one by one, get the same mesh or the same rejection. So comments
/// and the amount of whitespace between tokens do not matter.
pub proof fn law_outcome_by_tokens(s1: Seq<char>, s2: Seq<char>)
    requires
        lines(s1).len() == lines(s2).len(),
        forall|j: int|
            0 <= j < lines(s1).len() ==> #[trigger] line_tokens(lines(s1)[j]) == line_tokens(
                lines(s2)[j],
            ),
    ensures
        parse_outcome(s1) == parse_outcome(s2),
{
    let ls1 = lines(s1);
    let ls2 = lines(s2);
    lemma_same_tokens(ls1, ls2, ls1.len() as int);
    assert(parse_error(s1) == parse_error(s2));
}

/// Only `BadId` rejections of the first `k` lines name an invalid token,
/// and every `BadId` they earn does.
proof fn lemma_bad_id_invalid(ls: Seq<Seq<char>>, k: int)
    ensures
        first_line_error(ls, k) matches Some(RejectV::BadId { id, .. }) ==> !valid_id(id),
    decreases k,
{
    if k > 0 {
        lemma_bad_id_invalid(ls, k - 1);
    }
}

/// An id may hold exactly the characters `a`-`z`, `A`-`Z`, `0`-`9`, `_`
/// and `-`, 1 to 32 of them: a document is rejected with `BadId` only for
/// a token that breaks this, and every id of an accepted mesh keeps it.
pub proof fn law_id_charset(s: Seq<char>)
    ensures
        parse_outcome(s) matches Err(RejectV::BadId { id, .. }) ==> !(1 <= id.len() <= 32 && forall|i: int|
            0 <= i < id.len() ==> {
                let c = #[trigger] id[i];
                ||| 'a' <= c <= 'z'
                ||| 'A' <= c <= 'Z'
                ||| '0' <= c <= '9'
                ||| c == '_'
                ||| c == '-'
            }),
{
    let ls = lines(s);
    lemma_bad_id_invalid(ls, ls.len() as int);
    if let Err(RejectV::BadId { id, .. }) = parse_outcome(s) {
        assert(first_line_error(ls, ls.len() as int) is Some) by {
            let n = ls.len() as int;
            let fs = fdecls(ls, n);
            let vs = vdecls(ls, n);
            if first_line_error(ls, n) is None {
                lemma_unknown_kind(fs, vs, fs.len() as int);
            }
        }
        if 1 <= id.len() <= 32 && forall|i: int|
            0 <= i < id.len() ==> {
                let c = #[trigger] id[i];
                ||| 'a' <= c <= 'z'
                ||| 'A' <= c <= 'Z'
                ||| '0' <= c <= '9'
                ||| c == '_'
                ||| c == '-'
            } {
            assert forall|i: int| 0 <= i < id.len() implies is_id_char(#[trigger] id[i]) by {
                let c = id[i];
            }
            assert(valid_id(id));
        }
    }
}

/// Index `i` is a line of `ls`, and `line` is its 1-based number.
pub open spec fn line_at(ls: Seq<Seq<char>>, i: int, line: u32) -> bool {
    0 <= i < ls.len() && line as int == (i + 1) as u32 as int
}

proof fn lemma_first_line_error_at(ls: Seq<Seq<char>>, k: int)
    ensures
        first_line_error(ls, k) matches Some(e) ==> exists|i: int|
            0 <= i < k && #[trigger] line_error(ls, i) == Some(e),
    decreases k,
{
    if k > 0 {
        lemma_first_line_error_at(ls, k - 1);
        if first_line_error(ls, k - 1) is None {
            if let Some(e) = first_line_error(ls, k) {
                assert(line_error(ls, k - 1) == Some(e));
            }
        }
    }
}

proof fn lemma_unknown_at(fs: Seq<(Seq<Seq<char>>, int)>, vs: Seq<Seq<char>>, k: int)
    requires
        0 <= k <= fs.len(),
    ensures
        unknown_in(fs, vs, k) matches Some(RejectV::UnknownVertex { line, id }) ==> exists|q: int, j: int|
            0 <= q < k && 0 <= j < 3 && line == line_no(fs[q].1) && #[trigger] fs[q].0[j] == id
                && !vs.contains(id),
    decreases k,
{
    if k > 0 {
        lemma_unknown_at(fs, vs, k - 1);
        if unknown_in(fs, vs, k - 1) is None {
            let (f, i) = fs[k - 1];
            if !vs.contains(f[0]) {
                assert(fs[k - 1].0[0] == f[0]);
            } else if !vs.contains(f[1]) {
                assert(fs[k - 1].0[1] == f[1]);
            } else if !vs.contains(f[2]) {
                assert(fs[k - 1].0[2] == f[2]);
            }
        }
    }
}

/// Every rejection that names a line names the document line that earns
/// it, by its 1-based number, and shows why: an unknown keyword, a `v` or
/// `f` record of the wrong length, a face repeating a corner, or the
/// offending id among the line's tokens (an undeclared one on an `f`
/// line, never declared by any `v` line).
pub proof fn law_rejection_lines(s: Seq<char>)
    ensures
        parse_outcome(s) matches Err(RejectV::UnknownLine { line }) ==> exists|i: int|
            #[trigger] line_at(lines(s), i, line) && line_tokens(lines(s)[i]).len() > 0
                && line_tokens(lines(s)[i])[0] != seq!['v'] && line_tokens(lines(s)[i])[0] != seq!['f'],
        parse_outcome(s) matches Err(RejectV::BadVertex { line }) ==> exists|i: int|
            #[trigger] line_at(lines(s), i, line) && line_tokens(lines(s)[i]).len() > 0
                && line_tokens(lines(s)[i])[0] == seq!['v'] && line_tokens(lines(s)[i]).len() != 2,
        parse_outcome(s) matches Err(RejectV::BadFaceArity { line }) ==> exists|i: int|
            #[trigger] line_at(lines(s), i, line) && line_tokens(lines(s)[i]).len() > 0
                && line_tokens(lines(s)[i])[0] == seq!['f'] && line_tokens(lines(s)[i]).len() != 4,
        parse_outcome(s) matches Err(RejectV::RepeatedVertex { line }) ==> exists|i: int|
            #[trigger] line_at(lines(s), i, line) && line_tokens(lines(s)[i]).len() == 4
                && line_tokens(lines(s)[i])[0] == seq!['f'] && ({
                let t = line_tokens(lines(s)[i]);
                t[1] == t[2] || t[2] == t[3] || t[1] == t[3]
            }),
        parse_outcome(s) matches Err(RejectV::DuplicateFace { line }) ==> exists|i: int|
            #[trigger] line_at(lines(s), i, line) && line_tokens(lines(s)[i]).len() == 4
                && line_tokens(lines(s)[i])[0] == seq!['f'],
        parse_outcome(s) matches Err(RejectV::BadId { line, id }) ==> exists|i: int|
            #[trigger] line_at(lines(s), i, line) && line_tokens(lines(s)[i]).contains(id),
        parse_outcome(s) matches Err(RejectV::DuplicateVertex { line, id }) ==> exists|i: int|
            #[trigger] line_at(lines(s), i, line) && line_tokens(lines(s)[i]) == seq![seq!['v'], id],
        parse_outcome(s) matches Err(RejectV::UnknownVertex { line, id }) ==> exists|i: int|
            #[trigger] line_at(lines(s), i, line) && line_tokens(lines(s)[i]).len() == 4
                && line_tokens(lines(s)[i])[0] == seq!['f'] && line_tokens(lines(s)[i]).contains(id)
                && !vdecls(lines(s), lines(s).len() as int).contains(id),
{
    let ls = lines(s);
    let n = ls.len() as int;
    lemma_first_line_error_at(ls, n);
    if let Err(e) = parse_outcome(s) {
        if let Some(e2) = first_line_error(ls, n) {
            let i = choose|i: int| 0 <= i < n && #[trigger] line_error(ls, i) == Some(e2);
            assert(parse_error(s) == Some(e2));
            assert(e == e2);
            let t = line_tokens(ls[i]);
            assert(line_at(ls, i, line_no(i)));
            assert(seq!['f'][0] != seq!['v'][0]);
            if let RejectV::UnknownLine { line } = e2 {
                assert(t.len() > 0);
                if t[0] == seq!['v'] || t[0] == seq!['f'] {
                    assert(false);
                }
                assert(line_at(ls, i, line));
            }
            if let RejectV::BadVertex { line } = e2 {
                assert(t.len() > 0 && t[0] == seq!['v']);
                assert(t.len() != 2);
                assert(line_at(ls, i, line));
            }
            if let RejectV::BadFaceArity { line } = e2 {
                assert(t.len() > 0 && t[0] == seq!['f'] && t.len() != 4);
                assert(line_at(ls, i, line));
            }
            if let RejectV::RepeatedVertex { line } = e2 {
                assert(t.len() == 4 && t[0] == seq!['f']);
                assert(t[1] == t[2] || t[2] == t[3] || t[1] == t[3]);
                assert(line_at(ls, i, line));
            }
            if let RejectV::DuplicateFace { line } = e2 {
                assert(t.len() == 4 && t[0] == seq!['f']);
                assert(line_at(ls, i, line));
            }
            if let RejectV::BadId { line, id } = e2 {
                assert(t.len() > 0);
                if t[0] == seq!['v'] {
                    assert(t[1] == id);
                    assert(t.contains(t[1]));
                } else {
                    assert(t.contains(t[1]));
                    assert(t.contains(t[2]));
                    assert(t.contains(t[3]));
                }
                assert(line_at(ls, i, line));
            }
            if let RejectV::DuplicateVertex { line, id } = e2 {
                assert(t.len() == 2 && t[0] == seq!['v'] && t[1] == id);
                assert(t =~= seq![seq!['v'], id]);
                assert(line_at(ls, i, line));
            }
        } else {
            let fs = fdecls(ls, n);
            let vs = vdecls(ls, n);
            lemma_unknown_at(fs, vs, fs.len() as int);
            lemma_unknown_kind(fs, vs, fs.len() as int);
            if let Err(RejectV::UnknownVertex { line, id }) = parse_outcome(s) {
                let (q, k) = choose|q: int, k: int|
                    0 <= q < fs.len() && 0 <= k < 3 && line == line_no(fs[q].1) && #[trigger] fs[q].0[k] == id
                        && !vs.contains(id);
                lemma_fdecls_entry(ls, n, q);
                let j = fs[q].1;
                let t = line_tokens(ls[j]);
                assert(t[0] != seq!['v']) by {
                    assert(seq!['f'][0] != seq!['v'][0]);
                }
                assert(fs[q].0 == t.subrange(1, 4));
                assert(t[k + 1] == id);
                assert(t.contains(id));
                assert(line_at(ls, j, line));
            }
        }
    }
}

/// The first `k` faces reject only with `UnknownVertex`.
proof fn lemma_unknown_kind(fs: Seq<(Seq<Seq<char>>, int)>, vs: Seq<Seq<char>>, k: int)
    ensures
        unknown_in(fs, vs, k) is None || unknown_in(fs, vs, k) matches Some(RejectV::UnknownVertex { .. }),
    decreases k,
{
    if k > 0 {
        lemma_unknown_kind(fs, vs, k - 1);
    }
}

/// Every vertex id the first `i` lines declare is valid, when none of
/// them is rejected.
proof fn lemma_vdecls_valid(ls: Seq<Seq<char>>, i: int)
    requires
        first_line_error(ls, i) is None,
        i <= ls.len(),
    ensures
        forall|k: int| 0 <= k < vdecls(ls, i).len() ==> valid_id(#[trigger] vdecls(ls, i)[k]),
    decreases i,
{
    if i > 0 {
        lemma_vdecls_valid(ls, i - 1);
        let d = vdecls(ls, i - 1);
        assert(line_error(ls, i - 1) is None);
        assert forall|k: int| 0 <= k < vdecls(ls, i).len() implies valid_id(#[trigger] vdecls(ls, i)[k]) by {
            if k < d.len() {
                assert(vdecls(ls, i)[k] == d[k]);
            } else {
                let t = line_tokens(ls[i - 1]);
                assert(vertex_decl(ls[i - 1]) is Some);
                assert(t[0] != seq!['f']) by {
                    assert(seq!['f'][0] != seq!['v'][0]);
                }
                assert(vdecls(ls, i)[k] == t[1]);
            }
        }
    }
}

/// The `String`s of a list of id ranges.
fn strings_of(cs: &Vec<char>, rs: &Vec<(usize, usize)>) -> (r: Vec<String>)
    requires
        ranges_ok(cs@, rs@),
    ensures
        r.deep_view() == range_views(cs@, rs@),
{
    let mut r: Vec<String> = Vec::new();
    let mut k: usize = 0;
    while k < rs.len()
        invariant
            ranges_ok(cs@, rs@),
            k <= rs.len(),
            r.len() == k,
            forall|j: int| 0 <= j < k ==> (#[trigger] r@[j])@ == rv(cs@, rs@[j]),
        decreases rs.len() - k,
    {
        proof {
            assert(rs@[k as int].0 <= rs@[k as int].1 <= cs.len());
        }
        let x = id_string(cs, rs[k]);
        r.push(x);
        k = k + 1;
    }
    proof {
        assert(r.deep_view() =~= range_views(cs@, rs@));
    }
    r
}

/// The faces as arrays of id `String`s.
fn face_strings(cs: &Vec<char>, ft: &Vec<FaceRanges>) -> (r: Vec<[String; 3]>)
    requires
        forall|k: int| 0 <= k < ft@.len() ==> face_ok(cs@, #[trigger] ft@[k]),
    ensures
        r.len() == ft.len(),
        forall|k: int| 0 <= k < ft@.len() ==> (#[trigger] r.deep_view()[k]) == face_view(cs@, ft@[k]),
{
    let mut r: Vec<[String; 3]> = Vec::new();
    let mut k: usize = 0;
    while k < ft.len()
        invariant
            forall|j: int| 0 <= j < ft@.len() ==> face_ok(cs@, #[trigger] ft@[j]),
            k <= ft.len(),
            r.len() == k,
            forall|j: int| 0 <= j < k ==> (#[trigger] r@[j]).deep_view() == face_view(cs@, ft@[j]),
        decreases ft.len() - k,
    {
        let f = ft[k];
        proof {
            assert(face_ok(cs@, ft@[k as int]));
        }
        let arr = [id_string(cs, f.0), id_string(cs, f.1), id_string(cs, f.2)];
        proof {
            assert(arr.deep_view() =~= face_view(cs@, f));
        }
        r.push(arr);
        k = k + 1;
    }
    r
}

/// Parse a mesh document.
///
/// Grammar (one record per line, blanks and `#` comments allowed):
/// ```text
/// v <id>
/// f <id> <id> <id>
/// ```
pub fn parse(input: &str) -> (r: Result<Mesh, Reject>)
    ensures
        r is Ok <==> parse_error(input@) is None,
        r matches Ok(m) ==> parse_outcome(input@) == Ok::<MeshV, RejectV>(m@) && m@.wf(),
        r matches Ok(m) ==> MIN_VERTICES <= m.vertices.len() <= MAX_VERTICES && MIN_FACES
            <= m.faces.len() <= MAX_FACES,
        r matches Err(e) ==> parse_outcome(input@) == Err::<MeshV, RejectV>(e@),
        r matches Ok(m) ==> m@.vertices.to_set() == vdecls(lines(input@), lines(input@).len() as int).to_set(),
        r matches Ok(m) ==> forall|i: int| 0 <= i < m@.vertices.len() ==> valid_id(#[trigger] m@.vertices[i]),
        r matches Ok(m) ==> forall|f: int, k: int|
            0 <= f < m@.faces.len() && 0 <= k < 3 ==> valid_id(#[trigger] m@.faces[f][k]),
        r matches Ok(m) ==> forall|f1: int, f2: int|
            0 <= f1 < f2 < m@.faces.len() ==> !same_tri(#[trigger] m@.faces[f1], #[trigger] m@.faces[f2]),
{
    let cs = chars_of(input);
    let lr = line_ranges(&cs);
    let ghost ls = lines(cs@);
    let mut vt: Vec<(usize, usize)> = Vec::new();
    let mut ft: Vec<FaceRanges> = Vec::new();
    let mut fl: Vec<usize> = Vec::new();
    proof {
        assert(range_views(cs@, vt@) =~= vdecls(ls, 0));
    }
    let mut i: usize = 0;
    while i < lr.len()
        invariant
            ls == lines(cs@),
            cs@ == input@,
            ranges_match(cs@, lr@, ls),
            i <= lr.len(),
            scan_ok(cs@, ls, i as int, vt@, ft@, fl@),
        decreases lr.len() - i,
    {
        let (lo, hi) = lr[i];
        proof {
            assert(lr@[i as int].0 <= lr@[i as int].1 <= cs.len());
        }
        match scan_line(&cs, lo, hi, i, &mut vt, &mut ft, &mut fl, Ghost(ls)) {
            Some(e) => {
                proof {
                    assert(first_line_error(ls, i + 1) == Some(e@));
                    lemma_first_line_error_stable(ls, i + 1, ls.len() as int);
                }
                return Err(e);
            },
            None => {},
        }
        i = i + 1;
    }
    let ghost n = ls.len() as int;
    let ghost vs = vdecls(ls, n);
    let ghost fs = fdecls(ls, n);
    if vt.len() < MIN_VERTICES || vt.len() > MAX_VERTICES {
        return Err(Reject::BadVertexCount { count: vt.len() });
    }
    if ft.len() < MIN_FACES || ft.len() > MAX_FACES {
        return Err(Reject::BadFaceCount { count: ft.len() });
    }
    // every face id must be declared
    let mut k: usize = 0;
    while k < ft.len()
        invariant
            ls == lines(cs@),
            cs@ == input@,
            ranges_match(cs@, lr@, ls),
            n == ls.len(),
            vs == vdecls(ls, n),
            fs == fdecls(ls, n),
            scan_ok(cs@, ls, n, vt@, ft@, fl@),
            k <= ft.len(),
            unknown_in(fs, vs, k as int) is None,
            MIN_VERTICES <= vt.len() <= MAX_VERTICES,
            MIN_FACES <= ft.len() <= MAX_FACES,
        decreases ft.len() - k,
    {
        let f = ft[k];
        proof {
            assert(face_ok(cs@, ft@[k as int]));
            assert(face_view(cs@, f) == fs[k as int].0);
            assert(unknown_in(fs, vs, k + 1) == match unknown_in(fs, vs, k as int) {
                Some(e) => Some(e),
                None => {
                    let (g, j) = fs[k as int];
                    if !vs.contains(g[0]) {
                        Some(RejectV::UnknownVertex { line: line_no(j), id: g[0] })
                    } else if !vs.contains(g[1]) {
                        Some(RejectV::UnknownVertex { line: line_no(j), id: g[1] })
                    } else if !vs.contains(g[2]) {
                        Some(RejectV::UnknownVertex { line: line_no(j), id: g[2] })
                    } else {
                        None
                    }
                },
            });
        }
        let missing: Option<(usize, usize)> = if !contains_range(&cs, &vt, (f.0).0, (f.0).1) {
            Some(f.0)
        } else if !contains_range(&cs, &vt, (f.1).0, (f.1).1) {
            Some(f.1)
        } else if !contains_range(&cs, &vt, (f.2).0, (f.2).1) {
            Some(f.2)
        } else {
            None
        };
        match missing {
            Some(id) => {
                let line = find_face_line(&cs, &lr, f, Ghost(ls));
                proof {
                    lemma_face_line(ls, k as int);
                    assert(fl@[k as int] == fs[k as int].1);
                    let g = fs[k as int].0;
                    assert(range_views(cs@, vt@) == vs);
                    assert(g[0] == rv(cs@, f.0));
                    assert(g[1] == rv(cs@, f.1));
                    assert(g[2] == rv(cs@, f.2));
                    assert(unknown_in(fs, vs, k + 1) == Some(
                        RejectV::UnknownVertex { line: line_no(fs[k as int].1), id: rv(cs@, id) },
                    ));
                    lemma_unknown_in_stable(fs, vs, k + 1, fs.len() as int);
                    assert(vs.len() == vt.len());
                    assert(fs.len() == ft.len());
                }
                let line = match line {
                    Some(l) => l,
                    None => 0,
                };
                let ids = id_string(&cs, id);
                proof {
                    assert(face_view(cs@, f) == fs[k as int].0);
                    assert(line == line_no(fs[k as int].1));
                    assert(first_line_error(ls, n) is None);
                    assert(MIN_VERTICES <= vs.len() <= MAX_VERTICES);
                    assert(MIN_FACES <= fs.len() <= MAX_FACES);
                    assert(parse_error(input@) == unknown_in(fs, vs, fs.len() as int));
                }
                return Err(Reject::UnknownVertex { line, id: ids });
            },
            None => {},
        }
        k = k + 1;
    }
    // sorted vertex list
    let mut sorted: Vec<(usize, usize)> = Vec::new();
    proof {
        lemma_vdecls_distinct(ls, n);
        assert(range_views(cs@, sorted@).to_set() =~= range_views(cs@, vt@).take(0).to_set());
    }
    let mut j: usize = 0;
    while j < vt.len()
        invariant
            scan_ok(cs@, ls, n, vt@, ft@, fl@),
            vs == vdecls(ls, n),
            forall|a: int, b: int| 0 <= a < b < vs.len() ==> #[trigger] vs[a] != #[trigger] vs[b],
            j <= vt.len(),
            ranges_ok(cs@, sorted@),
            strictly_sorted(range_views(cs@, sorted@)),
            range_views(cs@, sorted@).to_set() == range_views(cs@, vt@).take(j as int).to_set(),
            sorted.len() == j,
            MIN_VERTICES <= vt.len() <= MAX_VERTICES,
            MIN_FACES <= ft.len() <= MAX_FACES,
            unknown_in(fdecls(ls, n), vs, ft.len() as int) is None,
            n == ls.len(),
            ls == lines(cs@),
            cs@ == input@,
        decreases vt.len() - j,
    {
        let x = vt[j];
        proof {
            assert(vt@[j as int].0 <= vt@[j as int].1 <= cs.len());
            let xv = rv(cs@, x);
            assert(xv == vs[j as int]);
            if range_views(cs@, sorted@).contains(xv) {
                assert(range_views(cs@, sorted@).to_set().contains(xv));
                let q = choose|q: int| 0 <= q < j && range_views(cs@, vt@).take(j as int)[q] == xv;
                assert(vs[q] == xv);
            }
        }
        insert_sorted(&cs, &mut sorted, x);
        proof {
            let pre = range_views(cs@, vt@).take(j as int);
            let nxt = range_views(cs@, vt@).take(j + 1);
            assert(nxt =~= pre.push(vs[j as int]));
            assert forall|y: Seq<char>| nxt.to_set().contains(y) <==> pre.to_set().insert(vs[j as int]).contains(y) by {
                if nxt.to_set().contains(y) {
                    let q = choose|q: int| 0 <= q < nxt.len() && nxt[q] == y;
                    if q < j {
                        assert(pre[q] == y);
                    }
                }
                if pre.to_set().contains(y) {
                    let q = choose|q: int| 0 <= q < pre.len() && pre[q] == y;
                    assert(nxt[q] == y);
                }
                if y == vs[j as int] {
                    assert(nxt[j as int] == y);
                }
            }
            assert(range_views(cs@, sorted@).to_set() =~= nxt.to_set());
        }
        j = j + 1;
    }
    let vertices = strings_of(&cs, &sorted);
    let faces = face_strings(&cs, &ft);
    let mesh = Mesh { vertices, faces };
    proof {
        assert(range_views(cs@, vt@).take(vt.len() as int) =~= vs);
        let sv = range_views(cs@, sorted@);
        assert(sv.to_set() == vs.to_set());
        let c = sorted_ids(vs);
        assert(strictly_sorted(c) && c.to_set() == vs.to_set());
        lemma_sorted_unique(c, sv);
        assert(mesh@.vertices == sorted_ids(vs));
        assert(mesh@.faces =~= Seq::new(fs.len(), |q: int| fs[q].0));
        assert(parse_error(input@) is None);
        // the mesh invariant
        let m = mesh@;
        assert forall|f: int| 0 <= f < m.faces.len() implies #[trigger] m.faces[f].len() == 3 by {
            lemma_face_distinct(ls, f);
        }
        assert forall|f: int, q: int|
            0 <= f < m.faces.len() && 0 <= q < 3 implies m.vertices.contains(#[trigger] m.faces[f][q]) by {
            lemma_unknown_none(fs, vs, fs.len() as int, f);
            assert(vs.contains(m.faces[f][q]));
            assert(vs.to_set().contains(m.faces[f][q]));
            assert(m.vertices.to_set().contains(m.faces[f][q]));
        }
        assert forall|f: int| 0 <= f < m.faces.len() implies {
            &&& #[trigger] m.faces[f][0] != m.faces[f][1]
            &&& m.faces[f][1] != m.faces[f][2]
            &&& m.faces[f][0] != m.faces[f][2]
        } by {
            lemma_face_distinct(ls, f);
        }
        assert(m.wf());
        lemma_vdecls_valid(ls, n);
        assert forall|i: int| 0 <= i < m.vertices.len() implies valid_id(#[trigger] m.vertices[i]) by {
            assert(m.vertices.to_set().contains(m.vertices[i]));
            assert(vs.to_set().contains(m.vertices[i]));
            let k = choose|k: int| 0 <= k < vs.len() && vs[k] == m.vertices[i];
        }
        assert forall|f: int, k: int| 0 <= f < m.faces.len() && 0 <= k < 3 implies valid_id(
            #[trigger] m.faces[f][k],
        ) by {
            lemma_face_distinct(ls, f);
        }
        assert forall|f1: int, f2: int| 0 <= f1 < f2 < m.faces.len() implies !same_tri(
            #[trigger] m.faces[f1],
            #[trigger] m.faces[f2],
        ) by {
            let j2 = fs[f2].1;
            lemma_fdecls_entry(ls, n, f2);
            lemma_fdecls_index(ls, n, f2);
            lemma_fdecls_prefix(ls, j2, n);
            lemma_no_line_error(ls, n, j2);
            let t = line_tokens(ls[j2]);
            assert(t[0] != seq!['v']) by {
                assert(seq!['f'][0] != seq!['v'][0]);
            }
            assert(fs[f2].0 == t.subrange(1, 4));
            assert(fdecls(ls, j2)[f1] == fs[f1]);
            assert(!same_tri(fdecls(ls, j2)[f1].0, t.subrange(1, 4)));
        }
    }
    Ok(mesh)
}

proof fn lemma_unknown_none(fs: Seq<(Seq<Seq<char>>, int)>, vs: Seq<Seq<char>>, k: int, f: int)
    requires
        unknown_in(fs, vs, k) is None,
        0 <= f < k,
    ensures
        vs.contains(fs[f].0[0]),
        vs.contains(fs[f].0[1]),
        vs.contains(fs[f].0[2]),
    decreases k,
{
    if f < k - 1 {
        lemma_unknown_none(fs, vs, k - 1, f);
    }
}

} // verus!
