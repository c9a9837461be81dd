//! Character-level model of a mesh document: lines, `#` comments,
//! ASCII-whitespace tokens and the lexicographic order of ids.

use vstd::prelude::*;

verus! {

/// The ASCII whitespace set that `split_ascii_whitespace` separates on:
/// space, tab, line feed, form feed and carriage return.
pub open spec fn is_ascii_ws(c: char) -> bool {
    c == ' ' || c == '\t' || c == '\n' || c == '\x0C' || c == '\r'
}

/// Splitting state after reading `s`: the finished lines and the line in
/// progress. A line ends at every `\n`.
pub open spec fn lines_acc(s: Seq<char>) -> (Seq<Seq<char>>, Seq<char>)
    decreases s.len(),
{
    if s.len() == 0 {
        (Seq::empty(), Seq::empty())
    } else {
        let (done, cur) = lines_acc(s.drop_last());
        if s.last() == '\n' {
            (done.push(cur), Seq::empty())
        } else {
            (done, cur.push(s.last()))
        }
    }
}

/// The lines of a document: the pieces between `\n` characters, where a
/// final empty piece (after a trailing `\n`, or of an empty document) is
/// not a line. A `\r` before the `\n` stays in the line; it is whitespace,
/// so it never changes a line's tokens.
pub open spec fn lines(s: Seq<char>) -> Seq<Seq<char>> {
    let (done, cur) = lines_acc(s);
    if cur.len() > 0 {
        done.push(cur)
    } else {
        done
    }
}

/// Position of the first `#` in `s`, or `s.len()` when there is none.
pub open spec fn comment_cut(s: Seq<char>) -> int
    decreases s.len(),
{
    if s.len() == 0 {
        0
    } else if s[0] == '#' {
        0
    } else {
        1 + comment_cut(s.drop_first())
    }
}

/// A line without its `#` comment.
pub open spec fn strip_comment(s: Seq<char>) -> Seq<char> {
    s.take(comment_cut(s))
}

/// Tokenizing state after reading `s`: the finished tokens and the token in
/// progress.
pub open spec fn tokens_acc(s: Seq<char>) -> (Seq<Seq<char>>, Seq<char>)
    decreases s.len(),
{
    if s.len() == 0 {
        (Seq::empty(), Seq::empty())
    } else {
        let (done, cur) = tokens_acc(s.drop_last());
        if is_ascii_ws(s.last()) {
            if cur.len() > 0 {
                (done.push(cur), Seq::empty())
            } else {
                (done, Seq::empty())
            }
        } else {
            (done, cur.push(s.last()))
        }
    }
}

/// The maximal runs of non-whitespace characters of `s`, in order.
pub open spec fn tokens(s: Seq<char>) -> Seq<Seq<char>> {
    let (done, cur) = tokens_acc(s);
    if cur.len() > 0 {
        done.push(cur)
    } else {
        done
    }
}

/// The tokens of one document line: its comment removed, then split on
/// ASCII whitespace.
pub open spec fn line_tokens(line: Seq<char>) -> Seq<Seq<char>> {
    tokens(strip_comment(line))
}

/// The comment cut of `l` lies within `l`, and a `#` comment appended to
/// `l` does not move it.
proof fn lemma_cut_append(l: Seq<char>, c: Seq<char>)
    ensures
        0 <= comment_cut(l) <= l.len(),
        comment_cut(l + seq!['#'] + c) == comment_cut(l),
    decreases l.len(),
{
    let s = l + seq!['#'] + c;
    if l.len() == 0 {
        assert(s[0] == '#');
    } else if l[0] == '#' {
        assert(s[0] == '#');
    } else {
        lemma_cut_append(l.drop_first(), c);
        assert(s[0] == l[0]);
        assert(s.drop_first() =~= l.drop_first() + seq!['#'] + c);
    }
}

/// A `#` comment appended to a line leaves the line's tokens unchanged.
pub proof fn law_comment_ignored(l: Seq<char>, c: Seq<char>)
    ensures
        line_tokens(l + seq!['#'] + c) == line_tokens(l),
{
    lemma_cut_append(l, c);
    let s = l + seq!['#'] + c;
    assert(strip_comment(s) =~= strip_comment(l));
}

/// One more whitespace character at the start of `s`, or right after a
/// whitespace character, leaves the tokens unchanged: the amount of
/// whitespace between tokens does not matter.
pub proof fn law_extra_whitespace_ignored(a: Seq<char>, w: char, b: Seq<char>)
    requires
        is_ascii_ws(w),
        a.len() == 0 || is_ascii_ws(a.last()),
    ensures
        tokens(a + seq![w] + b) == tokens(a + b),
{
    lemma_tokens_acc_insert(a, w, b);
}

proof fn lemma_tokens_acc_insert(a: Seq<char>, w: char, b: Seq<char>)
    requires
        is_ascii_ws(w),
        a.len() == 0 || is_ascii_ws(a.last()),
    ensures
        tokens_acc(a + seq![w] + b) == tokens_acc(a + b),
    decreases b.len(),
{
    if b.len() == 0 {
        assert(a + seq![w] + b =~= a.push(w));
        assert(a + b =~= a);
        assert(a.push(w).drop_last() =~= a);
        if a.len() > 0 {
            assert(a.drop_last().push(a.last()) =~= a);
        }
    } else {
        lemma_tokens_acc_insert(a, w, b.drop_last());
        assert((a + seq![w] + b).drop_last() =~= a + seq![w] + b.drop_last());
        assert((a + b).drop_last() =~= a + b.drop_last());
        assert((a + seq![w] + b).last() == b.last());
        assert((a + b).last() == b.last());
    }
}

/// Strict lexicographic order on character sequences, comparing code
/// points. On ids this is the order of `String`'s `Ord`.
pub open spec fn lex_lt(a: Seq<char>, b: Seq<char>) -> bool
    decreases a.len(),
{
    if b.len() == 0 {
        false
    } else if a.len() == 0 {
        true
    } else if (a[0] as int) < (b[0] as int) {
        true
    } else if a[0] == b[0] {
        lex_lt(a.drop_first(), b.drop_first())
    } else {
        false
    }
}

pub proof fn lemma_lex_irreflexive(a: Seq<char>)
    ensures
        !lex_lt(a, a),
    decreases a.len(),
{
    if a.len() > 0 {
        lemma_lex_irreflexive(a.drop_first());
    }
}

pub proof fn lemma_lex_transitive(a: Seq<char>, b: Seq<char>, c: Seq<char>)
    requires
        lex_lt(a, b),
        lex_lt(b, c),
    ensures
        lex_lt(a, c),
    decreases a.len(),
{
    if a.len() > 0 && b.len() > 0 && c.len() > 0 {
        if a[0] == b[0] && b[0] == c[0] {
            lemma_lex_transitive(a.drop_first(), b.drop_first(), c.drop_first());
        }
    }
}

pub proof fn lemma_lex_total(a: Seq<char>, b: Seq<char>)
    ensures
        lex_lt(a, b) || lex_lt(b, a) || a == b,
    decreases a.len(),
{
    if a.len() > 0 && b.len() > 0 {
        if a[0] == b[0] {
            lemma_lex_total(a.drop_first(), b.drop_first());
            if a.drop_first() == b.drop_first() {
                assert(a =~= seq![a[0]] + a.drop_first());
                assert(b =~= seq![b[0]] + b.drop_first());
            }
        } else {
            assert((a[0] as int) != (b[0] as int));
        }
    } else if a.len() == 0 && b.len() == 0 {
        assert(a =~= b);
    }
}

pub proof fn lemma_lex_asym(a: Seq<char>, b: Seq<char>)
    requires
        lex_lt(a, b),
    ensures
        !lex_lt(b, a),
        a != b,
{
    if lex_lt(b, a) {
        lemma_lex_transitive(a, b, a);
        lemma_lex_irreflexive(a);
    }
    lemma_lex_irreflexive(a);
}

/// `s` is strictly increasing in the lexicographic order.
pub open spec fn strictly_sorted(s: Seq<Seq<char>>) -> bool {
    forall|i: int, j: int| 0 <= i < j < s.len() ==> lex_lt(#[trigger] s[i], #[trigger] s[j])
}

pub proof fn lemma_sorted_distinct(s: Seq<Seq<char>>, i: int, j: int)
    requires
        strictly_sorted(s),
        0 <= i < s.len(),
        0 <= j < s.len(),
        i != j,
    ensures
        s[i] != s[j],
{
    if i < j {
        lemma_lex_asym(s[i], s[j]);
    } else {
        lemma_lex_asym(s[j], s[i]);
    }
}

/// Two strictly sorted sequences with the same elements are equal.
pub proof fn lemma_sorted_unique(a: Seq<Seq<char>>, b: Seq<Seq<char>>)
    requires
        strictly_sorted(a),
        strictly_sorted(b),
        a.to_set() == b.to_set(),
    ensures
        a == b,
    decreases a.len() + b.len(),
{
    if a.len() == 0 {
        if b.len() > 0 {
            assert(b.to_set().contains(b[0]));
            assert(!a.to_set().contains(b[0]));
        }
        assert(a =~= b);
    } else if b.len() == 0 {
        assert(a.to_set().contains(a[0]));
    } else {
        // both heads are the minimum of the common set
        assert(b.to_set().contains(a[0]));
        assert(a.to_set().contains(b[0]));
        let ja = choose|j: int| 0 <= j < b.len() && b[j] == a[0];
        let jb = choose|j: int| 0 <= j < a.len() && a[j] == b[0];
        if a[0] != b[0] {
            if ja > 0 && jb > 0 {
                lemma_lex_asym(b[0], b[ja]);
                lemma_lex_asym(a[0], a[jb]);
            } else if ja == 0 {
                assert(b[0] == a[0]);
            } else {
                assert(a[0] == b[0]);
            }
        }
        assert(a[0] == b[0]);
        let a1 = a.drop_first();
        let b1 = b.drop_first();
        assert forall|x: Seq<char>| a1.to_set().contains(x) implies b1.to_set().contains(x) by {
            let k = choose|k: int| 0 <= k < a1.len() && a1[k] == x;
            assert(a[k + 1] == x);
            lemma_sorted_distinct(a, 0, k + 1);
            assert(b.to_set().contains(x));
            let m = choose|m: int| 0 <= m < b.len() && b[m] == x;
            assert(m != 0);
            assert(b1[m - 1] == x);
        }
        assert forall|x: Seq<char>| b1.to_set().contains(x) implies a1.to_set().contains(x) by {
            let k = choose|k: int| 0 <= k < b1.len() && b1[k] == x;
            assert(b[k + 1] == x);
            lemma_sorted_distinct(b, 0, k + 1);
            assert(a.to_set().contains(x));
            let m = choose|m: int| 0 <= m < a.len() && a[m] == x;
            assert(m != 0);
            assert(a1[m - 1] == x);
        }
        assert(a1.to_set() =~= b1.to_set());
        assert(strictly_sorted(a1));
        assert(strictly_sorted(b1)) by {
            assert forall|i: int, j: int| 0 <= i < j < b1.len() implies lex_lt(
                #[trigger] b1[i],
                #[trigger] b1[j],
            ) by {
                assert(b1[i] == b[i + 1]);
                assert(b1[j] == b[j + 1]);
            }
        }
        lemma_sorted_unique(a1, b1);
        assert(a =~= seq![a[0]] + a1);
        assert(b =~= seq![b[0]] + b1);
    }
}

/// `s.subrange(lo, hi)` of the characters, compared by value.
pub fn range_eq(cs: &Vec<char>, lo1: usize, hi1: usize, lo2: usize, hi2: usize) -> (r: bool)
    requires
        lo1 <= hi1 <= cs.len(),
        lo2 <= hi2 <= cs.len(),
    ensures
        r == (cs@.subrange(lo1 as int, hi1 as int) == cs@.subrange(lo2 as int, hi2 as int)),
{
    if hi1 - lo1 != hi2 - lo2 {
        proof {
            assert(cs@.subrange(lo1 as int, hi1 as int).len() != cs@.subrange(
                lo2 as int,
                hi2 as int,
            ).len());
        }
        return false;
    }
    let n = hi1 - lo1;
    let mut i: usize = 0;
    while i < n
        invariant
            n == hi1 - lo1,
            n == hi2 - lo2,
            lo1 <= hi1 <= cs.len(),
            lo2 <= hi2 <= cs.len(),
            i <= n,
            forall|k: int| 0 <= k < i ==> cs@.subrange(lo1 as int, hi1 as int)[k] == #[trigger] cs@.subrange(lo2 as int, hi2 as int)[k],
        decreases n - i,
    {
        if cs[lo1 + i] != cs[lo2 + i] {
            proof {
                assert(cs@.subrange(lo1 as int, hi1 as int)[i as int] != cs@.subrange(
                    lo2 as int,
                    hi2 as int,
                )[i as int]);
            }
            return false;
        }
        i = i + 1;
    }
    proof {
        assert(cs@.subrange(lo1 as int, hi1 as int) =~= cs@.subrange(lo2 as int, hi2 as int));
    }
    true
}

/// Whether the characters in `lo..hi` are exactly the one character `c`.
pub fn range_is_char(cs: &Vec<char>, lo: usize, hi: usize, c: char) -> (r: bool)
    requires
        lo <= hi <= cs.len(),
    ensures
        r == (cs@.subrange(lo as int, hi as int) == seq![c]),
{
    if hi - lo == 1 && cs[lo] == c {
        proof {
            assert(cs@.subrange(lo as int, hi as int) =~= seq![c]);
        }
        true
    } else {
        proof {
            if hi - lo == 1 {
                assert(cs@.subrange(lo as int, hi as int)[0] != seq![c][0]);
            } else {
                assert(cs@.subrange(lo as int, hi as int).len() != seq![c].len());
            }
        }
        false
    }
}

/// Lexicographic comparison of two character ranges.
pub fn range_lt(cs: &Vec<char>, lo1: usize, hi1: usize, lo2: usize, hi2: usize) -> (r: bool)
    requires
        lo1 <= hi1 <= cs.len(),
        lo2 <= hi2 <= cs.len(),
    ensures
        r == lex_lt(cs@.subrange(lo1 as int, hi1 as int), cs@.subrange(lo2 as int, hi2 as int)),
    decreases hi1 - lo1,
{
    let ghost a = cs@.subrange(lo1 as int, hi1 as int);
    let ghost b = cs@.subrange(lo2 as int, hi2 as int);
    if hi2 == lo2 {
        false
    } else if hi1 == lo1 {
        true
    } else if cs[lo1] < cs[lo2] {
        true
    } else if cs[lo1] == cs[lo2] {
        proof {
            assert(a.drop_first() =~= cs@.subrange(lo1 + 1, hi1 as int));
            assert(b.drop_first() =~= cs@.subrange(lo2 + 1, hi2 as int));
        }
        range_lt(cs, lo1 + 1, hi1, lo2 + 1, hi2)
    } else {
        false
    }
}

/// All characters of a string slice, in order.
pub fn chars_of(s: &str) -> (out: Vec<char>)
    ensures
        out@ == s@,
{
    let mut out: Vec<char> = Vec::new();
    for c in it: s.chars()
        invariant
            out@ == it.seq().take(it.index() as int),
            it.seq() == s@,
    {
        out.push(c);
    }
    out
}

/// Appends one character with std's `String::push`. Trusted: the contract
/// claims that afterwards the string's characters are its old characters
/// followed by `c`, as std documents (vstd gives `push` no specification).
#[verifier::external_body]
pub(crate) fn string_push(s: &mut String, c: char)
    ensures
        final(s)@ == old(s)@.push(c),
{
    s.push(c);
}

/// A fresh `String` holding the characters in `lo..hi`.
pub fn string_of_range(cs: &Vec<char>, lo: usize, hi: usize) -> (r: String)
    requires
        lo <= hi <= cs.len(),
    ensures
        r@ == cs@.subrange(lo as int, hi as int),
{
    let mut r = String::new();
    let mut i = lo;
    while i < hi
        invariant
            lo <= i <= hi <= cs.len(),
            r@ == cs@.subrange(lo as int, i as int),
        decreases hi - i,
    {
        string_push(&mut r, cs[i]);
        i = i + 1;
        proof {
            assert(r@ =~= cs@.subrange(lo as int, i as int));
        }
    }
    r
}

/// Each range of `r` selects, in `cs`, the sequence at the same position
/// of `parts`.
pub open spec fn ranges_match(cs: Seq<char>, r: Seq<(usize, usize)>, parts: Seq<Seq<char>>) -> bool {
    &&& r.len() == parts.len()
    &&& forall|k: int|
        0 <= k < r.len() ==> #[trigger] r[k].0 <= r[k].1 <= cs.len() && cs.subrange(
            r[k].0 as int,
            r[k].1 as int,
        ) == parts[k]
}

/// The character ranges of the lines of `cs` (see [`lines`]).
pub fn line_ranges(cs: &Vec<char>) -> (r: Vec<(usize, usize)>)
    ensures
        r.len() == lines(cs@).len(),
        forall|k: int|
            0 <= k < r.len() ==> #[trigger] r@[k].0 <= r@[k].1 <= cs.len() && cs@.subrange(
                r@[k].0 as int,
                r@[k].1 as int,
            ) == lines(cs@)[k],
{
    let mut r: Vec<(usize, usize)> = Vec::new();
    let mut start: usize = 0;
    let mut i: usize = 0;
    while i < cs.len()
        invariant
            start <= i <= cs.len(),
            ranges_match(cs@, r@, lines_acc(cs@.take(i as int)).0),
            lines_acc(cs@.take(i as int)).1 == cs@.subrange(start as int, i as int),
        decreases cs.len() - i,
    {
        proof {
            assert(cs@.take(i + 1).drop_last() =~= cs@.take(i as int));
            assert(cs@.take(i + 1).last() == cs@[i as int]);
        }
        if cs[i] == '\n' {
            let ghost r0 = r@;
            r.push((start, i));
            proof {
                let (done, cur) = lines_acc(cs@.take(i as int));
                assert(lines_acc(cs@.take(i + 1)).0 == done.push(cur));
                assert(lines_acc(cs@.take(i + 1)).1 == Seq::<char>::empty());
                assert forall|k: int| 0 <= k < r.len() implies #[trigger] r@[k].0 <= r@[k].1 <= cs.len()
                    && cs@.subrange(r@[k].0 as int, r@[k].1 as int) == lines_acc(cs@.take(i + 1)).0[k] by {
                    if k < r0.len() {
                        assert(r@[k] == r0[k]);
                    }
                }
                assert(ranges_match(cs@, r@, lines_acc(cs@.take(i + 1)).0));
            }
            start = i + 1;
            proof {
                assert(cs@.subrange(start as int, i + 1) =~= Seq::<char>::empty());
            }
        } else {
            proof {
                assert(cs@.subrange(start as int, i + 1) =~= cs@.subrange(
                    start as int,
                    i as int,
                ).push(cs@[i as int]));
                let (done, cur) = lines_acc(cs@.take(i as int));
                assert(lines_acc(cs@.take(i + 1)).0 == done);
                assert(lines_acc(cs@.take(i + 1)).1 == cur.push(cs@[i as int]));
            }
        }
        i = i + 1;
    }
    proof {
        assert(cs@.take(cs.len() as int) =~= cs@);
    }
    if start < cs.len() {
        r.push((start, cs.len()));
    }
    r
}

proof fn lemma_comment_cut(s: Seq<char>, k: int)
    requires
        0 <= k <= s.len(),
        forall|j: int| 0 <= j < k ==> s[j] != '#',
        k == s.len() || s[k] == '#',
    ensures
        comment_cut(s) == k,
    decreases s.len(),
{
    if s.len() > 0 && k > 0 {
        lemma_comment_cut(s.drop_first(), k - 1);
    }
}

/// The character ranges of the tokens of the line held in `lo..hi`
/// (see [`line_tokens`]).
pub fn token_ranges(cs: &Vec<char>, lo: usize, hi: usize) -> (r: Vec<(usize, usize)>)
    requires
        lo <= hi <= cs.len(),
    ensures
        r.len() == line_tokens(cs@.subrange(lo as int, hi as int)).len(),
        forall|k: int|
            0 <= k < r.len() ==> lo <= #[trigger] r@[k].0 < r@[k].1 <= hi && cs@.subrange(
                r@[k].0 as int,
                r@[k].1 as int,
            ) == line_tokens(cs@.subrange(lo as int, hi as int))[k],
{
    let ghost line = cs@.subrange(lo as int, hi as int);
    let mut cut = lo;
    while cut < hi && cs[cut] != '#'
        invariant
            lo <= cut <= hi <= cs.len(),
            forall|j: int| lo <= j < cut ==> cs@[j] != '#',
        decreases hi - cut,
    {
        cut = cut + 1;
    }
    proof {
        lemma_comment_cut(line, cut - lo);
        assert(strip_comment(line) =~= cs@.subrange(lo as int, cut as int));
    }
    let ghost body = cs@.subrange(lo as int, cut as int);
    let mut r: Vec<(usize, usize)> = Vec::new();
    let mut start: usize = lo;
    let mut i: usize = lo;
    while i < cut
        invariant
            lo <= start <= i <= cut <= hi <= cs.len(),
            body == cs@.subrange(lo as int, cut as int),
            ({
                let (done, cur) = tokens_acc(body.take(i - lo));
                &&& r.len() == done.len()
                &&& cur == cs@.subrange(start as int, i as int)
                &&& forall|k: int|
                    0 <= k < r.len() ==> lo <= #[trigger] r@[k].0 < r@[k].1 <= i && cs@.subrange(
                        r@[k].0 as int,
                        r@[k].1 as int,
                    ) == done[k]
            }),
        decreases cut - i,
    {
        proof {
            assert(body.take(i + 1 - lo).drop_last() =~= body.take(i - lo));
            assert(body.take(i + 1 - lo).last() == cs@[i as int]);
        }
        let c = cs[i];
        if c == ' ' || c == '\t' || c == '\n' || c == '\x0C' || c == '\r' {
            if start < i {
                r.push((start, i));
            }
            start = i + 1;
            proof {
                assert(cs@.subrange(start as int, i + 1) =~= Seq::<char>::empty());
            }
        } else {
            proof {
                assert(cs@.subrange(start as int, i + 1) =~= cs@.subrange(
                    start as int,
                    i as int,
                ).push(c));
            }
        }
        i = i + 1;
    }
    proof {
        assert(body.take(cut - lo) =~= body);
    }
    if start < cut {
        r.push((start, cut));
    }
    r
}

} // verus!
