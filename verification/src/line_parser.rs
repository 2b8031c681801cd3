//! The fallback differ: a longest-common-subsequence diff by lines, for
//! files that are too large for the syntactic comparison, that exceed the
//! graph limit, or whose language is unknown.

use vstd::prelude::*;
use vstd::slice::slice_subrange;
use crate::lexer::{lemma_line_end, line_end};
use crate::positions::{MatchKind, MatchedPos, SingleLineSpan, ascending, well_formed};
use crate::syntax::{hash_bytes, hash_bytes_spec};
use crate::text::{NEWLINE, bytes_eq};

verus! {

/// The lines of `src` from offset `i` on, without their line feeds. A
/// line feed at the very end of the source begins no further line.
pub open spec fn lines_from(src: Seq<u8>, i: int) -> Seq<Seq<u8>>
    decreases src.len() + 1 - i,
{
    if i < 0 || i >= src.len() {
        Seq::empty()
    } else {
        let e = line_end(src, i);
        if i <= e <= src.len() {
            seq![src.subrange(i, e)] + lines_from(src, e + 1)
        } else {
            Seq::empty()
        }
    }
}

/// The lines of a file.
pub open spec fn lines_spec(src: Seq<u8>) -> Seq<Seq<u8>> {
    lines_from(src, 0)
}

/// The number of leading lines that `a` and `b` have in common, counted
/// from `k` on.
pub open spec fn common_prefix(a: Seq<Seq<u8>>, b: Seq<Seq<u8>>, k: int) -> int
    decreases a.len() - k,
{
    if 0 <= k < a.len() && k < b.len() && a[k] == b[k] {
        common_prefix(a, b, k + 1)
    } else {
        k
    }
}

/// The number of trailing lines that `a` and `b` have in common beyond
/// their first `p` lines, counted from `k` on.
pub open spec fn common_suffix(a: Seq<Seq<u8>>, b: Seq<Seq<u8>>, p: int, k: int) -> int
    decreases a.len() - k,
{
    if 0 <= k && 0 <= p && p + k < a.len() && p + k < b.len() && a[a.len() - 1 - k] == b[b.len() - 1
        - k] {
        common_suffix(a, b, p, k + 1)
    } else {
        k
    }
}

/// The length of the longest common subsequence of the lines of `a` from
/// `i` on and the lines of `b` from `j` on.
pub open spec fn lcs_len(a: Seq<Seq<u8>>, b: Seq<Seq<u8>>, i: int, j: int) -> nat
    decreases a.len() - i, b.len() - j,
{
    if i < 0 || j < 0 || i >= a.len() || j >= b.len() {
        0
    } else if a[i] == b[j] {
        1 + lcs_len(a, b, i + 1, j + 1)
    } else {
        let down = lcs_len(a, b, i + 1, j);
        let right = lcs_len(a, b, i, j + 1);
        if down >= right {
            down
        } else {
            right
        }
    }
}

/// The lines of `a` from `i` on that have no partner among the lines of
/// `b` from `j` on in a longest common subsequence: equal lines at the
/// two cursors are partners; otherwise the cursor moves on the side
/// where more partners remain, on the left side in case of a tie.
pub open spec fn novel_from(a: Seq<Seq<u8>>, b: Seq<Seq<u8>>, i: int, j: int) -> Seq<int>
    decreases a.len() - i, b.len() - j,
{
    if i < 0 || j < 0 || i >= a.len() {
        Seq::empty()
    } else if j >= b.len() {
        seq![i] + novel_from(a, b, i + 1, j)
    } else if a[i] == b[j] {
        novel_from(a, b, i + 1, j + 1)
    } else if lcs_len(a, b, i + 1, j) >= lcs_len(a, b, i, j + 1) {
        seq![i] + novel_from(a, b, i + 1, j)
    } else {
        novel_from(a, b, i, j + 1)
    }
}

/// The largest table of lengths that the differ makes, in cells.
pub const LINE_TABLE_LIMIT: usize = 4_000_000;

/// Whether the table for `n` lines against `m` lines stays within the
/// limit.
pub open spec fn fits_table(n: int, m: int) -> bool {
    n == 0 || m <= LINE_TABLE_LIMIT as int / n
}

/// The lines of `a` without a partner in `b`: those that a longest common
/// subsequence leaves out, or all of them where the table of lengths
/// would be larger than the limit.
pub open spec fn novel_mid(a: Seq<Seq<u8>>, b: Seq<Seq<u8>>) -> Seq<int> {
    if fits_table(a.len() as int, b.len() as int) {
        novel_from(a, b, 0, 0)
    } else {
        Seq::new(a.len(), |k: int| k)
    }
}

/// The numbers of the lines of `a` that the comparison with `b` reports
/// as changed: what is left of `a` when the common leading and trailing
/// lines and a longest common subsequence of the rest are taken away.
/// Where the rest is too large for a longest common subsequence to be
/// found, all of it is reported.
pub open spec fn novel_lines(a: Seq<Seq<u8>>, b: Seq<Seq<u8>>) -> Seq<int> {
    let p = common_prefix(a, b, 0);
    let s = common_suffix(a, b, p, 0);
    let mid_a = a.subrange(p, a.len() - s);
    let mid_b = b.subrange(p, b.len() - s);
    let novel = novel_mid(mid_a, mid_b);
    Seq::new(novel.len(), |k: int| novel[k] + p)
}

/// The span of a whole line, tagged as novel.
pub open spec fn line_span(lines: Seq<Seq<u8>>, k: int) -> MatchedPos {
    MatchedPos {
        kind: MatchKind::Novel,
        pos: SingleLineSpan { line: k as usize, start_col: 0, end_col: lines[k].len() as usize },
    }
}

/// The positions that the line differ reports for the side `src` when
/// compared with `other`: one span for each changed line.
pub open spec fn line_positions_spec(src: Seq<u8>, other: Seq<u8>) -> Seq<MatchedPos> {
    let lines = lines_spec(src);
    let novel = novel_lines(lines, lines_spec(other));
    Seq::new(novel.len(), |k: int| line_span(lines, novel[k]))
}

/// The ranges `r` are the lines of `src`.
spec fn ranges_ok(src: Seq<u8>, r: Seq<(usize, usize)>) -> bool {
    &&& r.len() == lines_spec(src).len()
    &&& forall|k: int|
        0 <= k < r.len() ==> (#[trigger] r[k]).0 <= r[k].1 <= src.len() && src.subrange(
            r[k].0 as int,
            r[k].1 as int,
        ) == lines_spec(src)[k]
}

/// Cut `src` into lines: for each line, where it begins and where it
/// ends.
fn split_lines(src: &[u8]) -> (res: Vec<(usize, usize)>)
    ensures
        ranges_ok(src@, res@),
{
    let mut out: Vec<(usize, usize)> = Vec::new();
    let mut i: usize = 0;
    let n = src.len();
    assert(lines_spec(src@) =~= Seq::<Seq<u8>>::empty() + lines_from(src@, 0));
    let ghost mut done: Seq<Seq<u8>> = Seq::empty();
    while i < n
        invariant
            n == src@.len(),
            i <= n + 1,
            lines_spec(src@) == done + lines_from(src@, i as int),
            done.len() == out@.len(),
            forall|k: int|
                0 <= k < out@.len() ==> (#[trigger] out@[k]).0 <= out@[k].1 <= n && src@.subrange(
                    out@[k].0 as int,
                    out@[k].1 as int,
                ) == done[k],
        decreases n + 1 - i,
    {
        let mut e = i;
        while e < n && src[e] != NEWLINE
            invariant
                n == src@.len(),
                i <= e <= n,
                line_end(src@, i as int) == line_end(src@, e as int),
            decreases n - e,
        {
            e += 1;
        }
        proof {
            lemma_line_end(src@, i as int);
            let rest = lines_from(src@, e + 1);
            assert(lines_from(src@, i as int) == seq![src@.subrange(i as int, e as int)] + rest);
            assert(done + (seq![src@.subrange(i as int, e as int)] + rest) =~= done.push(
                src@.subrange(i as int, e as int),
            ) + rest);
            done = done.push(src@.subrange(i as int, e as int));
        }
        out.push((i, e));
        if e == n {
            i = n;
            assert(lines_from(src@, e + 1) =~= lines_from(src@, n as int));
        } else {
            i = e + 1;
        }
    }
    assert(lines_from(src@, i as int) =~= Seq::empty());
    assert(done + Seq::<Seq<u8>>::empty() =~= done);
    assert forall|k: int| 0 <= k < out@.len() implies src@.subrange(
        (#[trigger] out@[k]).0 as int,
        out@[k].1 as int,
    ) == lines_spec(src@)[k] by {}
    out
}

/// The hash of every line.
fn hash_lines(src: &[u8], ranges: &Vec<(usize, usize)>) -> (res: Vec<u64>)
    requires
        ranges_ok(src@, ranges@),
    ensures
        res@.len() == ranges@.len(),
        forall|k: int|
            0 <= k < res@.len() ==> #[trigger] res@[k] == hash_bytes_spec(lines_spec(src@)[k]),
{
    let mut out: Vec<u64> = Vec::new();
    let mut k: usize = 0;
    while k < ranges.len()
        invariant
            ranges_ok(src@, ranges@),
            k <= ranges@.len(),
            out@.len() == k,
            forall|m: int|
                0 <= m < k ==> #[trigger] out@[m] == hash_bytes_spec(lines_spec(src@)[m]),
        decreases ranges@.len() - k,
    {
        let r = ranges[k];
        out.push(hash_bytes(slice_subrange(src, r.0, r.1)));
        k += 1;
    }
    out
}

/// One side of a line comparison: the source, its lines and their
/// hashes.
pub struct Lines<'a> {
    pub src: &'a [u8],
    pub ranges: Vec<(usize, usize)>,
    pub hashes: Vec<u64>,
}

impl<'a> Lines<'a> {
    /// The ranges and the hashes are those of the lines of the source.
    pub closed spec fn ok(&self) -> bool {
        &&& ranges_ok(self.src@, self.ranges@)
        &&& self.hashes@.len() == self.ranges@.len()
        &&& forall|k: int|
            0 <= k < self.hashes@.len() ==> #[trigger] self.hashes@[k] == hash_bytes_spec(
                lines_spec(self.src@)[k],
            )
    }

    /// The lines as sequences of bytes.
    pub open spec fn view(&self) -> Seq<Seq<u8>> {
        lines_spec(self.src@)
    }

    /// The lines of `src`.
    pub fn new(src: &'a [u8]) -> (res: Lines<'a>)
        ensures
            res.ok(),
            res.src == src,
    {
        let ranges = split_lines(src);
        let hashes = hash_lines(src, &ranges);
        Lines { src, ranges, hashes }
    }

    /// The number of lines.
    pub fn len(&self) -> (res: usize)
        requires
            self.ok(),
        ensures
            res == self.view().len(),
    {
        self.ranges.len()
    }

    /// The length of line `k` in bytes.
    pub fn line_len(&self, k: usize) -> (res: usize)
        requires
            self.ok(),
            k < self.view().len(),
        ensures
            res == self.view()[k as int].len(),
    {
        let r = self.ranges[k];
        assert(self.src@.subrange(r.0 as int, r.1 as int).len() == r.1 - r.0);
        r.1 - r.0
    }

    /// Whether line `i` of `self` equals line `j` of `other`.
    pub fn line_eq(&self, i: usize, other: &Lines, j: usize) -> (res: bool)
        requires
            self.ok(),
            other.ok(),
            i < self.view().len(),
            j < other.view().len(),
        ensures
            res == (self.view()[i as int] == other.view()[j as int]),
    {
        if self.hashes[i] != other.hashes[j] {
            return false;
        }
        let r = self.ranges[i];
        let q = other.ranges[j];
        bytes_eq(slice_subrange(self.src, r.0, r.1), slice_subrange(other.src, q.0, q.1))
    }
}

/// A longest common subsequence of what is left of `a` is never longer
/// than what is left of `a`.
pub proof fn lemma_lcs_bound(a: Seq<Seq<u8>>, b: Seq<Seq<u8>>, i: int, j: int)
    requires
        0 <= i <= a.len(),
    ensures
        lcs_len(a, b, i, j) <= a.len() - i,
    decreases a.len() - i, b.len() - j,
{
    if i < 0 || j < 0 || i >= a.len() || j >= b.len() {
    } else if a[i] == b[j] {
        lemma_lcs_bound(a, b, i + 1, j + 1);
    } else {
        lemma_lcs_bound(a, b, i + 1, j);
        lemma_lcs_bound(a, b, i, j + 1);
    }
}

fn count_prefix(a: &Lines, b: &Lines) -> (p: usize)
    requires
        a.ok(),
        b.ok(),
    ensures
        p == common_prefix(a.view(), b.view(), 0),
        p <= a.view().len(),
        p <= b.view().len(),
{
    let mut k: usize = 0;
    while k < a.len() && k < b.len() && a.line_eq(k, b, k)
        invariant
            a.ok(),
            b.ok(),
            k <= a.view().len(),
            k <= b.view().len(),
            common_prefix(a.view(), b.view(), 0) == common_prefix(a.view(), b.view(), k as int),
        decreases a.view().len() - k,
    {
        k += 1;
    }
    k
}

fn count_suffix(a: &Lines, b: &Lines, p: usize) -> (s: usize)
    requires
        a.ok(),
        b.ok(),
        p <= a.view().len(),
        p <= b.view().len(),
    ensures
        s == common_suffix(a.view(), b.view(), p as int, 0),
        p + s <= a.view().len(),
        p + s <= b.view().len(),
{
    let n = a.len();
    let m = b.len();
    let mut k: usize = 0;
    while k < n - p && k < m - p && a.line_eq(n - 1 - k, b, m - 1 - k)
        invariant
            a.ok(),
            b.ok(),
            n == a.view().len(),
            m == b.view().len(),
            p + k <= n,
            p + k <= m,
            common_suffix(a.view(), b.view(), p as int, 0) == common_suffix(
                a.view(),
                b.view(),
                p as int,
                k as int,
            ),
        decreases n - k,
    {
        k += 1;
    }
    k
}

/// The part of the lines that the table is about: the lines from `lo`
/// up to `hi`.
pub open spec fn middle_of(lines: Seq<Seq<u8>>, lo: int, hi: int) -> Seq<Seq<u8>> {
    lines.subrange(lo, hi)
}

/// The rows of the table that are filled in: the table is built from its
/// last row to its first, and each row from its last cell to its first,
/// so `rev[k][c]` holds the length for row `n - 1 - k` and column
/// `m - 1 - c`.
spec fn table_ok(rev: Seq<Vec<usize>>, a: Seq<Seq<u8>>, b: Seq<Seq<u8>>, rows: int) -> bool {
    &&& rev.len() == rows
    &&& forall|k: int|
        0 <= k < rows ==> (#[trigger] rev[k])@.len() == b.len() && row_ok(
            rev[k]@,
            a,
            b,
            a.len() - 1 - k,
            b.len() as int,
        )
}

/// The first `cells` cells of the reversed row `i` are filled in.
spec fn row_ok(row: Seq<usize>, a: Seq<Seq<u8>>, b: Seq<Seq<u8>>, i: int, cells: int) -> bool {
    forall|c: int| 0 <= c < cells ==> #[trigger] row[c] == lcs_len(a, b, i, b.len() - 1 - c)
}

/// Cell `(i, j)` of the table; zero outside of it.
fn cell(rev: &Vec<Vec<usize>>, n: usize, m: usize, i: usize, j: usize, Ghost(a): Ghost<
    Seq<Seq<u8>>,
>, Ghost(b): Ghost<Seq<Seq<u8>>>) -> (res: usize)
    requires
        a.len() == n,
        b.len() == m,
        i <= n,
        j <= m,
        rev@.len() <= n,
        table_ok(rev@, a, b, rev@.len() as int),
        i < n ==> n - 1 - i < rev@.len(),
    ensures
        res == lcs_len(a, b, i as int, j as int),
{
    if i < n && j < m {
        let row = &rev[n - 1 - i];
        assert(row_ok(row@, a, b, a.len() - 1 - (n - 1 - i), b.len() as int));
        row[m - 1 - j]
    } else {
        0
    }
}

/// Row `i` of the table, reversed, from the rows below it.
fn build_row(a: &Lines, b: &Lines, p: usize, n: usize, m: usize, i: usize, rev: &Vec<Vec<usize>>)
    -> (row: Vec<usize>)
    requires
        a.ok(),
        b.ok(),
        p + n <= a.view().len(),
        p + m <= b.view().len(),
        i < n,
        rev@.len() == n - 1 - i,
        table_ok(
            rev@,
            middle_of(a.view(), p as int, p + n),
            middle_of(b.view(), p as int, p + m),
            rev@.len() as int,
        ),
    ensures
        row@.len() == m,
        row_ok(
            row@,
            middle_of(a.view(), p as int, p + n),
            middle_of(b.view(), p as int, p + m),
            i as int,
            m as int,
        ),
{
    let ghost ma = middle_of(a.view(), p as int, p + n);
    let ghost mb = middle_of(b.view(), p as int, p + m);
    let mut row: Vec<usize> = Vec::new();
    let mut c: usize = 0;
    let a_len = a.len();
    let b_len = b.len();
    while c < m
        invariant
            a.ok(),
            b.ok(),
            a_len == a.view().len(),
            b_len == b.view().len(),
            p + n <= a.view().len(),
            p + m <= b.view().len(),
            ma == middle_of(a.view(), p as int, p + n),
            mb == middle_of(b.view(), p as int, p + m),
            i < n,
            rev@.len() == n - 1 - i,
            table_ok(rev@, ma, mb, rev@.len() as int),
            c <= m,
            row@.len() == c,
            row_ok(row@, ma, mb, i as int, c as int),
        decreases m - c,
    {
        let j = m - 1 - c;
        proof {
            lemma_lcs_bound(ma, mb, i + 1, j + 1);
            assert(ma[i as int] == a.view()[p + i]);
            assert(mb[j as int] == b.view()[p + j]);
        }
        let same = a.line_eq(p + i, b, p + j);
        assert(same == (ma[i as int] == mb[j as int]));
        assert(ma.len() == n && mb.len() == m);
        let v = if same {
            let diag = cell(rev, n, m, i + 1, j + 1, Ghost(ma), Ghost(mb));
            1 + diag
        } else {
            let down = cell(rev, n, m, i + 1, j, Ghost(ma), Ghost(mb));
            let right = if c > 0 {
                assert(row@[c - 1] == lcs_len(ma, mb, i as int, mb.len() - 1 - (c - 1)));
                row[c - 1]
            } else {
                0
            };
            assert(right == lcs_len(ma, mb, i as int, j + 1));
            if down >= right {
                down
            } else {
                right
            }
        };
        let ghost old_row = row@;
        proof {
            assert(ma.len() == n && mb.len() == m);
            if c > 0 {
                assert(old_row[c - 1] == lcs_len(ma, mb, i as int, mb.len() - 1 - (c - 1)));
            }
            assert(v == lcs_len(ma, mb, i as int, j as int));
        }
        row.push(v);
        proof {
            assert forall|c2: int| 0 <= c2 < c + 1 implies #[trigger] row@[c2] == lcs_len(
                ma,
                mb,
                i as int,
                mb.len() - 1 - c2,
            ) by {
                if c2 < c {
                    assert(row@[c2] == old_row[c2]);
                }
            }
        }
        c += 1;
    }
    row
}

/// The table of the lengths of longest common subsequences of the
/// middles of `a` and `b`, rows and cells reversed.
fn build_table(a: &Lines, b: &Lines, p: usize, n: usize, m: usize) -> (rev: Vec<Vec<usize>>)
    requires
        a.ok(),
        b.ok(),
        p + n <= a.view().len(),
        p + m <= b.view().len(),
    ensures
        table_ok(
            rev@,
            middle_of(a.view(), p as int, p + n),
            middle_of(b.view(), p as int, p + m),
            n as int,
        ),
{
    let mut rev: Vec<Vec<usize>> = Vec::new();
    let mut k: usize = 0;
    while k < n
        invariant
            a.ok(),
            b.ok(),
            p + n <= a.view().len(),
            p + m <= b.view().len(),
            k <= n,
            table_ok(
                rev@,
                middle_of(a.view(), p as int, p + n),
                middle_of(b.view(), p as int, p + m),
                k as int,
            ),
        decreases n - k,
    {
        let row = build_row(a, b, p, n, m, n - 1 - k, &rev);
        rev.push(row);
        k += 1;
    }
    rev
}

/// Walk through the table from its first cell and collect the lines of
/// `a` that have no partner.
#[verifier::rlimit(40)]
fn collect_novel(a: &Lines, b: &Lines, p: usize, n: usize, m: usize, rev: &Vec<Vec<usize>>) -> (out:
    Vec<MatchedPos>)
    requires
        a.ok(),
        b.ok(),
        p + n <= a.view().len(),
        p + m <= b.view().len(),
        table_ok(
            rev@,
            middle_of(a.view(), p as int, p + n),
            middle_of(b.view(), p as int, p + m),
            n as int,
        ),
    ensures
        ({
            let novel = novel_from(
                middle_of(a.view(), p as int, p + n),
                middle_of(b.view(), p as int, p + m),
                0,
                0,
            );
            out@ == Seq::new(novel.len(), |k: int| line_span(a.view(), novel[k] + p))
        }),
        ascending(out@),
        well_formed(out@),
{
    let ghost ma = middle_of(a.view(), p as int, p + n);
    let ghost mb = middle_of(b.view(), p as int, p + m);
    let ghost mut novel: Seq<int> = Seq::empty();
    let mut out: Vec<MatchedPos> = Vec::new();
    let mut i: usize = 0;
    let mut j: usize = 0;
    let a_len = a.len();
    let b_len = b.len();
    assert(novel + novel_from(ma, mb, 0, 0) =~= novel_from(ma, mb, 0, 0));
    while i < n
        invariant
            a.ok(),
            b.ok(),
            a_len == a.view().len(),
            b_len == b.view().len(),
            p + n <= a.view().len(),
            p + m <= b.view().len(),
            ma == middle_of(a.view(), p as int, p + n),
            mb == middle_of(b.view(), p as int, p + m),
            table_ok(rev@, ma, mb, n as int),
            i <= n,
            j <= m,
            novel_from(ma, mb, 0, 0) == novel + novel_from(ma, mb, i as int, j as int),
            out@ == Seq::new(novel.len(), |k: int| line_span(a.view(), novel[k] + p)),
            forall|k: int| 0 <= k < novel.len() ==> 0 <= #[trigger] novel[k] < i,
            ascending(out@),
            well_formed(out@),
        decreases (n - i) + (m - j),
    {
        proof {
            assert(ma[i as int] == a.view()[p + i]);
            if j < m {
                assert(mb[j as int] == b.view()[p + j]);
            }
        }
        let take = if j >= m {
            true
        } else if a.line_eq(p + i, b, p + j) {
            i += 1;
            j += 1;
            continue ;
        } else {
            cell(rev, n, m, i + 1, j, Ghost(ma), Ghost(mb)) >= cell(
                rev,
                n,
                m,
                i,
                j + 1,
                Ghost(ma),
                Ghost(mb),
            )
        };
        if take {
            let ghost before = out@;
            let ghost old_novel = novel;
            let span = MatchedPos {
                kind: MatchKind::Novel,
                pos: SingleLineSpan { line: p + i, start_col: 0, end_col: a.line_len(p + i) },
            };
            out.push(span);
            proof {
                let rest = novel_from(ma, mb, i + 1, j as int);
                assert(novel_from(ma, mb, i as int, j as int) == seq![i as int] + rest);
                novel = old_novel.push(i as int);
                assert(old_novel + (seq![i as int] + rest) =~= novel + rest);
                assert(span == line_span(a.view(), i + p));
                assert(out@ =~= Seq::new(novel.len(), |k: int| line_span(a.view(), novel[k] + p)));
                assert forall|x: int, y: int| 0 <= x < y < out@.len() implies crate::positions::span_before(
                    (#[trigger] out@[x]).pos,
                    (#[trigger] out@[y]).pos,
                ) by {
                    if y == out@.len() - 1 {
                        assert(out@[x] == line_span(a.view(), old_novel[x] + p));
                    } else {
                        assert(out@[x] == before[x]);
                        assert(out@[y] == before[y]);
                    }
                }
            }
            i += 1;
        } else {
            j += 1;
        }
    }
    assert(novel_from(ma, mb, i as int, j as int) =~= Seq::empty());
    assert(novel + Seq::<int>::empty() =~= novel);
    out
}

/// The positions that the line differ reports for `src` when compared
/// with `other`: one novel span for each line of `src` that is left when
/// the common leading and trailing lines and a longest common subsequence
/// of the rest are taken away. Called once for each side.
pub fn change_positions(src: &[u8], other: &[u8]) -> (res: Vec<MatchedPos>)
    ensures
        res@ == line_positions_spec(src@, other@),
        ascending(res@),
        well_formed(res@),
{
    let a = Lines::new(src);
    let b = Lines::new(other);
    let p = count_prefix(&a, &b);
    let s = count_suffix(&a, &b, p);
    let n = a.len() - p - s;
    let m = b.len() - p - s;
    let out = if n == 0 || m <= LINE_TABLE_LIMIT / n {
        let rev = build_table(&a, &b, p, n, m);
        collect_novel(&a, &b, p, n, m, &rev)
    } else {
        collect_all(&a, p, n)
    };
    proof {
        let novel = novel_mid(
            middle_of(a.view(), p as int, p + n),
            middle_of(b.view(), p as int, p + m),
        );
        let shifted = novel_lines(a.view(), b.view());
        assert(shifted.len() == novel.len());
        assert(out@ =~= Seq::new(shifted.len(), |k: int| line_span(a.view(), shifted[k])));
    }
    out
}

/// The spans of the `n` lines of `a` from line `p` on.
fn collect_all(a: &Lines, p: usize, n: usize) -> (out: Vec<MatchedPos>)
    requires
        a.ok(),
        p + n <= a.view().len(),
    ensures
        out@ == Seq::new(n as nat, |k: int| line_span(a.view(), k + p)),
        ascending(out@),
        well_formed(out@),
{
    let mut out: Vec<MatchedPos> = Vec::new();
    let mut k: usize = 0;
    let a_len = a.len();
    while k < n
        invariant
            a.ok(),
            a_len == a.view().len(),
            p + n <= a_len,
            k <= n,
            out@ == Seq::new(k as nat, |i: int| line_span(a.view(), i + p)),
        decreases n - k,
    {
        let span = MatchedPos {
            kind: MatchKind::Novel,
            pos: SingleLineSpan { line: p + k, start_col: 0, end_col: a.line_len(p + k) },
        };
        out.push(span);
        assert(out@ =~= Seq::new((k + 1) as nat, |i: int| line_span(a.view(), i + p)));
        k += 1;
    }
    out
}

/// The pairs `m` are a common subsequence of the lines of `a` from `i` on
/// and the lines of `b` from `j` on: each pair names a line of `a` and an
/// equal line of `b`, and from pair to pair both line numbers grow.
pub open spec fn common(a: Seq<Seq<u8>>, b: Seq<Seq<u8>>, m: Seq<(int, int)>, i: int, j: int)
    -> bool {
    &&& forall|k: int|
        0 <= k < m.len() ==> i <= (#[trigger] m[k]).0 < a.len() && j <= m[k].1 < b.len() && a[m[k].0]
            == b[m[k].1]
    &&& forall|k: int, l: int|
        0 <= k < l < m.len() ==> (#[trigger] m[k]).0 < (#[trigger] m[l]).0 && m[k].1 < m[l].1
}

/// No common subsequence is longer than `lcs_len` says.
pub proof fn lemma_lcs_is_longest(
    a: Seq<Seq<u8>>,
    b: Seq<Seq<u8>>,
    m: Seq<(int, int)>,
    i: int,
    j: int,
)
    requires
        0 <= i,
        0 <= j,
        common(a, b, m, i, j),
    ensures
        m.len() <= lcs_len(a, b, i, j),
    decreases a.len() - i, b.len() - j,
{
    if m.len() > 0 {
        let (x, y) = m[0];
        if a[i] == b[j] {
            let rest = m.skip(1);
            assert forall|k: int| 0 <= k < rest.len() implies i + 1 <= (#[trigger] rest[k]).0
                < a.len() && j + 1 <= rest[k].1 < b.len() && a[rest[k].0] == b[rest[k].1] by {
                assert(rest[k] == m[k + 1]);
            }
            assert forall|k: int, l: int| 0 <= k < l < rest.len() implies (#[trigger] rest[k]).0 < (
            #[trigger] rest[l]).0 && rest[k].1 < rest[l].1 by {
                assert(rest[k] == m[k + 1]);
                assert(rest[l] == m[l + 1]);
            }
            lemma_lcs_is_longest(a, b, rest, i + 1, j + 1);
        } else if x > i {
            assert forall|k: int| 0 <= k < m.len() implies i + 1 <= (#[trigger] m[k]).0 by {
                if k > 0 {
                    assert(m[0].0 < m[k].0);
                }
            }
            lemma_lcs_is_longest(a, b, m, i + 1, j);
        } else {
            assert forall|k: int| 0 <= k < m.len() implies j + 1 <= (#[trigger] m[k]).1 by {
                if k > 0 {
                    assert(m[0].1 < m[k].1);
                }
            }
            lemma_lcs_is_longest(a, b, m, i, j + 1);
        }
    }
}

/// The lines of `a` from `i` on and their partners among the lines of `b`
/// from `j` on, as `novel_from` chooses them.
pub open spec fn kept_from(a: Seq<Seq<u8>>, b: Seq<Seq<u8>>, i: int, j: int) -> Seq<(int, int)>
    decreases a.len() - i, b.len() - j,
{
    if i < 0 || j < 0 || i >= a.len() || j >= b.len() {
        Seq::empty()
    } else if a[i] == b[j] {
        seq![(i, j)] + kept_from(a, b, i + 1, j + 1)
    } else if lcs_len(a, b, i + 1, j) >= lcs_len(a, b, i, j + 1) {
        kept_from(a, b, i + 1, j)
    } else {
        kept_from(a, b, i, j + 1)
    }
}

/// The lines that are kept are a common subsequence, as long as `lcs_len`
/// says, and together with the novel lines they are all the lines.
#[verifier::rlimit(40)]
pub proof fn lemma_kept(a: Seq<Seq<u8>>, b: Seq<Seq<u8>>, i: int, j: int)
    requires
        0 <= i <= a.len(),
        0 <= j,
    ensures
        common(a, b, kept_from(a, b, i, j), i, j),
        kept_from(a, b, i, j).len() == lcs_len(a, b, i, j),
        kept_from(a, b, i, j).len() + novel_from(a, b, i, j).len() == a.len() - i,
        forall|x: int|
            i <= x < a.len() ==> (novel_from(a, b, i, j).contains(x) <==> !exists|k: int|
                0 <= k < kept_from(a, b, i, j).len() && (#[trigger] kept_from(a, b, i, j)[k]).0
                    == x),
        forall|k: int|
            0 <= k < novel_from(a, b, i, j).len() ==> i <= (#[trigger] novel_from(a, b, i, j)[k])
                < a.len(),
    decreases a.len() - i, b.len() - j,
{
    let kept = kept_from(a, b, i, j);
    let novel = novel_from(a, b, i, j);
    if i >= a.len() {
    } else if j >= b.len() {
        lemma_kept(a, b, i + 1, j);
        let rest = novel_from(a, b, i + 1, j);
        assert(novel == seq![i] + rest);
        assert(kept_from(a, b, i + 1, j) =~= Seq::<(int, int)>::empty());
        assert forall|x: int| i <= x < a.len() implies (novel.contains(x) <==> !exists|k: int|
            0 <= k < kept.len() && (#[trigger] kept[k]).0 == x) by {
            if x == i {
                assert(novel[0] == x);
            } else {
                if rest.contains(x) {
                    let k = choose|k: int| 0 <= k < rest.len() && rest[k] == x;
                    assert(novel[k + 1] == x);
                }
                if novel.contains(x) {
                    let k = choose|k: int| 0 <= k < novel.len() && novel[k] == x;
                    assert(rest[k - 1] == x);
                }
            }
        }
        assert forall|k: int| 0 <= k < novel.len() implies i <= (#[trigger] novel[k]) < a.len() by {
            if k > 0 {
                assert(novel[k] == rest[k - 1]);
            }
        }
    } else if a[i] == b[j] {
        lemma_kept(a, b, i + 1, j + 1);
        let rest = kept_from(a, b, i + 1, j + 1);
        assert(kept == seq![(i, j)] + rest);
        assert forall|k: int| 0 <= k < kept.len() implies i <= (#[trigger] kept[k]).0 < a.len()
            && j <= kept[k].1 < b.len() && a[kept[k].0] == b[kept[k].1] by {
            if k > 0 {
                assert(kept[k] == rest[k - 1]);
            }
        }
        assert forall|k: int, l: int| 0 <= k < l < kept.len() implies (#[trigger] kept[k]).0 < (
        #[trigger] kept[l]).0 && kept[k].1 < kept[l].1 by {
            assert(kept[l] == rest[l - 1]);
            if k > 0 {
                assert(kept[k] == rest[k - 1]);
            }
        }
        assert forall|x: int| i <= x < a.len() implies (novel.contains(x) <==> !exists|k: int|
            0 <= k < kept.len() && (#[trigger] kept[k]).0 == x) by {
            if x == i {
                assert(kept[0].0 == x);
                if novel.contains(x) {
                    let k = choose|k: int| 0 <= k < novel.len() && novel[k] == x;
                    assert(i + 1 <= novel[k]);
                }
            } else {
                if exists|k: int| 0 <= k < rest.len() && (#[trigger] rest[k]).0 == x {
                    let k = choose|k: int| 0 <= k < rest.len() && (#[trigger] rest[k]).0 == x;
                    assert(kept[k + 1].0 == x);
                }
                if exists|k: int| 0 <= k < kept.len() && (#[trigger] kept[k]).0 == x {
                    let k = choose|k: int| 0 <= k < kept.len() && (#[trigger] kept[k]).0 == x;
                    assert(rest[k - 1].0 == x);
                }
            }
        }
    } else if lcs_len(a, b, i + 1, j) >= lcs_len(a, b, i, j + 1) {
        lemma_kept(a, b, i + 1, j);
        let rest = novel_from(a, b, i + 1, j);
        assert(novel == seq![i] + rest);
        assert forall|k: int| 0 <= k < kept.len() implies i <= (#[trigger] kept[k]).0 by {}
        assert forall|x: int| i <= x < a.len() implies (novel.contains(x) <==> !exists|k: int|
            0 <= k < kept.len() && (#[trigger] kept[k]).0 == x) by {
            if x == i {
                assert(novel[0] == x);
                if exists|k: int| 0 <= k < kept.len() && (#[trigger] kept[k]).0 == x {
                    let k = choose|k: int| 0 <= k < kept.len() && (#[trigger] kept[k]).0 == x;
                    assert(i + 1 <= kept[k].0);
                }
            } else {
                if rest.contains(x) {
                    let k = choose|k: int| 0 <= k < rest.len() && rest[k] == x;
                    assert(novel[k + 1] == x);
                }
                if novel.contains(x) {
                    let k = choose|k: int| 0 <= k < novel.len() && novel[k] == x;
                    assert(rest[k - 1] == x);
                }
            }
        }
        assert forall|k: int| 0 <= k < novel.len() implies i <= (#[trigger] novel[k]) < a.len() by {
            if k > 0 {
                assert(novel[k] == rest[k - 1]);
            }
        }
    } else {
        lemma_kept(a, b, i, j + 1);
        assert forall|k: int| 0 <= k < kept.len() implies j <= (#[trigger] kept[k]).1 by {}
    }
}

/// The pairs `m` are a common subsequence of the lines `i..i_hi` of `a`
/// and the lines `j..j_hi` of `b`.
pub open spec fn common_in(
    a: Seq<Seq<u8>>,
    b: Seq<Seq<u8>>,
    m: Seq<(int, int)>,
    i: int,
    i_hi: int,
    j: int,
    j_hi: int,
) -> bool {
    &&& forall|k: int|
        0 <= k < m.len() ==> i <= (#[trigger] m[k]).0 < i_hi && j <= m[k].1 < j_hi && a[m[k].0]
            == b[m[k].1]
    &&& forall|k: int, l: int|
        0 <= k < l < m.len() ==> (#[trigger] m[k]).0 < (#[trigger] m[l]).0 && m[k].1 < m[l].1
}

/// When both ranges lose `p` lines at the front, a common subsequence
/// loses at most `p` pairs.
proof fn lemma_peel_front(
    a: Seq<Seq<u8>>,
    b: Seq<Seq<u8>>,
    m: Seq<(int, int)>,
    i_hi: int,
    j_hi: int,
    p: int,
)
    requires
        0 <= p,
        common_in(a, b, m, 0, i_hi, 0, j_hi),
    ensures
        exists|rest: Seq<(int, int)>|
            #![trigger common_in(a, b, rest, p, i_hi, p, j_hi)]
            common_in(a, b, rest, p, i_hi, p, j_hi) && m.len() <= p + rest.len(),
    decreases p,
{
    if p == 0 {
        assert(common_in(a, b, m, p, i_hi, p, j_hi) && m.len() <= p + m.len());
    } else {
        lemma_peel_front(a, b, m, i_hi, j_hi, p - 1);
        let before = choose|rest: Seq<(int, int)>|
            #![trigger common_in(a, b, rest, p - 1, i_hi, p - 1, j_hi)]
            common_in(a, b, rest, p - 1, i_hi, p - 1, j_hi) && m.len() <= p - 1 + rest.len();
        if before.len() == 0 {
            assert(common_in(a, b, before, p, i_hi, p, j_hi) && m.len() <= p + before.len());
        } else {
            let rest = before.skip(1);
            assert forall|k: int| 0 <= k < rest.len() implies p <= (#[trigger] rest[k]).0 < i_hi
                && p <= rest[k].1 < j_hi && a[rest[k].0] == b[rest[k].1] by {
                assert(rest[k] == before[k + 1]);
                assert(before[0].0 < before[k + 1].0);
            }
            assert forall|k: int, l: int| 0 <= k < l < rest.len() implies (#[trigger] rest[k]).0 < (
            #[trigger] rest[l]).0 && rest[k].1 < rest[l].1 by {
                assert(rest[k] == before[k + 1]);
                assert(rest[l] == before[l + 1]);
            }
            assert(common_in(a, b, rest, p, i_hi, p, j_hi) && m.len() <= p + rest.len());
        }
    }
}

/// When both ranges lose `s` lines at the back, a common subsequence
/// loses at most `s` pairs.
proof fn lemma_peel_back(
    a: Seq<Seq<u8>>,
    b: Seq<Seq<u8>>,
    m: Seq<(int, int)>,
    i: int,
    i_hi: int,
    j: int,
    j_hi: int,
    s: int,
)
    requires
        0 <= s,
        common_in(a, b, m, i, i_hi, j, j_hi),
    ensures
        exists|rest: Seq<(int, int)>|
            #![trigger common_in(a, b, rest, i, i_hi - s, j, j_hi - s)]
            common_in(a, b, rest, i, i_hi - s, j, j_hi - s) && m.len() <= s + rest.len(),
    decreases s,
{
    if s == 0 {
        assert(common_in(a, b, m, i, i_hi - s, j, j_hi - s) && m.len() <= s + m.len());
    } else {
        lemma_peel_back(a, b, m, i, i_hi, j, j_hi, s - 1);
        let before = choose|rest: Seq<(int, int)>|
            #![trigger common_in(a, b, rest, i, i_hi - (s - 1), j, j_hi - (s - 1))]
            common_in(a, b, rest, i, i_hi - (s - 1), j, j_hi - (s - 1)) && m.len() <= s - 1
                + rest.len();
        if before.len() == 0 {
            assert(common_in(a, b, before, i, i_hi - s, j, j_hi - s) && m.len() <= s
                + before.len());
        } else {
            let rest = before.drop_last();
            let last = before.len() - 1;
            assert forall|k: int| 0 <= k < rest.len() implies i <= (#[trigger] rest[k]).0 < i_hi
                - s && j <= rest[k].1 < j_hi - s && a[rest[k].0] == b[rest[k].1] by {
                assert(rest[k] == before[k]);
                assert(before[k].0 < before[last].0);
            }
            assert forall|k: int, l: int| 0 <= k < l < rest.len() implies (#[trigger] rest[k]).0 < (
            #[trigger] rest[l]).0 && rest[k].1 < rest[l].1 by {
                assert(rest[k] == before[k]);
                assert(rest[l] == before[l]);
            }
            assert(common_in(a, b, rest, i, i_hi - s, j, j_hi - s) && m.len() <= s + rest.len());
        }
    }
}

/// Whether what is left of the two files between their common leading
/// and trailing lines is small enough for the table of lengths.
pub open spec fn middle_fits(a: Seq<Seq<u8>>, b: Seq<Seq<u8>>) -> bool {
    let p = common_prefix(a, b, 0);
    let s = common_suffix(a, b, p, 0);
    fits_table(a.len() - p - s, b.len() - p - s)
}

/// Where the table of lengths stays within its limit, the line differ
/// reports as few lines as can be: whatever common subsequence the two
/// files have, the lines that are not reported are at least as many as
/// its pairs.
pub proof fn lemma_line_diff_minimal(a: Seq<Seq<u8>>, b: Seq<Seq<u8>>, m: Seq<(int, int)>)
    requires
        common(a, b, m, 0, 0),
        middle_fits(a, b),
    ensures
        m.len() + novel_lines(a, b).len() <= a.len(),
{
    let p = common_prefix(a, b, 0);
    lemma_prefix_bounds(a, b, 0);
    let s = common_suffix(a, b, p, 0);
    lemma_suffix_bounds(a, b, p, 0);
    let mid_a = a.subrange(p, a.len() - s);
    let mid_b = b.subrange(p, b.len() - s);
    assert(common_in(a, b, m, 0, a.len() as int, 0, b.len() as int));
    lemma_peel_front(a, b, m, a.len() as int, b.len() as int, p);
    let m1 = choose|rest: Seq<(int, int)>|
        #![trigger common_in(a, b, rest, p, a.len() as int, p, b.len() as int)]
        common_in(a, b, rest, p, a.len() as int, p, b.len() as int) && m.len() <= p + rest.len();
    lemma_peel_back(a, b, m1, p, a.len() as int, p, b.len() as int, s);
    let m2 = choose|rest: Seq<(int, int)>|
        #![trigger common_in(a, b, rest, p, a.len() - s, p, b.len() - s)]
        common_in(a, b, rest, p, a.len() - s, p, b.len() - s) && m1.len() <= s + rest.len();
    let shifted = Seq::new(m2.len(), |k: int| (m2[k].0 - p, m2[k].1 - p));
    assert forall|k: int| 0 <= k < shifted.len() implies 0 <= (#[trigger] shifted[k]).0
        < mid_a.len() && 0 <= shifted[k].1 < mid_b.len() && mid_a[shifted[k].0]
        == mid_b[shifted[k].1] by {
        assert(common_in(a, b, m2, p, a.len() - s, p, b.len() - s));
        assert(p <= m2[k].0 < a.len() - s);
    }
    assert forall|k: int, l: int| 0 <= k < l < shifted.len() implies (#[trigger] shifted[k]).0 < (
    #[trigger] shifted[l]).0 && shifted[k].1 < shifted[l].1 by {
        assert(m2[k].0 < m2[l].0);
    }
    lemma_lcs_is_longest(mid_a, mid_b, shifted, 0, 0);
    lemma_kept(mid_a, mid_b, 0, 0);
}

/// The common prefix is no longer than either file.
proof fn lemma_prefix_bounds(a: Seq<Seq<u8>>, b: Seq<Seq<u8>>, k: int)
    requires
        0 <= k <= a.len(),
        k <= b.len(),
    ensures
        k <= common_prefix(a, b, k) <= a.len(),
        common_prefix(a, b, k) <= b.len(),
        forall|x: int| k <= x < common_prefix(a, b, k) ==> a[x] == b[x],
    decreases a.len() - k,
{
    if 0 <= k < a.len() && k < b.len() && a[k] == b[k] {
        lemma_prefix_bounds(a, b, k + 1);
    }
}

/// The `x`-th line from the end is the same in both files.
pub open spec fn same_from_end(a: Seq<Seq<u8>>, b: Seq<Seq<u8>>, x: int) -> bool {
    a[a.len() - 1 - x] == b[b.len() - 1 - x]
}

/// The common suffix does not reach into the common prefix.
proof fn lemma_suffix_bounds(a: Seq<Seq<u8>>, b: Seq<Seq<u8>>, p: int, k: int)
    requires
        0 <= k,
        0 <= p,
        p + k <= a.len(),
        p + k <= b.len(),
    ensures
        k <= common_suffix(a, b, p, k),
        p + common_suffix(a, b, p, k) <= a.len(),
        p + common_suffix(a, b, p, k) <= b.len(),
        forall|x: int| k <= x < common_suffix(a, b, p, k) ==> #[trigger] same_from_end(a, b, x),
    decreases a.len() - k,
{
    if 0 <= k && 0 <= p && p + k < a.len() && p + k < b.len() && a[a.len() - 1 - k] == b[b.len() - 1
        - k] {
        lemma_suffix_bounds(a, b, p, k + 1);
    }
}

/// The lines of `a` with a partner in `b`, as the differ pairs them: a
/// longest common subsequence, or none where the table of lengths would
/// be larger than the limit.
pub open spec fn kept_mid(a: Seq<Seq<u8>>, b: Seq<Seq<u8>>) -> Seq<(int, int)> {
    if fits_table(a.len() as int, b.len() as int) {
        kept_from(a, b, 0, 0)
    } else {
        Seq::empty()
    }
}

/// The lines of `a` that the line differ does not report, each with its
/// partner among the lines of `b`: the common leading lines, the pairs
/// that it keeps of the middle, and the common trailing lines.
pub open spec fn kept_lines(a: Seq<Seq<u8>>, b: Seq<Seq<u8>>) -> Seq<(int, int)> {
    let p = common_prefix(a, b, 0);
    let s = common_suffix(a, b, p, 0);
    let mid = kept_mid(a.subrange(p, a.len() - s), b.subrange(p, b.len() - s));
    Seq::new(
        (p + mid.len() + s) as nat,
        |k: int|
            if k < p {
                (k, k)
            } else if k < p + mid.len() {
                (mid[k - p].0 + p, mid[k - p].1 + p)
            } else {
                (a.len() - s + (k - p - mid.len()), b.len() - s + (k - p - mid.len()))
            },
    )
}

/// What the line differ does not report is a common subsequence of the
/// two files, and every line of the file is either reported or part of
/// it.
#[verifier::rlimit(40)]
pub proof fn lemma_line_diff_sound(a: Seq<Seq<u8>>, b: Seq<Seq<u8>>)
    ensures
        common(a, b, kept_lines(a, b), 0, 0),
        kept_lines(a, b).len() + novel_lines(a, b).len() == a.len(),
        forall|x: int|
            0 <= x < a.len() ==> (novel_lines(a, b).contains(x) <==> !exists|k: int|
                0 <= k < kept_lines(a, b).len() && (#[trigger] kept_lines(a, b)[k]).0 == x),
{
    let p = common_prefix(a, b, 0);
    lemma_prefix_bounds(a, b, 0);
    let s = common_suffix(a, b, p, 0);
    lemma_suffix_bounds(a, b, p, 0);
    let mid_a = a.subrange(p, a.len() - s);
    let mid_b = b.subrange(p, b.len() - s);
    lemma_kept(mid_a, mid_b, 0, 0);
    let mid = kept_mid(mid_a, mid_b);
    let inner = novel_mid(mid_a, mid_b);
    assert(inner.len() + mid.len() == mid_a.len());
    assert forall|k: int| 0 <= k < inner.len() implies 0 <= (#[trigger] inner[k]) < mid_a.len() by {}
    assert forall|x: int| 0 <= x < mid_a.len() implies (inner.contains(x) <==> !exists|k: int|
        0 <= k < mid.len() && (#[trigger] mid[k]).0 == x) by {
        if !fits_table(mid_a.len() as int, mid_b.len() as int) {
            assert(inner[x] == x);
        }
    }
    assert(common(mid_a, mid_b, mid, 0, 0));
    let kept = kept_lines(a, b);
    let novel = novel_lines(a, b);
    let q = mid.len() as int;
    assert(novel.len() == inner.len());
    assert forall|k: int| 0 <= k < kept.len() implies 0 <= (#[trigger] kept[k]).0 < a.len() && 0
        <= kept[k].1 < b.len() && a[kept[k].0] == b[kept[k].1] by {
        if k < p {
        } else if k < p + q {
            let pair = mid[k - p];
            assert(0 <= pair.0 < mid_a.len() && 0 <= pair.1 < mid_b.len());
            assert(mid_a[pair.0] == a[pair.0 + p]);
            assert(mid_b[pair.1] == b[pair.1 + p]);
        } else {
            let r = k - p - q;
            assert(same_from_end(a, b, s - 1 - r));
        }
    }
    assert forall|k: int, l: int| 0 <= k < l < kept.len() implies (#[trigger] kept[k]).0 < (
    #[trigger] kept[l]).0 && kept[k].1 < kept[l].1 by {
        if p <= k < p + q {
            assert(0 <= mid[k - p].0 < mid_a.len() && 0 <= mid[k - p].1 < mid_b.len());
        }
        if p <= l < p + q {
            assert(0 <= mid[l - p].0 < mid_a.len() && 0 <= mid[l - p].1 < mid_b.len());
        }
        if p <= k && l < p + q {
            assert(mid[k - p].0 < mid[l - p].0 && mid[k - p].1 < mid[l - p].1);
        }
    }
    assert forall|x: int| 0 <= x < a.len() implies (novel.contains(x) <==> !exists|k: int|
        0 <= k < kept.len() && (#[trigger] kept[k]).0 == x) by {
        if novel.contains(x) {
            let i = choose|i: int| 0 <= i < novel.len() && novel[i] == x;
            assert(novel[i] == inner[i] + p);
            assert(0 <= inner[i] < mid_a.len());
            assert(inner.contains(x - p));
            if exists|k: int| 0 <= k < kept.len() && (#[trigger] kept[k]).0 == x {
                let k = choose|k: int| 0 <= k < kept.len() && (#[trigger] kept[k]).0 == x;
                assert(p <= k < p + q);
                assert(mid[k - p].0 == x - p);
            }
        } else {
            if x < p {
                assert(kept[x].0 == x);
            } else if x >= a.len() - s {
                let k = p + q + (x - (a.len() - s));
                assert(kept[k].0 == x);
            } else {
                if inner.contains(x - p) {
                    let i = choose|i: int| 0 <= i < inner.len() && inner[i] == x - p;
                    assert(novel[i] == x);
                }
                let k = choose|k: int| 0 <= k < mid.len() && (#[trigger] mid[k]).0 == x - p;
                assert(kept[k + p].0 == x);
            }
        }
    }
}

} // verus!
