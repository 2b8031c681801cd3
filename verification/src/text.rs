//! Plain operations on file contents held as bytes: telling text from
//! binary data, replacing tabs, and locating lines.

use vstd::prelude::*;
use vstd::slice::slice_to_vec;

verus! {

/// The byte value of a line feed.
pub const NEWLINE: u8 = 10;

/// The byte value of a horizontal tab.
pub const TAB: u8 = 9;

/// The byte value of a space.
pub const SPACE: u8 = 32;

/// How many leading bytes are inspected to tell text from binary data.
pub const BINARY_PROBE_LEN: usize = 1024;

/// What a file's bytes most probably are.
#[derive(Debug)]
pub enum ProbableFileKind {
    Text(Vec<u8>),
    Binary,
}

/// A file is taken for binary when a NUL byte occurs among its first
/// `BINARY_PROBE_LEN` bytes.
pub open spec fn looks_binary(bytes: Seq<u8>) -> bool {
    exists|i: int| 0 <= i < bytes.len() && i < BINARY_PROBE_LEN && bytes[i] == 0u8
}

/// Classify `bytes` as text or binary; text comes back as a copy.
pub fn guess_content(bytes: &[u8]) -> (res: ProbableFileKind)
    ensures
        looks_binary(bytes@) <==> res is Binary,
        res matches ProbableFileKind::Text(t) ==> t@ == bytes@,
{
    let mut i: usize = 0;
    while i < bytes.len() && i < BINARY_PROBE_LEN
        invariant
            i <= bytes@.len(),
            i <= BINARY_PROBE_LEN,
            forall|k: int| 0 <= k < i ==> bytes@[k] != 0u8,
        decreases bytes@.len() - i,
    {
        if bytes[i] == 0 {
            return ProbableFileKind::Binary;
        }
        i += 1;
    }
    ProbableFileKind::Text(slice_to_vec(bytes))
}

/// Whether two byte strings are equal.
pub fn bytes_eq(a: &[u8], b: &[u8]) -> (res: bool)
    ensures
        res == (a@ == b@),
{
    if a.len() != b.len() {
        return false;
    }
    let mut i: usize = 0;
    while i < a.len()
        invariant
            a@.len() == b@.len(),
            i <= a@.len(),
            forall|k: int| 0 <= k < i ==> a@[k] == b@[k],
        decreases a@.len() - i,
    {
        if a[i] != b[i] {
            return false;
        }
        i += 1;
    }
    assert(a@ =~= b@);
    true
}

/// `src` with every tab replaced by `tab_width` spaces.
pub open spec fn replace_tabs_spec(src: Seq<u8>, tab_width: nat) -> Seq<u8>
    decreases src.len(),
{
    if src.len() == 0 {
        Seq::empty()
    } else {
        let head = replace_tabs_spec(src.drop_last(), tab_width);
        if src.last() == TAB {
            head + Seq::new(tab_width, |i: int| SPACE)
        } else {
            head.push(src.last())
        }
    }
}

/// Return a copy of `src` with all the tab characters replaced by
/// `tab_width` spaces.
///
/// Grammars in which tabs are significant see spaces instead; this is a
/// known imperfection, kept so that columns agree with what is displayed.
pub fn replace_tabs(src: &[u8], tab_width: usize) -> (res: Vec<u8>)
    ensures
        res@ == replace_tabs_spec(src@, tab_width as nat),
{
    let mut out: Vec<u8> = Vec::new();
    let mut i: usize = 0;
    while i < src.len()
        invariant
            i <= src@.len(),
            out@ == replace_tabs_spec(src@.take(i as int), tab_width as nat),
        decreases src@.len() - i,
    {
        let ghost before = out@;
        assert(src@.take(i + 1).drop_last() =~= src@.take(i as int));
        if src[i] == TAB {
            let mut k: usize = 0;
            while k < tab_width
                invariant
                    k <= tab_width,
                    out@ == before + Seq::new(k as nat, |j: int| SPACE),
                decreases tab_width - k,
            {
                out.push(SPACE);
                assert(out@ =~= before + Seq::new((k + 1) as nat, |j: int| SPACE));
                k += 1;
            }
        } else {
            out.push(src[i]);
        }
        i += 1;
    }
    assert(src@.take(i as int) =~= src@);
    out
}

/// `src` without its final line feed, if it ends in one.
pub open spec fn strip_trailing_newline_spec(src: Seq<u8>) -> Seq<u8> {
    if src.len() > 0 && src.last() == NEWLINE {
        src.drop_last()
    } else {
        src
    }
}

/// Drop one trailing line feed, if present.
pub fn strip_trailing_newline(src: Vec<u8>) -> (res: Vec<u8>)
    ensures
        res@ == strip_trailing_newline_spec(src@),
{
    let mut src = src;
    let n = src.len();
    if n > 0 && src[n - 1] == NEWLINE {
        src.pop();
    }
    src
}

/// The number of line feeds among the first `off` bytes of `src`: the
/// zero-based line on which the byte at offset `off` stands.
pub open spec fn line_of(src: Seq<u8>, off: int) -> int
    decreases off,
{
    if off <= 0 {
        0
    } else {
        line_of(src, off - 1) + if src[off - 1] == NEWLINE { 1int } else { 0int }
    }
}

/// The offset at which the line holding offset `off` begins.
pub open spec fn line_start_of(src: Seq<u8>, off: int) -> int
    decreases off,
{
    if off <= 0 {
        0
    } else if src[off - 1] == NEWLINE {
        off
    } else {
        line_start_of(src, off - 1)
    }
}

/// The zero-based column of offset `off` within its line, in bytes.
pub open spec fn col_of(src: Seq<u8>, off: int) -> int {
    off - line_start_of(src, off)
}

} // verus!
