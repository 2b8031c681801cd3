//! A small lexer that cuts source text into tagged tokens by a handful of
//! rules per language: how comments and strings are written and which
//! bytes are delimiters. White space separates tokens and is dropped.

use vstd::prelude::*;
use crate::parse::{Token, TokenKind, tokens_ok};
use crate::syntax::{AtomKind, is_space, is_space_byte};
use crate::text::NEWLINE;

verus! {

/// The byte that escapes the next byte inside a string.
pub const BACKSLASH: u8 = 92;

/// The lexical rules of a language.
#[derive(Debug)]
pub struct LexRules {
    /// What starts a comment that runs to the end of the line; empty if
    /// the language has none.
    pub line_comment: Vec<u8>,
    /// What starts a comment that runs to `block_close`; empty if the
    /// language has none.
    pub block_open: Vec<u8>,
    pub block_close: Vec<u8>,
    /// The bytes that start and end a string.
    pub quotes: Vec<u8>,
    /// The bytes that open a list.
    pub opens: Vec<u8>,
    /// The bytes that close a list.
    pub closes: Vec<u8>,
    /// Whether an atom is any run of bytes up to white space, a delimiter or
    /// a quote; if not, an atom is a word or a single punctuation byte.
    pub symbol_atoms: bool,
}

/// The lexical rules as plain sequences.
pub struct LexView {
    pub line_comment: Seq<u8>,
    pub block_open: Seq<u8>,
    pub block_close: Seq<u8>,
    pub quotes: Seq<u8>,
    pub opens: Seq<u8>,
    pub closes: Seq<u8>,
    pub symbol_atoms: bool,
}

impl View for LexRules {
    type V = LexView;

    open spec fn view(&self) -> LexView {
        LexView {
            line_comment: self.line_comment@,
            block_open: self.block_open@,
            block_close: self.block_close@,
            quotes: self.quotes@,
            opens: self.opens@,
            closes: self.closes@,
            symbol_atoms: self.symbol_atoms,
        }
    }
}

/// Whether `pat` is non-empty and `src` holds it at offset `i`.
pub open spec fn starts_with_at(src: Seq<u8>, i: int, pat: Seq<u8>) -> bool {
    &&& pat.len() > 0
    &&& 0 <= i
    &&& i + pat.len() <= src.len()
    &&& src.subrange(i, i + pat.len()) == pat
}

/// The offset of the first line feed at or after `i`, or the length of
/// `src` if there is none.
pub open spec fn line_end(src: Seq<u8>, i: int) -> int
    decreases src.len() - i,
{
    if i < 0 || i >= src.len() {
        src.len() as int
    } else if src[i] == NEWLINE {
        i
    } else {
        line_end(src, i + 1)
    }
}

/// The offset just past the first occurrence of `close` at or after `i`,
/// or the length of `src` if there is none.
pub open spec fn block_end(src: Seq<u8>, i: int, close: Seq<u8>) -> int
    decreases src.len() - i,
{
    if i < 0 || i >= src.len() {
        src.len() as int
    } else if starts_with_at(src, i, close) {
        i + close.len()
    } else {
        block_end(src, i + 1, close)
    }
}

/// The offset just past the first unescaped `quote` at or after `i`, or
/// the length of `src` if there is none.
pub open spec fn string_end(src: Seq<u8>, i: int, quote: u8) -> int
    decreases src.len() - i,
{
    if i < 0 || i >= src.len() {
        src.len() as int
    } else if src[i] == quote {
        i + 1
    } else if src[i] == BACKSLASH && i + 1 < src.len() {
        string_end(src, i + 2, quote)
    } else {
        string_end(src, i + 1, quote)
    }
}

/// Whether `b` ends an atom made of arbitrary symbol bytes.
pub open spec fn is_break(rules: LexView, b: u8) -> bool {
    is_space(b) || rules.opens.contains(b) || rules.closes.contains(b) || rules.quotes.contains(b)
}

/// The offset of the first byte at or after `i` that ends a symbol.
pub open spec fn symbol_end(rules: LexView, src: Seq<u8>, i: int) -> int
    decreases src.len() - i,
{
    if i < 0 || i >= src.len() {
        src.len() as int
    } else if is_break(rules, src[i]) {
        i
    } else {
        symbol_end(rules, src, i + 1)
    }
}

/// Whether `b` belongs to a word: a letter, a digit, an underscore, or a
/// byte of a character outside ASCII.
pub open spec fn is_word(b: u8) -> bool {
    (48u8 <= b && b <= 57u8) || (65u8 <= b && b <= 90u8) || (97u8 <= b && b <= 122u8) || b == 95u8
        || b >= 128u8
}

/// The offset of the first byte at or after `i` that is no word byte.
pub open spec fn word_end(src: Seq<u8>, i: int) -> int
    decreases src.len() - i,
{
    if i < 0 || i >= src.len() {
        src.len() as int
    } else if !is_word(src[i]) {
        i
    } else {
        word_end(src, i + 1)
    }
}

/// Where the token that begins at offset `i` ends, and its tag. The byte
/// at `i` is no white space.
pub open spec fn token_at(rules: LexView, src: Seq<u8>, i: int) -> (TokenKind, int) {
    if starts_with_at(src, i, rules.line_comment) {
        (TokenKind::Atom(AtomKind::Comment), line_end(src, i))
    } else if starts_with_at(src, i, rules.block_open) {
        (
            TokenKind::Atom(AtomKind::Comment),
            block_end(src, i + rules.block_open.len(), rules.block_close),
        )
    } else if rules.quotes.contains(src[i]) {
        (TokenKind::Atom(AtomKind::StringLike), string_end(src, i + 1, src[i]))
    } else if rules.opens.contains(src[i]) {
        (TokenKind::Open, i + 1)
    } else if rules.closes.contains(src[i]) {
        (TokenKind::Close, i + 1)
    } else if rules.symbol_atoms {
        (TokenKind::Atom(AtomKind::Normal), symbol_end(rules, src, i + 1))
    } else if is_word(src[i]) {
        (TokenKind::Atom(AtomKind::Normal), word_end(src, i + 1))
    } else {
        (TokenKind::Atom(AtomKind::Normal), i + 1)
    }
}

/// The tokens of `src` from offset `i` on.
pub open spec fn tokens_from(rules: LexView, src: Seq<u8>, i: int) -> Seq<Token>
    decreases src.len() - i,
{
    if i < 0 || i >= src.len() {
        Seq::empty()
    } else if is_space(src[i]) {
        tokens_from(rules, src, i + 1)
    } else {
        let (kind, end) = token_at(rules, src, i);
        let t = Token { kind, start: i as usize, end: end as usize };
        if i < end <= src.len() {
            seq![t] + tokens_from(rules, src, end)
        } else {
            seq![t]
        }
    }
}

/// The tokens of a whole file.
pub open spec fn tokens_of(rules: LexView, src: Seq<u8>) -> Seq<Token> {
    tokens_from(rules, src, 0)
}

/// A line ends at or after the offset at which one looks for its end,
/// and inside the source.
pub proof fn lemma_line_end(src: Seq<u8>, i: int)
    requires
        0 <= i <= src.len(),
    ensures
        i <= line_end(src, i) <= src.len(),
        i < src.len() && src[i] != NEWLINE ==> i < line_end(src, i),
    decreases src.len() - i,
{
    if i < src.len() && src[i] != NEWLINE {
        lemma_line_end(src, i + 1);
    }
}

proof fn lemma_block_end(src: Seq<u8>, i: int, close: Seq<u8>)
    requires
        0 <= i <= src.len(),
    ensures
        i <= block_end(src, i, close) <= src.len(),
    decreases src.len() - i,
{
    if i < src.len() && !starts_with_at(src, i, close) {
        lemma_block_end(src, i + 1, close);
    }
}

proof fn lemma_string_end(src: Seq<u8>, i: int, quote: u8)
    requires
        0 <= i <= src.len(),
    ensures
        i <= string_end(src, i, quote) <= src.len(),
    decreases src.len() - i,
{
    if i < src.len() && src[i] != quote {
        if src[i] == BACKSLASH && i + 1 < src.len() {
            lemma_string_end(src, i + 2, quote);
        } else {
            lemma_string_end(src, i + 1, quote);
        }
    }
}

proof fn lemma_symbol_end(rules: LexView, src: Seq<u8>, i: int)
    requires
        0 <= i <= src.len(),
    ensures
        i <= symbol_end(rules, src, i) <= src.len(),
    decreases src.len() - i,
{
    if i < src.len() && !is_break(rules, src[i]) {
        lemma_symbol_end(rules, src, i + 1);
    }
}

proof fn lemma_word_end(src: Seq<u8>, i: int)
    requires
        0 <= i <= src.len(),
    ensures
        i <= word_end(src, i) <= src.len(),
    decreases src.len() - i,
{
    if i < src.len() && is_word(src[i]) {
        lemma_word_end(src, i + 1);
    }
}

/// A token is never empty and ends inside the source.
pub proof fn lemma_token_at_bounds(rules: LexView, src: Seq<u8>, i: int)
    requires
        0 <= i < src.len(),
        !is_space(src[i]),
    ensures
        i < token_at(rules, src, i).1 <= src.len(),
{
    lemma_line_end(src, i);
    if starts_with_at(src, i, rules.line_comment) {
        assert(src.subrange(i, i + rules.line_comment.len())[0] == src[i]);
    }
    if starts_with_at(src, i, rules.block_open) {
        lemma_block_end(src, i + rules.block_open.len(), rules.block_close);
    }
    lemma_string_end(src, i + 1, src[i]);
    lemma_symbol_end(rules, src, i + 1);
    lemma_word_end(src, i + 1);
}

fn contains_byte(v: &Vec<u8>, b: u8) -> (res: bool)
    ensures
        res == v@.contains(b),
{
    let mut k: usize = 0;
    while k < v.len()
        invariant
            k <= v@.len(),
            forall|m: int| 0 <= m < k ==> v@[m] != b,
        decreases v@.len() - k,
    {
        if v[k] == b {
            return true;
        }
        k += 1;
    }
    false
}

fn has_at(src: &[u8], i: usize, pat: &Vec<u8>) -> (res: bool)
    requires
        i <= src@.len(),
    ensures
        res == starts_with_at(src@, i as int, pat@),
{
    let n = pat.len();
    if n == 0 || n > src.len() - i {
        return false;
    }
    let mut k: usize = 0;
    while k < n
        invariant
            n == pat@.len(),
            i + n <= src@.len() <= usize::MAX,
            k <= n,
            forall|m: int| 0 <= m < k ==> src@[i + m] == pat@[m],
        decreases n - k,
    {
        if src[i + k] != pat[k] {
            assert(src@.subrange(i as int, i + n)[k as int] != pat@[k as int]);
            return false;
        }
        k += 1;
    }
    assert(src@.subrange(i as int, i + n) =~= pat@);
    true
}

fn is_word_byte(b: u8) -> (res: bool)
    ensures
        res == is_word(b),
{
    (48 <= b && b <= 57) || (65 <= b && b <= 90) || (97 <= b && b <= 122) || b == 95 || b >= 128
}

fn is_break_byte(rules: &LexRules, b: u8) -> (res: bool)
    ensures
        res == is_break(rules@, b),
{
    is_space_byte(b) || contains_byte(&rules.opens, b) || contains_byte(&rules.closes, b)
        || contains_byte(&rules.quotes, b)
}

fn scan_line(src: &[u8], i: usize) -> (res: usize)
    requires
        i <= src@.len(),
    ensures
        res == line_end(src@, i as int),
{
    let mut j = i;
    while j < src.len() && src[j] != NEWLINE
        invariant
            i <= j <= src@.len(),
            line_end(src@, i as int) == line_end(src@, j as int),
        decreases src@.len() - j,
    {
        j += 1;
    }
    j
}

fn scan_block(src: &[u8], i: usize, close: &Vec<u8>) -> (res: usize)
    requires
        i <= src@.len(),
    ensures
        res == block_end(src@, i as int, close@),
{
    let mut j = i;
    while j < src.len()
        invariant
            i <= j <= src@.len(),
            block_end(src@, i as int, close@) == block_end(src@, j as int, close@),
        decreases src@.len() - j,
    {
        if has_at(src, j, close) {
            return j + close.len();
        }
        j += 1;
    }
    j
}

fn scan_string(src: &[u8], i: usize, quote: u8) -> (res: usize)
    requires
        i <= src@.len(),
    ensures
        res == string_end(src@, i as int, quote),
{
    let mut j = i;
    while j < src.len()
        invariant
            i <= j <= src@.len(),
            string_end(src@, i as int, quote) == string_end(src@, j as int, quote),
        decreases src@.len() - j,
    {
        if src[j] == quote {
            return j + 1;
        }
        if src[j] == BACKSLASH && j + 1 < src.len() {
            j += 2;
        } else {
            j += 1;
        }
    }
    j
}

fn scan_symbol(rules: &LexRules, src: &[u8], i: usize) -> (res: usize)
    requires
        i <= src@.len(),
    ensures
        res == symbol_end(rules@, src@, i as int),
{
    let mut j = i;
    while j < src.len() && !is_break_byte(rules, src[j])
        invariant
            i <= j <= src@.len(),
            symbol_end(rules@, src@, i as int) == symbol_end(rules@, src@, j as int),
        decreases src@.len() - j,
    {
        j += 1;
    }
    j
}

fn scan_word(src: &[u8], i: usize) -> (res: usize)
    requires
        i <= src@.len(),
    ensures
        res == word_end(src@, i as int),
{
    let mut j = i;
    while j < src.len() && is_word_byte(src[j])
        invariant
            i <= j <= src@.len(),
            word_end(src@, i as int) == word_end(src@, j as int),
        decreases src@.len() - j,
    {
        j += 1;
    }
    j
}

/// The token that begins at offset `i`.
fn next_token(rules: &LexRules, src: &[u8], i: usize) -> (t: Token)
    requires
        i < src@.len(),
        !is_space(src@[i as int]),
    ensures
        (t.kind, t.end as int) == token_at(rules@, src@, i as int),
        t.start == i,
        i < t.end <= src@.len(),
{
    proof {
        lemma_token_at_bounds(rules@, src@, i as int);
    }
    let b = src[i];
    if has_at(src, i, &rules.line_comment) {
        Token { kind: TokenKind::Atom(AtomKind::Comment), start: i, end: scan_line(src, i) }
    } else if has_at(src, i, &rules.block_open) {
        let body = i + rules.block_open.len();
        Token {
            kind: TokenKind::Atom(AtomKind::Comment),
            start: i,
            end: scan_block(src, body, &rules.block_close),
        }
    } else if contains_byte(&rules.quotes, b) {
        Token { kind: TokenKind::Atom(AtomKind::StringLike), start: i, end: scan_string(src, i + 1, b) }
    } else if contains_byte(&rules.opens, b) {
        Token { kind: TokenKind::Open, start: i, end: i + 1 }
    } else if contains_byte(&rules.closes, b) {
        Token { kind: TokenKind::Close, start: i, end: i + 1 }
    } else if rules.symbol_atoms {
        Token { kind: TokenKind::Atom(AtomKind::Normal), start: i, end: scan_symbol(rules, src, i + 1) }
    } else if is_word_byte(b) {
        Token { kind: TokenKind::Atom(AtomKind::Normal), start: i, end: scan_word(src, i + 1) }
    } else {
        Token { kind: TokenKind::Atom(AtomKind::Normal), start: i, end: i + 1 }
    }
}

/// Cut `src` into tokens by `rules`.
pub fn tokenize(rules: &LexRules, src: &[u8]) -> (res: Vec<Token>)
    ensures
        res@ == tokens_of(rules@, src@),
        tokens_ok(res@, src@.len() as int),
{
    let mut out: Vec<Token> = Vec::new();
    let mut i: usize = 0;
    while i < src.len()
        invariant
            i <= src@.len(),
            tokens_of(rules@, src@) == out@ + tokens_from(rules@, src@, i as int),
            tokens_ok(out@, src@.len() as int),
            forall|k: int| 0 <= k < out@.len() ==> (#[trigger] out@[k]).end <= i,
        decreases src@.len() - i,
    {
        if is_space_byte(src[i]) {
            i += 1;
        } else {
            let t = next_token(rules, src, i);
            let ghost before = out@;
            out.push(t);
            proof {
                let rest = tokens_from(rules@, src@, t.end as int);
                assert(tokens_from(rules@, src@, i as int) == seq![t] + rest);
                assert(before + (seq![t] + rest) =~= before.push(t) + rest);
            }
            i = t.end;
        }
    }
    assert(out@ + Seq::<Token>::empty() =~= out@);
    out
}

/// Offset `o` lies inside token `t`.
pub open spec fn in_token(t: Token, o: int) -> bool {
    t.start <= o < t.end
}

/// The lexer drops nothing but white space: every other byte of the
/// source, from a token boundary `i` on, lies inside a token.
pub proof fn lemma_tokens_cover(rules: LexView, src: Seq<u8>, i: int, o: int)
    requires
        0 <= i <= o < src.len() <= usize::MAX,
        !is_space(src[o]),
    ensures
        exists|k: int|
            0 <= k < tokens_from(rules, src, i).len() && in_token(
                #[trigger] tokens_from(rules, src, i)[k],
                o,
            ),
    decreases src.len() - i,
{
    if is_space(src[i]) {
        lemma_tokens_cover(rules, src, i + 1, o);
        let k = choose|k: int|
            0 <= k < tokens_from(rules, src, i + 1).len() && in_token(
                #[trigger] tokens_from(rules, src, i + 1)[k],
                o,
            );
        assert(in_token(tokens_from(rules, src, i)[k], o));
    } else {
        lemma_token_at_bounds(rules, src, i);
        let (kind, end) = token_at(rules, src, i);
        let t = Token { kind, start: i as usize, end: end as usize };
        let rest = tokens_from(rules, src, end);
        assert(tokens_from(rules, src, i) == seq![t] + rest);
        if o < end {
            assert(in_token(tokens_from(rules, src, i)[0], o));
        } else {
            lemma_tokens_cover(rules, src, end, o);
            let k = choose|k: int| 0 <= k < rest.len() && in_token(#[trigger] rest[k], o);
            assert(tokens_from(rules, src, i)[k + 1] == rest[k]);
            assert(in_token(tokens_from(rules, src, i)[k + 1], o));
        }
    }
}

} // verus!
