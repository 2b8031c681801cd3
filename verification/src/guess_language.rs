//! The languages that the built-in lexer knows, how a language is guessed
//! from a file name, and the parser proper: lexer and adapter in a row.

use vstd::prelude::*;
use vstd::slice::slice_subrange;
use vstd::utf8::encode_utf8;
use crate::lexer::{LexRules, LexView, tokenize, tokens_of, lemma_tokens_cover, in_token};
use crate::parse::{syntax_from_tokens, token_placed, token_at_node, tree_of_tokens};
use crate::syntax::{Syntax, is_space, offsets_ok, NodeView};
use crate::text::bytes_eq;

verus! {

/// A language whose files can be compared by syntax.
#[derive(Debug, Copy, Clone, PartialEq, Eq, Structural)]
pub enum Language {
    C,
    CPlusPlus,
    Clojure,
    CommonLisp,
    EmacsLisp,
    Go,
    Html,
    Java,
    JavaScript,
    Json,
    Python,
    Rust,
}

/// The name of a language as shown to people.
pub open spec fn language_name_spec(language: Language) -> Seq<char> {
    match language {
        Language::C => "C"@,
        Language::CPlusPlus => "C++"@,
        Language::Clojure => "Clojure"@,
        Language::CommonLisp => "Common Lisp"@,
        Language::EmacsLisp => "Emacs Lisp"@,
        Language::Go => "Go"@,
        Language::Html => "HTML"@,
        Language::Java => "Java"@,
        Language::JavaScript => "JavaScript"@,
        Language::Json => "JSON"@,
        Language::Python => "Python"@,
        Language::Rust => "Rust"@,
    }
}

/// The name of a language as shown to people.
pub fn language_name(language: Language) -> (res: &'static str)
    ensures
        res@ == language_name_spec(language),
{
    match language {
        Language::C => "C",
        Language::CPlusPlus => "C++",
        Language::Clojure => "Clojure",
        Language::CommonLisp => "Common Lisp",
        Language::EmacsLisp => "Emacs Lisp",
        Language::Go => "Go",
        Language::Html => "HTML",
        Language::Java => "Java",
        Language::JavaScript => "JavaScript",
        Language::Json => "JSON",
        Language::Python => "Python",
        Language::Rust => "Rust",
    }
}

/// The byte that separates a file name from its extension.
pub const DOT: u8 = 46;

/// The byte that separates the parts of a path.
pub const SLASH: u8 = 47;

/// Where the extension of a file name begins, looking back from offset
/// `i`: just after the last dot that comes behind the last slash.
pub open spec fn extension_start(path: Seq<u8>, i: int) -> Option<int>
    decreases i,
{
    if i <= 0 {
        None
    } else if path[i - 1] == DOT {
        Some(i)
    } else if path[i - 1] == SLASH {
        None
    } else {
        extension_start(path, i - 1)
    }
}

/// The language that files with the extension `ext` are written in.
pub open spec fn language_of_extension(ext: Seq<u8>) -> Option<Language> {
    if ext == encode_utf8("c"@) || ext == encode_utf8("h"@) {
        Some(Language::C)
    } else if ext == encode_utf8("cc"@) || ext == encode_utf8("cpp"@) || ext == encode_utf8("hpp"@)
        || ext == encode_utf8("cxx"@) {
        Some(Language::CPlusPlus)
    } else if ext == encode_utf8("clj"@) || ext == encode_utf8("cljs"@) || ext == encode_utf8(
        "edn"@,
    ) {
        Some(Language::Clojure)
    } else if ext == encode_utf8("lisp"@) || ext == encode_utf8("lsp"@) || ext == encode_utf8(
        "asd"@,
    ) {
        Some(Language::CommonLisp)
    } else if ext == encode_utf8("el"@) {
        Some(Language::EmacsLisp)
    } else if ext == encode_utf8("go"@) {
        Some(Language::Go)
    } else if ext == encode_utf8("html"@) || ext == encode_utf8("htm"@) || ext == encode_utf8(
        "xhtml"@,
    ) {
        Some(Language::Html)
    } else if ext == encode_utf8("java"@) {
        Some(Language::Java)
    } else if ext == encode_utf8("js"@) || ext == encode_utf8("mjs"@) || ext == encode_utf8(
        "cjs"@,
    ) {
        Some(Language::JavaScript)
    } else if ext == encode_utf8("json"@) {
        Some(Language::Json)
    } else if ext == encode_utf8("py"@) || ext == encode_utf8("pyi"@) {
        Some(Language::Python)
    } else if ext == encode_utf8("rs"@) {
        Some(Language::Rust)
    } else {
        None
    }
}

/// The language guessed for a file of the given name.
pub open spec fn guess_spec(path: Seq<u8>) -> Option<Language> {
    match extension_start(path, path.len() as int) {
        Some(start) => language_of_extension(path.subrange(start, path.len() as int)),
        None => None,
    }
}

fn ext_is(ext: &[u8], name: &str) -> (res: bool)
    ensures
        res == (ext@ == encode_utf8(name@)),
{
    bytes_eq(ext, name.as_bytes())
}

fn language_for_extension(ext: &[u8]) -> (res: Option<Language>)
    ensures
        res == language_of_extension(ext@),
{
    if ext_is(ext, "c") || ext_is(ext, "h") {
        Some(Language::C)
    } else if ext_is(ext, "cc") || ext_is(ext, "cpp") || ext_is(ext, "hpp") || ext_is(ext, "cxx") {
        Some(Language::CPlusPlus)
    } else if ext_is(ext, "clj") || ext_is(ext, "cljs") || ext_is(ext, "edn") {
        Some(Language::Clojure)
    } else if ext_is(ext, "lisp") || ext_is(ext, "lsp") || ext_is(ext, "asd") {
        Some(Language::CommonLisp)
    } else if ext_is(ext, "el") {
        Some(Language::EmacsLisp)
    } else if ext_is(ext, "go") {
        Some(Language::Go)
    } else if ext_is(ext, "html") || ext_is(ext, "htm") || ext_is(ext, "xhtml") {
        Some(Language::Html)
    } else if ext_is(ext, "java") {
        Some(Language::Java)
    } else if ext_is(ext, "js") || ext_is(ext, "mjs") || ext_is(ext, "cjs") {
        Some(Language::JavaScript)
    } else if ext_is(ext, "json") {
        Some(Language::Json)
    } else if ext_is(ext, "py") || ext_is(ext, "pyi") {
        Some(Language::Python)
    } else if ext_is(ext, "rs") {
        Some(Language::Rust)
    } else {
        None
    }
}

fn find_extension(bytes: &[u8]) -> (res: Option<usize>)
    ensures
        match res {
            Some(start) => start <= bytes@.len() && extension_start(
                bytes@,
                bytes@.len() as int,
            ) == Some(start as int),
            None => extension_start(bytes@, bytes@.len() as int) is None,
        },
{
    let n = bytes.len();
    let mut i: usize = n;
    while i > 0
        invariant
            i <= n,
            n == bytes@.len(),
            extension_start(bytes@, n as int) == extension_start(bytes@, i as int),
        decreases i,
    {
        let b = bytes[i - 1];
        if b == DOT {
            return Some(i);
        }
        if b == SLASH {
            return None;
        }
        i -= 1;
    }
    None
}

/// Guess the language of a file from the extension of its name. Nothing
/// is read but the name.
pub fn guess(path: &str) -> (res: Option<Language>)
    ensures
        res == guess_spec(encode_utf8(path@)),
{
    let bytes = path.as_bytes();
    match find_extension(bytes) {
        Some(start) => language_for_extension(slice_subrange(bytes, start, bytes.len())),
        None => None,
    }
}

/// The lexical rules of each language.
pub open spec fn lang_rules(language: Language) -> LexView {
    match language {
        Language::Clojure | Language::CommonLisp | Language::EmacsLisp => LexView {
            line_comment: seq![59u8],
            block_open: seq![],
            block_close: seq![],
            quotes: seq![34u8],
            opens: seq![40u8, 91u8, 123u8],
            closes: seq![41u8, 93u8, 125u8],
            symbol_atoms: true,
        },
        Language::C | Language::CPlusPlus | Language::Java => LexView {
            line_comment: seq![47u8, 47u8],
            block_open: seq![47u8, 42u8],
            block_close: seq![42u8, 47u8],
            quotes: seq![34u8, 39u8],
            opens: seq![40u8, 91u8, 123u8],
            closes: seq![41u8, 93u8, 125u8],
            symbol_atoms: false,
        },
        Language::Go | Language::JavaScript => LexView {
            line_comment: seq![47u8, 47u8],
            block_open: seq![47u8, 42u8],
            block_close: seq![42u8, 47u8],
            quotes: seq![34u8, 39u8, 96u8],
            opens: seq![40u8, 91u8, 123u8],
            closes: seq![41u8, 93u8, 125u8],
            symbol_atoms: false,
        },
        Language::Rust => LexView {
            line_comment: seq![47u8, 47u8],
            block_open: seq![47u8, 42u8],
            block_close: seq![42u8, 47u8],
            quotes: seq![34u8],
            opens: seq![40u8, 91u8, 123u8],
            closes: seq![41u8, 93u8, 125u8],
            symbol_atoms: false,
        },
        Language::Json => LexView {
            line_comment: seq![],
            block_open: seq![],
            block_close: seq![],
            quotes: seq![34u8],
            opens: seq![91u8, 123u8],
            closes: seq![93u8, 125u8],
            symbol_atoms: false,
        },
        Language::Python => LexView {
            line_comment: seq![35u8],
            block_open: seq![],
            block_close: seq![],
            quotes: seq![34u8, 39u8],
            opens: seq![40u8, 91u8, 123u8],
            closes: seq![41u8, 93u8, 125u8],
            symbol_atoms: false,
        },
        Language::Html => LexView {
            line_comment: seq![],
            block_open: seq![60u8, 33u8, 45u8, 45u8],
            block_close: seq![45u8, 45u8, 62u8],
            quotes: seq![34u8],
            opens: seq![60u8],
            closes: seq![62u8],
            symbol_atoms: false,
        },
    }
}

/// The lexical rules of `language`.
pub fn rules_for(language: Language) -> (res: LexRules)
    ensures
        res@ =~= lang_rules(language),
{
    let res = match language {
        Language::Clojure | Language::CommonLisp | Language::EmacsLisp => LexRules {
            line_comment: vec![59u8],
            block_open: vec![],
            block_close: vec![],
            quotes: vec![34u8],
            opens: vec![40u8, 91u8, 123u8],
            closes: vec![41u8, 93u8, 125u8],
            symbol_atoms: true,
        },
        Language::C | Language::CPlusPlus | Language::Java => LexRules {
            line_comment: vec![47u8, 47u8],
            block_open: vec![47u8, 42u8],
            block_close: vec![42u8, 47u8],
            quotes: vec![34u8, 39u8],
            opens: vec![40u8, 91u8, 123u8],
            closes: vec![41u8, 93u8, 125u8],
            symbol_atoms: false,
        },
        Language::Go | Language::JavaScript => LexRules {
            line_comment: vec![47u8, 47u8],
            block_open: vec![47u8, 42u8],
            block_close: vec![42u8, 47u8],
            quotes: vec![34u8, 39u8, 96u8],
            opens: vec![40u8, 91u8, 123u8],
            closes: vec![41u8, 93u8, 125u8],
            symbol_atoms: false,
        },
        Language::Rust => LexRules {
            line_comment: vec![47u8, 47u8],
            block_open: vec![47u8, 42u8],
            block_close: vec![42u8, 47u8],
            quotes: vec![34u8],
            opens: vec![40u8, 91u8, 123u8],
            closes: vec![41u8, 93u8, 125u8],
            symbol_atoms: false,
        },
        Language::Json => LexRules {
            line_comment: vec![],
            block_open: vec![],
            block_close: vec![],
            quotes: vec![34u8],
            opens: vec![91u8, 123u8],
            closes: vec![93u8, 125u8],
            symbol_atoms: false,
        },
        Language::Python => LexRules {
            line_comment: vec![35u8],
            block_open: vec![],
            block_close: vec![],
            quotes: vec![34u8, 39u8],
            opens: vec![40u8, 91u8, 123u8],
            closes: vec![41u8, 93u8, 125u8],
            symbol_atoms: false,
        },
        Language::Html => LexRules {
            line_comment: vec![],
            block_open: vec![60u8, 33u8, 45u8, 45u8],
            block_close: vec![45u8, 45u8, 62u8],
            quotes: vec![34u8],
            opens: vec![60u8],
            closes: vec![62u8],
            symbol_atoms: false,
        },
    };
    assert(res@.line_comment =~= lang_rules(language).line_comment);
    assert(res@.block_open =~= lang_rules(language).block_open);
    assert(res@.block_close =~= lang_rules(language).block_close);
    assert(res@.quotes =~= lang_rules(language).quotes);
    assert(res@.opens =~= lang_rules(language).opens);
    assert(res@.closes =~= lang_rules(language).closes);
    res
}

/// Offset `o` of the source lies inside the text or the closing delimiter
/// of node `n`.
pub open spec fn in_node(n: NodeView, o: int) -> bool {
    ||| n.start <= o < n.start + n.text.len()
    ||| n.close_start <= o < n.close_start + n.close.len()
}

/// Every byte of the source that is no white space belongs to a node.
pub open spec fn source_covered(nodes: Seq<NodeView>, src: Seq<u8>) -> bool {
    forall|o: int|
        0 <= o < src.len() && !is_space(#[trigger] src[o]) ==> exists|i: int|
            0 <= i < nodes.len() && in_node(#[trigger] nodes[i], o)
}

/// The byte that node `n` holds for offset `o` of the source.
pub open spec fn node_byte(n: NodeView, o: int) -> u8 {
    if n.start <= o < n.start + n.text.len() {
        n.text[o - n.start]
    } else {
        n.close[o - n.close_start]
    }
}

/// The byte at offset `o` as the tree tells it: the byte of the node that
/// stands there, or a space where none does.
pub open spec fn byte_of_tree(nodes: Seq<NodeView>, o: int) -> u8 {
    if exists|i: int| 0 <= i < nodes.len() && in_node(#[trigger] nodes[i], o) {
        node_byte(nodes[choose|i: int| 0 <= i < nodes.len() && in_node(#[trigger] nodes[i], o)], o)
    } else {
        32u8
    }
}

/// The source as the tree tells it: the text of every node at the node's
/// place, and spaces in between.
pub open spec fn source_of(nodes: Seq<NodeView>, len: nat) -> Seq<u8> {
    Seq::new(len, |o: int| byte_of_tree(nodes, o))
}

/// The only white space in the source is the space.
pub open spec fn only_spaces(src: Seq<u8>) -> bool {
    forall|o: int| 0 <= o < src.len() && is_space(#[trigger] src[o]) ==> src[o] == 32u8
}

/// The tree gives back the source, byte for byte, but for the white
/// space between the nodes, which it gives back as spaces.
pub open spec fn round_trip(nodes: Seq<NodeView>, src: Seq<u8>) -> bool {
    forall|o: int|
        0 <= o < src.len() ==> {
            ||| #[trigger] source_of(nodes, src.len())[o] == src[o]
            ||| is_space(src[o]) && source_of(nodes, src.len())[o] == 32u8
        }
}

/// A tree whose nodes hold the bytes of the source, and between whose
/// nodes there is only white space, gives back the source.
pub proof fn lemma_round_trip(nodes: Seq<NodeView>, src: Seq<u8>)
    requires
        offsets_ok(nodes, src),
        source_covered(nodes, src),
    ensures
        round_trip(nodes, src),
        only_spaces(src) ==> source_of(nodes, src.len()) == src,
{
    assert forall|o: int| 0 <= o < src.len() implies {
        ||| #[trigger] source_of(nodes, src.len())[o] == src[o]
        ||| is_space(src[o]) && source_of(nodes, src.len())[o] == 32u8
    } by {
        if exists|i: int| 0 <= i < nodes.len() && in_node(#[trigger] nodes[i], o) {
            let i = choose|i: int| 0 <= i < nodes.len() && in_node(#[trigger] nodes[i], o);
            assert(crate::syntax::node_in_source(nodes[i], src));
        }
    }
    if only_spaces(src) {
        assert(source_of(nodes, src.len()) =~= src);
    }
}

/// The syntax tree of a file of the given language: the tree that the
/// tokens of the file stand for.
pub open spec fn parse_spec(src: Seq<u8>, language: Language) -> Seq<NodeView> {
    tree_of_tokens(src, tokens_of(lang_rules(language), src))
}

/// Parse a file of the given language into its syntax tree.
///
/// The tree holds every token that the lexer finds, the text of each node
/// is the bytes of the source at the node's offsets, and what lies
/// between the nodes is white space only: the tree and the white space
/// together are the source.
pub fn parse(src: &[u8], language: Language) -> (res: Syntax)
    ensures
        res@ == parse_spec(src@, language),
        res.wf(),
        offsets_ok(res@, src@),
        forall|k: int|
            0 <= k < tokens_of(lang_rules(language), src@).len() ==> token_placed(
                res@,
                #[trigger] tokens_of(lang_rules(language), src@)[k],
            ),
        source_covered(res@, src@),
        round_trip(res@, src@),
        only_spaces(src@) ==> source_of(res@, src@.len()) == src@,
{
    let rules = rules_for(language);
    let tokens = tokenize(&rules, src);
    let res = syntax_from_tokens(src, &tokens);
    let len = src.len();
    proof {
        assert(rules@ == lang_rules(language));
        let toks = tokens_of(lang_rules(language), src@);
        assert forall|o: int| 0 <= o < src@.len() && !is_space(#[trigger] src@[o]) implies exists|
            i: int,
        | 0 <= i < res@.len() && in_node(#[trigger] res@[i], o) by {
            lemma_tokens_cover(lang_rules(language), src@, 0, o);
            let k = choose|k: int| 0 <= k < toks.len() && in_token(#[trigger] toks[k], o);
            assert(token_placed(res@, toks[k]));
            let i = choose|i: int|
                0 <= i < res@.len() && token_at_node(#[trigger] res@[i], toks[k]);
            assert(in_node(res@[i], o));
        }
        lemma_round_trip(res@, src@);
    }
    res
}

} // verus!
