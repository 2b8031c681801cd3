use difftastic::diff_file_content;
use difftastic::diff_file_content_with;
use difftastic::guess_language::Language;
use difftastic::option_types::{
    FileArgument, DEFAULT_BYTE_LIMIT, DEFAULT_GRAPH_LIMIT, DEFAULT_TAB_WIDTH,
};
use difftastic::positions::{MatchKind, MatchedPos, SingleLineSpan};
use difftastic::summary::{DiffResult, FileContent};

fn span(kind: MatchKind, line: usize, start_col: usize, end_col: usize) -> MatchedPos {
    MatchedPos { kind, pos: SingleLineSpan { line, start_col, end_col } }
}

fn diff_as(lhs: &str, rhs: &str, language: Language) -> DiffResult {
    diff_file_content(
        "lhs",
        "rhs",
        &FileArgument::DevNull,
        &FileArgument::DevNull,
        lhs.as_bytes(),
        rhs.as_bytes(),
        DEFAULT_TAB_WIDTH,
        DEFAULT_GRAPH_LIMIT,
        DEFAULT_BYTE_LIMIT,
        Some(language),
    )
}

fn is_ascending(positions: &[MatchedPos]) -> bool {
    positions.windows(2).all(|w| {
        let (p, q) = (w[0].pos, w[1].pos);
        p.line < q.line || (p.line == q.line && p.end_col <= q.start_col)
    })
}

#[test]
fn test_diff_identical_content() {
    let s = "foo";
    let res = diff_file_content(
        "foo.el",
        "foo.el",
        &FileArgument::from_path_argument("foo.el"),
        &FileArgument::from_path_argument("foo.el"),
        s.as_bytes(),
        s.as_bytes(),
        DEFAULT_TAB_WIDTH,
        DEFAULT_GRAPH_LIMIT,
        DEFAULT_BYTE_LIMIT,
        None,
    );

    assert_eq!(res.lhs_positions, vec![]);
    assert_eq!(res.rhs_positions, vec![]);
}

#[test]
fn identical_content_names_the_guessed_language() {
    let res = diff_file_content(
        "foo.el",
        "foo.el",
        &FileArgument::from_path_argument("foo.el"),
        &FileArgument::from_path_argument("foo.el"),
        b"foo",
        b"foo",
        DEFAULT_TAB_WIDTH,
        DEFAULT_GRAPH_LIMIT,
        DEFAULT_BYTE_LIMIT,
        None,
    );
    assert_eq!(res.detected_language, Some(Language::EmacsLisp));
    assert_eq!(res.language, Some("Emacs Lisp".to_string()));
    assert!(matches!(&res.lhs_src, FileContent::Text(t) if t.is_empty()));
    assert!(matches!(&res.rhs_src, FileContent::Text(t) if t.is_empty()));
    assert_eq!(res.lhs_display_path, "foo.el");
    assert_eq!(res.rhs_display_path, "foo.el");
}

#[test]
fn identical_lisp_atom_has_no_positions() {
    let res = diff_as("foo", "foo", Language::CommonLisp);
    assert_eq!(res.lhs_positions, vec![]);
    assert_eq!(res.rhs_positions, vec![]);
}

#[test]
fn changed_atom_in_a_list() {
    let res = diff_as("(a b)", "(a c)", Language::CommonLisp);
    assert_eq!(res.language, Some("Common Lisp".to_string()));
    assert_eq!(
        res.lhs_positions,
        vec![
            span(MatchKind::Unchanged { peer: 0 }, 0, 0, 1),
            span(MatchKind::Unchanged { peer: 1 }, 0, 1, 2),
            span(MatchKind::Novel, 0, 3, 4),
            span(MatchKind::Unchanged { peer: 0 }, 0, 4, 5),
        ]
    );
    assert_eq!(
        res.rhs_positions,
        vec![
            span(MatchKind::Unchanged { peer: 0 }, 0, 0, 1),
            span(MatchKind::Unchanged { peer: 1 }, 0, 1, 2),
            span(MatchKind::Novel, 0, 3, 4),
            span(MatchKind::Unchanged { peer: 0 }, 0, 4, 5),
        ]
    );
}

#[test]
fn prepended_statement_is_the_only_novel_part() {
    let res = diff_as("fn f(){x()}", "fn f(){y();x()}", Language::Rust);
    assert_eq!(res.language, Some("Rust".to_string()));
    assert!(res.lhs_positions.iter().all(|p| p.kind != MatchKind::Novel));
    let novel: Vec<MatchedPos> =
        res.rhs_positions.iter().copied().filter(|p| p.kind == MatchKind::Novel).collect();
    assert_eq!(
        novel,
        vec![
            span(MatchKind::Novel, 0, 7, 8),
            span(MatchKind::Novel, 0, 8, 9),
            span(MatchKind::Novel, 0, 9, 10),
            span(MatchKind::Novel, 0, 10, 11),
        ]
    );
    // `x()` keeps its peers on the left side.
    assert!(res.rhs_positions.contains(&span(MatchKind::Unchanged { peer: 4 }, 0, 11, 12)));
    assert!(res.rhs_positions.contains(&span(MatchKind::Unchanged { peer: 5 }, 0, 12, 13)));
}

#[test]
fn changed_comment_is_a_replaced_comment() {
    let res = diff_as("// old comment\nfoo", "// new comment\nfoo", Language::C);
    assert_eq!(
        res.lhs_positions,
        vec![
            span(MatchKind::ReplacedComment { peer: 0 }, 0, 0, 14),
            span(MatchKind::Unchanged { peer: 1 }, 1, 0, 3),
        ]
    );
    assert_eq!(
        res.rhs_positions,
        vec![
            span(MatchKind::ReplacedComment { peer: 0 }, 0, 0, 14),
            span(MatchKind::Unchanged { peer: 1 }, 1, 0, 3),
        ]
    );
}

#[test]
fn reflowed_comment_is_unchanged() {
    let res = diff_as("// a  comment\nfoo", "//   a comment\nfoo", Language::C);
    assert!(res.lhs_positions.iter().all(|p| matches!(p.kind, MatchKind::Unchanged { .. })));
    assert!(res.rhs_positions.iter().all(|p| matches!(p.kind, MatchKind::Unchanged { .. })));
}

#[test]
fn large_file_falls_back_to_lines() {
    let mut lhs = String::new();
    let mut i = 0;
    while lhs.len() < 2_000_000 {
        lhs.push_str(&format!("line number {}\n", i));
        i += 1;
    }
    let changed = 1234;
    let rhs = lhs.replacen("line number 1234\n", "LINE NUMBER 1234!\n", 1);
    let res = diff_file_content(
        "big.txt",
        "big.txt",
        &FileArgument::from_path_argument("big.txt"),
        &FileArgument::from_path_argument("big.txt"),
        lhs.as_bytes(),
        rhs.as_bytes(),
        DEFAULT_TAB_WIDTH,
        DEFAULT_GRAPH_LIMIT,
        1_000_000,
        None,
    );
    let name = res.language.clone().unwrap();
    assert!(name.contains("exceeded"));
    assert_eq!(name, "Text (exceeded DFT_BYTE_LIMIT)");
    assert_eq!(res.lhs_positions, vec![span(MatchKind::Novel, changed, 0, 16)]);
    assert_eq!(res.rhs_positions, vec![span(MatchKind::Novel, changed, 0, 17)]);
}

#[test]
fn byte_limit_counts_the_bytes_as_given() {
    let res = diff_file_content(
        "a.rs",
        "a.rs",
        &FileArgument::from_path_argument("a.rs"),
        &FileArgument::from_path_argument("a.rs"),
        b"abcd",
        b"abce",
        DEFAULT_TAB_WIDTH,
        DEFAULT_GRAPH_LIMIT,
        3,
        None,
    );
    assert_eq!(res.language, Some("Text (exceeded DFT_BYTE_LIMIT)".to_string()));
    assert_eq!(res.detected_language, Some(Language::Rust));
    let res = diff_file_content(
        "a.rs",
        "a.rs",
        &FileArgument::from_path_argument("a.rs"),
        &FileArgument::from_path_argument("a.rs"),
        b"abcd",
        b"abce",
        DEFAULT_TAB_WIDTH,
        DEFAULT_GRAPH_LIMIT,
        4,
        None,
    );
    assert_eq!(res.language, Some("Rust".to_string()));
}

#[test]
fn unbalanced_json_does_not_fail() {
    let res = diff_as("{{{", "{{{{", Language::Json);
    assert_eq!(res.language, Some("JSON".to_string()));
    assert!(res.lhs_positions.iter().all(|p| p.kind != MatchKind::Novel));
    let novel: Vec<MatchedPos> =
        res.rhs_positions.iter().copied().filter(|p| p.kind == MatchKind::Novel).collect();
    assert_eq!(novel, vec![span(MatchKind::Novel, 0, 3, 4)]);
    assert!(is_ascending(&res.lhs_positions));
    assert!(is_ascending(&res.rhs_positions));
}

#[test]
fn binary_input_is_handed_back() {
    let lhs = [1u8, 2, 0, 3];
    let rhs = b"text";
    let res = diff_file_content(
        "a.rs",
        "b.rs",
        &FileArgument::from_path_argument("a.rs"),
        &FileArgument::from_path_argument("b.rs"),
        &lhs,
        rhs,
        DEFAULT_TAB_WIDTH,
        DEFAULT_GRAPH_LIMIT,
        DEFAULT_BYTE_LIMIT,
        None,
    );
    assert_eq!(res.language, None);
    assert_eq!(res.detected_language, None);
    assert!(matches!(&res.lhs_src, FileContent::Binary(b) if b == &lhs.to_vec()));
    assert!(matches!(&res.rhs_src, FileContent::Binary(b) if b == &rhs.to_vec()));
    assert!(res.lhs_positions.is_empty());
    assert!(res.rhs_positions.is_empty());
}

#[test]
fn nul_byte_beyond_the_probe_is_text() {
    let mut lhs = vec![b'a'; 1024];
    lhs.push(0);
    let mut rhs = vec![b'a'; 1024];
    rhs.push(b'b');
    let res = diff_file_content(
        "a",
        "b",
        &FileArgument::DevNull,
        &FileArgument::DevNull,
        &lhs,
        &rhs,
        DEFAULT_TAB_WIDTH,
        DEFAULT_GRAPH_LIMIT,
        DEFAULT_BYTE_LIMIT,
        None,
    );
    assert!(matches!(&res.lhs_src, FileContent::Text(_)));
    let mut at_edge = vec![b'a'; 1023];
    at_edge.push(0);
    let res = diff_file_content(
        "a",
        "b",
        &FileArgument::DevNull,
        &FileArgument::DevNull,
        &at_edge,
        &rhs,
        DEFAULT_TAB_WIDTH,
        DEFAULT_GRAPH_LIMIT,
        DEFAULT_BYTE_LIMIT,
        None,
    );
    assert!(matches!(&res.lhs_src, FileContent::Binary(_)));
}

#[test]
fn unknown_language_is_compared_by_lines() {
    let res = diff_file_content(
        "notes.txt",
        "notes.txt",
        &FileArgument::from_path_argument("notes.txt"),
        &FileArgument::from_path_argument("notes.txt"),
        b"one\ntwo\nthree\n",
        b"one\n2\nthree\nfour\n",
        DEFAULT_TAB_WIDTH,
        DEFAULT_GRAPH_LIMIT,
        DEFAULT_BYTE_LIMIT,
        None,
    );
    assert_eq!(res.language, None);
    assert_eq!(res.detected_language, None);
    assert_eq!(res.lhs_positions, vec![span(MatchKind::Novel, 1, 0, 3)]);
    assert_eq!(
        res.rhs_positions,
        vec![span(MatchKind::Novel, 1, 0, 1), span(MatchKind::Novel, 3, 0, 4)]
    );
    assert!(matches!(&res.lhs_src, FileContent::Text(t) if t == b"one\ntwo\nthree"));
    assert!(matches!(&res.rhs_src, FileContent::Text(t) if t == b"one\n2\nthree\nfour"));
}

#[test]
fn tabs_are_replaced_before_columns_are_counted() {
    let res = diff_file_content(
        "a.c",
        "a.c",
        &FileArgument::from_path_argument("a.c"),
        &FileArgument::from_path_argument("a.c"),
        b"\tx\n",
        b"\ty\n",
        4,
        DEFAULT_GRAPH_LIMIT,
        DEFAULT_BYTE_LIMIT,
        None,
    );
    assert!(matches!(&res.lhs_src, FileContent::Text(t) if t == b"    x"));
    assert_eq!(res.lhs_positions, vec![span(MatchKind::Novel, 0, 4, 5)]);
    assert_eq!(res.rhs_positions, vec![span(MatchKind::Novel, 0, 4, 5)]);
}

#[test]
fn language_is_guessed_from_the_right_name() {
    let res = diff_file_content(
        "old.py",
        "new.rs",
        &FileArgument::from_path_argument("old.py"),
        &FileArgument::from_path_argument("new.rs"),
        b"a",
        b"b",
        DEFAULT_TAB_WIDTH,
        DEFAULT_GRAPH_LIMIT,
        DEFAULT_BYTE_LIMIT,
        None,
    );
    assert_eq!(res.detected_language, Some(Language::Rust));
    let res = diff_file_content(
        "old.py",
        "new.rs",
        &FileArgument::from_path_argument("old.py"),
        &FileArgument::Stdin,
        b"a",
        b"b",
        DEFAULT_TAB_WIDTH,
        DEFAULT_GRAPH_LIMIT,
        DEFAULT_BYTE_LIMIT,
        None,
    );
    assert_eq!(res.detected_language, Some(Language::Python));
    let res = diff_file_content(
        "old.py",
        "new.rs",
        &FileArgument::from_path_argument("old.py"),
        &FileArgument::DevNull,
        b"a",
        b"b",
        DEFAULT_TAB_WIDTH,
        DEFAULT_GRAPH_LIMIT,
        DEFAULT_BYTE_LIMIT,
        Some(Language::Json),
    );
    assert_eq!(res.detected_language, Some(Language::Json));
}

#[test]
fn exceeded_graph_limit_falls_back_to_lines() {
    let res = diff_file_content(
        "a.lisp",
        "a.lisp",
        &FileArgument::from_path_argument("a.lisp"),
        &FileArgument::from_path_argument("a.lisp"),
        b"(a b)",
        b"(a c)",
        DEFAULT_TAB_WIDTH,
        1,
        DEFAULT_BYTE_LIMIT,
        None,
    );
    assert_eq!(res.language, Some("Text (exceeded DFT_GRAPH_LIMIT)".to_string()));
    assert_eq!(res.detected_language, Some(Language::CommonLisp));
    assert_eq!(res.lhs_positions, vec![span(MatchKind::Novel, 0, 0, 5)]);
    assert_eq!(res.rhs_positions, vec![span(MatchKind::Novel, 0, 0, 5)]);
}

#[test]
fn raising_the_graph_limit_keeps_a_successful_result() {
    let lhs = b"(defun f (x) (+ x 1))\n(defun g (y) (* y 2))\n";
    let rhs = b"(defun f (x) (+ x 2))\n(defun h (y) (* y 2) (print y))\n";
    let run = |limit: usize| {
        diff_file_content(
            "a.el",
            "a.el",
            &FileArgument::from_path_argument("a.el"),
            &FileArgument::from_path_argument("a.el"),
            lhs,
            rhs,
            DEFAULT_TAB_WIDTH,
            limit,
            DEFAULT_BYTE_LIMIT,
            None,
        )
    };
    let small = run(1);
    assert_eq!(small.language, Some("Text (exceeded DFT_GRAPH_LIMIT)".to_string()));
    let enough = run(1000);
    assert_eq!(enough.language, Some("Emacs Lisp".to_string()));
    let more = run(DEFAULT_GRAPH_LIMIT);
    assert_eq!(more.language, enough.language);
    assert_eq!(more.lhs_positions, enough.lhs_positions);
    assert_eq!(more.rhs_positions, enough.rhs_positions);
}

#[test]
fn the_same_input_gives_the_same_positions() {
    let lhs = b"fn main() {\n    let x = 1;\n    println!(\"{}\", x);\n}\n";
    let rhs = b"fn main() {\n    let y = 1;\n    let x = y;\n    println!(\"{}\", x);\n}\n";
    let first = diff_as(
        std::str::from_utf8(lhs).unwrap(),
        std::str::from_utf8(rhs).unwrap(),
        Language::Rust,
    );
    let second = diff_as(
        std::str::from_utf8(lhs).unwrap(),
        std::str::from_utf8(rhs).unwrap(),
        Language::Rust,
    );
    assert_eq!(first.lhs_positions, second.lhs_positions);
    assert_eq!(first.rhs_positions, second.rhs_positions);
    assert!(first.rhs_positions.iter().any(|p| p.kind == MatchKind::Novel));
}

#[test]
fn positions_ascend_on_both_sides() {
    let lhs = "(a\n  (b c) ; note\n  \"two\nlines\" d)\n(e)";
    let rhs = "(a\n  (b x c)\n  \"two\nlines!\" d)\n(f e)";
    let res = diff_as(lhs, rhs, Language::Clojure);
    assert!(!res.lhs_positions.is_empty());
    assert!(is_ascending(&res.lhs_positions));
    assert!(is_ascending(&res.rhs_positions));
    assert!(res.lhs_positions.iter().all(|p| p.pos.start_col <= p.pos.end_col));
}

#[test]
fn a_string_over_two_lines_has_a_span_on_each() {
    let res = diff_as("\"ab\ncd\"", "x", Language::Python);
    assert_eq!(
        res.lhs_positions,
        vec![span(MatchKind::Novel, 0, 0, 3), span(MatchKind::Novel, 1, 0, 3)]
    );
}

#[test]
fn keeping_unchanged_nodes_searches_the_whole_trees() {
    let trimmed = diff_as("(a b)", "(a c)", Language::CommonLisp);
    let whole = diff_file_content_with(
        "lhs",
        "rhs",
        &FileArgument::DevNull,
        &FileArgument::DevNull,
        b"(a b)",
        b"(a c)",
        DEFAULT_TAB_WIDTH,
        DEFAULT_GRAPH_LIMIT,
        DEFAULT_BYTE_LIMIT,
        Some(Language::CommonLisp),
        true,
    );
    assert_eq!(whole.lhs_positions, trimmed.lhs_positions);
    assert_eq!(whole.rhs_positions, trimmed.rhs_positions);
}

#[test]
fn matched_node_with_equal_content_is_not_novel() {
    // Every node of the left side has an equal peer on the right side.
    let res = diff_as("(a b) c", "(x) (a b) c (y)", Language::CommonLisp);
    assert!(res.lhs_positions.iter().all(|p| matches!(p.kind, MatchKind::Unchanged { .. })));
    let novel: Vec<MatchedPos> =
        res.rhs_positions.iter().copied().filter(|p| p.kind == MatchKind::Novel).collect();
    assert_eq!(
        novel,
        vec![
            span(MatchKind::Novel, 0, 0, 1),
            span(MatchKind::Novel, 0, 1, 2),
            span(MatchKind::Novel, 0, 2, 3),
            span(MatchKind::Novel, 0, 12, 13),
            span(MatchKind::Novel, 0, 13, 14),
            span(MatchKind::Novel, 0, 14, 15),
        ]
    );
}
