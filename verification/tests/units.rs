use difftastic::changes::{ChangeKind, ChangeMap};
use difftastic::dijkstra::{mark_syntax, shortest_route, ExceededGraphLimit};
use difftastic::graph::{neighbours, EdgeKind, Section, Vertex};
use difftastic::guess_language::{guess, language_name, parse, rules_for, Language};
use difftastic::lexer::tokenize;
use difftastic::line_parser::change_positions as line_positions;
use difftastic::option_types::{
    BackgroundColor, DisplayMode, DisplayOptions, FileArgument, DEFAULT_GRAPH_LIMIT,
};
use difftastic::parse::{syntax_from_tokens, Token, TokenKind};
use difftastic::positions::{MatchKind, MatchedPos, SingleLineSpan};
use difftastic::projection::change_positions;
use difftastic::sliders::{fix_all_sliders, fix_sliders, Side};
use difftastic::summary::{diff_report, DiffResult, FileContent, Report, Verdict};
use difftastic::syntax::{init_all_info, normalise, AtomKind, NodeKind, Syntax};
use difftastic::text::{guess_content, replace_tabs, strip_trailing_newline, ProbableFileKind};
use difftastic::unchanged::mark_unchanged;
use difftastic::{diff_file_content, diff_syntax};

fn novel(line: usize, start_col: usize, end_col: usize) -> MatchedPos {
    MatchedPos { kind: MatchKind::Novel, pos: SingleLineSpan { line, start_col, end_col } }
}

fn token(kind: TokenKind, start: usize, end: usize) -> Token {
    Token { kind, start, end }
}

#[test]
fn file_argument_from_cli_argument() {
    assert!(matches!(FileArgument::from_cli_argument("/dev/null"), FileArgument::DevNull));
    assert!(matches!(FileArgument::from_cli_argument("-"), FileArgument::Stdin));
    assert!(
        matches!(FileArgument::from_cli_argument("src/a.rs"), FileArgument::NamedPath(p) if p == "src/a.rs")
    );
    assert!(
        matches!(FileArgument::from_cli_argument("/dev/null2"), FileArgument::NamedPath(p) if p == "/dev/null2")
    );
}

#[test]
fn file_argument_from_path_argument_is_always_a_path() {
    assert!(matches!(FileArgument::from_path_argument("-"), FileArgument::NamedPath(p) if p == "-"));
    assert!(
        matches!(FileArgument::from_path_argument("/dev/null"), FileArgument::NamedPath(p) if p == "/dev/null")
    );
}

#[test]
fn file_argument_display() {
    assert_eq!(FileArgument::NamedPath("a/b.rs".to_string()).display(), "a/b.rs");
    assert_eq!(FileArgument::Stdin.display(), "(stdin)");
    assert_eq!(FileArgument::DevNull.display(), "/dev/null");
}

#[test]
fn replace_tabs_by_spaces() {
    assert_eq!(replace_tabs(b"a\tb\t", 2), b"a  b  ".to_vec());
    assert_eq!(replace_tabs(b"\t", 8), b"        ".to_vec());
    assert_eq!(replace_tabs(b"a\tb", 0), b"ab".to_vec());
    assert_eq!(replace_tabs(b"no tabs", 4), b"no tabs".to_vec());
    assert_eq!(replace_tabs(b"", 4), Vec::<u8>::new());
}

#[test]
fn strip_one_trailing_newline() {
    assert_eq!(strip_trailing_newline(b"a\n".to_vec()), b"a".to_vec());
    assert_eq!(strip_trailing_newline(b"a\n\n".to_vec()), b"a\n".to_vec());
    assert_eq!(strip_trailing_newline(b"a".to_vec()), b"a".to_vec());
    assert_eq!(strip_trailing_newline(Vec::new()), Vec::<u8>::new());
}

#[test]
fn guess_content_looks_for_nul() {
    assert!(matches!(guess_content(b"hello"), ProbableFileKind::Text(t) if t == b"hello"));
    assert!(matches!(guess_content(b"he\0llo"), ProbableFileKind::Binary));
    assert!(matches!(guess_content(b""), ProbableFileKind::Text(t) if t.is_empty()));
}

#[test]
fn guess_language_by_extension() {
    assert_eq!(guess("foo.el"), Some(Language::EmacsLisp));
    assert_eq!(guess("src/main.rs"), Some(Language::Rust));
    assert_eq!(guess("a.b/c.json"), Some(Language::Json));
    assert_eq!(guess("x.h"), Some(Language::C));
    assert_eq!(guess("x.hpp"), Some(Language::CPlusPlus));
    assert_eq!(guess("x.cljs"), Some(Language::Clojure));
    assert_eq!(guess("x.lisp"), Some(Language::CommonLisp));
    assert_eq!(guess("x.go"), Some(Language::Go));
    assert_eq!(guess("x.htm"), Some(Language::Html));
    assert_eq!(guess("x.java"), Some(Language::Java));
    assert_eq!(guess("x.mjs"), Some(Language::JavaScript));
    assert_eq!(guess("x.py"), Some(Language::Python));
    assert_eq!(guess("x.txt"), None);
    assert_eq!(guess("rs"), None);
    assert_eq!(guess("a.rs/b"), None);
    assert_eq!(guess(""), None);
    assert_eq!(guess("x."), None);
}

#[test]
fn language_names() {
    assert_eq!(language_name(Language::CPlusPlus), "C++");
    assert_eq!(language_name(Language::EmacsLisp), "Emacs Lisp");
    assert_eq!(language_name(Language::Json), "JSON");
    assert_eq!(language_name(Language::Html), "HTML");
}

#[test]
fn normalise_collapses_white_space() {
    assert_eq!(normalise(b"  a   b\n\tc  "), b"a b c".to_vec());
    assert_eq!(normalise(b"abc"), b"abc".to_vec());
    assert_eq!(normalise(b"   "), Vec::<u8>::new());
    assert_eq!(normalise(b""), Vec::<u8>::new());
}

#[test]
fn tokenize_lisp() {
    let src = b"(foo \"a b\" ; note\n [x])";
    let tokens = tokenize(&rules_for(Language::EmacsLisp), src);
    assert_eq!(
        tokens,
        vec![
            token(TokenKind::Open, 0, 1),
            token(TokenKind::Atom(AtomKind::Normal), 1, 4),
            token(TokenKind::Atom(AtomKind::StringLike), 5, 10),
            token(TokenKind::Atom(AtomKind::Comment), 11, 17),
            token(TokenKind::Open, 19, 20),
            token(TokenKind::Atom(AtomKind::Normal), 20, 21),
            token(TokenKind::Close, 21, 22),
            token(TokenKind::Close, 22, 23),
        ]
    );
}

#[test]
fn tokenize_c_like() {
    let src = b"a+=b_1; /* c */ 'x' \"s\\\"t\" // end";
    let tokens = tokenize(&rules_for(Language::C), src);
    assert_eq!(
        tokens,
        vec![
            token(TokenKind::Atom(AtomKind::Normal), 0, 1),
            token(TokenKind::Atom(AtomKind::Normal), 1, 2),
            token(TokenKind::Atom(AtomKind::Normal), 2, 3),
            token(TokenKind::Atom(AtomKind::Normal), 3, 6),
            token(TokenKind::Atom(AtomKind::Normal), 6, 7),
            token(TokenKind::Atom(AtomKind::Comment), 8, 15),
            token(TokenKind::Atom(AtomKind::StringLike), 16, 19),
            token(TokenKind::Atom(AtomKind::StringLike), 20, 26),
            token(TokenKind::Atom(AtomKind::Comment), 27, 33),
        ]
    );
}

#[test]
fn tokenize_unterminated_string_and_comment() {
    let tokens = tokenize(&rules_for(Language::C), b"\"abc");
    assert_eq!(tokens, vec![token(TokenKind::Atom(AtomKind::StringLike), 0, 4)]);
    let tokens = tokenize(&rules_for(Language::C), b"/* abc");
    assert_eq!(tokens, vec![token(TokenKind::Atom(AtomKind::Comment), 0, 6)]);
    let tokens = tokenize(&rules_for(Language::Json), b"   \n ");
    assert_eq!(tokens, vec![]);
}

#[test]
fn tree_from_tokens() {
    let src = b"(a (b) c)";
    let tree = parse(src, Language::CommonLisp);
    assert_eq!(tree.nodes.len(), 5);
    assert_eq!(tree.nodes[0].kind, NodeKind::List);
    assert_eq!(tree.nodes[0].text, b"(".to_vec());
    assert_eq!(tree.nodes[0].close, b")".to_vec());
    assert_eq!(tree.nodes[0].start, 0);
    assert_eq!(tree.nodes[0].close_start, 8);
    assert_eq!(tree.nodes[0].subtree_end, 5);
    assert_eq!(tree.nodes[1].kind, NodeKind::Atom(AtomKind::Normal));
    assert_eq!(tree.nodes[1].subtree_end, 2);
    assert_eq!(tree.nodes[2].kind, NodeKind::List);
    assert_eq!(tree.nodes[2].subtree_end, 4);
    assert_eq!(tree.nodes[2].close_start, 5);
    assert_eq!(tree.nodes[3].text, b"b".to_vec());
    assert_eq!(tree.nodes[4].text, b"c".to_vec());
    assert_eq!(tree.fingerprints.len(), 5);
}

#[test]
fn tree_from_odd_tokens() {
    // A closing delimiter with nothing to close is an atom; a list that is
    // never closed ends with the tokens; a token out of order is left out.
    let src = b") ( a";
    let tokens = vec![
        token(TokenKind::Close, 0, 1),
        token(TokenKind::Open, 2, 3),
        token(TokenKind::Atom(AtomKind::Normal), 4, 5),
        token(TokenKind::Atom(AtomKind::Normal), 1, 2),
        token(TokenKind::Atom(AtomKind::Normal), 5, 9),
        token(TokenKind::Atom(AtomKind::Normal), 5, 5),
    ];
    let tree = syntax_from_tokens(src, &tokens);
    assert_eq!(tree.nodes.len(), 3);
    assert_eq!(tree.nodes[0].kind, NodeKind::Atom(AtomKind::Normal));
    assert_eq!(tree.nodes[0].text, b")".to_vec());
    assert_eq!(tree.nodes[1].kind, NodeKind::List);
    assert_eq!(tree.nodes[1].subtree_end, 3);
    assert_eq!(tree.nodes[1].close, Vec::<u8>::new());
    assert_eq!(tree.nodes[1].close_start, 5);
    assert_eq!(tree.nodes[2].text, b"a".to_vec());
}

#[test]
fn every_byte_but_white_space_is_in_a_node() {
    let src = b"fn f(a: &str) -> u8 { /* c */ g(\"s\", 'c') // t\n}";
    let tree = parse(src, Language::Java);
    let mut covered = vec![false; src.len()];
    for node in tree.nodes.iter() {
        assert_eq!(&src[node.start..node.start + node.text.len()], &node.text[..]);
        assert_eq!(&src[node.close_start..node.close_start + node.close.len()], &node.close[..]);
        for o in node.start..node.start + node.text.len() {
            covered[o] = true;
        }
        for o in node.close_start..node.close_start + node.close.len() {
            covered[o] = true;
        }
    }
    for (o, b) in src.iter().enumerate() {
        if !b.is_ascii_whitespace() {
            assert!(covered[o]);
        }
    }
    // The white space between the tokens belongs to no node.
    assert!(!covered[2] && !covered[13] && !covered[19]);
}

#[test]
fn navigation_links() {
    let tree = parse(b"a (b (c d) e) (f)", Language::CommonLisp);
    // 0:a 1:( 2:b 3:( 4:c 5:d 6:e 7:( 8:f
    assert_eq!(tree.parents, vec![None, None, Some(1), Some(1), Some(3), Some(3), Some(1), None, Some(7)]);
    assert_eq!(
        tree.prev_siblings,
        vec![None, Some(0), None, Some(2), None, Some(4), Some(3), Some(1), None]
    );
    assert_eq!(tree.num_ancestors, vec![0, 0, 1, 1, 2, 2, 1, 0, 1]);
    assert_eq!(tree.parent(5), Some(3));
    assert_eq!(tree.parent(7), None);
    assert_eq!(tree.next_sibling(0), Some(1));
    assert_eq!(tree.next_sibling(3), Some(6));
    assert_eq!(tree.next_sibling(5), None);
    assert_eq!(tree.next_sibling(6), None);
    assert_eq!(tree.next_sibling(1), Some(7));
    assert_eq!(tree.next_sibling(7), None);
    assert_eq!(tree.prev_sibling(6), Some(3));
    assert_eq!(tree.prev_sibling(4), None);
    assert_eq!(tree.first_child(1), Some(2));
    assert_eq!(tree.first_child(2), None);
    assert_eq!(tree.num_ancestors(5), 2);
    assert!(tree.is_first(4));
    assert!(tree.is_first(0));
    assert!(!tree.is_first(6));
}

#[test]
fn equal_content_has_equal_fingerprints() {
    let lhs = parse(b"(a (b c)) (a (b c)) (a (b d))", Language::CommonLisp);
    let rhs = parse(b"x   (a\n (b   c))", Language::CommonLisp);
    assert!(lhs.content_eq(0, &lhs, 5));
    assert!(!lhs.content_eq(0, &lhs, 10));
    assert!(lhs.content_eq(0, &rhs, 1));
    assert!(!lhs.content_eq(0, &rhs, 0));
    assert_eq!(lhs.fingerprints[0], lhs.fingerprints[5]);
    assert_eq!(lhs.fingerprints[0], rhs.fingerprints[1]);
    assert_ne!(lhs.fingerprints[0], lhs.fingerprints[10]);
    assert_ne!(lhs.fingerprints[0], lhs.fingerprints[1]);
}

#[test]
fn comments_compare_by_normalised_text() {
    let lhs = parse(b"; a  b\n", Language::CommonLisp);
    let rhs = parse(b";   a b \n", Language::CommonLisp);
    let other = parse(b"; a c\n", Language::CommonLisp);
    assert!(lhs.content_eq(0, &rhs, 0));
    assert!(!lhs.content_eq(0, &other, 0));
    assert_eq!(lhs.fingerprints[0], rhs.fingerprints[0]);
}

#[test]
fn init_all_info_fills_fingerprints() {
    let tree = parse(b"(a b)", Language::CommonLisp);
    let expected = tree.fingerprints.clone();
    let mut lhs = Syntax {
        nodes: tree.nodes,
        fingerprints: Vec::new(),
        parents: Vec::new(),
        prev_siblings: Vec::new(),
        num_ancestors: Vec::new(),
    };
    let mut rhs = Syntax {
        nodes: Vec::new(),
        fingerprints: vec![7],
        parents: vec![None],
        prev_siblings: vec![None],
        num_ancestors: vec![3],
    };
    init_all_info(&mut lhs, &mut rhs);
    assert_eq!(lhs.fingerprints, expected);
    assert_eq!(lhs.parents, vec![None, Some(0), Some(0)]);
    assert_eq!(lhs.prev_siblings, vec![None, None, Some(1)]);
    assert_eq!(lhs.num_ancestors, vec![0, 1, 1]);
    assert_eq!(rhs.fingerprints, Vec::<u64>::new());
    assert_eq!(rhs.parents, vec![]);
    assert_eq!(rhs.prev_siblings, vec![]);
    assert_eq!(rhs.num_ancestors, Vec::<usize>::new());
}

#[test]
fn trimmer_leaves_the_gap() {
    let lhs = parse(b"a (b c d) e", Language::CommonLisp);
    let rhs = parse(b"a (b x y d) e", Language::CommonLisp);
    let mut map = ChangeMap::new(lhs.len(), rhs.len());
    let gaps = mark_unchanged(&lhs, &rhs, &mut map);
    assert_eq!(gaps, vec![Section { l_lo: 3, l_hi: 4, r_lo: 3, r_hi: 5 }]);
    assert_eq!(
        map.lhs,
        vec![
            Some(ChangeKind::Unchanged(0)),
            Some(ChangeKind::Unchanged(1)),
            Some(ChangeKind::Unchanged(2)),
            None,
            Some(ChangeKind::Unchanged(5)),
            Some(ChangeKind::Unchanged(6)),
        ]
    );
    assert_eq!(
        map.rhs,
        vec![
            Some(ChangeKind::Unchanged(0)),
            Some(ChangeKind::Unchanged(1)),
            Some(ChangeKind::Unchanged(2)),
            None,
            None,
            Some(ChangeKind::Unchanged(4)),
            Some(ChangeKind::Unchanged(5)),
        ]
    );
}

#[test]
fn change_map_starts_unassigned() {
    let mut map = ChangeMap::new(2, 3);
    assert_eq!(map.lhs.len(), 2);
    assert_eq!(map.rhs.len(), 3);
    assert_eq!(map.get_lhs(1), None);
    assert_eq!(map.get_rhs(2), None);
    map.lhs[1] = Some(ChangeKind::Novel);
    map.rhs[0] = Some(ChangeKind::ReplacedComment(1));
    assert_eq!(map.get_lhs(1), Some(ChangeKind::Novel));
    assert_eq!(map.get_rhs(0), Some(ChangeKind::ReplacedComment(1)));
}

#[test]
fn tokens_keep_their_kinds() {
    let src = b"fn x";
    let tokens = vec![
        token(TokenKind::Atom(AtomKind::Keyword), 0, 2),
        token(TokenKind::Atom(AtomKind::Normal), 3, 4),
    ];
    let tree = syntax_from_tokens(src, &tokens);
    assert_eq!(tree.nodes[0].kind, NodeKind::Atom(AtomKind::Keyword));
    assert_eq!(tree.nodes[0].text, b"fn".to_vec());
    assert_eq!(tree.nodes[1].kind, NodeKind::Atom(AtomKind::Normal));
    let same = syntax_from_tokens(src, &tokens);
    let other = parse(src, Language::Rust);
    assert!(tree.content_eq(0, &same, 0));
    // A keyword and an ordinary atom of the same text differ in content.
    assert!(!tree.content_eq(0, &other, 0));
    assert!(tree.content_eq(1, &other, 1));
}

#[test]
fn equally_cheap_ways_are_told_apart_by_order_of_entry() {
    // `a` can be matched with the first or with the second `a`; both ways
    // cost the same, and the search always settles on the same one.
    let lhs = parse(b"a", Language::CommonLisp);
    let rhs = parse(b"a a", Language::CommonLisp);
    let sec = Section { l_lo: 0, l_hi: 1, r_lo: 0, r_hi: 2 };
    let route = shortest_route(&lhs, &rhs, sec, DEFAULT_GRAPH_LIMIT).unwrap();
    assert_eq!(route.last().unwrap().cost, 110);
    let mut map = ChangeMap::new(1, 2);
    assert_eq!(mark_syntax(&lhs, &rhs, sec, &mut map, DEFAULT_GRAPH_LIMIT), Ok(()));
    assert_eq!(map.lhs, vec![Some(ChangeKind::Unchanged(0))]);
    assert_eq!(map.rhs, vec![Some(ChangeKind::Unchanged(0)), Some(ChangeKind::Novel)]);
}

#[test]
fn search_of_a_larger_section_stays_within_its_limit() {
    let mut lhs_src = String::new();
    let mut rhs_src = String::new();
    for i in 0..60 {
        lhs_src.push_str(&format!("(f{} x) ", i));
        rhs_src.push_str(&format!("(f{} y z) ", i));
    }
    let lhs = parse(lhs_src.as_bytes(), Language::CommonLisp);
    let rhs = parse(rhs_src.as_bytes(), Language::CommonLisp);
    let map = diff_syntax(&lhs, &rhs, DEFAULT_GRAPH_LIMIT, true).unwrap();
    let novel_lhs = map.lhs.iter().filter(|e| matches!(e, None | Some(ChangeKind::Novel))).count();
    let novel_rhs = map.rhs.iter().filter(|e| matches!(e, None | Some(ChangeKind::Novel))).count();
    assert_eq!(novel_lhs, 60);
    assert_eq!(novel_rhs, 120);
    assert!(diff_syntax(&lhs, &rhs, 50, true).is_none());
}

#[test]
fn trimmer_leaves_no_gap_between_equal_trees() {
    let lhs = parse(b"(a b) c", Language::CommonLisp);
    let rhs = parse(b"(a  b)\nc", Language::CommonLisp);
    let mut map = ChangeMap::new(lhs.len(), rhs.len());
    let gaps = mark_unchanged(&lhs, &rhs, &mut map);
    assert_eq!(gaps, vec![]);
    assert!(map.lhs.iter().enumerate().all(|(i, e)| *e == Some(ChangeKind::Unchanged(i))));
    assert!(map.rhs.iter().enumerate().all(|(i, e)| *e == Some(ChangeKind::Unchanged(i))));
}

#[test]
fn neighbours_of_the_start() {
    let lhs = parse(b"(a) b", Language::CommonLisp);
    let rhs = parse(b"(c) b", Language::CommonLisp);
    let sec = Section { l_lo: 0, l_hi: 3, r_lo: 0, r_hi: 3 };
    let ns = neighbours(&lhs, &rhs, sec, &Vertex::start(sec));
    let kinds: Vec<(EdgeKind, u64)> = ns.iter().map(|n| (n.kind, n.cost)).collect();
    assert_eq!(
        kinds,
        vec![
            (EdgeKind::UnchangedDelimiter, 10),
            (EdgeKind::EnterNovelDelimLHS, 150),
            (EdgeKind::EnterNovelDelimRHS, 150),
        ]
    );
    assert_eq!(ns[0].vertex.lp, 1);
    assert_eq!(ns[0].vertex.rp, 1);
    assert_eq!(ns[0].vertex.ls.len(), 1);
    assert!(ns[0].vertex.ls[0].both);
    assert!(!ns[1].vertex.ls[0].both);
    assert_eq!(ns[1].vertex.rp, 0);
}

#[test]
fn novel_atoms_cost_by_length() {
    let lhs = parse(b"abc \"abcdef\"", Language::CommonLisp);
    let rhs = parse(b"", Language::CommonLisp);
    let sec = Section { l_lo: 0, l_hi: 2, r_lo: 0, r_hi: 0 };
    let ns = neighbours(&lhs, &rhs, sec, &Vertex::start(sec));
    assert_eq!(ns.len(), 1);
    assert_eq!((ns[0].kind, ns[0].cost), (EdgeKind::NovelAtomLHS, 130));
    let ns = neighbours(&lhs, &rhs, sec, &ns[0].vertex);
    assert_eq!((ns[0].kind, ns[0].cost), (EdgeKind::NovelAtomLHS, 140));
    let long = vec![b'x'; 5000];
    let lhs = parse(&long, Language::CommonLisp);
    let sec = Section { l_lo: 0, l_hi: 1, r_lo: 0, r_hi: 0 };
    let ns = neighbours(&lhs, &rhs, sec, &Vertex::start(sec));
    assert_eq!(ns[0].cost, 10100);
}

#[test]
fn cheapest_route_of_a_small_section() {
    let lhs = parse(b"(a b)", Language::CommonLisp);
    let rhs = parse(b"(a c)", Language::CommonLisp);
    let sec = Section { l_lo: 0, l_hi: 3, r_lo: 0, r_hi: 3 };
    let route = shortest_route(&lhs, &rhs, sec, DEFAULT_GRAPH_LIMIT).unwrap();
    let goal = route.last().unwrap();
    // Enter both lists, match `a`, leave `b` and `c` unmatched, leave both.
    assert_eq!(goal.cost, 10 + 0 + 110 + 110);
    assert!(goal.vertex.is_goal(sec));
    assert!(route[0].pred.is_none());
    assert_eq!(route[0].cost, 0);
    assert_eq!(shortest_route(&lhs, &rhs, sec, 3).err(), Some(ExceededGraphLimit {}));
    assert_eq!(shortest_route(&lhs, &rhs, sec, 0).err(), Some(ExceededGraphLimit {}));
}

#[test]
fn mark_syntax_writes_the_route() {
    let lhs = parse(b"(a b)", Language::CommonLisp);
    let rhs = parse(b"(a c)", Language::CommonLisp);
    let sec = Section { l_lo: 0, l_hi: 3, r_lo: 0, r_hi: 3 };
    let mut map = ChangeMap::new(3, 3);
    assert_eq!(mark_syntax(&lhs, &rhs, sec, &mut map, DEFAULT_GRAPH_LIMIT), Ok(()));
    assert_eq!(
        map.lhs,
        vec![Some(ChangeKind::Unchanged(0)), Some(ChangeKind::Unchanged(1)), Some(ChangeKind::Novel)]
    );
    assert_eq!(
        map.rhs,
        vec![Some(ChangeKind::Unchanged(0)), Some(ChangeKind::Unchanged(1)), Some(ChangeKind::Novel)]
    );
    let mut map = ChangeMap::new(3, 3);
    assert_eq!(mark_syntax(&lhs, &rhs, sec, &mut map, 2), Err(ExceededGraphLimit {}));
    assert_eq!(map.lhs, vec![None, None, None]);
    assert_eq!(map.rhs, vec![None, None, None]);
}

#[test]
fn slider_moves_to_the_end_of_the_list() {
    let lhs = parse(b"a b", Language::CommonLisp);
    let rhs = parse(b"a b a b", Language::CommonLisp);
    let mut me = vec![
        Some(ChangeKind::Unchanged(0)),
        Some(ChangeKind::Novel),
        Some(ChangeKind::Novel),
        Some(ChangeKind::Unchanged(1)),
    ];
    let mut peer = vec![Some(ChangeKind::Unchanged(0)), Some(ChangeKind::Unchanged(3))];
    fix_sliders(&rhs, &mut me, &mut peer);
    assert_eq!(
        me,
        vec![
            Some(ChangeKind::Unchanged(0)),
            Some(ChangeKind::Unchanged(1)),
            Some(ChangeKind::Novel),
            Some(ChangeKind::Novel),
        ]
    );
    assert_eq!(peer, vec![Some(ChangeKind::Unchanged(0)), Some(ChangeKind::Unchanged(1))]);
    // A second application changes nothing.
    let (once_me, once_peer) = (me.clone(), peer.clone());
    fix_sliders(&rhs, &mut me, &mut peer);
    assert_eq!(me, once_me);
    assert_eq!(peer, once_peer);
    assert_eq!(lhs.len(), 2);
}

#[test]
fn slider_moves_whole_subtrees_inside_a_list() {
    let lhs = parse(b"(k (x) (x))", Language::CommonLisp);
    let rhs = parse(b"(k (x) (x) (x))", Language::CommonLisp);
    // Right side: the middle `(x)` is novel, the last is matched.
    let mut map = ChangeMap {
        lhs: vec![
            Some(ChangeKind::Unchanged(0)),
            Some(ChangeKind::Unchanged(1)),
            Some(ChangeKind::Unchanged(2)),
            Some(ChangeKind::Unchanged(3)),
            Some(ChangeKind::Unchanged(6)),
            Some(ChangeKind::Unchanged(7)),
        ],
        rhs: vec![
            Some(ChangeKind::Unchanged(0)),
            Some(ChangeKind::Unchanged(1)),
            Some(ChangeKind::Unchanged(2)),
            Some(ChangeKind::Unchanged(3)),
            Some(ChangeKind::Novel),
            None,
            Some(ChangeKind::Unchanged(4)),
            Some(ChangeKind::Unchanged(5)),
        ],
    };
    fix_all_sliders(&rhs, Side::Rhs, &mut map);
    assert_eq!(
        map.rhs,
        vec![
            Some(ChangeKind::Unchanged(0)),
            Some(ChangeKind::Unchanged(1)),
            Some(ChangeKind::Unchanged(2)),
            Some(ChangeKind::Unchanged(3)),
            Some(ChangeKind::Unchanged(4)),
            Some(ChangeKind::Unchanged(5)),
            Some(ChangeKind::Novel),
            Some(ChangeKind::Novel),
        ]
    );
    assert_eq!(
        map.lhs,
        vec![
            Some(ChangeKind::Unchanged(0)),
            Some(ChangeKind::Unchanged(1)),
            Some(ChangeKind::Unchanged(2)),
            Some(ChangeKind::Unchanged(3)),
            Some(ChangeKind::Unchanged(4)),
            Some(ChangeKind::Unchanged(5)),
        ]
    );
    let once = (map.lhs.clone(), map.rhs.clone());
    fix_all_sliders(&rhs, Side::Rhs, &mut map);
    fix_all_sliders(&lhs, Side::Lhs, &mut map);
    assert_eq!((map.lhs, map.rhs), once);
}

#[test]
fn leading_novel_run_stays_at_the_start() {
    let rhs = parse(b"a b a b", Language::CommonLisp);
    let mut me = vec![
        Some(ChangeKind::Novel),
        Some(ChangeKind::Novel),
        Some(ChangeKind::Unchanged(0)),
        Some(ChangeKind::Unchanged(1)),
    ];
    let mut peer = vec![Some(ChangeKind::Unchanged(2)), Some(ChangeKind::Unchanged(3))];
    let before = (me.clone(), peer.clone());
    fix_sliders(&rhs, &mut me, &mut peer);
    assert_eq!((me, peer), before);
}

#[test]
fn diff_syntax_of_three_calls_against_two() {
    let lhs = parse(b"x() x() x()", Language::Rust);
    let rhs = parse(b"x() x()", Language::Rust);
    let map = diff_syntax(&lhs, &rhs, DEFAULT_GRAPH_LIMIT, true).unwrap();
    let novel: Vec<usize> = (0..lhs.len())
        .filter(|i| matches!(map.lhs[*i], None | Some(ChangeKind::Novel)))
        .collect();
    // One call is left over, as a whole, and no node of the right side.
    assert_eq!(novel.len(), 2);
    assert_eq!(novel[1], novel[0] + 1);
    assert_eq!(novel[0] % 2, 0);
    assert!(map.rhs.iter().all(|e| matches!(e, Some(ChangeKind::Unchanged(_)))));
    assert!(diff_syntax(&lhs, &rhs, 1, true).is_none());
}

#[test]
fn matched_nodes_name_each_other_and_never_cross() {
    let lhs = parse(b"(a b (c d) e) f ; note\n (g (h)) i", Language::CommonLisp);
    let rhs = parse(b"(a (c x d) b e) ; another\n f (g (h) j) k i", Language::CommonLisp);
    let map = diff_syntax(&lhs, &rhs, DEFAULT_GRAPH_LIMIT, false).unwrap();
    let peer = |e: &Option<ChangeKind>| match e {
        Some(ChangeKind::Unchanged(p)) | Some(ChangeKind::ReplacedComment(p)) => Some(*p),
        _ => None,
    };
    let mut last = None;
    let mut matched = 0;
    for (i, e) in map.lhs.iter().enumerate() {
        if let Some(p) = peer(e) {
            assert_eq!(peer(&map.rhs[p]), Some(i));
            assert_eq!(lhs.nodes[i].kind, rhs.nodes[p].kind);
            if matches!(e, Some(ChangeKind::Unchanged(_))) {
                assert_eq!(lhs.nodes[i].text, rhs.nodes[p].text);
            }
            assert!(last < Some(p));
            last = Some(p);
            matched += 1;
        }
    }
    assert!(matched >= 8);
    assert_eq!(map.rhs.iter().filter(|e| peer(e).is_some()).count(), matched);
}

#[test]
fn projection_of_an_unassigned_map_is_all_novel() {
    let src = b"(a\n b)";
    let tree = parse(src, Language::CommonLisp);
    let entries = vec![None, Some(ChangeKind::Unchanged(7)), Some(ChangeKind::ReplacedComment(9))];
    let positions = change_positions(&tree, src, &entries);
    assert_eq!(
        positions,
        vec![
            novel(0, 0, 1),
            MatchedPos {
                kind: MatchKind::Unchanged { peer: 7 },
                pos: SingleLineSpan { line: 0, start_col: 1, end_col: 2 }
            },
            MatchedPos {
                kind: MatchKind::ReplacedComment { peer: 9 },
                pos: SingleLineSpan { line: 1, start_col: 1, end_col: 2 }
            },
            novel(1, 2, 3),
        ]
    );
}

#[test]
fn line_diff_reports_changed_lines() {
    assert_eq!(line_positions(b"a\nb\nc", b"a\nx\nc"), vec![novel(1, 0, 1)]);
    assert_eq!(line_positions(b"a\nb\nc", b"a\nc"), vec![novel(1, 0, 1)]);
    assert_eq!(line_positions(b"a\nc", b"a\nb\nc"), vec![]);
    assert_eq!(line_positions(b"", b"a"), vec![]);
    assert_eq!(line_positions(b"a", b""), vec![novel(0, 0, 1)]);
    assert_eq!(line_positions(b"a\n\nb", b"a\nb"), vec![novel(1, 0, 0)]);
    assert_eq!(line_positions(b"same", b"same"), vec![]);
}

#[test]
fn line_diff_keeps_a_longest_common_subsequence() {
    // Of `a b c a b b a` and `c b a b a c` four lines are common.
    let lhs = b"a\nb\nc\na\nb\nb\na";
    let rhs = b"c\nb\na\nb\na\nc";
    let left = line_positions(lhs, rhs);
    let right = line_positions(rhs, lhs);
    assert_eq!(left.len(), 7 - 4);
    assert_eq!(right.len(), 6 - 4);
    assert!(left.windows(2).all(|w| w[0].pos.line < w[1].pos.line));
}

#[test]
fn line_diff_of_a_large_middle_reports_all_of_it() {
    // 2100 lines against 2100 other lines: the table would have more than
    // four million cells.
    let mut lhs = String::from("first\n");
    let mut rhs = String::from("first\n");
    for i in 0..2100 {
        lhs.push_str(&format!("left {}\n", i));
        rhs.push_str(&format!("right {}\n", i));
    }
    lhs.push_str("common\nlast");
    rhs.push_str("common\nlast");
    let left = line_positions(lhs.as_bytes(), rhs.as_bytes());
    assert_eq!(left.len(), 2100);
    assert_eq!(left[0], novel(1, 0, 6));
    assert_eq!(left[2099], novel(2100, 0, 9));
    // With a common line in the middle and fewer lines, the table fits and
    // the common line is kept.
    let mut lhs = String::new();
    let mut rhs = String::new();
    for i in 0..100 {
        lhs.push_str(&format!("left {}\n", i));
        rhs.push_str(&format!("right {}\n", i));
        if i == 50 {
            lhs.push_str("common\n");
            rhs.push_str("common\n");
        }
    }
    let left = line_positions(lhs.as_bytes(), rhs.as_bytes());
    assert_eq!(left.len(), 100);
    assert!(left.iter().all(|p| p.pos.line != 51));
}

#[test]
fn report_of_a_result() {
    let options = |print_unchanged: bool| DisplayOptions {
        background_color: BackgroundColor::Dark,
        use_color: false,
        display_mode: DisplayMode::SideBySide,
        print_unchanged,
        tab_width: 8,
        display_width: 80,
        num_context_lines: 3,
        in_vcs: false,
        syntax_highlight: false,
    };
    let changed = diff_file_content(
        "a.el",
        "a.el",
        &FileArgument::DevNull,
        &FileArgument::DevNull,
        b"(a b)",
        b"(a c)",
        8,
        DEFAULT_GRAPH_LIMIT,
        1_000_000,
        None,
    );
    assert_eq!(diff_report(&options(true), &changed), Report::Hunks { mode: DisplayMode::SideBySide });
    assert_eq!(
        diff_report(&options(false), &changed),
        Report::Hunks { mode: DisplayMode::SideBySide }
    );
    let reformatted = diff_file_content(
        "a.el",
        "a.el",
        &FileArgument::DevNull,
        &FileArgument::DevNull,
        b"(a b)",
        b"(a  b)",
        8,
        DEFAULT_GRAPH_LIMIT,
        1_000_000,
        None,
    );
    assert_eq!(
        diff_report(&options(true), &reformatted),
        Report::Message { binary: false, verdict: Verdict::NoSyntacticChanges }
    );
    assert_eq!(diff_report(&options(false), &reformatted), Report::Silent);
    let same = diff_file_content(
        "a.el",
        "a.el",
        &FileArgument::DevNull,
        &FileArgument::DevNull,
        b"(a b)",
        b"(a b)",
        8,
        DEFAULT_GRAPH_LIMIT,
        1_000_000,
        None,
    );
    assert_eq!(
        diff_report(&options(true), &same),
        Report::Message { binary: false, verdict: Verdict::NoChanges }
    );
    let binary = |lhs: &[u8], rhs: &[u8]| DiffResult {
        lhs_display_path: "a".to_string(),
        rhs_display_path: "b".to_string(),
        language: None,
        detected_language: None,
        lhs_src: FileContent::Binary(lhs.to_vec()),
        rhs_src: FileContent::Binary(rhs.to_vec()),
        lhs_positions: vec![],
        rhs_positions: vec![],
    };
    assert_eq!(
        diff_report(&options(false), &binary(b"\0a", b"\0b")),
        Report::Message { binary: true, verdict: Verdict::BinaryChanged }
    );
    assert_eq!(
        diff_report(&options(true), &binary(b"\0a", b"\0a")),
        Report::Message { binary: true, verdict: Verdict::NoChanges }
    );
    assert_eq!(diff_report(&options(false), &binary(b"\0a", b"\0a")), Report::Silent);
    let mixed = DiffResult { lhs_src: FileContent::Text(b"a".to_vec()), ..binary(b"", b"\0") };
    assert_eq!(
        diff_report(&options(false), &mixed),
        Report::Message { binary: true, verdict: Verdict::BinaryChanged }
    );
    let plain = DiffResult {
        lhs_src: FileContent::Text(b"a".to_vec()),
        rhs_src: FileContent::Text(b"b".to_vec()),
        language: Some("Text".to_string()),
        ..binary(b"", b"")
    };
    assert_eq!(
        diff_report(&options(true), &plain),
        Report::Message { binary: false, verdict: Verdict::NoChanges }
    );
}
