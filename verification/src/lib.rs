//! A syntactic diff engine: compares two versions of a source file by their
//! syntax trees and reports, per side, which tokens are novel.
//!
//! The stages run strictly one after the other: the parser makes a tree
//! of each side, the trimmer marks what is plainly unchanged, the search
//! finds the cheapest edit for what is left, slider correction moves
//! changes to their canonical places, and the projection turns the change
//! map into positions. Files that are too large, that exceed the graph
//! limit or whose language is unknown are compared line by line.
//!
//! Text is held as bytes, and columns count bytes.

pub mod alignment;
pub mod changes;
pub mod consistency;
pub mod dijkstra;
pub mod graph;
pub mod guess_language;
pub mod lexer;
pub mod line_parser;
pub mod optimality;
pub mod option_types;
pub mod parse;
pub mod positions;
pub mod projection;
pub mod queue;
pub mod sliders;
pub mod summary;
pub mod syntax;
pub mod text;
pub mod unchanged;
pub mod visited;

use vstd::prelude::*;
use vstd::slice::slice_to_vec;
use vstd::utf8::encode_utf8;
use crate::changes::{ChangeMap, ChangeMapView};
use crate::dijkstra::{lemma_search_monotone, mark_spec, mark_syntax, search_spec};
use crate::graph::{section_ok, Section};
use crate::guess_language::{guess, guess_spec, language_name, language_name_spec, parse,
    parse_spec, Language};
use crate::line_parser::line_positions_spec;
use crate::option_types::{FileArgument, FileArgumentView};
use crate::positions::{ascending, well_formed, MatchedPos};
use crate::projection::{change_positions, positions_spec};
use crate::alignment::{around, lemma_fix_ordered, lemma_ordered_both, lemma_search_ordered, ordered};
use crate::consistency::{lemma_search_consistent, pending};
use crate::sliders::{fix_all_sliders, fix_side_spec, lemma_fix_side_consistent, Side};
use crate::summary::{DiffResult, DiffResultView, FileContent, FileContentView};
use crate::syntax::{offsets_ok, shape_ok, Syntax, NodeView};
use crate::text::{bytes_eq, guess_content, looks_binary, replace_tabs, replace_tabs_spec,
    strip_trailing_newline, strip_trailing_newline_spec, ProbableFileKind};
use crate::unchanged::{gaps_of, lemma_trim_consistent, lemma_trim_ordered, mark_unchanged,
    trim_spec, whole};

verus! {

/// The change map after the sections from number `k` on have been
/// searched, one after the other; `None` if one of the searches gave up.
pub open spec fn search_sections(
    lt: Seq<NodeView>,
    rt: Seq<NodeView>,
    m: ChangeMapView,
    sections: Seq<Section>,
    k: int,
    limit: nat,
) -> Option<ChangeMapView>
    decreases sections.len() - k,
{
    if k < 0 || k >= sections.len() {
        Some(m)
    } else if search_spec(lt, rt, sections[k], limit) is Found {
        search_sections(lt, rt, mark_spec(m, lt, rt, sections[k], limit), sections, k + 1, limit)
    } else {
        None
    }
}

/// The change map and the sections with which the search begins: what
/// the trimmer leaves, or the whole trees where the trimmer is switched
/// off.
pub open spec fn sections_spec(lt: Seq<NodeView>, rt: Seq<NodeView>, keep_unchanged: bool) -> (
    ChangeMapView,
    Seq<Section>,
) {
    let empty = ChangeMapView::unassigned(lt.len(), rt.len());
    if keep_unchanged {
        (empty, seq![whole(lt, rt)])
    } else {
        let trimmed = trim_spec(lt, rt, empty, whole(lt, rt));
        (trimmed.0, gaps_of(trimmed.1))
    }
}

/// The change map of two trees: trimmed, searched section by section
/// and corrected for sliders on both sides; `None` if a search exceeded
/// the graph limit.
pub open spec fn syntax_changes_spec(
    lt: Seq<NodeView>,
    rt: Seq<NodeView>,
    limit: nat,
    keep_unchanged: bool,
) -> Option<ChangeMapView> {
    let (m, sections) = sections_spec(lt, rt, keep_unchanged);
    match search_sections(lt, rt, m, sections, 0, limit) {
        Some(found) => Some(fix_side_spec(rt, fix_side_spec(lt, found, Side::Lhs), Side::Rhs)),
        None => None,
    }
}

proof fn lemma_sections_monotone(
    lt: Seq<NodeView>,
    rt: Seq<NodeView>,
    m: ChangeMapView,
    sections: Seq<Section>,
    k: int,
    limit: nat,
    greater: nat,
)
    requires
        limit <= greater,
        search_sections(lt, rt, m, sections, k, limit) is Some,
    ensures
        search_sections(lt, rt, m, sections, k, greater) == search_sections(
            lt,
            rt,
            m,
            sections,
            k,
            limit,
        ),
    decreases sections.len() - k,
{
    if 0 <= k < sections.len() {
        lemma_search_monotone(m, lt, rt, sections[k], limit, greater);
        lemma_sections_monotone(
            lt,
            rt,
            mark_spec(m, lt, rt, sections[k], limit),
            sections,
            k + 1,
            limit,
            greater,
        );
    }
}

/// Raising the graph limit never changes a successful comparison: where
/// the search stays within a limit, every greater limit gives the same
/// change map. A greater limit can only turn a fallback into a result.
pub proof fn lemma_graph_limit_monotone(
    lt: Seq<NodeView>,
    rt: Seq<NodeView>,
    limit: nat,
    greater: nat,
    keep_unchanged: bool,
)
    requires
        limit <= greater,
        syntax_changes_spec(lt, rt, limit, keep_unchanged) is Some,
    ensures
        syntax_changes_spec(lt, rt, greater, keep_unchanged) == syntax_changes_spec(
            lt,
            rt,
            limit,
            keep_unchanged,
        ),
{
    let (m, sections) = sections_spec(lt, rt, keep_unchanged);
    lemma_sections_monotone(lt, rt, m, sections, 0, limit, greater);
}

/// The change map of a comparison is consistent: the nodes that it
/// reports as unchanged or as replaced comments are matched in pairs,
/// each names the other, unchanged peers carry equal labels, and a
/// replaced comment stands against a comment.
#[verifier::rlimit(40)]
pub proof fn lemma_changes_consistent(
    lt: Seq<NodeView>,
    rt: Seq<NodeView>,
    limit: nat,
    keep_unchanged: bool,
)
    requires
        shape_ok(lt),
        shape_ok(rt),
        lt.len() <= usize::MAX,
        rt.len() <= usize::MAX,
        limit <= usize::MAX,
        syntax_changes_spec(lt, rt, limit, keep_unchanged) is Some,
    ensures
        syntax_changes_spec(lt, rt, limit, keep_unchanged)->0.consistent(lt, rt),
{
    let empty = ChangeMapView::unassigned(lt.len(), rt.len());
    let all = whole(lt, rt);
    assert(empty.consistent(lt, rt));
    assert(pending(empty, lt, rt, 0, lt.len() as int, 0, rt.len() as int));
    assert(section_ok(lt, rt, all));
    let (m, sections) = sections_spec(lt, rt, keep_unchanged);
    if !keep_unchanged {
        lemma_trim_consistent(lt, rt, empty, all);
    }
    let found = search_sections(lt, rt, m, sections, 0, limit)->0;
    if sections.len() > 0 {
        let sec = sections[0];
        assert(search_spec(lt, rt, sec, limit) is Found);
        lemma_search_consistent(m, lt, rt, sec, limit);
        let m1 = mark_spec(m, lt, rt, sec, limit);
        assert(search_sections(lt, rt, m1, sections, 1, limit) == Some(m1));
    }
    assert(found.consistent(lt, rt));
    lemma_fix_side_consistent(lt, rt, found, Side::Lhs);
    lemma_fix_side_consistent(lt, rt, fix_side_spec(lt, found, Side::Lhs), Side::Rhs);
}

/// The matched nodes of a comparison never cross: on either side, of two
/// matched nodes the later one has the later peer.
pub proof fn lemma_changes_ordered(
    lt: Seq<NodeView>,
    rt: Seq<NodeView>,
    limit: nat,
    keep_unchanged: bool,
)
    requires
        shape_ok(lt),
        shape_ok(rt),
        lt.len() <= usize::MAX,
        rt.len() <= usize::MAX,
        limit <= usize::MAX,
        syntax_changes_spec(lt, rt, limit, keep_unchanged) is Some,
    ensures
        ordered(syntax_changes_spec(lt, rt, limit, keep_unchanged)->0.lhs),
        ordered(syntax_changes_spec(lt, rt, limit, keep_unchanged)->0.rhs),
{
    let empty = ChangeMapView::unassigned(lt.len(), rt.len());
    let all = whole(lt, rt);
    assert(empty.consistent(lt, rt));
    assert(pending(empty, lt, rt, 0, lt.len() as int, 0, rt.len() as int));
    assert(around(empty.lhs, 0, lt.len() as int, 0, rt.len() as int));
    assert(section_ok(lt, rt, all));
    let (m, sections) = sections_spec(lt, rt, keep_unchanged);
    if !keep_unchanged {
        lemma_trim_consistent(lt, rt, empty, all);
        lemma_trim_ordered(lt, rt, empty, all);
    }
    let found = search_sections(lt, rt, m, sections, 0, limit)->0;
    if sections.len() > 0 {
        let sec = sections[0];
        assert(search_spec(lt, rt, sec, limit) is Found);
        lemma_search_consistent(m, lt, rt, sec, limit);
        lemma_search_ordered(m, lt, rt, sec, limit);
        let m1 = mark_spec(m, lt, rt, sec, limit);
        assert(search_sections(lt, rt, m1, sections, 1, limit) == Some(m1));
    }
    assert(found.consistent(lt, rt));
    assert(ordered(found.lhs));
    lemma_fix_side_consistent(lt, rt, found, Side::Lhs);
    lemma_fix_ordered(lt, rt, found.lhs, found.rhs);
    let once = fix_side_spec(lt, found, Side::Lhs);
    lemma_fix_side_consistent(lt, rt, once, Side::Rhs);
    lemma_fix_ordered(rt, lt, once.rhs, once.lhs);
}

/// Compare two syntax trees: the change map of their nodes, or `None`
/// if the search exceeded the graph limit.
///
/// With `keep_unchanged` the trimmer is left out and the whole trees are
/// searched, which helps to look into the search and nothing else.
pub fn diff_syntax(lhs: &Syntax, rhs: &Syntax, graph_limit: usize, keep_unchanged: bool) -> (res:
    Option<ChangeMap>)
    requires
        lhs.wf(),
        rhs.wf(),
    ensures
        match syntax_changes_spec(lhs@, rhs@, graph_limit as nat, keep_unchanged) {
            Some(m) => res matches Some(map) && map@ == m && map@.consistent(lhs@, rhs@)
                && ordered(map@.lhs) && ordered(map@.rhs),
            None => res is None,
        },
{
    let mut change_map = ChangeMap::new(lhs.len(), rhs.len());
    proof {
        if syntax_changes_spec(lhs@, rhs@, graph_limit as nat, keep_unchanged) is Some {
            lemma_changes_consistent(lhs@, rhs@, graph_limit as nat, keep_unchanged);
            lemma_changes_ordered(lhs@, rhs@, graph_limit as nat, keep_unchanged);
        }
    }
    let sections = if keep_unchanged {
        let mut all: Vec<Section> = Vec::new();
        all.push(Section { l_lo: 0, l_hi: lhs.len(), r_lo: 0, r_hi: rhs.len() });
        assert(all@ =~= seq![whole(lhs@, rhs@)]);
        all
    } else {
        mark_unchanged(lhs, rhs, &mut change_map)
    };
    let ghost start = change_map@;
    let mut k: usize = 0;
    while k < sections.len()
        invariant
            lhs.wf(),
            rhs.wf(),
            k <= sections@.len(),
            sections_spec(lhs@, rhs@, keep_unchanged) == (start, sections@),
            change_map@.fits(lhs@, rhs@),
            forall|i: int|
                0 <= i < sections@.len() ==> section_ok(
                    lhs@,
                    rhs@,
                    #[trigger] sections@[i],
                ),
            search_sections(lhs@, rhs@, start, sections@, 0, graph_limit as nat)
                == search_sections(
                lhs@,
                rhs@,
                change_map@,
                sections@,
                k as int,
                graph_limit as nat,
            ),
        decreases sections@.len() - k,
    {
        match mark_syntax(lhs, rhs, sections[k], &mut change_map, graph_limit) {
            Ok(()) => {},
            Err(_) => {
                return None;
            },
        }
        k += 1;
    }
    fix_all_sliders(lhs, Side::Lhs, &mut change_map);
    fix_all_sliders(rhs, Side::Rhs, &mut change_map);
    Some(change_map)
}

/// The name under which a comparison by lines is reported when an input
/// is larger than the byte limit.
pub open spec fn exceeded_byte_limit_name() -> Seq<char> {
    "Text (exceeded DFT_BYTE_LIMIT)"@
}

/// The name under which a comparison by lines is reported when the
/// search exceeded the graph limit.
pub open spec fn exceeded_graph_limit_name() -> Seq<char> {
    "Text (exceeded DFT_GRAPH_LIMIT)"@
}

/// The text that is compared: the bytes of the file with tabs replaced by
/// spaces and without the final line feed.
pub open spec fn clean_spec(bytes: Seq<u8>, tab_width: nat) -> Seq<u8> {
    strip_trailing_newline_spec(replace_tabs_spec(bytes, tab_width))
}

/// The language of a comparison: the one asked for, or else the one
/// guessed from the name of the right side, or of the left side where
/// the right side has no name of its own.
pub open spec fn language_spec(
    lhs_display_path: Seq<char>,
    rhs_display_path: Seq<char>,
    rhs_path: FileArgumentView,
    language_override: Option<Language>,
) -> Option<Language> {
    match language_override {
        Some(language) => Some(language),
        None => match rhs_path {
            FileArgumentView::NamedPath(_) => guess_spec(encode_utf8(rhs_display_path)),
            _ => guess_spec(encode_utf8(lhs_display_path)),
        },
    }
}

/// The name of a language, if there is one.
pub open spec fn name_of(language: Option<Language>) -> Option<Seq<char>> {
    match language {
        Some(l) => Some(language_name_spec(l)),
        None => None,
    }
}

/// The outcome of a comparison by syntax: the language's name and the
/// positions of both sides, or the name that reports the exceeded graph
/// limit and the positions of a comparison by lines.
pub open spec fn syntax_outcome(
    lt: Seq<NodeView>,
    rt: Seq<NodeView>,
    lhs_src: Seq<u8>,
    rhs_src: Seq<u8>,
    language: Language,
    limit: nat,
    keep_unchanged: bool,
) -> (Option<Seq<char>>, Seq<MatchedPos>, Seq<MatchedPos>) {
    match syntax_changes_spec(lt, rt, limit, keep_unchanged) {
        Some(m) => (
            Some(language_name_spec(language)),
            positions_spec(lt, lhs_src, m.lhs),
            positions_spec(rt, rhs_src, m.rhs),
        ),
        None => (
            Some(exceeded_graph_limit_name()),
            line_positions_spec(lhs_src, rhs_src),
            line_positions_spec(rhs_src, lhs_src),
        ),
    }
}

/// Raising the graph limit never changes the positions of a comparison
/// by syntax that succeeded.
pub proof fn lemma_outcome_monotone(
    lt: Seq<NodeView>,
    rt: Seq<NodeView>,
    lhs_src: Seq<u8>,
    rhs_src: Seq<u8>,
    language: Language,
    limit: nat,
    greater: nat,
    keep_unchanged: bool,
)
    requires
        limit <= greater,
        syntax_changes_spec(lt, rt, limit, keep_unchanged) is Some,
    ensures
        syntax_outcome(lt, rt, lhs_src, rhs_src, language, greater, keep_unchanged)
            == syntax_outcome(lt, rt, lhs_src, rhs_src, language, limit, keep_unchanged),
{
    lemma_graph_limit_monotone(lt, rt, limit, greater, keep_unchanged);
}

/// The language's name and the positions of both sides for a comparison
/// of texts that are not the same: by lines where a side is larger than
/// the byte limit or no language is known, else by syntax.
pub open spec fn positions_spec_of(
    lhs_bytes: Seq<u8>,
    rhs_bytes: Seq<u8>,
    lhs_src: Seq<u8>,
    rhs_src: Seq<u8>,
    language: Option<Language>,
    graph_limit: nat,
    byte_limit: nat,
    keep_unchanged: bool,
) -> (Option<Seq<char>>, Seq<MatchedPos>, Seq<MatchedPos>) {
    if lhs_bytes.len() > byte_limit || rhs_bytes.len() > byte_limit {
        (
            Some(exceeded_byte_limit_name()),
            line_positions_spec(lhs_src, rhs_src),
            line_positions_spec(rhs_src, lhs_src),
        )
    } else {
        match language {
            Some(l) => syntax_outcome(
                parse_spec(lhs_src, l),
                parse_spec(rhs_src, l),
                lhs_src,
                rhs_src,
                l,
                graph_limit,
                keep_unchanged,
            ),
            None => (None, line_positions_spec(lhs_src, rhs_src), line_positions_spec(rhs_src, lhs_src)),
        }
    }
}

/// The result of comparing two files.
///
/// - If either side looks binary, both sides come back as they are, with
///   no language and no positions.
/// - If the two sides are byte for byte the same, there are no positions.
/// - If either side is larger than the byte limit, or no language is
///   known, the positions are those of the comparison by lines.
/// - Otherwise the positions are those of the comparison by syntax of
///   the trees of the two sides, or those by lines if the search exceeded
///   the graph limit.
pub open spec fn diff_file_content_spec(
    lhs_display_path: Seq<char>,
    rhs_display_path: Seq<char>,
    rhs_path: FileArgumentView,
    lhs_bytes: Seq<u8>,
    rhs_bytes: Seq<u8>,
    tab_width: nat,
    graph_limit: nat,
    byte_limit: nat,
    language_override: Option<Language>,
    keep_unchanged: bool,
) -> DiffResultView {
    let language = language_spec(lhs_display_path, rhs_display_path, rhs_path, language_override);
    let lhs_src = clean_spec(lhs_bytes, tab_width);
    let rhs_src = clean_spec(rhs_bytes, tab_width);
    if looks_binary(lhs_bytes) || looks_binary(rhs_bytes) {
        DiffResultView {
            lhs_display_path,
            rhs_display_path,
            language: None,
            detected_language: None,
            lhs_src: FileContentView::Binary(lhs_bytes),
            rhs_src: FileContentView::Binary(rhs_bytes),
            lhs_positions: Seq::empty(),
            rhs_positions: Seq::empty(),
        }
    } else if lhs_bytes == rhs_bytes {
        DiffResultView {
            lhs_display_path,
            rhs_display_path,
            language: name_of(language),
            detected_language: language,
            lhs_src: FileContentView::Text(Seq::empty()),
            rhs_src: FileContentView::Text(Seq::empty()),
            lhs_positions: Seq::empty(),
            rhs_positions: Seq::empty(),
        }
    } else {
        let (name, lhs_positions, rhs_positions) = positions_spec_of(
            lhs_bytes,
            rhs_bytes,
            lhs_src,
            rhs_src,
            language,
            graph_limit,
            byte_limit,
            keep_unchanged,
        );
        DiffResultView {
            lhs_display_path,
            rhs_display_path,
            language: name,
            detected_language: language,
            lhs_src: FileContentView::Text(lhs_src),
            rhs_src: FileContentView::Text(rhs_src),
            lhs_positions,
            rhs_positions,
        }
    }
}

/// Tabs replaced, final line feed dropped.
fn clean(bytes: &[u8], tab_width: usize) -> (res: Vec<u8>)
    ensures
        res@ == clean_spec(bytes@, tab_width as nat),
{
    strip_trailing_newline(replace_tabs(bytes, tab_width))
}

fn pick_language(
    lhs_display_path: &str,
    rhs_display_path: &str,
    rhs_path: &FileArgument,
    language_override: Option<Language>,
) -> (res: Option<Language>)
    ensures
        res == language_spec(lhs_display_path@, rhs_display_path@, rhs_path@, language_override),
{
    match language_override {
        Some(language) => Some(language),
        None => match rhs_path {
            FileArgument::NamedPath(_) => guess(rhs_display_path),
            _ => guess(lhs_display_path),
        },
    }
}

fn name_for(language: Option<Language>) -> (res: Option<String>)
    ensures
        match res {
            Some(name) => name_of(language) == Some(name@),
            None => name_of(language) is None,
        },
{
    match language {
        Some(l) => Some(language_name(l).to_owned()),
        None => None,
    }
}

/// Compare two trees of one language and project the outcome to
/// positions.
fn diff_trees(
    lhs: &Syntax,
    rhs: &Syntax,
    lhs_src: &[u8],
    rhs_src: &[u8],
    language: Language,
    graph_limit: usize,
    keep_unchanged: bool,
) -> (res: (Option<String>, Vec<MatchedPos>, Vec<MatchedPos>))
    requires
        lhs.wf(),
        rhs.wf(),
        offsets_ok(lhs@, lhs_src@),
        offsets_ok(rhs@, rhs_src@),
    ensures
        res.0 matches Some(name) && (Some(name@), res.1@, res.2@) == syntax_outcome(
            lhs@,
            rhs@,
            lhs_src@,
            rhs_src@,
            language,
            graph_limit as nat,
            keep_unchanged,
        ),
        ascending(res.1@),
        ascending(res.2@),
        well_formed(res.1@),
        well_formed(res.2@),
{
    match diff_syntax(lhs, rhs, graph_limit, keep_unchanged) {
        Some(change_map) => {
            let lhs_positions = change_positions(lhs, lhs_src, &change_map.lhs);
            let rhs_positions = change_positions(rhs, rhs_src, &change_map.rhs);
            (Some(language_name(language).to_owned()), lhs_positions, rhs_positions)
        },
        None => {
            let lhs_positions = line_parser::change_positions(lhs_src, rhs_src);
            let rhs_positions = line_parser::change_positions(rhs_src, lhs_src);
            (Some("Text (exceeded DFT_GRAPH_LIMIT)".to_owned()), lhs_positions, rhs_positions)
        },
    }
}

/// Compare two versions of a file, given as bytes, and report for each
/// side which of its positions are novel and which are matched.
///
/// The paths are used for display and to guess the language, never to
/// read anything. With `keep_unchanged` the trimmer is switched off.
#[verifier::rlimit(40)]
pub fn diff_file_content_with(
    lhs_display_path: &str,
    rhs_display_path: &str,
    _lhs_path: &FileArgument,
    rhs_path: &FileArgument,
    lhs_bytes: &[u8],
    rhs_bytes: &[u8],
    tab_width: usize,
    graph_limit: usize,
    byte_limit: usize,
    language_override: Option<Language>,
    keep_unchanged: bool,
) -> (res: DiffResult)
    ensures
        res@ == diff_file_content_spec(
            lhs_display_path@,
            rhs_display_path@,
            rhs_path@,
            lhs_bytes@,
            rhs_bytes@,
            tab_width as nat,
            graph_limit as nat,
            byte_limit as nat,
            language_override,
            keep_unchanged,
        ),
        lhs_bytes@ == rhs_bytes@ ==> res@.lhs_positions.len() == 0 && res@.rhs_positions.len() == 0,
        ascending(res@.lhs_positions),
        ascending(res@.rhs_positions),
        well_formed(res@.lhs_positions),
        well_formed(res@.rhs_positions),
{
    let lhs_kind = guess_content(lhs_bytes);
    let rhs_kind = guess_content(rhs_bytes);
    let binary = match (&lhs_kind, &rhs_kind) {
        (ProbableFileKind::Text(_), ProbableFileKind::Text(_)) => false,
        _ => true,
    };
    if binary {
        return DiffResult {
            lhs_display_path: lhs_display_path.to_owned(),
            rhs_display_path: rhs_display_path.to_owned(),
            language: None,
            detected_language: None,
            lhs_src: FileContent::Binary(slice_to_vec(lhs_bytes)),
            rhs_src: FileContent::Binary(slice_to_vec(rhs_bytes)),
            lhs_positions: Vec::new(),
            rhs_positions: Vec::new(),
        };
    }
    let language = pick_language(lhs_display_path, rhs_display_path, rhs_path, language_override);
    if bytes_eq(lhs_bytes, rhs_bytes) {
        // Identical files: nothing to compare.
        return DiffResult {
            lhs_display_path: lhs_display_path.to_owned(),
            rhs_display_path: rhs_display_path.to_owned(),
            language: name_for(language),
            detected_language: language,
            lhs_src: FileContent::Text(Vec::new()),
            rhs_src: FileContent::Text(Vec::new()),
            lhs_positions: Vec::new(),
            rhs_positions: Vec::new(),
        };
    }
    let lhs_src = clean(lhs_bytes, tab_width);
    let rhs_src = clean(rhs_bytes, tab_width);
    let (lang_name, lhs_positions, rhs_positions) = if lhs_bytes.len() > byte_limit
        || rhs_bytes.len() > byte_limit {
        let lhs_positions = line_parser::change_positions(lhs_src.as_slice(), rhs_src.as_slice());
        let rhs_positions = line_parser::change_positions(rhs_src.as_slice(), lhs_src.as_slice());
        (Some("Text (exceeded DFT_BYTE_LIMIT)".to_owned()), lhs_positions, rhs_positions)
    } else {
        match language {
            Some(l) => {
                let lhs = parse(lhs_src.as_slice(), l);
                let rhs = parse(rhs_src.as_slice(), l);
                let out = diff_trees(
                    &lhs,
                    &rhs,
                    lhs_src.as_slice(),
                    rhs_src.as_slice(),
                    l,
                    graph_limit,
                    keep_unchanged,
                );
                out
            },
            None => {
                let lhs_positions = line_parser::change_positions(
                    lhs_src.as_slice(),
                    rhs_src.as_slice(),
                );
                let rhs_positions = line_parser::change_positions(
                    rhs_src.as_slice(),
                    lhs_src.as_slice(),
                );
                (None, lhs_positions, rhs_positions)
            },
        }
    };
    DiffResult {
        lhs_display_path: lhs_display_path.to_owned(),
        rhs_display_path: rhs_display_path.to_owned(),
        language: lang_name,
        detected_language: language,
        lhs_src: FileContent::Text(lhs_src),
        rhs_src: FileContent::Text(rhs_src),
        lhs_positions,
        rhs_positions,
    }
}

/// Compare two versions of a file, given as bytes, and report for each
/// side which of its positions are novel and which are matched.
pub fn diff_file_content(
    lhs_display_path: &str,
    rhs_display_path: &str,
    lhs_path: &FileArgument,
    rhs_path: &FileArgument,
    lhs_bytes: &[u8],
    rhs_bytes: &[u8],
    tab_width: usize,
    graph_limit: usize,
    byte_limit: usize,
    language_override: Option<Language>,
) -> (res: DiffResult)
    ensures
        res@ == diff_file_content_spec(
            lhs_display_path@,
            rhs_display_path@,
            rhs_path@,
            lhs_bytes@,
            rhs_bytes@,
            tab_width as nat,
            graph_limit as nat,
            byte_limit as nat,
            language_override,
            false,
        ),
        lhs_bytes@ == rhs_bytes@ ==> res@.lhs_positions.len() == 0 && res@.rhs_positions.len() == 0,
        ascending(res@.lhs_positions),
        ascending(res@.rhs_positions),
        well_formed(res@.lhs_positions),
        well_formed(res@.rhs_positions),
{
    diff_file_content_with(
        lhs_display_path,
        rhs_display_path,
        lhs_path,
        rhs_path,
        lhs_bytes,
        rhs_bytes,
        tab_width,
        graph_limit,
        byte_limit,
        language_override,
        false,
    )
}

} // verus!
