//! The result of comparing two files, and what a display has to say
//! about it.

use vstd::prelude::*;
use crate::guess_language::Language;
use crate::option_types::{DisplayMode, DisplayOptions, str_eq};
use crate::positions::{MatchKind, MatchedPos};
use crate::text::bytes_eq;

verus! {

/// The content of one side: text as bytes, with tabs replaced and without
/// the final line feed, or the bytes of a binary file as they are.
#[derive(Debug)]
pub enum FileContent {
    Text(Vec<u8>),
    Binary(Vec<u8>),
}

/// The content of one side as plain values.
pub enum FileContentView {
    Text(Seq<u8>),
    Binary(Seq<u8>),
}

impl View for FileContent {
    type V = FileContentView;

    open spec fn view(&self) -> FileContentView {
        match self {
            FileContent::Text(t) => FileContentView::Text(t@),
            FileContent::Binary(b) => FileContentView::Binary(b@),
        }
    }
}

/// What the comparison of two files found.
#[derive(Debug)]
pub struct DiffResult {
    pub lhs_display_path: String,
    pub rhs_display_path: String,
    /// The name of the language by which the files were compared, or a
    /// name that begins with `Text` where they were compared by lines;
    /// `None` where the language is unknown.
    pub language: Option<String>,
    pub detected_language: Option<Language>,
    pub lhs_src: FileContent,
    pub rhs_src: FileContent,
    pub lhs_positions: Vec<MatchedPos>,
    pub rhs_positions: Vec<MatchedPos>,
}

/// A result as plain values.
pub struct DiffResultView {
    pub lhs_display_path: Seq<char>,
    pub rhs_display_path: Seq<char>,
    pub language: Option<Seq<char>>,
    pub detected_language: Option<Language>,
    pub lhs_src: FileContentView,
    pub rhs_src: FileContentView,
    pub lhs_positions: Seq<MatchedPos>,
    pub rhs_positions: Seq<MatchedPos>,
}

impl View for DiffResult {
    type V = DiffResultView;

    open spec fn view(&self) -> DiffResultView {
        DiffResultView {
            lhs_display_path: self.lhs_display_path@,
            rhs_display_path: self.rhs_display_path@,
            language: match self.language {
                Some(name) => Some(name@),
                None => None,
            },
            detected_language: self.detected_language,
            lhs_src: self.lhs_src@,
            rhs_src: self.rhs_src@,
            lhs_positions: self.lhs_positions@,
            rhs_positions: self.rhs_positions@,
        }
    }
}

/// Whether some position is novel.
pub open spec fn has_novel(positions: Seq<MatchedPos>) -> bool {
    exists|k: int| 0 <= k < positions.len() && (#[trigger] positions[k]).kind is Novel
}

/// Whether some position is novel.
pub fn any_novel(positions: &Vec<MatchedPos>) -> (res: bool)
    ensures
        res == has_novel(positions@),
{
    let mut k: usize = 0;
    while k < positions.len()
        invariant
            k <= positions@.len(),
            forall|m: int| 0 <= m < k ==> !((#[trigger] positions@[m]).kind is Novel),
        decreases positions@.len() - k,
    {
        match positions[k].kind {
            MatchKind::Novel => {
                return true;
            },
            _ => {},
        }
        k += 1;
    }
    false
}

/// What a display says where it shows no hunks.
#[derive(Debug, Copy, Clone, PartialEq, Eq, Structural)]
pub enum Verdict {
    NoChanges,
    NoSyntacticChanges,
    BinaryChanged,
}

/// What a display does with a result.
#[derive(Debug, Copy, Clone, PartialEq, Eq, Structural)]
pub enum Report {
    /// Print nothing.
    Silent,
    /// Print the header, `binary` in place of the language if `binary`,
    /// and the verdict.
    Message { binary: bool, verdict: Verdict },
    /// Print the hunks in the given mode.
    Hunks { mode: DisplayMode },
}

/// The name of the language that a display shows for a result: `Text`
/// where the result names none.
pub open spec fn shown_language(language: Option<Seq<char>>) -> Seq<char> {
    match language {
        Some(name) => name,
        None => "Text"@,
    }
}

/// What a display does with a result: files without a novel position
/// are reported as unchanged, and only if unchanged files are to be
/// shown at all; differing binary files are reported as changed; all
/// else is shown as hunks.
pub open spec fn report_spec(print_unchanged: bool, mode: DisplayMode, summary: DiffResultView)
    -> Report {
    match (summary.lhs_src, summary.rhs_src) {
        (FileContentView::Text(lhs), FileContentView::Text(rhs)) => {
            if has_novel(summary.lhs_positions) || has_novel(summary.rhs_positions) {
                Report::Hunks { mode }
            } else if !print_unchanged {
                Report::Silent
            } else if shown_language(summary.language) == "Text"@ || lhs == rhs {
                Report::Message { binary: false, verdict: Verdict::NoChanges }
            } else {
                Report::Message { binary: false, verdict: Verdict::NoSyntacticChanges }
            }
        },
        (FileContentView::Binary(lhs), FileContentView::Binary(rhs)) => {
            if lhs != rhs {
                Report::Message { binary: true, verdict: Verdict::BinaryChanged }
            } else if print_unchanged {
                Report::Message { binary: true, verdict: Verdict::NoChanges }
            } else {
                Report::Silent
            }
        },
        _ => Report::Message { binary: true, verdict: Verdict::BinaryChanged },
    }
}

/// Decide what a display does with a result.
pub fn diff_report(display_options: &DisplayOptions, summary: &DiffResult) -> (res: Report)
    ensures
        res == report_spec(display_options.print_unchanged, display_options.display_mode, summary@),
{
    match (&summary.lhs_src, &summary.rhs_src) {
        (FileContent::Text(lhs), FileContent::Text(rhs)) => {
            if any_novel(&summary.lhs_positions) || any_novel(&summary.rhs_positions) {
                Report::Hunks { mode: display_options.display_mode }
            } else if !display_options.print_unchanged {
                Report::Silent
            } else {
                let is_text = match &summary.language {
                    Some(name) => str_eq(name.as_str(), "Text"),
                    None => true,
                };
                if is_text || bytes_eq(lhs.as_slice(), rhs.as_slice()) {
                    Report::Message { binary: false, verdict: Verdict::NoChanges }
                } else {
                    Report::Message { binary: false, verdict: Verdict::NoSyntacticChanges }
                }
            }
        },
        (FileContent::Binary(lhs), FileContent::Binary(rhs)) => {
            if !bytes_eq(lhs.as_slice(), rhs.as_slice()) {
                Report::Message { binary: true, verdict: Verdict::BinaryChanged }
            } else if display_options.print_unchanged {
                Report::Message { binary: true, verdict: Verdict::NoChanges }
            } else {
                Report::Silent
            }
        },
        _ => Report::Message { binary: true, verdict: Verdict::BinaryChanged },
    }
}

} // verus!
