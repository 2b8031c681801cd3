//! Options that callers pass to the diff engine and to the display layer.

use vstd::prelude::*;

verus! {

/// Upper bound on the number of graph vertices visited by the search before
/// it gives up. Large enough for real files, small enough to end in seconds.
pub const DEFAULT_GRAPH_LIMIT: usize = 3_000_000;

/// Inputs larger than this many bytes are compared line by line.
pub const DEFAULT_BYTE_LIMIT: usize = 1_000_000;

/// Number of spaces that stands for one tab character.
pub const DEFAULT_TAB_WIDTH: usize = 8;

/// How the changed parts of the two sides are laid out.
#[derive(Debug, Copy, Clone, PartialEq, Eq, Structural)]
pub enum DisplayMode {
    Inline,
    SideBySide,
    SideBySideShowBoth,
}

/// Whether the terminal is dark or light.
#[derive(Debug, Copy, Clone, PartialEq, Eq, Structural)]
pub enum BackgroundColor {
    Dark,
    Light,
}

/// What a display needs to know to print a result.
#[derive(Debug, Clone)]
pub struct DisplayOptions {
    pub background_color: BackgroundColor,
    pub use_color: bool,
    pub display_mode: DisplayMode,
    pub print_unchanged: bool,
    pub tab_width: usize,
    pub display_width: usize,
    pub num_context_lines: u32,
    pub in_vcs: bool,
    pub syntax_highlight: bool,
}

/// Where one side of a comparison comes from. Only used to pick the name
/// from which the language is guessed; the engine itself reads no file.
#[derive(Debug)]
pub enum FileArgument {
    NamedPath(String),
    Stdin,
    DevNull,
}

/// A file argument as plain values.
pub enum FileArgumentView {
    NamedPath(Seq<char>),
    Stdin,
    DevNull,
}

impl View for FileArgument {
    type V = FileArgumentView;

    open spec fn view(&self) -> FileArgumentView {
        match self {
            FileArgument::NamedPath(path) => FileArgumentView::NamedPath(path@),
            FileArgument::Stdin => FileArgumentView::Stdin,
            FileArgument::DevNull => FileArgumentView::DevNull,
        }
    }
}

/// The argument that a command line word stands for: `/dev/null` and `-`
/// are special, any other word names a path.
pub open spec fn cli_argument_spec(arg: Seq<char>) -> FileArgumentView {
    if arg == "/dev/null"@ {
        FileArgumentView::DevNull
    } else if arg == "-"@ {
        FileArgumentView::Stdin
    } else {
        FileArgumentView::NamedPath(arg)
    }
}

/// The text shown for an argument.
pub open spec fn display_spec(arg: FileArgumentView) -> Seq<char> {
    match arg {
        FileArgumentView::NamedPath(path) => path,
        FileArgumentView::Stdin => "(stdin)"@,
        FileArgumentView::DevNull => "/dev/null"@,
    }
}

impl FileArgument {
    /// The argument that a command line word stands for: `/dev/null` and `-`
    /// are special, any other word names a path.
    pub fn from_cli_argument(arg: &str) -> (res: Self)
        ensures
            res@ == cli_argument_spec(arg@),
    {
        if str_eq(arg, "/dev/null") {
            FileArgument::DevNull
        } else if str_eq(arg, "-") {
            FileArgument::Stdin
        } else {
            FileArgument::NamedPath(arg.to_owned())
        }
    }

    /// An argument that always names a path, whatever the word is.
    pub fn from_path_argument(arg: &str) -> (res: Self)
        ensures
            res@ == FileArgumentView::NamedPath(arg@),
    {
        FileArgument::NamedPath(arg.to_owned())
    }

    /// The text shown for this argument.
    pub fn display(&self) -> (res: String)
        ensures
            res@ == display_spec(self@),
    {
        match self {
            FileArgument::NamedPath(path) => path.clone(),
            FileArgument::Stdin => "(stdin)".to_owned(),
            FileArgument::DevNull => "/dev/null".to_owned(),
        }
    }
}

/// Whether two strings hold the same characters.
pub fn str_eq(a: &str, b: &str) -> (res: bool)
    ensures
        res == (a@ == b@),
{
    let x = a.as_bytes();
    let y = b.as_bytes();
    proof {
        vstd::utf8::encode_utf8_decode_utf8(a@);
        vstd::utf8::encode_utf8_decode_utf8(b@);
    }
    if x.len() != y.len() {
        assert(vstd::utf8::encode_utf8(a@) != vstd::utf8::encode_utf8(b@));
        return false;
    }
    let mut i: usize = 0;
    while i < x.len()
        invariant
            x@.len() == y@.len(),
            x@ == vstd::utf8::encode_utf8(a@),
            y@ == vstd::utf8::encode_utf8(b@),
            i <= x@.len(),
            forall|k: int| 0 <= k < i ==> x@[k] == y@[k],
        decreases x@.len() - i,
    {
        if x[i] != y[i] {
            assert(x@[i as int] != y@[i as int]);
            assert(vstd::utf8::encode_utf8(a@) != vstd::utf8::encode_utf8(b@));
            return false;
        }
        i += 1;
    }
    assert(x@ =~= y@);
    assert(vstd::utf8::encode_utf8(a@) == vstd::utf8::encode_utf8(b@));
    true
}

} // verus!
