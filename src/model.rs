use vstd::prelude::*;

verus! {

/// What an entry is, once a symbolic link has been resolved.
#[derive(Clone, Copy, Debug, PartialEq, Eq, Structural)]
pub enum Kind {
    Dir,
    File,
    Other,
}

/// Whether an entry is a symbolic link, and what it points to.
#[derive(Debug)]
pub enum Link {
    /// Not a symbolic link.
    Plain,
    /// A symbolic link with its textual target.
    Target(String),
    /// A symbolic link whose target could not be read; holds the diagnostic.
    Unresolved(String),
}

/// The children of a directory, as far as they were read.
#[derive(Debug)]
pub enum Listing {
    /// Not read: the walk does not descend here.
    Unread,
    /// Reading failed; holds the diagnostic.
    Failed(String),
    /// The entries of the directory, in any order.
    Read(Vec<Entry>),
}

/// One child of a directory.
#[derive(Debug)]
pub struct Entry {
    /// The raw bytes of the name: the sort key and the hidden-file test.
    pub name: Vec<u8>,
    /// Whether the name is valid UTF-8 text; only such a name can be hidden.
    pub utf8: bool,
    /// The name as it is printed.
    pub display: String,
    pub kind: Kind,
    pub link: Link,
    pub listing: Listing,
}

/// How a walk is to be made.
#[derive(Clone, Copy, Debug)]
pub struct Request {
    /// How many levels below the root may be listed; `None` is unbounded.
    pub depth: Option<u32>,
    pub show_hidden: bool,
    pub follow_symlinks: bool,
}

/// Counts of the directories and files a walk came across.
#[derive(Clone, Copy, Debug, PartialEq, Eq, Structural)]
pub struct Summary {
    pub dirs: u64,
    pub files: u64,
}

/// One line of output: a line of the tree, or a diagnostic.
#[derive(Debug)]
pub enum Line {
    Tree(String),
    Diag(String),
}

/// The mathematical value of a `Line`.
pub enum LineView {
    Tree(Seq<char>),
    Diag(Seq<char>),
}

impl View for Line {
    type V = LineView;

    open spec fn view(&self) -> LineView {
        match self {
            Line::Tree(s) => LineView::Tree(s@),
            Line::Diag(s) => LineView::Diag(s@),
        }
    }
}

pub open spec fn lines_view(v: Seq<Line>) -> Seq<LineView> {
    v.map_values(|l: Line| l@)
}

/// Whether a directory at the level that `levels` describes may be listed.
pub open spec fn may_list(levels: Option<u32>) -> bool {
    match levels {
        None => true,
        Some(n) => n > 0,
    }
}

/// The level budget one level further down.
pub open spec fn spec_deeper(levels: Option<u32>) -> Option<u32> {
    match levels {
        None => None,
        Some(n) => if n > 0 { Some((n - 1) as u32) } else { Some(0) },
    }
}

/// Whether a directory may be listed under the level budget `levels`.
pub fn can_list(levels: Option<u32>) -> (r: bool)
    ensures
        r == may_list(levels),
{
    match levels {
        None => true,
        Some(n) => n > 0,
    }
}

/// The level budget of a directory's children.
pub fn deeper(levels: Option<u32>) -> (r: Option<u32>)
    ensures
        r == spec_deeper(levels),
{
    match levels {
        None => None,
        Some(n) => if n > 0 { Some(n - 1) } else { Some(0) },
    }
}

} // verus!
