//! The files to lay out and the options that govern the layout.

use nu_ansi_term::Style;
use vstd::prelude::*;
use crate::cell::{TableRow, TextCell};

verus! {

/// One file of the listing, with everything the layout reads of it.
///
/// A directory carries its own listing once it has been read: the files it
/// holds (already filtered as the listing's filter wants them, in the
/// directory's order) or the message of the error that reading it gave.
#[derive(Debug, PartialEq, Eq)]
pub struct Entry {
    /// The file's name.
    pub name: String,
    /// The file's path as it is displayed.
    pub path: String,
    /// Whether the file was found inside a listed directory (as opposed to
    /// being named directly).
    pub has_parent_dir: bool,
    pub is_directory: bool,
    pub is_link: bool,
    /// Whether the file is, or links to, a directory.
    pub points_to_directory: bool,
    /// The rendered name, with link targets and mount details.
    pub name_cell: TextCell,
    /// The rendered name alone.
    pub plain_name_cell: TextCell,
    /// The file's icon.
    pub icon: char,
    /// The file's extended attributes, each as it is displayed.
    pub xattrs: Vec<String>,
    /// Whether the file has an SELinux security context.
    pub has_selinux_context: bool,
    /// Whether the git cache knows anything of the file's path.
    pub has_git_status: bool,
    /// The file's details columns, when a table is shown, with no
    /// extended-attribute hint in them.
    pub cells: Option<TableRow>,
    /// The same columns with the extended-attribute hint `@` shown.
    pub hinted_cells: Option<TableRow>,
    /// Where the file comes once its listing is sorted (0 for the first).
    pub sort_position: usize,
    /// The result of reading the directory, when it was read.
    pub contents: Option<Result<Vec<Entry>, String>>,
}

/// The directory being listed, as far as the layout cares.
#[derive(Debug, PartialEq, Eq)]
pub struct Directory {
    /// Whether the git cache knows anything of the directory's path.
    pub has_git_status: bool,
}

/// How far and in what way the tree view descends into directories.
#[derive(Clone, Copy, Debug, PartialEq, Eq, Structural)]
pub struct RecurseOptions {
    /// Whether directories are shown as a tree.
    pub tree: bool,
    /// The depth from which directories are no longer read.
    pub max_depth: Option<usize>,
    /// Whether chains of single-child directories collapse into one row.
    pub collapse_single: bool,
    /// Whether the files of leaf directories are laid out as grids.
    pub table_leaves: bool,
}

/// A directory at `depth` lies at or past the maximum depth.
pub open spec fn too_deep(r: RecurseOptions, depth: int) -> bool {
    match r.max_depth {
        Some(m) => m <= depth,
        None => false,
    }
}

impl RecurseOptions {
    /// Whether a directory at `depth` lies at or past the maximum depth.
    pub fn is_too_deep(self, depth: usize) -> (b: bool)
        ensures
            b == too_deep(self, depth as int),
    {
        match self.max_depth {
            None => false,
            Some(d) => d <= depth,
        }
    }
}

/// How file sizes and ages are coloured in the details columns.
#[derive(Clone, Copy, Debug, PartialEq, Eq, Structural)]
pub enum ColorScaleMode {
    Fixed,
    Gradient,
}

#[derive(Clone, Copy, Debug, PartialEq, Eq, Structural)]
pub struct ColorScaleOptions {
    pub mode: ColorScaleMode,
    pub min_luminance: isize,
    pub size: bool,
    pub age: bool,
}

/// The details table: the header cells of its columns.
#[derive(Debug, PartialEq, Eq)]
pub struct TableOptions {
    pub header_row: TableRow,
}

/// Options of the details view.
#[derive(Debug, PartialEq, Eq)]
pub struct Options {
    /// The details table, when one is shown.
    pub table: Option<TableOptions>,
    /// Whether to show a header line.
    pub header: bool,
    /// Whether to show each file's extended attributes.
    pub xattr: bool,
    /// Whether to show each file's security attribute.
    pub secattr: bool,
    /// Whether to show a directory's mounted filesystem details.
    pub mounts: bool,
    pub color_scale: ColorScaleOptions,
    /// Whether to descend into symbolic links that point to directories.
    pub follow_links: bool,
}

/// Whether and when icons are shown, with the spaces after an icon.
#[derive(Clone, Copy, Debug, PartialEq, Eq, Structural)]
pub enum ShowIcons {
    Never,
    Always(u32),
    Automatic(u32),
}

/// Whether a type indicator follows file names.
#[derive(Clone, Copy, Debug, PartialEq, Eq, Structural)]
pub enum Classify {
    JustFilenames,
    AddFileIndicators,
    AutomaticAddFileIndicators,
}

/// How file names are rendered.
#[derive(Clone, Copy, Debug, PartialEq, Eq, Structural)]
pub struct FileStyle {
    pub show_icons: ShowIcons,
    pub classify: Classify,
    /// Whether the output goes to a terminal.
    pub is_a_tty: bool,
}

/// The styles the layout paints with.
#[derive(Clone, Copy, Debug, PartialEq, Eq)]
pub struct Theme {
    /// Directory names.
    pub directory: Style,
    /// The icons of directories.
    pub directory_icon: Style,
    /// Tree-drawing parts.
    pub punctuation: Style,
    /// The header line.
    pub header: Style,
    /// Error messages.
    pub broken_symlink: Style,
    /// Extended attribute lines.
    pub attribute: Style,
}

/// The files of a directory, when it was read without error.
pub open spec fn listing(e: Entry) -> Option<Seq<Entry>> {
    match e.contents {
        Some(Ok(v)) => Some(v@),
        _ => None,
    }
}

/// How many levels of read directories an entry spans (1 for an entry
/// whose contents were not read).
pub open spec fn height(e: Entry) -> nat
    decreases e,
{
    match e.contents {
        Some(Ok(v)) => 1 + heights(v@),
        _ => 1,
    }
}

/// The greatest height among a sequence of entries (0 for none).
pub open spec fn heights(s: Seq<Entry>) -> nat
    decreases s,
{
    if s.len() == 0 {
        0
    } else {
        let a = heights(s.drop_last());
        let b = height(s.last());
        if a >= b {
            a
        } else {
            b
        }
    }
}

/// The sort positions of a listing number its entries from 0 on, each
/// position taken by exactly one entry.
pub open spec fn positions_valid(s: Seq<Entry>) -> bool {
    &&& forall|i: int| 0 <= i < s.len() ==> #[trigger] s[i].sort_position < s.len()
    &&& forall|i: int, j: int|
        0 <= i < s.len() && 0 <= j < s.len() && i != j ==> #[trigger] s[i].sort_position
            != #[trigger] s[j].sort_position
    &&& forall|r: int| 0 <= r < s.len() ==> #[trigger] has_position(s, r)
}

/// Some entry of the listing comes `r`-th once sorted.
pub open spec fn has_position(s: Seq<Entry>, r: int) -> bool {
    exists|i: int| 0 <= i < s.len() && s[i].sort_position == r
}

/// Every listing in the tree below an entry has valid sort positions.
pub open spec fn entry_well_formed(e: Entry) -> bool
    decreases e,
{
    match e.contents {
        Some(Ok(v)) => listing_well_formed(v@),
        _ => true,
    }
}

/// A listing and every listing below it have valid sort positions.
pub open spec fn listing_well_formed(s: Seq<Entry>) -> bool
    decreases s,
{
    &&& positions_valid(s)
    &&& forall|i: int| 0 <= i < s.len() ==> entry_well_formed(#[trigger] s[i])
}

/// The index of the entry that comes `r`-th once the listing is sorted.
pub open spec fn index_at_position(s: Seq<Entry>, r: int) -> int {
    if has_position(s, r) {
        choose|i: int| 0 <= i < s.len() && s[i].sort_position == r
    } else {
        0
    }
}

/// The listing in sorted order.
pub open spec fn sorted(s: Seq<Entry>) -> Seq<Entry> {
    Seq::new(s.len(), |r: int| s[index_at_position(s, r)])
}

pub proof fn lemma_member_height(s: Seq<Entry>, i: int)
    requires
        0 <= i < s.len(),
    ensures
        height(s[i]) <= heights(s),
    decreases s.len(),
{
    if i < s.len() - 1 {
        lemma_member_height(s.drop_last(), i);
        assert(s.drop_last()[i] == s[i]);
    }
}

pub proof fn lemma_sorted_member(s: Seq<Entry>, r: int)
    requires
        0 <= r < s.len(),
    ensures
        0 <= index_at_position(s, r) < s.len(),
        sorted(s)[r] == s[index_at_position(s, r)],
        height(sorted(s)[r]) <= heights(s),
{
    lemma_member_height(s, index_at_position(s, r));
}

pub proof fn lemma_sorted_index(s: Seq<Entry>, r: int, i: int)
    requires
        positions_valid(s),
        0 <= i < s.len(),
        s[i].sort_position == r,
    ensures
        index_at_position(s, r) == i,
        sorted(s)[r] == s[i],
{
    let k = index_at_position(s, r);
    assert(s[k].sort_position == r);
    if k != i {
        assert(s[k].sort_position != s[i].sort_position);
    }
}

pub proof fn lemma_listing_height(e: Entry)
    ensures
        listing(e) is Some ==> heights(listing(e)->0) < height(e),
        height(e) >= 1,
{
}

/// The order in which a listing's entries come once sorted: the index of
/// the entry at each position.
pub fn sort_order(s: &Vec<Entry>) -> (order: Vec<usize>)
    requires
        positions_valid(s@),
    ensures
        order@.len() == s@.len(),
        forall|r: int|
            0 <= r < s@.len() ==> {
                &&& #[trigger] order@[r] < s@.len()
                &&& s@[order@[r] as int].sort_position == r
                &&& order@[r] == index_at_position(s@, r)
            },
{
    let n = s.len();
    let mut order: Vec<usize> = Vec::new();
    while order.len() < n
        invariant
            order@.len() <= n,
            n == s@.len(),
        decreases n - order@.len(),
    {
        order.push(0);
    }
    let mut i: usize = 0;
    while i < n
        invariant
            i <= n,
            n == s@.len(),
            order@.len() == n,
            positions_valid(s@),
            forall|k: int| 0 <= k < i ==> order@[#[trigger] s@[k].sort_position as int] == k,
        decreases n - i,
    {
        let p = s[i].sort_position;
        order.set(p, i);
        assert forall|k: int| 0 <= k < i + 1 implies order@[#[trigger] s@[k].sort_position as int]
            == k by {
            if k < i {
                assert(s@[k].sort_position != s@[i as int].sort_position);
            }
        }
        i = i + 1;
    }
    assert forall|r: int| 0 <= r < s@.len() implies {
        &&& #[trigger] order@[r] < s@.len()
        &&& s@[order@[r] as int].sort_position == r
        &&& order@[r] == index_at_position(s@, r)
    } by {
        assert(has_position(s@, r));
        let k = choose|k: int| 0 <= k < s@.len() && s@[k].sort_position == r;
        assert(order@[s@[k].sort_position as int] == k);
        lemma_sorted_index(s@, r, k);
    }
    order
}

/// Sorting a listing with valid positions reorders it and nothing more:
/// each entry lands at its own position, and each position holds the entry
/// of the listing that has it.
pub proof fn lemma_sorted_permutation(s: Seq<Entry>)
    requires
        positions_valid(s),
    ensures
        sorted(s).len() == s.len(),
        forall|i: int| 0 <= i < s.len() ==> sorted(s)[#[trigger] s[i].sort_position as int] == s[i],
        forall|r: int|
            0 <= r < s.len() ==> {
                &&& 0 <= #[trigger] index_at_position(s, r) < s.len()
                &&& sorted(s)[r] == s[index_at_position(s, r)]
                &&& s[index_at_position(s, r)].sort_position == r
            },
{
    assert forall|i: int| 0 <= i < s.len() implies sorted(s)[#[trigger] s[i].sort_position as int]
        == s[i] by {
        lemma_sorted_index(s, s[i].sort_position as int, i);
    }
    assert forall|r: int| 0 <= r < s.len() implies {
        &&& 0 <= #[trigger] index_at_position(s, r) < s.len()
        &&& sorted(s)[r] == s[index_at_position(s, r)]
        &&& s[index_at_position(s, r)].sort_position == r
    } by {
        assert(has_position(s, r));
        let i = choose|i: int| 0 <= i < s.len() && s[i].sort_position == r;
        lemma_sorted_index(s, r, i);
    }
}

} // verus!
