//! The details and tree views: the rows that a listing turns into.

use nu_ansi_term::Style;
use vstd::prelude::*;
use crate::cell::{
    CellView, Segment, TableRow, TextCell, add_width, empty_cell, joined, padded, painted, pushed,
    space_string, spaces, char_string,
};
use crate::leaf::{LeafTableConfig, leaf_layout, nested_view};
use crate::model::{
    Classify, Directory, Entry, FileStyle, Options, RecurseOptions, ShowIcons, Theme, height,
    heights, listing, too_deep, lemma_member_height, lemma_listing_height, sorted,
    lemma_sorted_member, entry_well_formed, listing_well_formed, sort_order, positions_valid,
    lemma_sorted_permutation, index_at_position,
};
use crate::tree::{TreeDepth, TreeParams, TreePart, TreeTrunk, art, next_stack, steps_down_by_one};
use crate::width::{display_width, text_width};

verus! {

/// One line of output: the details columns (when a table is shown), the
/// name, and where the line stands in the tree.
#[derive(Debug, PartialEq, Eq)]
pub struct Row {
    pub cells: Option<TableRow>,
    pub name: TextCell,
    pub tree: TreeParams,
}

/// The view of a row: its cells, its name, its position.
pub type RowView = (Option<Seq<CellView>>, CellView, TreeParams);

impl View for Row {
    type V = RowView;

    open spec fn view(&self) -> RowView {
        (
            match self.cells {
                Some(t) => Some(t@),
                None => None,
            },
            self.name@,
            self.tree,
        )
    }
}

/// The view of a sequence of rows.
pub open spec fn rows_view(rows: Seq<Row>) -> Seq<RowView> {
    rows.map_values(|r: Row| r@)
}

/// The position of a row at `depth`.
pub open spec fn at(depth: int, last: bool) -> TreeParams {
    TreeParams { depth: TreeDepth(depth as usize), last }
}

/// A row with no cells that shows a text in a style.
pub open spec fn message_row(style: Style, text: Seq<char>, tree: TreeParams) -> RowView {
    (None, painted(style, text), tree)
}

/// The text that reports an error, with the path it concerns when there is one.
pub open spec fn error_text(error: Seq<char>, path: Option<Seq<char>>) -> Seq<char> {
    match path {
        Some(p) => seq!['<'] + p + seq![':', ' '] + error + seq!['>'],
        None => seq!['<'] + error + seq!['>'],
    }
}

/// A directory of its own (a link to a directory counts as a file).
pub open spec fn is_dir_entry(e: Entry) -> bool {
    e.is_directory && !e.is_link
}

/// A directory of its own with something below it: files, or the error
/// that reading it gave.
pub open spec fn holds_content(e: Entry) -> bool {
    &&& is_dir_entry(e)
    &&& match e.contents {
        Some(Ok(v)) => v@.len() > 0,
        Some(Err(_)) => true,
        None => false,
    }
}

/// Some entry of the listing is a directory with something below it.
pub open spec fn has_content_dir(files: Seq<Entry>) -> bool {
    exists|i: int| 0 <= i < files.len() && #[trigger] holds_content(files[i])
}

/// A listing of files and empty directories only: a leaf of the tree.
pub open spec fn is_leaf(files: Seq<Entry>) -> bool {
    &&& files.len() > 0
    &&& !has_content_dir(files)
}

/// Whether an entry is a directory with something below it.
pub fn entry_holds_content(e: &Entry) -> (held: bool)
    ensures
        held == holds_content(*e),
{
    if !e.is_directory || e.is_link {
        return false;
    }
    match &e.contents {
        Some(Ok(v)) => v.len() > 0,
        Some(Err(_)) => true,
        None => false,
    }
}

/// Whether some entry of a listing is a directory with something below it.
pub fn any_content_dir(files: &Vec<Entry>) -> (found: bool)
    ensures
        found == has_content_dir(files@),
{
    let mut i: usize = 0;
    while i < files.len()
        invariant
            i <= files@.len(),
            forall|k: int| 0 <= k < i ==> !holds_content(#[trigger] files@[k]),
        decreases files@.len() - i,
    {
        if entry_holds_content(&files[i]) {
            assert(holds_content(files@[i as int]));
            return true;
        }
        i = i + 1;
    }
    false
}

/// A rendering of a list of files in the details or tree view.
#[derive(Debug)]
pub struct Render {
    /// The directory being listed, when one is.
    pub dir: Option<Directory>,
    /// The files to show, in the order they were given.
    pub files: Vec<Entry>,
    pub theme: Theme,
    pub file_style: FileStyle,
    pub opts: Options,
    /// Whether to recurse through directories with a tree view, and how.
    pub recurse: Option<RecurseOptions>,
    /// Whether a git cache is at hand.
    pub git: bool,
    /// The width of the terminal, in columns.
    pub term_width: usize,
}

impl Render {
    /// Whether the extended attribute hint `@` is shown for a file: when it
    /// has more than one attribute, or exactly one that is not its security
    /// context shown in a column of its own.
    pub fn show_xattr_hint(&self, file: &Entry) -> (shown: bool)
        ensures
            shown == {
                let count = file.xattrs@.len();
                let context_shown = self.opts.secattr && file.has_selinux_context;
                count > 1 || (count == 1 && !context_shown)
            },
    {
        let xattr_count = file.xattrs.len();
        let selinux_ctx_shown = self.opts.secattr && file.has_selinux_context;
        xattr_count > 1 || (xattr_count == 1 && !selinux_ctx_shown)
    }

    /// The header line: the table's header cells, then `Name`.
    pub fn render_header(&self, header: TableRow) -> (row: Row)
        ensures
            row@ == (Some(header@), painted(self.theme.header, "Name"@), at(0, false)),
    {
        Row {
            tree: TreeParams::new(TreeDepth::root(), false),
            cells: Some(header),
            name: TextCell::paint_str(self.theme.header, "Name"),
        }
    }

    /// A row that reports an error, painted in the error style.
    pub fn render_error(&self, error: &String, tree: TreeParams, path: Option<String>) -> (row: Row)
        ensures
            row@ == message_row(
                self.theme.broken_symlink,
                error_text(
                    error@,
                    match path {
                        Some(p) => Some(p@),
                        None => None,
                    },
                ),
                tree,
            ),
    {
        proof {
            reveal_strlit("<");
            reveal_strlit(": ");
            reveal_strlit(">");
        }
        let mut message = String::from_str("<");
        match &path {
            Some(p) => {
                message.append(p.as_str());
                message.append(": ");
            },
            None => {},
        }
        message.append(error.as_str());
        message.append(">");
        assert(message@ =~= error_text(
            error@,
            match path {
                Some(p) => Some(p@),
                None => None,
            },
        ));
        Row { cells: None, name: TextCell::paint(self.theme.broken_symlink, message), tree }
    }

    /// A row that shows one extended attribute.
    pub fn render_xattr(&self, xattr: &String, tree: TreeParams) -> (row: Row)
        ensures
            row@ == message_row(self.theme.attribute, xattr@, tree),
    {
        Row { cells: None, name: TextCell::paint(self.theme.attribute, xattr.clone()), tree }
    }

    /// Whether a directory's files make it a leaf: there is at least one,
    /// and none is a directory with something below it (empty directories
    /// and links to directories do not count).
    pub fn is_leaf_directory(&self, files: &Vec<Entry>) -> (leaf: bool)
        ensures
            leaf == is_leaf(files@),
    {
        files.len() > 0 && !any_content_dir(files)
    }
}

/// The names that a chain of single-child directories adds below a
/// directory holding `files`, and the files of the directory it ends at.
/// The chain goes on while the directory at `depth + traversed` is not too
/// deep and its only file is a directory (not a link) that was read.
pub open spec fn chain_below(r: RecurseOptions, files: Seq<Entry>, depth: int, traversed: int) -> (
    Seq<Seq<char>>,
    Seq<Entry>,
)
    decreases heights(files),
{
    if too_deep(r, depth + traversed) || files.len() != 1 || files[0].is_link
        || !files[0].is_directory || listing(files[0]) is None {
        (Seq::empty(), files)
    } else {
        proof {
            lemma_member_height(files, 0);
            lemma_listing_height(files[0]);
        }
        let next = chain_below(r, listing(files[0])->0, depth, traversed + 1);
        (seq![files[0].name@] + next.0, next.1)
    }
}

pub proof fn lemma_chain_height(r: RecurseOptions, files: Seq<Entry>, depth: int, traversed: int)
    ensures
        chain_below(r, files, depth, traversed).0.len() + heights(chain_below(r, files, depth, traversed).1)
            <= heights(files),
    decreases heights(files),
{
    if !(too_deep(r, depth + traversed) || files.len() != 1 || files[0].is_link
        || !files[0].is_directory || listing(files[0]) is None) {
        lemma_member_height(files, 0);
        lemma_listing_height(files[0]);
        lemma_chain_height(r, listing(files[0])->0, depth, traversed + 1);
    }
}

/// Names joined with `/` between them.
pub open spec fn join_path(names: Seq<Seq<char>>) -> Seq<char>
    decreases names.len(),
{
    if names.len() == 0 {
        Seq::empty()
    } else if names.len() == 1 {
        names[0]
    } else {
        join_path(names.drop_last()) + seq!['/'] + names.last()
    }
}

/// The spaces after an icon, when icons are shown: always, or on a terminal.
pub open spec fn icon_gap(fs: FileStyle) -> Option<u32> {
    match fs.show_icons {
        ShowIcons::Always(n) => Some(n),
        ShowIcons::Automatic(n) => if fs.is_a_tty {
            Some(n)
        } else {
            None
        },
        ShowIcons::Never => None,
    }
}

/// Whether a `/` follows directory names: always, or on a terminal.
pub open spec fn classify_shown(fs: FileStyle) -> bool {
    match fs.classify {
        Classify::AddFileIndicators => true,
        Classify::AutomaticAddFileIndicators => fs.is_a_tty,
        Classify::JustFilenames => false,
    }
}

/// The path a collapsed chain shows: the names joined with `/`; for a file
/// named directly, its own path stands in place of its name.
pub open spec fn collapsed_path(e: Entry, names: Seq<Seq<char>>) -> Seq<char> {
    if !e.has_parent_dir {
        let suffix = join_path(names.drop_first());
        if suffix.len() == 0 {
            e.path@
        } else {
            e.path@ + seq!['/'] + suffix
        }
    } else {
        join_path(names)
    }
}

/// A chain of directories collapsed into one row.
pub struct CollapsedChain<'a> {
    /// The names of the directories in the chain, from the top.
    pub names: Vec<String>,
    /// The files of the directory the chain ends at.
    pub final_dir: Option<&'a Vec<Entry>>,
    /// How many directories the chain spans.
    pub depth_traversed: usize,
}

/// The names of a chain, as texts.
pub open spec fn names_view(names: Seq<String>) -> Seq<Seq<char>> {
    names.map_values(|s: String| s@)
}

/// The names from `from` on, joined with `/`.
fn join_names(names: &Vec<String>, from: usize) -> (s: String)
    requires
        from <= names@.len(),
    ensures
        s@ == join_path(names_view(names@).subrange(from as int, names@.len() as int)),
{
    let ghost v = names_view(names@);
    let mut s = String::new();
    let mut i = from;
    assert(v.subrange(from as int, from as int) =~= Seq::<Seq<char>>::empty());
    while i < names.len()
        invariant
            from <= i <= names@.len(),
            v == names_view(names@),
            s@ == join_path(v.subrange(from as int, i as int)),
        decreases names@.len() - i,
    {
        assert(v.subrange(from as int, i + 1).drop_last() =~= v.subrange(from as int, i as int));
        if i > from {
            proof {
                reveal_strlit("/");
            }
            s.append("/");
        } else {
            assert(v.subrange(from as int, i + 1) =~= seq![v[i as int]]);
        }
        s.append(names[i].as_str());
        i = i + 1;
    }
    s
}

impl Render {
    /// Follows the chain of single-child directories that starts at a
    /// directory named `starting_name` holding `starting_dir`, found at
    /// `current_depth`.
    pub fn try_collapse_chain<'a>(
        &self,
        starting_name: &String,
        starting_dir: &'a Vec<Entry>,
        current_depth: usize,
    ) -> (chain: CollapsedChain<'a>)
        requires
            current_depth + heights(starting_dir@) + 1 <= usize::MAX,
        ensures
            match self.recurse {
                None => {
                    &&& names_view(chain.names@) == seq![starting_name@]
                    &&& chain.final_dir == Some(starting_dir)
                    &&& chain.depth_traversed == 1
                },
                Some(r) => {
                    let (extra, last) = chain_below(r, starting_dir@, current_depth as int, 1);
                    &&& names_view(chain.names@) == seq![starting_name@] + extra
                    &&& chain.final_dir matches Some(f) && f@ == last
                    &&& chain.depth_traversed == 1 + extra.len()
                }
            },
    {
        let recurse = match self.recurse {
            Some(r) => r,
            None => {
                let mut names: Vec<String> = Vec::new();
                names.push(starting_name.clone());
                assert(names_view(names@) =~= seq![starting_name@]);
                return CollapsedChain {
                    names,
                    final_dir: Some(starting_dir),
                    depth_traversed: 1,
                };
            },
        };
        let ghost whole = chain_below(recurse, starting_dir@, current_depth as int, 1);
        let mut names: Vec<String> = Vec::new();
        names.push(starting_name.clone());
        let mut current_dir: &'a Vec<Entry> = starting_dir;
        let mut depth_traversed: usize = 1;
        proof {
            lemma_chain_height(recurse, starting_dir@, current_depth as int, 1);
            assert(names_view(names@) =~= seq![starting_name@]);
            assert(seq![starting_name@] + whole.0 =~= names_view(names@) + chain_below(
                recurse,
                current_dir@,
                current_depth as int,
                depth_traversed as int,
            ).0);
        }
        loop
            invariant
                self.recurse == Some(recurse),
                whole == chain_below(recurse, starting_dir@, current_depth as int, 1),
                1 <= depth_traversed,
                names@.len() == depth_traversed,
                seq![starting_name@] + whole.0 == names_view(names@) + chain_below(
                    recurse,
                    current_dir@,
                    current_depth as int,
                    depth_traversed as int,
                ).0,
                whole.1 == chain_below(
                    recurse,
                    current_dir@,
                    current_depth as int,
                    depth_traversed as int,
                ).1,
                current_depth + depth_traversed + heights(current_dir@) <= usize::MAX,
            ensures
                chain_below(recurse, current_dir@, current_depth as int, depth_traversed as int).0
                    == Seq::<Seq<char>>::empty(),
                chain_below(recurse, current_dir@, current_depth as int, depth_traversed as int).1
                    == current_dir@,
                seq![starting_name@] + whole.0 == names_view(names@),
                whole.1 == current_dir@,
                names@.len() == depth_traversed,
            decreases heights(current_dir@),
        {
            if recurse.is_too_deep(current_depth + depth_traversed) {
                assert(names_view(names@) + Seq::<Seq<char>>::empty() =~= names_view(names@));
                break ;
            }
            let files = current_dir;
            if files.len() != 1 {
                assert(names_view(names@) + Seq::<Seq<char>>::empty() =~= names_view(names@));
                break ;
            }
            let only_child = &files[0];
            if only_child.is_link || !only_child.is_directory {
                assert(names_view(names@) + Seq::<Seq<char>>::empty() =~= names_view(names@));
                break ;
            }
            let child_dir = match &only_child.contents {
                Some(Ok(d)) => d,
                _ => {
                    assert(names_view(names@) + Seq::<Seq<char>>::empty() =~= names_view(names@));
                    break ;
                },
            };
            proof {
                lemma_member_height(files@, 0);
                lemma_listing_height(files@[0]);
                let rest = chain_below(
                    recurse,
                    child_dir@,
                    current_depth as int,
                    depth_traversed + 1,
                );
                assert(names_view(names@.push(only_child.name)) =~= names_view(names@).push(
                    only_child.name@,
                ));
                assert(names_view(names@) + (seq![only_child.name@] + rest.0) =~= names_view(
                    names@,
                ).push(only_child.name@) + rest.0);
            }
            names.push(only_child.name.clone());
            depth_traversed = depth_traversed + 1;
            current_dir = child_dir;
        }
        CollapsedChain { names, final_dir: Some(current_dir), depth_traversed }
    }
}

impl Render {
    /// How a collapsed chain's row is named: the directory icon and its
    /// spaces when icons are shown, then the collapsed path in the
    /// directory style, then a plain `/` when indicators are shown. The
    /// width is the sum of the parts' display widths (the `/` counts one).
    pub open spec fn collapsed_name(self, e: Entry, names: Seq<Seq<char>>) -> CellView {
        let path = collapsed_path(e, names);
        let icon_style = Some(self.theme.directory_icon);
        let with_icon = match icon_gap(self.file_style) {
            Some(n) => pushed(
                pushed(empty_cell(), (icon_style, seq![e.icon]), display_width(seq![e.icon])),
                (icon_style, spaces(n as nat)),
                display_width(spaces(n as nat)),
            ),
            None => empty_cell(),
        };
        let with_path = pushed(
            with_icon,
            (Some(self.theme.directory), path),
            display_width(path),
        );
        if classify_shown(self.file_style) {
            pushed(with_path, (None, seq!['/']), 1)
        } else {
            with_path
        }
    }

    /// Renders the name of a collapsed chain, such as `a/b/c`, in the
    /// directory style.
    pub fn render_collapsed_name(&self, chain: &CollapsedChain, file: &Entry) -> (cell: TextCell)
        requires
            chain.names@.len() >= 1,
        ensures
            cell@ == self.collapsed_name(*file, names_view(chain.names@)),
    {
        let dir_style = self.theme.directory;
        let ghost names = names_view(chain.names@);
        let collapsed_suffix = join_names(&chain.names, 1);
        assert(names.subrange(1, names.len() as int) =~= names.drop_first());
        let path_text = if !file.has_parent_dir {
            if collapsed_suffix.as_str().is_empty() {
                file.path.clone()
            } else {
                proof {
                    reveal_strlit("/");
                }
                let mut p = file.path.clone();
                p.append("/");
                p.append(collapsed_suffix.as_str());
                p
            }
        } else {
            let joined = join_names(&chain.names, 0);
            assert(names.subrange(0, names.len() as int) =~= names);
            joined
        };
        assert(path_text@ == collapsed_path(*file, names)) by {
            if !file.has_parent_dir && collapsed_suffix@.len() != 0 {
                assert(path_text@ =~= file.path@ + seq!['/'] + collapsed_suffix@);
            }
        }
        let mut cell = TextCell::blank();
        let gap = match self.file_style.show_icons {
            ShowIcons::Always(spaces) => Some(spaces),
            ShowIcons::Automatic(spaces) => if self.file_style.is_a_tty {
                Some(spaces)
            } else {
                None
            },
            ShowIcons::Never => None,
        };
        assert(gap == icon_gap(self.file_style));
        assert(cell@ == empty_cell());
        if let Some(spaces) = gap {
            let icon_style = self.theme.directory_icon;
            let icon_str = char_string(file.icon);
            let spaces_str = space_string(spaces as usize);
            let icon_width = text_width(icon_str.as_str());
            let spaces_width = text_width(spaces_str.as_str());
            cell.push(Segment { style: Some(icon_style), text: icon_str }, icon_width);
            cell.push(Segment { style: Some(icon_style), text: spaces_str }, spaces_width);
        }
        let path_width = text_width(path_text.as_str());
        cell.push(Segment { style: Some(dir_style), text: path_text }, path_width);
        let indicator = match self.file_style.classify {
            Classify::AddFileIndicators => true,
            Classify::AutomaticAddFileIndicators => self.file_style.is_a_tty,
            Classify::JustFilenames => false,
        };
        if indicator {
            proof {
                reveal_strlit("/");
            }
            let slash = String::from_str("/");
            assert(slash@ =~= seq!['/']);
            cell.push(Segment { style: None, text: slash }, 1);
        }
        cell
    }
}

/// `a - b`, or 0 when `b` is larger.
pub open spec fn less(a: usize, b: usize) -> usize {
    if a >= b {
        (a - b) as usize
    } else {
        0
    }
}

/// The columns that separate a file of `name_width` in column `col` from
/// the next one: what the column leaves of its width, then the gap.
pub open spec fn grid_padding(widths: Seq<usize>, spacing: usize, col: int, name_width: usize) -> usize {
    let column_width = if col < widths.len() {
        widths[col]
    } else {
        name_width
    };
    add_width(less(column_width, name_width), spacing)
}

/// One line of a leaf grid, up to its `k`-th file: each file's name, and
/// after every name but the last the padding to the next column.
pub open spec fn grid_cell_upto(files: Seq<Entry>, widths: Seq<usize>, spacing: usize, k: int) -> CellView
    decreases k,
{
    if k <= 0 {
        empty_cell()
    } else {
        let idx = k - 1;
        let name = files[idx].plain_name_cell@;
        let with_name = joined(grid_cell_upto(files, widths, spacing, k - 1), name);
        if idx < files.len() - 1 {
            let columns = if widths.len() > 1 {
                widths.len() as int
            } else {
                1
            };
            let pad = grid_padding(widths, spacing, idx % columns, name.1);
            if pad > 0 {
                padded(with_name, pad)
            } else {
                with_name
            }
        } else {
            with_name
        }
    }
}

/// One line of a leaf grid with the given files.
pub open spec fn grid_cell(files: Seq<Entry>, widths: Seq<usize>, spacing: usize) -> CellView {
    grid_cell_upto(files, widths, spacing, files.len() as int)
}

/// References to entries, as the entries.
pub open spec fn entries_of(files: Seq<&Entry>) -> Seq<Entry> {
    files.map_values(|e: &Entry| *e)
}

impl Render {
    /// Appends the name of the `idx`-th of `count` files to a grid line,
    /// padded to the next column unless it is the last.
    fn add_grid_name(
        &self,
        cell: &mut TextCell,
        file: &Entry,
        idx: usize,
        count: usize,
        config: &LeafTableConfig,
    )
        requires
            idx < count,
        ensures
            final(cell)@ == {
                let name = file.plain_name_cell@;
                let with_name = joined(old(cell)@, name);
                if idx < count - 1 {
                    let widths = config.column_widths@;
                    let columns = if widths.len() > 1 {
                        widths.len() as int
                    } else {
                        1
                    };
                    let pad = grid_padding(widths, config.column_spacing, (idx as int) % columns, name.1);
                    if pad > 0 {
                        padded(with_name, pad)
                    } else {
                        with_name
                    }
                } else {
                    with_name
                }
            },
    {
        let file_name = file.plain_name_cell.duplicate();
        let name_width = file_name.width;
        cell.append(file_name);
        let columns = if config.column_widths.len() > 1 {
            config.column_widths.len()
        } else {
            1
        };
        let col = idx % columns;
        let col_width = if col < config.column_widths.len() {
            config.column_widths[col]
        } else {
            name_width
        };
        if idx < count - 1 {
            let padding = col_width.saturating_sub(name_width).saturating_add(config.column_spacing);
            if padding > 0 {
                cell.add_spaces(padding);
            }
        }
    }

    /// Renders a leaf directory's files as one grid line.
    pub fn render_leaf_table_row(
        &self,
        files: &[Entry],
        config: &LeafTableConfig,
        _first_row: bool,
    ) -> (cell: TextCell)
        ensures
            cell@ == grid_cell(files@, config.column_widths@, config.column_spacing),
    {
        let mut result = TextCell::blank();
        let mut idx: usize = 0;
        while idx < files.len()
            invariant
                idx <= files@.len(),
                result@ == grid_cell_upto(
                    files@,
                    config.column_widths@,
                    config.column_spacing,
                    idx as int,
                ),
            decreases files@.len() - idx,
        {
            self.add_grid_name(&mut result, &files[idx], idx, files.len(), config);
            idx = idx + 1;
        }
        result
    }

    /// Renders one line of a leaf grid (a leaf directory's files may span
    /// several).
    pub fn render_leaf_grid_row(&self, files: &[&Entry], config: &LeafTableConfig) -> (cell: TextCell)
        ensures
            cell@ == grid_cell(entries_of(files@), config.column_widths@, config.column_spacing),
    {
        let ghost es = entries_of(files@);
        let mut result = TextCell::blank();
        let mut idx: usize = 0;
        while idx < files.len()
            invariant
                idx <= files@.len(),
                es == entries_of(files@),
                result@ == grid_cell_upto(es, config.column_widths@, config.column_spacing, idx as int),
            decreases files@.len() - idx,
        {
            self.add_grid_name(&mut result, files[idx], idx, files.len(), config);
            idx = idx + 1;
        }
        result
    }
}

/// The widths of a listing's plain names, in the listing's order.
pub open spec fn name_widths(files: Seq<Entry>) -> Seq<usize> {
    files.map_values(|f: Entry| f.plain_name_cell.width)
}

impl Render {
    /// The name widths of every leaf directory below a listing at `depth`,
    /// in the listing's order: a directory (not a link) that is not too deep
    /// and was read contributes its files' widths when it is a leaf, and the
    /// leaf directories below it otherwise. Nothing is collected unless leaf
    /// grids are on.
    pub open spec fn leaf_widths(self, s: Seq<Entry>, depth: int) -> Seq<Seq<usize>>
        decreases heights(s), 1nat, s.len(),
    {
        if s.len() == 0 {
            Seq::empty()
        } else {
            self.leaf_widths(s.drop_last(), depth) + self.entry_leaf_widths(s.last(), depth)
        }
    }

    /// The name widths of the leaf directories at or below one entry.
    pub open spec fn entry_leaf_widths(self, e: Entry, depth: int) -> Seq<Seq<usize>>
        decreases height(e), 0nat, 0nat,
    {
        match self.recurse {
            Some(r) => if !r.table_leaves || !e.is_directory || e.is_link || too_deep(r, depth) {
                Seq::empty()
            } else {
                match e.contents {
                    Some(Ok(v)) => if is_leaf(v@) {
                        seq![name_widths(v@)]
                    } else {
                        self.leaf_widths(v@, depth + 1)
                    },
                    _ => Seq::empty(),
                }
            },
            None => Seq::empty(),
        }
    }

    /// Collects the name widths of all leaf directories below a listing.
    pub fn collect_leaf_file_widths(&self, src: &Vec<Entry>, depth: TreeDepth) -> (all: Vec<Vec<usize>>)
        requires
            depth.0 + heights(src@) <= usize::MAX,
        ensures
            nested_view(all@) == self.leaf_widths(src@, depth.0 as int),
        decreases heights(src@),
    {
        let mut all_widths: Vec<Vec<usize>> = Vec::new();
        let recurse = match self.recurse {
            Some(r) => if r.table_leaves {
                r
            } else {
                proof {
                    self.lemma_no_leaf_widths(src@, depth.0 as int);
                }
                assert(nested_view(all_widths@) =~= Seq::<Seq<usize>>::empty());
                return all_widths;
            },
            None => {
                proof {
                    self.lemma_no_leaf_widths(src@, depth.0 as int);
                }
                assert(nested_view(all_widths@) =~= Seq::<Seq<usize>>::empty());
                return all_widths;
            },
        };
        let mut i: usize = 0;
        assert(nested_view(all_widths@) =~= self.leaf_widths(src@.take(0), depth.0 as int));
        while i < src.len()
            invariant
                i <= src@.len(),
                self.recurse == Some(recurse),
                recurse.table_leaves,
                depth.0 + heights(src@) <= usize::MAX,
                nested_view(all_widths@) == self.leaf_widths(src@.take(i as int), depth.0 as int),
            decreases src@.len() - i,
        {
            let file = &src[i];
            let ghost before = nested_view(all_widths@);
            proof {
                assert(src@.take(i + 1).drop_last() =~= src@.take(i as int));
                assert(src@.take(i + 1).last() == src@[i as int]);
                lemma_member_height(src@, i as int);
                assert(self.leaf_widths(src@.take(i + 1), depth.0 as int) == self.leaf_widths(
                    src@.take(i as int),
                    depth.0 as int,
                ) + self.entry_leaf_widths(src@[i as int], depth.0 as int));
            }
            if !file.is_directory || file.is_link || recurse.is_too_deep(depth.0) {
                assert(self.entry_leaf_widths(src@[i as int], depth.0 as int) =~= Seq::<
                    Seq<usize>,
                >::empty());
                assert(nested_view(all_widths@) =~= before + Seq::<Seq<usize>>::empty());
            } else {
                match &file.contents {
                    Some(Ok(files)) => {
                        if self.is_leaf_directory(files) {
                            let mut widths: Vec<usize> = Vec::new();
                            let mut k: usize = 0;
                            while k < files.len()
                                invariant
                                    k <= files@.len(),
                                    widths@ == name_widths(files@).take(k as int),
                                decreases files@.len() - k,
                            {
                                widths.push(files[k].plain_name_cell.width);
                                assert(widths@ =~= name_widths(files@).take(k + 1));
                                k = k + 1;
                            }
                            assert(widths@ =~= name_widths(files@));
                            all_widths.push(widths);
                            assert(nested_view(all_widths@) =~= before + seq![name_widths(files@)]);
                        } else {
                            proof {
                                lemma_listing_height(*file);
                            }
                            let mut sub_widths = self.collect_leaf_file_widths(files, depth.deeper());
                            let ghost sub = nested_view(sub_widths@);
                            let ghost olds = all_widths@;
                            all_widths.append(&mut sub_widths);
                            assert(nested_view(all_widths@) =~= nested_view(olds) + sub);
                        }
                    },
                    _ => {
                        assert(self.entry_leaf_widths(src@[i as int], depth.0 as int) =~= Seq::<
                            Seq<usize>,
                        >::empty());
                        assert(nested_view(all_widths@) =~= before + Seq::<Seq<usize>>::empty());
                    },
                }
            }
            i = i + 1;
        }
        assert(src@.take(i as int) =~= src@);
        all_widths
    }

    proof fn lemma_no_leaf_widths(self, s: Seq<Entry>, depth: int)
        requires
            !(self.recurse matches Some(r) && r.table_leaves),
        ensures
            self.leaf_widths(s, depth) == Seq::<Seq<usize>>::empty(),
        decreases s.len(),
    {
        if s.len() > 0 {
            self.lemma_no_leaf_widths(s.drop_last(), depth);
            assert(self.entry_leaf_widths(s.last(), depth) =~= Seq::<Seq<usize>>::empty());
            assert(self.leaf_widths(s, depth) =~= Seq::<Seq<usize>>::empty());
        }
    }
}

/// The lines of a grid over `files` from the `start`-th on: each line holds
/// as many files as there are columns (at least one); the line that reaches
/// the last file ends its branch when `ends`.
pub open spec fn grid_rows(
    files: Seq<Entry>,
    depth: int,
    widths: Seq<usize>,
    spacing: usize,
    start: int,
    ends: bool,
) -> Seq<RowView>
    decreases files.len() - start,
{
    if start < 0 || start >= files.len() {
        Seq::empty()
    } else {
        let columns = files_per_line(widths);
        let end = if start + columns < files.len() {
            start + columns
        } else {
            files.len() as int
        };
        let line = seq![
            (
                None,
                grid_cell(files.subrange(start, end), widths, spacing),
                at(depth, ends && start + columns >= files.len()),
            ),
        ];
        if start + columns >= files.len() {
            line
        } else {
            line + grid_rows(files, depth, widths, spacing, start + columns, ends)
        }
    }
}

/// The number of files on each full grid line: one per column, at least one.
pub open spec fn files_per_line(widths: Seq<usize>) -> int {
    if widths.len() > 1 {
        widths.len() as int
    } else {
        1
    }
}

/// The index of the first directory of its own in `files` from `r` on, or
/// the length when there is none: where a run of files starting at `r` ends.
pub open spec fn run_end(files: Seq<Entry>, r: int) -> int
    decreases files.len() - r,
{
    if r < 0 || r >= files.len() || is_dir_entry(files[r]) {
        r
    } else {
        run_end(files, r + 1)
    }
}

pub proof fn lemma_run_end(files: Seq<Entry>, r: int)
    requires
        0 <= r <= files.len(),
    ensures
        r <= run_end(files, r) <= files.len(),
        r < files.len() && !is_dir_entry(files[r]) ==> r < run_end(files, r),
        forall|k: int| r <= k < run_end(files, r) ==> !is_dir_entry(#[trigger] files[k]),
        run_end(files, r) < files.len() ==> is_dir_entry(files[run_end(files, r)]),
    decreases files.len() - r,
{
    if r < files.len() && !is_dir_entry(files[r]) {
        lemma_run_end(files, r + 1);
    }
}

/// The separator between a directory's name and its files shown inline:
/// a space, two horizontal lines and a space.
pub open spec fn inline_separator() -> Seq<char> {
    seq![' ', '\u{2500}', '\u{2500}', ' ']
}

/// The first `k` files shown inline: their names, a space apart.
pub open spec fn inline_names(files: Seq<Entry>, k: int) -> CellView
    decreases k,
{
    if k <= 0 {
        empty_cell()
    } else {
        let prev = inline_names(files, k - 1);
        let spaced = if k > 1 {
            pushed(prev, (None, seq![' ']), 1)
        } else {
            prev
        };
        joined(spaced, files[k - 1].plain_name_cell@)
    }
}

/// The columns the names of the first `k` files take, a space apart.
pub open spec fn inline_names_width(files: Seq<Entry>, k: int) -> int
    decreases k,
{
    if k <= 0 {
        0
    } else {
        inline_names_width(files, k - 1) + (if k > 1 {
            1int
        } else {
            0int
        }) + files[k - 1].plain_name_cell.width
    }
}

proof fn lemma_inline_width_grows(files: Seq<Entry>, j: int, k: int)
    requires
        0 <= j <= k,
    ensures
        inline_names_width(files, j) <= inline_names_width(files, k),
    decreases k - j,
{
    if j < k {
        lemma_inline_width_grows(files, j, k - 1);
    }
}

/// A directory's name followed by the separator, painted in `style` and
/// counted as four columns, and its files' names.
pub open spec fn inline_cell(style: Style, name: CellView, files: Seq<Entry>) -> CellView {
    joined(pushed(name, (Some(style), inline_separator()), 4), inline_names(files, files.len() as int))
}

impl Render {
    /// The directory below an entry is read at physical depth `depth`:
    /// recursion is on, the entry is a directory (or, when links are
    /// followed, points to one), the tree is shown and `depth` is not too
    /// deep.
    pub open spec fn reads(self, e: Entry, depth: int) -> bool {
        match self.recurse {
            Some(r) => (if self.opts.follow_links {
                e.points_to_directory
            } else {
                e.is_directory
            }) && r.tree && !too_deep(r, depth),
            None => false,
        }
    }

    /// The files below an entry at physical depth `depth`, when its
    /// directory is read without error.
    pub open spec fn opened(self, e: Entry, depth: int) -> Option<Seq<Entry>> {
        if self.reads(e, depth) {
            listing(e)
        } else {
            None
        }
    }

    /// The error that reading the directory below an entry gave.
    pub open spec fn read_error(self, e: Entry, depth: int) -> Option<Seq<char>> {
        if self.reads(e, depth) {
            match e.contents {
                Some(Err(m)) => Some(m@),
                _ => None,
            }
        } else {
            None
        }
    }

    /// Chains of single-child directories collapse.
    pub open spec fn collapses(self) -> bool {
        match self.recurse {
            Some(r) => r.collapse_single,
            None => false,
        }
    }

    /// Compact display of files (inline and in grids) is on: the tree asks
    /// for it and no table is shown.
    pub open spec fn table_leaves_active(self) -> bool {
        &&& self.recurse matches Some(r) && r.table_leaves
        &&& self.opts.table is None
    }

    /// The columns a line at `depth` leaves after its tree parts, four
    /// columns each.
    pub open spec fn room(self, depth: int) -> int {
        if self.term_width >= 4 * depth {
            self.term_width - 4 * depth
        } else {
            0
        }
    }

    /// The extended attributes shown below an entry.
    pub open spec fn shown_xattrs(self, e: Entry) -> Seq<Seq<char>> {
        if self.opts.xattr {
            e.xattrs@.map_values(|x: String| x@)
        } else {
            Seq::empty()
        }
    }

    /// Whether the extended attribute hint is shown for a file.
    pub open spec fn xattr_hint(self, e: Entry) -> bool {
        let count = e.xattrs@.len();
        let context_shown = self.opts.secattr && e.has_selinux_context;
        count > 1 || (count == 1 && !context_shown)
    }

    /// The table cells shown with an entry: when a table is shown, the
    /// entry's columns with or without the attribute hint, as
    /// `show_xattr_hint` decides.
    pub open spec fn entry_cells(self, e: Entry) -> Option<Seq<CellView>> {
        if self.opts.table is Some {
            match (if self.xattr_hint(e) {
                e.hinted_cells
            } else {
                e.cells
            }) {
                Some(t) => Some(t@),
                None => None,
            }
        } else {
            None
        }
    }

    /// The name of an entry, and the files shown below it, for an entry at
    /// physical depth `depth`: a read directory that collapses shows the
    /// chain's path and the files of the chain's last directory.
    pub open spec fn name_and_below(self, e: Entry, depth: int) -> (CellView, Option<Seq<Entry>>) {
        match self.opened(e, depth) {
            Some(v) => if self.collapses() {
                let (extra, last) = chain_below(self.recurse->0, v, depth, 1);
                if extra.len() > 0 {
                    (self.collapsed_name(e, seq![e.name@] + extra), Some(last))
                } else {
                    (e.name_cell@, Some(last))
                }
            } else {
                (e.name_cell@, Some(v))
            },
            None => (e.name_cell@, None),
        }
    }

    /// The physical depth of the files shown below an entry at physical
    /// depth `depth`: one level below the last directory of its chain.
    pub open spec fn below_depth(self, e: Entry, depth: int) -> int {
        match self.opened(e, depth) {
            Some(v) => if self.collapses() {
                depth + 1 + chain_below(self.recurse->0, v, depth, 1).0.len()
            } else {
                depth + 1
            },
            None => depth + 1,
        }
    }

    /// The files shown on the same line as an entry's row at `p` (physical
    /// depth `depth`), in sorted order: with compact display on, when the
    /// files below it are a leaf and the name, the separator and the names
    /// a space apart fit in the room the line leaves.
    pub open spec fn inline_files(self, e: Entry, p: TreeParams, depth: int) -> Option<Seq<Entry>> {
        let (name, below) = self.name_and_below(e, depth);
        match below {
            Some(files) => if self.table_leaves_active() && is_leaf(files) && name.1 + 4
                + inline_names_width(sorted(files), files.len() as int) <= self.room(
                p.depth.0 as int,
            ) {
                Some(sorted(files))
            } else {
                None
            },
            None => None,
        }
    }

    /// What an entry's row shows after its tree parts: its name, followed by
    /// its files when they are shown inline.
    pub open spec fn row_name(self, e: Entry, p: TreeParams, depth: int) -> CellView {
        match self.inline_files(e, p, depth) {
            Some(files) => inline_cell(self.theme.punctuation, self.name_and_below(e, depth).0, files),
            None => self.name_and_below(e, depth).0,
        }
    }

    /// One row per extended attribute at `depth`; the last one ends its
    /// branch when `ends`.
    pub open spec fn xattr_rows(self, xs: Seq<Seq<char>>, depth: int, ends: bool) -> Seq<RowView> {
        Seq::new(
            xs.len(),
            |i: int| message_row(self.theme.attribute, xs[i], at(depth, ends && i == xs.len() - 1)),
        )
    }

    /// The row that reports a read error, last at `depth`.
    pub open spec fn error_rows(self, error: Option<Seq<char>>, depth: int) -> Seq<RowView> {
        match error {
            Some(m) => seq![message_row(self.theme.broken_symlink, error_text(m, None), at(depth, true))],
            None => Seq::empty(),
        }
    }

    /// The lines of a grid of files at `depth`, laid out on their own in the
    /// room a line at `depth` leaves.
    pub open spec fn file_grid(self, files: Seq<Entry>, depth: int, ends: bool) -> Seq<RowView> {
        let layout = leaf_layout(seq![name_widths(files)], self.room(depth) as nat);
        grid_rows(files, depth, layout.0, layout.1, 0, ends)
    }

    /// The rows for one entry at `p` and physical depth `depth`: its own
    /// row, then what is shown below it.
    pub open spec fn entry_rows(self, e: Entry, p: TreeParams, depth: int) -> Seq<RowView>
        decreases height(e), 0nat, 1int,
    {
        seq![(self.entry_cells(e), self.row_name(e, p, depth), p)] + self.rows_below(e, p, depth)
    }

    /// The rows below an entry's own row: when files are shown below it,
    /// its attributes, then (unless they are shown inline) those files one
    /// level deeper; else its attributes and the error reading it gave, one
    /// level deeper, the last of them ending the branch.
    pub open spec fn rows_below(self, e: Entry, p: TreeParams, depth: int) -> Seq<RowView>
        decreases height(e), 0nat, 0int,
    {
        let d = p.depth.0 as int;
        let below = self.name_and_below(e, depth).1;
        let xs = self.shown_xattrs(e);
        let error = self.read_error(e, depth);
        if below is Some && below->0.len() > 0 {
            let files = below->0;
            proof {
                lemma_listing_height(e);
                if self.collapses() {
                    lemma_chain_height(self.recurse->0, listing(e)->0, depth, 1);
                }
            }
            if self.inline_files(e, p, depth) is Some {
                self.xattr_rows(xs, d + 1, true)
            } else {
                self.xattr_rows(xs, d + 1, false) + self.listing_rows(
                    files,
                    d + 1,
                    self.below_depth(e, depth),
                )
            }
        } else {
            self.xattr_rows(xs, d + 1, error is None) + self.error_rows(error, d + 1)
        }
    }

    /// The rows of a listing at `depth` (physical depth `phys`): with
    /// compact display on and a directory with contents among them,
    /// directories get rows of their own and each run of other files a
    /// grid; otherwise every entry gets rows of its own.
    pub open spec fn listing_rows(self, s: Seq<Entry>, depth: int, phys: int) -> Seq<RowView>
        decreases heights(s), 2nat, 0int,
    {
        if self.table_leaves_active() && has_content_dir(s) {
            self.grouped_rows(s, depth, phys, 0)
        } else {
            self.rows_from(s, depth, phys, 0)
        }
    }

    /// The rows of a listing in sorted order from the `r`-th entry on, runs
    /// of files grouped into grids between directories; what reaches the
    /// last entry ends the branch.
    pub open spec fn grouped_rows(self, s: Seq<Entry>, depth: int, phys: int, r: int) -> Seq<RowView>
        decreases heights(s), 1nat, s.len() - r,
    {
        if r < 0 || r >= s.len() {
            Seq::empty()
        } else {
            proof {
                lemma_sorted_member(s, r);
            }
            let ss = sorted(s);
            if is_dir_entry(ss[r]) {
                self.entry_rows(ss[r], at(depth, r == s.len() - 1), phys) + self.grouped_rows(
                    s,
                    depth,
                    phys,
                    r + 1,
                )
            } else {
                let q = run_end(ss, r);
                proof {
                    lemma_run_end(ss, r);
                }
                self.file_grid(ss.subrange(r, q), depth, q == s.len()) + self.grouped_rows(
                    s,
                    depth,
                    phys,
                    q,
                )
            }
        }
    }

    /// The rows for the entries of a listing at `depth`, each with rows of
    /// its own, in sorted order from the `r`-th on; the last entry is the
    /// last at its depth.
    pub open spec fn rows_from(self, s: Seq<Entry>, depth: int, phys: int, r: int) -> Seq<RowView>
        decreases heights(s), 1nat, s.len() - r,
    {
        if r < 0 || r >= s.len() {
            Seq::empty()
        } else {
            proof {
                lemma_sorted_member(s, r);
            }
            self.entry_rows(sorted(s)[r], at(depth, r == s.len() - 1), phys) + self.rows_from(
                s,
                depth,
                phys,
                r + 1,
            )
        }
    }
}

impl Render {
    /// The room a line at `depth` leaves after its tree parts.
    pub fn room_at(&self, depth: TreeDepth) -> (room: usize)
        ensures
            room == self.room(depth.0 as int),
    {
        if depth.0 <= self.term_width / 4 {
            self.term_width - 4 * depth.0
        } else {
            0
        }
    }

    /// Adds the lines of a grid of files at `depth`, laid out on their own
    /// in the room the line leaves: as many files to a line as there are
    /// columns, the last line ending the branch when `ends`.
    fn add_file_grid(&self, rows: &mut Vec<Row>, run: &Vec<&Entry>, depth: TreeDepth, ends: bool)
        ensures
            rows_view(final(rows)@) == rows_view(old(rows)@) + self.file_grid(
                entries_of(run@),
                depth.0 as int,
                ends,
            ),
    {
        let ghost sf = entries_of(run@);
        let mut widths: Vec<usize> = Vec::new();
        let mut k: usize = 0;
        while k < run.len()
            invariant
                k <= run@.len(),
                sf == entries_of(run@),
                widths@ == name_widths(sf).take(k as int),
            decreases run@.len() - k,
        {
            widths.push(run[k].plain_name_cell.width);
            assert(widths@ =~= name_widths(sf).take(k + 1));
            k = k + 1;
        }
        assert(widths@ =~= name_widths(sf));
        let mut all: Vec<Vec<usize>> = Vec::new();
        all.push(widths);
        assert(nested_view(all@) =~= seq![name_widths(sf)]);
        let room = self.room_at(depth);
        let config = LeafTableConfig::from_leaf_files(all.as_slice(), room);
        let ghost d = depth.0 as int;
        let ghost widths = config.column_widths@;
        let ghost spacing = config.column_spacing;
        assert(self.file_grid(sf, d, ends) == grid_rows(sf, d, widths, spacing, 0, ends));
        let num_cols = if config.column_widths.len() > 1 {
            config.column_widths.len()
        } else {
            1
        };
        let mut file_idx: usize = 0;
        assert(rows_view(rows@) + grid_rows(sf, d, widths, spacing, 0, ends) =~= rows_view(old(rows)@)
            + grid_rows(sf, d, widths, spacing, 0, ends));
        while file_idx < run.len()
            invariant
                file_idx <= run@.len(),
                sf == entries_of(run@),
                sf.len() == run@.len(),
                d == depth.0 as int,
                widths == config.column_widths@,
                spacing == config.column_spacing,
                num_cols == files_per_line(widths),
                rows_view(rows@) + grid_rows(sf, d, widths, spacing, file_idx as int, ends)
                    == rows_view(old(rows)@) + grid_rows(sf, d, widths, spacing, 0, ends),
            decreases run@.len() - file_idx,
        {
            let remaining = run.len() - file_idx;
            let is_last_row = num_cols >= remaining;
            let count = if is_last_row {
                remaining
            } else {
                num_cols
            };
            let mut row_files: Vec<&Entry> = Vec::new();
            let mut j: usize = 0;
            while j < count
                invariant
                    j <= count,
                    file_idx + count <= run.len(),
                    sf == entries_of(run@),
                    entries_of(row_files@) == sf.subrange(file_idx as int, file_idx + j),
                decreases count - j,
            {
                let entry = run[file_idx + j];
                let ghost prev = row_files@;
                row_files.push(entry);
                assert(entries_of(row_files@) =~= entries_of(prev).push(*entry));
                assert(entries_of(row_files@) =~= sf.subrange(file_idx as int, file_idx + j + 1));
                j = j + 1;
            }
            let grid_content = self.render_leaf_grid_row(row_files.as_slice(), &config);
            let ghost before = rows_view(rows@);
            rows.push(
                Row {
                    tree: TreeParams::new(depth, ends && is_last_row),
                    cells: None,
                    name: grid_content,
                },
            );
            assert(rows_view(rows@) =~= before.push(rows@.last()@));
            let ghost line = seq![
                (
                    None::<Seq<CellView>>,
                    grid_cell(sf.subrange(file_idx as int, file_idx + count), widths, spacing),
                    at(d, ends && file_idx + num_cols >= sf.len()),
                ),
            ];
            assert(rows@.last()@ == line[0]);
            if is_last_row {
                assert(grid_rows(sf, d, widths, spacing, file_idx as int, ends) == line);
                assert(grid_rows(sf, d, widths, spacing, run.len() as int, ends) =~= Seq::<
                    RowView,
                >::empty());
                assert(rows_view(rows@) + grid_rows(sf, d, widths, spacing, run.len() as int, ends)
                    =~= before + grid_rows(sf, d, widths, spacing, file_idx as int, ends));
                file_idx = run.len();
            } else {
                assert(grid_rows(sf, d, widths, spacing, file_idx as int, ends) == line + grid_rows(
                    sf,
                    d,
                    widths,
                    spacing,
                    file_idx + num_cols,
                    ends,
                ));
                assert(rows_view(rows@) + grid_rows(sf, d, widths, spacing, file_idx + num_cols, ends)
                    =~= before + grid_rows(sf, d, widths, spacing, file_idx as int, ends));
                file_idx = file_idx + num_cols;
            }
        }
    }

    /// Whether a directory's files are shown on the line of its row at
    /// `depth`, after `name`: compact display is on, they are a leaf, and
    /// the name, the separator and their names a space apart fit in the
    /// room the line leaves.
    fn fits_inline(&self, name: &TextCell, files: &Vec<Entry>, depth: TreeDepth) -> (fits: bool)
        requires
            positions_valid(files@),
        ensures
            fits == (self.table_leaves_active() && is_leaf(files@) && name@.1 + 4
                + inline_names_width(sorted(files@), files@.len() as int) <= self.room(
                depth.0 as int,
            )),
    {
        let active = match self.recurse {
            Some(r) => r.table_leaves,
            None => false,
        } && self.opts.table.is_none();
        if !active || !self.is_leaf_directory(files) {
            return false;
        }
        let room = self.room_at(depth);
        let order = sort_order(files);
        let ghost sf = sorted(files@);
        let n = files.len();
        let mut total: u128 = name.width as u128 + 4;
        let mut k: usize = 0;
        proof {
            lemma_inline_width_grows(sf, 0, n as int);
        }
        while k < n
            invariant
                k <= n,
                n == files@.len(),
                sf == sorted(files@),
                order@.len() == n,
                forall|r: int|
                    0 <= r < n ==> #[trigger] order@[r] < n && sf[r] == files@[order@[r] as int],
                total == name@.1 + 4 + inline_names_width(sf, k as int),
                room == self.room(depth.0 as int),
                self.table_leaves_active(),
                is_leaf(files@),
                total <= room as int + usize::MAX as int + 4,
            decreases n - k,
        {
            if total > room as u128 {
                proof {
                    lemma_inline_width_grows(sf, k as int, n as int);
                }
                return false;
            }
            let e = &files[order[k]];
            let sep: u128 = if k > 0 {
                1
            } else {
                0
            };
            total = total + sep + e.plain_name_cell.width as u128;
            k = k + 1;
        }
        total <= room as u128
    }

    /// A directory's name followed by the separator, in the punctuation
    /// style, and its files' names in sorted order, a space apart.
    fn inline_name(&self, name: TextCell, files: &Vec<Entry>) -> (cell: TextCell)
        requires
            positions_valid(files@),
        ensures
            cell@ == inline_cell(self.theme.punctuation, name@, sorted(files@)),
    {
        let mut cell = name;
        proof {
            reveal_strlit(" \u{2500}\u{2500} ");
        }
        let separator = String::from_str(" \u{2500}\u{2500} ");
        assert(separator@ =~= inline_separator());
        cell.push(Segment { style: Some(self.theme.punctuation), text: separator }, 4);
        let order = sort_order(files);
        let ghost sf = sorted(files@);
        let n = files.len();
        let mut names = TextCell::blank();
        let mut k: usize = 0;
        while k < n
            invariant
                k <= n,
                n == files@.len(),
                sf == sorted(files@),
                order@.len() == n,
                forall|r: int|
                    0 <= r < n ==> #[trigger] order@[r] < n && sf[r] == files@[order@[r] as int],
                names@ == inline_names(sf, k as int),
            decreases n - k,
        {
            if k > 0 {
                proof {
                    reveal_strlit(" ");
                }
                let space = String::from_str(" ");
                assert(space@ =~= seq![' ']);
                names.push(Segment { style: None, text: space }, 1);
            }
            let e = &files[order[k]];
            names.append(e.plain_name_cell.duplicate());
            k = k + 1;
        }
        cell.append(names);
        cell
    }
}

/// A directory holding `files` at `depth` ends a chain: it lies too deep,
/// holds other than exactly one file, or its only file is a link, not a
/// directory, or a directory that was not read.
pub open spec fn ends_chain(r: RecurseOptions, files: Seq<Entry>, depth: int) -> bool {
    too_deep(r, depth) || files.len() != 1 || files[0].is_link || !files[0].is_directory || listing(
        files[0],
    ) is None
}

/// A chain goes down through single-child directories and stops at the
/// first directory that ends a chain, counting each directory it passes as
/// one level.
pub proof fn lemma_chain_stops(r: RecurseOptions, files: Seq<Entry>, depth: int, traversed: int)
    ensures
        ends_chain(
            r,
            chain_below(r, files, depth, traversed).1,
            depth + traversed + chain_below(r, files, depth, traversed).0.len(),
        ),
        !ends_chain(r, files, depth + traversed) ==> {
            &&& chain_below(r, files, depth, traversed).0.len() > 0
            &&& chain_below(r, files, depth, traversed).0[0] == files[0].name@
        },
    decreases heights(files),
{
    if !ends_chain(r, files, depth + traversed) {
        lemma_member_height(files, 0);
        lemma_listing_height(files[0]);
        lemma_chain_stops(r, listing(files[0])->0, depth, traversed + 1);
    }
}

pub proof fn lemma_chain_well_formed(r: RecurseOptions, files: Seq<Entry>, depth: int, traversed: int)
    requires
        listing_well_formed(files),
    ensures
        listing_well_formed(chain_below(r, files, depth, traversed).1),
    decreases heights(files),
{
    if !(too_deep(r, depth + traversed) || files.len() != 1 || files[0].is_link
        || !files[0].is_directory || listing(files[0]) is None) {
        lemma_member_height(files, 0);
        lemma_listing_height(files[0]);
        assert(entry_well_formed(files[0]));
        lemma_chain_well_formed(r, listing(files[0])->0, depth, traversed + 1);
    }
}

impl Render {
    /// Adds one row per shown extended attribute of an entry at `depth`.
    fn add_xattr_rows(&self, rows: &mut Vec<Row>, e: &Entry, depth: TreeDepth, ends: bool)
        ensures
            rows_view(final(rows)@) == rows_view(old(rows)@) + self.xattr_rows(
                self.shown_xattrs(*e),
                depth.0 as int,
                ends,
            ),
    {
        let ghost xs = self.shown_xattrs(*e);
        if !self.opts.xattr {
            assert(self.xattr_rows(xs, depth.0 as int, ends) =~= Seq::<RowView>::empty());
            assert(rows_view(rows@) =~= rows_view(old(rows)@) + Seq::<RowView>::empty());
            return ;
        }
        let count = e.xattrs.len();
        let mut index: usize = 0;
        while index < count
            invariant
                index <= count,
                count == e.xattrs@.len(),
                xs == e.xattrs@.map_values(|x: String| x@),
                rows_view(rows@) == rows_view(old(rows)@) + self.xattr_rows(
                    xs,
                    depth.0 as int,
                    ends,
                ).take(index as int),
            decreases count - index,
        {
            let last = ends && index == count - 1;
            let row = self.render_xattr(&e.xattrs[index], TreeParams::new(depth, last));
            assert(row@ == self.xattr_rows(xs, depth.0 as int, ends)[index as int]);
            let ghost before = rows_view(rows@);
            let ghost rv = row@;
            rows.push(row);
            assert(rows_view(rows@) =~= before.push(rv));
            assert(self.xattr_rows(xs, depth.0 as int, ends).take(index + 1) =~= self.xattr_rows(
                xs,
                depth.0 as int,
                ends,
            ).take(index as int).push(rv));
            index = index + 1;
        }
        assert(self.xattr_rows(xs, depth.0 as int, ends).take(count as int) =~= self.xattr_rows(
            xs,
            depth.0 as int,
            ends,
        ));
    }

    /// Reads the directory below an entry at physical depth `depth`, when it
    /// is read: its files, or the error that reading it gave.
    fn open_dir<'a>(&self, e: &'a Entry, depth: usize) -> (opened: (
        Option<&'a Vec<Entry>>,
        Option<&'a String>,
    ))
        ensures
            match opened.0 {
                Some(v) => self.opened(*e, depth as int) == Some(v@) && listing(*e) == Some(v@),
                None => self.opened(*e, depth as int) is None,
            },
            match opened.1 {
                Some(m) => self.read_error(*e, depth as int) == Some(m@),
                None => self.read_error(*e, depth as int) is None,
            },
    {
        if let Some(r) = self.recurse {
            let is_dir = if self.opts.follow_links {
                e.points_to_directory
            } else {
                e.is_directory
            };
            if is_dir && r.tree && !r.is_too_deep(depth) {
                match &e.contents {
                    Some(Ok(v)) => {
                        return (Some(v), None);
                    },
                    Some(Err(m)) => {
                        return (None, Some(m));
                    },
                    None => {
                        return (None, None);
                    },
                }
            }
        }
        (None, None)
    }

    /// The name of an entry at physical depth `depth`, the files shown
    /// below it, and their physical depth.
    fn entry_name<'a>(&self, e: &Entry, dir: Option<&'a Vec<Entry>>, depth: usize) -> (named: (
        TextCell,
        Option<&'a Vec<Entry>>,
        usize,
    ))
        requires
            match dir {
                Some(v) => self.opened(*e, depth as int) == Some(v@) && listing(*e) == Some(v@),
                None => self.opened(*e, depth as int) is None,
            },
            entry_well_formed(*e),
            depth + height(*e) <= usize::MAX,
        ensures
            named.0@ == self.name_and_below(*e, depth as int).0,
            named.2 == self.below_depth(*e, depth as int),
            depth + 1 <= named.2,
            match named.1 {
                Some(f) => {
                    &&& self.name_and_below(*e, depth as int).1 == Some(f@)
                    &&& listing_well_formed(f@)
                    &&& heights(f@) < height(*e)
                    &&& named.2 + heights(f@) <= depth + height(*e)
                },
                None => self.name_and_below(*e, depth as int).1 is None,
            },
    {
        let ghost d = depth as int;
        proof {
            lemma_listing_height(*e);
        }
        let collapse_enabled = match self.recurse {
            Some(r) => r.collapse_single,
            None => false,
        };
        if let Some(v) = dir {
            if collapse_enabled {
                let chain = self.try_collapse_chain(&e.name, v, depth);
                proof {
                    lemma_chain_height(self.recurse->0, v@, d, 1);
                    lemma_chain_well_formed(self.recurse->0, v@, d, 1);
                }
                let file_name = if chain.names.len() > 1 {
                    self.render_collapsed_name(&chain, e)
                } else {
                    e.name_cell.duplicate()
                };
                (file_name, chain.final_dir, depth + chain.depth_traversed)
            } else {
                (e.name_cell.duplicate(), Some(v), depth + 1)
            }
        } else {
            (e.name_cell.duplicate(), None, depth + 1)
        }
    }

    /// Adds the rows of one entry at `params` and physical depth `depth`:
    /// its own row, and what is shown below it.
    fn add_entry(&self, rows: &mut Vec<Row>, e: &Entry, params: TreeParams, depth: usize)
        requires
            entry_well_formed(*e),
            params.depth.0 <= depth,
            depth + height(*e) <= usize::MAX,
        ensures
            rows_view(final(rows)@) == rows_view(old(rows)@) + self.entry_rows(*e, params, depth as int),
        decreases height(*e), 1nat,
    {
        proof {
            lemma_listing_height(*e);
        }
        let (dir, error) = self.open_dir(e, depth);
        let (file_name, effective_dir, below) = self.entry_name(e, dir, depth);
        let ghost nb = self.name_and_below(*e, depth as int);
        let inline = match effective_dir {
            Some(files) => self.fits_inline(&file_name, files, params.depth),
            None => false,
        };
        assert(inline == self.inline_files(*e, params, depth as int) is Some);
        let name = if inline {
            self.inline_name(file_name, effective_dir.unwrap())
        } else {
            file_name
        };
        assert(name@ == self.row_name(*e, params, depth as int));
        let cells = if self.opts.table.is_some() {
            let hint = self.show_xattr_hint(e);
            let chosen = if hint {
                &e.hinted_cells
            } else {
                &e.cells
            };
            match chosen {
                Some(t) => Some(t.duplicate()),
                None => None,
            }
        } else {
            None
        };
        let row = Row { tree: params, cells, name };
        assert(row@ == (self.entry_cells(*e), self.row_name(*e, params, depth as int), params));
        let ghost before = rows_view(rows@);
        rows.push(row);
        assert(rows_view(rows@) =~= before + seq![(self.entry_cells(*e), self.row_name(*e, params, depth as int), params)]);
        self.add_below(rows, e, params, depth, effective_dir, error, inline, below);
        assert(rows_view(rows@) =~= before + self.entry_rows(*e, params, depth as int));
    }

    /// Adds the rows below an entry's own row.
    fn add_below(
        &self,
        rows: &mut Vec<Row>,
        e: &Entry,
        params: TreeParams,
        depth: usize,
        effective_dir: Option<&Vec<Entry>>,
        error: Option<&String>,
        inline: bool,
        below: usize,
    )
        requires
            entry_well_formed(*e),
            params.depth.0 <= depth,
            depth + height(*e) <= usize::MAX,
            inline == self.inline_files(*e, params, depth as int) is Some,
            below == self.below_depth(*e, depth as int),
            depth + 1 <= below,
            match effective_dir {
                Some(f) => {
                    &&& self.name_and_below(*e, depth as int).1 == Some(f@)
                    &&& listing_well_formed(f@)
                    &&& heights(f@) < height(*e)
                    &&& below + heights(f@) <= depth + height(*e)
                },
                None => self.name_and_below(*e, depth as int).1 is None,
            },
            match error {
                Some(m) => self.read_error(*e, depth as int) == Some(m@),
                None => self.read_error(*e, depth as int) is None,
            },
        ensures
            rows_view(final(rows)@) == rows_view(old(rows)@) + self.rows_below(*e, params, depth as int),
        decreases height(*e), 0nat,
    {
        let ghost d = params.depth.0 as int;
        let ghost ph = depth as int;
        proof {
            lemma_listing_height(*e);
        }
        let depth_below = params.depth.deeper();
        if let Some(files) = effective_dir {
            if files.len() > 0 {
                if inline {
                    self.add_xattr_rows(rows, e, depth_below, true);
                    assert(rows_view(rows@) =~= rows_view(old(rows)@) + self.rows_below(*e, params, ph));
                    return ;
                }
                let ghost start = rows_view(rows@);
                self.add_xattr_rows(rows, e, depth_below, false);
                self.add_files_to_table(rows, files, depth_below, below);
                assert(rows_view(rows@) =~= rows_view(old(rows)@) + self.rows_below(*e, params, ph));
                return ;
            }
        }
        let ghost start = rows_view(rows@);
        self.add_xattr_rows(rows, e, depth_below, error.is_none());
        let ghost mid = rows_view(rows@);
        if let Some(m) = error {
            let row = self.render_error(m, TreeParams::new(depth_below, true), None);
            rows.push(row);
            assert(rows_view(rows@) =~= mid + self.error_rows(self.read_error(*e, ph), d + 1));
        } else {
            assert(rows_view(rows@) =~= mid + self.error_rows(self.read_error(*e, ph), d + 1));
        }
        assert(rows_view(rows@) =~= start + self.rows_below(*e, params, ph));
    }

    /// Adds the rows of a listing at `depth` whose entries lie at physical
    /// depth `physical_depth`: with compact display on and a directory with
    /// contents among them, directories get rows of their own and each run
    /// of other files a grid; otherwise every entry gets rows of its own.
    pub fn add_files_to_table(
        &self,
        rows: &mut Vec<Row>,
        src: &Vec<Entry>,
        depth: TreeDepth,
        physical_depth: usize,
    )
        requires
            listing_well_formed(src@),
            depth.0 <= physical_depth,
            physical_depth + heights(src@) <= usize::MAX,
        ensures
            rows_view(final(rows)@) == rows_view(old(rows)@) + self.listing_rows(
                src@,
                depth.0 as int,
                physical_depth as int,
            ),
        decreases heights(src@), 3nat,
    {
        let active = match self.recurse {
            Some(r) => r.table_leaves,
            None => false,
        } && self.opts.table.is_none();
        if active && any_content_dir(src) {
            self.add_grouped(rows, src, depth, physical_depth);
        } else {
            self.add_each(rows, src, depth, physical_depth);
        }
    }

    /// Adds the rows of a listing, every entry with rows of its own.
    fn add_each(&self, rows: &mut Vec<Row>, src: &Vec<Entry>, depth: TreeDepth, physical_depth: usize)
        requires
            listing_well_formed(src@),
            depth.0 <= physical_depth,
            physical_depth + heights(src@) <= usize::MAX,
        ensures
            rows_view(final(rows)@) == rows_view(old(rows)@) + self.rows_from(
                src@,
                depth.0 as int,
                physical_depth as int,
                0,
            ),
        decreases heights(src@), 2nat,
    {
        let ghost d = depth.0 as int;
        let ghost ph = physical_depth as int;
        let order = sort_order(src);
        let n = src.len();
        let mut r: usize = 0;
        assert(rows_view(rows@) =~= rows_view(old(rows)@));
        while r < n
            invariant
                r <= n,
                n == src@.len(),
                order@.len() == n,
                forall|k: int|
                    0 <= k < n ==> {
                        &&& #[trigger] order@[k] < n
                        &&& sorted(src@)[k] == src@[order@[k] as int]
                    },
                listing_well_formed(src@),
                depth.0 <= physical_depth,
                physical_depth + heights(src@) <= usize::MAX,
                d == depth.0 as int,
                ph == physical_depth as int,
                rows_view(rows@) + self.rows_from(src@, d, ph, r as int) == rows_view(old(rows)@)
                    + self.rows_from(src@, d, ph, 0),
            decreases n - r,
        {
            let idx = order[r];
            let e = &src[idx];
            proof {
                lemma_member_height(src@, idx as int);
                assert(entry_well_formed(src@[idx as int]));
            }
            let params = TreeParams::new(depth, r == n - 1);
            let ghost before = rows_view(rows@);
            self.add_entry(rows, e, params, physical_depth);
            proof {
                assert(params == at(d, r == n - 1));
                assert(self.rows_from(src@, d, ph, r as int) == self.entry_rows(
                    sorted(src@)[r as int],
                    at(d, r == n - 1),
                    ph,
                ) + self.rows_from(src@, d, ph, r + 1));
                assert(rows_view(rows@) + self.rows_from(src@, d, ph, r + 1) =~= before
                    + self.rows_from(src@, d, ph, r as int));
            }
            r = r + 1;
        }
    }

    /// Adds the rows of a listing with runs of files grouped into grids
    /// between directories.
    fn add_grouped(&self, rows: &mut Vec<Row>, src: &Vec<Entry>, depth: TreeDepth, physical_depth: usize)
        requires
            listing_well_formed(src@),
            depth.0 <= physical_depth,
            physical_depth + heights(src@) <= usize::MAX,
        ensures
            rows_view(final(rows)@) == rows_view(old(rows)@) + self.grouped_rows(
                src@,
                depth.0 as int,
                physical_depth as int,
                0,
            ),
        decreases heights(src@), 2nat,
    {
        let ghost d = depth.0 as int;
        let ghost ph = physical_depth as int;
        let ghost sf = sorted(src@);
        let order = sort_order(src);
        let n = src.len();
        let mut r: usize = 0;
        assert(rows_view(rows@) =~= rows_view(old(rows)@));
        while r < n
            invariant
                r <= n,
                n == src@.len(),
                sf == sorted(src@),
                sf.len() == n,
                order@.len() == n,
                forall|k: int|
                    0 <= k < n ==> {
                        &&& #[trigger] order@[k] < n
                        &&& sf[k] == src@[order@[k] as int]
                    },
                listing_well_formed(src@),
                depth.0 <= physical_depth,
                physical_depth + heights(src@) <= usize::MAX,
                d == depth.0 as int,
                ph == physical_depth as int,
                rows_view(rows@) + self.grouped_rows(src@, d, ph, r as int) == rows_view(old(rows)@)
                    + self.grouped_rows(src@, d, ph, 0),
            decreases n - r,
        {
            let idx = order[r];
            let e = &src[idx];
            let ghost before = rows_view(rows@);
            if e.is_directory && !e.is_link {
                proof {
                    lemma_member_height(src@, idx as int);
                    assert(entry_well_formed(src@[idx as int]));
                }
                let params = TreeParams::new(depth, r == n - 1);
                self.add_entry(rows, e, params, physical_depth);
                proof {
                    assert(params == at(d, r == n - 1));
                    assert(self.grouped_rows(src@, d, ph, r as int) == self.entry_rows(
                        sf[r as int],
                        at(d, r == n - 1),
                        ph,
                    ) + self.grouped_rows(src@, d, ph, r + 1));
                    assert(rows_view(rows@) + self.grouped_rows(src@, d, ph, r + 1) =~= before
                        + self.grouped_rows(src@, d, ph, r as int));
                }
                r = r + 1;
            } else {
                proof {
                    lemma_run_end(sf, r as int);
                }
                let mut run: Vec<&Entry> = Vec::new();
                let mut q: usize = r;
                while q < n && !(src[order[q]].is_directory && !src[order[q]].is_link)
                    invariant
                        r <= q <= n,
                        n == src@.len(),
                        sf.len() == n,
                        order@.len() == n,
                        forall|k: int|
                            0 <= k < n ==> {
                                &&& #[trigger] order@[k] < n
                                &&& sf[k] == src@[order@[k] as int]
                            },
                        entries_of(run@) == sf.subrange(r as int, q as int),
                        run_end(sf, q as int) == run_end(sf, r as int),
                    decreases n - q,
                {
                    let entry = &src[order[q]];
                    let ghost prev = run@;
                    run.push(entry);
                    assert(entries_of(run@) =~= entries_of(prev).push(*entry));
                    assert(entries_of(run@) =~= sf.subrange(r as int, q + 1));
                    q = q + 1;
                }
                assert(run_end(sf, q as int) == q);
                self.add_file_grid(rows, &run, depth, q == n);
                proof {
                    assert(!is_dir_entry(sf[r as int]));
                    assert(self.grouped_rows(src@, d, ph, r as int) == self.file_grid(
                        sf.subrange(r as int, q as int),
                        d,
                        q == n,
                    ) + self.grouped_rows(src@, d, ph, q as int));
                    assert(rows_view(rows@) + self.grouped_rows(src@, d, ph, q as int) =~= before
                        + self.grouped_rows(src@, d, ph, r as int));
                }
                r = q;
            }
        }
    }
}

impl Render {
    /// The header line, when a table with a header is shown.
    pub open spec fn header_rows(self) -> Seq<RowView> {
        match self.opts.table {
            Some(t) => if self.opts.header {
                seq![(Some(t.header_row@), painted(self.theme.header, "Name"@), at(0, false))]
            } else {
                Seq::empty()
            },
            None => Seq::empty(),
        }
    }

    /// Whether the git cache stays in use: without a table it always does;
    /// with one, only when it knows anything of the listed directory, or,
    /// when no directory is listed, of one of the files.
    pub open spec fn git_in_use(self) -> bool {
        &&& self.git
        &&& (self.opts.table is None || match self.dir {
            Some(d) => d.has_git_status,
            None => exists|i: int| 0 <= i < self.files@.len() && #[trigger] self.files@[i].has_git_status,
        })
    }

    /// Whether the git cache stays in use for this rendering.
    pub fn uses_git(&self) -> (used: bool)
        ensures
            used == self.git_in_use(),
    {
        if !self.git {
            return false;
        }
        if self.opts.table.is_none() {
            return true;
        }
        match &self.dir {
            Some(d) => d.has_git_status,
            None => {
                let mut i: usize = 0;
                while i < self.files.len()
                    invariant
                        i <= self.files@.len(),
                        forall|k: int| 0 <= k < i ==> !(#[trigger] self.files@[k]).has_git_status,
                        self.git,
                        self.opts.table is Some,
                        self.dir is None,
                    decreases self.files@.len() - i,
                {
                    if self.files[i].has_git_status {
                        assert(self.files@[i as int].has_git_status);
                        return true;
                    }
                    i = i + 1;
                }
                false
            },
        }
    }

    /// The rows of the rendering: the header line when a table with a
    /// header is shown, then the rows of the files at the root. The git
    /// cache stays in use only when `uses_git` says so; nothing else of the
    /// rendering changes.
    pub fn render(&mut self) -> (rows: Vec<Row>)
        requires
            listing_well_formed(old(self).files@),
            heights(old(self).files@) <= usize::MAX,
        ensures
            rows_view(rows@) == old(self).header_rows() + old(self).listing_rows(old(self).files@, 0, 0),
            forall|i: int| 0 <= i < rows@.len() ==> #[trigger] rows@[i].tree.depth.0 <= heights(
                old(self).files@,
            ),
            final(self).git == old(self).git_in_use(),
            final(self).dir == old(self).dir,
            final(self).files == old(self).files,
            final(self).theme == old(self).theme,
            final(self).file_style == old(self).file_style,
            final(self).opts == old(self).opts,
            final(self).recurse == old(self).recurse,
            final(self).term_width == old(self).term_width,
    {
        let mut rows: Vec<Row> = Vec::new();
        match &self.opts.table {
            Some(t) => {
                if self.opts.header {
                    let header = t.header_row.duplicate();
                    rows.push(self.render_header(header));
                }
            },
            None => {},
        }
        assert(rows_view(rows@) =~= self.header_rows());
        self.add_files_to_table(&mut rows, &self.files, TreeDepth::root(), 0);
        proof {
            self.lemma_listing_rows_depths(self.files@, 0, 0);
            assert(depths_between(self.header_rows(), 0, heights(self.files@) as int));
            lemma_depths_concat(
                self.header_rows(),
                self.listing_rows(self.files@, 0, 0),
                0,
                heights(self.files@) as int,
            );
            assert forall|i: int| 0 <= i < rows@.len() implies #[trigger] rows@[i].tree.depth.0
                <= heights(self.files@) by {
                assert(rows_view(rows@)[i] == rows@[i]@);
                assert(0 <= rows_view(rows@)[i].2.depth.0 <= heights(self.files@));
            }
        }
        let used = self.uses_git();
        self.git = used;
        rows
    }
}


/// The tree-drawing parts in front of a line, each painted in `style` and
/// counted as four columns.
pub open spec fn parts_cell(style: Style, parts: Seq<TreePart>) -> CellView
    decreases parts.len(),
{
    if parts.len() == 0 {
        empty_cell()
    } else {
        pushed(parts_cell(style, parts.drop_last()), (Some(style), art(parts.last())), 4)
    }
}

/// A line of output: the tree parts, then the row's name.
pub open spec fn tree_line(style: Style, parts: Seq<TreePart>, name: CellView) -> CellView {
    joined(parts_cell(style, parts), name)
}

/// The rows of a rendering turned into lines, one at a time.
pub struct Iter {
    tree_trunk: TreeTrunk,
    tree_style: Style,
    /// The rows still to come, the next one last.
    inner: Vec<Row>,
}

impl Iter {
    /// The rows still to come, in order.
    pub closed spec fn remaining(self) -> Seq<RowView> {
        rows_view(self.inner@).reverse()
    }

    /// The trunk as of the previous line.
    pub closed spec fn trunk(self) -> TreeTrunk {
        self.tree_trunk
    }

    /// The style tree parts are painted in.
    pub closed spec fn style(self) -> Style {
        self.tree_style
    }

    /// The next line: the tree parts that the trunk gives for the next row,
    /// then the row's name; `None` once all rows are done.
    pub fn next(&mut self) -> (line: Option<TextCell>)
        requires
            old(self).remaining().len() > 0 ==> old(self).remaining()[0].2.depth.0 < usize::MAX,
        ensures
            old(self).remaining().len() == 0 ==> {
                &&& line is None
                &&& final(self).remaining() == old(self).remaining()
                &&& final(self).trunk() == old(self).trunk()
                &&& final(self).style() == old(self).style()
            },
            old(self).remaining().len() > 0 ==> {
                let row = old(self).remaining()[0];
                let stack = next_stack(old(self).trunk().stack(), old(self).trunk().previous(), row.2);
                &&& line matches Some(l) && l@ == tree_line(
                    old(self).style(),
                    stack.subrange(1, row.2.depth.0 + 1),
                    row.1,
                )
                &&& final(self).remaining() == old(self).remaining().drop_first()
                &&& final(self).trunk().stack() == stack
                &&& final(self).trunk().previous() == Some(row.2)
                &&& final(self).style() == old(self).style()
            },
    {
        let ghost old_inner = rows_view(self.inner@);
        match self.inner.pop() {
            None => {
                assert(rows_view(self.inner@) =~= old_inner);
                None
            },
            Some(row) => {
                proof {
                    assert(old_inner.reverse()[0] == row@);
                    assert(rows_view(self.inner@).reverse() =~= old_inner.reverse().drop_first());
                }
                let parts = self.tree_trunk.new_row(row.tree);
                let mut cell = TextCell::blank();
                let mut k: usize = 0;
                while k < parts.len()
                    invariant
                        k <= parts@.len(),
                        cell@ == parts_cell(self.tree_style, parts@.take(k as int)),
                    decreases parts@.len() - k,
                {
                    assert(parts@.take(k + 1).drop_last() =~= parts@.take(k as int));
                    let part = parts[k];
                    let text = String::from_str(part.ascii_art());
                    cell.push(Segment { style: Some(self.tree_style), text }, 4);
                    k = k + 1;
                }
                assert(parts@.take(k as int) =~= parts@);
                cell.append(row.name);
                Some(cell)
            },
        }
    }
}

impl Render {
    /// Turns rows into lines, painting tree parts in the punctuation style.
    pub fn iterate(&self, rows: Vec<Row>) -> (it: Iter)
        ensures
            it.remaining() == rows_view(rows@),
            it.trunk().stack() == Seq::<TreePart>::empty(),
            it.trunk().previous() is None,
            it.style() == self.theme.punctuation,
    {
        let mut rows = rows;
        let ghost all = rows_view(rows@);
        let mut inner: Vec<Row> = Vec::new();
        while rows.len() > 0
            invariant
                rows_view(rows@) + rows_view(inner@).reverse() == all,
            decreases rows@.len(),
        {
            let ghost rs = rows_view(rows@);
            let ghost is = rows_view(inner@);
            let row = rows.pop().unwrap();
            let ghost rv = row@;
            inner.push(row);
            assert(rows_view(rows@) =~= rs.drop_last());
            assert(rows_view(inner@) =~= is.push(rv));
            assert(rows_view(inner@).reverse() =~= seq![rv] + is.reverse());
            assert(rs =~= rs.drop_last().push(rv));
            assert(rows_view(rows@) + rows_view(inner@).reverse() =~= rs + is.reverse());
        }
        assert(rows_view(rows@) =~= Seq::<RowView>::empty());
        assert(rows_view(inner@).reverse() =~= all);
        Iter { tree_trunk: TreeTrunk::new(), tree_style: self.theme.punctuation, inner }
    }
}

/// Every row lies at a depth from `lo` to `hi`.
pub open spec fn depths_between(rows: Seq<RowView>, lo: int, hi: int) -> bool {
    forall|i: int| 0 <= i < rows.len() ==> lo <= #[trigger] rows[i].2.depth.0 <= hi
}

proof fn lemma_depths_concat(a: Seq<RowView>, b: Seq<RowView>, lo: int, hi: int)
    requires
        depths_between(a, lo, hi),
        depths_between(b, lo, hi),
    ensures
        depths_between(a + b, lo, hi),
{
    assert forall|i: int| 0 <= i < (a + b).len() implies lo <= #[trigger] (a + b)[i].2.depth.0 <= hi by {
        if i < a.len() {
            assert((a + b)[i] == a[i]);
        } else {
            assert((a + b)[i] == b[i - a.len()]);
        }
    }
}

/// A grid takes as many lines as its files fill, one file per column:
/// every line but the last is full, only the last can end the branch (and
/// does when `ends`), and all lie at the grid's depth.
pub proof fn lemma_grid_lines(
    files: Seq<Entry>,
    depth: int,
    widths: Seq<usize>,
    spacing: usize,
    start: int,
    ends: bool,
)
    requires
        0 <= start < files.len(),
        0 <= depth <= usize::MAX,
    ensures
        ({
            let g = grid_rows(files, depth, widths, spacing, start, ends);
            let m = files_per_line(widths);
            &&& g.len() > 0
            &&& (g.len() - 1) * m < files.len() - start <= g.len() * m
            &&& forall|i: int| 0 <= i < g.len() ==> (#[trigger] g[i].2.last <==> ends && i == g.len() - 1)
            &&& depths_between(g, depth, depth)
        }),
    decreases files.len() - start,
{
    let g = grid_rows(files, depth, widths, spacing, start, ends);
    let m = files_per_line(widths);
    if start + m < files.len() {
        lemma_grid_lines(files, depth, widths, spacing, start + m, ends);
        let rest = grid_rows(files, depth, widths, spacing, start + m, ends);
        assert(g.len() == rest.len() + 1);
        assert((g.len() - 1) * m < files.len() - start <= g.len() * m) by (nonlinear_arith)
            requires
                (rest.len() - 1) * m < files.len() - (start + m) <= rest.len() * m,
                g.len() == rest.len() + 1,
        ;
        assert forall|i: int| 0 <= i < g.len() implies (#[trigger] g[i].2.last <==> ends && i
            == g.len() - 1) by {
            if i > 0 {
                assert(g[i] == rest[i - 1]);
            } else {
                assert(!g[0].2.last);
            }
        }
        assert forall|i: int| 0 <= i < g.len() implies depth <= #[trigger] g[i].2.depth.0 <= depth by {
            if i > 0 {
                assert(g[i] == rest[i - 1]);
            }
        }
    } else {
        assert(g.len() == 1);
        assert(g[0].2.last == ends);
        assert((g.len() - 1) * m == 0) by (nonlinear_arith)
            requires
                g.len() == 1,
        ;
        assert(g.len() * m == m) by (nonlinear_arith)
            requires
                g.len() == 1,
        ;
    }
}

impl Render {
    /// The files below an entry lie one level below the last directory of
    /// its chain, and no deeper than the entry reaches.
    proof fn lemma_below_depth(self, e: Entry, depth: int)
        ensures
            depth + 1 <= self.below_depth(e, depth),
            self.name_and_below(e, depth).1 matches Some(files) ==> {
                &&& heights(files) < height(e)
                &&& self.below_depth(e, depth) + heights(files) <= depth + height(e)
            },
    {
        lemma_listing_height(e);
        if self.opened(e, depth) is Some && self.collapses() {
            lemma_chain_height(self.recurse->0, listing(e)->0, depth, 1);
        }
    }

    proof fn lemma_file_grid(self, files: Seq<Entry>, depth: int, ends: bool)
        requires
            files.len() > 0,
            0 <= depth <= usize::MAX,
        ensures
            self.file_grid(files, depth, ends).len() > 0,
            depths_between(self.file_grid(files, depth, ends), depth, depth),
    {
        let layout = leaf_layout(seq![name_widths(files)], self.room(depth) as nat);
        lemma_grid_lines(files, depth, layout.0, layout.1, 0, ends);
    }

    proof fn lemma_rows_below_depths(self, e: Entry, p: TreeParams, depth: int)
        requires
            p.depth.0 <= depth,
            depth + height(e) <= usize::MAX,
        ensures
            depths_between(self.rows_below(e, p, depth), p.depth.0 + 1, p.depth.0 + height(e)),
        decreases height(e), 0nat, 0int,
    {
        let d = p.depth.0 as int;
        let below = self.name_and_below(e, depth).1;
        let xs = self.shown_xattrs(e);
        let error = self.read_error(e, depth);
        lemma_listing_height(e);
        self.lemma_below_depth(e, depth);
        let hi = d + height(e);
        if below is Some && below->0.len() > 0 {
            let files = below->0;
            if self.inline_files(e, p, depth) is Some {
                assert(depths_between(self.xattr_rows(xs, d + 1, true), d + 1, hi));
            } else {
                let bd = self.below_depth(e, depth);
                assert(depths_between(self.xattr_rows(xs, d + 1, false), d + 1, hi));
                self.lemma_listing_rows_depths(files, d + 1, bd);
                lemma_depths_concat(
                    self.xattr_rows(xs, d + 1, false),
                    self.listing_rows(files, d + 1, bd),
                    d + 1,
                    hi,
                );
            }
        } else {
            assert(depths_between(self.xattr_rows(xs, d + 1, error is None), d + 1, hi));
            assert(depths_between(self.error_rows(error, d + 1), d + 1, hi));
            lemma_depths_concat(
                self.xattr_rows(xs, d + 1, error is None),
                self.error_rows(error, d + 1),
                d + 1,
                hi,
            );
        }
    }

    proof fn lemma_entry_rows_depths(self, e: Entry, p: TreeParams, depth: int)
        requires
            p.depth.0 <= depth,
            depth + height(e) <= usize::MAX,
        ensures
            depths_between(self.entry_rows(e, p, depth), p.depth.0 as int, p.depth.0 + height(e)),
        decreases height(e), 0nat, 1int,
    {
        self.lemma_rows_below_depths(e, p, depth);
        lemma_depths_concat(
            seq![(self.entry_cells(e), self.row_name(e, p, depth), p)],
            self.rows_below(e, p, depth),
            p.depth.0 as int,
            p.depth.0 + height(e),
        );
    }

    /// Every row of a listing at `depth` lies at that depth or below it, at
    /// most as many levels down as the listing spans.
    pub proof fn lemma_listing_rows_depths(self, s: Seq<Entry>, depth: int, phys: int)
        requires
            0 <= depth <= phys,
            phys + heights(s) <= usize::MAX,
        ensures
            depths_between(self.listing_rows(s, depth, phys), depth, depth + heights(s)),
        decreases heights(s), 2nat, 0int,
    {
        if self.table_leaves_active() && has_content_dir(s) {
            self.lemma_grouped_rows_depths(s, depth, phys, 0);
        } else {
            self.lemma_rows_from_depths(s, depth, phys, 0);
        }
    }

    proof fn lemma_grouped_rows_depths(self, s: Seq<Entry>, depth: int, phys: int, r: int)
        requires
            0 <= depth <= phys,
            phys + heights(s) <= usize::MAX,
        ensures
            depths_between(self.grouped_rows(s, depth, phys, r), depth, depth + heights(s)),
        decreases heights(s), 1nat, s.len() - r,
    {
        if !(r < 0 || r >= s.len()) {
            lemma_sorted_member(s, r);
            let ss = sorted(s);
            if is_dir_entry(ss[r]) {
                let p = at(depth, r == s.len() - 1);
                self.lemma_entry_rows_depths(ss[r], p, phys);
                self.lemma_grouped_rows_depths(s, depth, phys, r + 1);
                lemma_depths_concat(
                    self.entry_rows(ss[r], p, phys),
                    self.grouped_rows(s, depth, phys, r + 1),
                    depth,
                    depth + heights(s),
                );
            } else {
                let q = run_end(ss, r);
                lemma_run_end(ss, r);
                self.lemma_file_grid(ss.subrange(r, q), depth, q == s.len());
                self.lemma_grouped_rows_depths(s, depth, phys, q);
                lemma_depths_concat(
                    self.file_grid(ss.subrange(r, q), depth, q == s.len()),
                    self.grouped_rows(s, depth, phys, q),
                    depth,
                    depth + heights(s),
                );
            }
        }
    }

    proof fn lemma_rows_from_depths(self, s: Seq<Entry>, depth: int, phys: int, r: int)
        requires
            0 <= depth <= phys,
            phys + heights(s) <= usize::MAX,
        ensures
            depths_between(self.rows_from(s, depth, phys, r), depth, depth + heights(s)),
        decreases heights(s), 1nat, s.len() - r,
    {
        if !(r < 0 || r >= s.len()) {
            lemma_sorted_member(s, r);
            let p = at(depth, r == s.len() - 1);
            self.lemma_entry_rows_depths(sorted(s)[r], p, phys);
            self.lemma_rows_from_depths(s, depth, phys, r + 1);
            lemma_depths_concat(
                self.entry_rows(sorted(s)[r], p, phys),
                self.rows_from(s, depth, phys, r + 1),
                depth,
                depth + heights(s),
            );
        }
    }
}

/// Each row lies at most one level below the row before it.
pub open spec fn steps_within(rows: Seq<RowView>) -> bool {
    forall|i: int| 0 < i < rows.len() ==> #[trigger] rows[i].2.depth.0 <= rows[i - 1].2.depth.0 + 1
}

/// The first row, if any, lies at `depth`.
pub open spec fn starts_at(rows: Seq<RowView>, depth: int) -> bool {
    rows.len() > 0 ==> rows[0].2.depth.0 == depth
}

/// The positions of rows.
pub open spec fn positions(rows: Seq<RowView>) -> Seq<TreeParams> {
    rows.map_values(|r: RowView| r.2)
}

proof fn lemma_steps_concat(a: Seq<RowView>, b: Seq<RowView>)
    requires
        steps_within(a),
        steps_within(b),
        a.len() > 0 && b.len() > 0 ==> b[0].2.depth.0 <= a.last().2.depth.0 + 1,
    ensures
        steps_within(a + b),
{
    assert forall|i: int| 0 < i < (a + b).len() implies #[trigger] (a + b)[i].2.depth.0 <= (a + b)[i
        - 1].2.depth.0 + 1 by {
        if i < a.len() {
            assert((a + b)[i] == a[i] && (a + b)[i - 1] == a[i - 1]);
        } else if i == a.len() {
            assert((a + b)[i] == b[0] && (a + b)[i - 1] == a.last());
        } else {
            assert((a + b)[i] == b[i - a.len()] && (a + b)[i - 1] == b[i - 1 - a.len()]);
        }
    }
}

proof fn lemma_level_rows(rows: Seq<RowView>, depth: int)
    requires
        depths_between(rows, depth, depth),
    ensures
        steps_within(rows),
        starts_at(rows, depth),
{
    if rows.len() > 0 {
        assert(rows[0].2.depth.0 == depth);
    }
    assert forall|i: int| 0 < i < rows.len() implies #[trigger] rows[i].2.depth.0 <= rows[i
        - 1].2.depth.0 + 1 by {
        assert(rows[i].2.depth.0 == depth);
        assert(rows[i - 1].2.depth.0 == depth);
    }
}

/// A block of rows that starts at `depth` and lies at or below it, followed
/// by rows that start at `depth`, goes down at most one level at a time.
proof fn lemma_block_then(block: Seq<RowView>, rest: Seq<RowView>, depth: int, hi: int)
    requires
        block.len() > 0,
        steps_within(block),
        starts_at(block, depth),
        depths_between(block, depth, hi),
        steps_within(rest),
        starts_at(rest, depth),
    ensures
        steps_within(block + rest),
        starts_at(block + rest, depth),
{
    assert(depth <= block.last().2.depth.0);
    lemma_steps_concat(block, rest);
    assert((block + rest)[0] == block[0]);
}

impl Render {
    proof fn lemma_rows_below_steps(self, e: Entry, p: TreeParams, depth: int)
        requires
            p.depth.0 <= depth,
            depth + height(e) <= usize::MAX,
        ensures
            steps_within(self.rows_below(e, p, depth)),
            starts_at(self.rows_below(e, p, depth), p.depth.0 + 1),
        decreases height(e), 0nat, 0int,
    {
        let d = p.depth.0 as int;
        let below = self.name_and_below(e, depth).1;
        let xs = self.shown_xattrs(e);
        let error = self.read_error(e, depth);
        lemma_listing_height(e);
        self.lemma_below_depth(e, depth);
        if below is Some && below->0.len() > 0 {
            let files = below->0;
            if self.inline_files(e, p, depth) is Some {
                let xr = self.xattr_rows(xs, d + 1, true);
                assert(depths_between(xr, d + 1, d + 1));
                lemma_level_rows(xr, d + 1);
            } else {
                let bd = self.below_depth(e, depth);
                let xr = self.xattr_rows(xs, d + 1, false);
                assert(depths_between(xr, d + 1, d + 1));
                lemma_level_rows(xr, d + 1);
                let rest = self.listing_rows(files, d + 1, bd);
                self.lemma_listing_rows_steps(files, d + 1, bd);
                lemma_steps_concat(xr, rest);
                if xr.len() > 0 {
                    assert((xr + rest)[0] == xr[0]);
                } else {
                    assert(xr + rest =~= rest);
                }
            }
        } else {
            let xr = self.xattr_rows(xs, d + 1, error is None);
            let er = self.error_rows(error, d + 1);
            assert(depths_between(xr, d + 1, d + 1));
            assert(depths_between(er, d + 1, d + 1));
            lemma_depths_concat(xr, er, d + 1, d + 1);
            lemma_level_rows(xr + er, d + 1);
        }
    }

    proof fn lemma_entry_rows_steps(self, e: Entry, p: TreeParams, depth: int)
        requires
            p.depth.0 <= depth,
            depth + height(e) <= usize::MAX,
        ensures
            steps_within(self.entry_rows(e, p, depth)),
            starts_at(self.entry_rows(e, p, depth), p.depth.0 as int),
        decreases height(e), 0nat, 1int,
    {
        self.lemma_rows_below_steps(e, p, depth);
        let first = seq![(self.entry_cells(e), self.row_name(e, p, depth), p)];
        lemma_steps_concat(first, self.rows_below(e, p, depth));
        assert((first + self.rows_below(e, p, depth))[0] == first[0]);
    }

    /// The rows of a listing begin at its depth and go down at most one
    /// level from each row to the next.
    pub proof fn lemma_listing_rows_steps(self, s: Seq<Entry>, depth: int, phys: int)
        requires
            0 <= depth <= phys,
            phys + heights(s) <= usize::MAX,
        ensures
            steps_within(self.listing_rows(s, depth, phys)),
            starts_at(self.listing_rows(s, depth, phys), depth),
        decreases heights(s), 2nat, 0int,
    {
        if self.table_leaves_active() && has_content_dir(s) {
            self.lemma_grouped_rows_steps(s, depth, phys, 0);
        } else {
            self.lemma_rows_from_steps(s, depth, phys, 0);
        }
    }

    proof fn lemma_grouped_rows_steps(self, s: Seq<Entry>, depth: int, phys: int, r: int)
        requires
            0 <= depth <= phys,
            phys + heights(s) <= usize::MAX,
        ensures
            steps_within(self.grouped_rows(s, depth, phys, r)),
            starts_at(self.grouped_rows(s, depth, phys, r), depth),
        decreases heights(s), 1nat, s.len() - r,
    {
        if !(r < 0 || r >= s.len()) {
            lemma_sorted_member(s, r);
            let ss = sorted(s);
            if is_dir_entry(ss[r]) {
                let p = at(depth, r == s.len() - 1);
                let block = self.entry_rows(ss[r], p, phys);
                self.lemma_entry_rows_steps(ss[r], p, phys);
                self.lemma_entry_rows_depths(ss[r], p, phys);
                self.lemma_grouped_rows_steps(s, depth, phys, r + 1);
                lemma_block_then(
                    block,
                    self.grouped_rows(s, depth, phys, r + 1),
                    depth,
                    depth + height(ss[r]),
                );
            } else {
                let q = run_end(ss, r);
                lemma_run_end(ss, r);
                let block = self.file_grid(ss.subrange(r, q), depth, q == s.len());
                self.lemma_file_grid(ss.subrange(r, q), depth, q == s.len());
                lemma_level_rows(block, depth);
                self.lemma_grouped_rows_steps(s, depth, phys, q);
                lemma_block_then(block, self.grouped_rows(s, depth, phys, q), depth, depth);
            }
        }
    }

    proof fn lemma_rows_from_steps(self, s: Seq<Entry>, depth: int, phys: int, r: int)
        requires
            0 <= depth <= phys,
            phys + heights(s) <= usize::MAX,
        ensures
            steps_within(self.rows_from(s, depth, phys, r)),
            starts_at(self.rows_from(s, depth, phys, r), depth),
        decreases heights(s), 1nat, s.len() - r,
    {
        if !(r < 0 || r >= s.len()) {
            lemma_sorted_member(s, r);
            let p = at(depth, r == s.len() - 1);
            let block = self.entry_rows(sorted(s)[r], p, phys);
            self.lemma_entry_rows_steps(sorted(s)[r], p, phys);
            self.lemma_entry_rows_depths(sorted(s)[r], p, phys);
            self.lemma_rows_from_steps(s, depth, phys, r + 1);
            lemma_block_then(
                block,
                self.rows_from(s, depth, phys, r + 1),
                depth,
                depth + height(sorted(s)[r]),
            );
        }
    }

    /// The rows of a rendering form a tree that can be drawn: they start at
    /// the root, go down at most one level from each row to the next, and
    /// lie above the deepest representable depth.
    pub proof fn lemma_render_rows_step(self)
        requires
            heights(self.files@) < usize::MAX,
        ensures
            steps_down_by_one(positions(self.header_rows() + self.listing_rows(self.files@, 0, 0))),
    {
        let h = self.header_rows();
        let body = self.listing_rows(self.files@, 0, 0);
        self.lemma_listing_rows_steps(self.files@, 0, 0);
        self.lemma_listing_rows_depths(self.files@, 0, 0);
        assert(depths_between(h, 0, 0));
        lemma_level_rows(h, 0);
        lemma_steps_concat(h, body);
        lemma_depths_concat(h, body, 0, heights(self.files@) as int);
        let all = h + body;
        if all.len() > 0 {
            if h.len() > 0 {
                assert(all[0] == h[0]);
            } else {
                assert(all =~= body);
            }
        }
        assert forall|i: int| 0 < i < positions(all).len() implies #[trigger] positions(all)[i].depth.0
            <= positions(all)[i - 1].depth.0 + 1 by {
            assert(all[i].2.depth.0 <= all[i - 1].2.depth.0 + 1);
        }
        assert forall|i: int| 0 <= i < positions(all).len() implies #[trigger] positions(all)[i].depth.0
            < usize::MAX by {
            assert(0 <= all[i].2.depth.0 <= heights(self.files@));
        }
    }
}



/// Chains follow the same directories under two recursion settings that
/// share their maximum depth.
proof fn lemma_chain_same(r1: RecurseOptions, r2: RecurseOptions, files: Seq<Entry>, depth: int, traversed: int)
    requires
        r1.max_depth == r2.max_depth,
    ensures
        chain_below(r1, files, depth, traversed) == chain_below(r2, files, depth, traversed),
    decreases heights(files),
{
    if !(too_deep(r1, depth + traversed) || files.len() != 1 || files[0].is_link
        || !files[0].is_directory || listing(files[0]) is None) {
        lemma_member_height(files, 0);
        lemma_listing_height(files[0]);
        lemma_chain_same(r1, r2, listing(files[0])->0, depth, traversed + 1);
    }
}

impl Render {
    /// The same rendering with leaf grids not asked for.
    pub open spec fn without_leaf_grids(self) -> Render {
        Render {
            recurse: match self.recurse {
                Some(r) => Some(RecurseOptions { table_leaves: false, ..r }),
                None => None,
            },
            ..self
        }
    }

    proof fn lemma_same_names(self, e: Entry, depth: int)
        requires
            self.opts.table is Some,
        ensures
            self.name_and_below(e, depth) == self.without_leaf_grids().name_and_below(e, depth),
            self.below_depth(e, depth) == self.without_leaf_grids().below_depth(e, depth),
            self.read_error(e, depth) == self.without_leaf_grids().read_error(e, depth),
    {
        let b = self.without_leaf_grids();
        if self.opened(e, depth) is Some && self.collapses() {
            lemma_chain_same(self.recurse->0, b.recurse->0, listing(e)->0, depth, 1);
        }
    }

    proof fn lemma_same_rows_below(self, e: Entry, p: TreeParams, depth: int)
        requires
            self.opts.table is Some,
        ensures
            self.rows_below(e, p, depth) == self.without_leaf_grids().rows_below(e, p, depth),
        decreases height(e), 0nat, 0int,
    {
        let b = self.without_leaf_grids();
        self.lemma_same_names(e, depth);
        let below = self.name_and_below(e, depth).1;
        lemma_listing_height(e);
        self.lemma_below_depth(e, depth);
        assert(self.xattr_rows(self.shown_xattrs(e), p.depth.0 + 1, false) == b.xattr_rows(
            b.shown_xattrs(e),
            p.depth.0 + 1,
            false,
        ));
        if below is Some && below->0.len() > 0 {
            self.lemma_same_listing_rows(below->0, p.depth.0 + 1, self.below_depth(e, depth));
        }
    }

    proof fn lemma_same_entry_rows(self, e: Entry, p: TreeParams, depth: int)
        requires
            self.opts.table is Some,
        ensures
            self.entry_rows(e, p, depth) == self.without_leaf_grids().entry_rows(e, p, depth),
        decreases height(e), 0nat, 1int,
    {
        self.lemma_same_names(e, depth);
        self.lemma_same_rows_below(e, p, depth);
    }

    proof fn lemma_same_listing_rows(self, s: Seq<Entry>, depth: int, phys: int)
        requires
            self.opts.table is Some,
        ensures
            self.listing_rows(s, depth, phys) == self.without_leaf_grids().listing_rows(s, depth, phys),
        decreases heights(s), 2nat, 0int,
    {
        self.lemma_same_rows_from(s, depth, phys, 0);
    }

    proof fn lemma_same_rows_from(self, s: Seq<Entry>, depth: int, phys: int, r: int)
        requires
            self.opts.table is Some,
        ensures
            self.rows_from(s, depth, phys, r) == self.without_leaf_grids().rows_from(s, depth, phys, r),
        decreases heights(s), 1nat, s.len() - r,
    {
        if !(r < 0 || r >= s.len()) {
            lemma_sorted_member(s, r);
            self.lemma_same_entry_rows(sorted(s)[r], at(depth, r == s.len() - 1), phys);
            self.lemma_same_rows_from(s, depth, phys, r + 1);
        }
    }

    /// With a table shown, asking for compact display of files changes no
    /// row: the rows, and the decision on git, are those of the same
    /// rendering with it not asked for (chains still collapse alike).
    pub proof fn lemma_table_ignores_leaf_grids(self)
        requires
            self.opts.table is Some,
        ensures
            self.header_rows() + self.listing_rows(self.files@, 0, 0)
                == self.without_leaf_grids().header_rows() + self.without_leaf_grids().listing_rows(
                self.files@,
                0,
                0,
            ),
            self.git_in_use() == self.without_leaf_grids().git_in_use(),
    {
        self.lemma_same_listing_rows(self.files@, 0, 0);
    }
}



/// The `i`-th line of a grid starting at the `start`-th file holds the
/// files from `start + i * m` on, `m` to a line (the last line the rest).
proof fn lemma_grid_line_files(
    files: Seq<Entry>,
    depth: int,
    widths: Seq<usize>,
    spacing: usize,
    start: int,
    ends: bool,
    i: int,
)
    requires
        0 <= start < files.len(),
        0 <= i < grid_rows(files, depth, widths, spacing, start, ends).len(),
    ensures
        ({
            let m = files_per_line(widths);
            let lo = start + i * m;
            let hi = if lo + m < files.len() {
                lo + m
            } else {
                files.len() as int
            };
            &&& 0 <= lo < hi <= files.len()
            &&& grid_rows(files, depth, widths, spacing, start, ends)[i].0 is None
            &&& grid_rows(files, depth, widths, spacing, start, ends)[i].1 == grid_cell(
                files.subrange(lo, hi),
                widths,
                spacing,
            )
        }),
    decreases i,
{
    let m = files_per_line(widths);
    let g = grid_rows(files, depth, widths, spacing, start, ends);
    if i == 0 {
        assert(start + 0 * m == start) by (nonlinear_arith);
    } else {
        assert(start + m < files.len());
        let rest = grid_rows(files, depth, widths, spacing, start + m, ends);
        assert(g[i] == rest[i - 1]);
        lemma_grid_line_files(files, depth, widths, spacing, start + m, ends, i - 1);
        assert((start + m) + (i - 1) * m == start + i * m) by (nonlinear_arith);
    }
}

impl Render {
    /// A grid of files at `depth` takes as many columns as the layout of
    /// its own file widths in the room a line at `depth` leaves (at least
    /// one): every line but the last holds exactly that many files, in
    /// order, the last holds the rest, and only the last can end the branch
    /// (and does when `ends`). So a grid whose layout has a column for each
    /// file is one line.
    pub proof fn lemma_file_grid_lines(self, files: Seq<Entry>, depth: int, ends: bool)
        requires
            files.len() > 0,
            0 <= depth <= usize::MAX,
        ensures
            ({
                let layout = leaf_layout(seq![name_widths(files)], self.room(depth) as nat);
                let m = if layout.0.len() > 1 {
                    layout.0.len() as int
                } else {
                    1int
                };
                let g = self.file_grid(files, depth, ends);
                let n = files.len() as int;
                &&& (g.len() - 1) * m < n <= g.len() * m
                &&& m >= n ==> g.len() == 1
                &&& forall|i: int|
                    0 <= i < g.len() ==> {
                        let lo = i * m;
                        let hi = if lo + m < n {
                            lo + m
                        } else {
                            n
                        };
                        (#[trigger] g[i]) == (
                            None::<Seq<CellView>>,
                            grid_cell(files.subrange(lo, hi), layout.0, layout.1),
                            at(depth, ends && i == g.len() - 1),
                        )
                    }
            }),
    {
        let layout = leaf_layout(seq![name_widths(files)], self.room(depth) as nat);
        let m = files_per_line(layout.0);
        assert(m == if layout.0.len() > 1 {
            layout.0.len() as int
        } else {
            1int
        });
        let g = self.file_grid(files, depth, ends);
        let n = files.len() as int;
        lemma_grid_lines(files, depth, layout.0, layout.1, 0, ends);
        if m >= n {
            assert(g.len() == 1) by (nonlinear_arith)
                requires
                    (g.len() - 1) * m < n <= g.len() * m,
                    m >= n,
                    n > 0,
            ;
        }
        assert forall|i: int| 0 <= i < g.len() implies {
            let lo = i * m;
            let hi = if lo + m < n {
                lo + m
            } else {
                n
            };
            (#[trigger] g[i]) == (
                None::<Seq<CellView>>,
                grid_cell(files.subrange(lo, hi), layout.0, layout.1),
                at(depth, ends && i == g.len() - 1),
            )
        } by {
            lemma_grid_line_files(files, depth, layout.0, layout.1, 0, ends, i);
            assert(0 + i * m == i * m);
            assert(0 <= i * m < (if i * m + m < n {
                i * m + m
            } else {
                n
            }) <= n);
            assert(g[i].2.depth.0 == depth);
            assert(g[i].2.last == (ends && i == g.len() - 1));
        }
    }

    /// When a directory's files are shown on its row they come in sort
    /// order: the `k`-th name after the separator belongs to the file of the
    /// listing whose sort position is `k`, each file of the listing comes
    /// once, and the row shows the name, the separator and those names.
    pub proof fn lemma_inline_in_sort_order(self, e: Entry, p: TreeParams, depth: int)
        requires
            entry_well_formed(e),
        ensures
            self.inline_files(e, p, depth) matches Some(fs) ==> {
                let below = self.name_and_below(e, depth).1;
                &&& below is Some
                &&& fs.len() == below->0.len()
                &&& forall|k: int|
                    0 <= k < fs.len() ==> (#[trigger] fs[k]).sort_position == k && below->0.contains(
                        fs[k],
                    )
                &&& self.entry_rows(e, p, depth)[0].1 == inline_cell(
                    self.theme.punctuation,
                    self.name_and_below(e, depth).0,
                    fs,
                )
            },
    {
        if let Some(fs) = self.inline_files(e, p, depth) {
            let files = self.name_and_below(e, depth).1->0;
            let v = listing(e)->0;
            assert(listing_well_formed(v));
            if self.collapses() {
                lemma_chain_well_formed(self.recurse->0, v, depth, 1);
            }
            assert(positions_valid(files));
            lemma_sorted_permutation(files);
            assert forall|k: int| 0 <= k < fs.len() implies (#[trigger] fs[k]).sort_position == k
                && files.contains(fs[k]) by {
                let i = index_at_position(files, k);
                assert(fs[k] == files[i]);
            }
        }
    }

    /// An entry's own row comes first among its rows, with its cells and its
    /// position. It shows the entry's full name (with link target and mount
    /// details) whenever nothing is read below it, and whenever chains do not
    /// collapse and files are not shown compactly.
    pub proof fn lemma_entry_row_name(self, e: Entry, p: TreeParams, depth: int)
        ensures
            self.entry_rows(e, p, depth)[0].0 == self.entry_cells(e),
            self.entry_rows(e, p, depth)[0].2 == p,
            self.recurse is None || listing(e) is None ==> self.entry_rows(
                e,
                p,
                depth,
            )[0].1 == e.name_cell@,
            !self.collapses() && !self.table_leaves_active() ==> self.entry_rows(e, p, depth)[0].1
                == e.name_cell@,
    {
    }

    /// Which directories the tree descends into. Below an entry that is not
    /// read (the tree is off, the entry is not a directory, or with links
    /// followed does not point to one, or it lies at the depth limit) come
    /// only its attribute rows. Below a read directory come its attributes
    /// and then its listing's rows one level deeper (when chains do not
    /// collapse and files are not shown compactly), or the error reading it
    /// gave.
    pub proof fn lemma_descends(self, e: Entry, p: TreeParams, depth: int)
        ensures
            !(self.recurse is Some && self.recurse->0.tree && !too_deep(self.recurse->0, depth) && (
            if self.opts.follow_links {
                e.points_to_directory
            } else {
                e.is_directory
            })) ==> self.rows_below(e, p, depth) == self.xattr_rows(
                self.shown_xattrs(e),
                p.depth.0 + 1,
                true,
            ),
            (self.recurse is Some && self.recurse->0.tree && !self.recurse->0.collapse_single
                && !too_deep(self.recurse->0, depth) && (if self.opts.follow_links {
                e.points_to_directory
            } else {
                e.is_directory
            }) && !self.table_leaves_active() && listing(e) is Some && listing(e)->0.len() > 0)
                ==> self.rows_below(e, p, depth) == self.xattr_rows(
                self.shown_xattrs(e),
                p.depth.0 + 1,
                false,
            ) + self.rows_from(listing(e)->0, p.depth.0 + 1, depth + 1, 0),
            (self.recurse is Some && self.recurse->0.tree && !too_deep(self.recurse->0, depth) && (
            if self.opts.follow_links {
                e.points_to_directory
            } else {
                e.is_directory
            })) ==> match e.contents {
                Some(Err(m)) => self.rows_below(e, p, depth) == self.xattr_rows(
                    self.shown_xattrs(e),
                    p.depth.0 + 1,
                    false,
                ) + seq![
                    message_row(
                        self.theme.broken_symlink,
                        error_text(m@, None),
                        at(p.depth.0 + 1, true),
                    ),
                ],
                _ => true,
            },
    {
    }

    /// Every leaf directory below a listing is collected: with leaf widths
    /// asked for, each entry that is a directory (not a link) above the depth
    /// limit with a read listing contributes that listing's name widths when
    /// it is a leaf, and otherwise everything collected from that listing one
    /// level deeper.
    pub proof fn lemma_leaf_widths_reach(self, s: Seq<Entry>, depth: int, i: int)
        requires
            0 <= i < s.len(),
            self.recurse is Some,
            self.recurse->0.table_leaves,
            !too_deep(self.recurse->0, depth),
            s[i].is_directory,
            !s[i].is_link,
            listing(s[i]) is Some,
        ensures
            is_leaf(listing(s[i])->0) ==> self.leaf_widths(s, depth).contains(
                name_widths(listing(s[i])->0),
            ),
            !is_leaf(listing(s[i])->0) ==> forall|w: Seq<usize>|
                #[trigger] self.leaf_widths(listing(s[i])->0, depth + 1).contains(w)
                    ==> self.leaf_widths(s, depth).contains(w),
        decreases s.len(),
    {
        let ws = self.leaf_widths(s, depth);
        let before = self.leaf_widths(s.drop_last(), depth);
        let own = self.entry_leaf_widths(s.last(), depth);
        assert(ws == before + own);
        if i < s.len() - 1 {
            assert(s.drop_last()[i] == s[i]);
            self.lemma_leaf_widths_reach(s.drop_last(), depth, i);
            if is_leaf(listing(s[i])->0) {
                let x = name_widths(listing(s[i])->0);
                let j = choose|j: int| 0 <= j < before.len() && before[j] == x;
                assert(ws[j] == x);
            } else {
                assert forall|w: Seq<usize>|
                    #[trigger] self.leaf_widths(listing(s[i])->0, depth + 1).contains(w)
                        implies ws.contains(w) by {
                    assert(before.contains(w));
                    let j = choose|j: int| 0 <= j < before.len() && before[j] == w;
                    assert(ws[j] == w);
                }
            }
        } else {
            assert(s.last() == s[i]);
            if is_leaf(listing(s[i])->0) {
                assert(ws[before.len() as int] == name_widths(listing(s[i])->0));
            } else {
                assert forall|w: Seq<usize>|
                    #[trigger] self.leaf_widths(listing(s[i])->0, depth + 1).contains(w)
                        implies ws.contains(w) by {
                    let j = choose|j: int| 0 <= j < own.len() && own[j] == w;
                    assert(ws[before.len() + j] == w);
                }
            }
        }
    }
}


/// The rows of a rendering with a table turned into lines, one at a time:
/// `table` renders a row's cells to the table's column widths, and
/// `total_width` is the width of a full set of cells, which rows without
/// cells are padded to.
pub struct TableIter<T: Fn(TableRow) -> TextCell> {
    inner: Vec<Row>,
    table: T,
    total_width: usize,
    tree_style: Style,
    tree_trunk: TreeTrunk,
}

impl<T: Fn(TableRow) -> TextCell> TableIter<T> {
    /// The rows still to come, in order.
    pub closed spec fn remaining(self) -> Seq<Row> {
        self.inner@.reverse()
    }

    /// The trunk as of the previous line.
    pub closed spec fn trunk(self) -> TreeTrunk {
        self.tree_trunk
    }

    /// The style tree parts are painted in.
    pub closed spec fn style(self) -> Style {
        self.tree_style
    }

    /// The renderer of cells.
    pub closed spec fn table(self) -> T {
        self.table
    }

    /// The width rows without cells are padded to.
    pub closed spec fn total_width(self) -> usize {
        self.total_width
    }

    /// The next line: the row's cells as the table renders them (or spaces
    /// as wide as a full set of cells when it has none), then the tree parts
    /// that the trunk gives for the row, then its name; `None` once all rows
    /// are done.
    pub fn next(&mut self) -> (line: Option<TextCell>)
        requires
            forall|r: TableRow| #[trigger] old(self).table().requires((r,)),
            old(self).remaining().len() > 0 ==> old(self).remaining()[0].tree.depth.0 < usize::MAX,
        ensures
            final(self).table() == old(self).table(),
            final(self).total_width() == old(self).total_width(),
            final(self).style() == old(self).style(),
            old(self).remaining().len() == 0 ==> {
                &&& line is None
                &&& final(self).remaining() == old(self).remaining()
                &&& final(self).trunk() == old(self).trunk()
            },
            old(self).remaining().len() > 0 ==> {
                let row = old(self).remaining()[0];
                let stack = next_stack(
                    old(self).trunk().stack(),
                    old(self).trunk().previous(),
                    row.tree,
                );
                let rest = tree_line(
                    old(self).style(),
                    stack.subrange(1, row.tree.depth.0 + 1),
                    row.name@,
                );
                &&& line matches Some(l) && match row.cells {
                    Some(cells) => exists|t: TextCell|
                        call_ensures(old(self).table(), (cells,), t) && l@ == joined(t@, rest),
                    None => l@ == joined(padded(empty_cell(), old(self).total_width()), rest),
                }
                &&& final(self).remaining() == old(self).remaining().drop_first()
                &&& final(self).trunk().stack() == stack
                &&& final(self).trunk().previous() == Some(row.tree)
            },
    {
        let ghost old_inner = self.inner@;
        match self.inner.pop() {
            None => {
                assert(self.inner@ =~= old_inner);
                None
            },
            Some(row) => {
                proof {
                    assert(old_inner.reverse()[0] == row);
                    assert(self.inner@.reverse() =~= old_inner.reverse().drop_first());
                }
                let mut cell = match row.cells {
                    Some(cells) => {
                        proof {
                            assert(old(self).table().requires((cells,)));
                        }
                        (self.table)(cells)
                    },
                    None => {
                        let mut cell = TextCell::blank();
                        cell.add_spaces(self.total_width);
                        cell
                    },
                };
                let ghost prefix = cell@;
                let parts = self.tree_trunk.new_row(row.tree);
                let mut k: usize = 0;
                let mut tree_cell = TextCell::blank();
                while k < parts.len()
                    invariant
                        k <= parts@.len(),
                        tree_cell@ == parts_cell(self.tree_style, parts@.take(k as int)),
                    decreases parts@.len() - k,
                {
                    assert(parts@.take(k + 1).drop_last() =~= parts@.take(k as int));
                    let part = parts[k];
                    let text = String::from_str(part.ascii_art());
                    tree_cell.push(Segment { style: Some(self.tree_style), text }, 4);
                    k = k + 1;
                }
                assert(parts@.take(k as int) =~= parts@);
                tree_cell.append(row.name);
                let ghost rest = tree_cell@;
                cell.append(tree_cell);
                proof {
                    assert(cell@ == joined(prefix, rest));
                }
                Some(cell)
            },
        }
    }
}

impl Render {
    /// Turns rows into lines with a table: `table` renders each row's cells,
    /// `total_width` is the width of a full set of cells.
    pub fn iterate_with_table<T: Fn(TableRow) -> TextCell>(
        &self,
        table: T,
        total_width: usize,
        rows: Vec<Row>,
    ) -> (it: TableIter<T>)
        ensures
            it.remaining() == rows@,
            it.trunk().stack() == Seq::<TreePart>::empty(),
            it.trunk().previous() is None,
            it.style() == self.theme.punctuation,
            it.table() == table,
            it.total_width() == total_width,
    {
        let mut rows = rows;
        let ghost all = rows@;
        let mut inner: Vec<Row> = Vec::new();
        while rows.len() > 0
            invariant
                rows@ + inner@.reverse() == all,
            decreases rows@.len(),
        {
            let ghost rs = rows@;
            let ghost is = inner@;
            let row = rows.pop().unwrap();
            inner.push(row);
            assert(inner@.reverse() =~= seq![row] + is.reverse());
            assert(rs =~= rows@.push(row));
            assert(rows@ + inner@.reverse() =~= rs + is.reverse());
        }
        assert(rows@ =~= Seq::<Row>::empty());
        assert(inner@.reverse() =~= all);
        TableIter {
            inner,
            table,
            total_width,
            tree_style: self.theme.punctuation,
            tree_trunk: TreeTrunk::new(),
        }
    }
}

} // verus!
