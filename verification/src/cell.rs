//! Cells of styled text: the pieces that rows are made of.

use nu_ansi_term::Style;
use vstd::prelude::*;
use crate::width::{display_width, text_width};

verus! {

/// A terminal style of `nu_ansi_term`, carried through untouched.
#[verifier::external_type_specification]
#[verifier::external_body]
pub struct ExStyle(Style);

/// One run of text with the style it is painted in; `None` paints it
/// plainly (the default style, which adds no escape codes).
#[derive(Debug, PartialEq, Eq)]
pub struct Segment {
    pub style: Option<Style>,
    pub text: String,
}

impl View for Segment {
    type V = (Option<Style>, Seq<char>);

    open spec fn view(&self) -> (Option<Style>, Seq<char>) {
        (self.style, self.text@)
    }
}

/// A piece of styled text together with the number of columns it takes.
#[derive(Debug, PartialEq, Eq)]
pub struct TextCell {
    pub contents: Vec<Segment>,
    pub width: usize,
}

/// The view of a cell: its segments and its width.
pub type CellView = (Seq<(Option<Style>, Seq<char>)>, usize);

impl View for TextCell {
    type V = CellView;

    open spec fn view(&self) -> CellView {
        (self.contents@.map_values(|s: Segment| s@), self.width)
    }
}

/// Widths add up, and are held at `usize::MAX` once they reach it.
pub open spec fn add_width(a: usize, b: usize) -> usize {
    if a + b > usize::MAX {
        usize::MAX
    } else {
        (a + b) as usize
    }
}

/// `n` space characters.
pub open spec fn spaces(n: nat) -> Seq<char> {
    Seq::new(n, |i: int| ' ')
}

/// The cell with no text.
pub open spec fn empty_cell() -> CellView {
    (Seq::empty(), 0)
}

/// One segment of text in the given style, as wide as the text measures.
pub open spec fn painted(style: Style, text: Seq<char>) -> CellView {
    (seq![(Some(style), text)], display_width(text))
}

/// The first cell followed by the second.
pub open spec fn joined(a: CellView, b: CellView) -> CellView {
    (a.0 + b.0, add_width(a.1, b.1))
}

/// The cell followed by `n` plain spaces.
pub open spec fn padded(a: CellView, n: usize) -> CellView {
    (a.0.push((None, spaces(n as nat))), add_width(a.1, n))
}

/// The cell followed by a segment that is counted as `w` columns wide.
pub open spec fn pushed(a: CellView, seg: (Option<Style>, Seq<char>), w: usize) -> CellView {
    (a.0.push(seg), add_width(a.1, w))
}

/// Calls `ToString::to_string` on a `char`: std's `Display` for `char`
/// writes the character itself, so the string holds just that character.
#[verifier::external_body]
pub(crate) fn char_string(c: char) -> (s: String)
    ensures
        s@ == seq![c],
{
    c.to_string()
}

/// A string of `n` spaces.
pub fn space_string(n: usize) -> (s: String)
    ensures
        s@ == spaces(n as nat),
{
    let mut s = String::new();
    let mut i: usize = 0;
    while i < n
        invariant
            i <= n,
            s@ == spaces(i as nat),
        decreases n - i,
    {
        proof {
            reveal_strlit(" ");
        }
        s.append(" ");
        assert(s@ =~= spaces((i + 1) as nat));
        i = i + 1;
    }
    s
}

impl TextCell {
    /// A cell with no text, zero columns wide.
    pub fn blank() -> (cell: TextCell)
        ensures
            cell@ == empty_cell(),
    {
        let cell = TextCell { contents: Vec::new(), width: 0 };
        assert(cell@.0 =~= Seq::<(Option<Style>, Seq<char>)>::empty());
        cell
    }

    /// A cell of one text painted in a style; its width is the text's
    /// display width.
    pub fn paint(style: Style, text: String) -> (cell: TextCell)
        ensures
            cell@ == painted(style, text@),
    {
        let width = text_width(text.as_str());
        let mut contents: Vec<Segment> = Vec::new();
        contents.push(Segment { style: Some(style), text });
        let cell = TextCell { contents, width };
        assert(cell@.0 =~= seq![(Some(style), text@)]);
        cell
    }

    /// A cell of a literal text painted in a style.
    pub fn paint_str(style: Style, text: &str) -> (cell: TextCell)
        ensures
            cell@ == painted(style, text@),
    {
        TextCell::paint(style, String::from_str(text))
    }

    /// Appends the contents of another cell, adding its width.
    pub fn append(&mut self, other: TextCell)
        ensures
            final(self)@ == joined(old(self)@, other@),
    {
        let mut other = other;
        let ghost a = self.contents@;
        let ghost b = other.contents@;
        self.contents.append(&mut other.contents);
        self.width = self.width.saturating_add(other.width);
        assert(self.contents@.map_values(|s: Segment| s@) =~= a.map_values(|s: Segment| s@)
            + b.map_values(|s: Segment| s@));
    }

    /// Appends `count` plain spaces.
    pub fn add_spaces(&mut self, count: usize)
        ensures
            final(self)@ == padded(old(self)@, count),
    {
        let text = space_string(count);
        let ghost a = self.contents@;
        let seg = Segment { style: None, text };
        self.contents.push(seg);
        self.width = self.width.saturating_add(count);
        assert(self.contents@.map_values(|s: Segment| s@) =~= a.map_values(|s: Segment| s@).push(
            (None, spaces(count as nat)),
        ));
    }

    /// Appends one segment, counted as `width` columns wide.
    pub fn push(&mut self, segment: Segment, width: usize)
        ensures
            final(self)@ == pushed(old(self)@, segment@, width),
    {
        let ghost a = self.contents@;
        let ghost s = segment@;
        self.contents.push(segment);
        self.width = self.width.saturating_add(width);
        assert(self.contents@.map_values(|s: Segment| s@) =~= a.map_values(|s: Segment| s@).push(
            s,
        ));
    }
}

impl Segment {
    /// An equal segment.
    pub fn duplicate(&self) -> (s: Segment)
        ensures
            s@ == self@,
    {
        Segment { style: self.style, text: self.text.clone() }
    }
}

impl TextCell {
    /// An equal cell.
    pub fn duplicate(&self) -> (cell: TextCell)
        ensures
            cell@ == self@,
    {
        let mut contents: Vec<Segment> = Vec::new();
        let mut i: usize = 0;
        while i < self.contents.len()
            invariant
                i <= self.contents@.len(),
                contents@.len() == i,
                forall|k: int| 0 <= k < i ==> (#[trigger] contents@[k])@ == self.contents@[k]@,
            decreases self.contents@.len() - i,
        {
            let seg = self.contents[i].duplicate();
            contents.push(seg);
            i = i + 1;
        }
        let cell = TextCell { contents, width: self.width };
        assert(cell@.0 =~= self@.0);
        cell
    }
}

/// A row of table cells (the details columns in front of a file's name).
#[derive(Debug, PartialEq, Eq)]
pub struct TableRow {
    pub cells: Vec<TextCell>,
}

impl View for TableRow {
    type V = Seq<CellView>;

    open spec fn view(&self) -> Seq<CellView> {
        self.cells@.map_values(|c: TextCell| c@)
    }
}

impl TableRow {
    /// An equal row of cells.
    pub fn duplicate(&self) -> (row: TableRow)
        ensures
            row@ == self@,
    {
        let mut cells: Vec<TextCell> = Vec::new();
        let mut i: usize = 0;
        while i < self.cells.len()
            invariant
                i <= self.cells@.len(),
                cells@.len() == i,
                forall|k: int| 0 <= k < i ==> (#[trigger] cells@[k])@ == self.cells@[k]@,
            decreases self.cells@.len() - i,
        {
            let c = self.cells[i].duplicate();
            cells.push(c);
            i = i + 1;
        }
        let row = TableRow { cells };
        assert(row@ =~= self@);
        row
    }
}

} // verus!
