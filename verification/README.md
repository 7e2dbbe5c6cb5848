# eza_details

The layout of a file listing's details and tree views, written in Verus and
proved against its contracts.

- `src/width.rs`: display widths of texts, measured by `unicode-width`.
- `src/cell.rs`: cells of styled text and rows of table cells.
- `src/tree.rs`: the tree-drawing parts in front of each line, and the laws
  that say which part stands at each depth.
- `src/leaf.rs`: the column layout of a grid of files in a given room.
- `src/model.rs`: the tree of files the layout reads, and its options.
- `src/details.rs`: which rows a listing turns into: collapsed chains of
  single-child directories, files shown inline after their directory or
  grouped into grids between directories, attribute and error rows, and
  the lines that the rows become.
- `tests/`: tests on concrete listings.
- `app/`: a command-line front end that reads directories and prints the
  lines.
