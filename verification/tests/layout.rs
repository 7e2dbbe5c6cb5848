use eza_details::cell::{Segment, TableRow, TextCell};
use eza_details::details::{Render, Row};
use eza_details::leaf::LeafTableConfig;
use eza_details::model::{
    Classify, ColorScaleMode, ColorScaleOptions, Directory, Entry, FileStyle, Options,
    RecurseOptions, ShowIcons, Theme,
};
use eza_details::tree::{TreeDepth, TreeParams, TreePart, TreeTrunk};
use nu_ansi_term::{Color, Style};

fn cell(text: &str) -> TextCell {
    TextCell::paint(Style::default(), text.to_string())
}

fn text_of(c: &TextCell) -> String {
    let mut s = String::new();
    for seg in &c.contents {
        s.push_str(&seg.text);
    }
    s
}

fn file(name: &str, pos: usize) -> Entry {
    Entry {
        name: name.to_string(),
        path: name.to_string(),
        has_parent_dir: true,
        is_directory: false,
        is_link: false,
        points_to_directory: false,
        name_cell: cell(name),
        plain_name_cell: cell(name),
        icon: '*',
        xattrs: Vec::new(),
        has_selinux_context: false,
        has_git_status: false,
        cells: None,
        hinted_cells: None,
        sort_position: pos,
        contents: None,
    }
}

fn dir(name: &str, pos: usize, children: Vec<Entry>) -> Entry {
    let mut e = file(name, pos);
    e.is_directory = true;
    e.points_to_directory = true;
    e.contents = Some(Ok(children));
    e
}

fn theme() -> Theme {
    Theme {
        directory: Color::Blue.bold(),
        directory_icon: Color::Blue.normal(),
        punctuation: Color::DarkGray.normal(),
        header: Style::default().underline(),
        broken_symlink: Color::Red.normal(),
        attribute: Color::Yellow.normal(),
    }
}

fn options() -> Options {
    Options {
        table: None,
        header: false,
        xattr: false,
        secattr: false,
        mounts: false,
        color_scale: ColorScaleOptions {
            mode: ColorScaleMode::Fixed,
            min_luminance: 40,
            size: false,
            age: false,
        },
        follow_links: false,
    }
}

fn tree(collapse: bool, leaves: bool, max_depth: Option<usize>) -> Option<RecurseOptions> {
    Some(RecurseOptions { tree: true, max_depth, collapse_single: collapse, table_leaves: leaves })
}

fn render_with(files: Vec<Entry>, recurse: Option<RecurseOptions>) -> Render {
    Render {
        dir: None,
        files,
        theme: theme(),
        file_style: FileStyle {
            show_icons: ShowIcons::Never,
            classify: Classify::JustFilenames,
            is_a_tty: false,
        },
        opts: options(),
        recurse,
        git: false,
        term_width: 80,
    }
}

/// Each row as (depth, last, name text).
fn outline(rows: &[Row]) -> Vec<(usize, bool, String)> {
    rows.iter().map(|r| (r.tree.depth.0, r.tree.last, text_of(&r.name))).collect()
}

fn lines(render: &Render, rows: Vec<Row>) -> Vec<String> {
    let mut it = render.iterate(rows);
    let mut out = Vec::new();
    while let Some(line) = it.next() {
        out.push(text_of(&line));
    }
    out
}

#[test]
fn xattr_hint_counts_attributes() {
    let r = render_with(Vec::new(), None);
    let mut f = file("a", 0);
    assert!(!r.show_xattr_hint(&f));
    f.xattrs = vec!["user.x".to_string()];
    assert!(r.show_xattr_hint(&f));
    f.xattrs.push("user.y".to_string());
    assert!(r.show_xattr_hint(&f));
}

#[test]
fn xattr_hint_hides_lone_security_context_when_shown() {
    let mut r = render_with(Vec::new(), None);
    let mut f = file("a", 0);
    f.xattrs = vec!["security.selinux".to_string()];
    f.has_selinux_context = true;
    assert!(r.show_xattr_hint(&f));
    r.opts.secattr = true;
    assert!(!r.show_xattr_hint(&f));
    f.xattrs.push("user.y".to_string());
    assert!(r.show_xattr_hint(&f));
}

#[test]
fn header_row_is_name_at_root() {
    let r = render_with(Vec::new(), None);
    let row = r.render_header(TableRow { cells: vec![cell("Size")] });
    assert_eq!(text_of(&row.name), "Name");
    assert_eq!(row.name.width, 4);
    assert_eq!(row.name.contents[0].style, Some(theme().header));
    assert_eq!(row.tree, TreeParams { depth: TreeDepth(0), last: false });
    assert_eq!(row.cells.unwrap().cells.len(), 1);
}

#[test]
fn wide_characters_count_two_columns() {
    let c = TextCell::paint(Style::default(), "日本".to_string());
    assert_eq!(c.width, 4);
    let c = TextCell::paint(Style::default(), "abc".to_string());
    assert_eq!(c.width, 3);
}

#[test]
fn error_rows_wrap_message() {
    let r = render_with(Vec::new(), None);
    let p = TreeParams { depth: TreeDepth(2), last: true };
    let row = r.render_error(&"Permission denied".to_string(), p, None);
    assert_eq!(text_of(&row.name), "<Permission denied>");
    assert_eq!(row.name.contents[0].style, Some(theme().broken_symlink));
    assert!(row.cells.is_none());
    let row = r.render_error(&"gone".to_string(), p, Some("a/b".to_string()));
    assert_eq!(text_of(&row.name), "<a/b: gone>");
}

#[test]
fn xattr_rows_show_attribute() {
    let r = render_with(Vec::new(), None);
    let p = TreeParams { depth: TreeDepth(1), last: false };
    let row = r.render_xattr(&"user.tag (len 3)".to_string(), p);
    assert_eq!(text_of(&row.name), "user.tag (len 3)");
    assert_eq!(row.name.contents[0].style, Some(theme().attribute));
    assert_eq!(row.tree, p);
}

#[test]
fn leaf_directories_hold_only_files_and_empty_directories() {
    let r = render_with(Vec::new(), None);
    assert!(!r.is_leaf_directory(&Vec::new()));
    assert!(r.is_leaf_directory(&vec![file("a", 0), file("b", 1)]));
    assert!(r.is_leaf_directory(&vec![file("a", 0), dir("d", 1, Vec::new())]));
    assert!(!r.is_leaf_directory(&vec![file("a", 0), dir("d", 1, vec![file("x", 0)])]));
    let mut locked = dir("d", 1, Vec::new());
    locked.contents = Some(Err("denied".to_string()));
    assert!(!r.is_leaf_directory(&vec![file("a", 0), locked]));
    let mut link = dir("l", 1, vec![file("x", 0)]);
    link.is_link = true;
    assert!(r.is_leaf_directory(&vec![file("a", 0), link]));
}

#[test]
fn leaf_layout_fits_columns() {
    let config = LeafTableConfig::from_leaf_files(&[vec![5, 3, 4], vec![2]], 60);
    assert_eq!(config.column_widths, vec![5, 3, 4]);
    assert_eq!(config.column_spacing, 2);
    assert_eq!(config.row_width(), 16);
}

#[test]
fn leaf_layout_wraps_columns_by_position() {
    // widest file 10: 2 columns take 22, 3 take 34 > 30
    let config = LeafTableConfig::from_leaf_files(&[vec![1, 10, 3, 2, 7]], 30);
    assert_eq!(config.column_widths, vec![7, 10]);
}

#[test]
fn leaf_layout_single_column_when_nothing_fits() {
    let config = LeafTableConfig::from_leaf_files(&[vec![30, 30, 30]], 60);
    assert_eq!(config.column_widths, vec![30]);
    assert_eq!(config.row_width(), 30);
}

#[test]
fn leaf_layout_empty() {
    let config = LeafTableConfig::from_leaf_files(&[], 60);
    assert!(config.column_widths.is_empty());
    assert_eq!(config.row_width(), 0);
    let config = LeafTableConfig::from_leaf_files(&[Vec::new(), Vec::new()], 60);
    assert!(config.column_widths.is_empty());
}

#[test]
fn leaf_layout_huge_widths_do_not_overflow() {
    let config = LeafTableConfig::from_leaf_files(&[vec![usize::MAX, 1]], usize::MAX);
    assert_eq!(config.column_widths, vec![usize::MAX]);
}

#[test]
fn leaf_layout_full_row_fits_room() {
    let all = [vec![4, 9, 2, 8, 6, 1], vec![3, 3]];
    let config = LeafTableConfig::from_leaf_files(&all, 40);
    assert!(config.column_widths.len() >= 2);
    assert!(config.row_width() <= 40);
    let again = LeafTableConfig::from_leaf_files(&all, 40);
    assert_eq!(config.column_widths, again.column_widths);
}

fn chain_tree() -> Vec<Entry> {
    // a/b/c/file.txt
    vec![dir("a", 0, vec![dir("b", 0, vec![dir("c", 0, vec![file("file.txt", 0)])])])]
}

#[test]
fn chain_collapses_single_child_directories() {
    let files = chain_tree();
    let r = render_with(Vec::new(), tree(true, false, None));
    let listing = match &files[0].contents {
        Some(Ok(v)) => v,
        _ => unreachable!(),
    };
    let chain = r.try_collapse_chain(&"a".to_string(), listing, 0);
    assert_eq!(chain.names, vec!["a".to_string(), "b".to_string(), "c".to_string()]);
    assert_eq!(chain.depth_traversed, 3);
    let last = chain.final_dir.unwrap();
    assert_eq!(last.len(), 1);
    assert_eq!(last[0].name, "file.txt");
}

#[test]
fn chain_stops_at_depth_limit() {
    let files = chain_tree();
    let r = render_with(Vec::new(), tree(true, false, Some(2)));
    let listing = match &files[0].contents {
        Some(Ok(v)) => v,
        _ => unreachable!(),
    };
    let chain = r.try_collapse_chain(&"a".to_string(), listing, 0);
    assert_eq!(chain.names, vec!["a".to_string(), "b".to_string()]);
    assert_eq!(chain.depth_traversed, 2);
}

#[test]
fn chain_stops_at_links_and_many_children() {
    let mut link = dir("b", 0, vec![file("x", 0)]);
    link.is_link = true;
    let r = render_with(Vec::new(), tree(true, false, None));
    let listing = vec![link];
    let chain = r.try_collapse_chain(&"a".to_string(), &listing, 0);
    assert_eq!(chain.names, vec!["a".to_string()]);
    let listing = vec![dir("b", 0, Vec::new()), dir("c", 1, Vec::new())];
    let chain = r.try_collapse_chain(&"a".to_string(), &listing, 0);
    assert_eq!(chain.names, vec!["a".to_string()]);
    assert_eq!(chain.final_dir.unwrap().len(), 2);
}

#[test]
fn empty_directories_collapse() {
    let listing = vec![dir("b", 0, vec![dir("c", 0, Vec::new())])];
    let r = render_with(Vec::new(), tree(true, false, None));
    let chain = r.try_collapse_chain(&"a".to_string(), &listing, 0);
    assert_eq!(chain.names, vec!["a".to_string(), "b".to_string(), "c".to_string()]);
    assert!(chain.final_dir.unwrap().is_empty());
}

#[test]
fn collapsed_names_join_with_slashes() {
    let r = render_with(Vec::new(), tree(true, false, None));
    let chain_names = vec!["a".to_string(), "b".to_string(), "c".to_string()];
    let listing: Vec<Entry> = Vec::new();
    let chain = eza_details::details::CollapsedChain {
        names: chain_names,
        final_dir: Some(&listing),
        depth_traversed: 3,
    };
    let f = dir("a", 0, Vec::new());
    let name = r.render_collapsed_name(&chain, &f);
    assert_eq!(text_of(&name), "a/b/c");
    assert_eq!(name.width, 5);
    assert_eq!(name.contents[0].style, Some(theme().directory));

    let mut top = dir("a", 0, Vec::new());
    top.has_parent_dir = false;
    top.path = "./src/a".to_string();
    let name = r.render_collapsed_name(&chain, &top);
    assert_eq!(text_of(&name), "./src/a/b/c");
}

#[test]
fn collapsed_names_carry_icons_and_indicator() {
    let mut r = render_with(Vec::new(), tree(true, false, None));
    r.file_style = FileStyle {
        show_icons: ShowIcons::Always(2),
        classify: Classify::AddFileIndicators,
        is_a_tty: false,
    };
    let listing: Vec<Entry> = Vec::new();
    let chain = eza_details::details::CollapsedChain {
        names: vec!["a".to_string(), "b".to_string()],
        final_dir: Some(&listing),
        depth_traversed: 2,
    };
    let f = dir("a", 0, Vec::new());
    let name = r.render_collapsed_name(&chain, &f);
    assert_eq!(text_of(&name), "*  a/b/");
    assert_eq!(name.width, 1 + 2 + 3 + 1);
    assert_eq!(name.contents[0].style, Some(theme().directory_icon));
    assert_eq!(name.contents[3].style, None);

    r.file_style.show_icons = ShowIcons::Automatic(1);
    r.file_style.classify = Classify::AutomaticAddFileIndicators;
    let name = r.render_collapsed_name(&chain, &f);
    assert_eq!(text_of(&name), "a/b");
    r.file_style.is_a_tty = true;
    let name = r.render_collapsed_name(&chain, &f);
    assert_eq!(text_of(&name), "* a/b/");
}

#[test]
fn grid_rows_pad_to_columns() {
    let r = render_with(Vec::new(), None);
    let config = LeafTableConfig { column_widths: vec![6, 4], column_spacing: 2 };
    let a = file("ab", 0);
    let b = file("cde", 1);
    let row = r.render_leaf_grid_row(&[&a, &b], &config);
    assert_eq!(text_of(&row), "ab      cde");
    assert_eq!(row.width, 2 + 6 + 3);
    let row = r.render_leaf_table_row(&[a, b], &config, true);
    assert_eq!(text_of(&row), "ab      cde");
}

#[test]
fn grid_padding_without_columns_uses_name_width() {
    let r = render_with(Vec::new(), None);
    let config = LeafTableConfig { column_widths: Vec::new(), column_spacing: 2 };
    let a = file("ab", 0);
    let b = file("c", 1);
    let row = r.render_leaf_grid_row(&[&a, &b], &config);
    assert_eq!(text_of(&row), "ab  c");
}

#[test]
fn plain_tree_lists_every_file_in_sorted_order() {
    // given in directory order b, a; sorted a, b
    let files = vec![dir("d", 0, vec![file("b", 1), file("a", 0)]), file("z", 1)];
    let mut r = render_with(files, tree(false, false, None));
    let rows = r.render();
    assert_eq!(
        outline(&rows),
        vec![
            (0, false, "d".to_string()),
            (1, false, "a".to_string()),
            (1, true, "b".to_string()),
            (0, true, "z".to_string()),
        ]
    );
    assert_eq!(lines(&r, rows), vec!["d", "├── a", "└── b", "z"]);
}

#[test]
fn sort_positions_decide_the_order() {
    let files = vec![file("first", 2), file("second", 0), file("third", 1)];
    let mut r = render_with(files, None);
    let rows = r.render();
    let names: Vec<String> = outline(&rows).into_iter().map(|o| o.2).collect();
    assert_eq!(names, vec!["second", "third", "first"]);
}

#[test]
fn tree_parts_draw_lines_and_corners() {
    let files = vec![dir(
        "root",
        0,
        vec![dir("x", 0, vec![file("x1", 0)]), dir("y", 1, vec![file("y1", 0), file("y2", 1)])],
    )];
    let mut r = render_with(files, tree(false, false, None));
    let rows = r.render();
    assert_eq!(
        lines(&r, rows),
        vec![
            "root",
            "├── x",
            "│   └── x1",
            "└── y",
            "    ├── y1",
            "    └── y2",
        ]
    );
}

#[test]
fn depth_limit_stops_reading() {
    let files = vec![dir("a", 0, vec![dir("b", 0, vec![file("c", 0)])])];
    let mut r = render_with(files, tree(false, false, Some(1)));
    let rows = r.render();
    assert_eq!(outline(&rows), vec![(0, true, "a".to_string()), (1, true, "b".to_string())]);
}

#[test]
fn collapsed_chain_renders_one_row() {
    let mut r = render_with(chain_tree(), tree(true, false, None));
    let rows = r.render();
    assert_eq!(
        outline(&rows),
        vec![(0, true, "a/b/c".to_string()), (1, true, "file.txt".to_string())]
    );
}

#[test]
fn collapsed_chain_uses_physical_depth_for_the_limit() {
    // a/b/c/d/file.txt with --level 2: the chain stops after b, and c lies
    // at physical depth 2, so it is not read
    let files = vec![dir(
        "a",
        0,
        vec![dir("b", 0, vec![dir("c", 0, vec![dir("d", 0, vec![file("file.txt", 0)])])])],
    )];
    let mut r = render_with(files, tree(true, false, Some(2)));
    let rows = r.render();
    assert_eq!(
        outline(&rows),
        vec![(0, true, "a/b".to_string()), (1, true, "c".to_string())]
    );
    let mut plain = render_with(r.files, tree(false, false, Some(2)));
    let names: Vec<String> = outline(&plain.render()).into_iter().map(|o| o.2).collect();
    assert_eq!(names, vec!["a", "b", "c"]);
}

#[test]
fn unreadable_directory_shows_error_row() {
    let mut d = dir("locked", 0, Vec::new());
    d.contents = Some(Err("Permission denied (os error 13)".to_string()));
    let mut r = render_with(vec![d], tree(false, false, None));
    let rows = r.render();
    assert_eq!(
        outline(&rows),
        vec![
            (0, true, "locked".to_string()),
            (1, true, "<Permission denied (os error 13)>".to_string()),
        ]
    );
}

#[test]
fn xattrs_follow_their_file() {
    let mut f = file("f", 0);
    f.xattrs = vec!["user.a".to_string(), "user.b".to_string()];
    let mut r = render_with(vec![f], tree(false, false, None));
    r.opts.xattr = true;
    let rows = r.render();
    assert_eq!(
        outline(&rows),
        vec![
            (0, true, "f".to_string()),
            (1, false, "user.a".to_string()),
            (1, true, "user.b".to_string()),
        ]
    );
    r.opts.xattr = false;
    assert_eq!(r.render().len(), 1);
}

#[test]
fn leaf_directories_show_inline() {
    let files = vec![dir(
        "project",
        0,
        vec![
            dir("docs", 0, vec![file("guide.md", 0), file("intro.md", 1), file("notes.md", 2)]),
            file("Cargo.toml", 1),
        ],
    )];
    let mut r = render_with(files, tree(false, true, None));
    let rows = r.render();
    assert_eq!(
        outline(&rows),
        vec![
            (0, true, "project".to_string()),
            (1, false, "docs \u{2500}\u{2500} guide.md intro.md notes.md".to_string()),
            (1, true, "Cargo.toml".to_string()),
        ]
    );
    let separator = &rows[1].name.contents[1];
    assert_eq!(separator.style, Some(theme().punctuation));
    assert_eq!(rows[1].name.width, 4 + 4 + 26);
}

#[test]
fn inline_display_takes_empty_directories() {
    let files = vec![dir("d", 0, vec![dir("empty", 0, Vec::new()), file("file.txt", 1)])];
    let mut r = render_with(files, tree(false, true, None));
    let rows = r.render();
    assert_eq!(outline(&rows), vec![(0, true, "d \u{2500}\u{2500} empty file.txt".to_string())]);
}

#[test]
fn inline_too_wide_falls_back_to_rows() {
    let names = ["aaaaaaaaaaaaaaaaaaaa", "bbbbbbbbbbbbbbbbbbbb", "cccccccccccccccccccc", "dd"];
    let children: Vec<Entry> = names.iter().enumerate().map(|(i, n)| file(n, i)).collect();
    let mut r = render_with(vec![dir("top", 0, vec![dir("leaf", 0, children)])], tree(false, true, None));
    r.term_width = 60;
    let rows = r.render();
    assert_eq!(
        outline(&rows),
        vec![
            (0, true, "top".to_string()),
            (1, true, "leaf".to_string()),
            (2, false, "aaaaaaaaaaaaaaaaaaaa".to_string()),
            (2, false, "bbbbbbbbbbbbbbbbbbbb".to_string()),
            (2, false, "cccccccccccccccccccc".to_string()),
            (2, true, "dd".to_string()),
        ]
    );
    // with room for them the same files go inline
    r.term_width = 80;
    let rows = r.render();
    assert_eq!(rows.len(), 2);
    assert_eq!(
        text_of(&rows[1].name),
        "leaf \u{2500}\u{2500} aaaaaaaaaaaaaaaaaaaa bbbbbbbbbbbbbbbbbbbb cccccccccccccccccccc dd"
    );
}

#[test]
fn file_grids_wrap_in_the_room_after_the_indent() {
    let names = ["aaaaaaaaaaaaaaaaaaaa", "bbbbbbbbbbbbbbbbbbbb", "cccccccccccccccccccc", "dd"];
    let mut children: Vec<Entry> = names.iter().enumerate().map(|(i, n)| file(n, i + 1)).collect();
    children.push(dir("sub", 0, vec![file("x", 0)]));
    let mut r = render_with(vec![dir("top", 0, children)], tree(false, true, None));
    r.term_width = 50;
    let rows = r.render();
    assert_eq!(
        outline(&rows),
        vec![
            (0, true, "top".to_string()),
            (1, false, "sub \u{2500}\u{2500} x".to_string()),
            (1, false, "aaaaaaaaaaaaaaaaaaaa  bbbbbbbbbbbbbbbbbbbb".to_string()),
            (1, true, "cccccccccccccccccccc  dd".to_string()),
        ]
    );
    // one level deeper leaves four columns less: one file to a line
    let mut deeper = render_with(vec![dir("up", 0, r.files)], tree(false, true, None));
    deeper.term_width = 45;
    let rows = deeper.render();
    let grid: Vec<(usize, bool, String)> = outline(&rows).into_iter().filter(|o| o.0 == 2).collect();
    assert_eq!(grid.len(), 5);
    assert_eq!(grid[1].2, "aaaaaaaaaaaaaaaaaaaa");
    assert_eq!(grid[4], (2, true, "dd".to_string()));
}

#[test]
fn files_between_directories_form_separate_grids() {
    let files = vec![dir(
        "project",
        0,
        vec![
            file("Cargo.toml", 0),
            file("LICENSE", 1),
            dir("src", 2, vec![dir("bin", 0, vec![file("main.rs", 0)]), file("lib.rs", 1)]),
            dir("tests", 3, vec![file("test.rs", 0)]),
            file("z-notes.txt", 4),
        ],
    )];
    let mut r = render_with(files, tree(false, true, None));
    let rows = r.render();
    assert_eq!(
        lines(&r, rows),
        vec![
            "project",
            "\u{251c}\u{2500}\u{2500} Cargo.toml  LICENSE",
            "\u{251c}\u{2500}\u{2500} src",
            "\u{2502}   \u{251c}\u{2500}\u{2500} bin \u{2500}\u{2500} main.rs",
            "\u{2502}   \u{2514}\u{2500}\u{2500} lib.rs",
            "\u{251c}\u{2500}\u{2500} tests \u{2500}\u{2500} test.rs",
            "\u{2514}\u{2500}\u{2500} z-notes.txt",
        ]
    );
}

#[test]
fn leaf_widths_keep_directory_order() {
    let children = vec![file("long-name", 1), file("s", 0)];
    let r = render_with(vec![dir("leaf", 0, children)], tree(false, true, None));
    let widths = r.collect_leaf_file_widths(&r.files, TreeDepth(0));
    assert_eq!(widths, vec![vec![9, 1]]);
    let off = render_with(r.files, tree(false, false, None));
    assert!(off.collect_leaf_file_widths(&off.files, TreeDepth(0)).is_empty());
}

#[test]
fn compact_example_collapses_and_shows_inline() {
    let files = vec![dir(
        "project",
        0,
        vec![
            dir(
                "src",
                0,
                vec![dir(
                    "lib",
                    0,
                    vec![dir(
                        "core",
                        0,
                        vec![file("auth.rs", 0), file("config.rs", 1), file("utils.rs", 2)],
                    )],
                )],
            ),
            dir(
                "tests",
                1,
                vec![
                    dir(
                        "integration",
                        0,
                        vec![dir("api", 0, vec![file("test_auth.rs", 0), file("test_users.rs", 1)])],
                    ),
                    dir("unit", 1, vec![file("test_config.rs", 0), file("test_utils.rs", 1)]),
                ],
            ),
            file("Cargo.toml", 2),
            file("LICENSE", 3),
            file("README.md", 4),
        ],
    )];
    let mut r = render_with(files, tree(true, true, None));
    let rows = r.render();
    assert_eq!(
        lines(&r, rows),
        vec![
            "project",
            "\u{251c}\u{2500}\u{2500} src/lib/core \u{2500}\u{2500} auth.rs config.rs utils.rs",
            "\u{251c}\u{2500}\u{2500} tests",
            "\u{2502}   \u{251c}\u{2500}\u{2500} integration/api \u{2500}\u{2500} test_auth.rs test_users.rs",
            "\u{2502}   \u{2514}\u{2500}\u{2500} unit \u{2500}\u{2500} test_config.rs test_utils.rs",
            "\u{2514}\u{2500}\u{2500} Cargo.toml  LICENSE  README.md",
        ]
    );
}

#[test]
fn header_comes_first_with_a_table() {
    let mut f = file("f", 0);
    f.cells = Some(TableRow { cells: vec![cell("1.2k")] });
    let mut r = render_with(vec![f], None);
    r.opts.table = Some(eza_details::model::TableOptions {
        header_row: TableRow { cells: vec![cell("Size")] },
    });
    r.opts.header = true;
    let rows = r.render();
    assert_eq!(rows.len(), 2);
    assert_eq!(text_of(&rows[0].name), "Name");
    assert_eq!(text_of(&rows[1].cells.as_ref().unwrap().cells[0]), "1.2k");
    r.opts.header = false;
    let rows = r.render();
    assert_eq!(rows.len(), 1);
    r.opts.table = None;
    assert!(r.render()[0].cells.is_none());
}

#[test]
fn table_disables_leaf_grids() {
    let files = vec![dir("leaf", 0, vec![file("a", 0), file("b", 1)]), file("c", 1)];
    let mut r = render_with(files, tree(false, true, None));
    r.opts.table = Some(eza_details::model::TableOptions { header_row: TableRow { cells: Vec::new() } });
    let rows = r.render();
    assert_eq!(rows.len(), 4);
    let mut off = render_with(r.files, tree(false, false, None));
    off.opts.table = Some(eza_details::model::TableOptions { header_row: TableRow { cells: Vec::new() } });
    assert_eq!(outline(&rows), outline(&off.render()));
}

#[test]
fn table_cells_carry_the_attribute_hint() {
    let mut f = file("f", 0);
    f.cells = Some(TableRow { cells: vec![cell(".rw-r--r--")] });
    f.hinted_cells = Some(TableRow { cells: vec![cell(".rw-r--r--@")] });
    f.xattrs = vec!["user.a".to_string()];
    let mut r = render_with(vec![f], None);
    r.opts.table = Some(eza_details::model::TableOptions { header_row: TableRow { cells: Vec::new() } });
    let rows = r.render();
    assert_eq!(text_of(&rows[0].cells.as_ref().unwrap().cells[0]), ".rw-r--r--@");
    r.files[0].xattrs.clear();
    let rows = r.render();
    assert_eq!(text_of(&rows[0].cells.as_ref().unwrap().cells[0]), ".rw-r--r--");
}

#[test]
fn render_drops_git_when_the_table_has_nothing_to_show() {
    let mut r = render_with(vec![file("f", 0)], None);
    r.git = true;
    r.render();
    assert!(r.git);
    r.opts.table = Some(eza_details::model::TableOptions { header_row: TableRow { cells: Vec::new() } });
    r.render();
    assert!(!r.git);
    r.files[0].has_git_status = true;
    r.git = true;
    r.render();
    assert!(r.git);
}

#[test]
fn git_stays_in_use_only_with_something_to_show() {
    let mut f = file("f", 0);
    let mut r = render_with(vec![f], None);
    assert!(!r.uses_git());
    r.git = true;
    assert!(r.uses_git());
    r.opts.table = Some(eza_details::model::TableOptions { header_row: TableRow { cells: Vec::new() } });
    assert!(!r.uses_git());
    f = file("g", 0);
    f.has_git_status = true;
    r.files = vec![f];
    assert!(r.uses_git());
    r.dir = Some(Directory { has_git_status: false });
    assert!(!r.uses_git());
    r.dir = Some(Directory { has_git_status: true });
    assert!(r.uses_git());
}

#[test]
fn trunk_marks_last_rows_with_corners() {
    let mut t = TreeTrunk::new();
    let at = |d: usize, last: bool| TreeParams { depth: TreeDepth(d), last };
    assert!(t.new_row(at(0, false)).is_empty());
    assert_eq!(t.new_row(at(1, false)), vec![TreePart::Edge]);
    assert_eq!(t.new_row(at(2, true)), vec![TreePart::Line, TreePart::Corner]);
    assert_eq!(t.new_row(at(1, true)), vec![TreePart::Corner]);
    assert_eq!(t.new_row(at(3, true)), vec![TreePart::Blank, TreePart::Edge, TreePart::Corner]);
    assert_eq!(TreePart::Edge.ascii_art(), "├── ");
    assert_eq!(TreePart::Line.ascii_art(), "│   ");
    assert_eq!(TreePart::Corner.ascii_art(), "└── ");
    assert_eq!(TreePart::Blank.ascii_art(), "    ");
}

#[test]
fn tree_depths_step_down_one_level() {
    let d = TreeDepth::root();
    assert_eq!(d, TreeDepth(0));
    assert_eq!(d.deeper(), TreeDepth(1));
    assert_eq!(d.deeper().deeper(), TreeDepth(2));
}

#[test]
fn depth_limit_compares_with_maximum() {
    let r = RecurseOptions { tree: true, max_depth: Some(2), collapse_single: false, table_leaves: false };
    assert!(!r.is_too_deep(1));
    assert!(r.is_too_deep(2));
    assert!(r.is_too_deep(3));
    let unlimited = RecurseOptions { max_depth: None, ..r };
    assert!(!unlimited.is_too_deep(1000));
}

#[test]
fn cells_append_and_pad() {
    let mut c = cell("ab");
    c.append(cell("日"));
    assert_eq!(c.width, 4);
    c.add_spaces(3);
    assert_eq!(text_of(&c), "ab日   ");
    assert_eq!(c.width, 7);
    c.push(Segment { style: None, text: "x".to_string() }, 1);
    assert_eq!(c.width, 8);
    let mut big = TextCell { contents: Vec::new(), width: usize::MAX - 1 };
    big.add_spaces(5);
    assert_eq!(big.width, usize::MAX);
    let copy = c.duplicate();
    assert_eq!(text_of(&copy), text_of(&c));
    assert_eq!(copy.width, c.width);
}

#[test]
fn table_lines_put_cells_before_the_tree() {
    let r = render_with(Vec::new(), None);
    let rows = vec![
        Row {
            cells: Some(TableRow { cells: vec![cell("1.0k"), cell("ben")] }),
            name: cell("dir"),
            tree: TreeParams { depth: TreeDepth(0), last: false },
        },
        Row {
            cells: None,
            name: cell("<gone>"),
            tree: TreeParams { depth: TreeDepth(1), last: true },
        },
    ];
    let table = |row: TableRow| {
        let mut c = TextCell::blank();
        for x in row.cells {
            c.append(x);
            c.add_spaces(1);
        }
        c
    };
    let mut it = r.iterate_with_table(table, 9, rows);
    let first = it.next().unwrap();
    assert_eq!(text_of(&first), "1.0k ben dir");
    let second = it.next().unwrap();
    assert_eq!(text_of(&second), "         └── <gone>");
    assert_eq!(second.contents[1].style, Some(theme().punctuation));
    assert!(it.next().is_none());
}
