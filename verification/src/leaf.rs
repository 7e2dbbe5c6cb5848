//! Column layout of file grids: given the widths of one or more lists of
//! files and the room available, how many columns and how wide each is.

use vstd::prelude::*;

verus! {

/// The gap, in columns, between two columns of a leaf grid.
pub const COLUMN_SPACING: usize = 2;

/// The widths of each leaf directory's files, as plain sequences.
pub open spec fn nested_view(all: Seq<Vec<usize>>) -> Seq<Seq<usize>> {
    all.map_values(|v: Vec<usize>| v@)
}

/// The larger of two numbers.
pub open spec fn larger(a: nat, b: nat) -> nat {
    if a >= b {
        a
    } else {
        b
    }
}

/// The number of files in the fullest leaf directory (0 when there is none).
pub open spec fn longest(all: Seq<Seq<usize>>) -> nat
    decreases all.len(),
{
    if all.len() == 0 {
        0
    } else {
        larger(longest(all.drop_last()), all.last().len())
    }
}

/// The widest width in one list (0 when it is empty).
pub open spec fn widest_in(ws: Seq<usize>) -> nat
    decreases ws.len(),
{
    if ws.len() == 0 {
        0
    } else {
        larger(widest_in(ws.drop_last()), ws.last() as nat)
    }
}

/// The widest file of all leaf directories (0 when there is none).
pub open spec fn widest(all: Seq<Seq<usize>>) -> nat
    decreases all.len(),
{
    if all.len() == 0 {
        0
    } else {
        larger(widest(all.drop_last()), widest_in(all.last()))
    }
}

/// The columns that `k` columns of `width` each take, with the gaps between them.
pub open spec fn grid_width(width: nat, k: nat) -> int {
    width * k + COLUMN_SPACING * (k - 1)
}

/// Position `j` of list `i` falls in column `c` of a grid of `n` columns.
pub open spec fn in_column(all: Seq<Seq<usize>>, n: nat, c: int, i: int, j: int) -> bool {
    &&& 0 <= i < all.len()
    &&& 0 <= j < all[i].len()
    &&& j % (n as int) == c
}

/// `w` is the width of column `c` of a grid of `n` columns: the widest of
/// the files that fall in it, or 0 when none does.
pub open spec fn is_column_width(all: Seq<Seq<usize>>, n: nat, c: int, w: usize) -> bool {
    &&& forall|i: int, j: int| #[trigger] in_column(all, n, c, i, j) ==> all[i][j] <= w
    &&& (w == 0 || exists|i: int, j: int| #[trigger] in_column(all, n, c, i, j) && all[i][j] == w)
}

/// Column widths of a file grid: every list of files it was computed from
/// is laid out with these widths.
#[derive(Debug)]
pub struct LeafTableConfig {
    /// The width of each column.
    pub column_widths: Vec<usize>,
    /// The gap between columns.
    pub column_spacing: usize,
}

impl View for LeafTableConfig {
    type V = (Seq<usize>, usize);

    open spec fn view(&self) -> (Seq<usize>, usize) {
        (self.column_widths@, self.column_spacing)
    }
}

/// The layout of leaf grids for files of the given widths on `available`
/// columns: as many columns as the widest file fits side by side with the
/// gaps (at least one, at most the fullest directory's count), each as wide
/// as the widest file that falls in it; no columns when there are no files.
pub open spec fn is_leaf_layout(all: Seq<Seq<usize>>, available: nat, widths: Seq<usize>, spacing: usize) -> bool {
    &&& spacing == COLUMN_SPACING
    &&& longest(all) == 0 ==> widths.len() == 0
    &&& longest(all) > 0 ==> {
        let n = widths.len();
        &&& 1 <= n <= longest(all)
        &&& n == 1 || grid_width(widest(all), n) <= available
        &&& n == longest(all) || grid_width(widest(all), n + 1) > available
        &&& forall|c: int| 0 <= c < n ==> is_column_width(all, n, c, #[trigger] widths[c])
    }
}

/// The layout of leaf grids for files of the given widths (there is exactly
/// one: see `lemma_leaf_layout_unique`).
pub open spec fn leaf_layout(all: Seq<Seq<usize>>, available: nat) -> (Seq<usize>, usize) {
    choose|l: (Seq<usize>, usize)| is_leaf_layout(all, available, l.0, l.1)
}

/// More columns take more room.
pub proof fn lemma_grid_width_grows(width: nat, j: nat, k: nat)
    requires
        j <= k,
    ensures
        grid_width(width, j) <= grid_width(width, k),
{
    assert(width * j <= width * k) by (nonlinear_arith)
        requires
            j <= k,
    ;
}

/// The layout of leaf grids is a function of the file widths and the room:
/// two layouts that both fit the same widths are the same layout.
pub proof fn lemma_leaf_layout_unique(
    all: Seq<Seq<usize>>,
    available: nat,
    a: (Seq<usize>, usize),
    b: (Seq<usize>, usize),
)
    requires
        is_leaf_layout(all, available, a.0, a.1),
        is_leaf_layout(all, available, b.0, b.1),
    ensures
        a == b,
{
    if longest(all) > 0 {
        let n = a.0.len();
        let m = b.0.len();
        if n < m {
            lemma_grid_width_grows(widest(all), n + 1, m);
        }
        if m < n {
            lemma_grid_width_grows(widest(all), m + 1, n);
        }
        assert(n == m);
        assert forall|c: int| 0 <= c < n implies a.0[c] == b.0[c] by {
            assert(is_column_width(all, n, c, a.0[c]));
            assert(is_column_width(all, n, c, b.0[c]));
            if a.0[c] != 0 {
                let (i, j) = choose|i: int, j: int|
                    #[trigger] in_column(all, n, c, i, j) && all[i][j] == a.0[c];
                assert(all[i][j] <= b.0[c]);
            }
            if b.0[c] != 0 {
                let (i, j) = choose|i: int, j: int|
                    #[trigger] in_column(all, n, c, i, j) && all[i][j] == b.0[c];
                assert(all[i][j] <= a.0[c]);
            }
        }
        assert(a.0 =~= b.0);
    } else {
        assert(a.0 =~= b.0);
    }
}

/// A layout that fits is the layout.
pub proof fn lemma_leaf_layout(all: Seq<Seq<usize>>, available: nat, l: (Seq<usize>, usize))
    requires
        is_leaf_layout(all, available, l.0, l.1),
    ensures
        leaf_layout(all, available) == l,
{
    let c = leaf_layout(all, available);
    assert(is_leaf_layout(all, available, c.0, c.1));
    lemma_leaf_layout_unique(all, available, c, l);
}

proof fn lemma_longest_bounds(all: Seq<Seq<usize>>)
    ensures
        forall|i: int| 0 <= i < all.len() ==> #[trigger] all[i].len() <= longest(all),
        all.len() > 0 ==> exists|i: int| 0 <= i < all.len() && #[trigger] all[i].len() == longest(all),
    decreases all.len(),
{
    if all.len() > 0 {
        lemma_longest_bounds(all.drop_last());
        assert forall|i: int| 0 <= i < all.len() implies #[trigger] all[i].len() <= longest(all) by {
            if i < all.len() - 1 {
                assert(all.drop_last()[i] == all[i]);
            }
        }
        if longest(all.drop_last()) > all.last().len() {
            let i = choose|i: int|
                0 <= i < all.drop_last().len() && #[trigger] all.drop_last()[i].len() == longest(
                    all.drop_last(),
                );
            assert(all[i] == all.drop_last()[i]);
        }
    }
}

proof fn lemma_widest_in_bounds(ws: Seq<usize>)
    ensures
        forall|j: int| 0 <= j < ws.len() ==> #[trigger] ws[j] <= widest_in(ws),
        ws.len() > 0 ==> exists|j: int| 0 <= j < ws.len() && #[trigger] ws[j] == widest_in(ws),
    decreases ws.len(),
{
    if ws.len() > 0 {
        lemma_widest_in_bounds(ws.drop_last());
        assert forall|j: int| 0 <= j < ws.len() implies #[trigger] ws[j] <= widest_in(ws) by {
            if j < ws.len() - 1 {
                assert(ws.drop_last()[j] == ws[j]);
            }
        }
        if widest_in(ws.drop_last()) > ws.last() {
            let j = choose|j: int|
                0 <= j < ws.drop_last().len() && #[trigger] ws.drop_last()[j] == widest_in(
                    ws.drop_last(),
                );
            assert(ws[j] == ws.drop_last()[j]);
        }
    }
}

proof fn lemma_widest_bounds(all: Seq<Seq<usize>>)
    ensures
        forall|i: int, j: int|
            0 <= i < all.len() && 0 <= j < all[i].len() ==> #[trigger] all[i][j] <= widest(all),
        widest(all) > 0 ==> exists|i: int, j: int|
            0 <= i < all.len() && 0 <= j < all[i].len() && #[trigger] all[i][j] == widest(all),
    decreases all.len(),
{
    if all.len() > 0 {
        let init = all.drop_last();
        lemma_widest_bounds(init);
        lemma_widest_in_bounds(all.last());
        assert forall|i: int, j: int|
            0 <= i < all.len() && 0 <= j < all[i].len() implies #[trigger] all[i][j] <= widest(
            all,
        ) by {
            if i < all.len() - 1 {
                assert(init[i] == all[i]);
                assert(init[i][j] <= widest(init));
            } else {
                assert(all[i] == all.last());
                assert(all.last()[j] <= widest_in(all.last()));
            }
        }
        if widest(all) > 0 {
            if widest(init) >= widest_in(all.last()) {
                let (i, j) = choose|i: int, j: int|
                    0 <= i < init.len() && 0 <= j < init[i].len() && #[trigger] init[i][j]
                        == widest(init);
                assert(all[i] == init[i]);
            } else {
                let j = choose|j: int|
                    0 <= j < all.last().len() && #[trigger] all.last()[j] == widest_in(all.last());
                assert(all[all.len() - 1] == all.last());
                assert(all[all.len() - 1][j] == widest(all));
            }
        }
    }
}

impl LeafTableConfig {
    /// Lays out lists of files (a grid passes its own files alone), given
    /// each list's file widths, on `available_width` columns: as many equal columns as
    /// the widest file fits (at least one, at most the fullest directory's
    /// count), each then as wide as the widest file that falls in it.
    pub fn from_leaf_files(all_leaf_files: &[Vec<usize>], available_width: usize) -> (config: Self)
        ensures
            is_leaf_layout(
                nested_view(all_leaf_files@),
                available_width as nat,
                config.column_widths@,
                config.column_spacing,
            ),
            config@ == leaf_layout(nested_view(all_leaf_files@), available_width as nat),
    {
        let column_spacing: usize = 2;
        let ghost all = nested_view(all_leaf_files@);
        if all_leaf_files.len() == 0 {
            let config = Self { column_widths: Vec::new(), column_spacing };
            proof {
                assert(config.column_widths@ =~= Seq::<usize>::empty());
                lemma_leaf_layout(all, available_width as nat, config@);
            }
            return config;
        }
        // the fullest directory's count

        let mut max_files: usize = 0;
        let mut i: usize = 0;
        while i < all_leaf_files.len()
            invariant
                i <= all_leaf_files@.len(),
                all == nested_view(all_leaf_files@),
                max_files == longest(all.take(i as int)),
            decreases all_leaf_files@.len() - i,
        {
            assert(all.take(i + 1).drop_last() =~= all.take(i as int));
            if all_leaf_files[i].len() > max_files {
                max_files = all_leaf_files[i].len();
            }
            i = i + 1;
        }
        assert(all.take(i as int) =~= all);
        if max_files == 0 {
            let config = Self { column_widths: Vec::new(), column_spacing };
            proof {
                assert(config.column_widths@ =~= Seq::<usize>::empty());
                lemma_leaf_layout(all, available_width as nat, config@);
            }
            return config;
        }
        // the widest single file

        let mut max_single_width: usize = 0;
        let mut i: usize = 0;
        while i < all_leaf_files.len()
            invariant
                i <= all_leaf_files@.len(),
                all == nested_view(all_leaf_files@),
                max_single_width == widest(all.take(i as int)),
            decreases all_leaf_files@.len() - i,
        {
            assert(all.take(i + 1).drop_last() =~= all.take(i as int));
            let files = &all_leaf_files[i];
            let mut in_files: usize = 0;
            let mut j: usize = 0;
            while j < files.len()
                invariant
                    j <= files@.len(),
                    files@ == all[i as int],
                    in_files == widest_in(files@.take(j as int)),
                decreases files@.len() - j,
            {
                assert(files@.take(j + 1).drop_last() =~= files@.take(j as int));
                if files[j] > in_files {
                    in_files = files[j];
                }
                j = j + 1;
            }
            assert(files@.take(j as int) =~= files@);
            if in_files > max_single_width {
                max_single_width = in_files;
            }
            i = i + 1;
        }
        assert(all.take(i as int) =~= all);
        // as many columns as fit

        let mut num_cols: usize = 1;
        let mut test_cols: usize = 2;
        while test_cols <= max_files
            invariant
                1 <= num_cols,
                test_cols == num_cols + 1,
                num_cols <= max_files,
                max_files == longest(all),
                max_single_width == widest(all),
                num_cols == 1 || grid_width(max_single_width as nat, num_cols as nat)
                    <= available_width,
            ensures
                1 <= num_cols <= max_files,
                num_cols == 1 || grid_width(max_single_width as nat, num_cols as nat)
                    <= available_width,
                num_cols == max_files || grid_width(max_single_width as nat, (num_cols + 1) as nat)
                    > available_width,
            decreases max_files - num_cols,
        {
            let w = max_single_width as u128;
            let k = test_cols as u128;
            assert(w * k <= 0xffff_ffff_ffff_ffff * 0xffff_ffff_ffff_ffffu128) by (nonlinear_arith)
                requires
                    w <= 0xffff_ffff_ffff_ffff,
                    k <= 0xffff_ffff_ffff_ffff,
            ;
            let total_width: u128 = w * k + 2 * (k - 1);
            assert(total_width == grid_width(max_single_width as nat, test_cols as nat));
            if total_width <= available_width as u128 {
                num_cols = test_cols;
                test_cols = test_cols + 1;
            } else {
                break ;
            }
        }
        // each column as wide as its widest file

        let mut column_widths: Vec<usize> = Vec::new();
        while column_widths.len() < num_cols
            invariant
                column_widths@.len() <= num_cols,
                forall|c: int| 0 <= c < column_widths@.len() ==> column_widths@[c] == 0,
            decreases num_cols - column_widths@.len(),
        {
            column_widths.push(0);
        }
        let ghost n = num_cols as nat;
        let mut i: usize = 0;
        while i < all_leaf_files.len()
            invariant
                i <= all_leaf_files@.len(),
                all == nested_view(all_leaf_files@),
                all.len() == all_leaf_files@.len(),
                n == num_cols,
                num_cols >= 1,
                column_widths@.len() == num_cols,
                forall|c: int|
                    0 <= c < n ==> {
                        &&& forall|i2: int, j2: int|
                            #[trigger] in_column(all, n, c, i2, j2) && i2 < i ==> all[i2][j2]
                                <= column_widths@[c]
                        &&& (column_widths@[c] == 0 || exists|i2: int, j2: int|
                            #[trigger] in_column(all, n, c, i2, j2) && i2 < i && all[i2][j2]
                                == column_widths@[c])
                    },
            decreases all_leaf_files@.len() - i,
        {
            let files = &all_leaf_files[i];
            let mut j: usize = 0;
            while j < files.len()
                invariant
                    j <= files@.len(),
                    i < all_leaf_files@.len(),
                    all.len() == all_leaf_files@.len(),
                    files@ == all[i as int],
                    n == num_cols,
                    num_cols >= 1,
                    column_widths@.len() == num_cols,
                    forall|c: int|
                        0 <= c < n ==> {
                            &&& forall|i2: int, j2: int|
                                #[trigger] in_column(all, n, c, i2, j2) && (i2 < i || (i2 == i
                                    && j2 < j)) ==> all[i2][j2] <= column_widths@[c]
                            &&& (column_widths@[c] == 0 || exists|i2: int, j2: int|
                                #[trigger] in_column(all, n, c, i2, j2) && (i2 < i || (i2 == i
                                    && j2 < j)) && all[i2][j2] == column_widths@[c])
                        },
                decreases files@.len() - j,
            {
                let width = files[j];
                let col = j % num_cols;
                assert(j < all[i as int].len());
                assert((j as int) % (n as int) == col as int);
                assert(in_column(all, n, col as int, i as int, j as int));
                if width > column_widths[col] {
                    column_widths.set(col, width);
                }
                assert forall|c: int| 0 <= c < n implies {
                    &&& forall|i2: int, j2: int|
                        #[trigger] in_column(all, n, c, i2, j2) && (i2 < i || (i2 == i && j2 < j
                            + 1)) ==> all[i2][j2] <= column_widths@[c]
                    &&& (column_widths@[c] == 0 || exists|i2: int, j2: int|
                        #[trigger] in_column(all, n, c, i2, j2) && (i2 < i || (i2 == i && j2 < j
                            + 1)) && all[i2][j2] == column_widths@[c])
                } by {
                    if c == col as int && column_widths@[c] == width {
                        assert(in_column(all, n, c, i as int, j as int) && all[i as int][j as int]
                            == column_widths@[c]);
                    }
                }
                j = j + 1;
            }
            i = i + 1;
        }
        proof {
            lemma_longest_bounds(all);
            lemma_widest_bounds(all);
        }
        let config = Self { column_widths, column_spacing };
        proof {
            lemma_leaf_layout(all, available_width as nat, config@);
        }
        config
    }
}

/// The sum of a list of widths.
pub open spec fn total(ws: Seq<usize>) -> int
    decreases ws.len(),
{
    if ws.len() == 0 {
        0
    } else {
        total(ws.drop_last()) + ws.last()
    }
}

proof fn lemma_total_prefix(ws: Seq<usize>, i: int)
    requires
        0 <= i <= ws.len(),
    ensures
        0 <= total(ws.take(i)) <= total(ws),
    decreases ws.len(),
{
    if i < ws.len() {
        assert(ws.drop_last().take(i) =~= ws.take(i));
        lemma_total_prefix(ws.drop_last(), i);
    } else {
        assert(ws.take(i) =~= ws);
        if ws.len() > 0 {
            lemma_total_prefix(ws.drop_last(), i - 1);
            assert(ws.drop_last().take(i - 1) =~= ws.drop_last());
        }
    }
}

/// The columns that one full row of a grid takes: every column's width
/// and the gaps between them.
pub open spec fn full_row_width(widths: Seq<usize>, spacing: usize) -> int {
    if widths.len() == 0 {
        0
    } else {
        total(widths) + spacing * (widths.len() - 1)
    }
}

impl LeafTableConfig {
    /// The columns that one full row of the grid takes.
    pub fn row_width(&self) -> (width: usize)
        requires
            full_row_width(self.column_widths@, self.column_spacing) <= usize::MAX,
        ensures
            width == full_row_width(self.column_widths@, self.column_spacing),
    {
        if self.column_widths.len() == 0 {
            0
        } else {
            let ghost ws = self.column_widths@;
            let mut sum: usize = 0;
            let mut i: usize = 0;
            while i < self.column_widths.len()
                invariant
                    i <= ws.len(),
                    ws == self.column_widths@,
                    ws.len() > 0,
                    total(ws) + self.column_spacing * (ws.len() - 1) <= usize::MAX,
                    sum == total(ws.take(i as int)),
                decreases ws.len() - i,
            {
                assert(ws.take(i + 1).drop_last() =~= ws.take(i as int));
                proof {
                    lemma_total_prefix(ws, i + 1);
                    lemma_total_prefix(ws, 0);
                }
                assert(self.column_spacing * (ws.len() - 1) >= 0) by (nonlinear_arith)
                    requires
                        ws.len() >= 1,
                ;
                sum = sum + self.column_widths[i];
                i = i + 1;
            }
            assert(ws.take(i as int) =~= ws);
            proof {
                lemma_total_prefix(ws, 0);
            }
            assert(self.column_spacing * (ws.len() - 1) >= 0) by (nonlinear_arith)
                requires
                    ws.len() >= 1,
            ;
            sum + self.column_spacing * (self.column_widths.len() - 1)
        }
    }
}

proof fn lemma_total_bounded(ws: Seq<usize>, bound: nat)
    requires
        forall|c: int| 0 <= c < ws.len() ==> ws[c] <= bound,
    ensures
        total(ws) <= bound * ws.len(),
    decreases ws.len(),
{
    if ws.len() > 0 {
        lemma_total_bounded(ws.drop_last(), bound);
        assert(bound * (ws.len() - 1) + bound == bound * ws.len()) by (nonlinear_arith);
    }
}

/// A full row of a leaf grid with two or more columns fits in the room it
/// was laid out for: no column is wider than the widest file, and that many
/// columns of the widest file fit with their gaps.
pub proof fn lemma_full_row_fits(all: Seq<Seq<usize>>, available: nat, widths: Seq<usize>, spacing: usize)
    requires
        is_leaf_layout(all, available, widths, spacing),
        widths.len() >= 2,
    ensures
        full_row_width(widths, spacing) <= available,
{
    lemma_widest_bounds(all);
    let n = widths.len();
    assert forall|c: int| 0 <= c < n implies widths[c] <= widest(all) by {
        assert(is_column_width(all, n, c, widths[c]));
        if widths[c] != 0 {
            let (i, j) = choose|i: int, j: int|
                #[trigger] in_column(all, n, c, i, j) && all[i][j] == widths[c];
            assert(all[i][j] <= widest(all));
        }
    }
    lemma_total_bounded(widths, widest(all));
    assert(widest(all) * n == n * widest(all)) by (nonlinear_arith);
}

} // verus!
