//! Depths and tree-drawing parts of the tree view.

use vstd::prelude::*;

verus! {

/// How far down the tree a row is: 0 at the root.
#[derive(Clone, Copy, Debug, PartialEq, Eq, Structural)]
pub struct TreeDepth(pub usize);

impl TreeDepth {
    /// The depth of the rows at the root.
    pub fn root() -> (d: TreeDepth)
        ensures
            d.0 == 0,
    {
        TreeDepth(0)
    }

    /// The depth one level below this one.
    pub fn deeper(self) -> (d: TreeDepth)
        requires
            self.0 < usize::MAX,
        ensures
            d.0 == self.0 + 1,
    {
        TreeDepth(self.0 + 1)
    }
}

/// Where a row stands in the tree: its depth, and whether it is the last
/// row at that depth under its parent.
#[derive(Clone, Copy, Debug, PartialEq, Eq, Structural)]
pub struct TreeParams {
    pub depth: TreeDepth,
    pub last: bool,
}

impl TreeParams {
    pub fn new(depth: TreeDepth, last: bool) -> (p: TreeParams)
        ensures
            p.depth == depth,
            p.last == last,
    {
        TreeParams { depth, last }
    }
}

/// One column of tree drawing in front of a row.
#[derive(Clone, Copy, Debug, PartialEq, Eq, Structural)]
pub enum TreePart {
    /// A branch to a row that has later siblings: `├──`.
    Edge,
    /// A line passing by, to a later sibling further down: `│`.
    Line,
    /// A branch to the last row under its parent: `└──`.
    Corner,
    /// Nothing: the branch above has ended.
    Blank,
}

/// The four characters that draw a part.
pub open spec fn art(part: TreePart) -> Seq<char> {
    match part {
        TreePart::Edge => seq!['├', '─', '─', ' '],
        TreePart::Line => seq!['│', ' ', ' ', ' '],
        TreePart::Corner => seq!['└', '─', '─', ' '],
        TreePart::Blank => seq![' ', ' ', ' ', ' '],
    }
}

impl TreePart {
    /// The text that draws this part, four columns wide.
    pub fn ascii_art(self) -> (s: &'static str)
        ensures
            s@ == art(self),
    {
        match self {
            TreePart::Edge => {
                proof {
                    reveal_strlit("├── ");
                }
                let s = "├── ";
                assert(s@ =~= art(self));
                s
            },
            TreePart::Line => {
                proof {
                    reveal_strlit("│   ");
                }
                let s = "│   ";
                assert(s@ =~= art(self));
                s
            },
            TreePart::Corner => {
                proof {
                    reveal_strlit("└── ");
                }
                let s = "└── ";
                assert(s@ =~= art(self));
                s
            },
            TreePart::Blank => {
                proof {
                    reveal_strlit("    ");
                }
                let s = "    ";
                assert(s@ =~= art(self));
                s
            },
        }
    }
}

/// The part that a row leaves behind at its own depth once a later row
/// comes: a line when siblings follow it, a blank when it was the last.
pub open spec fn trailing_part(p: TreeParams) -> TreePart {
    if p.last {
        TreePart::Blank
    } else {
        TreePart::Line
    }
}

/// The part drawn at a row's own depth.
pub open spec fn branch_part(p: TreeParams) -> TreePart {
    if p.last {
        TreePart::Corner
    } else {
        TreePart::Edge
    }
}

/// The stack of parts after drawing a row with `p`, from the stack and the
/// previous row's position before it: the previous row's own part turns
/// into its trailing part, the stack is cut or extended with edges to one
/// entry per depth up to `p`'s, and the entry at `p`'s depth is its branch.
pub open spec fn next_stack(stack: Seq<TreePart>, prev: Option<TreeParams>, p: TreeParams) -> Seq<
    TreePart,
> {
    let settled = match prev {
        Some(l) => stack.update(l.depth.0 as int, trailing_part(l)),
        None => stack,
    };
    let sized = if settled.len() > p.depth.0 + 1 {
        settled.subrange(0, p.depth.0 + 1)
    } else {
        settled + Seq::new((p.depth.0 + 1 - settled.len()) as nat, |i: int| TreePart::Edge)
    };
    sized.update(p.depth.0 as int, branch_part(p))
}

/// The parts that draw the tree in front of successive rows.
pub struct TreeTrunk {
    stack: Vec<TreePart>,
    last_params: Option<TreeParams>,
}

impl TreeTrunk {
    /// The stack holds one part per depth up to the previous row's,
    /// and only the part at the previous row's own depth can be a corner.
    #[verifier::type_invariant]
    spec fn stack_fits(self) -> bool {
        &&& match self.last_params {
            Some(l) => self.stack.len() == l.depth.0 + 1,
            None => self.stack.len() == 0,
        }
        &&& forall|j: int| 0 <= j < self.stack@.len() - 1 ==> self.stack@[j] != TreePart::Corner
    }

    /// The parts per depth, as of the previous row.
    pub closed spec fn stack(self) -> Seq<TreePart> {
        self.stack@
    }

    /// The previous row's position, if a row was drawn.
    pub closed spec fn previous(self) -> Option<TreeParams> {
        self.last_params
    }

    /// A trunk before any row.
    pub fn new() -> (t: TreeTrunk)
        ensures
            t.stack() == Seq::<TreePart>::empty(),
            t.previous() is None,
    {
        TreeTrunk { stack: Vec::new(), last_params: None }
    }

    /// Advances to a row at `params` and gives the parts to draw in front
    /// of it: one per depth from 1 to the row's depth (depth 0 draws none).
    pub fn new_row(&mut self, params: TreeParams) -> (parts: Vec<TreePart>)
        requires
            params.depth.0 < usize::MAX,
        ensures
            final(self).stack() == next_stack(old(self).stack(), old(self).previous(), params),
            final(self).previous() == Some(params),
            parts@ == final(self).stack().subrange(1, params.depth.0 + 1),
            parts@.len() == params.depth.0,
            params.depth.0 > 0 ==> parts@.last() == branch_part(params),
            forall|j: int| 0 <= j < parts@.len() - 1 ==> parts@[j] != TreePart::Corner,
    {
        proof {
            use_type_invariant(&*self);
        }
        let mut stack: Vec<TreePart> = Vec::new();
        let mut i: usize = 0;
        while i < self.stack.len()
            invariant
                i <= self.stack@.len(),
                stack@ == self.stack@.subrange(0, i as int),
            decreases self.stack@.len() - i,
        {
            stack.push(self.stack[i]);
            assert(stack@ =~= self.stack@.subrange(0, i + 1));
            i = i + 1;
        }
        if let Some(last) = self.last_params {
            let part = if last.last {
                TreePart::Blank
            } else {
                TreePart::Line
            };
            stack.set(last.depth.0, part);
        }
        let ghost settled = stack@;
        let want = params.depth.0 + 1;
        if stack.len() > want {
            stack.truncate(want);
        } else {
            while stack.len() < want
                invariant
                    settled.len() <= stack@.len() <= want,
                    stack@ == settled + Seq::new(
                        (stack@.len() - settled.len()) as nat,
                        |i: int| TreePart::Edge,
                    ),
                decreases want - stack@.len(),
            {
                stack.push(TreePart::Edge);
                assert(stack@ =~= settled + Seq::new(
                    (stack@.len() - settled.len()) as nat,
                    |i: int| TreePart::Edge,
                ));
            }
        }
        let part = if params.last {
            TreePart::Corner
        } else {
            TreePart::Edge
        };
        stack.set(params.depth.0, part);
        assert(stack@ =~= next_stack(self.stack@, self.last_params, params));
        let mut parts: Vec<TreePart> = Vec::new();
        let mut j: usize = 1;
        while j < stack.len()
            invariant
                1 <= j <= stack@.len(),
                stack@.len() == want,
                parts@ == stack@.subrange(1, j as int),
            decreases stack@.len() - j,
        {
            parts.push(stack[j]);
            assert(parts@ =~= stack@.subrange(1, j + 1));
            j = j + 1;
        }
        *self = TreeTrunk { stack, last_params: Some(params) };
        parts
    }
}

/// The position of the last of some rows, if there is one.
pub open spec fn last_of(ps: Seq<TreeParams>) -> Option<TreeParams> {
    if ps.len() == 0 {
        None
    } else {
        Some(ps.last())
    }
}

/// The stack of parts after drawing rows at positions `ps` from a new trunk.
pub open spec fn stack_after(ps: Seq<TreeParams>) -> Seq<TreePart>
    decreases ps.len(),
{
    if ps.len() == 0 {
        Seq::empty()
    } else {
        next_stack(stack_after(ps.drop_last()), last_of(ps.drop_last()), ps.last())
    }
}

/// The index of the latest row before the `i`-th that lies at `depth`
/// (-1 when there is none).
pub open spec fn latest_at(ps: Seq<TreeParams>, i: int, depth: int) -> int
    decreases i,
{
    if i <= 0 {
        -1
    } else if ps[i - 1].depth.0 == depth {
        i - 1
    } else {
        latest_at(ps, i - 1, depth)
    }
}

/// Rows that start at the root and go down at most one level at a time,
/// as the rows of a tree do.
pub open spec fn steps_down_by_one(ps: Seq<TreeParams>) -> bool {
    &&& ps.len() > 0 ==> ps[0].depth.0 == 0
    &&& forall|i: int| 0 < i < ps.len() ==> #[trigger] ps[i].depth.0 <= ps[i - 1].depth.0 + 1
    &&& forall|i: int| 0 <= i < ps.len() ==> #[trigger] ps[i].depth.0 < usize::MAX
}

proof fn lemma_latest_exists(ps: Seq<TreeParams>, i: int, depth: int)
    requires
        steps_down_by_one(ps),
        0 <= i < ps.len(),
        0 <= depth < ps[i].depth.0,
    ensures
        0 <= latest_at(ps, i, depth) < i,
        ps[latest_at(ps, i, depth)].depth.0 == depth,
    decreases i,
{
    assert(i > 0);
    if ps[i - 1].depth.0 != depth {
        assert(ps[i].depth.0 <= ps[i - 1].depth.0 + 1);
        lemma_latest_exists(ps, i - 1, depth);
    }
}

/// Drawing a tree row by row keeps, at each depth up to the latest row's,
/// the trailing part of the latest row at that depth, and that row's own
/// branch at its depth.
pub proof fn lemma_stack_after(ps: Seq<TreeParams>, n: int)
    requires
        steps_down_by_one(ps),
        0 < n <= ps.len(),
    ensures
        ({
            let st = stack_after(ps.take(n));
            let d = ps[n - 1].depth.0 as int;
            &&& st.len() == d + 1
            &&& st[d] == branch_part(ps[n - 1])
            &&& forall|j: int| 0 <= j < d ==> #[trigger] st[j] == trailing_part(ps[latest_at(ps, n - 1, j)])
        }),
    decreases n,
{
    let st = stack_after(ps.take(n));
    let d = ps[n - 1].depth.0 as int;
    assert(ps.take(n).drop_last() =~= ps.take(n - 1));
    assert(ps.take(n).last() == ps[n - 1]);
    if n == 1 {
        assert(ps.take(0) =~= Seq::<TreeParams>::empty());
        assert(d == 0);
    } else {
        lemma_stack_after(ps, n - 1);
        let prev = stack_after(ps.take(n - 1));
        let pd = ps[n - 2].depth.0 as int;
        assert(last_of(ps.take(n - 1)) == Some(ps[n - 2]));
        assert(ps[n - 1].depth.0 <= ps[n - 2].depth.0 + 1);
        assert forall|j: int| 0 <= j < d implies #[trigger] st[j] == trailing_part(
            ps[latest_at(ps, n - 1, j)],
        ) by {
            if j == pd {
                assert(latest_at(ps, n - 1, j) == n - 2);
            } else {
                assert(j < pd);
                assert(latest_at(ps, n - 1, j) == latest_at(ps, n - 2, j));
            }
        }
    }
}

/// In front of every row of a tree, the part at each ancestor depth is a
/// line while the latest row at that depth has later siblings and a blank
/// once it was the last; the part at the row's own depth is a corner for
/// the last row under its parent and an edge otherwise.
pub proof fn lemma_tree_parts(ps: Seq<TreeParams>, i: int)
    requires
        steps_down_by_one(ps),
        0 <= i < ps.len(),
    ensures
        ({
            let parts = stack_after(ps.take(i + 1)).subrange(1, ps[i].depth.0 + 1);
            let d = ps[i].depth.0 as int;
            &&& parts.len() == d
            &&& d > 0 ==> parts[d - 1] == branch_part(ps[i])
            &&& forall|j: int|
                1 <= j < d ==> {
                    &&& 0 <= latest_at(ps, i, j) < i
                    &&& ps[latest_at(ps, i, j)].depth.0 == j
                    &&& #[trigger] parts[j - 1] == trailing_part(ps[latest_at(ps, i, j)])
                }
        }),
{
    lemma_stack_after(ps, i + 1);
    let d = ps[i].depth.0 as int;
    assert forall|j: int| 1 <= j < d implies {
        &&& 0 <= latest_at(ps, i, j) < i
        &&& ps[latest_at(ps, i, j)].depth.0 == j
    } by {
        lemma_latest_exists(ps, i, j);
    }
}

} // verus!
