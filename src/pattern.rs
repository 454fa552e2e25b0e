//! Shapes to seed a grid with: lists of (row, column) offsets whose least
//! row and least column are zero, with the size of their bounding box.
use vstd::prelude::*;

verus! {

/// The least element of `s` (zero for an empty sequence).
pub open spec fn seq_min(s: Seq<int>) -> int
    decreases s.len(),
{
    if s.len() == 0 {
        0
    } else if s.len() == 1 {
        s[0]
    } else {
        let m = seq_min(s.drop_last());
        if s.last() < m {
            s.last()
        } else {
            m
        }
    }
}

/// The greatest element of `s` (zero for an empty sequence).
pub open spec fn seq_max(s: Seq<int>) -> int
    decreases s.len(),
{
    if s.len() == 0 {
        0
    } else if s.len() == 1 {
        s[0]
    } else {
        let m = seq_max(s.drop_last());
        if s.last() > m {
            s.last()
        } else {
            m
        }
    }
}

/// The rows of a list of offsets.
pub open spec fn row_list(s: Seq<(usize, usize)>) -> Seq<int> {
    Seq::new(s.len(), |k: int| s[k].0 as int)
}

/// The columns of a list of offsets.
pub open spec fn column_list(s: Seq<(usize, usize)>) -> Seq<int> {
    Seq::new(s.len(), |k: int| s[k].1 as int)
}

/// The extent of `s`: one more than its greatest element less its least,
/// or zero for an empty sequence.
pub open spec fn extent(s: Seq<int>) -> int {
    if s.len() == 0 {
        0
    } else {
        seq_max(s) - seq_min(s) + 1
    }
}

/// Every element of a non-empty sequence lies between its least and its
/// greatest.
proof fn lemma_min_max(s: Seq<int>)
    ensures
        forall|k: int| 0 <= k < s.len() ==> seq_min(s) <= #[trigger] s[k] <= seq_max(s),
    decreases s.len(),
{
    if s.len() > 1 {
        lemma_min_max(s.drop_last());
        assert forall|k: int| 0 <= k < s.len() implies seq_min(s) <= #[trigger] s[k] <= seq_max(
            s,
        ) by {
            if k < s.len() - 1 {
                assert(s.drop_last()[k] == s[k]);
            }
        }
    }
}

/// What a pattern holds: its offsets and the height and width of their
/// bounding box.
pub struct PatternView {
    pub cells: Seq<(usize, usize)>,
    pub height: nat,
    pub width: nat,
}

/// A shape: offsets (row, column) from its top left corner.
pub struct Pattern {
    coordinate_list: Vec<(usize, usize)>,
    height: usize,
    width: usize,
}

impl View for Pattern {
    type V = PatternView;

    closed spec fn view(&self) -> PatternView {
        PatternView {
            cells: self.coordinate_list@,
            height: self.height as nat,
            width: self.width as nat,
        }
    }
}

impl PatternView {
    /// Every offset lies inside the bounding box.
    pub open spec fn wf(self) -> bool {
        forall|k: int|
            0 <= k < self.cells.len() ==> (#[trigger] self.cells[k]).0 < self.height
                && self.cells[k].1 < self.width
    }
}

impl Pattern {
    /// The pattern of the cells `pair_list`, shifted so that its least row
    /// and least column are zero.
    pub fn from_pairs(pair_list: &[(usize, usize)]) -> (r: Pattern)
        requires
            pair_list@.len() > 0 ==> extent(row_list(pair_list@)) <= usize::MAX,
            pair_list@.len() > 0 ==> extent(column_list(pair_list@)) <= usize::MAX,
        ensures
            r@.wf(),
            r@.cells == Seq::new(
                pair_list@.len(),
                |k: int|
                    (
                        (pair_list@[k].0 - seq_min(row_list(pair_list@))) as usize,
                        (pair_list@[k].1 - seq_min(column_list(pair_list@))) as usize,
                    ),
            ),
            r@.height == extent(row_list(pair_list@)),
            r@.width == extent(column_list(pair_list@)),
    {
        let n = pair_list.len();
        let ghost rs = row_list(pair_list@);
        let ghost cs = column_list(pair_list@);
        if n == 0 {
            let r = Pattern { coordinate_list: Vec::new(), height: 0, width: 0 };
            assert(r@.cells =~= Seq::new(
                0,
                |k: int|
                    (
                        (pair_list@[k].0 - seq_min(rs)) as usize,
                        (pair_list@[k].1 - seq_min(cs)) as usize,
                    ),
            ));
            return r;
        }
        let mut top = pair_list[0].0;
        let mut bottom = pair_list[0].0;
        let mut left = pair_list[0].1;
        let mut right = pair_list[0].1;
        let mut i: usize = 1;
        while i < n
            invariant
                1 <= i <= n,
                n == pair_list@.len(),
                rs == row_list(pair_list@),
                cs == column_list(pair_list@),
                top == seq_min(rs.take(i as int)),
                bottom == seq_max(rs.take(i as int)),
                left == seq_min(cs.take(i as int)),
                right == seq_max(cs.take(i as int)),
            decreases n - i,
        {
            let (row, col) = pair_list[i];
            assert(rs.take(i + 1).drop_last() == rs.take(i as int));
            assert(cs.take(i + 1).drop_last() == cs.take(i as int));
            if row < top {
                top = row;
            }
            if row > bottom {
                bottom = row;
            }
            if col < left {
                left = col;
            }
            if col > right {
                right = col;
            }
            i += 1;
        }
        assert(rs.take(n as int) == rs);
        assert(cs.take(n as int) == cs);
        proof {
            lemma_min_max(rs);
            lemma_min_max(cs);
        }
        let mut list: Vec<(usize, usize)> = Vec::new();
        let mut k: usize = 0;
        while k < n
            invariant
                0 <= k <= n,
                n == pair_list@.len(),
                rs == row_list(pair_list@),
                cs == column_list(pair_list@),
                top == seq_min(rs),
                left == seq_min(cs),
                bottom == seq_max(rs),
                right == seq_max(cs),
                forall|j: int| 0 <= j < n ==> seq_min(rs) <= #[trigger] rs[j] <= seq_max(rs),
                forall|j: int| 0 <= j < n ==> seq_min(cs) <= #[trigger] cs[j] <= seq_max(cs),
                list@.len() == k,
                forall|j: int|
                    0 <= j < k ==> #[trigger] list@[j] == (
                        (pair_list@[j].0 - top) as usize,
                        (pair_list@[j].1 - left) as usize,
                    ),
            decreases n - k,
        {
            let (row, col) = pair_list[k];
            assert(rs[k as int] == row);
            assert(cs[k as int] == col);
            list.push((row - top, col - left));
            k += 1;
        }
        let r = Pattern { coordinate_list: list, height: bottom - top + 1, width: right - left + 1 };
        assert forall|j: int| 0 <= j < r@.cells.len() implies (#[trigger] r@.cells[j]).0 < r@.height
            && r@.cells[j].1 < r@.width by {
            assert(rs[j] == pair_list@[j].0);
            assert(cs[j] == pair_list@[j].1);
        }
        assert(r@.cells =~= Seq::new(
            pair_list@.len(),
            |k: int|
                (
                    (pair_list@[k].0 - seq_min(rs)) as usize,
                    (pair_list@[k].1 - seq_min(cs)) as usize,
                ),
        ));
        r
    }

    /// Turns the pattern a quarter turn clockwise: `(r, c)` becomes
    /// `(c, height - 1 - r)`, and height and width trade places.
    pub fn rotate_right(&mut self)
        requires
            old(self)@.wf(),
        ensures
            final(self)@.wf(),
            final(self)@.height == old(self)@.width,
            final(self)@.width == old(self)@.height,
            final(self)@.cells == Seq::new(
                old(self)@.cells.len(),
                |k: int|
                    (
                        old(self)@.cells[k].1,
                        (old(self)@.height - 1 - old(self)@.cells[k].0) as usize,
                    ),
            ),
    {
        let ghost start = self@;
        let n = self.coordinate_list.len();
        let mut i: usize = 0;
        while i < n
            invariant
                0 <= i <= n,
                n == start.cells.len(),
                start.wf(),
                self.height == start.height,
                self.width == start.width,
                self.coordinate_list@.len() == n,
                forall|k: int|
                    i <= k < n ==> #[trigger] self.coordinate_list@[k] == start.cells[k],
                forall|k: int|
                    0 <= k < i ==> #[trigger] self.coordinate_list@[k] == (
                        start.cells[k].1,
                        (start.height - 1 - start.cells[k].0) as usize,
                    ),
            decreases n - i,
        {
            let (row, col) = self.coordinate_list[i];
            assert(start.cells[i as int].0 < start.height);
            self.coordinate_list[i] = (col, self.height - 1 - row);
            i += 1;
        }
        let h = self.height;
        self.height = self.width;
        self.width = h;
        assert(self@.cells =~= Seq::new(
            start.cells.len(),
            |k: int| (start.cells[k].1, (start.height - 1 - start.cells[k].0) as usize),
        ));
    }

    /// The offsets of the pattern.
    pub fn iter(&self) -> (r: &[(usize, usize)])
        ensures
            r@ == self@.cells,
    {
        self.coordinate_list.as_slice()
    }

    /// The width of the pattern's bounding box.
    pub fn get_width(&self) -> (r: usize)
        ensures
            r == self@.width,
    {
        self.width
    }

    /// The height of the pattern's bounding box.
    pub fn get_height(&self) -> (r: usize)
        ensures
            r == self@.height,
    {
        self.height
    }
}

/// The glider: `(0, 1), (1, 2), (2, 0), (2, 1), (2, 2)` in a 3 by 3 box.
pub fn get_glider() -> (r: Pattern)
    ensures
        r@.wf(),
        r@.cells == seq![(0usize, 1usize), (1, 2), (2, 0), (2, 1), (2, 2)],
        r@.height == 3,
        r@.width == 3,
{
    let r = Pattern { coordinate_list: vec![(0, 1), (1, 2), (2, 0), (2, 1), (2, 2)], height: 3, width: 3 };
    assert(r@.cells =~= seq![(0usize, 1usize), (1, 2), (2, 0), (2, 1), (2, 2)]);
    r
}

/// The acorn: `(0, 1), (1, 3), (2, 0), (2, 1), (2, 4), (2, 5), (2, 6)` in a
/// 3 by 7 box.
pub fn get_acorn() -> (r: Pattern)
    ensures
        r@.wf(),
        r@.cells == seq![(0usize, 1usize), (1, 3), (2, 0), (2, 1), (2, 4), (2, 5), (2, 6)],
        r@.height == 3,
        r@.width == 7,
{
    let r = Pattern {
        coordinate_list: vec![(0, 1), (1, 3), (2, 0), (2, 1), (2, 4), (2, 5), (2, 6)],
        height: 3,
        width: 7,
    };
    assert(r@.cells =~= seq![(0usize, 1usize), (1, 3), (2, 0), (2, 1), (2, 4), (2, 5), (2, 6)]);
    r
}

} // verus!
