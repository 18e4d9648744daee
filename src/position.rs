use vstd::prelude::*;

use core::cmp::Ordering;

verus! {

/// A position in a text buffer: a row and a column, both from zero.
#[derive(Clone, Copy, Debug, PartialEq, Eq, Structural)]
pub struct Point {
    pub row: u32,
    pub column: u32,
}

/// Points ordered by row, then by column.
pub open spec fn point_lt(a: Point, b: Point) -> bool {
    a.row < b.row || (a.row == b.row && a.column < b.column)
}

pub open spec fn point_le(a: Point, b: Point) -> bool {
    !point_lt(b, a)
}

pub open spec fn point_cmp(a: Point, b: Point) -> Ordering {
    if point_lt(a, b) {
        Ordering::Less
    } else if a == b {
        Ordering::Equal
    } else {
        Ordering::Greater
    }
}

/// The view of a text buffer that attribution needs: anchors (references to
/// positions that keep denoting the same place while the buffer is edited),
/// a version of the content, and the means to compare anchors and to resolve
/// them to points. Anchors are ordered by the points they stand at in the
/// snapshot that compares them.
pub trait BufferSnapshot {
    type Anchor: Copy;

    /// The point that `anchor` stands at in this snapshot.
    spec fn point_of(&self, anchor: Self::Anchor) -> Point;

    /// The point of the buffer nearest to `p`.
    spec fn clip_point(&self, p: Point) -> Point;

    /// Whether the buffer has the point `p`.
    spec fn holds(&self, p: Point) -> bool;

    /// Whether `later` shows this same buffer, after any number of edits.
    spec fn edited_into(&self, later: &Self) -> bool;

    /// A point the buffer has is its own nearest point.
    proof fn lemma_clip_held(&self, p: Point)
        requires
            self.holds(p),
        ensures
            self.clip_point(p) == p,
    ;

    /// Moving to the nearest point keeps the order of points.
    proof fn lemma_clip_monotone(&self, a: Point, b: Point)
        requires
            point_le(a, b),
        ensures
            point_le(self.clip_point(a), self.clip_point(b)),
    ;

    /// Edits never reverse the order of two anchors.
    proof fn lemma_edits_keep_order(&self, later: &Self, a: Self::Anchor, b: Self::Anchor)
        requires
            self.edited_into(later),
            point_le(self.point_of(a), self.point_of(b)),
        ensures
            point_le(later.point_of(a), later.point_of(b)),
    ;

    /// The version of the content that this snapshot shows.
    spec fn content_version(&self) -> u64;

    /// A token that changes whenever the content changes.
    fn version(&self) -> (r: u64)
        ensures
            r == self.content_version(),
    ;

    /// An anchor at `p` that stays before text inserted there.
    fn anchor_before(&self, p: Point) -> (r: Self::Anchor)
        ensures
            self.point_of(r) == self.clip_point(p),
    ;

    /// An anchor at `p` that moves after text inserted there.
    fn anchor_after(&self, p: Point) -> (r: Self::Anchor)
        ensures
            self.point_of(r) == self.clip_point(p),
    ;

    /// Compares two anchors by where they stand in this snapshot.
    fn cmp_anchors(&self, a: &Self::Anchor, b: &Self::Anchor) -> (r: Ordering)
        ensures
            r == point_cmp(self.point_of(*a), self.point_of(*b)),
    ;

    /// Resolves many anchors at once.
    fn points_for_anchors(&self, anchors: &Vec<Self::Anchor>) -> (r: Vec<Point>)
        ensures
            r@.len() == anchors@.len(),
            forall|i: int| 0 <= i < r@.len() ==> r@[i] == self.point_of(#[trigger] anchors@[i]),
    ;
}

/// A buffer that is not edited, given by the length of each of its lines.
/// Its anchors are points, and stand at the buffer's point nearest to them.
pub struct LineSnapshot {
    version: u64,
    line_lengths: Vec<u32>,
}

/// The point of a buffer with these line lengths that is nearest to `p`.
pub open spec fn clip_to_lines(lengths: Seq<u32>, p: Point) -> Point {
    if p.row as int >= lengths.len() {
        Point { row: (lengths.len() - 1) as u32, column: lengths.last() }
    } else if p.column > lengths[p.row as int] {
        Point { row: p.row, column: lengths[p.row as int] }
    } else {
        p
    }
}

impl LineSnapshot {
    /// A buffer has at least one line, and its rows can be numbered.
    #[verifier::type_invariant]
    spec fn inv(&self) -> bool {
        1 <= self.line_lengths@.len() <= u32::MAX
    }

    /// The lengths of the lines, one for each row.
    pub closed spec fn lengths(&self) -> Seq<u32> {
        if 1 <= self.line_lengths@.len() <= u32::MAX {
            self.line_lengths@
        } else {
            seq![0u32]
        }
    }

    proof fn lemma_lengths_bounded(&self)
        ensures
            1 <= self.lengths().len() <= u32::MAX,
    {
    }

    pub closed spec fn version_spec(&self) -> u64 {
        self.version
    }

    /// A snapshot with the given line lengths; no lines stands for one empty line.
    pub fn new(version: u64, line_lengths: Vec<u32>) -> (r: LineSnapshot)
        requires
            line_lengths@.len() <= u32::MAX,
        ensures
            r.version_spec() == version,
            line_lengths@.len() > 0 ==> r.lengths() == line_lengths@,
            line_lengths@.len() == 0 ==> r.lengths() == seq![0u32],
    {
        let mut lengths = line_lengths;
        if lengths.len() == 0 {
            lengths.push(0);
            assert(lengths@ =~= seq![0u32]);
        }
        LineSnapshot { version, line_lengths: lengths }
    }

    fn clip(&self, p: Point) -> (r: Point)
        ensures
            r == clip_to_lines(self.lengths(), p),
    {
        proof {
            use_type_invariant(self);
            assert(self.lengths() == self.line_lengths@);
        }
        let n = self.line_lengths.len();
        if p.row as usize >= n {
            Point { row: (n - 1) as u32, column: self.line_lengths[n - 1] }
        } else if p.column > self.line_lengths[p.row as usize] {
            Point { row: p.row, column: self.line_lengths[p.row as usize] }
        } else {
            p
        }
    }

    proof fn lemma_clip_idempotent(&self, p: Point)
        requires
            1 <= self.lengths().len() <= u32::MAX,
        ensures
            clip_to_lines(self.lengths(), clip_to_lines(self.lengths(), p)) == clip_to_lines(
                self.lengths(),
                p,
            ),
    {
    }
}

impl BufferSnapshot for LineSnapshot {
    type Anchor = Point;

    open spec fn point_of(&self, anchor: Point) -> Point {
        clip_to_lines(self.lengths(), anchor)
    }

    open spec fn clip_point(&self, p: Point) -> Point {
        clip_to_lines(self.lengths(), p)
    }

    open spec fn content_version(&self) -> u64 {
        self.version_spec()
    }

    open spec fn holds(&self, p: Point) -> bool {
        p.row < self.lengths().len() && p.column <= self.lengths()[p.row as int]
    }

    /// A line snapshot is never edited: it is edited into itself alone.
    open spec fn edited_into(&self, later: &Self) -> bool {
        self.lengths() == later.lengths()
    }

    proof fn lemma_clip_held(&self, p: Point) {
    }

    proof fn lemma_clip_monotone(&self, a: Point, b: Point) {
        self.lemma_lengths_bounded();
    }

    proof fn lemma_edits_keep_order(&self, later: &Self, a: Point, b: Point) {
    }

    fn version(&self) -> u64 {
        self.version
    }

    fn anchor_before(&self, p: Point) -> (r: Point) {
        proof {
            self.lemma_lengths_bounded();
            self.lemma_clip_idempotent(p);
        }
        self.clip(p)
    }

    fn anchor_after(&self, p: Point) -> (r: Point) {
        proof {
            self.lemma_lengths_bounded();
            self.lemma_clip_idempotent(p);
        }
        self.clip(p)
    }

    fn cmp_anchors(&self, a: &Point, b: &Point) -> (r: Ordering) {
        let pa = self.clip(*a);
        let pb = self.clip(*b);
        if pa.row < pb.row || (pa.row == pb.row && pa.column < pb.column) {
            Ordering::Less
        } else if pa.row == pb.row && pa.column == pb.column {
            Ordering::Equal
        } else {
            Ordering::Greater
        }
    }

    fn points_for_anchors(&self, anchors: &Vec<Point>) -> (r: Vec<Point>) {
        let mut out: Vec<Point> = Vec::new();
        let mut i: usize = 0;
        while i < anchors.len()
            invariant
                i <= anchors.len(),
                out@.len() == i,
                forall|k: int| 0 <= k < i ==> out@[k] == self.point_of(#[trigger] anchors@[k]),
            decreases anchors.len() - i,
        {
            out.push(self.clip(anchors[i]));
            i = i + 1;
        }
        out
    }
}

} // verus!
