use vstd::prelude::*;

use core::cmp::Ordering;
use core::ops::Range;

use crate::hunk::{lemma_meeting_concat, lemma_meeting_none, meeting, meets, BlameHunk};
use crate::position::{point_le, point_lt, BufferSnapshot};

verus! {

/// What a subtree of the aggregation tree knows of its hunks: a range from
/// the least start to the greatest end among them.
#[derive(Debug)]
pub struct BlameHunkSummary<A> {
    pub buffer_range: Range<A>,
}

/// Whether the range holds every hunk of `items` in `buf`.
pub open spec fn covers<B: BufferSnapshot>(
    buf: &B,
    range: Range<B::Anchor>,
    items: Seq<BlameHunk<B::Anchor>>,
) -> bool {
    forall|i: int|
        0 <= i < items.len() ==> {
            &&& point_le(buf.point_of(range.start), buf.point_of(#[trigger] items[i].buffer_range.start))
            &&& point_le(buf.point_of(items[i].buffer_range.end), buf.point_of(range.end))
        }
}

impl<A: Copy> BlameHunk<A> {
    /// The summary of a single hunk: its own range.
    pub fn summary(&self) -> (r: BlameHunkSummary<A>)
        ensures
            r.buffer_range == self.buffer_range,
    {
        BlameHunkSummary {
            buffer_range: Range { start: self.buffer_range.start, end: self.buffer_range.end },
        }
    }
}

impl<A: Copy> BlameHunkSummary<A> {
    /// Widens this summary to take in `other` as well.
    pub fn add_summary<B: BufferSnapshot<Anchor = A>>(&mut self, other: &Self, buffer: &B)
        ensures
            final(self).buffer_range.start == (if point_lt(
                buffer.point_of(other.buffer_range.start),
                buffer.point_of(old(self).buffer_range.start),
            ) {
                other.buffer_range.start
            } else {
                old(self).buffer_range.start
            }),
            final(self).buffer_range.end == (if point_lt(
                buffer.point_of(old(self).buffer_range.end),
                buffer.point_of(other.buffer_range.end),
            ) {
                other.buffer_range.end
            } else {
                old(self).buffer_range.end
            }),
            forall|items: Seq<BlameHunk<A>>|
                covers(buffer, old(self).buffer_range, items) ==> #[trigger] covers(
                    buffer,
                    final(self).buffer_range,
                    items,
                ),
            forall|items: Seq<BlameHunk<A>>|
                covers(buffer, other.buffer_range, items) ==> #[trigger] covers(
                    buffer,
                    final(self).buffer_range,
                    items,
                ),
    {
        match buffer.cmp_anchors(&other.buffer_range.start, &self.buffer_range.start) {
            Ordering::Less => self.buffer_range.start = other.buffer_range.start,
            _ => {},
        }
        match buffer.cmp_anchors(&self.buffer_range.end, &other.buffer_range.end) {
            Ordering::Less => self.buffer_range.end = other.buffer_range.end,
            _ => {},
        }
    }
}

/// A balanced tree of hunks in buffer order; each inner node keeps the
/// summary of its subtree.
#[derive(Debug)]
pub enum HunkTree<A> {
    Leaf(BlameHunk<A>),
    Node(BlameHunkSummary<A>, Box<HunkTree<A>>, Box<HunkTree<A>>),
}

impl<A> HunkTree<A> {
    /// The hunks of the tree, left to right.
    pub open spec fn items(&self) -> Seq<BlameHunk<A>>
        decreases self,
    {
        match self {
            HunkTree::Leaf(h) => seq![*h],
            HunkTree::Node(_, l, r) => l.items() + r.items(),
        }
    }

    /// The range that the tree is known to lie within.
    pub open spec fn bounds(&self) -> Range<A> {
        match self {
            HunkTree::Leaf(h) => h.buffer_range,
            HunkTree::Node(s, _, _) => s.buffer_range,
        }
    }
}

/// Every summary of the tree covers the hunks below it, in `buf`.
pub open spec fn wf_tree<B: BufferSnapshot>(buf: &B, t: HunkTree<B::Anchor>) -> bool
    decreases t,
{
    match t {
        HunkTree::Leaf(_) => true,
        HunkTree::Node(s, l, r) => {
            &&& wf_tree(buf, *l)
            &&& wf_tree(buf, *r)
            &&& covers(buf, s.buffer_range, l.items() + r.items())
        },
    }
}

pub proof fn lemma_bounds_cover<B: BufferSnapshot>(buf: &B, t: HunkTree<B::Anchor>)
    requires
        wf_tree(buf, t),
    ensures
        covers(buf, t.bounds(), t.items()),
{
}

/// The summaries of a tree stay valid while the buffer is edited.
pub proof fn lemma_wf_after_edits<B: BufferSnapshot>(buf: &B, later: &B, t: HunkTree<B::Anchor>)
    requires
        wf_tree(buf, t),
        buf.edited_into(later),
    ensures
        wf_tree(later, t),
    decreases t,
{
    match t {
        HunkTree::Leaf(_) => {},
        HunkTree::Node(s, l, r) => {
            lemma_wf_after_edits(buf, later, *l);
            lemma_wf_after_edits(buf, later, *r);
            let items = l.items() + r.items();
            assert forall|i: int| 0 <= i < items.len() implies {
                &&& point_le(later.point_of(s.buffer_range.start), later.point_of(#[trigger] items[i].buffer_range.start))
                &&& point_le(later.point_of(items[i].buffer_range.end), later.point_of(s.buffer_range.end))
            } by {
                assert(point_le(buf.point_of(s.buffer_range.start), buf.point_of(items[i].buffer_range.start)));
                buf.lemma_edits_keep_order(later, s.buffer_range.start, items[i].buffer_range.start);
                buf.lemma_edits_keep_order(later, items[i].buffer_range.end, s.buffer_range.end);
            }
        },
    }
}

proof fn lemma_covers_concat<B: BufferSnapshot>(
    buf: &B,
    range: Range<B::Anchor>,
    a: Seq<BlameHunk<B::Anchor>>,
    b: Seq<BlameHunk<B::Anchor>>,
)
    requires
        covers(buf, range, a),
        covers(buf, range, b),
    ensures
        covers(buf, range, a + b),
{
    assert forall|i: int| 0 <= i < (a + b).len() implies {
        &&& point_le(buf.point_of(range.start), buf.point_of(#[trigger] (a + b)[i].buffer_range.start))
        &&& point_le(buf.point_of((a + b)[i].buffer_range.end), buf.point_of(range.end))
    } by {
        if i < a.len() {
            assert((a + b)[i] == a[i]);
            assert(point_le(buf.point_of(range.start), buf.point_of(a[i].buffer_range.start)));
        } else {
            assert((a + b)[i] == b[i - a.len()]);
            assert(point_le(buf.point_of(range.start), buf.point_of(b[i - a.len()].buffer_range.start)));
        }
    }
}

fn summary_of<A: Copy>(t: &HunkTree<A>) -> (r: BlameHunkSummary<A>)
    ensures
        r.buffer_range == t.bounds(),
{
    match t {
        HunkTree::Leaf(h) => h.summary(),
        HunkTree::Node(s, _, _) => BlameHunkSummary {
            buffer_range: Range { start: s.buffer_range.start, end: s.buffer_range.end },
        },
    }
}

/// Builds a balanced tree over the hunks, in their order.
pub fn build_tree<B: BufferSnapshot>(hunks: Vec<BlameHunk<B::Anchor>>, buffer: &B) -> (t: HunkTree<
    B::Anchor,
>)
    requires
        hunks@.len() > 0,
    ensures
        t.items() == hunks@,
        wf_tree(buffer, t),
    decreases hunks@.len(),
{
    let mut hunks = hunks;
    if hunks.len() == 1 {
        let ghost all = hunks@;
        let h = hunks.pop().unwrap();
        assert(seq![h] =~= all);
        HunkTree::Leaf(h)
    } else {
        let ghost all = hunks@;
        let mid = hunks.len() / 2;
        let right = hunks.split_off(mid);
        assert(hunks@ + right@ =~= all);
        let l = build_tree(hunks, buffer);
        let r = build_tree(right, buffer);
        let mut summary = summary_of(&l);
        let other = summary_of(&r);
        proof {
            lemma_bounds_cover(buffer, l);
            lemma_bounds_cover(buffer, r);
        }
        summary.add_summary(&other, buffer);
        proof {
            lemma_covers_concat(buffer, summary.buffer_range, l.items(), r.items());
        }
        HunkTree::Node(summary, Box::new(l), Box::new(r))
    }
}

/// Appends to `out` the hunks of the tree that meet the range from `start`
/// to `end`, skipping every subtree whose summary lies wholly before or
/// wholly after it.
pub fn collect_meeting<B: BufferSnapshot>(
    t: &HunkTree<B::Anchor>,
    start: &B::Anchor,
    end: &B::Anchor,
    buffer: &B,
    out: &mut Vec<BlameHunk<B::Anchor>>,
)
    requires
        wf_tree(buffer, *t),
    ensures
        final(out)@ == old(out)@ + meeting(buffer, t.items(), buffer.point_of(*start), buffer.point_of(*end)),
    decreases t,
{
    match t {
        HunkTree::Leaf(h) => {
            let before_start = match buffer.cmp_anchors(&h.buffer_range.end, start) {
                Ordering::Less => true,
                _ => false,
            };
            let after_end = match buffer.cmp_anchors(&h.buffer_range.start, end) {
                Ordering::Greater => true,
                _ => false,
            };
            let ghost items = t.items();
            assert(items.drop_last() =~= Seq::<BlameHunk<B::Anchor>>::empty());
            assert(items.last() == *h);
            assert(meeting(buffer, items.drop_last(), buffer.point_of(*start), buffer.point_of(*end)) =~= Seq::<BlameHunk<B::Anchor>>::empty());
            if !before_start && !after_end {
                assert(meets(buffer, *h, buffer.point_of(*start), buffer.point_of(*end)));
                assert(meeting(buffer, items, buffer.point_of(*start), buffer.point_of(*end)) =~= seq![*h]);
                out.push(h.duplicate());
                assert(out@ =~= old(out)@ + seq![*h]);
            } else {
                assert(!meets(buffer, *h, buffer.point_of(*start), buffer.point_of(*end)));
                assert(old(out)@ + meeting(buffer, items, buffer.point_of(*start), buffer.point_of(*end)) =~= old(out)@);
            }
        },
        HunkTree::Node(s, l, r) => {
            let before_start = match buffer.cmp_anchors(&s.buffer_range.end, start) {
                Ordering::Less => true,
                _ => false,
            };
            let after_end = match buffer.cmp_anchors(&s.buffer_range.start, end) {
                Ordering::Greater => true,
                _ => false,
            };
            if !before_start && !after_end {
                collect_meeting(l, start, end, buffer, out);
                collect_meeting(r, start, end, buffer, out);
                proof {
                    lemma_meeting_concat(buffer, l.items(), r.items(), buffer.point_of(*start), buffer.point_of(*end));
                    assert(old(out)@ + meeting(buffer, l.items(), buffer.point_of(*start), buffer.point_of(*end)) + meeting(
                        buffer,
                        r.items(),
                        buffer.point_of(*start),
                        buffer.point_of(*end),
                    ) =~= old(out)@ + meeting(buffer, t.items(), buffer.point_of(*start), buffer.point_of(*end)));
                }
            } else {
                proof {
                    let items = t.items();
                    assert forall|i: int| 0 <= i < items.len() implies !meets(
                        buffer,
                        #[trigger] items[i],
                        buffer.point_of(*start),
                        buffer.point_of(*end),
                    ) by {
                        assert(covers(buffer, s.buffer_range, items));
                    }
                    lemma_meeting_none(buffer, items, buffer.point_of(*start), buffer.point_of(*end));
                    assert(old(out)@ + meeting(buffer, items, buffer.point_of(*start), buffer.point_of(*end)) =~= old(out)@);
                }
            }
        },
    }
}

} // verus!
