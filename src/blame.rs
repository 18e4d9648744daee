use vstd::prelude::*;

use core::ops::Range;

use crate::hunk::{clone_text, end_row_of, meeting, resolved, BlameHunk, Signature};
use crate::incremental::UNCOMMITTED_SHA;
use crate::position::{point_le, BufferSnapshot, Point};
use crate::tree::{build_tree, collect_meeting, lemma_wf_after_edits, wf_tree, HunkTree};

verus! {

/// One attribution fact as a provider reports it: the commit that last
/// changed `lines_in_hunk` lines from line `final_start_line` (counted from
/// one) on, and the commit's author where the provider could resolve it.
/// A line count of `usize::MAX` means the provider does not know it.
#[derive(Debug)]
pub struct RawHunk {
    pub commit_id: String,
    pub final_start_line: usize,
    pub lines_in_hunk: usize,
    pub signature: Option<Signature>,
}

/// A fact that denotes rows of a buffer with a commit behind them.
pub open spec fn usable(h: RawHunk) -> bool {
    &&& h.commit_id@ != UNCOMMITTED_SHA@
    &&& h.lines_in_hunk != usize::MAX
    &&& h.final_start_line >= 1
    &&& h.final_start_line - 1 + h.lines_in_hunk <= u32::MAX
}

/// The signature of the first usable fact of `commit` that carries one.
pub open spec fn first_signature(raws: Seq<RawHunk>, commit: Seq<char>) -> Option<Signature>
    decreases raws.len(),
{
    if raws.len() == 0 {
        None
    } else {
        match first_signature(raws.drop_last(), commit) {
            Some(s) => Some(s),
            None => {
                let h = raws.last();
                if usable(h) && h.commit_id@ == commit {
                    h.signature
                } else {
                    None
                }
            },
        }
    }
}

/// The half-open row range of a fact, with the author `sig`.
pub open spec fn row_hunk(h: RawHunk, sig: Signature) -> BlameHunk<u32> {
    BlameHunk {
        buffer_range: Range {
            start: (h.final_start_line - 1) as u32,
            end: (h.final_start_line - 1 + h.lines_in_hunk) as u32,
        },
        oid: h.commit_id,
        name: sig.name,
        email: sig.email,
        time: sig.time,
    }
}

/// The row hunks that the facts give, in their order: every usable fact
/// whose commit has a signature, signed as the first fact of its commit was.
pub open spec fn attribute(raws: Seq<RawHunk>) -> Seq<BlameHunk<u32>>
    decreases raws.len(),
{
    if raws.len() == 0 {
        Seq::empty()
    } else {
        let prev = attribute(raws.drop_last());
        let h = raws.last();
        if usable(h) {
            match first_signature(raws, h.commit_id@) {
                Some(sig) => prev.push(row_hunk(h, sig)),
                None => prev,
            }
        } else {
            prev
        }
    }
}

/// `a` stands, in `buf`, for the rows of `r` (anchored at the start of
/// each boundary row) and carries the same commit and author.
pub open spec fn anchored_as<B: BufferSnapshot>(buf: &B, a: BlameHunk<B::Anchor>, r: BlameHunk<u32>) -> bool {
    &&& buf.point_of(a.buffer_range.start) == buf.clip_point(Point { row: r.buffer_range.start, column: 0 })
    &&& buf.point_of(a.buffer_range.end) == buf.clip_point(Point { row: r.buffer_range.end, column: 0 })
    &&& a.oid == r.oid
    &&& a.name == r.name
    &&& a.email == r.email
    &&& a.time == r.time
}

/// The signature a cache holds for `commit`: the first entry of it.
pub open spec fn cache_lookup(cache: Seq<(String, Signature)>, commit: Seq<char>) -> Option<Signature>
    decreases cache.len(),
{
    if cache.len() == 0 {
        None
    } else {
        match cache_lookup(cache.drop_last(), commit) {
            Some(s) => Some(s),
            None => if cache.last().0@ == commit {
                Some(cache.last().1)
            } else {
                None
            },
        }
    }
}

fn lookup_signature(cache: &Vec<(String, Signature)>, commit: &String) -> (r: Option<usize>)
    ensures
        match r {
            Some(k) => k < cache@.len() && cache_lookup(cache@, commit@) == Some(cache@[k as int].1),
            None => cache_lookup(cache@, commit@) is None,
        },
{
    let mut found: Option<usize> = None;
    let mut i: usize = 0;
    while i < cache.len()
        invariant
            i <= cache.len(),
            match found {
                Some(k) => k < i && cache_lookup(cache@.take(i as int), commit@) == Some(
                    cache@[k as int].1,
                ),
                None => cache_lookup(cache@.take(i as int), commit@) is None,
            },
        decreases cache.len() - i,
    {
        assert(cache@.take(i + 1).drop_last() =~= cache@.take(i as int));
        if found.is_none() && cache[i].0 == *commit {
            found = Some(i);
        }
        i = i + 1;
    }
    assert(cache@.take(cache.len() as int) =~= cache@);
    found
}

/// Turns one fact into an anchored hunk, or into nothing where it is not
/// usable or its commit has no signature. The cache of signatures by commit
/// takes in the first signature of each commit.
fn process_blame_hunk<B: BufferSnapshot>(
    raw: &RawHunk,
    buffer: &B,
    signatures: &mut Vec<(String, Signature)>,
    Ghost(seen): Ghost<Seq<RawHunk>>,
) -> (r: Option<BlameHunk<B::Anchor>>)
    requires
        forall|c: Seq<char>| cache_lookup(old(signatures)@, c) == #[trigger] first_signature(seen, c),
    ensures
        forall|c: Seq<char>|
            cache_lookup(final(signatures)@, c) == #[trigger] first_signature(seen.push(*raw), c),
        attribute(seen.push(*raw)) == match r {
            Some(_) => attribute(seen).push(row_hunk(*raw, first_signature(seen.push(*raw), raw.commit_id@)->0)),
            None => attribute(seen),
        },
        r matches Some(a) ==> anchored_as(
            buffer,
            a,
            row_hunk(*raw, first_signature(seen.push(*raw), raw.commit_id@)->0),
        ),
        r matches Some(a) ==> point_le(buffer.point_of(a.buffer_range.start), buffer.point_of(a.buffer_range.end)),
        raw.commit_id@ == UNCOMMITTED_SHA@ ==> r is None && final(signatures)@ == old(signatures)@,
{
    let ghost all = seen.push(*raw);
    assert(all.drop_last() =~= seen);
    let uncommitted = String::from_str(UNCOMMITTED_SHA);
    let unusable = raw.commit_id == uncommitted || raw.lines_in_hunk == usize::MAX
        || raw.final_start_line == 0 || raw.final_start_line - 1 > u32::MAX as usize
        || raw.lines_in_hunk > u32::MAX as usize - (raw.final_start_line - 1);
    if unusable {
        assert(!usable(*raw));
        assert forall|c: Seq<char>| cache_lookup(signatures@, c) == #[trigger] first_signature(all, c) by {
            assert(cache_lookup(signatures@, c) == first_signature(seen, c));
        }
        return None;
    }
    let start_row = (raw.final_start_line - 1) as u32;
    let end_row = start_row + raw.lines_in_hunk as u32;
    let sig = match lookup_signature(signatures, &raw.commit_id) {
        Some(k) => {
            assert forall|c: Seq<char>| cache_lookup(signatures@, c) == #[trigger] first_signature(all, c) by {
                assert(cache_lookup(signatures@, c) == first_signature(seen, c));
            }
            assert(first_signature(seen, raw.commit_id@) == Some(signatures@[k as int].1));
            assert(first_signature(all, raw.commit_id@) == Some(signatures@[k as int].1));
            signatures[k].1.duplicate()
        },
        None => match &raw.signature {
            Some(s) => {
                let ghost before = signatures@;
                let entry = (raw.commit_id.clone(), s.duplicate());
                signatures.push(entry);
                assert forall|c: Seq<char>| cache_lookup(signatures@, c) == #[trigger] first_signature(all, c) by {
                    assert(signatures@.drop_last() =~= before);
                    assert(cache_lookup(before, c) == first_signature(seen, c));
                }
                assert(first_signature(seen, raw.commit_id@) is None);
                assert(first_signature(all, raw.commit_id@) == Some(*s));
                s.duplicate()
            },
            None => {
                assert forall|c: Seq<char>| cache_lookup(signatures@, c) == #[trigger] first_signature(all, c) by {
                    assert(cache_lookup(signatures@, c) == first_signature(seen, c));
                }
                return None;
            },
        },
    };
    assert(first_signature(all, raw.commit_id@) == Some(sig));
    let start = buffer.anchor_before(Point { row: start_row, column: 0 });
    let end = buffer.anchor_before(Point { row: end_row, column: 0 });
    proof {
        buffer.lemma_clip_monotone(Point { row: start_row, column: 0 }, Point { row: end_row, column: 0 });
    }
    Some(
        BlameHunk {
            buffer_range: Range { start, end },
            oid: raw.commit_id.clone(),
            name: sig.name,
            email: sig.email,
            time: sig.time,
        },
    )
}

/// The anchored hunks that the facts give, in their order.
pub fn build_hunks<B: BufferSnapshot>(raws: &Vec<RawHunk>, buffer: &B) -> (r: Vec<BlameHunk<B::Anchor>>)
    ensures
        r@.len() == attribute(raws@).len(),
        forall|i: int| 0 <= i < r@.len() ==> anchored_as(buffer, #[trigger] r@[i], attribute(raws@)[i]),
        forall|i: int|
            0 <= i < r@.len() ==> point_le(
                buffer.point_of((#[trigger] r@[i]).buffer_range.start),
                buffer.point_of(r@[i].buffer_range.end),
            ),
{
    let mut out: Vec<BlameHunk<B::Anchor>> = Vec::new();
    let mut signatures: Vec<(String, Signature)> = Vec::new();
    let mut i: usize = 0;
    while i < raws.len()
        invariant
            i <= raws.len(),
            forall|c: Seq<char>| cache_lookup(signatures@, c) == #[trigger] first_signature(raws@.take(i as int), c),
            out@.len() == attribute(raws@.take(i as int)).len(),
            forall|k: int| 0 <= k < out@.len() ==> anchored_as(buffer, #[trigger] out@[k], attribute(raws@.take(i as int))[k]),
            forall|k: int|
                0 <= k < out@.len() ==> point_le(
                    buffer.point_of((#[trigger] out@[k]).buffer_range.start),
                    buffer.point_of(out@[k].buffer_range.end),
                ),
        decreases raws.len() - i,
    {
        assert(raws@.take(i as int).push(raws@[i as int]) =~= raws@.take(i + 1));
        let h = process_blame_hunk(&raws[i], buffer, &mut signatures, Ghost(raws@.take(i as int)));
        match h {
            Some(a) => out.push(a),
            None => {},
        }
        i = i + 1;
    }
    assert(raws@.take(raws.len() as int) =~= raws@);
    out
}


/// The attribution of one buffer: hunks anchored in the buffer, kept in an
/// aggregation tree, and the version of the content they were computed for.
pub struct BufferBlame<A> {
    last_buffer_version: Option<u64>,
    tree: Option<HunkTree<A>>,
}

impl<A: Copy> BufferBlame<A> {
    /// The hunks of the index, in buffer order.
    pub closed spec fn hunks(&self) -> Seq<BlameHunk<A>> {
        match self.tree {
            Some(t) => t.items(),
            None => Seq::empty(),
        }
    }

    /// The content version that the last update was computed for.
    pub closed spec fn built_version(&self) -> Option<u64> {
        self.last_buffer_version
    }

    /// The summaries of the tree bound its hunks as `buffer` orders anchors.
    pub closed spec fn summaries_hold<B: BufferSnapshot<Anchor = A>>(&self, buffer: &B) -> bool {
        match self.tree {
            Some(t) => wf_tree(buffer, t),
            None => true,
        }
    }

    /// An index without hunks has nothing for its summaries to bound.
    pub proof fn lemma_empty_summaries_hold<B: BufferSnapshot<Anchor = A>>(&self, buffer: &B)
        requires
            self.hunks().len() == 0,
        ensures
            self.summaries_hold(buffer),
    {
        match self.tree {
            Some(t) => lemma_items_nonempty(t),
            None => {},
        }
    }

    /// Summaries that bound the hunks in one snapshot still bound them after
    /// the buffer is edited, since edits keep the order of anchors.
    pub proof fn lemma_summaries_survive_edits<B: BufferSnapshot<Anchor = A>>(
        &self,
        buffer: &B,
        later: &B,
    )
        requires
            self.summaries_hold(buffer),
            buffer.edited_into(later),
        ensures
            self.summaries_hold(later),
    {
        match self.tree {
            Some(t) => lemma_wf_after_edits(buffer, later, t),
            None => {},
        }
    }

    /// An index that holds no hunks and was built for no content.
    pub fn new() -> (r: Self)
        ensures
            r.hunks() == Seq::<BlameHunk<A>>::empty(),
            r.built_version() is None,
    {
        BufferBlame { last_buffer_version: None, tree: None }
    }

    pub fn is_empty(&self) -> (r: bool)
        ensures
            r == (self.hunks().len() == 0),
    {
        match &self.tree {
            Some(t) => {
                proof {
                    lemma_items_nonempty(*t);
                }
                false
            },
            None => true,
        }
    }

    /// Replaces the whole index with the hunks that the facts give for the
    /// content of `buffer`.
    pub fn update<B: BufferSnapshot<Anchor = A>>(&mut self, raws: &Vec<RawHunk>, buffer: &B)
        ensures
            final(self).summaries_hold(buffer),
            final(self).built_version() == Some(buffer.content_version()),
            final(self).hunks().len() == attribute(raws@).len(),
            forall|i: int|
                0 <= i < final(self).hunks().len() ==> anchored_as(
                    buffer,
                    #[trigger] final(self).hunks()[i],
                    attribute(raws@)[i],
                ),
            forall|i: int|
                0 <= i < final(self).hunks().len() ==> point_le(
                    buffer.point_of((#[trigger] final(self).hunks()[i]).buffer_range.start),
                    buffer.point_of(final(self).hunks()[i].buffer_range.end),
                ),
    {
        let hunks = build_hunks(raws, buffer);
        let ghost built = hunks@;
        let tree = if hunks.len() == 0 {
            None
        } else {
            Some(build_tree(hunks, buffer))
        };
        self.tree = tree;
        self.last_buffer_version = Some(buffer.version());
        assert(self.hunks() =~= built);
    }

    /// The hunks that meet the rows from `range.start` to `range.end`, as
    /// row ranges, in buffer order.
    pub fn hunks_in_row_range<B: BufferSnapshot<Anchor = A>>(&self, range: Range<u32>, buffer: &B) -> (r: Vec<BlameHunk<u32>>)
        requires
            self.summaries_hold(buffer),
        ensures
            r@ == meeting(
                buffer,
                self.hunks(),
                buffer.clip_point(Point { row: range.start, column: 0 }),
                buffer.clip_point(Point { row: range.end, column: 0 }),
            ).map_values(|h: BlameHunk<A>| resolved(buffer, h)),
    {
        let start = buffer.anchor_before(Point { row: range.start, column: 0 });
        let end = buffer.anchor_after(Point { row: range.end, column: 0 });
        self.hunks_intersecting_range(Range { start, end }, buffer)
    }

    /// The hunks that meet the range between two anchors (both ends
    /// included), as row ranges, in buffer order. A hunk whose end falls
    /// within a row takes that whole row in.
    pub fn hunks_intersecting_range<B: BufferSnapshot<Anchor = A>>(&self, range: Range<A>, buffer: &B) -> (r: Vec<
        BlameHunk<u32>,
    >)
        requires
            self.summaries_hold(buffer),
        ensures
            r@ == meeting(
                buffer,
                self.hunks(),
                buffer.point_of(range.start),
                buffer.point_of(range.end),
            ).map_values(|h: BlameHunk<A>| resolved(buffer, h)),
    {
        let mut found: Vec<BlameHunk<A>> = Vec::new();
        match &self.tree {
            Some(t) => collect_meeting(t, &range.start, &range.end, buffer, &mut found),
            None => {
                assert(found@ =~= meeting(
                    buffer,
                    self.hunks(),
                    buffer.point_of(range.start),
                    buffer.point_of(range.end),
                ));
            },
        }
        assert(found@ =~= meeting(
            buffer,
            self.hunks(),
            buffer.point_of(range.start),
            buffer.point_of(range.end),
        ));
        let mut anchors: Vec<A> = Vec::new();
        let mut i: usize = 0;
        while i < found.len()
            invariant
                i <= found.len(),
                anchors@.len() == 2 * i,
                forall|k: int|
                    0 <= k < i ==> anchors@[2 * k] == (#[trigger] found@[k]).buffer_range.start
                        && anchors@[2 * k + 1] == found@[k].buffer_range.end,
            decreases found.len() - i,
        {
            anchors.push(found[i].buffer_range.start);
            anchors.push(found[i].buffer_range.end);
            i = i + 1;
        }
        let points = buffer.points_for_anchors(&anchors);
        let n_points = points.len();
        let mut out: Vec<BlameHunk<u32>> = Vec::new();
        let mut j: usize = 0;
        while j < found.len()
            invariant
                j <= found.len(),
                n_points == points@.len(),
                anchors@.len() == 2 * found@.len(),
                points@.len() == anchors@.len(),
                forall|k: int| 0 <= k < points@.len() ==> points@[k] == buffer.point_of(#[trigger] anchors@[k]),
                forall|k: int|
                    0 <= k < found@.len() ==> anchors@[2 * k] == (#[trigger] found@[k]).buffer_range.start
                        && anchors@[2 * k + 1] == found@[k].buffer_range.end,
                out@ == found@.take(j as int).map_values(|h: BlameHunk<A>| resolved(buffer, h)),
            decreases found.len() - j,
        {
            let h = &found[j];
            let s = points[2 * j];
            let e = points[2 * j + 1];
            assert(s == buffer.point_of(anchors@[2 * j]));
            assert(e == buffer.point_of(anchors@[2 * j + 1]));
            let end_row = if e.column > 0 && e.row < u32::MAX {
                e.row + 1
            } else {
                e.row
            };
            assert(end_row == end_row_of(e));
            out.push(
                BlameHunk {
                    buffer_range: Range { start: s.row, end: end_row },
                    oid: h.oid.clone(),
                    name: clone_text(&h.name),
                    email: clone_text(&h.email),
                    time: h.time,
                },
            );
            proof {
                assert(found@.take(j + 1).drop_last() =~= found@.take(j as int));
                assert(out@ =~= found@.take(j + 1).map_values(|h: BlameHunk<A>| resolved(buffer, h)));
            }
            j = j + 1;
        }
        assert(found@.take(found@.len() as int) =~= found@);
        out
    }
}

proof fn lemma_items_nonempty<A>(t: HunkTree<A>)
    ensures
        t.items().len() > 0,
    decreases t,
{
    match t {
        HunkTree::Leaf(_) => {},
        HunkTree::Node(_, l, r) => {
            lemma_items_nonempty(*l);
        },
    }
}

} // verus!
