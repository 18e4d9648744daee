use vstd::prelude::*;

use crate::blame::{anchored_as, attribute, first_signature, row_hunk, usable, BufferBlame, RawHunk};
use crate::hunk::{meeting, meets, resolved, BlameHunk};
use crate::incremental::UNCOMMITTED_SHA;
use crate::position::{point_le, point_lt, BufferSnapshot, Point};

use core::ops::Range;

verus! {

/// `index` holds what `update` gives for the facts `raws` and `buffer`.
pub open spec fn built_from<B: BufferSnapshot>(
    index: BufferBlame<B::Anchor>,
    raws: Seq<RawHunk>,
    buffer: &B,
) -> bool {
    &&& index.hunks().len() == attribute(raws).len()
    &&& forall|i: int|
        0 <= i < index.hunks().len() ==> anchored_as(buffer, #[trigger] index.hunks()[i], attribute(raws)[i])
}

/// What a query over the points `start` to `end` returns from `index`.
pub open spec fn query<B: BufferSnapshot>(
    index: BufferBlame<B::Anchor>,
    buffer: &B,
    start: Point,
    end: Point,
) -> Seq<BlameHunk<u32>> {
    meeting(buffer, index.hunks(), start, end).map_values(|h: BlameHunk<B::Anchor>| resolved(buffer, h))
}

/// Two anchored hunks that stand at the same points and carry the same commit.
pub open spec fn same_in<B: BufferSnapshot>(buffer: &B, a: BlameHunk<B::Anchor>, b: BlameHunk<B::Anchor>) -> bool {
    &&& buffer.point_of(a.buffer_range.start) == buffer.point_of(b.buffer_range.start)
    &&& buffer.point_of(a.buffer_range.end) == buffer.point_of(b.buffer_range.end)
    &&& a.oid == b.oid
    &&& a.name == b.name
    &&& a.email == b.email
    &&& a.time == b.time
}

proof fn lemma_meeting_same<B: BufferSnapshot>(
    buffer: &B,
    s: Seq<BlameHunk<B::Anchor>>,
    t: Seq<BlameHunk<B::Anchor>>,
    start: Point,
    end: Point,
)
    requires
        s.len() == t.len(),
        forall|i: int| 0 <= i < s.len() ==> same_in(buffer, #[trigger] s[i], t[i]),
    ensures
        meeting(buffer, s, start, end).map_values(|h: BlameHunk<B::Anchor>| resolved(buffer, h))
            == meeting(buffer, t, start, end).map_values(|h: BlameHunk<B::Anchor>| resolved(buffer, h)),
    decreases s.len(),
{
    if s.len() > 0 {
        let n = s.len() - 1;
        assert(same_in(buffer, s[n], t[n]));
        lemma_meeting_same(buffer, s.drop_last(), t.drop_last(), start, end);
        let ms = meeting(buffer, s.drop_last(), start, end);
        let mt = meeting(buffer, t.drop_last(), start, end);
        if meets(buffer, s.last(), start, end) {
            assert(resolved(buffer, s.last()) == resolved(buffer, t.last()));
            assert(ms.push(s.last()).map_values(|h: BlameHunk<B::Anchor>| resolved(buffer, h))
                =~= ms.map_values(|h: BlameHunk<B::Anchor>| resolved(buffer, h)).push(resolved(buffer, s.last())));
            assert(mt.push(t.last()).map_values(|h: BlameHunk<B::Anchor>| resolved(buffer, h))
                =~= mt.map_values(|h: BlameHunk<B::Anchor>| resolved(buffer, h)).push(resolved(buffer, t.last())));
        }
    }
}

/// Rebuilding an index from the same facts against the same buffer content
/// gives the same answer to every query, in content and in order.
pub proof fn lemma_rebuild_is_idempotent<B: BufferSnapshot>(
    first: BufferBlame<B::Anchor>,
    second: BufferBlame<B::Anchor>,
    raws: Seq<RawHunk>,
    buffer: &B,
    start: Point,
    end: Point,
)
    requires
        built_from(first, raws, buffer),
        built_from(second, raws, buffer),
    ensures
        query(first, buffer, start, end) == query(second, buffer, start, end),
{
    assert forall|i: int| 0 <= i < first.hunks().len() implies same_in(
        buffer,
        #[trigger] first.hunks()[i],
        second.hunks()[i],
    ) by {
        assert(anchored_as(buffer, first.hunks()[i], attribute(raws)[i]));
        assert(anchored_as(buffer, second.hunks()[i], attribute(raws)[i]));
    }
    lemma_meeting_same(buffer, first.hunks(), second.hunks(), start, end);
}

proof fn lemma_meeting_from<B: BufferSnapshot>(
    buffer: &B,
    s: Seq<BlameHunk<B::Anchor>>,
    start: Point,
    end: Point,
    j: int,
)
    requires
        0 <= j < meeting(buffer, s, start, end).len(),
    ensures
        exists|i: int| 0 <= i < s.len() && meeting(buffer, s, start, end)[j] == s[i],
    decreases s.len(),
{
    if s.len() > 0 {
        let prev = meeting(buffer, s.drop_last(), start, end);
        if j < prev.len() {
            lemma_meeting_from(buffer, s.drop_last(), start, end, j);
            let i = choose|i: int| 0 <= i < s.drop_last().len() && prev[j] == s.drop_last()[i];
            assert(meeting(buffer, s, start, end)[j] == s[i]);
        } else {
            assert(meeting(buffer, s, start, end)[j] == s[s.len() - 1]);
        }
    }
}

proof fn lemma_attribute_committed(raws: Seq<RawHunk>, i: int)
    requires
        0 <= i < attribute(raws).len(),
    ensures
        attribute(raws)[i].oid@ != UNCOMMITTED_SHA@,
    decreases raws.len(),
{
    if raws.len() > 0 {
        let prev = attribute(raws.drop_last());
        if i < prev.len() {
            lemma_attribute_committed(raws.drop_last(), i);
        }
    }
}

/// No hunk that a query returns carries the commit id of uncommitted lines.
pub proof fn lemma_no_uncommitted_results<B: BufferSnapshot>(
    index: BufferBlame<B::Anchor>,
    raws: Seq<RawHunk>,
    buffer: &B,
    start: Point,
    end: Point,
)
    requires
        built_from(index, raws, buffer),
    ensures
        forall|j: int|
            0 <= j < query(index, buffer, start, end).len() ==> (#[trigger] query(
                index,
                buffer,
                start,
                end,
            )[j]).oid@ != UNCOMMITTED_SHA@,
{
    assert forall|j: int| 0 <= j < query(index, buffer, start, end).len() implies (#[trigger] query(
        index,
        buffer,
        start,
        end,
    )[j]).oid@ != UNCOMMITTED_SHA@ by {
        lemma_meeting_from(buffer, index.hunks(), start, end, j);
        let i = choose|i: int|
            0 <= i < index.hunks().len() && meeting(buffer, index.hunks(), start, end)[j]
                == index.hunks()[i];
        assert(anchored_as(buffer, index.hunks()[i], attribute(raws)[i]));
        lemma_attribute_committed(raws, i);
    }
}

/// A query whose range lies wholly before every hunk, or wholly after every
/// hunk, returns nothing.
pub proof fn lemma_query_outside_is_empty<B: BufferSnapshot>(
    index: BufferBlame<B::Anchor>,
    buffer: &B,
    start: Point,
    end: Point,
)
    requires
        (forall|i: int|
            0 <= i < index.hunks().len() ==> point_lt(
                end,
                buffer.point_of(#[trigger] index.hunks()[i].buffer_range.start),
            )) || (forall|i: int|
            0 <= i < index.hunks().len() ==> point_lt(
                buffer.point_of(#[trigger] index.hunks()[i].buffer_range.end),
                start,
            )),
    ensures
        query(index, buffer, start, end).len() == 0,
{
    let s = index.hunks();
    assert forall|i: int| 0 <= i < s.len() implies !meets(buffer, #[trigger] s[i], start, end) by {
        assert(s[i] == index.hunks()[i]);
    }
    crate::hunk::lemma_meeting_none(buffer, s, start, end);
}

proof fn lemma_meeting_single<B: BufferSnapshot>(
    buffer: &B,
    s: Seq<BlameHunk<B::Anchor>>,
    k: int,
    start: Point,
    end: Point,
)
    requires
        0 <= k < s.len(),
        meets(buffer, s[k], start, end),
        forall|i: int| 0 <= i < s.len() && i != k ==> !meets(buffer, #[trigger] s[i], start, end),
    ensures
        meeting(buffer, s, start, end) == seq![s[k]],
    decreases s.len(),
{
    if k == s.len() - 1 {
        assert forall|i: int| 0 <= i < s.drop_last().len() implies !meets(
            buffer,
            #[trigger] s.drop_last()[i],
            start,
            end,
        ) by {
            assert(s.drop_last()[i] == s[i]);
        }
        crate::hunk::lemma_meeting_none(buffer, s.drop_last(), start, end);
        assert(meeting(buffer, s, start, end) =~= seq![s[k]]);
    } else {
        assert forall|i: int| 0 <= i < s.drop_last().len() && i != k implies !meets(
            buffer,
            #[trigger] s.drop_last()[i],
            start,
            end,
        ) by {
            assert(s.drop_last()[i] == s[i]);
        }
        assert(s.drop_last()[k] == s[k]);
        lemma_meeting_single(buffer, s.drop_last(), k, start, end);
        assert(!meets(buffer, s[s.len() - 1], start, end));
    }
}

/// A query over exactly the points of one hunk, which no other hunk reaches
/// (its end before the query's start, or its start after the query's end),
/// returns exactly that hunk.
pub proof fn lemma_query_exact_hunk<B: BufferSnapshot>(
    index: BufferBlame<B::Anchor>,
    buffer: &B,
    k: int,
)
    requires
        0 <= k < index.hunks().len(),
        !point_lt(
            buffer.point_of(index.hunks()[k].buffer_range.end),
            buffer.point_of(index.hunks()[k].buffer_range.start),
        ),
        forall|i: int|
            0 <= i < index.hunks().len() && i != k ==> point_lt(
                buffer.point_of(#[trigger] index.hunks()[i].buffer_range.end),
                buffer.point_of(index.hunks()[k].buffer_range.start),
            ) || point_lt(
                buffer.point_of(index.hunks()[k].buffer_range.end),
                buffer.point_of(index.hunks()[i].buffer_range.start),
            ),
    ensures
        query(
            index,
            buffer,
            buffer.point_of(index.hunks()[k].buffer_range.start),
            buffer.point_of(index.hunks()[k].buffer_range.end),
        ) == seq![resolved(buffer, index.hunks()[k])],
{
    let s = index.hunks();
    let start = buffer.point_of(s[k].buffer_range.start);
    let end = buffer.point_of(s[k].buffer_range.end);
    assert forall|i: int| 0 <= i < s.len() && i != k implies !meets(buffer, #[trigger] s[i], start, end) by {
        assert(s[i] == index.hunks()[i]);
    }
    lemma_meeting_single(buffer, s, k, start, end);
    assert(seq![s[k]].map_values(|h: BlameHunk<B::Anchor>| resolved(buffer, h)) =~= seq![resolved(buffer, s[k])]);
}

/// The rows of a fact, counted from zero.
pub open spec fn fact_rows(h: RawHunk) -> Range<u32> {
    Range {
        start: (h.final_start_line - 1) as u32,
        end: (h.final_start_line - 1 + h.lines_in_hunk) as u32,
    }
}

/// Facts that all denote rows and carry a signature.
pub open spec fn all_attributable(raws: Seq<RawHunk>) -> bool {
    forall|i: int| 0 <= i < raws.len() ==> usable(#[trigger] raws[i]) && raws[i].signature is Some
}

proof fn lemma_attribute_keeps_all(raws: Seq<RawHunk>)
    requires
        all_attributable(raws),
    ensures
        attribute(raws).len() == raws.len(),
        forall|i: int|
            0 <= i < raws.len() ==> (#[trigger] attribute(raws)[i]).oid == raws[i].commit_id
                && attribute(raws)[i].buffer_range == fact_rows(raws[i]),
    decreases raws.len(),
{
    if raws.len() > 0 {
        let prefix = raws.drop_last();
        assert forall|i: int| 0 <= i < prefix.len() implies usable(#[trigger] prefix[i])
            && prefix[i].signature is Some by {
            assert(prefix[i] == raws[i]);
        }
        lemma_attribute_keeps_all(prefix);
        let h = raws.last();
        assert(usable(raws[raws.len() - 1]) && raws[raws.len() - 1].signature is Some);
        assert(first_signature(raws, h.commit_id@) is Some);
        assert forall|i: int| 0 <= i < raws.len() implies (#[trigger] attribute(raws)[i]).oid
            == raws[i].commit_id && attribute(raws)[i].buffer_range == fact_rows(raws[i]) by {
            if i < prefix.len() {
                assert(attribute(raws)[i] == attribute(prefix)[i]);
                assert(prefix[i] == raws[i]);
            }
        }
    }
}

proof fn lemma_meeting_all<B: BufferSnapshot>(
    buffer: &B,
    s: Seq<BlameHunk<B::Anchor>>,
    start: Point,
    end: Point,
)
    requires
        forall|i: int| 0 <= i < s.len() ==> meets(buffer, #[trigger] s[i], start, end),
    ensures
        meeting(buffer, s, start, end) == s,
    decreases s.len(),
{
    if s.len() > 0 {
        assert(meets(buffer, s[s.len() - 1], start, end));
        assert forall|i: int| 0 <= i < s.drop_last().len() implies meets(
            buffer,
            #[trigger] s.drop_last()[i],
            start,
            end,
        ) by {
            assert(s.drop_last()[i] == s[i]);
        }
        lemma_meeting_all(buffer, s.drop_last(), start, end);
        assert(s.drop_last().push(s.last()) =~= s);
    }
}

/// Facts that all denote rows and carry a signature come back from a query
/// that every hunk meets in the order of the facts, each with its commit id
/// and with the row that the buffer places its first line at.
pub proof fn lemma_query_keeps_order<B: BufferSnapshot>(
    index: BufferBlame<B::Anchor>,
    raws: Seq<RawHunk>,
    buffer: &B,
    start: Point,
    end: Point,
)
    requires
        built_from(index, raws, buffer),
        all_attributable(raws),
        forall|i: int| 0 <= i < index.hunks().len() ==> meets(buffer, #[trigger] index.hunks()[i], start, end),
    ensures
        query(index, buffer, start, end).len() == raws.len(),
        forall|i: int|
            0 <= i < raws.len() ==> (#[trigger] query(index, buffer, start, end)[i]).oid
                == raws[i].commit_id && query(index, buffer, start, end)[i].buffer_range.start
                == buffer.clip_point(Point { row: (raws[i].final_start_line - 1) as u32, column: 0 }).row,
{
    lemma_attribute_keeps_all(raws);
    lemma_meeting_all(buffer, index.hunks(), start, end);
    assert forall|i: int| 0 <= i < raws.len() implies (#[trigger] query(index, buffer, start, end)[i]).oid
        == raws[i].commit_id && query(index, buffer, start, end)[i].buffer_range.start
        == buffer.clip_point(Point { row: (raws[i].final_start_line - 1) as u32, column: 0 }).row by {
        assert(anchored_as(buffer, index.hunks()[i], attribute(raws)[i]));
        assert(attribute(raws)[i].oid == raws[i].commit_id);
    }
}


/// Where the buffer has the rows of every fact, a query that every hunk
/// meets gives back each fact's commit id and exactly its rows, in order.
pub proof fn lemma_rows_round_trip<B: BufferSnapshot>(
    index: BufferBlame<B::Anchor>,
    raws: Seq<RawHunk>,
    buffer: &B,
    start: Point,
    end: Point,
)
    requires
        built_from(index, raws, buffer),
        all_attributable(raws),
        forall|i: int|
            0 <= i < raws.len() ==> buffer.holds(Point { row: (#[trigger] fact_rows(raws[i])).start, column: 0 })
                && buffer.holds(Point { row: fact_rows(raws[i]).end, column: 0 }),
        forall|i: int| 0 <= i < index.hunks().len() ==> meets(buffer, #[trigger] index.hunks()[i], start, end),
    ensures
        query(index, buffer, start, end).len() == raws.len(),
        forall|i: int|
            0 <= i < raws.len() ==> (#[trigger] query(index, buffer, start, end)[i]).oid
                == raws[i].commit_id && query(index, buffer, start, end)[i].buffer_range == fact_rows(raws[i]),
{
    lemma_attribute_keeps_all(raws);
    lemma_meeting_all(buffer, index.hunks(), start, end);
    assert forall|i: int| 0 <= i < raws.len() implies (#[trigger] query(index, buffer, start, end)[i]).oid
        == raws[i].commit_id && query(index, buffer, start, end)[i].buffer_range == fact_rows(raws[i]) by {
        let rows = fact_rows(raws[i]);
        assert(anchored_as(buffer, index.hunks()[i], attribute(raws)[i]));
        assert(attribute(raws)[i].buffer_range == rows);
        buffer.lemma_clip_held(Point { row: rows.start, column: 0 });
        buffer.lemma_clip_held(Point { row: rows.end, column: 0 });
    }
}

proof fn lemma_attribute_from(raws: Seq<RawHunk>, j: int)
    requires
        0 <= j < attribute(raws).len(),
    ensures
        exists|k: int|
            0 <= k < raws.len() && usable(raws[k]) && attribute(raws)[j].buffer_range.start == (
            #[trigger] raws[k]).final_start_line - 1,
    decreases raws.len(),
{
    let prev = attribute(raws.drop_last());
    if j < prev.len() {
        lemma_attribute_from(raws.drop_last(), j);
        let k = choose|k: int|
            0 <= k < raws.drop_last().len() && usable(raws.drop_last()[k])
                && prev[j].buffer_range.start == (#[trigger] raws.drop_last()[k]).final_start_line - 1;
        assert(raws.drop_last()[k] == raws[k]);
        assert(attribute(raws)[j] == prev[j]);
    } else {
        assert(usable(raws[raws.len() - 1]));
    }
}

/// The facts come in order of their first lines.
pub open spec fn ascending(raws: Seq<RawHunk>) -> bool {
    forall|i: int, j: int|
        0 <= i < j < raws.len() ==> (#[trigger] raws[i]).final_start_line <= (#[trigger] raws[j]).final_start_line
}

proof fn lemma_attribute_ascending(raws: Seq<RawHunk>)
    requires
        ascending(raws),
    ensures
        forall|i: int, j: int|
            0 <= i < j < attribute(raws).len() ==> (#[trigger] attribute(raws)[i]).buffer_range.start
                <= (#[trigger] attribute(raws)[j]).buffer_range.start,
    decreases raws.len(),
{
    if raws.len() > 0 {
        let prefix = raws.drop_last();
        assert(ascending(prefix)) by {
            assert forall|i: int, j: int| 0 <= i < j < prefix.len() implies (#[trigger] prefix[i]).final_start_line
                <= (#[trigger] prefix[j]).final_start_line by {
                assert(prefix[i] == raws[i] && prefix[j] == raws[j]);
            }
        }
        lemma_attribute_ascending(prefix);
        let prev = attribute(prefix);
        let all = attribute(raws);
        assert forall|i: int, j: int| 0 <= i < j < all.len() implies (#[trigger] all[i]).buffer_range.start
            <= (#[trigger] all[j]).buffer_range.start by {
            if j < prev.len() {
                assert(all[i] == prev[i] && all[j] == prev[j]);
            } else {
                let last = raws.last();
                assert(all[i] == prev[i]);
                lemma_attribute_from(prefix, i);
                let k = choose|k: int|
                    0 <= k < prefix.len() && usable(prefix[k]) && prev[i].buffer_range.start == (
                    #[trigger] prefix[k]).final_start_line - 1;
                assert(prefix[k] == raws[k]);
                assert(raws[k].final_start_line <= raws[raws.len() - 1].final_start_line);
            }
        }
    }
}

proof fn lemma_meeting_ascending<B: BufferSnapshot>(
    buffer: &B,
    s: Seq<BlameHunk<B::Anchor>>,
    start: Point,
    end: Point,
)
    requires
        forall|i: int, j: int|
            0 <= i < j < s.len() ==> point_le(
                buffer.point_of((#[trigger] s[i]).buffer_range.start),
                buffer.point_of((#[trigger] s[j]).buffer_range.start),
            ),
    ensures
        forall|i: int, j: int|
            0 <= i < j < meeting(buffer, s, start, end).len() ==> point_le(
                buffer.point_of((#[trigger] meeting(buffer, s, start, end)[i]).buffer_range.start),
                buffer.point_of((#[trigger] meeting(buffer, s, start, end)[j]).buffer_range.start),
            ),
    decreases s.len(),
{
    if s.len() > 0 {
        let prefix = s.drop_last();
        assert forall|i: int, j: int| 0 <= i < j < prefix.len() implies point_le(
            buffer.point_of((#[trigger] prefix[i]).buffer_range.start),
            buffer.point_of((#[trigger] prefix[j]).buffer_range.start),
        ) by {
            assert(prefix[i] == s[i] && prefix[j] == s[j]);
        }
        lemma_meeting_ascending(buffer, prefix, start, end);
        let prev = meeting(buffer, prefix, start, end);
        let m = meeting(buffer, s, start, end);
        if meets(buffer, s.last(), start, end) {
            assert forall|i: int, j: int| 0 <= i < j < m.len() implies point_le(
                buffer.point_of((#[trigger] m[i]).buffer_range.start),
                buffer.point_of((#[trigger] m[j]).buffer_range.start),
            ) by {
                assert(m[i] == prev[i]);
                if j < prev.len() {
                    assert(m[j] == prev[j]);
                } else {
                    lemma_meeting_from(buffer, prefix, start, end, i);
                    let k = choose|k: int| 0 <= k < prefix.len() && prev[i] == prefix[k];
                    assert(prefix[k] == s[k]);
                    assert(m[j] == s[s.len() - 1]);
                }
            }
        }
    }
}

/// Whatever the range, a query returns hunks in ascending row order when the
/// facts came in order of their first lines.
pub proof fn lemma_query_ascends<B: BufferSnapshot>(
    index: BufferBlame<B::Anchor>,
    raws: Seq<RawHunk>,
    buffer: &B,
    start: Point,
    end: Point,
)
    requires
        built_from(index, raws, buffer),
        ascending(raws),
    ensures
        forall|i: int, j: int|
            0 <= i < j < query(index, buffer, start, end).len() ==> (#[trigger] query(
                index,
                buffer,
                start,
                end,
            )[i]).buffer_range.start <= (#[trigger] query(index, buffer, start, end)[j]).buffer_range.start,
{
    let s = index.hunks();
    let a = attribute(raws);
    lemma_attribute_ascending(raws);
    assert forall|i: int, j: int| 0 <= i < j < s.len() implies point_le(
        buffer.point_of((#[trigger] s[i]).buffer_range.start),
        buffer.point_of((#[trigger] s[j]).buffer_range.start),
    ) by {
        assert(anchored_as(buffer, s[i], a[i]));
        assert(anchored_as(buffer, s[j], a[j]));
        assert(a[i].buffer_range.start <= a[j].buffer_range.start);
        buffer.lemma_clip_monotone(
            Point { row: a[i].buffer_range.start, column: 0 },
            Point { row: a[j].buffer_range.start, column: 0 },
        );
    }
    lemma_meeting_ascending(buffer, s, start, end);
    let m = meeting(buffer, s, start, end);
    let q = query(index, buffer, start, end);
    assert forall|i: int, j: int| 0 <= i < j < q.len() implies (#[trigger] q[i]).buffer_range.start
        <= (#[trigger] q[j]).buffer_range.start by {
        assert(q[i] == resolved(buffer, m[i]));
        assert(q[j] == resolved(buffer, m[j]));
        assert(point_le(buffer.point_of(m[i].buffer_range.start), buffer.point_of(m[j].buffer_range.start)));
    }
}

} // verus!
