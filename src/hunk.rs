use vstd::prelude::*;

use core::ops::Range;

use crate::position::{point_lt, BufferSnapshot, Point};
use crate::scan::{chars_of, string_from_chars};
use crate::time::CommitTime;

verus! {

/// The rows `buffer_range` (as row numbers, or as anchors into a buffer)
/// last changed by commit `oid`, whose author signed with `name` and
/// `email` at `time`. `oid` is the commit id in hexadecimal.
#[derive(Debug, PartialEq, Eq)]
pub struct BlameHunk<T> {
    pub buffer_range: Range<T>,
    pub oid: String,
    pub name: Option<String>,
    pub email: Option<String>,
    pub time: CommitTime,
}

/// The author of a commit: name, email and time.
#[derive(Debug, PartialEq, Eq)]
pub struct Signature {
    pub name: Option<String>,
    pub email: Option<String>,
    pub time: CommitTime,
}

pub fn clone_text(s: &Option<String>) -> (r: Option<String>)
    ensures
        r == *s,
{
    match s {
        Some(t) => Some(t.clone()),
        None => None,
    }
}

impl Signature {
    pub fn duplicate(&self) -> (r: Signature)
        ensures
            r == *self,
    {
        Signature { name: clone_text(&self.name), email: clone_text(&self.email), time: self.time }
    }
}

impl<T: Copy> BlameHunk<T> {
    pub fn duplicate(&self) -> (r: BlameHunk<T>)
        ensures
            r == *self,
    {
        BlameHunk {
            buffer_range: Range { start: self.buffer_range.start, end: self.buffer_range.end },
            oid: self.oid.clone(),
            name: clone_text(&self.name),
            email: clone_text(&self.email),
            time: self.time,
        }
    }
}

impl<T> BlameHunk<T> {
    /// The first six characters of the commit id.
    pub fn short_blame(&self) -> (r: String)
        ensures
            r@ == self.oid@.take(if self.oid@.len() < 6 {
                self.oid@.len() as int
            } else {
                6
            }),
    {
        let chars = chars_of(self.oid.as_str());
        let n: usize = if chars.len() < 6 {
            chars.len()
        } else {
            6
        };
        let mut short: Vec<char> = Vec::new();
        let mut i: usize = 0;
        while i < n
            invariant
                n <= chars.len(),
                i <= n,
                short@ == chars@.take(i as int),
            decreases n - i,
        {
            short.push(chars[i]);
            i = i + 1;
            assert(short@ =~= chars@.take(i as int));
        }
        string_from_chars(&short)
    }
}

/// The row that ends a half-open range of whole lines reaching `p`: a point
/// within a row takes that whole row in.
pub open spec fn end_row_of(p: Point) -> u32 {
    if p.column > 0 && p.row < u32::MAX {
        (p.row + 1) as u32
    } else {
        p.row
    }
}

/// The row hunk that an anchored hunk resolves to in `buf`.
pub open spec fn resolved<B: BufferSnapshot>(buf: &B, h: BlameHunk<B::Anchor>) -> BlameHunk<u32> {
    BlameHunk {
        buffer_range: Range {
            start: buf.point_of(h.buffer_range.start).row,
            end: end_row_of(buf.point_of(h.buffer_range.end)),
        },
        oid: h.oid,
        name: h.name,
        email: h.email,
        time: h.time,
    }
}

/// Whether `h` meets the range from `start` to `end` (both ends included) in `buf`.
pub open spec fn meets<B: BufferSnapshot>(
    buf: &B,
    h: BlameHunk<B::Anchor>,
    start: Point,
    end: Point,
) -> bool {
    !point_lt(buf.point_of(h.buffer_range.end), start) && !point_lt(
        end,
        buf.point_of(h.buffer_range.start),
    )
}

/// The hunks of `s` that meet the range, in the order of `s`.
pub open spec fn meeting<B: BufferSnapshot>(
    buf: &B,
    s: Seq<BlameHunk<B::Anchor>>,
    start: Point,
    end: Point,
) -> Seq<BlameHunk<B::Anchor>>
    decreases s.len(),
{
    if s.len() == 0 {
        Seq::empty()
    } else if meets(buf, s.last(), start, end) {
        meeting(buf, s.drop_last(), start, end).push(s.last())
    } else {
        meeting(buf, s.drop_last(), start, end)
    }
}

pub proof fn lemma_meeting_concat<B: BufferSnapshot>(
    buf: &B,
    a: Seq<BlameHunk<B::Anchor>>,
    b: Seq<BlameHunk<B::Anchor>>,
    start: Point,
    end: Point,
)
    ensures
        meeting(buf, a + b, start, end) == meeting(buf, a, start, end) + meeting(buf, b, start, end),
    decreases b.len(),
{
    if b.len() == 0 {
        assert(a + b =~= a);
        assert(meeting(buf, a, start, end) + meeting(buf, b, start, end) =~= meeting(buf, a, start, end));
    } else {
        lemma_meeting_concat(buf, a, b.drop_last(), start, end);
        assert((a + b).drop_last() =~= a + b.drop_last());
        assert((a + b).last() == b.last());
        let ma = meeting(buf, a, start, end);
        let mb = meeting(buf, b.drop_last(), start, end);
        if meets(buf, b.last(), start, end) {
            assert(ma + mb.push(b.last()) =~= (ma + mb).push(b.last()));
        }
    }
}

pub proof fn lemma_meeting_none<B: BufferSnapshot>(
    buf: &B,
    s: Seq<BlameHunk<B::Anchor>>,
    start: Point,
    end: Point,
)
    requires
        forall|i: int| 0 <= i < s.len() ==> !meets(buf, #[trigger] s[i], start, end),
    ensures
        meeting(buf, s, start, end) == Seq::<BlameHunk<B::Anchor>>::empty(),
    decreases s.len(),
{
    if s.len() > 0 {
        assert(!meets(buf, s[s.len() - 1], start, end));
        lemma_meeting_none(buf, s.drop_last(), start, end);
    }
}

} // verus!
