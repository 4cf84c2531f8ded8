//! A lazy, stable merge of per-source record buffers into one sequence in
//! ascending timestamp order.
//!
//! Each source is a buffer that holds its newest record at the front, so a
//! source is read from the back. The two-way merge takes the right side's head
//! only when it is strictly older than the left side's; on equal timestamps the
//! left side goes first. Sources are composed by a left fold: the first two are
//! merged, the result is merged with the third, and so on.

use std::collections::VecDeque;
use vstd::prelude::*;
use crate::message::Message;

verus! {

/// The first `n` records of buffer `d`, read from the back: oldest first.
pub open spec fn oldest_first(d: Seq<Message>, n: int) -> Seq<Message> {
    Seq::new(n as nat, |k: int| d[n - 1 - k])
}

/// A whole buffer read from the back.
pub open spec fn ascending(d: Seq<Message>) -> Seq<Message> {
    oldest_first(d, d.len() as int)
}

/// The two-way merge.
pub open spec fn merge2(a: Seq<Message>, b: Seq<Message>) -> Seq<Message>
    decreases a.len() + b.len(),
{
    if a.len() == 0 {
        b
    } else if b.len() == 0 {
        a
    } else if b[0].timestamp < a[0].timestamp {
        seq![b[0]] + merge2(a, b.drop_first())
    } else {
        seq![a[0]] + merge2(a.drop_first(), b)
    }
}

/// The left fold of the two-way merge over a list of sources.
pub open spec fn merge_all(srcs: Seq<Seq<Message>>) -> Seq<Message>
    decreases srcs.len(),
{
    if srcs.len() == 0 {
        Seq::empty()
    } else {
        merge2(merge_all(srcs.drop_last()), srcs.last())
    }
}

/// Among the first `n` sources, the index of the first one whose head is
/// oldest, or -1 when they are all empty.
pub open spec fn pick(srcs: Seq<Seq<Message>>, n: int) -> int
    decreases n,
{
    if n <= 0 {
        -1
    } else {
        let p = pick(srcs, n - 1);
        if srcs[n - 1].len() == 0 {
            p
        } else if p == -1 {
            n - 1
        } else if srcs[n - 1][0].timestamp < srcs[p][0].timestamp {
            n - 1
        } else {
            p
        }
    }
}

/// Source `j` holds the oldest head, and no source before it holds a head as
/// old.
pub open spec fn is_first_oldest(srcs: Seq<Seq<Message>>, j: int) -> bool {
    &&& 0 <= j < srcs.len()
    &&& srcs[j].len() > 0
    &&& forall|i: int|
        0 <= i < j && #[trigger] srcs[i].len() > 0 ==> srcs[j][0].timestamp < srcs[i][0].timestamp
    &&& forall|i: int|
        j < i < srcs.len() && #[trigger] srcs[i].len() > 0 ==> srcs[j][0].timestamp
            <= srcs[i][0].timestamp
}

pub open spec fn all_empty(srcs: Seq<Seq<Message>>) -> bool {
    forall|i: int| 0 <= i < srcs.len() ==> #[trigger] srcs[i].len() == 0
}

proof fn lemma_merge2_right_empty(a: Seq<Message>, b: Seq<Message>)
    requires
        b.len() == 0,
    ensures
        merge2(a, b) == a,
{
    if a.len() == 0 {
        assert(a =~= b);
    }
}

pub proof fn lemma_merge_all_empty(srcs: Seq<Seq<Message>>)
    requires
        all_empty(srcs),
    ensures
        merge_all(srcs).len() == 0,
    decreases srcs.len(),
{
    if srcs.len() > 0 {
        let init = srcs.drop_last();
        assert(all_empty(init));
        lemma_merge_all_empty(init);
        assert(srcs.last().len() == 0);
    }
}

proof fn lemma_pick(srcs: Seq<Seq<Message>>, n: int)
    requires
        0 <= n <= srcs.len(),
    ensures
        pick(srcs, n) == -1 <==> all_empty(srcs.subrange(0, n)),
        pick(srcs, n) != -1 ==> is_first_oldest(srcs.subrange(0, n), pick(srcs, n)),
    decreases n,
{
    let sub = srcs.subrange(0, n);
    if n > 0 {
        lemma_pick(srcs, n - 1);
        let prev = srcs.subrange(0, n - 1);
        assert(prev =~= sub.drop_last());
        let p = pick(srcs, n - 1);
        assert forall|i: int| 0 <= i < n - 1 implies #[trigger] sub[i] == prev[i] by {}
        if pick(srcs, n) == -1 {
            assert forall|i: int| 0 <= i < sub.len() implies #[trigger] sub[i].len() == 0 by {
                if i < n - 1 {
                    assert(prev[i].len() == 0);
                }
            }
        } else {
            if p == -1 {
                assert(prev[0].len() == 0 || n - 1 == 0);
            }
            assert(!all_empty(sub)) by {
                let j = pick(srcs, n);
                assert(sub[j].len() > 0);
            }
        }
    } else {
        assert(all_empty(sub));
    }
}

/// The merge of all sources starts with the first oldest head, and goes on
/// as the merge of the sources with that head taken away.
proof fn lemma_merge_all_step(srcs: Seq<Seq<Message>>, j: int)
    requires
        is_first_oldest(srcs, j),
    ensures
        merge_all(srcs) == seq![srcs[j][0]] + merge_all(srcs.update(j, srcs[j].drop_first())),
    decreases srcs.len(),
{
    let n = srcs.len() as int;
    let init = srcs.drop_last();
    let last = srcs.last();
    let next = srcs.update(j, srcs[j].drop_first());
    let m = merge_all(init);
    if j == n - 1 {
        assert(next.drop_last() =~= init);
        assert(next.last() == last.drop_first());
        if all_empty(init) {
            lemma_merge_all_empty(init);
            assert(m =~= Seq::<Message>::empty());
            assert(merge_all(srcs) == merge2(m, last));
            assert(last =~= seq![last[0]] + last.drop_first());
        } else {
            lemma_pick(init, init.len() as int);
            assert(init.subrange(0, init.len() as int) =~= init);
            let p = pick(init, init.len() as int);
            lemma_merge_all_step(init, p);
            assert(init[p].len() > 0);
            assert(srcs[p] == init[p]);
            assert(m[0] == init[p][0]);
        }
    } else {
        assert(is_first_oldest(init, j)) by {
            assert forall|i: int| 0 <= i < init.len() implies #[trigger] init[i] == srcs[i] by {}
        }
        lemma_merge_all_step(init, j);
        let init2 = init.update(j, init[j].drop_first());
        assert(next.drop_last() =~= init2);
        assert(next.last() == last);
        if last.len() == 0 {
            lemma_merge2_right_empty(m, last);
            lemma_merge2_right_empty(merge_all(init2), last);
        } else {
            assert(srcs[n - 1].len() > 0);
            assert(m[0] == srcs[j][0]);
            assert((seq![srcs[j][0]] + merge_all(init2)).drop_first() =~= merge_all(init2));
        }
    }
}

/// Timestamps never decrease along `s`.
pub open spec fn is_ascending(s: Seq<Message>) -> bool {
    forall|i: int, j: int| 0 <= i < j < s.len() ==> s[i].timestamp <= s[j].timestamp
}

pub open spec fn all_ascending(srcs: Seq<Seq<Message>>) -> bool {
    forall|i: int| 0 <= i < srcs.len() ==> is_ascending(#[trigger] srcs[i])
}

/// How many times `x` occurs in `s`.
pub open spec fn count_of(s: Seq<Message>, x: Message) -> nat
    decreases s.len(),
{
    if s.len() == 0 {
        0
    } else {
        count_of(s.drop_last(), x) + if s.last() == x {
            1nat
        } else {
            0nat
        }
    }
}

/// How many times `x` occurs over all of `srcs`.
pub open spec fn count_in_all(srcs: Seq<Seq<Message>>, x: Message) -> nat
    decreases srcs.len(),
{
    if srcs.len() == 0 {
        0
    } else {
        count_in_all(srcs.drop_last(), x) + count_of(srcs.last(), x)
    }
}

/// The records of `s` stamped `t`, in their order in `s`.
pub open spec fn at_time(s: Seq<Message>, t: i64) -> Seq<Message>
    decreases s.len(),
{
    if s.len() == 0 {
        s
    } else {
        let r = at_time(s.drop_last(), t);
        if s.last().timestamp == t {
            r.push(s.last())
        } else {
            r
        }
    }
}

/// The records stamped `t` of each source, the sources taken in order.
pub open spec fn at_time_all(srcs: Seq<Seq<Message>>, t: i64) -> Seq<Message>
    decreases srcs.len(),
{
    if srcs.len() == 0 {
        Seq::empty()
    } else {
        at_time_all(srcs.drop_last(), t) + at_time(srcs.last(), t)
    }
}

pub proof fn lemma_split_first(a: Seq<Message>)
    requires
        a.len() > 0,
    ensures
        a == seq![a[0]] + a.drop_first(),
{
    assert(a =~= seq![a[0]] + a.drop_first());
}

proof fn lemma_merge2_lower_bound(a: Seq<Message>, b: Seq<Message>, t: int)
    requires
        forall|k: int| 0 <= k < a.len() ==> #[trigger] a[k].timestamp >= t,
        forall|k: int| 0 <= k < b.len() ==> #[trigger] b[k].timestamp >= t,
    ensures
        forall|k: int| 0 <= k < merge2(a, b).len() ==> #[trigger] merge2(a, b)[k].timestamp >= t,
    decreases a.len() + b.len(),
{
    if a.len() > 0 && b.len() > 0 {
        if b[0].timestamp < a[0].timestamp {
            lemma_merge2_lower_bound(a, b.drop_first(), t);
            let rest = merge2(a, b.drop_first());
            assert forall|k: int| 0 <= k < merge2(a, b).len() implies #[trigger] merge2(a, b)[k].timestamp >= t by {
                if k > 0 {
                    assert(merge2(a, b)[k] == rest[k - 1]);
                }
            }
        } else {
            lemma_merge2_lower_bound(a.drop_first(), b, t);
            let rest = merge2(a.drop_first(), b);
            assert forall|k: int| 0 <= k < merge2(a, b).len() implies #[trigger] merge2(a, b)[k].timestamp >= t by {
                if k > 0 {
                    assert(merge2(a, b)[k] == rest[k - 1]);
                }
            }
        }
    }
}

/// Merging two ascending sequences gives an ascending sequence.
pub proof fn lemma_merge2_ascending(a: Seq<Message>, b: Seq<Message>)
    requires
        is_ascending(a),
        is_ascending(b),
    ensures
        is_ascending(merge2(a, b)),
    decreases a.len() + b.len(),
{
    if a.len() > 0 && b.len() > 0 {
        let m = merge2(a, b);
        if b[0].timestamp < a[0].timestamp {
            let rest = merge2(a, b.drop_first());
            lemma_merge2_ascending(a, b.drop_first());
            lemma_merge2_lower_bound(a, b.drop_first(), b[0].timestamp as int);
            assert forall|i: int, j: int| 0 <= i < j < m.len() implies m[i].timestamp <= m[j].timestamp by {
                assert(m[j] == rest[j - 1]);
                if i > 0 {
                    assert(m[i] == rest[i - 1]);
                }
            }
        } else {
            let rest = merge2(a.drop_first(), b);
            lemma_merge2_ascending(a.drop_first(), b);
            lemma_merge2_lower_bound(a.drop_first(), b, a[0].timestamp as int);
            assert forall|i: int, j: int| 0 <= i < j < m.len() implies m[i].timestamp <= m[j].timestamp by {
                assert(m[j] == rest[j - 1]);
                if i > 0 {
                    assert(m[i] == rest[i - 1]);
                }
            }
        }
    }
}

/// The merge of ascending sources is ascending.
pub proof fn lemma_merge_all_ascending(srcs: Seq<Seq<Message>>)
    requires
        all_ascending(srcs),
    ensures
        is_ascending(merge_all(srcs)),
    decreases srcs.len(),
{
    if srcs.len() > 0 {
        let init = srcs.drop_last();
        assert(all_ascending(init)) by {
            assert forall|i: int| 0 <= i < init.len() implies is_ascending(#[trigger] init[i]) by {
                assert(init[i] == srcs[i]);
            }
        }
        lemma_merge_all_ascending(init);
        assert(is_ascending(srcs[srcs.len() - 1]));
        lemma_merge2_ascending(merge_all(init), srcs.last());
    }
}

pub proof fn lemma_count_concat(a: Seq<Message>, b: Seq<Message>, x: Message)
    ensures
        count_of(a + b, x) == count_of(a, x) + count_of(b, x),
    decreases b.len(),
{
    if b.len() == 0 {
        assert(a + b =~= a);
    } else {
        lemma_count_concat(a, b.drop_last(), x);
        assert((a + b).drop_last() =~= a + b.drop_last());
        assert((a + b).last() == b.last());
    }
}

/// The two-way merge neither drops nor adds a record.
pub proof fn lemma_merge2_counts(a: Seq<Message>, b: Seq<Message>, x: Message)
    ensures
        count_of(merge2(a, b), x) == count_of(a, x) + count_of(b, x),
    decreases a.len() + b.len(),
{
    if a.len() == 0 {
        assert(count_of(a, x) == 0);
    } else if b.len() == 0 {
        assert(count_of(b, x) == 0);
    } else if b[0].timestamp < a[0].timestamp {
        lemma_merge2_counts(a, b.drop_first(), x);
        lemma_count_concat(seq![b[0]], merge2(a, b.drop_first()), x);
        lemma_split_first(b);
        lemma_count_concat(seq![b[0]], b.drop_first(), x);
    } else {
        lemma_merge2_counts(a.drop_first(), b, x);
        lemma_count_concat(seq![a[0]], merge2(a.drop_first(), b), x);
        lemma_split_first(a);
        lemma_count_concat(seq![a[0]], a.drop_first(), x);
    }
}

/// The merge of all sources holds each record as often as the sources do
/// together.
pub proof fn lemma_merge_all_counts(srcs: Seq<Seq<Message>>, x: Message)
    ensures
        count_of(merge_all(srcs), x) == count_in_all(srcs, x),
    decreases srcs.len(),
{
    if srcs.len() > 0 {
        lemma_merge_all_counts(srcs.drop_last(), x);
        lemma_merge2_counts(merge_all(srcs.drop_last()), srcs.last(), x);
    }
}

proof fn lemma_at_time_concat(a: Seq<Message>, b: Seq<Message>, t: i64)
    ensures
        at_time(a + b, t) == at_time(a, t) + at_time(b, t),
    decreases b.len(),
{
    if b.len() == 0 {
        assert(a + b =~= a);
        assert(at_time(a, t) + at_time(b, t) =~= at_time(a, t));
    } else {
        lemma_at_time_concat(a, b.drop_last(), t);
        assert((a + b).drop_last() =~= a + b.drop_last());
        assert((a + b).last() == b.last());
        if b.last().timestamp == t {
            assert(at_time(a, t) + at_time(b.drop_last(), t).push(b.last()) =~= (at_time(a, t)
                + at_time(b.drop_last(), t)).push(b.last()));
        }
    }
}

proof fn lemma_at_time_later(a: Seq<Message>, t: i64)
    requires
        forall|k: int| 0 <= k < a.len() ==> #[trigger] a[k].timestamp > t,
    ensures
        at_time(a, t).len() == 0,
    decreases a.len(),
{
    if a.len() > 0 {
        lemma_at_time_later(a.drop_last(), t);
        assert(a.last().timestamp > t);
    }
}

proof fn lemma_at_time_single(x: Message, t: i64)
    ensures
        at_time(seq![x], t) == (if x.timestamp == t {
            seq![x]
        } else {
            Seq::<Message>::empty()
        }),
{
    let s = seq![x];
    assert(s.drop_last() =~= Seq::<Message>::empty());
    assert(at_time(s.drop_last(), t).len() == 0);
    assert(at_time(s.drop_last(), t).push(x) =~= seq![x]);
}

/// Stability of the two-way merge: among records of one timestamp, those of
/// the left side come first, each side in its own order.
pub proof fn lemma_merge2_stable(a: Seq<Message>, b: Seq<Message>, t: i64)
    requires
        is_ascending(a),
        is_ascending(b),
    ensures
        at_time(merge2(a, b), t) == at_time(a, t) + at_time(b, t),
    decreases a.len() + b.len(),
{
    if a.len() == 0 {
        assert(at_time(a, t).len() == 0);
        assert(at_time(a, t) + at_time(b, t) =~= at_time(b, t));
    } else if b.len() == 0 {
        assert(at_time(b, t).len() == 0);
        assert(at_time(a, t) + at_time(b, t) =~= at_time(a, t));
    } else if b[0].timestamp < a[0].timestamp {
        let b1 = b.drop_first();
        lemma_merge2_stable(a, b1, t);
        lemma_at_time_concat(seq![b[0]], merge2(a, b1), t);
        lemma_split_first(b);
        lemma_at_time_concat(seq![b[0]], b1, t);
        lemma_at_time_single(b[0], t);
        if b[0].timestamp == t {
            assert forall|k: int| 0 <= k < a.len() implies #[trigger] a[k].timestamp > t by {
                assert(a[0].timestamp <= a[k].timestamp);
            }
            lemma_at_time_later(a, t);
            assert(at_time(a, t) =~= Seq::<Message>::empty());
            assert(seq![b[0]] + (at_time(a, t) + at_time(b1, t)) =~= at_time(a, t) + (seq![b[0]]
                + at_time(b1, t)));
        } else {
            assert(Seq::<Message>::empty() + (at_time(a, t) + at_time(b1, t)) =~= at_time(a, t)
                + (Seq::<Message>::empty() + at_time(b1, t)));
        }
    } else {
        let a1 = a.drop_first();
        assert(is_ascending(a1));
        lemma_merge2_stable(a1, b, t);
        lemma_at_time_concat(seq![a[0]], merge2(a1, b), t);
        lemma_split_first(a);
        lemma_at_time_concat(seq![a[0]], a1, t);
        assert(at_time(seq![a[0]], t) + (at_time(a1, t) + at_time(b, t)) =~= (at_time(seq![a[0]], t)
            + at_time(a1, t)) + at_time(b, t));
    }
}

/// Stability of the whole merge: among records of one timestamp, those of an
/// earlier source come first, each source in its own order.
pub proof fn lemma_merge_all_stable(srcs: Seq<Seq<Message>>, t: i64)
    requires
        all_ascending(srcs),
    ensures
        at_time(merge_all(srcs), t) == at_time_all(srcs, t),
    decreases srcs.len(),
{
    if srcs.len() > 0 {
        let init = srcs.drop_last();
        assert(all_ascending(init)) by {
            assert forall|i: int| 0 <= i < init.len() implies is_ascending(#[trigger] init[i]) by {
                assert(init[i] == srcs[i]);
            }
        }
        lemma_merge_all_stable(init, t);
        lemma_merge_all_ascending(init);
        assert(is_ascending(srcs[srcs.len() - 1]));
        lemma_merge2_stable(merge_all(init), srcs.last(), t);
    }
}

/// How many records the sources hold together.
pub open spec fn total_len(srcs: Seq<Seq<Message>>) -> nat
    decreases srcs.len(),
{
    if srcs.len() == 0 {
        0
    } else {
        total_len(srcs.drop_last()) + srcs.last().len()
    }
}

proof fn lemma_merge2_len(a: Seq<Message>, b: Seq<Message>)
    ensures
        merge2(a, b).len() == a.len() + b.len(),
    decreases a.len() + b.len(),
{
    if a.len() > 0 && b.len() > 0 {
        if b[0].timestamp < a[0].timestamp {
            lemma_merge2_len(a, b.drop_first());
        } else {
            lemma_merge2_len(a.drop_first(), b);
        }
    }
}

/// The merge yields as many records as the sources hold.
pub proof fn lemma_merge_all_len(srcs: Seq<Seq<Message>>)
    ensures
        merge_all(srcs).len() == total_len(srcs),
    decreases srcs.len(),
{
    if srcs.len() > 0 {
        lemma_merge_all_len(srcs.drop_last());
        lemma_merge2_len(merge_all(srcs.drop_last()), srcs.last());
    }
}

/// A lazy merge over borrowed record buffers.
pub struct MergeAscending<'a> {
    sources: Vec<&'a VecDeque<Message>>,
    left: Vec<usize>,
}

impl<'a> MergeAscending<'a> {
    /// The cursors stay within their buffers.
    pub closed spec fn wf(self) -> bool {
        &&& self.sources.len() == self.left.len()
        &&& forall|i: int| 0 <= i < self.left.len() ==> #[trigger] self.left[i] <= self.sources[i]@.len()
    }

    spec fn pending(self) -> Seq<Seq<Message>> {
        Seq::new(self.sources.len() as nat, |i: int| oldest_first(self.sources[i]@, self.left[i] as int))
    }

    /// What the merge has yet to yield, in order.
    pub closed spec fn rest(self) -> Seq<Message> {
        merge_all(self.pending())
    }

    /// The merge of two buffers.
    pub fn new(left: &'a VecDeque<Message>, right: &'a VecDeque<Message>) -> (r: MergeAscending<'a>)
        ensures
            r.wf(),
            r.rest() == merge2(ascending(left@), ascending(right@)),
    {
        let r = MergeAscending::empty();
        let r = r.merge_with(left);
        let r = r.merge_with(right);
        proof {
            assert(merge2(Seq::empty(), ascending(left@)) == ascending(left@));
        }
        r
    }

    /// The merge of no buffers.
    pub fn empty() -> (r: MergeAscending<'a>)
        ensures
            r.wf(),
            r.rest() == Seq::<Message>::empty(),
    {
        let r = MergeAscending { sources: Vec::new(), left: Vec::new() };
        proof {
            assert(r.pending() =~= Seq::<Seq<Message>>::empty());
        }
        r
    }

    /// This merge merged in turn with one more buffer.
    pub fn merge_with(self, next: &'a VecDeque<Message>) -> (r: MergeAscending<'a>)
        requires
            self.wf(),
        ensures
            r.wf(),
            r.rest() == merge2(self.rest(), ascending(next@)),
    {
        let ghost before = self.pending();
        let MergeAscending { mut sources, mut left } = self;
        let n = next.len();
        sources.push(next);
        left.push(n);
        let r = MergeAscending { sources, left };
        proof {
            assert(r.pending().drop_last() =~= before);
            assert(r.pending().last() =~= ascending(next@));
        }
        r
    }

    /// Yields the oldest record not yet yielded, or `None` when every buffer
    /// is drained.
    pub fn next(&mut self) -> (r: Option<&'a Message>)
        requires
            old(self).wf(),
        ensures
            final(self).wf(),
            old(self).rest().len() == 0 ==> r is None && final(self).rest() == old(self).rest(),
            old(self).rest().len() > 0 ==> (r matches Some(m) && *m == old(self).rest()[0]),
            old(self).rest().len() > 0 ==> final(self).rest() == old(self).rest().drop_first(),
    {
        let ghost srcs = self.pending();
        let mut best: usize = 0;
        let mut found = false;
        let mut i: usize = 0;
        while i < self.sources.len()
            invariant
                srcs == self.pending(),
                self.sources.len() == self.left.len(),
                forall|k: int| 0 <= k < self.left.len() ==> #[trigger] self.left[k] <= self.sources[k]@.len(),
                i <= self.sources.len(),
                found ==> pick(srcs, i as int) == best as int,
                found ==> best < i && self.left[best as int] > 0,
                !found ==> pick(srcs, i as int) == -1,
            decreases self.sources.len() - i,
        {
            let n = self.left[i];
            if n > 0 {
                let head = &self.sources[i][n - 1];
                proof {
                    assert(srcs[i as int][0] == *head);
                }
                if !found {
                    best = i;
                    found = true;
                } else {
                    let bn = self.left[best];
                    let cur = &self.sources[best][bn - 1];
                    proof {
                        assert(srcs[best as int][0] == *cur);
                    }
                    if head.timestamp < cur.timestamp {
                        best = i;
                    }
                }
            }
            i = i + 1;
        }
        proof {
            lemma_pick(srcs, srcs.len() as int);
            assert(srcs.subrange(0, srcs.len() as int) =~= srcs);
        }
        if !found {
            proof {
                lemma_merge_all_empty(srcs);
            }
            None
        } else {
            let n = self.left[best];
            let src: &'a VecDeque<Message> = self.sources[best];
            let item: &'a Message = &src[n - 1];
            proof {
                lemma_merge_all_step(srcs, best as int);
            }
            let ghost d = self.sources[best as int]@;
            self.left.set(best, n - 1);
            proof {
                let next = srcs.update(best as int, srcs[best as int].drop_first());
                assert(oldest_first(d, n - 1) =~= srcs[best as int].drop_first());
                assert forall|k: int| 0 <= k < srcs.len() implies #[trigger] self.pending()[k] == next[k] by {
                    if k != best as int {
                        assert(self.left[k] == old(self).left[k]);
                    }
                }
                assert(self.pending() =~= next);
                assert((seq![srcs[best as int][0]] + merge_all(next)).drop_first() =~= merge_all(next));
            }
            Some(item)
        }
    }
}

} // verus!
