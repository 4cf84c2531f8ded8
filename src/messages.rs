//! The store: records grouped into buckets by (level, source), each bucket
//! newest first, with a byte budget enforced on insertion.

use std::collections::VecDeque;
use vstd::prelude::*;
use crate::level::{Level, LevelMask};
use crate::merge::{
    MergeAscending, merge_all, ascending, is_ascending, all_ascending, count_of, count_in_all,
    lemma_merge_all_ascending, lemma_merge_all_counts, lemma_merge_all_empty, lemma_count_concat,
    all_empty, total_len, lemma_merge_all_len,
};
use crate::message::{Message, record_cost};

verus! {

/// The budget a store is given by default, in bytes.
pub const DEFAULT_BUDGET: u64 = 1_000_000_000;

/// One bucket as a mathematical value.
pub struct BucketModel {
    pub level: Level,
    pub source: Seq<char>,
    /// Newest first.
    pub records: Seq<Message>,
}

/// A store as a mathematical value.
pub struct StoreModel {
    pub buckets: Seq<BucketModel>,
    pub budget: nat,
}

/// The summed cost of the records of `rs`.
pub open spec fn seq_cost(rs: Seq<Message>) -> nat
    decreases rs.len(),
{
    if rs.len() == 0 {
        0
    } else {
        seq_cost(rs.drop_last()) + record_cost(rs.last())
    }
}

/// How many records the buckets hold together.
pub open spec fn total_count(bs: Seq<BucketModel>) -> nat
    decreases bs.len(),
{
    if bs.len() == 0 {
        0
    } else {
        total_count(bs.drop_last()) + bs.last().records.len()
    }
}

/// What the records of the buckets cost together.
pub open spec fn total_size(bs: Seq<BucketModel>) -> nat
    decreases bs.len(),
{
    if bs.len() == 0 {
        0
    } else {
        total_size(bs.drop_last()) + seq_cost(bs.last().records)
    }
}

/// How many of the buckets hold at least one record.
pub open spec fn nonempty_buckets(bs: Seq<BucketModel>) -> nat
    decreases bs.len(),
{
    if bs.len() == 0 {
        0
    } else {
        nonempty_buckets(bs.drop_last()) + if bs.last().records.len() > 0 {
            1nat
        } else {
            0nat
        }
    }
}

pub open spec fn has_key(b: BucketModel, level: Level, source: Seq<char>) -> bool {
    b.level == level && b.source == source
}

/// Among the first `n` buckets, the index of the first with the given key,
/// or -1.
pub open spec fn find_key(bs: Seq<BucketModel>, level: Level, source: Seq<char>, n: int) -> int
    decreases n,
{
    if n <= 0 {
        -1
    } else {
        let p = find_key(bs, level, source, n - 1);
        if p != -1 {
            p
        } else if has_key(bs[n - 1], level, source) {
            n - 1
        } else {
            -1
        }
    }
}

/// The index of the bucket for `level` and `source`, or -1.
pub open spec fn bucket_of(bs: Seq<BucketModel>, level: Level, source: Seq<char>) -> int {
    find_key(bs, level, source, bs.len() as int)
}

/// A bucket with its oldest record, if any, taken away.
pub open spec fn without_oldest(b: BucketModel) -> BucketModel {
    BucketModel {
        level: b.level,
        source: b.source,
        records: if b.records.len() > 0 {
            b.records.drop_last()
        } else {
            b.records
        },
    }
}

/// Every bucket with its oldest record taken away.
pub open spec fn evict_one_per_bucket(bs: Seq<BucketModel>) -> Seq<BucketModel> {
    Seq::new(bs.len(), |i: int| without_oldest(bs[i]))
}

/// The buckets with `m` pushed at the front of its bucket, the bucket made
/// at the end if there was none.
pub open spec fn insert_record(bs: Seq<BucketModel>, m: Message) -> Seq<BucketModel> {
    let i = bucket_of(bs, m.level, m.system@);
    if i >= 0 {
        bs.update(
            i,
            BucketModel { level: bs[i].level, source: bs[i].source, records: seq![m] + bs[i].records },
        )
    } else {
        bs.push(BucketModel { level: m.level, source: m.system@, records: seq![m] })
    }
}

/// Whether a store over its budget evicts before taking one more record.
pub open spec fn over_budget(s: StoreModel) -> bool {
    total_size(s.buckets) > s.budget
}

/// The store after `put(m)`: when its size exceeds the budget, one oldest
/// record leaves every non-empty bucket; then `m` is pushed at the front of
/// its bucket.
pub open spec fn put_model(s: StoreModel, m: Message) -> StoreModel {
    StoreModel {
        buckets: insert_record(
            if over_budget(s) {
                evict_one_per_bucket(s.buckets)
            } else {
                s.buckets
            },
            m,
        ),
        budget: s.budget,
    }
}

/// The store after the records of `rs` were put in turn.
pub open spec fn put_all(s: StoreModel, rs: Seq<Message>) -> StoreModel
    decreases rs.len(),
{
    if rs.len() == 0 {
        s
    } else {
        put_model(put_all(s, rs.drop_last()), rs.last())
    }
}

/// The records of the buckets in the order a drain puts them elsewhere:
/// bucket by bucket, each from its oldest record to its newest.
pub open spec fn drain_order(bs: Seq<BucketModel>) -> Seq<Message>
    decreases bs.len(),
{
    if bs.len() == 0 {
        Seq::empty()
    } else {
        drain_order(bs.drop_last()) + ascending(bs.last().records)
    }
}

/// An empty store with the given budget.
pub open spec fn empty_store(budget: nat) -> StoreModel {
    StoreModel { buckets: Seq::empty(), budget }
}

/// The store after `clear`: no buckets, the same budget.
pub open spec fn cleared(s: StoreModel) -> StoreModel {
    empty_store(s.budget)
}

/// Keys are unique, and every record sits in the bucket of its own level and
/// source.
pub open spec fn buckets_wf(bs: Seq<BucketModel>) -> bool {
    &&& forall|i: int, j: int|
        0 <= i < j < bs.len() ==> !has_key(#[trigger] bs[i], #[trigger] bs[j].level, bs[j].source)
    &&& forall|i: int, k: int|
        0 <= i < bs.len() && 0 <= k < bs[i].records.len() ==> has_key(
            bs[i],
            #[trigger] bs[i].records[k].level,
            bs[i].records[k].system@,
        )
}

/// The buckets of the levels in `mask`, in bucket order, each read oldest
/// first.
pub open spec fn selected(bs: Seq<BucketModel>, mask: LevelMask) -> Seq<Seq<Message>>
    decreases bs.len(),
{
    if bs.len() == 0 {
        Seq::empty()
    } else {
        let s = selected(bs.drop_last(), mask);
        if mask.shows(bs.last().level) {
            s.push(ascending(bs.last().records))
        } else {
            s
        }
    }
}

/// What iterating the store under `mask` yields: the merge of the selected
/// buckets.
pub open spec fn iteration(s: StoreModel, mask: LevelMask) -> Seq<Message> {
    merge_all(selected(s.buckets, mask))
}

proof fn lemma_seq_cost_concat(a: Seq<Message>, b: Seq<Message>)
    ensures
        seq_cost(a + b) == seq_cost(a) + seq_cost(b),
    decreases b.len(),
{
    if b.len() == 0 {
        assert(a + b =~= a);
    } else {
        lemma_seq_cost_concat(a, b.drop_last());
        assert((a + b).drop_last() =~= a + b.drop_last());
    }
}

proof fn lemma_seq_cost_front(m: Message, rs: Seq<Message>)
    ensures
        seq_cost(seq![m] + rs) == record_cost(m) + seq_cost(rs),
{
    lemma_seq_cost_concat(seq![m], rs);
    assert(seq![m].drop_last() =~= Seq::<Message>::empty());
    assert(seq_cost(seq![m]) == seq_cost(seq![m].drop_last()) + record_cost(m));
}

proof fn lemma_find_key_stays(bs: Seq<BucketModel>, level: Level, source: Seq<char>, k: int, n: int)
    requires
        0 <= k <= n,
        find_key(bs, level, source, k) != -1,
    ensures
        find_key(bs, level, source, n) == find_key(bs, level, source, k),
    decreases n - k,
{
    if n > k {
        lemma_find_key_stays(bs, level, source, k, n - 1);
    }
}

proof fn lemma_totals_update(bs: Seq<BucketModel>, i: int, b: BucketModel)
    requires
        0 <= i < bs.len(),
    ensures
        total_size(bs.update(i, b)) + seq_cost(bs[i].records) == total_size(bs) + seq_cost(b.records),
        total_count(bs.update(i, b)) + bs[i].records.len() == total_count(bs) + b.records.len(),
        nonempty_buckets(bs.update(i, b)) + (if bs[i].records.len() > 0 { 1int } else { 0int })
            == nonempty_buckets(bs) + (if b.records.len() > 0 { 1int } else { 0int }),
    decreases bs.len(),
{
    let u = bs.update(i, b);
    if i == bs.len() - 1 {
        assert(u.drop_last() =~= bs.drop_last());
    } else {
        lemma_totals_update(bs.drop_last(), i, b);
        assert(u.drop_last() =~= bs.drop_last().update(i, b));
    }
}

proof fn lemma_bucket_bounds(bs: Seq<BucketModel>, i: int)
    requires
        0 <= i < bs.len(),
    ensures
        seq_cost(bs[i].records) <= total_size(bs),
        bs[i].records.len() <= total_count(bs),
    decreases bs.len(),
{
    if i < bs.len() - 1 {
        lemma_bucket_bounds(bs.drop_last(), i);
    }
}

proof fn lemma_find_key(bs: Seq<BucketModel>, level: Level, source: Seq<char>, n: int)
    requires
        0 <= n <= bs.len(),
    ensures
        find_key(bs, level, source, n) == -1 ==> forall|k: int|
            0 <= k < n ==> !has_key(#[trigger] bs[k], level, source),
        find_key(bs, level, source, n) != -1 ==> 0 <= find_key(bs, level, source, n) < n
            && has_key(bs[find_key(bs, level, source, n)], level, source),
        find_key(bs, level, source, n) != -1 ==> forall|k: int|
            0 <= k < find_key(bs, level, source, n) ==> !has_key(#[trigger] bs[k], level, source),
    decreases n,
{
    if n > 0 {
        lemma_find_key(bs, level, source, n - 1);
    }
}

/// One bucket of the store: the records of one level and one source, newest
/// at the front.
pub struct Bucket {
    level: Level,
    source: String,
    records: VecDeque<Message>,
}

impl Bucket {
    pub closed spec fn model(self) -> BucketModel {
        BucketModel { level: self.level, source: self.source@, records: self.records@ }
    }
}

/// The store of records.
pub struct Messages {
    buckets: Vec<Bucket>,
    count: usize,
    size: u64,
    budget: u64,
}

impl View for Messages {
    type V = StoreModel;

    closed spec fn view(&self) -> StoreModel {
        StoreModel {
            buckets: Seq::new(self.buckets.len() as nat, |i: int| self.buckets[i].model()),
            budget: self.budget as nat,
        }
    }
}

impl Messages {
    /// The counters agree with the buckets, and the buckets are well formed.
    pub closed spec fn wf(&self) -> bool {
        &&& buckets_wf(self@.buckets)
        &&& self.count == total_count(self@.buckets)
        &&& self.size == total_size(self@.buckets)
    }

    /// A well-formed store has well-formed buckets.
    pub proof fn lemma_wf(&self)
        requires
            self.wf(),
        ensures
            buckets_wf(self@.buckets),
    {
    }

    /// An empty store with the default budget.
    pub fn new() -> (r: Messages)
        ensures
            r.wf(),
            r@ == empty_store(DEFAULT_BUDGET as nat),
    {
        Messages::with_budget(DEFAULT_BUDGET)
    }

    /// An empty store with the given budget.
    pub fn with_budget(budget: u64) -> (r: Messages)
        ensures
            r.wf(),
            r@ == empty_store(budget as nat),
    {
        let r = Messages { buckets: Vec::new(), count: 0, size: 0, budget };
        proof {
            assert(r@.buckets =~= Seq::<BucketModel>::empty());
        }
        r
    }

    /// How many records the store holds.
    pub fn count(&self) -> (r: usize)
        requires
            self.wf(),
        ensures
            r == total_count(self@.buckets),
    {
        self.count
    }

    /// What the records of the store cost together.
    pub fn size(&self) -> (r: u64)
        requires
            self.wf(),
        ensures
            r == total_size(self@.buckets),
    {
        self.size
    }

    pub fn budget(&self) -> (r: u64)
        ensures
            r == self@.budget,
    {
        self.budget
    }

    /// Drops every bucket.
    pub fn clear(&mut self)
        ensures
            final(self).wf(),
            final(self)@ == cleared(old(self)@),
    {
        self.buckets = Vec::new();
        self.count = 0;
        self.size = 0;
        proof {
            assert(self@.buckets =~= Seq::<BucketModel>::empty());
        }
    }

    /// Takes the oldest record out of every non-empty bucket.
    pub fn evict_one_per_bucket(&mut self)
        requires
            old(self).wf(),
        ensures
            final(self).wf(),
            final(self)@ == (StoreModel {
                buckets: evict_one_per_bucket(old(self)@.buckets),
                budget: old(self)@.budget,
            }),
    {
        let ghost orig = self@.buckets;
        let mut i: usize = 0;
        while i < self.buckets.len()
            invariant
                orig.len() == self.buckets.len(),
                i <= self.buckets.len(),
                self.budget == old(self).budget,
                buckets_wf(orig),
                forall|k: int| 0 <= k < i ==> #[trigger] self@.buckets[k] == without_oldest(orig[k]),
                forall|k: int| i <= k < orig.len() ==> #[trigger] self@.buckets[k] == orig[k],
                self.count == total_count(self@.buckets),
                self.size == total_size(self@.buckets),
            decreases self.buckets.len() - i,
        {
            let ghost before = self@.buckets;
            let mut b = self.buckets.remove(i);
            let popped = b.records.pop_back();
            match popped {
                None => {},
                Some(m) => {
                    proof {
                        let rs = before[i as int].records;
                        assert(rs.drop_last() =~= b.records@);
                        assert(seq_cost(rs) == seq_cost(b.records@) + record_cost(m));
                        lemma_bucket_bounds(before, i as int);
                        lemma_totals_update(before, i as int, b.model());
                    }
                    let c = m.byte_cost().unwrap();
                    self.size = self.size - c;
                    self.count = self.count - 1;
                },
            }
            self.buckets.insert(i, b);
            proof {
                assert(self@.buckets =~= before.update(i as int, b.model()));
                if popped is None {
                    assert(before.update(i as int, b.model()) =~= before);
                }
            }
            i = i + 1;
        }
        proof {
            assert(self@.buckets =~= evict_one_per_bucket(orig));
            let e = evict_one_per_bucket(orig);
            assert forall|j: int, k: int|
                0 <= j < e.len() && 0 <= k < e[j].records.len() implies has_key(
                e[j],
                #[trigger] e[j].records[k].level,
                e[j].records[k].system@,
            ) by {
                assert(e[j].records[k] == orig[j].records[k]);
            }
        }
    }

    /// Index of the bucket for `level` and `source`, if there is one.
    fn find_bucket(&self, level: Level, source: &String) -> (r: Option<usize>)
        requires
            self.wf(),
        ensures
            r matches Some(i) ==> i == bucket_of(self@.buckets, level, source@),
            r is None ==> bucket_of(self@.buckets, level, source@) == -1,
    {
        let mut i: usize = 0;
        while i < self.buckets.len()
            invariant
                i <= self.buckets.len(),
                find_key(self@.buckets, level, source@, i as int) == -1,
            decreases self.buckets.len() - i,
        {
            if self.buckets[i].level == level && self.buckets[i].source == *source {
                proof {
                    assert(has_key(self@.buckets[i as int], level, source@));
                    assert(find_key(self@.buckets, level, source@, i as int + 1) == i);
                    lemma_find_key_stays(self@.buckets, level, source@, i as int + 1, self@.buckets.len() as int);
                }
                return Some(i);
            }
            i = i + 1;
        }
        None
    }

    /// Adds `m` as the newest record of its bucket; when the store's size is
    /// over its budget, first takes one oldest record out of every non-empty
    /// bucket.
    pub fn put(&mut self, m: Message)
        requires
            old(self).wf(),
            total_count(old(self)@.buckets) < usize::MAX,
            total_size(old(self)@.buckets) + record_cost(m) <= u64::MAX,
        ensures
            final(self).wf(),
            final(self)@ == put_model(old(self)@, m),
    {
        if self.size > self.budget {
            proof {
                lemma_evict_totals(self@.buckets);
            }
            self.evict_one_per_bucket();
        }
        let ghost bs = self@.buckets;
        let c = m.byte_cost().unwrap();
        let found = self.find_bucket(m.level, &m.system);
        proof {
            lemma_find_key(bs, m.level, m.system@, bs.len() as int);
        }
        match found {
            Some(i) => {
                let mut b = self.buckets.remove(i);
                let ghost old_b = b.model();
                b.records.push_front(m);
                proof {
                    lemma_seq_cost_front(m, old_b.records);
                    lemma_totals_update(bs, i as int, b.model());
                }
                self.buckets.insert(i, b);
                proof {
                    assert(self@.buckets =~= bs.update(i as int, b.model()));
                    lemma_insert_wf(bs, m);
                }
            },
            None => {
                let level = m.level;
                let source = m.system.clone();
                let mut records: VecDeque<Message> = VecDeque::new();
                records.push_front(m);
                let b = Bucket { level, source, records };
                proof {
                    lemma_seq_cost_front(m, Seq::empty());
                    assert(seq![m] + Seq::<Message>::empty() =~= seq![m]);
                    assert(bs.push(b.model()).drop_last() =~= bs);
                }
                self.buckets.push(b);
                proof {
                    assert(self@.buckets =~= bs.push(b.model()));
                    lemma_insert_wf(bs, m);
                }
            },
        }
        self.count = self.count + 1;
        self.size = self.size + c;
    }

    /// Moves every record of this store into `target` by `put`, bucket by
    /// bucket, oldest first within each bucket; this store is left empty.
    /// Returns how many records moved.
    pub fn drain_into(&mut self, target: &mut Messages) -> (moved: usize)
        requires
            old(self).wf(),
            old(target).wf(),
            total_size(old(self)@.buckets) + total_size(old(target)@.buckets) <= u64::MAX,
            total_count(old(self)@.buckets) + total_count(old(target)@.buckets) <= usize::MAX,
        ensures
            final(self).wf(),
            final(target).wf(),
            final(self)@ == cleared(old(self)@),
            final(target)@ == put_all(old(target)@, drain_order(old(self)@.buckets)),
            moved == total_count(old(self)@.buckets),
            total_size(final(target)@.buckets) <= total_size(old(self)@.buckets) + total_size(
                old(target)@.buckets,
            ),
            total_count(final(target)@.buckets) <= total_count(old(self)@.buckets) + total_count(
                old(target)@.buckets,
            ),
    {
        let ghost orig = self@.buckets;
        let ghost orig_target = target@;
        let ghost moved_seq: Seq<Message> = Seq::empty();
        let mut moved: usize = 0;
        let mut i: usize = 0;
        while i < self.buckets.len()
            invariant
                self.wf(),
                target.wf(),
                self.budget == old(self).budget,
                orig.len() == self.buckets.len(),
                i <= self.buckets.len(),
                forall|k: int| 0 <= k < i ==> (#[trigger] self@.buckets[k]).records.len() == 0,
                forall|k: int| 0 <= k < i ==> has_key(#[trigger] self@.buckets[k], orig[k].level, orig[k].source),
                forall|k: int| i <= k < orig.len() ==> #[trigger] self@.buckets[k] == orig[k],
                target@ == put_all(orig_target, moved_seq),
                moved_seq == drain_order(orig.take(i as int)),
                moved == moved_seq.len(),
                moved + total_count(self@.buckets) == total_count(orig),
                total_size(self@.buckets) + total_size(target@.buckets) <= total_size(orig)
                    + total_size(orig_target.buckets),
                total_count(self@.buckets) + total_count(target@.buckets) <= total_count(orig)
                    + total_count(orig_target.buckets),
                total_size(orig) + total_size(orig_target.buckets) <= u64::MAX,
                total_count(orig) + total_count(orig_target.buckets) <= usize::MAX,
            decreases self.buckets.len() - i,
        {
            let ghost rs = orig[i as int].records;
            let ghost start_seq = moved_seq;
            loop
                invariant
                    self.wf(),
                    target.wf(),
                    self.budget == old(self).budget,
                    orig.len() == self.buckets.len(),
                    i < self.buckets.len(),
                    forall|k: int| 0 <= k < i ==> (#[trigger] self@.buckets[k]).records.len() == 0,
                    forall|k: int| 0 <= k < i ==> has_key(#[trigger] self@.buckets[k], orig[k].level, orig[k].source),
                    forall|k: int| i < k < orig.len() ==> #[trigger] self@.buckets[k] == orig[k],
                    has_key(self@.buckets[i as int], orig[i as int].level, orig[i as int].source),
                    self@.buckets[i as int].records.len() <= rs.len(),
                    self@.buckets[i as int].records == rs.take(self@.buckets[i as int].records.len() as int),
                    moved_seq == start_seq + ascending(rs).take(rs.len() - self@.buckets[i as int].records.len()),
                    start_seq == drain_order(orig.take(i as int)),
                    target@ == put_all(orig_target, moved_seq),
                    moved == moved_seq.len(),
                    moved + total_count(self@.buckets) == total_count(orig),
                    total_size(self@.buckets) + total_size(target@.buckets) <= total_size(orig)
                        + total_size(orig_target.buckets),
                    total_count(self@.buckets) + total_count(target@.buckets) <= total_count(orig)
                        + total_count(orig_target.buckets),
                    total_size(orig) + total_size(orig_target.buckets) <= u64::MAX,
                    total_count(orig) + total_count(orig_target.buckets) <= usize::MAX,
                ensures
                    self@.buckets[i as int].records.len() == 0,
                decreases self@.buckets[i as int].records.len(),
            {
                let ghost before = self@.buckets;
                let mut b = self.buckets.remove(i);
                let popped = b.records.pop_back();
                match popped {
                    None => {
                        self.buckets.insert(i, b);
                        proof {
                            assert(self@.buckets =~= before);
                        }
                        break;
                    },
                    Some(m) => {
                        let ghost left = before[i as int].records;
                        proof {
                            assert(left.drop_last() =~= b.records@);
                            assert(seq_cost(left) == seq_cost(b.records@) + record_cost(m));
                            lemma_bucket_bounds(before, i as int);
                            lemma_totals_update(before, i as int, b.model());
                        }
                        let c = m.byte_cost().unwrap();
                        self.size = self.size - c;
                        self.count = self.count - 1;
                        self.buckets.insert(i, b);
                        proof {
                            assert(self@.buckets =~= before.update(i as int, b.model()));
                            let e = self@.buckets;
                            assert forall|j: int, k: int|
                                0 <= j < e.len() && 0 <= k < e[j].records.len() implies has_key(
                                e[j],
                                #[trigger] e[j].records[k].level,
                                e[j].records[k].system@,
                            ) by {
                                if j == i {
                                    assert(e[j].records[k] == before[j].records[k]);
                                } else {
                                    assert(e[j] == before[j]);
                                }
                            }
                            assert forall|j: int, k: int|
                                0 <= j < k < e.len() implies !has_key(#[trigger] e[j], #[trigger] e[k].level, e[k].source) by {
                                assert(!has_key(before[j], before[k].level, before[k].source));
                            }
                            lemma_put_grows_at_most(target@, m);
                            let n = left.len();
                            assert(b.records@ =~= rs.take(n - 1));
                            assert(m == rs[n - 1]);
                            assert(ascending(rs).take(rs.len() - (n - 1)) =~= ascending(rs).take(rs.len() - n).push(m));
                            assert(moved_seq.push(m) =~= start_seq + ascending(rs).take(rs.len() - (n - 1)));
                            assert(moved_seq.push(m).drop_last() =~= moved_seq);
                        }
                        target.put(m);
                        proof {
                            moved_seq = moved_seq.push(m);
                        }
                        moved = moved + 1;
                    },
                }
            }
            proof {
                assert(rs.take(0) =~= Seq::<Message>::empty());
                assert(ascending(rs).take(rs.len() as int) =~= ascending(rs));
                assert(orig.take(i + 1).drop_last() =~= orig.take(i as int));
                assert(orig.take(i + 1).last() == orig[i as int]);
            }
            i = i + 1;
        }
        proof {
            assert(orig.take(orig.len() as int) =~= orig);
            lemma_all_drained(self@.buckets);
        }
        self.clear();
        moved
    }

    /// Puts `m` when the counters have room for it, as `put` does; otherwise
    /// leaves the store as it is. Returns whether `m` was put.
    pub fn try_put(&mut self, m: Message) -> (r: bool)
        requires
            old(self).wf(),
        ensures
            final(self).wf(),
            r == (total_count(old(self)@.buckets) < usize::MAX && total_size(old(self)@.buckets)
                + record_cost(m) <= u64::MAX),
            r ==> final(self)@ == put_model(old(self)@, m),
            !r ==> final(self)@ == old(self)@,
    {
        let room = match m.byte_cost() {
            None => false,
            Some(c) => self.count < usize::MAX && self.size <= u64::MAX - c,
        };
        if room {
            self.put(m);
        }
        room
    }

    /// Iterates the records of the buckets whose level is in `mask`, oldest
    /// first; records of equal timestamp come in bucket order.
    pub fn iter(&self, mask: &LevelMask) -> (r: MergeAscending<'_>)
        requires
            self.wf(),
        ensures
            r.wf(),
            r.rest() == iteration(self@, *mask),
    {
        let mut r = MergeAscending::empty();
        let mut i: usize = 0;
        while i < self.buckets.len()
            invariant
                i <= self.buckets.len(),
                r.wf(),
                r.rest() == merge_all(selected(self@.buckets.subrange(0, i as int), *mask)),
            decreases self.buckets.len() - i,
        {
            let ghost sub = self@.buckets.subrange(0, i as int);
            let b = &self.buckets[i];
            proof {
                assert(self@.buckets.subrange(0, i + 1).drop_last() =~= sub);
            }
            if mask.contains(b.level) {
                r = r.merge_with(&b.records);
                proof {
                    let s2 = selected(sub, *mask).push(ascending(b.records@));
                    assert(s2.drop_last() =~= selected(sub, *mask));
                }
            }
            i = i + 1;
        }
        proof {
            assert(self@.buckets.subrange(0, self@.buckets.len() as int) =~= self@.buckets);
        }
        r
    }
}

proof fn lemma_evict_totals(bs: Seq<BucketModel>)
    ensures
        total_size(evict_one_per_bucket(bs)) <= total_size(bs),
        total_count(evict_one_per_bucket(bs)) + nonempty_buckets(bs) == total_count(bs),
        buckets_wf(bs) ==> buckets_wf(evict_one_per_bucket(bs)),
    decreases bs.len(),
{
    let e = evict_one_per_bucket(bs);
    if bs.len() > 0 {
        lemma_evict_totals(bs.drop_last());
        assert(e.drop_last() =~= evict_one_per_bucket(bs.drop_last()));
        let rs = bs.last().records;
        if rs.len() > 0 {
            assert(rs.drop_last() + seq![rs.last()] =~= rs);
            lemma_seq_cost_concat(rs.drop_last(), seq![rs.last()]);
        }
        if buckets_wf(bs) {
            assert forall|j: int, k: int|
                0 <= j < e.len() && 0 <= k < e[j].records.len() implies has_key(
                e[j],
                #[trigger] e[j].records[k].level,
                e[j].records[k].system@,
            ) by {
                assert(e[j].records[k] == bs[j].records[k]);
            }
        }
    } else {
        assert(e.len() == 0);
    }
}

proof fn lemma_all_drained(bs: Seq<BucketModel>)
    requires
        forall|k: int| 0 <= k < bs.len() ==> (#[trigger] bs[k]).records.len() == 0,
    ensures
        total_count(bs) == 0,
    decreases bs.len(),
{
    if bs.len() > 0 {
        lemma_all_drained(bs.drop_last());
    }
}

/// A put adds at most its record's cost and one record.
pub proof fn lemma_put_grows_at_most(s: StoreModel, m: Message)
    requires
        buckets_wf(s.buckets),
    ensures
        buckets_wf(put_model(s, m).buckets),
        total_size(put_model(s, m).buckets) <= total_size(s.buckets) + record_cost(m),
        total_count(put_model(s, m).buckets) <= total_count(s.buckets) + 1,
{
    lemma_evict_totals(s.buckets);
    lemma_insert_wf(s.buckets, m);
    lemma_insert_wf(evict_one_per_bucket(s.buckets), m);
}

#[verifier::spinoff_prover]
proof fn lemma_insert_wf(bs: Seq<BucketModel>, m: Message)
    requires
        buckets_wf(bs),
    ensures
        buckets_wf(insert_record(bs, m)),
        total_count(insert_record(bs, m)) == total_count(bs) + 1,
        total_size(insert_record(bs, m)) == total_size(bs) + record_cost(m),
{
    lemma_find_key(bs, m.level, m.system@, bs.len() as int);
    let i = bucket_of(bs, m.level, m.system@);
    let r = insert_record(bs, m);
    if i >= 0 {
        let nb = BucketModel { level: bs[i].level, source: bs[i].source, records: seq![m] + bs[i].records };
        lemma_totals_update(bs, i, nb);
        lemma_seq_cost_front(m, bs[i].records);
        assert forall|j: int, k: int|
            0 <= j < r.len() && 0 <= k < r[j].records.len() implies has_key(
            r[j],
            #[trigger] r[j].records[k].level,
            r[j].records[k].system@,
        ) by {
            if j == i && k > 0 {
                assert(r[j].records[k] == bs[i].records[k - 1]);
            }
        }
    } else {
        let nb = BucketModel { level: m.level, source: m.system@, records: seq![m] };
        assert(r.drop_last() =~= bs);
        lemma_seq_cost_front(m, Seq::empty());
        assert(seq![m] + Seq::<Message>::empty() =~= seq![m]);
    }
}

/// Every bucket holds its records newest first.
pub open spec fn newest_first(bs: Seq<BucketModel>) -> bool {
    forall|i: int, j: int, k: int|
        0 <= i < bs.len() && 0 <= j < k < bs[i].records.len() ==> #[trigger] bs[i].records[j].timestamp
            >= #[trigger] bs[i].records[k].timestamp
}

/// `m` is not older than the newest record of its bucket, if it has one.
pub open spec fn in_order_for(s: StoreModel, m: Message) -> bool {
    let i = bucket_of(s.buckets, m.level, m.system@);
    i >= 0 && s.buckets[i].records.len() > 0 ==> m.timestamp >= s.buckets[i].records[0].timestamp
}

/// How many times `x` occurs over all buckets.
pub open spec fn store_count(bs: Seq<BucketModel>, x: Message) -> nat
    decreases bs.len(),
{
    if bs.len() == 0 {
        0
    } else {
        store_count(bs.drop_last(), x) + count_of(bs.last().records, x)
    }
}

proof fn lemma_ascending_of_newest_first(rs: Seq<Message>)
    requires
        forall|j: int, k: int| 0 <= j < k < rs.len() ==> rs[j].timestamp >= rs[k].timestamp,
    ensures
        is_ascending(ascending(rs)),
{
}

proof fn lemma_selected_ascending(bs: Seq<BucketModel>, mask: LevelMask)
    requires
        newest_first(bs),
    ensures
        all_ascending(selected(bs, mask)),
    decreases bs.len(),
{
    if bs.len() > 0 {
        let init = bs.drop_last();
        assert(newest_first(init)) by {
            assert forall|i: int, j: int, k: int|
                0 <= i < init.len() && 0 <= j < k < init[i].records.len() implies #[trigger] init[i].records[j].timestamp
                >= #[trigger] init[i].records[k].timestamp by {
                assert(init[i] == bs[i]);
            }
        }
        lemma_selected_ascending(init, mask);
        let rs = bs.last().records;
        assert forall|j: int, k: int| 0 <= j < k < rs.len() implies rs[j].timestamp >= rs[k].timestamp by {
            assert(bs[bs.len() - 1].records[j].timestamp >= bs[bs.len() - 1].records[k].timestamp);
        }
        lemma_ascending_of_newest_first(rs);
    }
}

/// A store whose buckets are each newest first iterates in ascending
/// timestamp order, whatever the mask.
pub proof fn lemma_iteration_ascending(s: StoreModel, mask: LevelMask)
    requires
        newest_first(s.buckets),
    ensures
        is_ascending(iteration(s, mask)),
{
    lemma_selected_ascending(s.buckets, mask);
    lemma_merge_all_ascending(selected(s.buckets, mask));
}

/// Putting a record no older than the newest of its bucket keeps every bucket
/// newest first, so the store still iterates in ascending timestamp order.
#[verifier::spinoff_prover]
pub proof fn lemma_put_iterates_ascending(s: StoreModel, m: Message, mask: LevelMask)
    requires
        buckets_wf(s.buckets),
        newest_first(s.buckets),
        in_order_for(s, m),
    ensures
        newest_first(put_model(s, m).buckets),
        is_ascending(iteration(put_model(s, m), mask)),
{
    let bs = if over_budget(s) {
        evict_one_per_bucket(s.buckets)
    } else {
        s.buckets
    };
    assert(newest_first(bs)) by {
        if over_budget(s) {
            assert forall|i: int, j: int, k: int|
                0 <= i < bs.len() && 0 <= j < k < bs[i].records.len() implies #[trigger] bs[i].records[j].timestamp
                >= #[trigger] bs[i].records[k].timestamp by {
                assert(bs[i].records[j] == s.buckets[i].records[j]);
                assert(bs[i].records[k] == s.buckets[i].records[k]);
            }
        }
    }
    lemma_evict_totals(s.buckets);
    lemma_find_key(s.buckets, m.level, m.system@, s.buckets.len() as int);
    lemma_find_key(bs, m.level, m.system@, bs.len() as int);
    lemma_find_key_same(s.buckets, bs, m.level, m.system@, s.buckets.len() as int);
    let r = insert_record(bs, m);
    let i = bucket_of(bs, m.level, m.system@);
    assert forall|a: int, j: int, k: int|
        0 <= a < r.len() && 0 <= j < k < r[a].records.len() implies #[trigger] r[a].records[j].timestamp
        >= #[trigger] r[a].records[k].timestamp by {
        if a == i {
            if j == 0 {
                assert(r[a].records[k] == bs[i].records[k - 1]);
                if k - 1 > 0 {
                    assert(bs[i].records[0].timestamp >= bs[i].records[k - 1].timestamp);
                }
                assert(bs[i].records[0] == s.buckets[i].records[0]);
            } else {
                assert(r[a].records[j] == bs[i].records[j - 1]);
                assert(r[a].records[k] == bs[i].records[k - 1]);
            }
        } else if a < bs.len() {
            assert(r[a] == bs[a]);
        } else {
            assert(r[a].records.len() == 1);
        }
    }
    lemma_iteration_ascending(put_model(s, m), mask);
}

/// Buckets with the same keys in the same places are searched alike.
proof fn lemma_find_key_same(a: Seq<BucketModel>, b: Seq<BucketModel>, level: Level, source: Seq<char>, n: int)
    requires
        a.len() == b.len(),
        forall|k: int| 0 <= k < a.len() ==> #[trigger] b[k].level == a[k].level && b[k].source == a[k].source,
        0 <= n <= a.len(),
    ensures
        find_key(a, level, source, n) == find_key(b, level, source, n),
    decreases n,
{
    if n > 0 {
        lemma_find_key_same(a, b, level, source, n - 1);
    }
}

/// A store within its budget stays within its budget plus the cost of the
/// record put into it.
pub proof fn lemma_put_size_bound(s: StoreModel, m: Message)
    requires
        buckets_wf(s.buckets),
        total_size(s.buckets) <= s.budget,
    ensures
        total_size(put_model(s, m).buckets) <= s.budget + record_cost(m),
{
    lemma_insert_wf(s.buckets, m);
}

/// One put evicts at most one round: over budget, exactly one record leaves
/// each non-empty bucket; within budget, nothing leaves.
pub proof fn lemma_put_evicts_once(s: StoreModel, m: Message)
    requires
        buckets_wf(s.buckets),
    ensures
        over_budget(s) ==> total_count(put_model(s, m).buckets) + nonempty_buckets(s.buckets)
            == total_count(s.buckets) + 1,
        !over_budget(s) ==> total_count(put_model(s, m).buckets) == total_count(s.buckets) + 1,
        !over_budget(s) ==> total_size(put_model(s, m).buckets) == total_size(s.buckets) + record_cost(m),
{
    lemma_evict_totals(s.buckets);
    lemma_insert_wf(s.buckets, m);
    lemma_insert_wf(evict_one_per_bucket(s.buckets), m);
}

/// After `clear`, what a store held before makes no difference: the same puts
/// give the same store as on a fresh one.
pub proof fn lemma_clear_forgets(a: StoreModel, rs: Seq<Message>)
    ensures
        put_all(cleared(a), rs) == put_all(empty_store(a.budget), rs),
{
}

/// `n` puts of one record into a store that stays within budget add `n` to
/// the count and `n` times the record's cost to the size, and keep every
/// bucket newest first.
pub proof fn lemma_repeat_put(s: StoreModel, m: Message, n: nat)
    requires
        buckets_wf(s.buckets),
        n >= 1,
        total_size(s.buckets) + (n - 1) * record_cost(m) <= s.budget,
    ensures
        buckets_wf(put_all(s, Seq::new(n, |k: int| m)).buckets),
        total_count(put_all(s, Seq::new(n, |k: int| m)).buckets) == total_count(s.buckets) + n,
        total_size(put_all(s, Seq::new(n, |k: int| m)).buckets) == total_size(s.buckets) + n
            * record_cost(m),
        newest_first(s.buckets) && in_order_for(s, m) ==> newest_first(
            put_all(s, Seq::new(n, |k: int| m)).buckets,
        ),
    decreases n,
{
    let rs = Seq::new(n, |k: int| m);
    let prev = Seq::new((n - 1) as nat, |k: int| m);
    assert(rs.drop_last() =~= prev);
    let p = put_all(s, prev);
    if n == 1 {
        assert(p == s);
        assert(total_size(s.buckets) <= s.budget);
        assert(n * record_cost(m) == record_cost(m)) by (nonlinear_arith)
            requires
                n == 1,
        ;
        lemma_insert_wf(s.buckets, m);
        if newest_first(s.buckets) && in_order_for(s, m) {
            lemma_put_iterates_ascending(s, m, LevelMask { info: true, warn: true, error: true, debug: true });
        }
    } else {
        assert(total_size(s.buckets) + (n - 2) * record_cost(m) <= s.budget) by (nonlinear_arith)
            requires
                total_size(s.buckets) + (n - 1) * record_cost(m) <= s.budget,
                n >= 2,
        ;
        lemma_repeat_put(s, m, (n - 1) as nat);
        assert(total_size(p.buckets) <= s.budget) by (nonlinear_arith)
            requires
                total_size(p.buckets) == total_size(s.buckets) + (n - 1) * record_cost(m),
                total_size(s.buckets) + (n - 1) * record_cost(m) <= s.budget,
        ;
        assert(p.budget == s.budget) by {
            lemma_put_all_budget(s, prev);
        }
        lemma_insert_wf(p.buckets, m);
        assert(total_size(s.buckets) + (n - 1) * record_cost(m) + record_cost(m) == total_size(
            s.buckets,
        ) + n * record_cost(m)) by (nonlinear_arith);
        if newest_first(s.buckets) && in_order_for(s, m) {
            lemma_last_put_in_order(s, m, (n - 1) as nat);
            lemma_put_iterates_ascending(p, m, LevelMask { info: true, warn: true, error: true, debug: true });
        }
    }
}

proof fn lemma_put_all_budget(s: StoreModel, rs: Seq<Message>)
    ensures
        put_all(s, rs).budget == s.budget,
    decreases rs.len(),
{
    if rs.len() > 0 {
        lemma_put_all_budget(s, rs.drop_last());
    }
}

/// After some puts of `m`, its bucket's newest record is `m` itself.
proof fn lemma_last_put_in_order(s: StoreModel, m: Message, n: nat)
    requires
        n >= 1,
        buckets_wf(s.buckets),
    ensures
        in_order_for(put_all(s, Seq::new(n, |k: int| m)), m),
{
    let rs = Seq::new(n, |k: int| m);
    let prev = Seq::new((n - 1) as nat, |k: int| m);
    assert(rs.drop_last() =~= prev);
    let p = put_all(s, prev);
    let q = put_model(p, m);
    let bs = if over_budget(p) {
        evict_one_per_bucket(p.buckets)
    } else {
        p.buckets
    };
    lemma_find_key(bs, m.level, m.system@, bs.len() as int);
    let i = bucket_of(bs, m.level, m.system@);
    let r = insert_record(bs, m);
    assert(q.buckets == r);
    lemma_find_key(r, m.level, m.system@, r.len() as int);
    let j = bucket_of(r, m.level, m.system@);
    if i >= 0 {
        assert(has_key(r[i], m.level, m.system@));
        assert(j >= 0);
        assert(has_key(r[j], m.level, m.system@));
        assert(has_key(r[i], m.level, m.system@));
        assert forall|a: int| 0 <= a < i implies !has_key(#[trigger] r[a], m.level, m.system@) by {
            assert(r[a] == bs[a]);
        }
        lemma_find_key_first(r, m.level, m.system@, r.len() as int, i);
    } else {
        assert(has_key(r[r.len() - 1], m.level, m.system@));
        assert(j == r.len() - 1) by {
            if j != r.len() - 1 {
                assert(j < bs.len());
                assert(r[j] == bs[j]);
            }
        }
    }
    assert(r[j].records[0] == m);
}

proof fn lemma_find_key_first(bs: Seq<BucketModel>, level: Level, source: Seq<char>, n: int, i: int)
    requires
        0 <= i < n <= bs.len(),
        has_key(bs[i], level, source),
        forall|a: int| 0 <= a < i ==> !has_key(#[trigger] bs[a], level, source),
    ensures
        find_key(bs, level, source, n) == i,
    decreases n,
{
    if n > i + 1 {
        lemma_find_key_first(bs, level, source, n - 1, i);
    } else {
        lemma_find_key(bs, level, source, i);
    }
}

/// A store that holds no record iterates nothing.
pub proof fn lemma_empty_iterates_nothing(s: StoreModel, mask: LevelMask)
    requires
        total_count(s.buckets) == 0,
    ensures
        iteration(s, mask).len() == 0,
{
    lemma_no_records_selected(s.buckets, mask);
    lemma_merge_all_empty(selected(s.buckets, mask));
}

proof fn lemma_no_records_selected(bs: Seq<BucketModel>, mask: LevelMask)
    requires
        total_count(bs) == 0,
    ensures
        all_empty(selected(bs, mask)),
    decreases bs.len(),
{
    if bs.len() > 0 {
        lemma_no_records_selected(bs.drop_last(), mask);
    }
}

proof fn lemma_count_absent(rs: Seq<Message>, x: Message)
    requires
        forall|k: int| 0 <= k < rs.len() ==> rs[k] != x,
    ensures
        count_of(rs, x) == 0,
    decreases rs.len(),
{
    if rs.len() > 0 {
        lemma_count_absent(rs.drop_last(), x);
    }
}

proof fn lemma_count_ascending(rs: Seq<Message>, x: Message)
    ensures
        count_of(ascending(rs), x) == count_of(rs, x),
    decreases rs.len(),
{
    if rs.len() > 0 {
        let init = rs.drop_last();
        lemma_count_ascending(init, x);
        assert(ascending(rs) =~= seq![rs.last()] + ascending(init));
        lemma_count_concat(seq![rs.last()], ascending(init), x);
        assert(seq![rs.last()].drop_last() =~= Seq::<Message>::empty());
        assert(count_of(seq![rs.last()], x) == count_of(seq![rs.last()].drop_last(), x) + if rs.last() == x { 1nat } else { 0nat });
    }
}

#[verifier::spinoff_prover]
proof fn lemma_selected_counts(bs: Seq<BucketModel>, mask: LevelMask, x: Message)
    requires
        buckets_wf(bs),
    ensures
        count_in_all(selected(bs, mask), x) == if mask.shows(x.level) {
            store_count(bs, x)
        } else {
            0
        },
    decreases bs.len(),
{
    if bs.len() > 0 {
        let init = bs.drop_last();
        assert(buckets_wf(init)) by {
            assert forall|i: int, k: int|
                0 <= i < init.len() && 0 <= k < init[i].records.len() implies has_key(
                init[i],
                #[trigger] init[i].records[k].level,
                init[i].records[k].system@,
            ) by {
                assert(init[i] == bs[i]);
            }
        }
        lemma_selected_counts(init, mask, x);
        let last = bs.last();
        let s = selected(init, mask);
        if mask.shows(last.level) {
            assert(s.push(ascending(last.records)).drop_last() =~= s);
            lemma_count_ascending(last.records, x);
            if !mask.shows(x.level) {
                assert forall|k: int| 0 <= k < last.records.len() implies last.records[k] != x by {
                    assert(has_key(bs[bs.len() - 1], bs[bs.len() - 1].records[k].level, bs[bs.len() - 1].records[k].system@));
                }
                lemma_count_absent(last.records, x);
            }
        } else {
            if mask.shows(x.level) {
                assert forall|k: int| 0 <= k < last.records.len() implies last.records[k] != x by {
                    assert(has_key(bs[bs.len() - 1], bs[bs.len() - 1].records[k].level, bs[bs.len() - 1].records[k].system@));
                }
                lemma_count_absent(last.records, x);
            }
        }
    }
}

/// Iterating under `mask` yields each record of a shown level exactly as
/// often as the store holds it, and no record of a hidden level.
pub proof fn lemma_iteration_counts(s: StoreModel, mask: LevelMask, x: Message)
    requires
        buckets_wf(s.buckets),
    ensures
        count_of(iteration(s, mask), x) == if mask.shows(x.level) {
            store_count(s.buckets, x)
        } else {
            0
        },
{
    lemma_merge_all_counts(selected(s.buckets, mask), x);
    lemma_selected_counts(s.buckets, mask, x);
}

proof fn lemma_store_count_update(bs: Seq<BucketModel>, i: int, b: BucketModel, x: Message)
    requires
        0 <= i < bs.len(),
    ensures
        store_count(bs.update(i, b), x) + count_of(bs[i].records, x) == store_count(bs, x) + count_of(
            b.records,
            x,
        ),
    decreases bs.len(),
{
    let u = bs.update(i, b);
    if i == bs.len() - 1 {
        assert(u.drop_last() =~= bs.drop_last());
    } else {
        lemma_store_count_update(bs.drop_last(), i, b, x);
        assert(u.drop_last() =~= bs.drop_last().update(i, b));
    }
}

/// Within budget, a put adds its record and takes nothing away.
proof fn lemma_put_within_budget(s: StoreModel, m: Message, x: Message)
    requires
        buckets_wf(s.buckets),
        !over_budget(s),
    ensures
        store_count(put_model(s, m).buckets, x) == store_count(s.buckets, x) + count_of(seq![m], x),
{
    let bs = s.buckets;
    lemma_find_key(bs, m.level, m.system@, bs.len() as int);
    let i = bucket_of(bs, m.level, m.system@);
    if i >= 0 {
        let nb = BucketModel { level: bs[i].level, source: bs[i].source, records: seq![m] + bs[i].records };
        lemma_store_count_update(bs, i, nb, x);
        lemma_count_concat(seq![m], bs[i].records, x);
    } else {
        let r = insert_record(bs, m);
        assert(r.drop_last() =~= bs);
    }
}

proof fn lemma_cost_ascending(rs: Seq<Message>)
    ensures
        seq_cost(ascending(rs)) == seq_cost(rs),
    decreases rs.len(),
{
    if rs.len() > 0 {
        let init = rs.drop_last();
        lemma_cost_ascending(init);
        assert(ascending(rs) =~= seq![rs.last()] + ascending(init));
        lemma_seq_cost_front(rs.last(), ascending(init));
    }
}

proof fn lemma_drain_order_totals(bs: Seq<BucketModel>, x: Message)
    ensures
        count_of(drain_order(bs), x) == store_count(bs, x),
        seq_cost(drain_order(bs)) == total_size(bs),
    decreases bs.len(),
{
    if bs.len() > 0 {
        lemma_drain_order_totals(bs.drop_last(), x);
        lemma_count_concat(drain_order(bs.drop_last()), ascending(bs.last().records), x);
        lemma_count_ascending(bs.last().records, x);
        lemma_seq_cost_concat(drain_order(bs.drop_last()), ascending(bs.last().records));
        lemma_cost_ascending(bs.last().records);
    }
}

/// Puts that keep the store within its budget add their records and take
/// none away.
pub proof fn lemma_put_all_within_budget(s: StoreModel, ms: Seq<Message>, x: Message)
    requires
        buckets_wf(s.buckets),
        total_size(s.buckets) + seq_cost(ms) <= s.budget,
    ensures
        buckets_wf(put_all(s, ms).buckets),
        put_all(s, ms).budget == s.budget,
        total_size(put_all(s, ms).buckets) == total_size(s.buckets) + seq_cost(ms),
        store_count(put_all(s, ms).buckets, x) == store_count(s.buckets, x) + count_of(ms, x),
    decreases ms.len(),
{
    if ms.len() > 0 {
        let init = ms.drop_last();
        let m = ms.last();
        lemma_put_all_within_budget(s, init, x);
        let p = put_all(s, init);
        lemma_insert_wf(p.buckets, m);
        lemma_put_within_budget(p, m, x);
        assert(init.push(m) =~= ms);
        lemma_seq_cost_concat(init, seq![m]);
        lemma_count_concat(init, seq![m], x);
        assert(init + seq![m] =~= ms);
        lemma_seq_cost_front(m, Seq::empty());
        assert(seq![m] + Seq::<Message>::empty() =~= seq![m]);
    }
}

/// Draining one store into another that stays within its budget leaves every
/// record of both in the target: nothing is evicted on the way.
pub proof fn lemma_drain_keeps_every_record(target: StoreModel, source: StoreModel, x: Message)
    requires
        buckets_wf(target.buckets),
        buckets_wf(source.buckets),
        total_size(target.buckets) + total_size(source.buckets) <= target.budget,
    ensures
        store_count(put_all(target, drain_order(source.buckets)).buckets, x) == store_count(
            target.buckets,
            x,
        ) + store_count(source.buckets, x),
{
    lemma_drain_order_totals(source.buckets, x);
    lemma_put_all_within_budget(target, drain_order(source.buckets), x);
}

/// Each record of `rs` is, when it is put, no older than the newest record of
/// its bucket.
pub open spec fn puts_in_order(s: StoreModel, rs: Seq<Message>) -> bool
    decreases rs.len(),
{
    if rs.len() == 0 {
        true
    } else {
        puts_in_order(s, rs.drop_last()) && in_order_for(put_all(s, rs.drop_last()), rs.last())
    }
}

/// A run of puts, each no older than the newest record of its bucket, keeps
/// every bucket newest first, so the store iterates in ascending timestamp
/// order after every one of them; an empty store starts that way.
pub proof fn lemma_puts_iterate_ascending(s: StoreModel, rs: Seq<Message>, mask: LevelMask)
    requires
        buckets_wf(s.buckets),
        newest_first(s.buckets),
        puts_in_order(s, rs),
    ensures
        buckets_wf(put_all(s, rs).buckets),
        newest_first(put_all(s, rs).buckets),
        is_ascending(iteration(put_all(s, rs), mask)),
    decreases rs.len(),
{
    if rs.len() == 0 {
        lemma_iteration_ascending(s, mask);
    } else {
        let init = rs.drop_last();
        lemma_puts_iterate_ascending(s, init, mask);
        let p = put_all(s, init);
        lemma_put_grows_at_most(p, rs.last());
        lemma_put_iterates_ascending(p, rs.last(), mask);
    }
}

proof fn lemma_selected_len(bs: Seq<BucketModel>, mask: LevelMask)
    ensures
        total_len(selected(bs, mask)) <= total_count(bs),
    decreases bs.len(),
{
    if bs.len() > 0 {
        lemma_selected_len(bs.drop_last(), mask);
        let s = selected(bs.drop_last(), mask);
        if mask.shows(bs.last().level) {
            assert(s.push(ascending(bs.last().records)).drop_last() =~= s);
        }
    }
}

/// Iterating yields at most as many records as the store holds.
pub proof fn lemma_iteration_len(s: StoreModel, mask: LevelMask)
    ensures
        iteration(s, mask).len() <= total_count(s.buckets),
{
    lemma_merge_all_len(selected(s.buckets, mask));
    lemma_selected_len(s.buckets, mask);
}

/// The index the bucket of `m` has, or will have once made.
pub open spec fn slot_of(bs: Seq<BucketModel>, m: Message) -> int {
    if bucket_of(bs, m.level, m.system@) >= 0 {
        bucket_of(bs, m.level, m.system@)
    } else {
        bs.len() as int
    }
}

/// The records the bucket of `m` holds, none if it has no bucket yet.
pub open spec fn records_of(bs: Seq<BucketModel>, m: Message) -> Seq<Message> {
    if bucket_of(bs, m.level, m.system@) >= 0 {
        bs[bucket_of(bs, m.level, m.system@)].records
    } else {
        Seq::empty()
    }
}

/// `n` puts of one record into a store that stays within budget leave that
/// record's bucket holding `n` copies of it in front of what it held before.
pub proof fn lemma_repeat_put_bucket(s: StoreModel, m: Message, n: nat)
    requires
        buckets_wf(s.buckets),
        n >= 1,
        total_size(s.buckets) + (n - 1) * record_cost(m) <= s.budget,
    ensures
        ({
            let b = put_all(s, Seq::new(n, |k: int| m)).buckets;
            &&& bucket_of(b, m.level, m.system@) == slot_of(s.buckets, m)
            &&& b[slot_of(s.buckets, m)].records == Seq::new(n, |k: int| m) + records_of(s.buckets, m)
        }),
    decreases n,
{
    let rs = Seq::new(n, |k: int| m);
    let prev = Seq::new((n - 1) as nat, |k: int| m);
    assert(rs.drop_last() =~= prev);
    let p = put_all(s, prev);
    let j = slot_of(s.buckets, m);
    lemma_find_key(s.buckets, m.level, m.system@, s.buckets.len() as int);
    if n == 1 {
        assert(p == s);
        assert(!over_budget(s));
        let r = insert_record(s.buckets, m);
        assert forall|a: int| 0 <= a < j implies !has_key(#[trigger] r[a], m.level, m.system@) by {
            assert(r[a] == s.buckets[a]);
        }
        lemma_find_key_first(r, m.level, m.system@, r.len() as int, j);
        assert(r[j].records =~= Seq::new(n, |k: int| m) + records_of(s.buckets, m));
    } else {
        assert(total_size(s.buckets) + (n - 2) * record_cost(m) <= s.budget) by (nonlinear_arith)
            requires
                total_size(s.buckets) + (n - 1) * record_cost(m) <= s.budget,
                n >= 2,
        ;
        lemma_repeat_put_bucket(s, m, (n - 1) as nat);
        lemma_repeat_put(s, m, (n - 1) as nat);
        lemma_put_all_budget(s, prev);
        assert(total_size(p.buckets) <= s.budget) by (nonlinear_arith)
            requires
                total_size(p.buckets) == total_size(s.buckets) + (n - 1) * record_cost(m),
                total_size(s.buckets) + (n - 1) * record_cost(m) <= s.budget,
        ;
        assert(!over_budget(p));
        lemma_find_key(p.buckets, m.level, m.system@, p.buckets.len() as int);
        let r = insert_record(p.buckets, m);
        assert forall|a: int| 0 <= a < j implies !has_key(#[trigger] r[a], m.level, m.system@) by {
            assert(r[a] == p.buckets[a]);
        }
        lemma_find_key_first(r, m.level, m.system@, r.len() as int, j);
        assert(r[j].records =~= Seq::new(n, |k: int| m) + records_of(s.buckets, m));
    }
}

} // verus!
