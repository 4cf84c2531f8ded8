//! The search worker's state and its decisions: what each command does to the
//! store, the skip buffer and the query, what it replies, and the snapshot it
//! publishes when the command channel is idle. The thread, the channels and
//! the timing live with the caller.

use vstd::prelude::*;
use crate::level::{Level, LevelMask};
use crate::message::{Message, record_cost};
use crate::messages::{
    Messages, StoreModel, total_size, total_count, put_model, put_all, drain_order, cleared,
    iteration, store_count, buckets_wf, lemma_iteration_counts, lemma_drain_keeps_every_record,
    lemma_empty_iterates_nothing, lemma_iteration_len, empty_store, DEFAULT_BUDGET,
};
use crate::merge::count_of;
use crate::query::{Query, QueryModel, passes, compiled_filter};

verus! {

/// A command to the worker.
pub enum CommandMessage {
    FilterRegex(String),
    FilterNotRegexes(Vec<String>),
    InsertJson(Message),
    ToggleInfo(),
    ToggleDebug(),
    ToggleWarn(),
    ToggleError(),
    SetSkip(usize),
    SetResultSize(usize),
    Clear,
    Exit,
}

/// A message from the worker.
pub enum ResultMessage {
    Messages(Vec<Message>),
    /// Nanoseconds the last snapshot took.
    Elapsed(u64),
    Size(u64),
    Length(usize),
    Skip(usize),
}

/// The worker's state as a value.
pub struct StorageModel {
    pub store: StoreModel,
    pub skip_buffer: StoreModel,
    pub query: QueryModel,
    pub skip: nat,
    pub result_size: nat,
}

/// The records of `s` that pass the query's patterns, in order.
pub open spec fn passing(s: Seq<Message>, q: QueryModel) -> Seq<Message>
    decreases s.len(),
{
    if s.len() == 0 {
        s
    } else if passes(q, s.last()) {
        passing(s.drop_last(), q).push(s.last())
    } else {
        passing(s.drop_last(), q)
    }
}

/// At most `size` items of `s`, after the first `skip`.
pub open spec fn window(s: Seq<Message>, skip: nat, size: nat) -> Seq<Message> {
    if skip >= s.len() {
        Seq::empty()
    } else if skip + size <= s.len() {
        s.subrange(skip as int, (skip + size) as int)
    } else {
        s.subrange(skip as int, s.len() as int)
    }
}

/// The snapshot of a state: the store iterated under the query's mask,
/// filtered by its patterns, then `skip` records skipped and at most
/// `result_size` taken.
pub open spec fn snapshot_of(w: StorageModel) -> Seq<Message> {
    window(passing(iteration(w.store, w.query.mask), w.query), w.skip, w.result_size)
}

/// Whether the counters can take `m` in: the sizes and counts of both stores
/// together must stay within their integer types.
pub open spec fn has_room(w: StorageModel, m: Message) -> bool {
    &&& total_size(w.store.buckets) + total_size(w.skip_buffer.buckets) + record_cost(m) <= u64::MAX
    &&& total_count(w.store.buckets) + total_count(w.skip_buffer.buckets) + 1 <= usize::MAX
}

/// The replies report the total size and count of both stores.
pub open spec fn reports_totals(r: Seq<ResultMessage>, w: StorageModel) -> bool {
    &&& r.len() == 2
    &&& r[0] == ResultMessage::Size(
        (total_size(w.store.buckets) + total_size(w.skip_buffer.buckets)) as u64,
    )
    &&& r[1] == ResultMessage::Length(
        (total_count(w.store.buckets) + total_count(w.skip_buffer.buckets)) as usize,
    )
}

/// The state after a return to follow mode: the skip buffer drained into the
/// store, oldest first within each bucket, and emptied.
pub open spec fn drained(w: StorageModel) -> StorageModel {
    StorageModel {
        store: put_all(w.store, drain_order(w.skip_buffer.buckets)),
        skip_buffer: cleared(w.skip_buffer),
        ..w
    }
}

/// What the worker holds: the store, the skip buffer, the query, the skip
/// offset and the number of records a snapshot may hold.
pub struct Storage {
    messages: Messages,
    skip_messages: Messages,
    query: Query,
    skip: usize,
    result_size: usize,
}

impl View for Storage {
    type V = StorageModel;

    closed spec fn view(&self) -> StorageModel {
        StorageModel {
            store: self.messages@,
            skip_buffer: self.skip_messages@,
            query: self.query@,
            skip: self.skip as nat,
            result_size: self.result_size as nat,
        }
    }
}

impl Storage {
    pub closed spec fn wf(&self) -> bool {
        &&& self.messages.wf()
        &&& self.skip_messages.wf()
        &&& total_size(self@.store.buckets) + total_size(self@.skip_buffer.buckets) <= u64::MAX
        &&& total_count(self@.store.buckets) + total_count(self@.skip_buffer.buckets) <= usize::MAX
    }

    /// A well-formed state has well-formed buckets in both stores.
    pub proof fn lemma_wf(&self)
        requires
            self.wf(),
        ensures
            buckets_wf(self@.store.buckets),
            buckets_wf(self@.skip_buffer.buckets),
    {
        self.messages.lemma_wf();
        self.skip_messages.lemma_wf();
    }

    /// Empty stores with the default budget, a query that passes everything,
    /// no skip and room for no record in a snapshot.
    pub fn new() -> (r: Storage)
        ensures
            r.wf(),
            r@.store == empty_store(DEFAULT_BUDGET as nat),
            r@.skip_buffer == empty_store(DEFAULT_BUDGET as nat),
            r@.query.positive is None,
            r@.query.negative.len() == 0,
            forall|l: Level| r@.query.mask.shows(l),
            r@.skip == 0,
            r@.result_size == 0,
    {
        Storage {
            messages: Messages::new(),
            skip_messages: Messages::new(),
            query: Query::new(),
            skip: 0,
            result_size: 0,
        }
    }

    /// Empty stores with the given budget; otherwise as `new`.
    pub fn with_budget(budget: u64) -> (r: Storage)
        ensures
            r.wf(),
            r@.store == empty_store(budget as nat),
            r@.skip_buffer == empty_store(budget as nat),
            r@.query.positive is None,
            r@.query.negative.len() == 0,
            forall|l: Level| r@.query.mask.shows(l),
            r@.skip == 0,
            r@.result_size == 0,
    {
        Storage {
            messages: Messages::with_budget(budget),
            skip_messages: Messages::with_budget(budget),
            query: Query::new(),
            skip: 0,
            result_size: 0,
        }
    }

    pub fn skip(&self) -> (r: usize)
        ensures
            r == self@.skip,
    {
        self.skip
    }

    pub fn result_size(&self) -> (r: usize)
        ensures
            r == self@.result_size,
    {
        self.result_size
    }

    /// The levels shown.
    pub fn mask(&self) -> (r: LevelMask)
        ensures
            r == self@.query.mask,
    {
        self.query.mask()
    }

    /// Records held by the store and the skip buffer together.
    pub fn length(&self) -> (r: usize)
        requires
            self.wf(),
        ensures
            r == total_count(self@.store.buckets) + total_count(self@.skip_buffer.buckets),
    {
        self.messages.count() + self.skip_messages.count()
    }

    /// Bytes held by the store and the skip buffer together.
    pub fn size(&self) -> (r: u64)
        requires
            self.wf(),
        ensures
            r == total_size(self@.store.buckets) + total_size(self@.skip_buffer.buckets),
    {
        self.messages.size() + self.skip_messages.size()
    }

    fn totals(&self) -> (r: Vec<ResultMessage>)
        requires
            self.wf(),
        ensures
            reports_totals(r@, self@),
    {
        let mut r: Vec<ResultMessage> = Vec::new();
        r.push(ResultMessage::Size(self.size()));
        r.push(ResultMessage::Length(self.length()));
        r
    }

    /// Puts `m` into the store when following (`skip == 0`), into the skip
    /// buffer otherwise; a record the counters have no room for is dropped.
    /// Replies with the new total size and count.
    pub fn insert(&mut self, m: Message) -> (r: Vec<ResultMessage>)
        requires
            old(self).wf(),
        ensures
            final(self).wf(),
            has_room(old(self)@, m) && old(self)@.skip == 0 ==> final(self)@ == (StorageModel {
                store: put_model(old(self)@.store, m),
                ..old(self)@
            }),
            has_room(old(self)@, m) && old(self)@.skip != 0 ==> final(self)@ == (StorageModel {
                skip_buffer: put_model(old(self)@.skip_buffer, m),
                ..old(self)@
            }),
            !has_room(old(self)@, m) ==> final(self)@ == old(self)@,
            reports_totals(r@, final(self)@),
    {
        let room = match m.byte_cost() {
            None => false,
            Some(c) => {
                let s = self.size();
                let n = self.length();
                s <= u64::MAX - c && n < usize::MAX
            },
        };
        if room {
            proof {
                self.messages.lemma_wf();
                self.skip_messages.lemma_wf();
                lemma_put_bounds(self@.store, m);
                lemma_put_bounds(self@.skip_buffer, m);
            }
            if self.skip == 0 {
                self.messages.put(m);
            } else {
                self.skip_messages.put(m);
            }
        }
        self.totals()
    }

    /// Moves the skip buffer into the store and empties it; returns how many
    /// records moved.
    fn drain_skip_buffer(&mut self) -> (moved: usize)
        requires
            old(self).wf(),
        ensures
            final(self).wf(),
            final(self)@ == drained(old(self)@),
            moved == total_count(old(self)@.skip_buffer.buckets),
    {
        let moved = self.skip_messages.drain_into(&mut self.messages);
        moved
    }

    /// The follow-mode transition. From skip 1 to 0: the skip buffer is
    /// drained into the store and the skip becomes the number of records
    /// moved, which is replied so that the viewer keeps its place. From a skip
    /// above 1 to 0: the skip buffer is drained and the skip becomes 0.
    /// Otherwise only the skip changes.
    pub fn set_skip(&mut self, i: usize) -> (r: Vec<ResultMessage>)
        requires
            old(self).wf(),
        ensures
            final(self).wf(),
            old(self)@.skip == 1 && i == 0 ==> final(self)@ == (StorageModel {
                skip: total_count(old(self)@.skip_buffer.buckets),
                ..drained(old(self)@)
            }) && r@ == seq![ResultMessage::Skip(total_count(old(self)@.skip_buffer.buckets) as usize)],
            old(self)@.skip > 1 && i == 0 ==> final(self)@ == (StorageModel {
                skip: 0,
                ..drained(old(self)@)
            }) && r@.len() == 0,
            !(old(self)@.skip >= 1 && i == 0) ==> final(self)@ == (StorageModel { skip: i as nat, ..old(self)@ })
                && r@.len() == 0,
    {
        let mut r: Vec<ResultMessage> = Vec::new();
        if self.skip == 1 && i == 0 {
            let moved = self.drain_skip_buffer();
            self.skip = moved;
            r.push(ResultMessage::Skip(moved));
            proof {
                assert(r@ =~= seq![ResultMessage::Skip(moved)]);
            }
        } else if self.skip > 1 && i == 0 {
            self.drain_skip_buffer();
            self.skip = 0;
        } else {
            self.skip = i;
        }
        r
    }

    /// Empties the store and the skip buffer; replies with the new totals.
    pub fn clear(&mut self) -> (r: Vec<ResultMessage>)
        requires
            old(self).wf(),
        ensures
            final(self).wf(),
            final(self)@ == (StorageModel {
                store: cleared(old(self)@.store),
                skip_buffer: cleared(old(self)@.skip_buffer),
                ..old(self)@
            }),
            reports_totals(r@, final(self)@),
    {
        self.messages.clear();
        self.skip_messages.clear();
        proof {
            assert(total_count(self@.store.buckets) == 0);
            assert(total_size(self@.store.buckets) == 0);
        }
        self.totals()
    }

    /// Handles one command. Returns `None` on `Exit`, else the replies.
    pub fn handle(&mut self, cmd: CommandMessage) -> (r: Option<Vec<ResultMessage>>)
        requires
            old(self).wf(),
        ensures
            final(self).wf(),
            match cmd {
                CommandMessage::Exit => r is None && final(self)@ == old(self)@,
                CommandMessage::FilterRegex(s) => r matches Some(v) && v@.len() == 0
                    && final(self)@ == (StorageModel {
                    query: QueryModel { positive: compiled_filter(s@), ..old(self)@.query },
                    ..old(self)@
                }),
                CommandMessage::FilterNotRegexes(list) => r matches Some(v) && v@.len() == 0
                    && final(self)@ == (StorageModel {
                    query: QueryModel {
                        negative: list@.map_values(|s: String| compiled_filter(s@)),
                        ..old(self)@.query
                    },
                    ..old(self)@
                }),
                CommandMessage::ToggleInfo() => r matches Some(v) && v@.len() == 0
                    && final(self)@ == toggled(old(self)@, Level::INFO),
                CommandMessage::ToggleDebug() => r matches Some(v) && v@.len() == 0
                    && final(self)@ == toggled(old(self)@, Level::DEBUG),
                CommandMessage::ToggleWarn() => r matches Some(v) && v@.len() == 0
                    && final(self)@ == toggled(old(self)@, Level::WARN),
                CommandMessage::ToggleError() => r matches Some(v) && v@.len() == 0
                    && final(self)@ == toggled(old(self)@, Level::ERROR),
                CommandMessage::SetResultSize(n) => r matches Some(v) && v@.len() == 0
                    && final(self)@ == (StorageModel { result_size: n as nat, ..old(self)@ }),
                CommandMessage::InsertJson(m) => r matches Some(v) && reports_totals(v@, final(self)@)
                    && final(self)@ == inserted(old(self)@, m),
                CommandMessage::SetSkip(i) => r matches Some(v) && v@ == skip_replies(old(self)@, i as nat)
                    && final(self)@ == skip_set(old(self)@, i as nat),
                CommandMessage::Clear => r matches Some(v) && reports_totals(v@, final(self)@)
                    && final(self)@ == (StorageModel {
                    store: cleared(old(self)@.store),
                    skip_buffer: cleared(old(self)@.skip_buffer),
                    ..old(self)@
                }),
            },
    {
        match cmd {
            CommandMessage::Exit => None,
            CommandMessage::FilterRegex(s) => {
                self.query.set_filter(s.as_str());
                Some(Vec::new())
            },
            CommandMessage::FilterNotRegexes(list) => {
                self.query.set_exclusions(&list);
                Some(Vec::new())
            },
            CommandMessage::ToggleInfo() => {
                self.query.toggle_level(Level::INFO);
                Some(Vec::new())
            },
            CommandMessage::ToggleDebug() => {
                self.query.toggle_level(Level::DEBUG);
                Some(Vec::new())
            },
            CommandMessage::ToggleWarn() => {
                self.query.toggle_level(Level::WARN);
                Some(Vec::new())
            },
            CommandMessage::ToggleError() => {
                self.query.toggle_level(Level::ERROR);
                Some(Vec::new())
            },
            CommandMessage::SetResultSize(n) => {
                self.result_size = n;
                Some(Vec::new())
            },
            CommandMessage::InsertJson(m) => Some(self.insert(m)),
            CommandMessage::SetSkip(i) => Some(self.set_skip(i)),
            CommandMessage::Clear => Some(self.clear()),
        }
    }

    /// The snapshot published when the command channel is idle.
    pub fn snapshot(&self) -> (r: Vec<Message>)
        requires
            self.wf(),
        ensures
            r@ == snapshot_of(self@),
            r@.len() <= self@.result_size,
    {
        let mask = self.query.mask();
        let mut it = self.messages.iter(&mask);
        let ghost all = it.rest();
        let ghost mut k: int = 0;
        let mut out: Vec<Message> = Vec::new();
        let mut skipped: usize = 0;
        while out.len() < self.result_size
            invariant
                it.wf(),
                all == iteration(self@.store, self@.query.mask),
                0 <= k <= all.len(),
                it.rest() == all.subrange(k, all.len() as int),
                skipped as int == if passing(all.take(k), self@.query).len() < self.skip {
                    passing(all.take(k), self@.query).len() as int
                } else {
                    self.skip as int
                },
                out@ == window(passing(all.take(k), self@.query), self.skip as nat, self.result_size as nat),
            ensures
                0 <= k <= all.len(),
                k == all.len() || out.len() >= self.result_size,
                out@ == window(passing(all.take(k), self@.query), self.skip as nat, self.result_size as nat),
            decreases all.len() - k,
        {
            let ghost x = passing(all.take(k), self@.query);
            match it.next() {
                None => {
                    break;
                },
                Some(m) => {
                    proof {
                        assert(all.take(k + 1).drop_last() =~= all.take(k));
                        assert(all.take(k + 1).last() == *m);
                        assert(all.subrange(k + 1, all.len() as int) =~= all.subrange(k, all.len() as int).drop_first());
                    }
                    if self.query.matches(m) {
                        if skipped < self.skip {
                            skipped = skipped + 1;
                        } else {
                            let ghost before = out@;
                            out.push(m.duplicate());
                            proof {
                                assert(x.len() >= self.skip);
                                assert(out@ =~= window(x.push(*m), self.skip as nat, self.result_size as nat));
                            }
                        }
                    }
                    proof {
                        k = k + 1;
                    }
                },
            }
        }
        proof {
            let x = passing(all.take(k), self@.query);
            if k < all.len() {
                lemma_passing_concat(all.take(k), all.subrange(k, all.len() as int), self@.query);
                assert(all.take(k) + all.subrange(k, all.len() as int) =~= all);
                let y = passing(all.subrange(k, all.len() as int), self@.query);
                assert(window(x + y, self.skip as nat, self.result_size as nat) =~= window(x, self.skip as nat, self.result_size as nat));
            } else {
                assert(all.take(k) =~= all);
            }
        }
        out
    }
}

/// The state with level `l` switched in the query's mask.
pub open spec fn toggled(w: StorageModel, l: Level) -> StorageModel {
    StorageModel { query: QueryModel { mask: w.query.mask.toggled(l), ..w.query }, ..w }
}

/// The state after an insert of `m`.
pub open spec fn inserted(w: StorageModel, m: Message) -> StorageModel {
    if !has_room(w, m) {
        w
    } else if w.skip == 0 {
        StorageModel { store: put_model(w.store, m), ..w }
    } else {
        StorageModel { skip_buffer: put_model(w.skip_buffer, m), ..w }
    }
}

/// The replies to `SetSkip(i)`: the number of records moved on a return
/// from skip 1 to 0, nothing otherwise.
pub open spec fn skip_replies(w: StorageModel, i: nat) -> Seq<ResultMessage> {
    if w.skip == 1 && i == 0 {
        seq![ResultMessage::Skip(total_count(w.skip_buffer.buckets) as usize)]
    } else {
        Seq::empty()
    }
}

/// The state after `SetSkip(i)`.
pub open spec fn skip_set(w: StorageModel, i: nat) -> StorageModel {
    if w.skip == 1 && i == 0 {
        StorageModel { skip: total_count(w.skip_buffer.buckets), ..drained(w) }
    } else if w.skip > 1 && i == 0 {
        StorageModel { skip: 0, ..drained(w) }
    } else {
        StorageModel { skip: i, ..w }
    }
}

proof fn lemma_put_bounds(s: StoreModel, m: Message)
    requires
        buckets_wf(s.buckets),
    ensures
        total_size(put_model(s, m).buckets) <= total_size(s.buckets) + record_cost(m),
        total_count(put_model(s, m).buckets) <= total_count(s.buckets) + 1,
{
    crate::messages::lemma_put_grows_at_most(s, m);
}

proof fn lemma_passing_concat(a: Seq<Message>, b: Seq<Message>, q: QueryModel)
    ensures
        passing(a + b, q) == passing(a, q) + passing(b, q),
    decreases b.len(),
{
    if b.len() == 0 {
        assert(a + b =~= a);
        assert(passing(a, q) + passing(b, q) =~= passing(a, q));
    } else {
        lemma_passing_concat(a, b.drop_last(), q);
        assert((a + b).drop_last() =~= a + b.drop_last());
        if passes(q, b.last()) {
            assert(passing(a, q) + passing(b.drop_last(), q).push(b.last()) =~= (passing(a, q) + passing(
                b.drop_last(),
                q,
            )).push(b.last()));
        }
    }
}

proof fn lemma_passing_counts(s: Seq<Message>, q: QueryModel, x: Message)
    ensures
        count_of(passing(s, q), x) == if passes(q, x) {
            count_of(s, x)
        } else {
            0
        },
    decreases s.len(),
{
    if s.len() > 0 {
        lemma_passing_counts(s.drop_last(), q, x);
        if passes(q, s.last()) {
            assert(passing(s, q).drop_last() =~= passing(s.drop_last(), q));
        }
    }
}

/// The filtered iteration holds exactly the records of the store that pass
/// the query's patterns and whose level the mask shows, each as often as the
/// store holds it.
pub proof fn lemma_query_result_exact(s: StoreModel, q: QueryModel, x: Message)
    requires
        buckets_wf(s.buckets),
    ensures
        count_of(passing(iteration(s, q.mask), q), x) == if passes(q, x) && q.mask.shows(x.level) {
            store_count(s.buckets, x)
        } else {
            0
        },
{
    lemma_passing_counts(iteration(s, q.mask), q, x);
    lemma_iteration_counts(s, q.mask, x);
}

/// Returning to follow mode from any skip leaves the skip buffer empty and
/// every record it held in the store, provided the store stays within its
/// budget meanwhile.
pub proof fn lemma_follow_keeps_records(w: StorageModel, x: Message)
    requires
        buckets_wf(w.store.buckets),
        buckets_wf(w.skip_buffer.buckets),
        w.skip > 0,
        total_size(w.store.buckets) + total_size(w.skip_buffer.buckets) <= w.store.budget,
    ensures
        total_count(skip_set(w, 0).skip_buffer.buckets) == 0,
        store_count(skip_set(w, 0).store.buckets, x) == store_count(w.store.buckets, x) + store_count(
            w.skip_buffer.buckets,
            x,
        ),
{
    lemma_drain_keeps_every_record(w.store, w.skip_buffer, x);
}

/// A snapshot never holds more than `result_size` records.
pub proof fn lemma_snapshot_bounded(w: StorageModel)
    ensures
        snapshot_of(w).len() <= w.result_size,
        w.result_size == 0 ==> snapshot_of(w).len() == 0,
{
}

/// A state whose store holds nothing publishes an empty snapshot.
pub proof fn lemma_empty_snapshot(w: StorageModel)
    requires
        total_count(w.store.buckets) == 0,
    ensures
        snapshot_of(w).len() == 0,
{
    lemma_empty_iterates_nothing(w.store, w.query.mask);
    assert(passing(iteration(w.store, w.query.mask), w.query).len() == 0);
}

/// Toggling one level twice gives back the state one started with.
pub proof fn lemma_toggle_twice_state(w: StorageModel, l: Level)
    ensures
        toggled(toggled(w, l), l) == w,
{
    crate::level::lemma_toggle_twice(w.query.mask, l);
}

proof fn lemma_passing_len(s: Seq<Message>, q: QueryModel)
    ensures
        passing(s, q).len() <= s.len(),
    decreases s.len(),
{
    if s.len() > 0 {
        lemma_passing_len(s.drop_last(), q);
    }
}

/// With no skip and room for every record, the snapshot is the whole
/// filtered iteration of the store.
pub proof fn lemma_full_snapshot(w: StorageModel)
    requires
        w.skip == 0,
        w.result_size >= total_count(w.store.buckets),
    ensures
        snapshot_of(w) == passing(iteration(w.store, w.query.mask), w.query),
{
    let x = passing(iteration(w.store, w.query.mask), w.query);
    lemma_passing_len(iteration(w.store, w.query.mask), w.query);
    lemma_iteration_len(w.store, w.query.mask);
    if x.len() > 0 {
        assert(x.subrange(0, x.len() as int) =~= x);
        if w.result_size == x.len() {
            assert(window(x, 0, w.result_size) =~= x);
        }
    }
}

} // verus!
