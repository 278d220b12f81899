//! A single-node Kafka-style log kept in one byte block.
//!
//! Each record is laid out little-endian as `[u32 length][u64 offset][u64 value]`,
//! where the length counts the whole record. Offsets are handed out in sequence
//! from 0, and each key keeps the offsets of its records in append order.
use vstd::prelude::*;
use vstd::bytes::*;
use vstd::slice::slice_subrange;
use crate::message::GanError;

verus! {

pub const U32_LEN: usize = 4;

pub const U64_LEN: usize = 8;

/// Bytes taken by one record: its length, its offset and its value.
pub const RECORD_LEN: usize = 20;

/// The bytes of one record.
pub open spec fn record_bytes(offset: u64, value: u64) -> Seq<u8> {
    spec_u32_to_le_bytes(RECORD_LEN as u32) + spec_u64_to_le_bytes(offset) + spec_u64_to_le_bytes(
        value,
    )
}

/// The bytes of a sequence of `(key, offset, value)` records, in order.
pub open spec fn log_bytes(recs: Seq<(Seq<char>, u64, u64)>) -> Seq<u8>
    decreases recs.len(),
{
    if recs.len() == 0 {
        Seq::empty()
    } else {
        log_bytes(recs.drop_last()) + record_bytes(recs.last().1, recs.last().2)
    }
}

/// The `(offset, value)` pairs of the records of key `k`, in order.
pub open spec fn key_log(recs: Seq<(Seq<char>, u64, u64)>, k: Seq<char>) -> Seq<(u64, u64)>
    decreases recs.len(),
{
    if recs.len() == 0 {
        Seq::empty()
    } else {
        let p = key_log(recs.drop_last(), k);
        if recs.last().0 == k {
            p.push((recs.last().1, recs.last().2))
        } else {
            p
        }
    }
}

/// The entries of `log` at or beyond offset `from`, in order.
pub open spec fn from_offset(log: Seq<(u64, u64)>, from: u64) -> Seq<(u64, u64)>
    decreases log.len(),
{
    if log.len() == 0 {
        Seq::empty()
    } else {
        let p = from_offset(log.drop_last(), from);
        if log.last().0 >= from {
            p.push(log.last())
        } else {
            p
        }
    }
}

/// The offsets of a log, in order.
pub open spec fn offsets_of(log: Seq<(u64, u64)>) -> Seq<u64> {
    log.map_values(|e: (u64, u64)| e.0)
}

/// Offsets that strictly increase along the sequence.
pub open spec fn strictly_increasing(s: Seq<u64>) -> bool {
    forall|i: int, j: int| 0 <= i < j < s.len() ==> s[i] < s[j]
}

/// The Kafka storage of one node.
pub struct KafkaStorage {
    data_block: Vec<u8>,
    topics: Vec<String>,
    topic_offsets: Vec<Vec<u64>>,
    committed: Vec<(String, u64)>,
    current_offset: u64,
    records: Ghost<Seq<(Seq<char>, u64, u64)>>,
}

impl KafkaStorage {
    /// The records of every key, in append order.
    pub closed spec fn records(&self) -> Seq<(Seq<char>, u64, u64)> {
        self.records@
    }

    /// The bytes of the log block.
    pub closed spec fn data(&self) -> Seq<u8> {
        self.data_block@
    }

    /// The `(offset, value)` pairs sent under key `k`, in order.
    pub open spec fn log_of(&self, k: Seq<char>) -> Seq<(u64, u64)> {
        key_log(self.records(), k)
    }

    /// The offset the next `send` hands out.
    pub closed spec fn next_offset(&self) -> u64 {
        self.current_offset
    }

    /// The offset committed for key `k`, if any.
    pub closed spec fn committed_of(&self, k: Seq<char>) -> Option<u64> {
        committed_lookup(self.committed@, k)
    }

    pub closed spec fn wf(&self) -> bool {
        &&& self.data_block@ == log_bytes(self.records@)
        &&& forall|i: int| 0 <= i < self.records@.len() ==> #[trigger] self.records@[i].1 < self.current_offset
        &&& forall|i: int, j: int| 0 <= i < j < self.records@.len()
            ==> #[trigger] self.records@[i].1 < #[trigger] self.records@[j].1
        &&& self.topics@.len() == self.topic_offsets@.len()
        &&& forall|i: int, j: int| 0 <= i < j < self.topics@.len()
            ==> #[trigger] self.topics@[i]@ != #[trigger] self.topics@[j]@
        &&& forall|i: int| 0 <= i < self.topics@.len()
            ==> #[trigger] self.topic_offsets@[i]@ == offsets_of(key_log(self.records@, self.topics@[i]@))
        &&& forall|i: int| 0 <= i < self.topics@.len() ==> {
            &&& strictly_increasing(#[trigger] self.topic_offsets@[i]@)
            &&& forall|j: int| 0 <= j < self.topic_offsets@[i]@.len() ==> #[trigger] self.topic_offsets@[i]@[j] < self.current_offset
        }
        &&& forall|k: Seq<char>| #[trigger] key_log(self.records@, k).len() > 0
            ==> exists|i: int| 0 <= i < self.topics@.len() && #[trigger] self.topics@[i]@ == k
        &&& forall|i: int, j: int| 0 <= i < j < self.committed@.len()
            ==> #[trigger] self.committed@[i].0@ != #[trigger] self.committed@[j].0@
    }

    /// An empty storage: no records, no commits, offsets start at 0.
    pub fn new() -> (r: Self)
        ensures
            r.wf(),
            r.next_offset() == 0,
            forall|k: Seq<char>| #[trigger] r.log_of(k) == Seq::<(u64, u64)>::empty(),
            forall|k: Seq<char>| #[trigger] r.committed_of(k) is None,
    {
        let r = KafkaStorage {
            data_block: Vec::new(),
            topics: Vec::new(),
            topic_offsets: Vec::new(),
            committed: Vec::new(),
            current_offset: 0,
            records: Ghost(Seq::empty()),
        };
        proof {
            assert(r.data_block@ =~= log_bytes(r.records@));
        }
        r
    }

    /// Appends `value` under `key` and returns the offset it was given: the
    /// next one in sequence. Fails, changing nothing, once offsets run out.
    pub fn send(&mut self, key: String, value: u64) -> (r: Result<u64, GanError>)
        requires
            old(self).wf(),
        ensures
            final(self).wf(),
            old(self).next_offset() < u64::MAX <==> r is Ok,
            r matches Ok(o) ==> {
                &&& o == old(self).next_offset()
                &&& final(self).data() == old(self).data() + record_bytes(o, value)
                &&& forall|j: int| 0 <= j < old(self).log_of(key@).len() ==> #[trigger] old(self).log_of(key@)[j].0 < o
                &&& final(self).next_offset() == o + 1
                &&& final(self).log_of(key@) == old(self).log_of(key@).push((o, value))
                &&& forall|k: Seq<char>| k != key@ ==> #[trigger] final(self).log_of(k) == old(self).log_of(k)
                &&& forall|k: Seq<char>| #[trigger] final(self).committed_of(k) == old(self).committed_of(k)
            },
            r is Err ==> *final(self) == *old(self),
    {
        if self.current_offset == u64::MAX {
            return Err(GanError::Normal("no offsets left".to_string()));
        }
        proof {
            lemma_log_offsets_increase(&*self, key@);
            assert(forall|j: int| 0 <= j < offsets_of(self.log_of(key@)).len()
                ==> #[trigger] offsets_of(self.log_of(key@))[j] == self.log_of(key@)[j].0);
        }
        let offset = self.current_offset;
        let mut bytes = u32_to_le_bytes(RECORD_LEN as u32);
        let mut ofs_bytes = u64_to_le_bytes(offset);
        let mut value_bytes = u64_to_le_bytes(value);
        bytes.append(&mut ofs_bytes);
        bytes.append(&mut value_bytes);
        self.data_block.append(&mut bytes);
        let ghost rec = (key@, offset, value);
        let ghost old_recs = self.records@;
        proof {
            lemma_push_record(old_recs, rec);
            assert(self.data_block@ =~= log_bytes(old_recs.push(rec)));
        }
        self.records = Ghost(old_recs.push(rec));
        match find_key(&self.topics, &key) {
            Some(i) => {
                let ghost oq = self.topic_offsets@[i as int]@;
                self.topic_offsets[i].push(offset);
                proof {
                    assert(self.topic_offsets@[i as int]@ == oq.push(offset));
                    assert forall|t: int| 0 <= t < self.topics@.len() && t != i implies
                        #[trigger] self.topic_offsets@[t] == old(self).topic_offsets@[t] by {}
                    assert(offsets_of(key_log(old_recs.push(rec), key@)) =~= offsets_of(key_log(old_recs, key@)).push(offset));
                    assert forall|t: int| 0 <= t < self.topics@.len() implies
                        #[trigger] self.topic_offsets@[t]@ == offsets_of(key_log(self.records@, self.topics@[t]@)) by {
                        if t != i {
                            assert(self.topics@[t]@ != key@);
                        }
                    }
                    assert forall|k: Seq<char>| #[trigger] key_log(self.records@, k).len() > 0
                        implies exists|t: int| 0 <= t < self.topics@.len() && #[trigger] self.topics@[t]@ == k by {
                        if k == rec.0 {
                            assert(self.topics@[i as int]@ == k);
                        }
                    }
                }
            },
            None => {
                let ghost old_topics = self.topics@;
                let mut q: Vec<u64> = Vec::new();
                q.push(offset);
                self.topics.push(key);
                self.topic_offsets.push(q);
                proof {
                    assert(key_log(old_recs, rec.0).len() == 0);
                    assert(offsets_of(key_log(old_recs.push(rec), rec.0)) =~= seq![offset]);
                    assert forall|t: int| 0 <= t < self.topics@.len() implies
                        #[trigger] self.topic_offsets@[t]@ == offsets_of(key_log(self.records@, self.topics@[t]@)) by {
                        if t < old_topics.len() {
                            assert(self.topics@[t] == old_topics[t]);
                        }
                    }
                    assert forall|k: Seq<char>| #[trigger] key_log(self.records@, k).len() > 0
                        implies exists|t: int| 0 <= t < self.topics@.len() && #[trigger] self.topics@[t]@ == k by {
                        if k == rec.0 {
                            assert(self.topics@[old_topics.len() as int]@ == k);
                        } else {
                            let t = choose|t: int| 0 <= t < old_topics.len() && #[trigger] old_topics[t]@ == k;
                            assert(self.topics@[t]@ == k);
                        }
                    }
                }
            },
        }
        self.current_offset = offset + 1;
        proof {
            assert forall|t: int| 0 <= t < self.topics@.len() implies {
                &&& strictly_increasing(#[trigger] self.topic_offsets@[t]@)
                &&& forall|j: int| 0 <= j < self.topic_offsets@[t]@.len() ==> #[trigger] self.topic_offsets@[t]@[j] < self.current_offset
            } by {
                let q = self.topic_offsets@[t]@;
                if t < old(self).topics@.len() {
                    let oq = old(self).topic_offsets@[t]@;
                    assert(forall|j: int| 0 <= j < oq.len() ==> #[trigger] oq[j] < offset);
                    if q != oq {
                        assert(q == oq.push(offset));
                        assert forall|a: int, b: int| 0 <= a < b < q.len() implies #[trigger] q[a] < #[trigger] q[b] by {
                            if b < oq.len() {
                                assert(oq[a] < oq[b]);
                            } else {
                                assert(q[a] == oq[a]);
                            }
                        }
                    }
                } else {
                    assert(q == seq![offset]);
                }
            }
        }
        Ok(offset)
    }

    /// Records `o` as the committed offset of each `(k, o)`, overwriting any
    /// earlier one. The log itself is not touched.
    pub fn commit_offsets(&mut self, offsets: Vec<(String, u64)>) -> (r: Result<(), GanError>)
        requires
            old(self).wf(),
        ensures
            r is Ok,
            final(self).wf(),
            final(self).next_offset() == old(self).next_offset(),
            forall|k: Seq<char>| #[trigger] final(self).log_of(k) == old(self).log_of(k),
            forall|k: Seq<char>| #[trigger] final(self).committed_of(k) == match last_commit(offsets@, k) {
                Some(o) => Some(o),
                None => old(self).committed_of(k),
            },
    {
        let mut n: usize = 0;
        while n < offsets.len()
            invariant
                self.wf(),
                n <= offsets@.len(),
                self.next_offset() == old(self).next_offset(),
                self.records() == old(self).records(),
                forall|k: Seq<char>| #[trigger] self.committed_of(k) == match last_commit(offsets@.subrange(0, n as int), k) {
                    Some(o) => Some(o),
                    None => old(self).committed_of(k),
                },
            decreases offsets@.len() - n,
        {
            let k = offsets[n].0.clone();
            let o = offsets[n].1;
            proof {
                assert(offsets@.subrange(0, n + 1).drop_last() =~= offsets@.subrange(0, n as int));
            }
            self.commit_one(k, o);
            proof {
                let sub = offsets@.subrange(0, n + 1);
                assert(sub.last() == offsets@[n as int]);
                assert forall|k2: Seq<char>| #[trigger] self.committed_of(k2) == match last_commit(sub, k2) {
                    Some(o) => Some(o),
                    None => old(self).committed_of(k2),
                } by {
                    if k2 != offsets@[n as int].0@ {
                        assert(last_commit(sub, k2) == last_commit(offsets@.subrange(0, n as int), k2));
                    }
                }
            }
            n = n + 1;
        }
        proof {
            assert(offsets@.subrange(0, n as int) =~= offsets@);
        }
        Ok(())
    }

    #[verifier::rlimit(20)]
    fn commit_one(&mut self, k: String, o: u64)
        requires
            old(self).wf(),
        ensures
            final(self).wf(),
            final(self).next_offset() == old(self).next_offset(),
            final(self).records() == old(self).records(),
            final(self).committed_of(k@) == Some(o),
            forall|k2: Seq<char>| k2 != k@ ==> #[trigger] final(self).committed_of(k2) == old(self).committed_of(k2),
    {
        let ghost before = self.committed@;
        let ghost kv = k@;
        let ghost keys_have_topics = forall|k: Seq<char>| #[trigger] key_log(self.records@, k).len() > 0
            ==> exists|i: int| 0 <= i < self.topics@.len() && #[trigger] self.topics@[i]@ == k;
        assert(keys_have_topics);
        match find_committed(&self.committed, &k) {
            Some(i) => {
                self.committed[i] = (k, o);
                proof {
                    let c = self.committed@;
                    assert forall|a: int, b: int| 0 <= a < b < c.len() implies #[trigger] c[a].0@ != #[trigger] c[b].0@ by {
                        assert(before[a].0@ != before[b].0@);
                    }
                    lemma_lookup_distinct(c, kv);
                    assert forall|k2: Seq<char>| k2 != kv implies #[trigger] committed_lookup(c, k2) == committed_lookup(before, k2) by {
                        lemma_lookup_distinct(c, k2);
                        lemma_lookup_distinct(before, k2);
                        if exists|j: int| 0 <= j < before.len() && before[j].0@ == k2 {
                            let j = choose|j: int| 0 <= j < before.len() && before[j].0@ == k2;
                            assert(c[j] == before[j]);
                        } else {
                            assert forall|j: int| 0 <= j < c.len() implies #[trigger] c[j].0@ != k2 by {
                                if j != i {
                                    assert(c[j] == before[j]);
                                }
                            }
                        }
                    }
                    assert(c[i as int].0@ == kv);
                }
            },
            None => {
                self.committed.push((k, o));
                proof {
                    let c = self.committed@;
                    assert(c.drop_last() =~= before);
                    assert forall|a: int, b: int| 0 <= a < b < c.len() implies #[trigger] c[a].0@ != #[trigger] c[b].0@ by {
                        if b < c.len() - 1 {
                            assert(before[a].0@ != before[b].0@);
                        } else {
                            assert(c[a] == before[a]);
                        }
                    }
                }
            },
        }
    }

    /// The committed offset of each of `keys` that has one, in the order of `keys`.
    pub fn list_committed_offsets(&self, keys: Vec<String>) -> (r: Vec<(String, u64)>)
        requires
            self.wf(),
        ensures
            pairs_view(r@) == self.listed(strings_view(keys@)),
    {
        let mut r: Vec<(String, u64)> = Vec::new();
        let mut n: usize = 0;
        while n < keys.len()
            invariant
                self.wf(),
                n <= keys@.len(),
                pairs_view(r@) == self.listed(strings_view(keys@.subrange(0, n as int))),
            decreases keys@.len() - n,
        {
            let k = keys[n].clone();
            proof {
                lemma_lookup_distinct(self.committed@, k@);
                assert(strings_view(keys@.subrange(0, n + 1)).drop_last() =~= strings_view(keys@.subrange(0, n as int)));
            }
            match find_committed(&self.committed, &k) {
                Some(i) => {
                    let o = self.committed[i].1;
                    r.push((k, o));
                    proof {
                        assert(pairs_view(r@) =~= pairs_view(r@.drop_last()).push((k@, o)));
                    }
                },
                None => {},
            }
            n = n + 1;
        }
        proof {
            assert(keys@.subrange(0, n as int) =~= keys@);
        }
        r
    }

    /// What polling `reqs` gives: for each `(key, from)` in order, the key's
    /// entries at or beyond `from`, left out when there are none.
    pub open spec fn polled(&self, reqs: Seq<(Seq<char>, u64)>) -> Seq<(Seq<char>, Seq<(u64, u64)>)>
        decreases reqs.len(),
    {
        if reqs.len() == 0 {
            Seq::empty()
        } else {
            let p = self.polled(reqs.drop_last());
            let e = from_offset(self.log_of(reqs.last().0), reqs.last().1);
            if e.len() > 0 {
                p.push((reqs.last().0, e))
            } else {
                p
            }
        }
    }

    /// For each `(key, from)` of `offsets`, the `(offset, value)` entries of
    /// that key at or beyond `from`, in offset order; keys with none are left out.
    pub fn poll(&self, offsets: Vec<(String, u64)>) -> (r: Result<Vec<(String, Vec<(u64, u64)>)>, GanError>)
        requires
            self.wf(),
        ensures
            r matches Ok(v) && polled_view(v@) == self.polled(pairs_view(offsets@)),
    {
        let mut result: Vec<(String, Vec<(u64, u64)>)> = Vec::new();
        if self.data_block.len() <= U32_LEN || offsets.len() == 0 {
            proof {
                lemma_log_bytes_len(self.records@);
                if offsets@.len() > 0 {
                    assert forall|k: Seq<char>| #[trigger] self.log_of(k) == Seq::<(u64, u64)>::empty() by {
                        assert(self.records@.len() == 0);
                    }
                    lemma_polled_nothing(self, pairs_view(offsets@));
                }
                assert(polled_view(result@) =~= Seq::<(Seq<char>, Seq<(u64, u64)>)>::empty());
            }
            return Ok(result);
        }
        let mut n: usize = 0;
        while n < offsets.len()
            invariant
                self.wf(),
                n <= offsets@.len(),
                polled_view(result@) == self.polled(pairs_view(offsets@.subrange(0, n as int))),
            decreases offsets@.len() - n,
        {
            let k = offsets[n].0.clone();
            let from = offsets[n].1;
            let ghost reqs = pairs_view(offsets@.subrange(0, n + 1));
            proof {
                assert(reqs.drop_last() =~= pairs_view(offsets@.subrange(0, n as int)));
                assert(reqs.last() == (k@, from));
            }
            match find_key(&self.topics, &k) {
                None => {
                    proof {
                        if self.log_of(k@).len() > 0 {
                            let t = choose|t: int| 0 <= t < self.topics@.len() && #[trigger] self.topics@[t]@ == k@;
                        }
                        assert(self.log_of(k@) =~= Seq::<(u64, u64)>::empty());
                    }
                },
                Some(t) => {
                    let q = &self.topic_offsets[t];
                    let idx = lower_bound(q, from);
                    let ghost log = self.log_of(k@);
                    proof {
                        assert(q@ == offsets_of(log));
                        assert forall|j: int| 0 <= j < idx implies #[trigger] log[j].0 < from by {
                            assert(q@[j] == log[j].0);
                        }
                        assert forall|j: int| idx <= j < log.len() implies #[trigger] log[j].0 >= from by {
                            assert(q@[j] == log[j].0);
                        }
                        lemma_from_offset_split(log, from, idx as int);
                    }
                    if idx < q.len() {
                        proof {
                            assert(offsets_of(selected(self.records@, k@, from)) =~= q@.subrange(idx as int, q@.len() as int));
                        }
                        match parse_records(self.data_block.as_slice(), q, idx, Ghost(self.records@), Ghost(k@), Ghost(from)) {
                            Some(values) => {
                                result.push((k, values));
                                proof {
                                    assert(polled_view(result@) =~= polled_view(result@.drop_last()).push((k@, from_offset(log, from))));
                                }
                            },
                            None => {
                                return Err(GanError::Normal("a polled record is missing from the log".to_string()));
                            },
                        }
                    } else {
                        proof {
                            assert(from_offset(log, from) =~= Seq::<(u64, u64)>::empty());
                        }
                    }
                },
            }
            n = n + 1;
        }
        proof {
            assert(offsets@.subrange(0, n as int) =~= offsets@);
        }
        Ok(result)
    }

    /// The `(key, offset)` pairs that listing `keys` gives: each key with a
    /// committed offset, in order.
    pub open spec fn listed(&self, keys: Seq<Seq<char>>) -> Seq<(Seq<char>, u64)>
        decreases keys.len(),
    {
        if keys.len() == 0 {
            Seq::empty()
        } else {
            let p = self.listed(keys.drop_last());
            match self.committed_of(keys.last()) {
                Some(o) => p.push((keys.last(), o)),
                None => p,
            }
        }
    }
}

/// The log block holds each record, in append order, laid out as
/// `[u32 length][u64 offset][u64 value]`, little-endian.
pub proof fn lemma_data_layout(s: &KafkaStorage)
    requires
        s.wf(),
    ensures
        s.data() == log_bytes(s.records()),
{
}

/// Along the log of any key, offsets strictly increase.
pub proof fn lemma_log_offsets_increase(s: &KafkaStorage, k: Seq<char>)
    requires
        s.wf(),
    ensures
        strictly_increasing(offsets_of(s.log_of(k))),
        forall|j: int| 0 <= j < s.log_of(k).len() ==> #[trigger] s.log_of(k)[j].0 < s.next_offset(),
{
    if s.log_of(k).len() > 0 {
        let t = choose|t: int| 0 <= t < s.topics@.len() && #[trigger] s.topics@[t]@ == k;
        assert(s.topic_offsets@[t]@ == offsets_of(s.log_of(k)));
        assert forall|j: int| 0 <= j < s.log_of(k).len() implies #[trigger] s.log_of(k)[j].0 < s.next_offset() by {
            assert(s.topic_offsets@[t]@[j] == s.log_of(k)[j].0);
        }
    }
}

/// Polling from `from` gives only entries at or beyond `from`, in strictly
/// increasing offset order.
pub proof fn lemma_poll_order(s: &KafkaStorage, k: Seq<char>, from: u64)
    requires
        s.wf(),
    ensures
        forall|j: int| 0 <= j < from_offset(s.log_of(k), from).len()
            ==> #[trigger] from_offset(s.log_of(k), from)[j].0 >= from,
        strictly_increasing(offsets_of(from_offset(s.log_of(k), from))),
{
    lemma_log_offsets_increase(s, k);
    lemma_from_offset_sub(s.log_of(k), from);
}

proof fn lemma_from_offset_sub(log: Seq<(u64, u64)>, from: u64)
    requires
        strictly_increasing(offsets_of(log)),
    ensures
        forall|j: int| 0 <= j < from_offset(log, from).len() ==> #[trigger] from_offset(log, from)[j].0 >= from,
        strictly_increasing(offsets_of(from_offset(log, from))),
        forall|j: int| 0 <= j < from_offset(log, from).len() ==> exists|i: int| 0 <= i < log.len()
            && #[trigger] from_offset(log, from)[j] == log[i],
    decreases log.len(),
{
    if log.len() > 0 {
        let ll = log.drop_last();
        assert forall|a: int, b: int| 0 <= a < b < offsets_of(ll).len() implies
            #[trigger] offsets_of(ll)[a] < #[trigger] offsets_of(ll)[b] by {
            assert(offsets_of(log)[a] < offsets_of(log)[b]);
        }
        lemma_from_offset_sub(ll, from);
        let p = from_offset(ll, from);
        assert forall|j: int| 0 <= j < p.len() implies exists|i: int| 0 <= i < log.len()
            && #[trigger] p[j] == log[i] by {
            let i = choose|i: int| 0 <= i < ll.len() && #[trigger] p[j] == ll[i];
            assert(log[i] == ll[i]);
        }
        if log.last().0 >= from {
            let e = from_offset(log, from);
            assert forall|a: int, b: int| 0 <= a < b < offsets_of(e).len() implies
                #[trigger] offsets_of(e)[a] < #[trigger] offsets_of(e)[b] by {
                assert(e[a] == p[a]);
                if b == e.len() - 1 {
                    let i = choose|i: int| 0 <= i < ll.len() && #[trigger] p[a] == ll[i];
                    assert(offsets_of(log)[i] < offsets_of(log)[log.len() - 1]);
                    assert(e[b] == log[log.len() - 1]);
                } else {
                    assert(e[b] == p[b]);
                    assert(offsets_of(p)[a] < offsets_of(p)[b]);
                }
            }
            assert forall|j: int| 0 <= j < e.len() implies exists|i: int| 0 <= i < log.len()
                && #[trigger] e[j] == log[i] by {
                if j == e.len() - 1 {
                    assert(e[j] == log[log.len() - 1]);
                } else {
                    assert(e[j] == p[j]);
                }
            }
        }
    }
}

/// After offset `o` is committed for key `k`, listing `[k]` gives `[(k, o)]`.
pub proof fn lemma_commit_then_list(s: &KafkaStorage, k: Seq<char>, o: u64)
    requires
        s.committed_of(k) == Some(o),
    ensures
        s.listed(seq![k]) == seq![(k, o)],
{
    assert(seq![k].drop_last() =~= Seq::<Seq<char>>::empty());
    assert(s.listed(Seq::<Seq<char>>::empty()) == Seq::<(Seq<char>, u64)>::empty());
    assert(Seq::<(Seq<char>, u64)>::empty().push((k, o)) =~= seq![(k, o)]);
}

/// The position of key `k` among `topics`, if it is there.
fn find_key(topics: &Vec<String>, k: &String) -> (r: Option<usize>)
    ensures
        r matches Some(i) ==> i < topics@.len() && topics@[i as int]@ == k@,
        r is None ==> forall|i: int| 0 <= i < topics@.len() ==> #[trigger] topics@[i]@ != k@,
{
    let mut i: usize = 0;
    while i < topics.len()
        invariant
            i <= topics@.len(),
            forall|j: int| 0 <= j < i ==> #[trigger] topics@[j]@ != k@,
        decreases topics@.len() - i,
    {
        if topics[i] == *k {
            return Some(i);
        }
        i = i + 1;
    }
    None
}

/// The position of key `k` among the commits, if it is there.
fn find_committed(c: &Vec<(String, u64)>, k: &String) -> (r: Option<usize>)
    ensures
        r matches Some(i) ==> i < c@.len() && c@[i as int].0@ == k@,
        r is None ==> forall|i: int| 0 <= i < c@.len() ==> #[trigger] c@[i].0@ != k@,
{
    let mut i: usize = 0;
    while i < c.len()
        invariant
            i <= c@.len(),
            forall|j: int| 0 <= j < i ==> #[trigger] c@[j].0@ != k@,
        decreases c@.len() - i,
    {
        if c[i].0 == *k {
            return Some(i);
        }
        i = i + 1;
    }
    None
}

proof fn lemma_push_record(recs: Seq<(Seq<char>, u64, u64)>, rec: (Seq<char>, u64, u64))
    ensures
        log_bytes(recs.push(rec)) == log_bytes(recs) + record_bytes(rec.1, rec.2),
        key_log(recs.push(rec), rec.0) == key_log(recs, rec.0).push((rec.1, rec.2)),
        forall|k: Seq<char>| k != rec.0 ==> #[trigger] key_log(recs.push(rec), k) == key_log(recs, k),
{
    assert(recs.push(rec).drop_last() =~= recs);
}

/// The first position of `q` whose offset is at least `x`.
pub fn lower_bound(q: &Vec<u64>, x: u64) -> (idx: usize)
    requires
        strictly_increasing(q@),
    ensures
        idx <= q@.len(),
        forall|j: int| 0 <= j < idx ==> #[trigger] q@[j] < x,
        forall|j: int| idx <= j < q@.len() ==> #[trigger] q@[j] >= x,
{
    let mut lo: usize = 0;
    let mut hi: usize = q.len();
    while lo < hi
        invariant
            lo <= hi <= q@.len(),
            strictly_increasing(q@),
            forall|j: int| 0 <= j < lo ==> #[trigger] q@[j] < x,
            forall|j: int| hi <= j < q@.len() ==> #[trigger] q@[j] >= x,
        decreases hi - lo,
    {
        let mid = lo + (hi - lo) / 2;
        if q[mid] < x {
            lo = mid + 1;
        } else {
            hi = mid;
        }
    }
    lo
}

/// The offset recorded for key `k` in a list of distinct-key commits.
pub open spec fn committed_lookup(c: Seq<(String, u64)>, k: Seq<char>) -> Option<u64>
    decreases c.len(),
{
    if c.len() == 0 {
        None
    } else if c.last().0@ == k {
        Some(c.last().1)
    } else {
        committed_lookup(c.drop_last(), k)
    }
}

/// The last offset given for key `k` in a list of commits, if any.
pub open spec fn last_commit(offsets: Seq<(String, u64)>, k: Seq<char>) -> Option<u64>
    decreases offsets.len(),
{
    if offsets.len() == 0 {
        None
    } else if offsets.last().0@ == k {
        Some(offsets.last().1)
    } else {
        last_commit(offsets.drop_last(), k)
    }
}

/// Poll results seen through the keys' chars and the entries' views.
pub open spec fn polled_view(p: Seq<(String, Vec<(u64, u64)>)>) -> Seq<(Seq<char>, Seq<(u64, u64)>)> {
    p.map_values(|e: (String, Vec<(u64, u64)>)| (e.0@, e.1@))
}

proof fn lemma_polled_nothing(s: &KafkaStorage, reqs: Seq<(Seq<char>, u64)>)
    requires
        forall|k: Seq<char>| #[trigger] s.log_of(k) == Seq::<(u64, u64)>::empty(),
    ensures
        s.polled(reqs) == Seq::<(Seq<char>, Seq<(u64, u64)>)>::empty(),
    decreases reqs.len(),
{
    if reqs.len() > 0 {
        lemma_polled_nothing(s, reqs.drop_last());
        assert(s.log_of(reqs.last().0) == Seq::<(u64, u64)>::empty());
    }
}

proof fn lemma_log_bytes_len(recs: Seq<(Seq<char>, u64, u64)>)
    ensures
        log_bytes(recs).len() == RECORD_LEN * recs.len(),
    decreases recs.len(),
{
    if recs.len() > 0 {
        lemma_log_bytes_len(recs.drop_last());
        lemma_record_bytes(recs.last().1, recs.last().2);
    }
}

/// A list of `(key, offset)` pairs seen through the keys' chars.
pub open spec fn pairs_view(p: Seq<(String, u64)>) -> Seq<(Seq<char>, u64)> {
    p.map_values(|e: (String, u64)| (e.0@, e.1))
}

/// The chars of each string, in order.
pub open spec fn strings_view(s: Seq<String>) -> Seq<Seq<char>> {
    s.map_values(|e: String| e@)
}

proof fn lemma_lookup_distinct(c: Seq<(String, u64)>, k: Seq<char>)
    requires
        forall|i: int, j: int| 0 <= i < j < c.len() ==> #[trigger] c[i].0@ != #[trigger] c[j].0@,
    ensures
        forall|i: int| 0 <= i < c.len() && #[trigger] c[i].0@ == k ==> committed_lookup(c, k) == Some(c[i].1),
        (forall|i: int| 0 <= i < c.len() ==> #[trigger] c[i].0@ != k) ==> committed_lookup(c, k) is None,
    decreases c.len(),
{
    if c.len() > 0 {
        lemma_lookup_distinct(c.drop_last(), k);
        assert forall|i: int| 0 <= i < c.len() && #[trigger] c[i].0@ == k implies committed_lookup(c, k) == Some(c[i].1) by {
            if i < c.len() - 1 {
                assert(c.drop_last()[i] == c[i]);
            }
        }
        if forall|i: int| 0 <= i < c.len() ==> #[trigger] c[i].0@ != k {
            assert forall|i: int| 0 <= i < c.drop_last().len() implies #[trigger] c.drop_last()[i].0@ != k by {
                assert(c.drop_last()[i] == c[i]);
            }
        }
    }
}

/// The entries of key `k` at or beyond offset `from`, for records `recs`.
pub open spec fn selected(recs: Seq<(Seq<char>, u64, u64)>, k: Seq<char>, from: u64) -> Seq<(u64, u64)> {
    from_offset(key_log(recs, k), from)
}

proof fn lemma_selected_push(recs: Seq<(Seq<char>, u64, u64)>, r: (Seq<char>, u64, u64), k: Seq<char>, from: u64)
    ensures
        selected(recs.push(r), k, from) == if r.0 == k && r.1 >= from {
            selected(recs, k, from).push((r.1, r.2))
        } else {
            selected(recs, k, from)
        },
{
    assert(recs.push(r).drop_last() =~= recs);
    if r.0 == k {
        assert(key_log(recs.push(r), k).drop_last() =~= key_log(recs, k));
    }
}

proof fn lemma_selected_append(a: Seq<(Seq<char>, u64, u64)>, b: Seq<(Seq<char>, u64, u64)>, k: Seq<char>, from: u64)
    ensures
        selected(a + b, k, from) == selected(a, k, from) + selected(b, k, from),
    decreases b.len(),
{
    if b.len() == 0 {
        assert(a + b =~= a);
        assert(selected(a, k, from) + selected(b, k, from) =~= selected(a, k, from));
    } else {
        let bl = b.drop_last();
        lemma_selected_append(a, bl, k, from);
        assert(a + b =~= (a + bl).push(b.last()));
        assert(b =~= bl.push(b.last()));
        lemma_selected_push(a + bl, b.last(), k, from);
        lemma_selected_push(bl, b.last(), k, from);
        if b.last().0 == k && b.last().1 >= from {
            assert(selected(a, k, from) + selected(bl, k, from).push((b.last().1, b.last().2))
                =~= (selected(a, k, from) + selected(bl, k, from)).push((b.last().1, b.last().2)));
        }
    }
}

#[verifier::rlimit(30)]
proof fn lemma_selected_members(recs: Seq<(Seq<char>, u64, u64)>, k: Seq<char>, from: u64)
    ensures
        forall|m: int| #![trigger selected(recs, k, from)[m]] 0 <= m < selected(recs, k, from).len() ==> exists|j: int|
            #![trigger recs[j]] 0 <= j < recs.len() && recs[j].1 == selected(recs, k, from)[m].0,
    decreases recs.len(),
{
    if recs.len() > 0 {
        let rl = recs.drop_last();
        lemma_selected_members(rl, k, from);
        assert(recs =~= rl.push(recs.last()));
        lemma_selected_push(rl, recs.last(), k, from);
        assert forall|m: int| #![trigger selected(recs, k, from)[m]] 0 <= m < selected(recs, k, from).len() implies exists|j: int|
            #![trigger recs[j]] 0 <= j < recs.len() && recs[j].1 == selected(recs, k, from)[m].0 by {
            if m < selected(rl, k, from).len() {
                assert(selected(recs, k, from)[m] == selected(rl, k, from)[m]);
                let j = choose|j: int| #![trigger rl[j]] 0 <= j < rl.len() && rl[j].1 == selected(rl, k, from)[m].0;
                assert(recs[j] == rl[j]);
            } else {
                assert(recs[recs.len() - 1].1 == selected(recs, k, from)[m].0);
            }
        }
    }
}

proof fn lemma_from_offset_split(log: Seq<(u64, u64)>, from: u64, idx: int)
    requires
        0 <= idx <= log.len(),
        forall|j: int| 0 <= j < idx ==> #[trigger] log[j].0 < from,
        forall|j: int| idx <= j < log.len() ==> #[trigger] log[j].0 >= from,
    ensures
        from_offset(log, from) == log.subrange(idx, log.len() as int),
    decreases log.len(),
{
    if log.len() > 0 {
        let ll = log.drop_last();
        if idx == log.len() {
            lemma_from_offset_split(ll, from, idx - 1);
        } else {
            lemma_from_offset_split(ll, from, idx);
            assert(ll.subrange(idx, ll.len() as int).push(log.last()) =~= log.subrange(idx, log.len() as int));
        }
    }
}

proof fn lemma_log_bytes_append(a: Seq<(Seq<char>, u64, u64)>, b: Seq<(Seq<char>, u64, u64)>)
    ensures
        log_bytes(a + b) == log_bytes(a) + log_bytes(b),
    decreases b.len(),
{
    if b.len() == 0 {
        assert(a + b =~= a);
        assert(log_bytes(a) + log_bytes(b) =~= log_bytes(a));
    } else {
        let bl = b.drop_last();
        lemma_log_bytes_append(a, bl);
        assert((a + b).drop_last() =~= a + bl);
        assert((log_bytes(a) + log_bytes(bl)) + record_bytes(b.last().1, b.last().2)
            =~= log_bytes(a) + (log_bytes(bl) + record_bytes(b.last().1, b.last().2)));
    }
}

proof fn lemma_log_bytes_skip(recs: Seq<(Seq<char>, u64, u64)>, i: int)
    requires
        0 <= i < recs.len(),
    ensures
        log_bytes(recs.subrange(i, recs.len() as int)) == record_bytes(recs[i].1, recs[i].2)
            + log_bytes(recs.subrange(i + 1, recs.len() as int)),
{
    let one = seq![recs[i]];
    assert(one + recs.subrange(i + 1, recs.len() as int) =~= recs.subrange(i, recs.len() as int));
    lemma_log_bytes_append(one, recs.subrange(i + 1, recs.len() as int));
    assert(one.drop_last() =~= Seq::<(Seq<char>, u64, u64)>::empty());
    assert(log_bytes(Seq::<(Seq<char>, u64, u64)>::empty()) =~= Seq::<u8>::empty());
    assert(log_bytes(one) =~= record_bytes(recs[i].1, recs[i].2));
}

/// Splits a `u32` off the front of `data`, when more than its bytes remain.
pub fn to_u32(data: &[u8]) -> (r: Option<(&[u8], u32)>)
    ensures
        data@.len() <= U32_LEN <==> r is None,
        r matches Some((rest, n)) ==> {
            &&& rest@ == data@.subrange(U32_LEN as int, data@.len() as int)
            &&& n == spec_u32_from_le_bytes(data@.subrange(0, U32_LEN as int))
        },
{
    if data.len() <= U32_LEN {
        return None;
    }
    let n = u32_from_le_bytes(slice_subrange(data, 0, U32_LEN));
    Some((slice_subrange(data, U32_LEN, data.len()), n))
}

/// Splits a `u64` off the front of `data`, when more than its bytes remain.
pub fn to_u64(data: &[u8]) -> (r: Option<(&[u8], u64)>)
    ensures
        data@.len() <= U64_LEN <==> r is None,
        r matches Some((rest, n)) ==> {
            &&& rest@ == data@.subrange(U64_LEN as int, data@.len() as int)
            &&& n == spec_u64_from_le_bytes(data@.subrange(0, U64_LEN as int))
        },
{
    if data.len() <= U64_LEN {
        return None;
    }
    let n = u64_from_le_bytes(slice_subrange(data, 0, U64_LEN));
    Some((slice_subrange(data, U64_LEN, data.len()), n))
}

/// Walks the records of `data_block` in order and picks, in order, the
/// records whose offsets are `offsets[start..]`.
fn parse_records(
    data_block: &[u8],
    offsets: &Vec<u64>,
    start: usize,
    Ghost(recs): Ghost<Seq<(Seq<char>, u64, u64)>>,
    Ghost(k): Ghost<Seq<char>>,
    Ghost(from): Ghost<u64>,
) -> (r: Option<Vec<(u64, u64)>>)
    requires
        start <= offsets@.len(),
        data_block@ == log_bytes(recs),
        forall|i: int, j: int| 0 <= i < j < recs.len() ==> #[trigger] recs[i].1 < #[trigger] recs[j].1,
        offsets@.subrange(start as int, offsets@.len() as int) == offsets_of(selected(recs, k, from)),
    ensures
        start == offsets@.len() ==> r is None,
        start < offsets@.len() ==> (r matches Some(v) && v@ == selected(recs, k, from)),
{
    if start == offsets.len() {
        return None;
    }
    let ghost want = selected(recs, k, from);
    let ghost n = recs.len() as int;
    let mut result: Vec<(u64, u64)> = Vec::new();
    let mut data = data_block;
    let ghost mut i: int = 0;
    proof {
        assert(recs.subrange(0, n) =~= recs);
        assert(recs.subrange(0, 0) =~= Seq::<(Seq<char>, u64, u64)>::empty());
        assert(offsets_of(want).len() == want.len());
        lemma_selected_append(recs.subrange(0, 0), recs, k, from);
        assert(recs.subrange(0, 0) + recs =~= recs);
    }
    loop
        invariant
            0 <= i <= n == recs.len(),
            data@ == log_bytes(recs.subrange(i, n)),
            result@ == selected(recs.subrange(0, i), k, from),
            result@.len() < want.len(),
            want == selected(recs.subrange(0, i), k, from) + selected(recs.subrange(i, n), k, from),
            want == selected(recs, k, from),
            forall|a: int, b: int| 0 <= a < b < recs.len() ==> #[trigger] recs[a].1 < #[trigger] recs[b].1,
            offsets@.subrange(start as int, offsets@.len() as int) == offsets_of(want),
            start < offsets@.len(),
            offsets@.len() - start == want.len(),
        decreases n - i,
    {
        proof {
            if i == n {
                assert(recs.subrange(i, n) =~= Seq::<(Seq<char>, u64, u64)>::empty());
                assert(want =~= selected(recs.subrange(0, i), k, from));
            }
            lemma_log_bytes_skip(recs, i);
            lemma_record_bytes(recs[i].1, recs[i].2);
        }
        let ghost rb = record_bytes(recs[i].1, recs[i].2);
        let ghost tail_bytes = log_bytes(recs.subrange(i + 1, n));
        assert(data@ == rb + tail_bytes);
        assert(data@.subrange(0, 4) =~= rb.subrange(0, 4));
        let (rest, length) = match to_u32(data) {
            Some(p) => p,
            None => {
                return if result.len() == 0 { None } else { Some(result) };
            },
        };
        assert(rest@.subrange(0, 8) =~= rb.subrange(4, 12));
        let (rest, ofs) = match to_u64(rest) {
            Some(p) => p,
            None => {
                return if result.len() == 0 { None } else { Some(result) };
            },
        };
        assert(length == RECORD_LEN);
        let value_length = length as usize - U32_LEN - U64_LEN;
        if rest.len() < value_length {
            return if result.len() == 0 { None } else { Some(result) };
        }
        assert(rest@.subrange(0, 8) =~= rb.subrange(12, 20));
        let value = u64_from_le_bytes(slice_subrange(rest, 0, value_length));
        let next = slice_subrange(rest, value_length, rest.len());
        proof {
            let tail = recs.subrange(i + 1, n);
            let r = recs[i];
            assert(recs.subrange(0, i + 1) =~= recs.subrange(0, i).push(r));
            lemma_selected_push(recs.subrange(0, i), r, k, from);
            assert(seq![r] + tail =~= recs.subrange(i, n));
            lemma_selected_append(seq![r], tail, k, from);
            assert(seq![r] =~= Seq::<(Seq<char>, u64, u64)>::empty().push(r));
            lemma_selected_push(Seq::<(Seq<char>, u64, u64)>::empty(), r, k, from);
            lemma_selected_members(tail, k, from);
            assert(ofs == r.1);
            assert(value == r.2);
            assert(next@ =~= log_bytes(tail));
        }
        let m = result.len();
        assert(m < offsets@.len() - start);
        assert(start + m < offsets.len());
        let wanted = offsets[start + m];
        proof {
            assert(offsets@.subrange(start as int, offsets@.len() as int)[m as int] == offsets@[start + m]);
            assert(offsets_of(want)[m as int] == want[m as int].0);
            if !(is_selected(recs[i], k, from)) {
                let sel_tail = selected(recs.subrange(i + 1, n), k, from);
                assert(want == selected(recs.subrange(0, i + 1), k, from) + sel_tail);
                assert(want[m as int] == sel_tail[0]);
                let j = choose|j: int| #![trigger recs.subrange(i + 1, n)[j]] 0 <= j < recs.subrange(i + 1, n).len()
                    && recs.subrange(i + 1, n)[j].1 == sel_tail[0].0;
                assert(recs[i + 1 + j].1 == sel_tail[0].0);
            }
        }
        data = next;
        if ofs == wanted {
            result.push((ofs, value));
            proof {
                i = i + 1;
                assert(recs.subrange(0, i) + recs.subrange(i, n) =~= recs);
                lemma_selected_append(recs.subrange(0, i), recs.subrange(i, n), k, from);
            }
            if result.len() == offsets.len() - start {
                return Some(result);
            }
        } else {
            proof {
                i = i + 1;
                assert(recs.subrange(0, i) + recs.subrange(i, n) =~= recs);
                lemma_selected_append(recs.subrange(0, i), recs.subrange(i, n), k, from);
            }
        }
    }
}

/// Whether record `r` belongs to key `k` and lies at or beyond offset `from`.
pub open spec fn is_selected(r: (Seq<char>, u64, u64), k: Seq<char>, from: u64) -> bool {
    r.0 == k && r.1 >= from
}

proof fn lemma_record_bytes(o: u64, v: u64)
    ensures
        record_bytes(o, v).len() == RECORD_LEN,
        spec_u32_from_le_bytes(record_bytes(o, v).subrange(0, 4)) == RECORD_LEN as u32,
        spec_u64_from_le_bytes(record_bytes(o, v).subrange(4, 12)) == o,
        spec_u64_from_le_bytes(record_bytes(o, v).subrange(12, 20)) == v,
{
    lemma_auto_spec_u32_to_from_le_bytes();
    lemma_auto_spec_u64_to_from_le_bytes();
    let a = spec_u32_to_le_bytes(RECORD_LEN as u32);
    let b = spec_u64_to_le_bytes(o);
    let c = spec_u64_to_le_bytes(v);
    assert(record_bytes(o, v).subrange(0, 4) =~= a);
    assert(record_bytes(o, v).subrange(4, 12) =~= b);
    assert(record_bytes(o, v).subrange(12, 20) =~= c);
}

} // verus!
