//! The log node: publish/subscribe-style log semantics over the per-topic
//! storage engine, plus the durable table of consumer commit offsets. All
//! state is owned by the single processing task, so one `step` runs to
//! completion before the next begins; that ordering is what keeps the offset
//! index consistent.

use vstd::prelude::*;

use crate::codec::encode_commit;
use crate::codec::spec_commit_line;
use crate::codec::spec_record_line;
use crate::error::NodeError;
use crate::log::Topic;
use crate::log::build_index;
use crate::log::is_store_of;
use crate::log::valid_store;
use crate::protocol::Body;
use crate::protocol::Init;
use crate::protocol::Message;
use crate::protocol::StepOutput;
use crate::protocol::StorageEffect;

verus! {

/// The log workload's payloads.
pub enum Payload {
    Send { topic: String, message: usize },
    SendOk { offset: usize },
    Poll { offsets: Vec<(String, usize)> },
    PollOk { messages: Vec<(String, Vec<(usize, usize)>)> },
    CommitOffsets { offsets: Vec<(String, usize)> },
    CommitOffsetsOk,
    ListCommittedOffsets { keys: Vec<String> },
    ListCommittedOffsetsOk { offsets: Vec<(String, usize)> },
}

/// The records held per topic name, as a map.
pub open spec fn topics_map(ts: Seq<Topic>) -> Map<Seq<char>, Seq<usize>>
    decreases ts.len(),
{
    if ts.len() == 0 {
        Map::empty()
    } else {
        topics_map(ts.drop_last()).insert(ts.last().name@, ts.last().values@)
    }
}

/// The committed offset per topic name, as a map.
pub open spec fn commits_map(cs: Seq<(String, usize)>) -> Map<Seq<char>, usize>
    decreases cs.len(),
{
    if cs.len() == 0 {
        Map::empty()
    } else {
        commits_map(cs.drop_last()).insert(cs.last().0@, cs.last().1)
    }
}

pub proof fn lemma_topics_map_lookup(ts: Seq<Topic>, i: int)
    requires
        0 <= i < ts.len(),
        forall|a: int, b: int| 0 <= a < b < ts.len() ==> ts[a].name@ != ts[b].name@,
    ensures
        topics_map(ts).contains_key(ts[i].name@),
        topics_map(ts)[ts[i].name@] == ts[i].values@,
    decreases ts.len(),
{
    if i < ts.len() - 1 {
        lemma_topics_map_lookup(ts.drop_last(), i);
    }
}

pub proof fn lemma_topics_map_absent(ts: Seq<Topic>, name: Seq<char>)
    requires
        forall|a: int| 0 <= a < ts.len() ==> ts[a].name@ != name,
    ensures
        !topics_map(ts).contains_key(name),
    decreases ts.len(),
{
    if ts.len() > 0 {
        lemma_topics_map_absent(ts.drop_last(), name);
    }
}

pub proof fn lemma_topics_map_update(ts: Seq<Topic>, ts2: Seq<Topic>, i: int)
    requires
        0 <= i < ts.len(),
        ts2.len() == ts.len(),
        forall|a: int, b: int| 0 <= a < b < ts.len() ==> ts[a].name@ != ts[b].name@,
        ts2[i].name@ == ts[i].name@,
        forall|j: int| 0 <= j < ts.len() && j != i ==> ts2[j] == ts[j],
    ensures
        topics_map(ts2) == topics_map(ts).insert(ts[i].name@, ts2[i].values@),
    decreases ts.len(),
{
    if i == ts.len() - 1 {
        assert(ts2.drop_last() =~= ts.drop_last());
        assert(topics_map(ts2) =~= topics_map(ts).insert(ts[i].name@, ts2[i].values@));
    } else {
        lemma_topics_map_update(ts.drop_last(), ts2.drop_last(), i);
        assert(ts2.last() == ts.last());
        assert(ts.drop_last()[i] == ts[i]);
        assert(ts2.drop_last()[i] == ts2[i]);
        assert(topics_map(ts2) =~= topics_map(ts).insert(ts[i].name@, ts2[i].values@));
    }
}

pub proof fn lemma_commits_map_lookup(cs: Seq<(String, usize)>, i: int)
    requires
        0 <= i < cs.len(),
        forall|a: int, b: int| 0 <= a < b < cs.len() ==> cs[a].0@ != cs[b].0@,
    ensures
        commits_map(cs).contains_key(cs[i].0@),
        commits_map(cs)[cs[i].0@] == cs[i].1,
    decreases cs.len(),
{
    if i < cs.len() - 1 {
        lemma_commits_map_lookup(cs.drop_last(), i);
    }
}

pub proof fn lemma_commits_map_absent(cs: Seq<(String, usize)>, name: Seq<char>)
    requires
        forall|a: int| 0 <= a < cs.len() ==> cs[a].0@ != name,
    ensures
        !commits_map(cs).contains_key(name),
    decreases cs.len(),
{
    if cs.len() > 0 {
        lemma_commits_map_absent(cs.drop_last(), name);
    }
}

pub proof fn lemma_commits_map_update(cs: Seq<(String, usize)>, cs2: Seq<(String, usize)>, i: int)
    requires
        0 <= i < cs.len(),
        cs2.len() == cs.len(),
        forall|a: int, b: int| 0 <= a < b < cs.len() ==> cs[a].0@ != cs[b].0@,
        cs2[i].0@ == cs[i].0@,
        forall|j: int| 0 <= j < cs.len() && j != i ==> cs2[j] == cs[j],
    ensures
        commits_map(cs2) == commits_map(cs).insert(cs[i].0@, cs2[i].1),
    decreases cs.len(),
{
    if i == cs.len() - 1 {
        assert(cs2.drop_last() =~= cs.drop_last());
        assert(commits_map(cs2) =~= commits_map(cs).insert(cs[i].0@, cs2[i].1));
    } else {
        lemma_commits_map_update(cs.drop_last(), cs2.drop_last(), i);
        assert(cs2.last() == cs.last());
        assert(cs.drop_last()[i] == cs[i]);
        assert(cs2.drop_last()[i] == cs2[i]);
        assert(commits_map(cs2) =~= commits_map(cs).insert(cs[i].0@, cs2[i].1));
    }
}

/// The whole state of each topic, by name.
pub open spec fn topics_state(ts: Seq<Topic>) -> Map<Seq<char>, Topic>
    decreases ts.len(),
{
    if ts.len() == 0 {
        Map::empty()
    } else {
        topics_state(ts.drop_last()).insert(ts.last().name@, ts.last())
    }
}

pub proof fn lemma_topics_state_lookup(ts: Seq<Topic>, i: int)
    requires
        0 <= i < ts.len(),
        forall|a: int, b: int| 0 <= a < b < ts.len() ==> ts[a].name@ != ts[b].name@,
    ensures
        topics_state(ts).contains_key(ts[i].name@),
        topics_state(ts)[ts[i].name@] == ts[i],
    decreases ts.len(),
{
    if i < ts.len() - 1 {
        lemma_topics_state_lookup(ts.drop_last(), i);
    }
}

pub proof fn lemma_topics_state_absent(ts: Seq<Topic>, name: Seq<char>)
    requires
        forall|a: int| 0 <= a < ts.len() ==> ts[a].name@ != name,
    ensures
        !topics_state(ts).contains_key(name),
    decreases ts.len(),
{
    if ts.len() > 0 {
        lemma_topics_state_absent(ts.drop_last(), name);
    }
}

pub proof fn lemma_topics_state_update(ts: Seq<Topic>, ts2: Seq<Topic>, i: int)
    requires
        0 <= i < ts.len(),
        ts2.len() == ts.len(),
        forall|a: int, b: int| 0 <= a < b < ts.len() ==> ts[a].name@ != ts[b].name@,
        ts2[i].name@ == ts[i].name@,
        forall|j: int| 0 <= j < ts.len() && j != i ==> ts2[j] == ts[j],
    ensures
        topics_state(ts2) == topics_state(ts).insert(ts[i].name@, ts2[i]),
    decreases ts.len(),
{
    if i == ts.len() - 1 {
        assert(ts2.drop_last() =~= ts.drop_last());
        assert(topics_state(ts2) =~= topics_state(ts).insert(ts[i].name@, ts2[i]));
    } else {
        lemma_topics_state_update(ts.drop_last(), ts2.drop_last(), i);
        assert(ts2.last() == ts.last());
        assert(ts.drop_last()[i] == ts[i]);
        assert(ts2.drop_last()[i] == ts2[i]);
        assert(topics_state(ts2) =~= topics_state(ts).insert(ts[i].name@, ts2[i]));
    }
}

/// A node hosting the log workload.
pub struct KafkaNode {
    /// This node's id, assigned at bootstrap.
    pub id: String,
    /// The full peer list, assigned at bootstrap.
    pub node_ids: Vec<String>,
    /// The sequence outgoing message ids are drawn from.
    pub msg_id_seq: usize,
    /// The topics this node hosts, one entry per topic name.
    pub topics: Vec<Topic>,
    /// The committed offset per topic, mirroring the commit files.
    pub commits: Vec<(String, usize)>,
}

impl KafkaNode {
    /// Topic names and commit keys are unique, and every topic's own state
    /// is well formed.
    pub open spec fn wf(self) -> bool {
        &&& forall|a: int, b: int|
            0 <= a < b < self.topics@.len() ==> self.topics@[a].name@ != self.topics@[b].name@
        &&& forall|i: int| 0 <= i < self.topics@.len() ==> (#[trigger] self.topics@[i]).wf()
        &&& forall|a: int, b: int|
            0 <= a < b < self.commits@.len() ==> self.commits@[a].0@ != self.commits@[b].0@
    }

    /// The records of every topic, by name.
    pub open spec fn topic_records(self) -> Map<Seq<char>, Seq<usize>> {
        topics_map(self.topics@)
    }

    /// The records of one topic; an unknown topic has none.
    pub open spec fn records_of(self, name: Seq<char>) -> Seq<usize> {
        if self.topic_records().contains_key(name) {
            self.topic_records()[name]
        } else {
            Seq::empty()
        }
    }

    /// The committed offset of every topic that has one, by name.
    pub open spec fn committed(self) -> Map<Seq<char>, usize> {
        commits_map(self.commits@)
    }

    /// The whole state of one topic — its records, counters and offset
    /// index — if the topic is known.
    pub open spec fn topic_state(self, name: Seq<char>) -> Option<Topic> {
        if topics_state(self.topics@).contains_key(name) {
            Some(topics_state(self.topics@)[name])
        } else {
            None
        }
    }

    /// Whether an append of `message` to the named topic has room: its
    /// next-offset counter and its byte counter can still advance. A topic
    /// that does not exist yet always has room.
    pub open spec fn can_append(self, name: Seq<char>, message: usize) -> bool {
        match self.topic_state(name) {
            Some(t) => t.next_offset < usize::MAX && t.file_len + spec_record_line(
                t.values@.len() as nat,
                message as nat,
            ).len() <= u64::MAX,
            None => true,
        }
    }

    /// The position of a topic in the topic table, if it is known.
    fn find_topic(&self, name: &String) -> (r: Option<usize>)
        ensures
            r matches Some(i) ==> i < self.topics@.len() && self.topics@[i as int].name@ == name@,
            r is None ==> forall|j: int| 0 <= j < self.topics@.len() ==> self.topics@[j].name@
                != name@,
    {
        let mut i: usize = 0;
        while i < self.topics.len()
            invariant
                0 <= i <= self.topics@.len(),
                forall|j: int| 0 <= j < i ==> self.topics@[j].name@ != name@,
            decreases self.topics@.len() - i,
        {
            if self.topics[i].name == *name {
                return Some(i);
            }
            i = i + 1;
        }
        None
    }

    /// Appends one record to a topic, creating the topic on first use.
    /// Returns the assigned offset — the topic's record count before the
    /// call — and the exact line to persist at the end of the topic's
    /// backing store. Fails only when a storage counter would overflow; no
    /// record is added then.
    #[verifier::loop_isolation(false)]
    pub fn append_message(&mut self, topic: &String, message: usize) -> (r: Result<
        (usize, Vec<u8>),
        NodeError,
    >)
        requires
            old(self).wf(),
        ensures
            final(self).wf(),
            final(self).id == old(self).id,
            final(self).node_ids == old(self).node_ids,
            final(self).msg_id_seq == old(self).msg_id_seq,
            final(self).commits == old(self).commits,
            r matches Ok(p) ==> ({
                let prior = old(self).records_of(topic@);
                let prior_file = (match old(self).topic_state(topic@) {
                    Some(t1) => t1.file_len,
                    None => 0u64,
                });
                &&& p.0 == prior.len()
                &&& p.1@ == spec_record_line(prior.len() as nat, message as nat)
                &&& final(self).topic_records() == old(self).topic_records().insert(
                    topic@,
                    prior.push(message),
                )
                &&& final(self).topic_state(topic@) matches Some(t2) && ({
                    &&& t2.name@ == topic@
                    &&& t2.wf()
                    &&& t2.values@ == prior.push(message)
                    &&& t2.next_offset == prior.len() + 1
                    &&& t2.index@ == (match old(self).topic_state(topic@) {
                        Some(t1) => t1.index@,
                        None => Seq::<u64>::empty(),
                    }).push(prior_file)
                    &&& t2.file_len == prior_file + p.1@.len()
                })
                &&& forall|n2: Seq<char>|
                    n2 != topic@ ==> #[trigger] final(self).topic_state(n2) == old(
                        self,
                    ).topic_state(n2)
            }),
            r is Err ==> r == Err::<(usize, Vec<u8>), NodeError>(NodeError::Storage) && ({
                final(self).topics@ == old(self).topics@
            }),
            r is Ok <==> old(self).can_append(topic@, message),
    {
        let idx: usize;
        let ghost pre_topics = self.topics@;
        let ghost mut created = false;
        match self.find_topic(topic) {
            Some(i) => {
                idx = i;
                proof {
                    lemma_topics_map_lookup(self.topics@, i as int);
                    lemma_topics_state_lookup(self.topics@, i as int);
                }
            },
            None => {
                idx = self.topics.len();
                let t = Topic::new(topic.clone());
                self.topics.push(t);
                proof {
                    created = true;
                    lemma_topics_map_absent(pre_topics, topic@);
                    lemma_topics_state_absent(pre_topics, topic@);
                    assert(self.topics@.drop_last() =~= pre_topics);
                    assert(old(self).records_of(topic@) =~= Seq::<usize>::empty());
                }
            },
        }
        let ghost mid_topics = self.topics@;
        let ghost mid_map = topics_map(mid_topics);
        proof {
            assert(mid_topics[idx as int].name@ == topic@);
            lemma_topics_map_lookup(mid_topics, idx as int);
            lemma_topics_state_lookup(mid_topics, idx as int);
        }
        let mut t = self.topics.remove(idx);
        let res = t.append(message);
        let is_ok = res.is_ok();
        self.topics.insert(idx, t);
        proof {
            if created {
                crate::codec::lemma_record_line_len(0, message as nat);
            }
            assert(self.topics@ =~= mid_topics.update(idx as int, t));
            if is_ok {
                lemma_topics_map_update(mid_topics, self.topics@, idx as int);
                lemma_topics_state_update(mid_topics, self.topics@, idx as int);
                assert(topics_map(self.topics@) =~= old(self).topic_records().insert(
                    topic@,
                    old(self).records_of(topic@).push(message),
                ));
                assert forall|n2: Seq<char>|
                    n2 != topic@ implies #[trigger] self.topic_state(n2) == old(
                    self,
                ).topic_state(n2) by {
                    if created {
                        assert(topics_state(mid_topics) =~= topics_state(pre_topics).insert(
                            topic@,
                            mid_topics[idx as int],
                        ));
                    }
                }
            } else {
                // a freshly created topic always has room, so a failure
                // means the topic existed before the call
                assert(!created);
                assert(self.topics@ =~= mid_topics);
                assert(self.topics@ =~= old(self).topics@);
                assert(topics_map(self.topics@) == mid_map);
            }
        }
        res
    }

    /// Serves a poll for one topic from `start_offset` on: every record from
    /// there through the topic's last one, in ascending offset order with no
    /// gaps. An unknown topic, or a start offset not written yet, yields the
    /// empty sequence — never an error.
    pub fn read_messages(&self, topic: &String, start_offset: usize) -> (r: Vec<(usize, usize)>)
        requires
            self.wf(),
        ensures
            r@ == Topic::spec_read_from(self.records_of(topic@), start_offset as int),
            !self.topic_records().contains_key(topic@) ==> r@ == Seq::<(usize, usize)>::empty(),
            start_offset >= self.records_of(topic@).len() ==> r@ == Seq::<(
                usize,
                usize,
            )>::empty(),
    {
        match self.find_topic(topic) {
            None => {
                proof {
                    lemma_topics_map_absent(self.topics@, topic@);
                }
                Vec::new()
            },
            Some(i) => {
                proof {
                    lemma_topics_map_lookup(self.topics@, i as int);
                }
                let t = &self.topics[i];
                t.read_from(start_offset)
            },
        }
    }

    /// Durably overwrites the commit record for a topic: last write wins, no
    /// history is kept. Returns the exact bytes the topic's commit file must
    /// hold from now on.
    #[verifier::loop_isolation(false)]
    pub fn commit(&mut self, topic: &String, commit_offset: usize) -> (bytes: Vec<u8>)
        requires
            old(self).wf(),
        ensures
            final(self).wf(),
            final(self).id == old(self).id,
            final(self).node_ids == old(self).node_ids,
            final(self).msg_id_seq == old(self).msg_id_seq,
            final(self).topics == old(self).topics,
            bytes@ == spec_commit_line(commit_offset as nat),
            final(self).committed() == old(self).committed().insert(topic@, commit_offset),
    {
        let mut i: usize = 0;
        let n = self.commits.len();
        while i < n
            invariant
                0 <= i <= n == self.commits@.len(),
                forall|j: int| 0 <= j < i ==> self.commits@[j].0@ != topic@,
                self.id == old(self).id,
                self.node_ids == old(self).node_ids,
                self.msg_id_seq == old(self).msg_id_seq,
                self.topics == old(self).topics,
                self.commits == old(self).commits,
            decreases n - i,
        {
            if self.commits[i].0 == *topic {
                let ghost pre = self.commits@;
                let e = self.commits.remove(i);
                let e2 = (e.0, commit_offset);
                self.commits.insert(i, e2);
                proof {
                    assert(self.commits@ =~= pre.update(i as int, e2));
                    assert(e2.0@ == pre[i as int].0@);
                    lemma_commits_map_update(pre, self.commits@, i as int);
                    assert forall|a: int, b: int|
                        0 <= a < b < self.commits@.len() implies self.commits@[a].0@
                        != self.commits@[b].0@ by {
                        assert(a != i ==> self.commits@[a] == pre[a]);
                        assert(b != i ==> self.commits@[b] == pre[b]);
                    }
                }
                return encode_commit(commit_offset);
            }
            i = i + 1;
        }
        let ghost pre = self.commits@;
        self.commits.push((topic.clone(), commit_offset));
        proof {
            assert(self.commits@.drop_last() =~= pre);
        }
        encode_commit(commit_offset)
    }

    /// The committed offset recorded for a topic, if one exists.
    #[verifier::loop_isolation(false)]
    pub fn read_commit(&self, topic: &String) -> (r: Option<usize>)
        requires
            self.wf(),
        ensures
            r matches Some(v) ==> self.committed().contains_key(topic@)
                && self.committed()[topic@] == v,
            r is None <==> !self.committed().contains_key(topic@),
    {
        let mut i: usize = 0;
        while i < self.commits.len()
            invariant
                0 <= i <= self.commits@.len(),
                forall|j: int| 0 <= j < i ==> self.commits@[j].0@ != topic@,
            decreases self.commits@.len() - i,
        {
            if self.commits[i].0 == *topic {
                proof {
                    lemma_commits_map_lookup(self.commits@, i as int);
                }
                return Some(self.commits[i].1);
            }
            i = i + 1;
        }
        proof {
            lemma_commits_map_absent(self.commits@, topic@);
        }
        None
    }

    /// For each requested topic with a commit record, one entry holding its
    /// committed offset. Topics never committed are silently omitted, and a
    /// topic asked for more than once is reported once.
    #[verifier::loop_isolation(false)]
    pub fn list_committed(&self, keys: &Vec<String>) -> (r: Vec<(String, usize)>)
        requires
            self.wf(),
        ensures
            forall|j: int|
                0 <= j < r@.len() ==> ({
                    &&& self.committed().contains_key((#[trigger] r@[j]).0@)
                    &&& r@[j].1 == self.committed()[r@[j].0@]
                    &&& exists|i: int| 0 <= i < keys@.len() && keys@[i]@ == r@[j].0@
                }),
            forall|i: int|
                0 <= i < keys@.len() && self.committed().contains_key((#[trigger] keys@[i])@)
                    ==> exists|j: int| 0 <= j < r@.len() && r@[j].0@ == keys@[i]@,
            forall|a: int, b: int| 0 <= a < b < r@.len() ==> r@[a].0@ != r@[b].0@,
    {
        let mut r: Vec<(String, usize)> = Vec::new();
        let mut i: usize = 0;
        while i < keys.len()
            invariant
                0 <= i <= keys@.len(),
                forall|j: int|
                    0 <= j < r@.len() ==> ({
                        &&& self.committed().contains_key((#[trigger] r@[j]).0@)
                        &&& r@[j].1 == self.committed()[r@[j].0@]
                        &&& exists|q: int| 0 <= q < keys@.len() && keys@[q]@ == r@[j].0@
                    }),
                forall|q: int|
                    0 <= q < i && self.committed().contains_key((#[trigger] keys@[q])@)
                        ==> exists|j: int| 0 <= j < r@.len() && r@[j].0@ == keys@[q]@,
                forall|a: int, b: int| 0 <= a < b < r@.len() ==> r@[a].0@ != r@[b].0@,
            decreases keys@.len() - i,
        {
            let mut dup = false;
            let mut j: usize = 0;
            while j < r.len()
                invariant
                    0 <= j <= r@.len(),
                    dup ==> exists|q: int| 0 <= q < r@.len() && r@[q].0@ == keys@[i as int]@,
                    !dup ==> forall|q: int| 0 <= q < j ==> r@[q].0@ != keys@[i as int]@,
                decreases r@.len() - j,
            {
                if r[j].0 == keys[i] {
                    dup = true;
                }
                j = j + 1;
            }
            if !dup {
                match self.read_commit(&keys[i]) {
                    Some(v) => {
                        let ghost old_r = r@;
                        r.push((keys[i].clone(), v));
                        proof {
                            assert(r@[r@.len() - 1].0@ == keys@[i as int]@);
                            assert forall|q: int|
                                0 <= q < i + 1 && self.committed().contains_key(
                                    (keys@[q])@,
                                ) implies exists|j: int|
                                0 <= j < r@.len() && r@[j].0@ == keys@[q]@ by {
                                if q < i {
                                    let j0 = choose|j: int|
                                        0 <= j < old_r.len() && old_r[j].0@ == keys@[q]@;
                                    assert(r@[j0].0@ == keys@[q]@);
                                } else {
                                    assert(r@[r@.len() - 1].0@ == keys@[q]@);
                                }
                            }
                        }
                    },
                    None => {},
                }
            }
            i = i + 1;
        }
        r
    }

    /// Builds the node from its bootstrap identity and the durable state its
    /// host found on disk: per topic the backing store's bytes, and per
    /// committed topic the decoded commit offset. Every topic's index and
    /// next-offset counter are rebuilt by a full scan; one corrupt store
    /// fails the whole startup.
    #[verifier::loop_isolation(false)]
    pub fn from_init(
        init: Init,
        topic_files: Vec<(String, Vec<u8>)>,
        committed: Vec<(String, usize)>,
    ) -> (r: Result<KafkaNode, NodeError>)
        requires
            forall|a: int, b: int|
                0 <= a < b < topic_files@.len() ==> topic_files@[a].0@ != topic_files@[b].0@,
            forall|a: int, b: int|
                0 <= a < b < committed@.len() ==> committed@[a].0@ != committed@[b].0@,
        ensures
            r matches Ok(n) ==> ({
                &&& n.wf()
                &&& n.id == init.node_id
                &&& n.node_ids == init.node_ids
                &&& n.msg_id_seq == 1
                &&& n.commits == committed
                &&& n.topics@.len() == topic_files@.len()
                &&& forall|t: int|
                    0 <= t < topic_files@.len() ==> (#[trigger] n.topics@[t]).name@
                        == topic_files@[t].0@
                &&& forall|t: int, vals: Seq<usize>|
                    0 <= t < topic_files@.len() && #[trigger] is_store_of(
                        vals,
                        topic_files@[t].1@,
                    ) ==> n.topics@[t].values@ == vals && n.topics@[t].next_offset == vals.len()
                        && n.topics@[t].canonical()
            }),
            r matches Err(e) ==> e == NodeError::CorruptLog,
            r is Ok <==> (forall|t: int|
                0 <= t < topic_files@.len() ==> #[trigger] valid_store(topic_files@[t].1@)),
    {
        let mut topics: Vec<Topic> = Vec::new();
        let mut t: usize = 0;
        while t < topic_files.len()
            invariant
                0 <= t <= topic_files@.len(),
                topics@.len() == t,
                forall|q: int|
                    0 <= q < t ==> (#[trigger] topics@[q]).name@ == topic_files@[q].0@,
                forall|q: int| 0 <= q < t ==> (#[trigger] topics@[q]).wf(),
                forall|q: int| 0 <= q < t ==> #[trigger] valid_store(topic_files@[q].1@),
                forall|q: int, vals: Seq<usize>|
                    0 <= q < t && #[trigger] is_store_of(vals, topic_files@[q].1@)
                        ==> topics@[q].values@ == vals && topics@[q].next_offset == vals.len()
                        && topics@[q].canonical(),
            decreases topic_files@.len() - t,
        {
            let name = topic_files[t].0.clone();
            match build_index(name, &topic_files[t].1) {
                Ok(tp) => {
                    topics.push(tp);
                },
                Err(_) => {
                    proof {
                        assert(!valid_store(topic_files@[t as int].1@));
                    }
                    return Err(NodeError::CorruptLog);
                },
            }
            t = t + 1;
        }
        Ok(
            KafkaNode {
                id: init.node_id,
                node_ids: init.node_ids,
                msg_id_seq: 1,
                topics,
                commits: committed,
            },
        )
    }
}

impl KafkaNode {
    /// Processes one envelope to completion: applies its side effects to the
    /// log and commit state, and produces the durable writes and the replies
    /// the host must emit, in order. A publish request appends and is
    /// answered with the assigned offset; a poll request is answered with
    /// the records from each requested offset on; a commit request
    /// overwrites the named topics' commit records and is acknowledged; a
    /// list request is answered with the committed offsets that exist.
    /// Every envelope, recognized or not, draws one message id from the
    /// node's sequence. Only a publish can fail, and only when a storage
    /// counter would overflow; the failure is fatal for the node.
    #[verifier::loop_isolation(false)]
    pub fn step(&mut self, input: Message<Payload>) -> (r: Result<StepOutput<Payload>, NodeError>)
        requires
            old(self).wf(),
            old(self).msg_id_seq < usize::MAX,
        ensures
            final(self).wf(),
            final(self).id == old(self).id,
            final(self).node_ids == old(self).node_ids,
            final(self).msg_id_seq == old(self).msg_id_seq + 1,
            r matches Ok(out) ==> (forall|k: int|
                0 <= k < out.replies@.len() ==> ({
                    &&& (#[trigger] out.replies@[k]).src == input.dst
                    &&& out.replies@[k].dst == input.src
                    &&& out.replies@[k].body.msg_id == Some(old(self).msg_id_seq)
                    &&& out.replies@[k].body.in_reply_to == input.body.msg_id
                })),
            input.body.payload matches Payload::Send { topic, message } ==> ({
                &&& (r matches Ok(out) ==> ({
                    let prior = old(self).records_of(topic@);
                    &&& final(self).topic_records() == old(self).topic_records().insert(
                        topic@,
                        prior.push(message),
                    )
                    &&& final(self).commits == old(self).commits
                    &&& out.writes@.len() == 1
                    &&& out.writes@[0] matches StorageEffect::AppendLog { topic: wt, bytes }
                        && wt@ == topic@ && bytes@ == spec_record_line(
                        prior.len() as nat,
                        message as nat,
                    )
                    &&& out.replies@.len() == 1
                    &&& out.replies@[0].body.payload == (Payload::SendOk {
                        offset: prior.len() as usize,
                    })
                }))
                &&& (r is Err ==> r == Err::<StepOutput<Payload>, NodeError>(NodeError::Storage)
                    && final(self).commits == old(self).commits && final(self).topics@ == old(
                    self,
                ).topics@)
                &&& (r is Ok <==> old(self).can_append(topic@, message))
            }),
            input.body.payload matches Payload::Poll { offsets } ==> r matches Ok(out) && ({
                &&& final(self).topics == old(self).topics
                &&& final(self).commits == old(self).commits
                &&& out.writes@.len() == 0
                &&& out.replies@.len() == 1
                &&& out.replies@[0].body.payload matches Payload::PollOk { messages }
                    && messages@.len() == offsets@.len() && (forall|i: int|
                    0 <= i < offsets@.len() ==> ({
                        &&& (#[trigger] messages@[i]).0@ == offsets@[i].0@
                        &&& messages@[i].1@ == Topic::spec_read_from(
                            old(self).records_of(offsets@[i].0@),
                            offsets@[i].1 as int,
                        )
                    }))
            }),
            input.body.payload matches Payload::CommitOffsets { offsets } ==> r matches Ok(out)
                && ({
                &&& final(self).topics == old(self).topics
                &&& final(self).committed() == spec_commit_fold(old(self).committed(), offsets@)
                &&& out.replies@.len() == 1
                &&& out.replies@[0].body.payload is CommitOffsetsOk
                &&& out.writes@.len() == offsets@.len()
                &&& forall|i: int|
                    0 <= i < offsets@.len() ==> ((#[trigger] out.writes@[i]) matches
                        StorageEffect::WriteCommit { topic, bytes } && topic@ == offsets@[i].0@
                        && bytes@ == spec_commit_line(offsets@[i].1 as nat))
            }),
            input.body.payload matches Payload::ListCommittedOffsets { keys } ==> r matches Ok(out)
                && ({
                &&& final(self).topics == old(self).topics
                &&& final(self).commits == old(self).commits
                &&& out.writes@.len() == 0
                &&& out.replies@.len() == 1
                &&& out.replies@[0].body.payload matches Payload::ListCommittedOffsetsOk {
                    offsets: listed,
                } && ({
                    &&& forall|j: int|
                        0 <= j < listed@.len() ==> ({
                            &&& old(self).committed().contains_key((#[trigger] listed@[j]).0@)
                            &&& listed@[j].1 == old(self).committed()[listed@[j].0@]
                            &&& exists|q: int| 0 <= q < keys@.len() && keys@[q]@ == listed@[j].0@
                        })
                    &&& forall|q: int|
                        0 <= q < keys@.len() && old(self).committed().contains_key(
                            (#[trigger] keys@[q])@,
                        ) ==> exists|j: int| 0 <= j < listed@.len() && listed@[j].0@ == keys@[q]@
                    &&& forall|a: int, b: int|
                        0 <= a < b < listed@.len() ==> listed@[a].0@ != listed@[b].0@
                })
            }),
            (input.body.payload is SendOk || input.body.payload is PollOk
                || input.body.payload is CommitOffsetsOk
                || input.body.payload is ListCommittedOffsetsOk) ==> (r matches Ok(out) && {
                &&& final(self).topics == old(self).topics
                &&& final(self).commits == old(self).commits
                &&& out.writes@.len() == 0
                &&& out.replies@.len() == 0
            }),
            r is Err ==> input.body.payload is Send,
    {
        let reply = input.to_reply(&mut self.msg_id_seq);
        let Message { src, dst, body } = reply;
        let Body { msg_id, in_reply_to, payload } = body;
        match payload {
            Payload::Send { topic, message } => {
                match self.append_message(&topic, message) {
                    Ok((ofs, bytes)) => {
                        let mut writes: Vec<StorageEffect> = Vec::new();
                        writes.push(StorageEffect::AppendLog { topic, bytes });
                        let mut replies: Vec<Message<Payload>> = Vec::new();
                        replies.push(
                            Message {
                                src,
                                dst,
                                body: Body {
                                    msg_id,
                                    in_reply_to,
                                    payload: Payload::SendOk { offset: ofs },
                                },
                            },
                        );
                        Ok(StepOutput { writes, replies })
                    },
                    Err(e) => Err(e),
                }
            },
            Payload::Poll { offsets } => {
                let mut messages: Vec<(String, Vec<(usize, usize)>)> = Vec::new();
                let mut i: usize = 0;
                while i < offsets.len()
                    invariant
                        0 <= i <= offsets@.len(),
                        messages@.len() == i,
                        forall|q: int|
                            0 <= q < i ==> ({
                                &&& (#[trigger] messages@[q]).0@ == offsets@[q].0@
                                &&& messages@[q].1@ == Topic::spec_read_from(
                                    self.records_of(offsets@[q].0@),
                                    offsets@[q].1 as int,
                                )
                            }),
                    decreases offsets@.len() - i,
                {
                    let v = self.read_messages(&offsets[i].0, offsets[i].1);
                    messages.push((offsets[i].0.clone(), v));
                    i = i + 1;
                }
                let mut replies: Vec<Message<Payload>> = Vec::new();
                replies.push(
                    Message {
                        src,
                        dst,
                        body: Body { msg_id, in_reply_to, payload: Payload::PollOk { messages } },
                    },
                );
                Ok(StepOutput { writes: Vec::new(), replies })
            },
            Payload::CommitOffsets { offsets } => {
                let mut writes: Vec<StorageEffect> = Vec::new();
                let ghost base = self.committed();
                let mut i: usize = 0;
                proof {
                    assert(offsets@.take(0) =~= Seq::<(String, usize)>::empty());
                }
                while i < offsets.len()
                    invariant
                        0 <= i <= offsets@.len(),
                        writes@.len() == i,
                        self.wf(),
                        self.id == old(self).id,
                        self.node_ids == old(self).node_ids,
                        self.msg_id_seq == old(self).msg_id_seq + 1,
                        self.topics == old(self).topics,
                        self.committed() == spec_commit_fold(base, offsets@.take(i as int)),
                        forall|q: int|
                            0 <= q < i ==> ((#[trigger] writes@[q]) matches
                                StorageEffect::WriteCommit { topic, bytes }
                                && topic@ == offsets@[q].0@
                                && bytes@ == spec_commit_line(offsets@[q].1 as nat)),
                    decreases offsets@.len() - i,
                {
                    let bytes = self.commit(&offsets[i].0, offsets[i].1);
                    writes.push(
                        StorageEffect::WriteCommit { topic: offsets[i].0.clone(), bytes },
                    );
                    proof {
                        assert(offsets@.take(i + 1).drop_last() =~= offsets@.take(i as int));
                        assert(offsets@.take(i + 1).last() == offsets@[i as int]);
                    }
                    i = i + 1;
                }
                proof {
                    assert(offsets@.take(offsets@.len() as int) =~= offsets@);
                }
                let mut replies: Vec<Message<Payload>> = Vec::new();
                replies.push(
                    Message {
                        src,
                        dst,
                        body: Body { msg_id, in_reply_to, payload: Payload::CommitOffsetsOk },
                    },
                );
                Ok(StepOutput { writes, replies })
            },
            Payload::ListCommittedOffsets { keys } => {
                let listed = self.list_committed(&keys);
                let mut replies: Vec<Message<Payload>> = Vec::new();
                replies.push(
                    Message {
                        src,
                        dst,
                        body: Body {
                            msg_id,
                            in_reply_to,
                            payload: Payload::ListCommittedOffsetsOk { offsets: listed },
                        },
                    },
                );
                Ok(StepOutput { writes: Vec::new(), replies })
            },
            _ => Ok(StepOutput { writes: Vec::new(), replies: Vec::new() }),
        }
    }
}

/// The committed-offset map after a batch of commit requests is applied in
/// order; a later request for the same topic overwrites an earlier one.
pub open spec fn spec_commit_fold(m: Map<Seq<char>, usize>, ps: Seq<(String, usize)>) -> Map<
    Seq<char>,
    usize,
>
    decreases ps.len(),
{
    if ps.len() == 0 {
        m
    } else {
        spec_commit_fold(m, ps.drop_last()).insert(ps.last().0@, ps.last().1)
    }
}

/// Committing is idempotent and last-write-wins: repeating a commit with
/// the same offset leaves the committed table unchanged, and a later commit
/// for the same topic overwrites an earlier one — whether the new offset is
/// larger or smaller, no maximum is tracked.
pub proof fn lemma_commit_last_write_wins(
    m: Map<Seq<char>, usize>,
    topic: Seq<char>,
    n: usize,
    k: usize,
)
    ensures
        m.insert(topic, n).insert(topic, n) == m.insert(topic, n),
        m.insert(topic, n).insert(topic, k) == m.insert(topic, k),
{
    assert(m.insert(topic, n).insert(topic, n) =~= m.insert(topic, n));
    assert(m.insert(topic, n).insert(topic, k) =~= m.insert(topic, k));
}

/// How one payload changes the node's durable state: its topic records and
/// its committed offsets. Only a publish and a commit batch change anything.
pub open spec fn spec_step_state(
    t: Map<Seq<char>, Seq<usize>>,
    c: Map<Seq<char>, usize>,
    p: Payload,
) -> (Map<Seq<char>, Seq<usize>>, Map<Seq<char>, usize>) {
    match p {
        Payload::Send { topic, message } => (
            t.insert(
                topic@,
                (if t.contains_key(topic@) {
                    t[topic@]
                } else {
                    Seq::empty()
                }).push(message),
            ),
            c,
        ),
        Payload::CommitOffsets { offsets } => (t, spec_commit_fold(c, offsets@)),
        _ => (t, c),
    }
}

/// The durable state after a queue of envelopes is processed strictly in
/// arrival order, each one to completion before the next.
pub open spec fn spec_run_state(
    t: Map<Seq<char>, Seq<usize>>,
    c: Map<Seq<char>, usize>,
    msgs: Seq<Message<Payload>>,
) -> (Map<Seq<char>, Seq<usize>>, Map<Seq<char>, usize>)
    decreases msgs.len(),
{
    if msgs.len() == 0 {
        (t, c)
    } else {
        let s1 = spec_step_state(t, c, msgs[0].body.payload);
        spec_run_state(s1.0, s1.1, msgs.skip(1))
    }
}

/// The ordering guarantee of the processing loop: handling a queue is
/// handling its front part to completion and only then the rest, from the
/// state the front part left behind. An envelope's side effects are applied
/// before those of every envelope that arrived after it.
pub proof fn lemma_run_state_order(
    t: Map<Seq<char>, Seq<usize>>,
    c: Map<Seq<char>, usize>,
    ms1: Seq<Message<Payload>>,
    ms2: Seq<Message<Payload>>,
)
    ensures
        spec_run_state(t, c, ms1 + ms2) == ({
            let s = spec_run_state(t, c, ms1);
            spec_run_state(s.0, s.1, ms2)
        }),
    decreases ms1.len(),
{
    if ms1.len() == 0 {
        assert((ms1 + ms2) =~= ms2);
    } else {
        assert((ms1 + ms2).skip(1) =~= ms1.skip(1) + ms2);
        assert((ms1 + ms2)[0] == ms1[0]);
        let s1 = spec_step_state(t, c, ms1[0].body.payload);
        lemma_run_state_order(s1.0, s1.1, ms1.skip(1), ms2);
    }
}

/// The processing task's core: consumes a queue of envelopes strictly one
/// at a time, in arrival order, finishing each envelope's state changes,
/// durable writes and replies before starting the next. Returns the output
/// batches of the processed prefix — the i-th batch answers the i-th
/// envelope — together with the error that stopped processing, if one did.
/// Processing stops only at a publish whose storage counters have no room;
/// the state then stands exactly at the in-order fold of the envelopes
/// before the failing one, and no later envelope has been touched.
#[verifier::loop_isolation(false)]
pub fn run(node: &mut KafkaNode, mut inbox: Vec<Message<Payload>>) -> (r: (
    Vec<StepOutput<Payload>>,
    Option<NodeError>,
))
    requires
        old(node).wf(),
        old(node).msg_id_seq + inbox@.len() <= usize::MAX,
    ensures
        final(node).wf(),
        r.0@.len() <= inbox@.len(),
        final(node).topic_records() == spec_run_state(
            old(node).topic_records(),
            old(node).committed(),
            inbox@.take(r.0@.len() as int),
        ).0,
        final(node).committed() == spec_run_state(
            old(node).topic_records(),
            old(node).committed(),
            inbox@.take(r.0@.len() as int),
        ).1,
        r.1 is None ==> r.0@.len() == inbox@.len() && final(node).msg_id_seq == old(node).msg_id_seq
            + inbox@.len(),
        r.1 matches Some(e) ==> ({
            let k = r.0@.len() as int;
            &&& e == NodeError::Storage
            &&& k < inbox@.len()
            &&& (inbox@[k].body.payload matches Payload::Send { topic, message }
                && !final(node).can_append(topic@, message))
            &&& final(node).msg_id_seq == old(node).msg_id_seq + k + 1
        }),
        forall|i: int|
            #![trigger r.0@[i]]
            0 <= i < r.0@.len() ==> (forall|j: int|
                0 <= j < r.0@[i].replies@.len() ==> ({
                    &&& (#[trigger] r.0@[i].replies@[j]).src == inbox@[i].dst
                    &&& r.0@[i].replies@[j].dst == inbox@[i].src
                    &&& r.0@[i].replies@[j].body.msg_id == Some(
                        (old(node).msg_id_seq + i) as usize,
                    )
                    &&& r.0@[i].replies@[j].body.in_reply_to == inbox@[i].body.msg_id
                })),
{
    let ghost orig = inbox@;
    let mut outs: Vec<StepOutput<Payload>> = Vec::new();
    proof {
        assert(orig.take(0) =~= Seq::<Message<Payload>>::empty());
    }
    while inbox.len() > 0
        invariant
            outs@.len() + inbox@.len() == orig.len(),
            inbox@ == orig.skip(outs@.len() as int),
            node.wf(),
            node.msg_id_seq == old(node).msg_id_seq + outs@.len(),
            node.topic_records() == spec_run_state(
                old(node).topic_records(),
                old(node).committed(),
                orig.take(outs@.len() as int),
            ).0,
            node.committed() == spec_run_state(
                old(node).topic_records(),
                old(node).committed(),
                orig.take(outs@.len() as int),
            ).1,
            forall|i: int|
                #![trigger outs@[i]]
                0 <= i < outs@.len() ==> (forall|j: int|
                    0 <= j < outs@[i].replies@.len() ==> ({
                        &&& (#[trigger] outs@[i].replies@[j]).src == orig[i].dst
                        &&& outs@[i].replies@[j].dst == orig[i].src
                        &&& outs@[i].replies@[j].body.msg_id == Some(
                            (old(node).msg_id_seq + i) as usize,
                        )
                        &&& outs@[i].replies@[j].body.in_reply_to == orig[i].body.msg_id
                    })),
        decreases inbox@.len(),
    {
        let ghost k = outs@.len() as int;
        let ghost pre_node = *node;
        let msg = inbox.remove(0);
        proof {
            assert(msg == orig[k]);
            assert(inbox@ =~= orig.skip(k + 1));
            assert(orig.take(k + 1) =~= orig.take(k) + seq![orig[k]]);
            lemma_run_state_order(
                old(node).topic_records(),
                old(node).committed(),
                orig.take(k),
                seq![orig[k]],
            );
            assert(seq![orig[k]].skip(1) =~= Seq::<Message<Payload>>::empty());
        }
        match node.step(msg) {
            Ok(out) => {
                outs.push(out);
                proof {
                    let s = spec_run_state(
                        old(node).topic_records(),
                        old(node).committed(),
                        orig.take(k),
                    );
                    let p = orig[k].body.payload;
                    let t1 = spec_step_state(s.0, s.1, p);
                    assert(node.topic_records() == t1.0);
                    assert(node.committed() == t1.1);
                    assert(spec_run_state(
                        old(node).topic_records(),
                        old(node).committed(),
                        orig.take(k + 1),
                    ) == spec_run_state(s.0, s.1, seq![orig[k]]));
                    assert(seq![orig[k]][0] == orig[k]);
                    assert(seq![orig[k]].skip(1) =~= Seq::<Message<Payload>>::empty());
                    assert(spec_run_state(t1.0, t1.1, Seq::<Message<Payload>>::empty()).0 == t1.0);
                    assert(spec_run_state(t1.0, t1.1, Seq::<Message<Payload>>::empty()).1 == t1.1);
                    assert(spec_run_state(s.0, s.1, seq![orig[k]]).0 == t1.0);
                    assert(spec_run_state(s.0, s.1, seq![orig[k]]).1 == t1.1);
                }
            },
            Err(e) => {
                proof {
                    // the failed publish changed nothing, so the state still
                    // stands at the fold of the processed prefix
                    assert(node.topics@ == pre_node.topics@);
                    assert(node.topic_records() == pre_node.topic_records());
                    assert(node.committed() == pre_node.committed());
                }
                return (outs, Some(e));
            },
        }
    }
    proof {
        assert(orig.take(outs@.len() as int) =~= orig);
    }
    (outs, None)
}

} // verus!
