//! The flooding-broadcast node: every broadcast request is forwarded, as it
//! arrived, to every peer but the node itself, remembered, and acknowledged.
//! Reads answer with everything seen so far; a topology message is stored.

use vstd::prelude::*;

use crate::protocol::Body;
use crate::protocol::Init;
use crate::protocol::Message;
use crate::protocol::StepOutput;

verus! {

/// The broadcast protocol's payloads.
pub enum Payload {
    Broadcast { message: usize },
    BroadcastOk,
    Read,
    ReadOk { messages: Vec<usize> },
    Topology { topology: Vec<(String, Vec<String>)> },
    TopologyOk,
}

/// The peers a broadcast is forwarded to: every node id but the node's own,
/// in peer-list order.
pub open spec fn spec_forward_targets(peers: Seq<String>, own: Seq<char>) -> Seq<String>
    decreases peers.len(),
{
    if peers.len() == 0 {
        Seq::empty()
    } else {
        let rest = spec_forward_targets(peers.drop_last(), own);
        if peers.last()@ != own {
            rest.push(peers.last())
        } else {
            rest
        }
    }
}

/// A node of the flooding broadcast variant.
pub struct BroadcastNode {
    pub id: String,
    pub node_ids: Vec<String>,
    pub msg_id_seq: usize,
    pub seen_messages: Vec<usize>,
    pub topology: Vec<(String, Vec<String>)>,
}

impl BroadcastNode {
    /// A fresh broadcast node: nothing seen, no topology yet.
    pub fn from_init(init: Init) -> (r: BroadcastNode)
        ensures
            r.id == init.node_id,
            r.node_ids == init.node_ids,
            r.msg_id_seq == 1,
            r.seen_messages@ == Seq::<usize>::empty(),
            r.topology@ == Seq::<(String, Vec<String>)>::empty(),
    {
        BroadcastNode {
            id: init.node_id,
            node_ids: init.node_ids,
            msg_id_seq: 1,
            seen_messages: Vec::new(),
            topology: Vec::new(),
        }
    }

    /// Processes one envelope. A broadcast is forwarded unchanged to every
    /// peer but this node, in peer order, remembered, and acknowledged last;
    /// a read is answered with everything seen so far, in arrival order; a
    /// topology replaces the stored one and is acknowledged; acknowledgments
    /// arriving from peers produce nothing.
    #[verifier::loop_isolation(false)]
    pub fn step(&mut self, input: Message<Payload>) -> (out: StepOutput<Payload>)
        requires
            old(self).msg_id_seq < usize::MAX,
        ensures
            final(self).id == old(self).id,
            final(self).node_ids == old(self).node_ids,
            final(self).msg_id_seq == old(self).msg_id_seq + 1,
            out.writes@.len() == 0,
            input.body.payload matches Payload::Broadcast { message } ==> ({
                let targets = spec_forward_targets(old(self).node_ids@, old(self).id@);
                &&& final(self).seen_messages@ == old(self).seen_messages@.push(message)
                &&& final(self).topology == old(self).topology
                &&& out.replies@.len() == targets.len() + 1
                &&& forall|k: int|
                    0 <= k < targets.len() ==> ({
                        &&& (#[trigger] out.replies@[k]).src == input.src
                        &&& out.replies@[k].dst == targets[k]
                        &&& out.replies@[k].body.msg_id == input.body.msg_id
                        &&& out.replies@[k].body.in_reply_to == input.body.in_reply_to
                        &&& out.replies@[k].body.payload == input.body.payload
                    })
                &&& out.replies@.last().src == input.dst
                &&& out.replies@.last().dst == input.src
                &&& out.replies@.last().body.msg_id == Some(old(self).msg_id_seq)
                &&& out.replies@.last().body.in_reply_to == input.body.msg_id
                &&& out.replies@.last().body.payload is BroadcastOk
            }),
            input.body.payload is Read ==> ({
                &&& final(self).seen_messages == old(self).seen_messages
                &&& final(self).topology == old(self).topology
                &&& out.replies@.len() == 1
                &&& out.replies@[0].src == input.dst
                &&& out.replies@[0].dst == input.src
                &&& out.replies@[0].body.msg_id == Some(old(self).msg_id_seq)
                &&& out.replies@[0].body.in_reply_to == input.body.msg_id
                &&& out.replies@[0].body.payload matches Payload::ReadOk { messages }
                    && messages@ == old(self).seen_messages@
            }),
            input.body.payload matches Payload::Topology { topology } ==> ({
                &&& final(self).seen_messages == old(self).seen_messages
                &&& final(self).topology == topology
                &&& out.replies@.len() == 1
                &&& out.replies@[0].src == input.dst
                &&& out.replies@[0].dst == input.src
                &&& out.replies@[0].body.msg_id == Some(old(self).msg_id_seq)
                &&& out.replies@[0].body.in_reply_to == input.body.msg_id
                &&& out.replies@[0].body.payload is TopologyOk
            }),
            (input.body.payload is BroadcastOk || input.body.payload is ReadOk
                || input.body.payload is TopologyOk) ==> ({
                &&& final(self).seen_messages == old(self).seen_messages
                &&& final(self).topology == old(self).topology
                &&& out.replies@.len() == 0
            }),
    {
        let mid = self.msg_id_seq;
        self.msg_id_seq = mid + 1;
        let Message { src, dst, body } = input;
        let Body { msg_id, in_reply_to, payload } = body;
        let mut replies: Vec<Message<Payload>> = Vec::new();
        match payload {
            Payload::Broadcast { message } => {
                let mut i: usize = 0;
                while i < self.node_ids.len()
                    invariant
                        0 <= i <= self.node_ids@.len(),
                        replies@.len() == spec_forward_targets(
                            self.node_ids@.take(i as int),
                            self.id@,
                        ).len(),
                        forall|k: int|
                            0 <= k < replies@.len() ==> ({
                                &&& (#[trigger] replies@[k]).src == input.src
                                &&& replies@[k].dst == spec_forward_targets(
                                    self.node_ids@.take(i as int),
                                    self.id@,
                                )[k]
                                &&& replies@[k].body.msg_id == input.body.msg_id
                                &&& replies@[k].body.in_reply_to == input.body.in_reply_to
                                &&& replies@[k].body.payload == input.body.payload
                            }),
                    decreases self.node_ids@.len() - i,
                {
                    proof {
                        assert(self.node_ids@.take(i + 1).drop_last() =~= self.node_ids@.take(
                            i as int,
                        ));
                        assert(self.node_ids@.take(i + 1).last() == self.node_ids@[i as int]);
                    }
                    if !(self.node_ids[i] == self.id) {
                        replies.push(
                            Message {
                                src: src.clone(),
                                dst: self.node_ids[i].clone(),
                                body: Body {
                                    msg_id,
                                    in_reply_to,
                                    payload: Payload::Broadcast { message },
                                },
                            },
                        );
                    }
                    i = i + 1;
                }
                proof {
                    assert(self.node_ids@.take(self.node_ids@.len() as int) =~= self.node_ids@);
                }
                self.seen_messages.push(message);
                replies.push(
                    Message {
                        src: dst,
                        dst: src,
                        body: Body {
                            msg_id: Some(mid),
                            in_reply_to: msg_id,
                            payload: Payload::BroadcastOk,
                        },
                    },
                );
            },
            Payload::Read => {
                let seen = self.seen_messages.clone();
                proof {
                    assert(seen@ =~= self.seen_messages@);
                }
                replies.push(
                    Message {
                        src: dst,
                        dst: src,
                        body: Body {
                            msg_id: Some(mid),
                            in_reply_to: msg_id,
                            payload: Payload::ReadOk { messages: seen },
                        },
                    },
                );
            },
            Payload::Topology { topology } => {
                self.topology = topology;
                replies.push(
                    Message {
                        src: dst,
                        dst: src,
                        body: Body {
                            msg_id: Some(mid),
                            in_reply_to: msg_id,
                            payload: Payload::TopologyOk,
                        },
                    },
                );
            },
            _ => {},
        }
        StepOutput { writes: Vec::new(), replies }
    }
}

} // verus!
