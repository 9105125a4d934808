//! The envelope protocol: the message frame every node speaks, the
//! request-to-reply transformation, and the bootstrap exchange that assigns a
//! node its identity.

use vstd::prelude::*;

use crate::error::NodeError;

verus! {

/// One complete unit of the wire protocol: an envelope between two nodes.
pub struct Message<P> {
    pub src: String,
    pub dst: String,
    pub body: Body<P>,
}

/// The body of an envelope: its bookkeeping ids and the payload.
pub struct Body<P> {
    pub msg_id: Option<usize>,
    pub in_reply_to: Option<usize>,
    pub payload: P,
}

/// The identity a node is assigned exactly once, at bootstrap: its own id
/// and the full peer list. Immutable for the node's lifetime.
pub struct Init {
    pub node_id: String,
    pub node_ids: Vec<String>,
}

/// The payloads of the bootstrap exchange.
pub enum InitPayload {
    Init(Init),
    InitOk,
}

impl<P> Message<P> {
    /// Builds the reply shell for this envelope: source and destination
    /// swapped, `in_reply_to` set to this envelope's message id, the payload
    /// carried over, and a fresh message id drawn from the caller-owned
    /// sequence, which advances by exactly one.
    pub fn to_reply(self, msg_id_seq: &mut usize) -> (r: Message<P>)
        requires
            *old(msg_id_seq) < usize::MAX,
        ensures
            r.src == self.dst,
            r.dst == self.src,
            r.body.msg_id == Some(*old(msg_id_seq)),
            r.body.in_reply_to == self.body.msg_id,
            r.body.payload == self.body.payload,
            *final(msg_id_seq) == *old(msg_id_seq) + 1,
    {
        let mid = *msg_id_seq;
        *msg_id_seq = *msg_id_seq + 1;
        let Message { src, dst, body } = self;
        let Body { msg_id, in_reply_to: _, payload } = body;
        Message {
            src: dst,
            dst: src,
            body: Body { msg_id: Some(mid), in_reply_to: msg_id, payload },
        }
    }

    /// The reply shell for a caller that keeps no message id sequence: the
    /// reply carries no message id.
    pub fn to_reply_unnumbered(self) -> (r: Message<P>)
        ensures
            r.src == self.dst,
            r.dst == self.src,
            r.body.msg_id == None::<usize>,
            r.body.in_reply_to == self.body.msg_id,
            r.body.payload == self.body.payload,
    {
        let Message { src, dst, body } = self;
        let Body { msg_id, in_reply_to: _, payload } = body;
        Message {
            src: dst,
            dst: src,
            body: Body { msg_id: None, in_reply_to: msg_id, payload },
        }
    }
}

/// Checks the very first inbound envelope of a node's life. When it is an
/// initialization request, yields the node's identity together with the
/// acknowledgment that must be emitted before anything else is processed:
/// message id fixed at zero, `in_reply_to` the request's message id. Any
/// other first envelope is a protocol violation.
pub fn bootstrap(first: Message<InitPayload>) -> (r: Result<(Init, Message<InitPayload>), NodeError>)
    ensures
        r matches Ok(p) ==> ({
            &&& first.body.payload matches InitPayload::Init(i) && p.0 == i
            &&& p.1.src == first.dst
            &&& p.1.dst == first.src
            &&& p.1.body.msg_id == Some(0usize)
            &&& p.1.body.in_reply_to == first.body.msg_id
            &&& p.1.body.payload is InitOk
        }),
        r is Ok <==> first.body.payload is Init,
        r is Err ==> r == Err::<(Init, Message<InitPayload>), NodeError>(NodeError::Protocol),
{
    let Message { src, dst, body } = first;
    let Body { msg_id, in_reply_to: _, payload } = body;
    match payload {
        InitPayload::Init(init) => {
            let reply = Message {
                src: dst,
                dst: src,
                body: Body { msg_id: Some(0), in_reply_to: msg_id, payload: InitPayload::InitOk },
            };
            Ok((init, reply))
        },
        InitPayload::InitOk => Err(NodeError::Protocol),
    }
}

/// One durable write a processing step asks the surrounding program to
/// apply, before the step's replies are emitted.
pub enum StorageEffect {
    /// Append `bytes` at the end of the topic's backing store.
    AppendLog { topic: String, bytes: Vec<u8> },
    /// Overwrite the topic's commit file so that it holds exactly `bytes`.
    WriteCommit { topic: String, bytes: Vec<u8> },
}

/// Everything one processing step produces: durable writes to apply, in
/// order, and then replies to emit, in order.
pub struct StepOutput<P> {
    pub writes: Vec<StorageEffect>,
    pub replies: Vec<Message<P>>,
}

} // verus!
