//! The echo node: answers every echo request with the same text.

use vstd::prelude::*;

use crate::protocol::Body;
use crate::protocol::Init;
use crate::protocol::Message;
use crate::protocol::StepOutput;

verus! {

/// The echo protocol's payloads.
pub enum Payload {
    Echo { echo: String },
    EchoOk { echo: String },
}

/// A node that echoes. Its only state is the message id sequence.
pub struct EchoNode {
    pub id: usize,
}

impl EchoNode {
    /// A fresh echo node; its message id sequence starts at one.
    pub fn from_init(_init: Init) -> (r: EchoNode)
        ensures
            r.id == 1,
    {
        EchoNode { id: 1 }
    }

    /// Processes one envelope: always replies, echoing the request's text
    /// back for an echo request and carrying any other payload through
    /// unchanged.
    pub fn step(&mut self, input: Message<Payload>) -> (out: StepOutput<Payload>)
        requires
            old(self).id < usize::MAX,
        ensures
            final(self).id == old(self).id + 1,
            out.writes@ == Seq::<crate::protocol::StorageEffect>::empty(),
            out.replies@.len() == 1,
            out.replies@[0].src == input.dst,
            out.replies@[0].dst == input.src,
            out.replies@[0].body.msg_id == Some(old(self).id),
            out.replies@[0].body.in_reply_to == input.body.msg_id,
            input.body.payload matches Payload::Echo { echo } ==> out.replies@[0].body.payload
                == (Payload::EchoOk { echo }),
            input.body.payload is EchoOk ==> out.replies@[0].body.payload
                == input.body.payload,
    {
        let reply = input.to_reply(&mut self.id);
        let Message { src, dst, body } = reply;
        let Body { msg_id, in_reply_to, payload } = body;
        let answered = match payload {
            Payload::Echo { echo } => Payload::EchoOk { echo },
            p => p,
        };
        let mut replies: Vec<Message<Payload>> = Vec::new();
        replies.push(Message { src, dst, body: Body { msg_id, in_reply_to, payload: answered } });
        StepOutput { writes: Vec::new(), replies }
    }
}

} // verus!
