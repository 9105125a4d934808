//! The unique-id node: answers each request with an id no other node, and
//! no other request to this node, ever receives — the node's own id, a
//! dash, and the current value of its message id sequence.

use vstd::prelude::*;
use vstd::string::*;

use crate::protocol::Body;
use crate::protocol::Init;
use crate::protocol::Message;
use crate::protocol::StepOutput;

verus! {

/// The decimal digit character for one digit value.
pub open spec fn spec_digit_char(d: nat) -> char {
    if d == 0 {
        '0'
    } else if d == 1 {
        '1'
    } else if d == 2 {
        '2'
    } else if d == 3 {
        '3'
    } else if d == 4 {
        '4'
    } else if d == 5 {
        '5'
    } else if d == 6 {
        '6'
    } else if d == 7 {
        '7'
    } else if d == 8 {
        '8'
    } else {
        '9'
    }
}

/// The decimal digit characters of `n`, most significant first.
pub open spec fn spec_digits_chars(n: nat) -> Seq<char>
    decreases n,
{
    if n < 10 {
        seq![spec_digit_char(n)]
    } else {
        spec_digits_chars(n / 10).push(spec_digit_char(n % 10))
    }
}

/// The id issued for sequence number `k` by the node named `id`.
pub open spec fn spec_unique_id(id: Seq<char>, k: nat) -> Seq<char> {
    id + seq!['-'] + spec_digits_chars(k)
}

fn append_digit(s: &mut String, d: usize)
    requires
        d < 10,
    ensures
        final(s)@ == old(s)@ + seq![spec_digit_char(d as nat)],
{
    let c: &str = match d {
        0 => "0",
        1 => "1",
        2 => "2",
        3 => "3",
        4 => "4",
        5 => "5",
        6 => "6",
        7 => "7",
        8 => "8",
        _ => "9",
    };
    proof {
        reveal_strlit("0");
        reveal_strlit("1");
        reveal_strlit("2");
        reveal_strlit("3");
        reveal_strlit("4");
        reveal_strlit("5");
        reveal_strlit("6");
        reveal_strlit("7");
        reveal_strlit("8");
        reveal_strlit("9");
        assert(c@ =~= seq![spec_digit_char(d as nat)]);
    }
    s.append(c);
}

fn append_digits(s: &mut String, n: usize)
    ensures
        final(s)@ == old(s)@ + spec_digits_chars(n as nat),
    decreases n,
{
    if n < 10 {
        append_digit(s, n);
    } else {
        append_digits(s, n / 10);
        append_digit(s, n % 10);
        proof {
            assert(s@ =~= old(s)@ + spec_digits_chars(n as nat));
        }
    }
}

/// The unique-id protocol's payloads.
pub enum Payload {
    Generate,
    GenerateOk { id: String },
}

/// A node of the unique-id variant.
pub struct UniqueIdNode {
    pub msg_id_seq: usize,
    pub id: String,
}

impl UniqueIdNode {
    /// A fresh node; its message id sequence starts at one.
    pub fn from_init(init: Init) -> (r: UniqueIdNode)
        ensures
            r.id == init.node_id,
            r.msg_id_seq == 1,
    {
        UniqueIdNode { id: init.node_id, msg_id_seq: 1 }
    }

    /// Processes one envelope: a generate request is answered with the id
    /// built from this node's name and the freshly advanced sequence value,
    /// so no two requests — here or on any other node — get the same id.
    pub fn step(&mut self, input: Message<Payload>) -> (out: StepOutput<Payload>)
        requires
            old(self).msg_id_seq < usize::MAX,
        ensures
            final(self).id == old(self).id,
            final(self).msg_id_seq == old(self).msg_id_seq + 1,
            out.writes@.len() == 0,
            input.body.payload is Generate ==> ({
                &&& out.replies@.len() == 1
                &&& out.replies@[0].src == input.dst
                &&& out.replies@[0].dst == input.src
                &&& out.replies@[0].body.msg_id == Some(old(self).msg_id_seq)
                &&& out.replies@[0].body.in_reply_to == input.body.msg_id
                &&& out.replies@[0].body.payload matches Payload::GenerateOk { id } && id@
                    == spec_unique_id(old(self).id@, (old(self).msg_id_seq + 1) as nat)
            }),
            input.body.payload is GenerateOk ==> out.replies@.len() == 0,
    {
        let reply = input.to_reply(&mut self.msg_id_seq);
        let Message { src, dst, body } = reply;
        let Body { msg_id, in_reply_to, payload } = body;
        let mut replies: Vec<Message<Payload>> = Vec::new();
        match payload {
            Payload::Generate => {
                let mut uid = self.id.clone();
                proof {
                    reveal_strlit("-");
                }
                uid.append("-");
                append_digits(&mut uid, self.msg_id_seq);
                proof {
                    assert(uid@ =~= spec_unique_id(self.id@, self.msg_id_seq as nat));
                }
                replies.push(
                    Message {
                        src,
                        dst,
                        body: Body {
                            msg_id,
                            in_reply_to,
                            payload: Payload::GenerateOk { id: uid },
                        },
                    },
                );
            },
            _ => {},
        }
        StepOutput { writes: Vec::new(), replies }
    }
}

} // verus!
