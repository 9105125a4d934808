use flyio_dist::broadcast::{BroadcastNode, Payload as BroadcastPayload};
use flyio_dist::echo::{EchoNode, Payload as EchoPayload};
use flyio_dist::error::NodeError;
use flyio_dist::kafka::{run, KafkaNode, Payload as KafkaPayload};
use flyio_dist::protocol::{bootstrap, Body, Init, InitPayload, Message, StorageEffect};
use flyio_dist::unique_ids::{Payload as UniqueIdPayload, UniqueIdNode};

fn envelope<P>(payload: P) -> Message<P> {
    Message {
        src: String::from("c1"),
        dst: String::from("n1"),
        body: Body { msg_id: Some(7), in_reply_to: None, payload },
    }
}

#[test]
fn to_reply_swaps_and_draws_an_id() {
    let mut seq: usize = 5;
    let reply = envelope(EchoPayload::Echo { echo: String::from("hi") }).to_reply(&mut seq);
    assert_eq!(seq, 6);
    assert_eq!(reply.src, String::from("n1"));
    assert_eq!(reply.dst, String::from("c1"));
    assert_eq!(reply.body.msg_id, Some(5));
    assert_eq!(reply.body.in_reply_to, Some(7));
}

#[test]
fn to_reply_unnumbered_carries_no_id() {
    let reply = envelope(EchoPayload::Echo { echo: String::from("x") }).to_reply_unnumbered();
    assert_eq!(reply.body.msg_id, None);
    assert_eq!(reply.body.in_reply_to, Some(7));
}

#[test]
fn bootstrap_acknowledges_init() {
    let init = Init {
        node_id: String::from("n1"),
        node_ids: vec![String::from("n1"), String::from("n2")],
    };
    let (got, ack) = bootstrap(envelope(InitPayload::Init(init))).unwrap();
    assert_eq!(got.node_id, String::from("n1"));
    assert_eq!(got.node_ids.len(), 2);
    assert_eq!(ack.src, String::from("n1"));
    assert_eq!(ack.dst, String::from("c1"));
    assert_eq!(ack.body.msg_id, Some(0));
    assert_eq!(ack.body.in_reply_to, Some(7));
    assert!(matches!(ack.body.payload, InitPayload::InitOk));
}

#[test]
fn bootstrap_rejects_anything_else() {
    let r = bootstrap(envelope(InitPayload::InitOk));
    assert!(matches!(r, Err(NodeError::Protocol)));
}

#[test]
fn echo_step_echoes() {
    let mut node = EchoNode::from_init(Init { node_id: String::from("n1"), node_ids: vec![] });
    let out = node.step(envelope(EchoPayload::Echo { echo: String::from("hello") }));
    assert_eq!(node.id, 2);
    assert_eq!(out.writes.len(), 0);
    assert_eq!(out.replies.len(), 1);
    let reply = &out.replies[0];
    assert_eq!(reply.body.msg_id, Some(1));
    assert_eq!(reply.body.in_reply_to, Some(7));
    match &reply.body.payload {
        EchoPayload::EchoOk { echo } => assert_eq!(echo, &String::from("hello")),
        _ => panic!("expected an echo acknowledgment"),
    }
}

#[test]
fn unique_id_step_issues_node_qualified_id() {
    let mut node =
        UniqueIdNode::from_init(Init { node_id: String::from("n1"), node_ids: vec![] });
    let out = node.step(envelope(UniqueIdPayload::Generate));
    assert_eq!(node.msg_id_seq, 2);
    assert_eq!(out.replies.len(), 1);
    match &out.replies[0].body.payload {
        UniqueIdPayload::GenerateOk { id } => assert_eq!(id, &String::from("n1-2")),
        _ => panic!("expected a generated id"),
    }
    let out2 = node.step(envelope(UniqueIdPayload::Generate));
    match &out2.replies[0].body.payload {
        UniqueIdPayload::GenerateOk { id } => assert_eq!(id, &String::from("n1-3")),
        _ => panic!("expected a generated id"),
    }
}

#[test]
fn broadcast_step_forwards_to_peers_and_acknowledges() {
    let mut node = BroadcastNode::from_init(Init {
        node_id: String::from("n1"),
        node_ids: vec![String::from("n1"), String::from("n2"), String::from("n3")],
    });
    let out = node.step(envelope(BroadcastPayload::Broadcast { message: 5 }));
    assert_eq!(node.seen_messages, vec![5]);
    assert_eq!(out.replies.len(), 3);
    // the forwards keep the original sender and message id, in peer order
    assert_eq!(out.replies[0].src, String::from("c1"));
    assert_eq!(out.replies[0].dst, String::from("n2"));
    assert_eq!(out.replies[0].body.msg_id, Some(7));
    assert!(matches!(out.replies[0].body.payload, BroadcastPayload::Broadcast { message: 5 }));
    assert_eq!(out.replies[1].dst, String::from("n3"));
    // the acknowledgment comes last
    assert_eq!(out.replies[2].dst, String::from("c1"));
    assert_eq!(out.replies[2].body.msg_id, Some(1));
    assert_eq!(out.replies[2].body.in_reply_to, Some(7));
    assert!(matches!(out.replies[2].body.payload, BroadcastPayload::BroadcastOk));
}

#[test]
fn broadcast_read_and_topology() {
    let mut node = BroadcastNode::from_init(Init {
        node_id: String::from("n1"),
        node_ids: vec![String::from("n1")],
    });
    node.step(envelope(BroadcastPayload::Broadcast { message: 4 }));
    let out = node.step(envelope(BroadcastPayload::Read));
    match &out.replies[0].body.payload {
        BroadcastPayload::ReadOk { messages } => assert_eq!(messages, &vec![4]),
        _ => panic!("expected the seen messages"),
    }
    let out2 = node.step(envelope(BroadcastPayload::Topology {
        topology: vec![(String::from("n1"), vec![])],
    }));
    assert!(matches!(out2.replies[0].body.payload, BroadcastPayload::TopologyOk));
    assert_eq!(node.topology.len(), 1);
}

fn fresh_kafka() -> KafkaNode {
    let init = Init { node_id: String::from("n1"), node_ids: vec![String::from("n1")] };
    KafkaNode::from_init(init, Vec::new(), Vec::new()).unwrap()
}

#[test]
fn kafka_step_send_appends_and_replies() {
    let mut node = fresh_kafka();
    let out = node
        .step(envelope(KafkaPayload::Send { topic: String::from("a"), message: 10 }))
        .unwrap();
    assert_eq!(out.writes.len(), 1);
    match &out.writes[0] {
        StorageEffect::AppendLog { topic, bytes } => {
            assert_eq!(topic, &String::from("a"));
            assert_eq!(bytes, &b"{\"offset\":0,\"message\":10}\n".to_vec());
        },
        _ => panic!("expected an append effect"),
    }
    assert_eq!(out.replies.len(), 1);
    assert_eq!(out.replies[0].body.msg_id, Some(1));
    assert!(matches!(out.replies[0].body.payload, KafkaPayload::SendOk { offset: 0 }));
}

#[test]
fn kafka_step_poll_and_commit_and_list() {
    let mut node = fresh_kafka();
    node.step(envelope(KafkaPayload::Send { topic: String::from("a"), message: 10 })).unwrap();
    node.step(envelope(KafkaPayload::Send { topic: String::from("a"), message: 20 })).unwrap();
    let out = node
        .step(envelope(KafkaPayload::Poll { offsets: vec![(String::from("a"), 1)] }))
        .unwrap();
    match &out.replies[0].body.payload {
        KafkaPayload::PollOk { messages } => {
            assert_eq!(messages, &vec![(String::from("a"), vec![(1, 20)])]);
        },
        _ => panic!("expected polled records"),
    }
    let out2 = node
        .step(envelope(KafkaPayload::CommitOffsets { offsets: vec![(String::from("a"), 1)] }))
        .unwrap();
    assert!(matches!(out2.replies[0].body.payload, KafkaPayload::CommitOffsetsOk));
    match &out2.writes[0] {
        StorageEffect::WriteCommit { topic, bytes } => {
            assert_eq!(topic, &String::from("a"));
            assert_eq!(bytes, &b"1\n".to_vec());
        },
        _ => panic!("expected a commit write"),
    }
    let out3 = node
        .step(envelope(KafkaPayload::ListCommittedOffsets {
            keys: vec![String::from("a"), String::from("b")],
        }))
        .unwrap();
    match &out3.replies[0].body.payload {
        KafkaPayload::ListCommittedOffsetsOk { offsets } => {
            assert_eq!(offsets, &vec![(String::from("a"), 1)]);
        },
        _ => panic!("expected the committed offsets"),
    }
}

#[test]
fn kafka_step_ignores_stray_replies() {
    let mut node = fresh_kafka();
    let before = node.msg_id_seq;
    let out = node.step(envelope(KafkaPayload::SendOk { offset: 3 })).unwrap();
    assert_eq!(out.writes.len(), 0);
    assert_eq!(out.replies.len(), 0);
    assert_eq!(node.msg_id_seq, before + 1);
}

#[test]
fn run_processes_in_arrival_order() {
    // two envelopes, A before B: A's effects and replies come first
    let mut node = fresh_kafka();
    let a = envelope(KafkaPayload::Send { topic: String::from("t"), message: 1 });
    let b = envelope(KafkaPayload::Send { topic: String::from("t"), message: 2 });
    let (outs, err) = run(&mut node, vec![a, b]);
    assert!(err.is_none());
    assert_eq!(outs.len(), 2);
    assert!(matches!(outs[0].replies[0].body.payload, KafkaPayload::SendOk { offset: 0 }));
    assert!(matches!(outs[1].replies[0].body.payload, KafkaPayload::SendOk { offset: 1 }));
    assert_eq!(node.read_messages(&String::from("t"), 0), vec![(0, 1), (1, 2)]);
}

#[test]
fn kafka_step_empty_batches() {
    let mut node = fresh_kafka();
    let out = node.step(envelope(KafkaPayload::Poll { offsets: vec![] })).unwrap();
    match &out.replies[0].body.payload {
        KafkaPayload::PollOk { messages } => assert!(messages.is_empty()),
        _ => panic!("expected an empty poll answer"),
    }
    let out2 = node.step(envelope(KafkaPayload::CommitOffsets { offsets: vec![] })).unwrap();
    assert!(matches!(out2.replies[0].body.payload, KafkaPayload::CommitOffsetsOk));
    assert_eq!(out2.writes.len(), 0);
    let out3 = node
        .step(envelope(KafkaPayload::ListCommittedOffsets { keys: vec![] }))
        .unwrap();
    match &out3.replies[0].body.payload {
        KafkaPayload::ListCommittedOffsetsOk { offsets } => assert!(offsets.is_empty()),
        _ => panic!("expected an empty committed listing"),
    }
}

#[test]
fn broadcast_alone_only_acknowledges() {
    let mut node = BroadcastNode::from_init(Init {
        node_id: String::from("n1"),
        node_ids: vec![String::from("n1")],
    });
    let out = node.step(envelope(BroadcastPayload::Broadcast { message: 1 }));
    assert_eq!(out.replies.len(), 1);
    assert!(matches!(out.replies[0].body.payload, BroadcastPayload::BroadcastOk));
}

#[test]
fn commit_batch_applies_in_order() {
    let mut node = fresh_kafka();
    let out = node
        .step(envelope(KafkaPayload::CommitOffsets {
            offsets: vec![(String::from("a"), 3), (String::from("a"), 1)],
        }))
        .unwrap();
    assert_eq!(out.writes.len(), 2);
    // the later entry of the batch wins
    assert_eq!(node.read_commit(&String::from("a")), Some(1));
}
