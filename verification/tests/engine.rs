use flyio_dist::codec::{decode_commit, decode_record, encode_commit, encode_record, fmt_usize};
use flyio_dist::error::NodeError;
use flyio_dist::kafka::KafkaNode;
use flyio_dist::log::{build_index, Topic};
use flyio_dist::protocol::Init;

fn record_line(offset: usize, message: usize) -> Vec<u8> {
    encode_record(offset, message)
}

#[test]
fn fmt_usize_digits() {
    assert_eq!(fmt_usize(0), b"0".to_vec());
    assert_eq!(fmt_usize(7), b"7".to_vec());
    assert_eq!(fmt_usize(1234), b"1234".to_vec());
    assert_eq!(fmt_usize(usize::MAX), usize::MAX.to_string().into_bytes());
}

#[test]
fn record_line_bytes() {
    assert_eq!(encode_record(0, 10), b"{\"offset\":0,\"message\":10}\n".to_vec());
    assert_eq!(encode_record(12, 345), b"{\"offset\":12,\"message\":345}\n".to_vec());
}

#[test]
fn record_decode_round_trip() {
    let body = b"{\"offset\":3,\"message\":99}".to_vec();
    assert_eq!(decode_record(&body), Some((3, 99)));
    let mut line = encode_record(3, 99);
    line.pop(); // drop the newline: decode works on a single line
    assert_eq!(decode_record(&line), Some((3, 99)));
}

#[test]
fn record_decode_rejects_noncanonical() {
    assert_eq!(decode_record(&b"{\"offset\":007,\"message\":1}".to_vec()), None);
    assert_eq!(decode_record(&b"{\"offset\":1,\"message\":2".to_vec()), None);
    assert_eq!(decode_record(&b"{\"offset\":x,\"message\":2}".to_vec()), None);
    assert_eq!(decode_record(&b"not a record".to_vec()), None);
    assert_eq!(decode_record(&b"".to_vec()), None);
    assert_eq!(decode_record(&b"{\"offset\":1,\"message\":2} ".to_vec()), None);
}

#[test]
fn commit_bytes_round_trip() {
    assert_eq!(encode_commit(42), b"42\n".to_vec());
    assert_eq!(decode_commit(&b"42\n".to_vec()), Some(42));
    assert_eq!(decode_commit(&b"0\n".to_vec()), Some(0));
    assert_eq!(decode_commit(&b"42".to_vec()), None);
    assert_eq!(decode_commit(&b"x\n".to_vec()), None);
    assert_eq!(decode_commit(&b"042\n".to_vec()), None);
    assert_eq!(decode_commit(&b"\n".to_vec()), None);
}

#[test]
fn append_assigns_dense_offsets() {
    let mut t = Topic::new(String::from("topicA"));
    let (o0, l0) = t.append(10).unwrap();
    let (o1, l1) = t.append(20).unwrap();
    let (o2, _) = t.append(10).unwrap();
    assert_eq!((o0, o1, o2), (0, 1, 2));
    assert_eq!(l0, b"{\"offset\":0,\"message\":10}\n".to_vec());
    assert_eq!(l1, b"{\"offset\":1,\"message\":20}\n".to_vec());
    assert_eq!(t.next_offset, 3);
}

#[test]
fn read_from_serves_suffixes() {
    let mut t = Topic::new(String::from("topicA"));
    t.append(10).unwrap();
    t.append(20).unwrap();
    assert_eq!(t.read_from(0), vec![(0, 10), (1, 20)]);
    assert_eq!(t.read_from(1), vec![(1, 20)]);
    assert_eq!(t.read_from(2), Vec::<(usize, usize)>::new());
    assert_eq!(t.read_from(100), Vec::<(usize, usize)>::new());
}

#[test]
fn rebuild_recovers_appended_state() {
    // write three records, then rebuild from the bytes the appends produced
    let mut t = Topic::new(String::from("topicA"));
    let mut file: Vec<u8> = Vec::new();
    for v in [10, 20, 30] {
        let (_, line) = t.append(v).unwrap();
        file.extend_from_slice(&line);
    }
    let rebuilt = build_index(String::from("topicA"), &file).unwrap();
    assert_eq!(rebuilt.next_offset, 3);
    assert_eq!(rebuilt.file_len, file.len() as u64);
    for j in 0..3 {
        assert_eq!(rebuilt.read_from(j), t.read_from(j));
        assert_eq!(rebuilt.index[j], t.index[j]);
    }
}

#[test]
fn rebuild_empty_store() {
    let t = build_index(String::from("t"), &Vec::new()).unwrap();
    assert_eq!(t.next_offset, 0);
    assert_eq!(t.read_from(0), Vec::<(usize, usize)>::new());
}

#[test]
fn rebuild_out_of_physical_order() {
    // offsets 0..=1 present but written in reverse physical order
    let mut file = record_line(1, 20);
    file.extend_from_slice(&record_line(0, 10));
    let t = build_index(String::from("t"), &file).unwrap();
    assert_eq!(t.next_offset, 2);
    assert_eq!(t.read_from(0), vec![(0, 10), (1, 20)]);
    assert_eq!(t.read_from(1), vec![(1, 20)]);
    // the index points at each offset's line where it actually sits
    let first_line_len = record_line(1, 20).len() as u64;
    assert_eq!(t.index, vec![first_line_len, 0]);
    assert_eq!(t.file_len, file.len() as u64);
}

#[test]
fn rebuild_last_line_wins_for_duplicate_offset() {
    let mut file = record_line(0, 10);
    file.extend_from_slice(&record_line(0, 30));
    let t = build_index(String::from("t"), &file).unwrap();
    assert_eq!(t.next_offset, 1);
    assert_eq!(t.read_from(0), vec![(0, 30)]);
}

#[test]
fn rebuild_fails_on_malformed_line() {
    let mut file = record_line(0, 10);
    file.extend_from_slice(b"garbage\n");
    assert_eq!(build_index(String::from("t"), &file).err(), Some(NodeError::CorruptLog));
}

#[test]
fn rebuild_fails_on_truncated_line() {
    let mut file = record_line(0, 10);
    file.extend_from_slice(b"{\"offset\":1,\"mess");
    assert_eq!(build_index(String::from("t"), &file).err(), Some(NodeError::CorruptLog));
}

#[test]
fn rebuild_fails_on_offset_gap() {
    let mut file = record_line(0, 10);
    file.extend_from_slice(&record_line(2, 20));
    assert_eq!(build_index(String::from("t"), &file).err(), Some(NodeError::CorruptLog));
}

fn fresh_node() -> KafkaNode {
    let init = Init { node_id: String::from("n1"), node_ids: vec![String::from("n1")] };
    KafkaNode::from_init(init, Vec::new(), Vec::new()).unwrap()
}

#[test]
fn kafka_scenario() {
    let mut node = fresh_node();
    let (o0, _) = node.append_message(&String::from("topicA"), 10).unwrap();
    assert_eq!(o0, 0);
    let (o1, _) = node.append_message(&String::from("topicA"), 20).unwrap();
    assert_eq!(o1, 1);
    assert_eq!(node.read_messages(&String::from("topicA"), 0), vec![(0, 10), (1, 20)]);
    assert_eq!(node.read_messages(&String::from("topicA"), 1), vec![(1, 20)]);
    node.commit(&String::from("topicA"), 1);
    let listed = node.list_committed(&vec![String::from("topicA"), String::from("topicB")]);
    assert_eq!(listed, vec![(String::from("topicA"), 1)]);
}

#[test]
fn read_unknown_topic_is_empty() {
    let node = fresh_node();
    assert_eq!(
        node.read_messages(&String::from("nowhere"), 0),
        Vec::<(usize, usize)>::new()
    );
}

#[test]
fn read_unwritten_offset_is_empty() {
    let mut node = fresh_node();
    node.append_message(&String::from("topicA"), 10).unwrap();
    assert_eq!(
        node.read_messages(&String::from("topicA"), 5),
        Vec::<(usize, usize)>::new()
    );
}

#[test]
fn commit_is_idempotent_and_last_write_wins() {
    let mut node = fresh_node();
    node.commit(&String::from("topicA"), 5);
    let once = node.list_committed(&vec![String::from("topicA")]);
    node.commit(&String::from("topicA"), 5);
    let twice = node.list_committed(&vec![String::from("topicA")]);
    assert_eq!(once, twice);
    node.commit(&String::from("topicA"), 9);
    assert_eq!(node.read_commit(&String::from("topicA")), Some(9));
    node.commit(&String::from("topicA"), 2);
    assert_eq!(node.read_commit(&String::from("topicA")), Some(2));
}

#[test]
fn list_committed_omits_unknown_and_duplicates() {
    let mut node = fresh_node();
    node.commit(&String::from("a"), 1);
    let listed = node.list_committed(&vec![
        String::from("b"),
        String::from("a"),
        String::from("a"),
    ]);
    assert_eq!(listed, vec![(String::from("a"), 1)]);
}

#[test]
fn restart_from_append_output_preserves_reads() {
    // run a node, persist exactly what append handed out, restart, compare
    let mut node = fresh_node();
    let mut file_a: Vec<u8> = Vec::new();
    for v in [7, 8, 9] {
        let (_, line) = node.append_message(&String::from("a"), v).unwrap();
        file_a.extend_from_slice(&line);
    }
    let init = Init { node_id: String::from("n1"), node_ids: vec![String::from("n1")] };
    let restarted = KafkaNode::from_init(
        init,
        vec![(String::from("a"), file_a)],
        vec![(String::from("a"), 1)],
    )
    .unwrap();
    for j in 0..4 {
        assert_eq!(
            restarted.read_messages(&String::from("a"), j),
            node.read_messages(&String::from("a"), j)
        );
    }
    assert_eq!(restarted.read_commit(&String::from("a")), Some(1));
    let (o3, _) = {
        let mut n2 = restarted;
        n2.append_message(&String::from("a"), 10).unwrap()
    };
    assert_eq!(o3, 3);
}

#[test]
fn from_init_rejects_corrupt_store() {
    let init = Init { node_id: String::from("n1"), node_ids: vec![String::from("n1")] };
    let r = KafkaNode::from_init(
        init,
        vec![(String::from("a"), b"bad\n".to_vec())],
        Vec::new(),
    );
    assert_eq!(r.err(), Some(NodeError::CorruptLog));
}
