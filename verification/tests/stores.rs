use reviewmesh::model::{ChatLine, Comment, ReviewSession, StoreError};
use reviewmesh::store::Storage;

fn comment(id: &str, session: &str, created_at: i64) -> Comment {
    Comment {
        id: id.to_string(),
        session_id: session.to_string(),
        author: "alice".to_string(),
        file: "f.rs".to_string(),
        hunk_id: "h1".to_string(),
        line: 1,
        body: "body".to_string(),
        created_at,
        resolved: false,
    }
}

fn chat(id: &str, session: &str, created_at: i64) -> ChatLine {
    ChatLine {
        id: id.to_string(),
        session_id: session.to_string(),
        author: "bob".to_string(),
        body: "hi".to_string(),
        created_at,
    }
}

#[test]
fn upsert_comment_twice_stores_one_record() {
    let mut s = Storage::new();
    let c = comment("c1", "s1", 10);
    s.save_comment(&c).unwrap();
    s.save_comment(&c).unwrap();
    let listed = s.load_comments("s1").unwrap();
    assert_eq!(listed.len(), 1);
    assert_eq!(listed[0].id, "c1");
}

#[test]
fn upsert_replaces_resolved_flag() {
    let mut s = Storage::new();
    let mut c = comment("c1", "s1", 10);
    s.save_comment(&c).unwrap();
    c.resolved = true;
    s.save_comment(&c).unwrap();
    let listed = s.load_comments("s1").unwrap();
    assert_eq!(listed.len(), 1);
    assert!(listed[0].resolved);
}

#[test]
fn listing_sorted_by_time_then_id_regardless_of_insertion_order() {
    let mut s = Storage::new();
    s.save_comment(&comment("b", "s1", 20)).unwrap();
    s.save_comment(&comment("z", "s1", 10)).unwrap();
    s.save_comment(&comment("a", "s1", 20)).unwrap();
    s.save_comment(&comment("m", "s1", 5)).unwrap();
    let ids: Vec<String> = s
        .load_comments("s1")
        .unwrap()
        .into_iter()
        .map(|c| c.id)
        .collect();
    assert_eq!(ids, vec!["m", "z", "a", "b"]);
}

#[test]
fn chat_listing_sorted_with_ties_broken_by_id() {
    let mut s = Storage::new();
    s.save_chat(&chat("b2", "s1", 100)).unwrap();
    s.save_chat(&chat("a1", "s1", 100)).unwrap();
    let ids: Vec<String> = s.load_chat("s1").unwrap().into_iter().map(|c| c.id).collect();
    assert_eq!(ids, vec!["a1", "b2"]);
}

#[test]
fn listings_scoped_by_session() {
    let mut s = Storage::new();
    s.save_comment(&comment("c1", "s1", 1)).unwrap();
    s.save_comment(&comment("c2", "s2", 1)).unwrap();
    assert_eq!(s.load_comments("s1").unwrap().len(), 1);
    assert_eq!(s.load_comments("s2").unwrap().len(), 1);
    assert_eq!(s.load_comments("s3").unwrap().len(), 0);
}

#[test]
fn sessions_save_and_get() {
    let mut s = Storage::new();
    assert!(s.get_session("s1").unwrap().is_none());
    let sess = ReviewSession {
        id: "s1".to_string(),
        title: "First".to_string(),
        created_at: 5,
        participants: vec!["alice".to_string(), "bob".to_string()],
    };
    s.save_session(&sess).unwrap();
    let got = s.get_session("s1").unwrap().unwrap();
    assert_eq!(got.title, "First");
    assert_eq!(got.participants, vec!["alice", "bob"]);
    let mut renamed = sess.clone();
    renamed.title = "Renamed".to_string();
    s.save_session(&renamed).unwrap();
    assert_eq!(s.get_session("s1").unwrap().unwrap().title, "Renamed");
}

#[test]
fn queue_assigns_increasing_sequences_and_acknowledges_idempotently() {
    let mut s = Storage::new();
    let a = s.queue_offline("t", &[1], 0).unwrap();
    let b = s.queue_offline("t", &[2], 0).unwrap();
    let c = s.queue_offline("t", &[3], 0).unwrap();
    assert_eq!((a, b, c), (0, 1, 2));
    assert_eq!(s.replay_queue().len(), 3);
    s.acknowledge(1).unwrap();
    let pending: Vec<u64> = s.replay_queue().into_iter().map(|e| e.sequence).collect();
    assert_eq!(pending, vec![0, 2]);
    // acknowledging again, or a sequence never assigned, is a no-op
    s.acknowledge(1).unwrap();
    s.acknowledge(99).unwrap();
    let pending: Vec<u64> = s.replay_queue().into_iter().map(|e| e.sequence).collect();
    assert_eq!(pending, vec![0, 2]);
}

#[test]
fn unacknowledged_events_survive_a_restart() {
    let mut s = Storage::new();
    s.queue_offline("topic-a", &[9, 9], 7).unwrap();
    s.queue_offline("topic-a", &[8], 7).unwrap();
    s.acknowledge(0).unwrap();
    // what a persistence layer would write out and read back
    let rows = s.replay_queue();
    let mut restarted = Storage::new();
    assert!(restarted.restore_queue(rows));
    let pending = restarted.replay_queue();
    assert_eq!(pending.len(), 1);
    assert_eq!(pending[0].sequence, 1);
    assert_eq!(pending[0].topic, "topic-a");
    assert_eq!(pending[0].payload, vec![8]);
}

#[test]
fn restore_queue_rejects_rows_out_of_order() {
    let mut s = Storage::new();
    s.queue_offline("t", &[1], 0).unwrap();
    s.queue_offline("t", &[2], 0).unwrap();
    let mut rows = s.replay_queue();
    rows.swap(0, 1);
    let mut restarted = Storage::new();
    assert!(!restarted.restore_queue(rows));
    assert_eq!(restarted.replay_queue().len(), 0);
}

#[test]
fn restore_records_from_bytes_and_skip_malformed() {
    let mut s = Storage::new();
    let c = comment("c1", "s1", 3);
    let record = reviewmesh::codec::encode_comment(&c);
    s.restore_comment(record.as_slice()).unwrap();
    assert_eq!(s.restore_comment(&[0, 1, 2]), Err(StoreError::Malformed));
    let listed = s.load_comments("s1").unwrap();
    assert_eq!(listed.len(), 1);
    assert_eq!(listed[0], c);
    let line = chat("m1", "s1", 4);
    let record = reviewmesh::codec::encode_chat(&line);
    s.restore_chat(record.as_slice()).unwrap();
    assert_eq!(s.restore_chat(&[]), Err(StoreError::Malformed));
    assert_eq!(s.load_chat("s1").unwrap(), vec![line]);
}
