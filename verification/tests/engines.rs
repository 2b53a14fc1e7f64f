use reviewmesh::engine::{chat_topic, comment_topic, Inbound, SyncEngine};
use reviewmesh::model::{ChatLine, Comment};
use reviewmesh::store::Storage;

fn engine(session: &str) -> SyncEngine {
    SyncEngine::new(session.to_string(), Storage::new())
}

fn comment(id: &str, session: &str, created_at: i64) -> Comment {
    Comment {
        id: id.to_string(),
        session_id: session.to_string(),
        author: "alice".to_string(),
        file: "f.rs".to_string(),
        hunk_id: "h1".to_string(),
        line: 1,
        body: "looks good".to_string(),
        created_at,
        resolved: false,
    }
}

fn chat(id: &str, session: &str, author: &str, created_at: i64) -> ChatLine {
    ChatLine {
        id: id.to_string(),
        session_id: session.to_string(),
        author: author.to_string(),
        body: "hi".to_string(),
        created_at,
    }
}

#[test]
fn topics_are_namespaced_by_session() {
    assert_eq!(comment_topic("s1"), "reviewmesh-s1");
    assert_eq!(chat_topic("s1"), "chatmesh-s1");
}

#[test]
fn offline_peer_converges_after_one_queue_drain() {
    // peer A submits while B is unreachable; the immediate publish
    // attempt reaches nobody and is never acknowledged
    let mut a = engine("s1");
    let c1 = comment("c1", "s1", 100);
    let _unacknowledged = a.submit_comment(&c1, 100);
    // A always observes its own write
    assert_eq!(a.list_comments("s1").unwrap().len(), 1);
    // B reconnects; one drain of A's queue replays the event
    let mut b = engine("s1");
    assert!(b.tick().is_empty());
    for req in a.tick() {
        let delivered = b.on_inbound(&req.topic, req.payload.as_slice());
        assert!(delivered.is_some());
        a.acknowledge(req.sequence);
    }
    // further drains on B change nothing
    assert!(b.tick().is_empty());
    let listed = b.list_comments("s1").unwrap();
    assert_eq!(listed.len(), 1);
    assert_eq!(listed[0].id, "c1");
    assert_eq!(listed[0].body, "looks good");
    // A's queue is drained once the publish is acknowledged
    assert!(a.tick().is_empty());
}

#[test]
fn simultaneous_chat_ties_broken_by_id_identically_on_both_peers() {
    let mut a = engine("s1");
    let mut b = engine("s1");
    let from_a = chat("aaa", "s1", "alice", 500);
    let from_b = chat("zzz", "s1", "bob", 500);
    let req_a = a.submit_chat(&from_a, 500);
    let req_b = b.submit_chat(&from_b, 500);
    assert!(b.on_inbound(&req_a.topic, req_a.payload.as_slice()).is_some());
    assert!(a.on_inbound(&req_b.topic, req_b.payload.as_slice()).is_some());
    let view_a: Vec<String> = a.list_chat("s1").unwrap().into_iter().map(|c| c.id).collect();
    let view_b: Vec<String> = b.list_chat("s1").unwrap().into_iter().map(|c| c.id).collect();
    assert_eq!(view_a, view_b);
    assert_eq!(view_a, vec!["aaa", "zzz"]);
}

#[test]
fn same_event_set_in_any_order_with_duplicates_converges() {
    let c1 = comment("c1", "s1", 10);
    let c2 = comment("c2", "s1", 20);
    let c3 = comment("c3", "s1", 5);
    let mut a = engine("s1");
    let mut b = engine("s1");
    for c in [&c1, &c2, &c3, &c1] {
        a.submit_comment(c, c.created_at);
    }
    for c in [&c3, &c1, &c2, &c2, &c3] {
        b.submit_comment(c, c.created_at);
    }
    let la = a.list_comments("s1").unwrap();
    let lb = b.list_comments("s1").unwrap();
    assert_eq!(la, lb);
    let ids: Vec<String> = la.into_iter().map(|c| c.id).collect();
    assert_eq!(ids, vec!["c3", "c1", "c2"]);
}

#[test]
fn inbound_redelivery_is_harmless() {
    let mut a = engine("s1");
    let mut b = engine("s1");
    let req = a.submit_comment(&comment("c1", "s1", 1), 1);
    assert!(b.on_inbound(&req.topic, req.payload.as_slice()).is_some());
    assert!(b.on_inbound(&req.topic, req.payload.as_slice()).is_some());
    assert_eq!(b.list_comments("s1").unwrap().len(), 1);
}

#[test]
fn inbound_foreign_or_malformed_is_dropped() {
    let mut b = engine("s1");
    let mut other = engine("s2");
    let req = other.submit_comment(&comment("c9", "s2", 1), 1);
    // another session's topic never cross-delivers
    assert!(b.on_inbound(&req.topic, req.payload.as_slice()).is_none());
    // malformed bytes on the right topic are dropped silently
    assert!(b
        .on_inbound(&comment_topic("s1"), &[1, 2, 3, 4])
        .is_none());
    // comment bytes on the chat topic do not decode
    assert!(b
        .on_inbound(&chat_topic("s1"), req.payload.as_slice())
        .is_none());
    assert_eq!(b.list_comments("s1").unwrap().len(), 0);
    assert_eq!(b.list_chat("s1").unwrap().len(), 0);
}

#[test]
fn inbound_chat_notifies_observer_with_the_entity() {
    let mut a = engine("s1");
    let mut b = engine("s1");
    let line = chat("m1", "s1", "alice", 9);
    let req = a.submit_chat(&line, 9);
    match b.on_inbound(&req.topic, req.payload.as_slice()) {
        Some(Inbound::Chat(got)) => assert_eq!(got, line),
        _ => panic!("expected a chat notification"),
    }
}

#[test]
fn queued_events_survive_restart_and_replay_until_acknowledged() {
    let mut a = engine("s1");
    let c1 = comment("c1", "s1", 50);
    a.submit_comment(&c1, 50);
    // the process stops before any publish succeeds; the persistence
    // layer wrote the queue rows out and reads them back
    let store = a.into_store();
    let rows = store.replay_queue();
    let mut fresh = Storage::new();
    assert!(fresh.restore_queue(rows));
    let a_restarted = SyncEngine::new("s1".to_string(), fresh);
    let requests = a_restarted.tick();
    assert_eq!(requests.len(), 1);
    // the replayed request still delivers the comment
    let mut b = engine("s1");
    let delivered = b.on_inbound(&requests[0].topic, requests[0].payload.as_slice());
    assert!(delivered.is_some());
    assert_eq!(b.list_comments("s1").unwrap()[0].id, "c1");
}
