//! The sync engine: the single point of entry for local mutations and
//! inbound dissemination.
//!
//! A submission is applied to the store first — a peer always observes
//! its own writes — then enqueued, and handed out as a publish request
//! for an immediate best-effort attempt.  A publish failure is swallowed:
//! the queue covers it, and the caller acknowledges a sequence only once
//! the transport accepted the bytes.  Inbound bytes are decoded by topic
//! family; a malformed or foreign message changes nothing and is dropped.
//! Comment and chat events travel on separate topics namespaced by the
//! session id, so peers of different sessions never cross-deliver.

use vstd::prelude::*;
use crate::codec::{dec_chat, dec_comment, decode_chat, decode_comment, enc_chat, enc_comment,
    encode_chat, encode_comment};
use crate::model::{ChatLine, Comment, ReviewSession, ReviewSessionV, StoreError};
use crate::queue::{QueuedEvent, QueuedEventV, ack_of, pending_of};
use crate::records::{sorted_strict, unique_ids, upsert_set};
use crate::store::{Storage, chat_in, comments_in};
use crate::strutil::str_eq;

verus! {

/// The topic a session's comment events travel on.
pub open spec fn comment_topic_of(sid: Seq<char>) -> Seq<char> {
    "reviewmesh-"@ + sid
}

/// The topic a session's chat events travel on: chat volume must not
/// mask comment loss.
pub open spec fn chat_topic_of(sid: Seq<char>) -> Seq<char> {
    "chatmesh-"@ + sid
}

/// The comment topic of a session.
pub fn comment_topic(session_id: &str) -> (r: String)
    ensures
        r@ == comment_topic_of(session_id@),
{
    let mut t = String::from_str("reviewmesh-");
    t.append(session_id);
    t
}

/// The chat topic of a session.
pub fn chat_topic(session_id: &str) -> (r: String)
    ensures
        r@ == chat_topic_of(session_id@),
{
    let mut t = String::from_str("chatmesh-");
    t.append(session_id);
    t
}

/// The two topic families of one session never coincide: their prefixes
/// differ in length.
pub proof fn lemma_topics_distinct(sid: Seq<char>)
    ensures
        comment_topic_of(sid) != chat_topic_of(sid),
{
    reveal_strlit("reviewmesh-");
    reveal_strlit("chatmesh-");
    assert(comment_topic_of(sid).len() == 11 + sid.len());
    assert(chat_topic_of(sid).len() == 9 + sid.len());
}

/// Mathematical view of a [`PublishRequest`].
pub ghost struct PublishRequestV {
    pub sequence: u64,
    pub topic: Seq<char>,
    pub payload: Seq<u8>,
}

/// One outbound publish attempt: the bytes, the topic, and the queue
/// sequence to acknowledge once the transport accepts them.
pub struct PublishRequest {
    pub sequence: u64,
    pub topic: String,
    pub payload: Vec<u8>,
}

impl View for PublishRequest {
    type V = PublishRequestV;

    open spec fn view(&self) -> PublishRequestV {
        PublishRequestV { sequence: self.sequence, topic: self.topic@, payload: self.payload@ }
    }
}

/// The request a queued event is republished as.
pub open spec fn request_of(e: QueuedEventV) -> PublishRequestV {
    PublishRequestV { sequence: e.sequence, topic: e.topic, payload: e.payload }
}

/// An inbound event the presentation layer is notified of.
pub enum Inbound {
    Comment(Comment),
    Chat(ChatLine),
}

/// The orchestrator: owns the store and its queue, keyed to one session.
pub struct SyncEngine {
    session_id: String,
    store: Storage,
}

impl SyncEngine {
    /// The session this engine serves.
    pub closed spec fn session(&self) -> Seq<char> {
        self.session_id@
    }

    /// The store, as the contracts see it.
    pub closed spec fn store(&self) -> Storage {
        self.store
    }

    /// The store's invariant, carried by the engine.
    pub open spec fn wf(&self) -> bool {
        self.store().wf()
    }

    /// An engine for one session over a store.
    pub fn new(session_id: String, store: Storage) -> (r: SyncEngine)
        requires
            store.wf(),
        ensures
            r.wf(),
            r.session() == session_id@,
            r.store() == store,
    {
        SyncEngine { session_id, store }
    }

    /// Hand the store back, for persistence at shutdown.
    pub fn into_store(self) -> (r: Storage)
        ensures
            r == self.store(),
    {
        self.store
    }

    /// The comments of a session, in listing order.
    pub fn list_comments(&self, session_id: &str) -> (r: Result<Vec<Comment>, StoreError>)
        requires
            self.wf(),
        ensures
            match r {
                Ok(v) => {
                    &&& v@.map_values(|c: Comment| c@) == comments_in(
                        self.store().comments_seq(),
                        session_id@,
                    )
                    &&& sorted_strict(v@.map_values(|c: Comment| c@))
                    &&& unique_ids(v@.map_values(|c: Comment| c@))
                },
                Err(_) => false,
            },
    {
        self.store.load_comments(session_id)
    }

    /// The chat lines of a session, in listing order.
    pub fn list_chat(&self, session_id: &str) -> (r: Result<Vec<ChatLine>, StoreError>)
        requires
            self.wf(),
        ensures
            match r {
                Ok(v) => {
                    &&& v@.map_values(|c: ChatLine| c@) == chat_in(
                        self.store().chat_seq(),
                        session_id@,
                    )
                    &&& sorted_strict(v@.map_values(|c: ChatLine| c@))
                    &&& unique_ids(v@.map_values(|c: ChatLine| c@))
                },
                Err(_) => false,
            },
    {
        self.store.load_chat(session_id)
    }

    /// The session with the given id, if the store holds it.
    pub fn get_session(&self, id: &str) -> (r: Result<Option<ReviewSession>, StoreError>)
        requires
            self.wf(),
        ensures
            match r {
                Ok(Some(s)) => self.store().sessions_set().contains(s@) && s@.id == id@,
                Ok(None) => forall|x: ReviewSessionV|
                    self.store().sessions_set().contains(x) ==> x.id != id@,
                Err(_) => false,
            },
    {
        self.store.get_session(id)
    }

    /// Idempotent upsert of a session.
    pub fn save_session(&mut self, session: &ReviewSession) -> (r: Result<(), StoreError>)
        requires
            old(self).wf(),
        ensures
            r is Ok,
            final(self).wf(),
            final(self).session() == old(self).session(),
            final(self).store().sessions_set() == upsert_set(
                old(self).store().sessions_set(),
                session@,
            ),
            final(self).store().comments_seq() == old(self).store().comments_seq(),
            final(self).store().chat_seq() == old(self).store().chat_seq(),
            final(self).store().queue_log() == old(self).store().queue_log(),
            final(self).store().queue_next() == old(self).store().queue_next(),
    {
        self.store.save_session(session)
    }

    /// Whether a submission can still be queued for dissemination.
    pub fn can_enqueue(&self) -> (r: bool)
        ensures
            r == (self.store().queue_next() < u64::MAX),
    {
        self.store.can_enqueue()
    }

    /// Apply a local comment: upsert into the store, enqueue its bytes on
    /// the session's comment topic, and hand back the immediate publish
    /// attempt.  Whether that attempt fails or succeeds, the record is
    /// stored and queued: dissemination is best-effort, retried on every
    /// replay until acknowledged.
    pub fn submit_comment(&mut self, comment: &Comment, now: i64) -> (r: PublishRequest)
        requires
            old(self).wf(),
            old(self).store().queue_next() < u64::MAX,
        ensures
            final(self).wf(),
            final(self).session() == old(self).session(),
            final(self).store().comments_set() == upsert_set(
                old(self).store().comments_set(),
                comment@,
            ),
            final(self).store().chat_seq() == old(self).store().chat_seq(),
            final(self).store().sessions_seq() == old(self).store().sessions_seq(),
            final(self).store().queue_next() == old(self).store().queue_next() + 1,
            final(self).store().queue_log() == old(self).store().queue_log().push(
                QueuedEventV {
                    sequence: old(self).store().queue_next(),
                    topic: comment_topic_of(old(self).session()),
                    payload: enc_comment(comment@),
                    enqueued_at: now as int,
                    acknowledged: false,
                },
            ),
            r@ == (PublishRequestV {
                sequence: old(self).store().queue_next(),
                topic: comment_topic_of(old(self).session()),
                payload: enc_comment(comment@),
            }),
    {
        let res = self.store.save_comment(comment);
        let payload = encode_comment(comment);
        let topic = comment_topic(self.session_id.as_str());
        let qres = self.store.queue_offline(topic.as_str(), payload.as_slice(), now);
        let sequence = match qres {
            Ok(s) => s,
            Err(_) => {
                proof {
                    assert(false);
                }
                0
            },
        };
        PublishRequest { sequence, topic, payload }
    }

    /// Apply a local chat line; the mirror of
    /// [`SyncEngine::submit_comment`], on the session's chat topic.
    pub fn submit_chat(&mut self, chat: &ChatLine, now: i64) -> (r: PublishRequest)
        requires
            old(self).wf(),
            old(self).store().queue_next() < u64::MAX,
        ensures
            final(self).wf(),
            final(self).session() == old(self).session(),
            final(self).store().chat_set() == upsert_set(old(self).store().chat_set(), chat@),
            final(self).store().comments_seq() == old(self).store().comments_seq(),
            final(self).store().sessions_seq() == old(self).store().sessions_seq(),
            final(self).store().queue_next() == old(self).store().queue_next() + 1,
            final(self).store().queue_log() == old(self).store().queue_log().push(
                QueuedEventV {
                    sequence: old(self).store().queue_next(),
                    topic: chat_topic_of(old(self).session()),
                    payload: enc_chat(chat@),
                    enqueued_at: now as int,
                    acknowledged: false,
                },
            ),
            r@ == (PublishRequestV {
                sequence: old(self).store().queue_next(),
                topic: chat_topic_of(old(self).session()),
                payload: enc_chat(chat@),
            }),
    {
        let res = self.store.save_chat(chat);
        let payload = encode_chat(chat);
        let topic = chat_topic(self.session_id.as_str());
        let qres = self.store.queue_offline(topic.as_str(), payload.as_slice(), now);
        let sequence = match qres {
            Ok(s) => s,
            Err(_) => {
                proof {
                    assert(false);
                }
                0
            },
        };
        PublishRequest { sequence, topic, payload }
    }

    /// Apply one inbound message.  Bytes on the session's comment topic
    /// decode to a comment, bytes on its chat topic to a chat line;
    /// either is upserted — re-delivery is harmless — and returned for
    /// observer notification.  A foreign topic, or bytes that decode to
    /// nothing, change nothing: dropped, never fatal.
    pub fn on_inbound(&mut self, topic: &str, data: &[u8]) -> (r: Option<Inbound>)
        requires
            old(self).wf(),
        ensures
            final(self).wf(),
            final(self).session() == old(self).session(),
            final(self).store().sessions_seq() == old(self).store().sessions_seq(),
            final(self).store().queue_log() == old(self).store().queue_log(),
            final(self).store().queue_next() == old(self).store().queue_next(),
            match r {
                Some(Inbound::Comment(c)) => {
                    &&& topic@ == comment_topic_of(old(self).session())
                    &&& dec_comment(data@) == Some(c@)
                    &&& final(self).store().comments_set() == upsert_set(
                        old(self).store().comments_set(),
                        c@,
                    )
                    &&& final(self).store().chat_seq() == old(self).store().chat_seq()
                },
                Some(Inbound::Chat(c)) => {
                    &&& topic@ == chat_topic_of(old(self).session())
                    &&& dec_chat(data@) == Some(c@)
                    &&& final(self).store().chat_set() == upsert_set(
                        old(self).store().chat_set(),
                        c@,
                    )
                    &&& final(self).store().comments_seq() == old(self).store().comments_seq()
                },
                None => {
                    &&& final(self).store().comments_seq() == old(self).store().comments_seq()
                    &&& final(self).store().chat_seq() == old(self).store().chat_seq()
                    &&& (topic@ == comment_topic_of(old(self).session()) ==> dec_comment(data@)
                        is None)
                    &&& (topic@ == chat_topic_of(old(self).session()) ==> dec_chat(data@) is None)
                },
            },
    {
        proof {
            lemma_topics_distinct(self.session_id@);
        }
        let ct = comment_topic(self.session_id.as_str());
        if str_eq(topic, ct.as_str()) {
            match decode_comment(data) {
                Some(c) => {
                    let res = self.store.save_comment(&c);
                    return Some(Inbound::Comment(c));
                },
                None => {
                    return None;
                },
            }
        }
        let cht = chat_topic(self.session_id.as_str());
        if str_eq(topic, cht.as_str()) {
            match decode_chat(data) {
                Some(c) => {
                    let res = self.store.save_chat(&c);
                    return Some(Inbound::Chat(c));
                },
                None => {
                    return None;
                },
            }
        }
        None
    }

    /// One drain of the offline queue: every event not yet acknowledged,
    /// as a publish request, in sequence order.  The caller attempts each
    /// and acknowledges the sequences the transport accepted; the rest
    /// are offered again on the next drain.
    pub fn tick(&self) -> (r: Vec<PublishRequest>)
        requires
            self.wf(),
        ensures
            r@.map_values(|p: PublishRequest| p@) == pending_of(self.store().queue_log())
                .map_values(|e: QueuedEventV| request_of(e)),
    {
        let pend = self.store.replay_queue();
        let mut r: Vec<PublishRequest> = Vec::new();
        let mut i: usize = 0;
        while i < pend.len()
            invariant
                i <= pend@.len(),
                pend@.map_values(|e: QueuedEvent| e@) == pending_of(self.store().queue_log()),
                r@.len() == i,
                forall|k: int| 0 <= k < i ==> (#[trigger] r@[k])@ == request_of(pend@[k]@),
            decreases pend@.len() - i,
        {
            let e = pend[i].clone();
            r.push(PublishRequest { sequence: e.sequence, topic: e.topic, payload: e.payload });
            i = i + 1;
        }
        proof {
            assert(r@.map_values(|p: PublishRequest| p@) =~= pending_of(self.store().queue_log())
                .map_values(|e: QueuedEventV| request_of(e)));
        }
        r
    }

    /// A publish attempt succeeded: mark its sequence acknowledged.
    /// Acknowledging twice, or acknowledging a sequence never assigned,
    /// is a no-op.
    pub fn acknowledge(&mut self, sequence: u64)
        requires
            old(self).wf(),
        ensures
            final(self).wf(),
            final(self).session() == old(self).session(),
            final(self).store().queue_log() == ack_of(old(self).store().queue_log(), sequence),
            final(self).store().queue_next() == old(self).store().queue_next(),
            final(self).store().comments_seq() == old(self).store().comments_seq(),
            final(self).store().chat_seq() == old(self).store().chat_seq(),
            final(self).store().sessions_seq() == old(self).store().sessions_seq(),
    {
        let res = self.store.acknowledge(sequence);
    }
}

} // verus!
