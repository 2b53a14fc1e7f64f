//! The durable store: sessions, comments and chat lines, keyed by id.
//!
//! All writes are idempotent upserts keyed by `id`: replaying the same
//! record twice — once from direct entry, once from a gossip echo, once
//! from queue replay — never duplicates it.  Listings are scoped by
//! session and come out sorted by `(created_at, id)` ascending, a
//! deterministic order reproducible on every peer.  The store also owns
//! the offline queue's log, so one persistence layer can hold both.
//!
//! The in-memory core never fails; the persistence layer around it raises
//! [`StoreError::Unavailable`] when the underlying storage cannot be
//! opened or written, and [`StoreError::Malformed`] stands for a stored
//! record that cannot be decoded, which a listing skips.

use vstd::prelude::*;
use crate::model::{ChatLine, ChatLineV, Comment, CommentV, QueueError, ReviewSession,
    ReviewSessionV, StoreError};
use crate::order::str_lt;
use crate::queue::{OfflineQueue, QueuedEvent, QueuedEventV, ack_of, pending_of,
    seq_strictly_increasing};
use crate::records::{Keyed, lemma_filter_sorted, lemma_insert_sorted, lemma_insertion_point,
    lemma_remove_keeps_order, lemma_remove_unique, lemma_push_unique, rec_lt, sorted_strict,
    unique_ids, upsert_set};
use crate::strutil::str_eq;

verus! {

/// The comments of one session, in listing order.
pub open spec fn comments_in(s: Seq<CommentV>, sid: Seq<char>) -> Seq<CommentV> {
    s.filter(|c: CommentV| c.session_id == sid)
}

/// The chat lines of one session, in listing order.
pub open spec fn chat_in(s: Seq<ChatLineV>, sid: Seq<char>) -> Seq<ChatLineV> {
    s.filter(|c: ChatLineV| c.session_id == sid)
}

/// Executable listing-order comparison of two comments.
fn comment_lt(a: &Comment, b: &Comment) -> (r: bool)
    ensures
        r == rec_lt(a@, b@),
{
    if a.created_at != b.created_at {
        a.created_at < b.created_at
    } else {
        str_lt(a.id.as_str(), b.id.as_str())
    }
}

/// Executable listing-order comparison of two chat lines.
fn chat_lt(a: &ChatLine, b: &ChatLine) -> (r: bool)
    ensures
        r == rec_lt(a@, b@),
{
    if a.created_at != b.created_at {
        a.created_at < b.created_at
    } else {
        str_lt(a.id.as_str(), b.id.as_str())
    }
}

/// Convergence, at the stores: two peers whose stores hold the same
/// record sets — however the records arrived, in whatever interleaving
/// and with whatever duplication — hold identical listings, record for
/// record.
pub proof fn lemma_listings_converge(a: Storage, b: Storage)
    requires
        a.wf(),
        b.wf(),
        a.comments_set() == b.comments_set(),
        a.chat_set() == b.chat_set(),
    ensures
        a.comments_seq() == b.comments_seq(),
        a.chat_seq() == b.chat_seq(),
{
    crate::records::lemma_sorted_unique_same_set(a.comments_seq(), b.comments_seq());
    crate::records::lemma_sorted_unique_same_set(a.chat_seq(), b.chat_seq());
}

/// The record store: three record sets keyed by primary id, and the
/// offline queue's log beside them.
pub struct Storage {
    comments: Vec<Comment>,
    chat: Vec<ChatLine>,
    sessions: Vec<ReviewSession>,
    queue: OfflineQueue,
}

impl Storage {
    /// The stored comments, in listing order.
    pub closed spec fn comments_seq(&self) -> Seq<CommentV> {
        self.comments@.map_values(|c: Comment| c@)
    }

    /// The stored chat lines, in listing order.
    pub closed spec fn chat_seq(&self) -> Seq<ChatLineV> {
        self.chat@.map_values(|c: ChatLine| c@)
    }

    /// The stored sessions.
    pub closed spec fn sessions_seq(&self) -> Seq<ReviewSessionV> {
        self.sessions@.map_values(|s: ReviewSession| s@)
    }

    /// The offline queue's log.
    pub closed spec fn queue_log(&self) -> Seq<QueuedEventV> {
        self.queue.log()
    }

    /// The sequence number the next queued event will carry.
    pub closed spec fn queue_next(&self) -> u64 {
        self.queue.next()
    }

    /// The stored comments, as a record set.
    pub open spec fn comments_set(&self) -> Set<CommentV> {
        self.comments_seq().to_set()
    }

    /// The stored chat lines, as a record set.
    pub open spec fn chat_set(&self) -> Set<ChatLineV> {
        self.chat_seq().to_set()
    }

    /// The stored sessions, as a record set.
    pub open spec fn sessions_set(&self) -> Set<ReviewSessionV> {
        self.sessions_seq().to_set()
    }

    /// Record sets sorted and free of duplicate ids, and the queue's log
    /// in sequence order.
    pub closed spec fn wf(&self) -> bool {
        &&& sorted_strict(self.comments_seq())
        &&& unique_ids(self.comments_seq())
        &&& sorted_strict(self.chat_seq())
        &&& unique_ids(self.chat_seq())
        &&& unique_ids(self.sessions_seq())
        &&& self.queue.wf()
    }

    /// The empty store.
    pub fn new() -> (r: Storage)
        ensures
            r.wf(),
            r.comments_seq() == Seq::<CommentV>::empty(),
            r.chat_seq() == Seq::<ChatLineV>::empty(),
            r.sessions_seq() == Seq::<ReviewSessionV>::empty(),
            r.queue_log() == Seq::<QueuedEventV>::empty(),
            r.queue_next() == 0,
    {
        let r = Storage {
            comments: Vec::new(),
            chat: Vec::new(),
            sessions: Vec::new(),
            queue: OfflineQueue::new(),
        };
        proof {
            assert(r.comments_seq() =~= Seq::<CommentV>::empty());
            assert(r.chat_seq() =~= Seq::<ChatLineV>::empty());
            assert(r.sessions_seq() =~= Seq::<ReviewSessionV>::empty());
        }
        r
    }

    fn find_comment(&self, id: &str) -> (r: Option<usize>)
        ensures
            match r {
                Some(i) => i < self.comments_seq().len() && self.comments_seq()[i as int].id
                    == id@,
                None => forall|k: int|
                    0 <= k < self.comments_seq().len() ==> (#[trigger] self.comments_seq()[k]).id
                        != id@,
            },
    {
        let n = self.comments.len();
        let mut i: usize = 0;
        while i < n
            invariant
                i <= n,
                n == self.comments@.len(),
                forall|k: int| 0 <= k < i ==> (#[trigger] self.comments_seq()[k]).id != id@,
            decreases n - i,
        {
            if str_eq(self.comments[i].id.as_str(), id) {
                return Some(i);
            }
            i = i + 1;
        }
        None
    }

    /// Idempotent upsert of a comment, keyed by `comment.id`: a stored
    /// comment with the same id gives way; every other record stays.  The
    /// in-memory core always succeeds.
    pub fn save_comment(&mut self, comment: &Comment) -> (r: Result<(), StoreError>)
        requires
            old(self).wf(),
        ensures
            r is Ok,
            final(self).wf(),
            final(self).comments_set() == upsert_set(old(self).comments_set(), comment@),
            final(self).chat_seq() == old(self).chat_seq(),
            final(self).sessions_seq() == old(self).sessions_seq(),
            final(self).queue_log() == old(self).queue_log(),
            final(self).queue_next() == old(self).queue_next(),
    {
        let ghost old_seq = self.comments_seq();
        let ghost cv = comment@;
        match self.find_comment(comment.id.as_str()) {
            Some(i) => {
                proof {
                    lemma_remove_keeps_order(old_seq, i as int);
                }
                self.comments.remove(i);
                proof {
                    assert(self.comments_seq() =~= old_seq.remove(i as int));
                    assert(self.comments_seq().to_set() =~= old_seq.to_set().filter(
                        |x: CommentV| x.key_id() != cv.key_id(),
                    )) by {
                        let removed = old_seq[i as int];
                        assert forall|x: CommentV|
                            old_seq.to_set().remove(removed).contains(x) implies old_seq.to_set()
                            .filter(|x: CommentV| x.key_id() != cv.key_id()).contains(x) by {
                            let k = choose|k: int| 0 <= k < old_seq.len() && old_seq[k] == x;
                            if k != i {
                                assert(old_seq[k].key_id() != old_seq[i as int].key_id());
                            }
                        }
                        assert forall|x: CommentV|
                            old_seq.to_set().filter(
                                |x: CommentV| x.key_id() != cv.key_id(),
                            ).contains(x) implies old_seq.to_set().remove(removed).contains(
                            x,
                        ) by {}
                    }
                    assert forall|k: int|
                        0 <= k < self.comments_seq().len() implies (#[trigger] self.comments_seq()[k]).id
                        != cv.id by {
                        let t = old_seq.remove(i as int);
                        let k0 = if k < i { k } else { k + 1 };
                        assert(t[k] == old_seq[k0]);
                        if k0 != i {
                            assert(old_seq[k0].key_id() != old_seq[i as int].key_id());
                        }
                    }
                }
            },
            None => {
                proof {
                    assert(self.comments_seq().to_set() =~= old_seq.to_set().filter(
                        |x: CommentV| x.key_id() != cv.key_id(),
                    )) by {
                        assert forall|x: CommentV| old_seq.to_set().contains(x) implies x.key_id()
                            != cv.key_id() by {
                            let k = choose|k: int| 0 <= k < old_seq.len() && old_seq[k] == x;
                        }
                    }
                }
            },
        }
        let ghost mid_seq = self.comments_seq();
        let n = self.comments.len();
        let mut pos: usize = 0;
        while pos < n && comment_lt(&self.comments[pos], comment)
            invariant
                pos <= n,
                n == self.comments@.len(),
                mid_seq == self.comments_seq(),
                cv == comment@,
                forall|k: int| 0 <= k < pos ==> rec_lt(#[trigger] mid_seq[k], cv),
            decreases n - pos,
        {
            pos = pos + 1;
        }
        proof {
            if pos < mid_seq.len() {
                lemma_insertion_point(mid_seq, pos as int, cv);
            }
            lemma_insert_sorted(mid_seq, pos as int, cv);
        }
        self.comments.insert(pos, comment.clone());
        proof {
            assert(self.comments_seq() =~= mid_seq.insert(pos as int, cv));
            assert(self.comments_set() =~= upsert_set(old(self).comments_set(), cv));
        }
        Ok(())
    }

    fn find_chat(&self, id: &str) -> (r: Option<usize>)
        ensures
            match r {
                Some(i) => i < self.chat_seq().len() && self.chat_seq()[i as int].id == id@,
                None => forall|k: int|
                    0 <= k < self.chat_seq().len() ==> (#[trigger] self.chat_seq()[k]).id != id@,
            },
    {
        let n = self.chat.len();
        let mut i: usize = 0;
        while i < n
            invariant
                i <= n,
                n == self.chat@.len(),
                forall|k: int| 0 <= k < i ==> (#[trigger] self.chat_seq()[k]).id != id@,
            decreases n - i,
        {
            if str_eq(self.chat[i].id.as_str(), id) {
                return Some(i);
            }
            i = i + 1;
        }
        None
    }

    /// Idempotent upsert of a chat line, keyed by `chat.id`; the mirror
    /// of [`Storage::save_comment`].
    pub fn save_chat(&mut self, chat: &ChatLine) -> (r: Result<(), StoreError>)
        requires
            old(self).wf(),
        ensures
            r is Ok,
            final(self).wf(),
            final(self).chat_set() == upsert_set(old(self).chat_set(), chat@),
            final(self).comments_seq() == old(self).comments_seq(),
            final(self).sessions_seq() == old(self).sessions_seq(),
            final(self).queue_log() == old(self).queue_log(),
            final(self).queue_next() == old(self).queue_next(),
    {
        let ghost old_seq = self.chat_seq();
        let ghost cv = chat@;
        match self.find_chat(chat.id.as_str()) {
            Some(i) => {
                proof {
                    lemma_remove_keeps_order(old_seq, i as int);
                }
                self.chat.remove(i);
                proof {
                    assert(self.chat_seq() =~= old_seq.remove(i as int));
                    assert(self.chat_seq().to_set() =~= old_seq.to_set().filter(
                        |x: ChatLineV| x.key_id() != cv.key_id(),
                    )) by {
                        let removed = old_seq[i as int];
                        assert forall|x: ChatLineV|
                            old_seq.to_set().remove(removed).contains(x) implies old_seq.to_set()
                            .filter(|x: ChatLineV| x.key_id() != cv.key_id()).contains(x) by {
                            let k = choose|k: int| 0 <= k < old_seq.len() && old_seq[k] == x;
                            if k != i {
                                assert(old_seq[k].key_id() != old_seq[i as int].key_id());
                            }
                        }
                        assert forall|x: ChatLineV|
                            old_seq.to_set().filter(
                                |x: ChatLineV| x.key_id() != cv.key_id(),
                            ).contains(x) implies old_seq.to_set().remove(removed).contains(
                            x,
                        ) by {}
                    }
                    assert forall|k: int|
                        0 <= k < self.chat_seq().len() implies (#[trigger] self.chat_seq()[k]).id
                        != cv.id by {
                        let t = old_seq.remove(i as int);
                        let k0 = if k < i { k } else { k + 1 };
                        assert(t[k] == old_seq[k0]);
                        if k0 != i {
                            assert(old_seq[k0].key_id() != old_seq[i as int].key_id());
                        }
                    }
                }
            },
            None => {
                proof {
                    assert(self.chat_seq().to_set() =~= old_seq.to_set().filter(
                        |x: ChatLineV| x.key_id() != cv.key_id(),
                    )) by {
                        assert forall|x: ChatLineV| old_seq.to_set().contains(x) implies x.key_id()
                            != cv.key_id() by {
                            let k = choose|k: int| 0 <= k < old_seq.len() && old_seq[k] == x;
                        }
                    }
                }
            },
        }
        let ghost mid_seq = self.chat_seq();
        let n = self.chat.len();
        let mut pos: usize = 0;
        while pos < n && chat_lt(&self.chat[pos], chat)
            invariant
                pos <= n,
                n == self.chat@.len(),
                mid_seq == self.chat_seq(),
                cv == chat@,
                forall|k: int| 0 <= k < pos ==> rec_lt(#[trigger] mid_seq[k], cv),
            decreases n - pos,
        {
            pos = pos + 1;
        }
        proof {
            if pos < mid_seq.len() {
                lemma_insertion_point(mid_seq, pos as int, cv);
            }
            lemma_insert_sorted(mid_seq, pos as int, cv);
        }
        self.chat.insert(pos, chat.clone());
        proof {
            assert(self.chat_seq() =~= mid_seq.insert(pos as int, cv));
            assert(self.chat_set() =~= upsert_set(old(self).chat_set(), cv));
        }
        Ok(())
    }

    /// The comments of one session, sorted by `(created_at, id)`
    /// ascending regardless of insertion order.  A malformed persisted
    /// record never reaches this listing: the restore path skips it.
    pub fn load_comments(&self, session_id: &str) -> (r: Result<Vec<Comment>, StoreError>)
        requires
            self.wf(),
        ensures
            match r {
                Ok(v) => {
                    &&& v@.map_values(|c: Comment| c@) == comments_in(
                        self.comments_seq(),
                        session_id@,
                    )
                    &&& sorted_strict(v@.map_values(|c: Comment| c@))
                    &&& unique_ids(v@.map_values(|c: Comment| c@))
                },
                Err(_) => false,
            },
    {
        let ghost pred = |c: CommentV| c.session_id == session_id@;
        let mut r: Vec<Comment> = Vec::new();
        let mut i: usize = 0;
        proof {
            reveal_with_fuel(Seq::filter, 2);
            assert(self.comments_seq().take(0) =~= Seq::<CommentV>::empty());
            assert(r@.map_values(|c: Comment| c@) =~= Seq::<CommentV>::empty());
            assert(Seq::<CommentV>::empty().filter(pred) =~= Seq::<CommentV>::empty());
        }
        while i < self.comments.len()
            invariant
                i <= self.comments_seq().len(),
                pred == (|c: CommentV| c.session_id == session_id@),
                self.comments_seq().len() == self.comments@.len(),
                r@.map_values(|c: Comment| c@) == self.comments_seq().take(i as int).filter(pred),
            decreases self.comments_seq().len() - i,
        {
            let ghost prefix = self.comments_seq().take(i as int);
            let c = &self.comments[i];
            proof {
                reveal_with_fuel(Seq::filter, 2);
                let single = seq![c@];
                assert(self.comments_seq().take(i + 1) =~= prefix + single);
                Seq::filter_distributes_over_add(prefix, single, pred);
                assert(single.drop_last() =~= Seq::<CommentV>::empty());
                assert(Seq::<CommentV>::empty().filter(pred) =~= Seq::<CommentV>::empty());
                if pred(c@) {
                    assert(single.filter(pred) =~= single);
                } else {
                    assert(single.filter(pred) =~= Seq::<CommentV>::empty());
                }
            }
            if str_eq(c.session_id.as_str(), session_id) {
                r.push(c.clone());
                proof {
                    assert(r@.map_values(|c: Comment| c@) =~= prefix.filter(pred) + seq![c@]);
                    assert(self.comments_seq().take(i + 1).filter(pred) =~= prefix.filter(pred)
                        + seq![c@]);
                }
            } else {
                proof {
                    assert(self.comments_seq().take(i + 1).filter(pred) =~= prefix.filter(pred));
                }
            }
            i = i + 1;
        }
        proof {
            assert(self.comments_seq().take(self.comments_seq().len() as int)
                =~= self.comments_seq());
            lemma_filter_sorted(self.comments_seq(), pred);
        }
        Ok(r)
    }

    /// The chat lines of one session, sorted by `(created_at, id)`
    /// ascending regardless of insertion order.
    pub fn load_chat(&self, session_id: &str) -> (r: Result<Vec<ChatLine>, StoreError>)
        requires
            self.wf(),
        ensures
            match r {
                Ok(v) => {
                    &&& v@.map_values(|c: ChatLine| c@) == chat_in(self.chat_seq(), session_id@)
                    &&& sorted_strict(v@.map_values(|c: ChatLine| c@))
                    &&& unique_ids(v@.map_values(|c: ChatLine| c@))
                },
                Err(_) => false,
            },
    {
        let ghost pred = |c: ChatLineV| c.session_id == session_id@;
        let mut r: Vec<ChatLine> = Vec::new();
        let mut i: usize = 0;
        proof {
            reveal_with_fuel(Seq::filter, 2);
            assert(self.chat_seq().take(0) =~= Seq::<ChatLineV>::empty());
            assert(r@.map_values(|c: ChatLine| c@) =~= Seq::<ChatLineV>::empty());
            assert(Seq::<ChatLineV>::empty().filter(pred) =~= Seq::<ChatLineV>::empty());
        }
        while i < self.chat.len()
            invariant
                i <= self.chat_seq().len(),
                pred == (|c: ChatLineV| c.session_id == session_id@),
                self.chat_seq().len() == self.chat@.len(),
                r@.map_values(|c: ChatLine| c@) == self.chat_seq().take(i as int).filter(pred),
            decreases self.chat_seq().len() - i,
        {
            let ghost prefix = self.chat_seq().take(i as int);
            let c = &self.chat[i];
            proof {
                reveal_with_fuel(Seq::filter, 2);
                let single = seq![c@];
                assert(self.chat_seq().take(i + 1) =~= prefix + single);
                Seq::filter_distributes_over_add(prefix, single, pred);
                assert(single.drop_last() =~= Seq::<ChatLineV>::empty());
                assert(Seq::<ChatLineV>::empty().filter(pred) =~= Seq::<ChatLineV>::empty());
                if pred(c@) {
                    assert(single.filter(pred) =~= single);
                } else {
                    assert(single.filter(pred) =~= Seq::<ChatLineV>::empty());
                }
            }
            if str_eq(c.session_id.as_str(), session_id) {
                r.push(c.clone());
                proof {
                    assert(r@.map_values(|c: ChatLine| c@) =~= prefix.filter(pred) + seq![c@]);
                    assert(self.chat_seq().take(i + 1).filter(pred) =~= prefix.filter(pred)
                        + seq![c@]);
                }
            } else {
                proof {
                    assert(self.chat_seq().take(i + 1).filter(pred) =~= prefix.filter(pred));
                }
            }
            i = i + 1;
        }
        proof {
            assert(self.chat_seq().take(self.chat_seq().len() as int) =~= self.chat_seq());
            lemma_filter_sorted(self.chat_seq(), pred);
        }
        Ok(r)
    }

    fn find_session(&self, id: &str) -> (r: Option<usize>)
        ensures
            match r {
                Some(i) => i < self.sessions_seq().len() && self.sessions_seq()[i as int].id
                    == id@,
                None => forall|k: int|
                    0 <= k < self.sessions_seq().len() ==> (#[trigger] self.sessions_seq()[k]).id
                        != id@,
            },
    {
        let n = self.sessions.len();
        let mut i: usize = 0;
        while i < n
            invariant
                i <= n,
                n == self.sessions@.len(),
                forall|k: int| 0 <= k < i ==> (#[trigger] self.sessions_seq()[k]).id != id@,
            decreases n - i,
        {
            if str_eq(self.sessions[i].id.as_str(), id) {
                return Some(i);
            }
            i = i + 1;
        }
        None
    }

    /// Idempotent upsert of a session, keyed by `session.id`.
    pub fn save_session(&mut self, session: &ReviewSession) -> (r: Result<(), StoreError>)
        requires
            old(self).wf(),
        ensures
            r is Ok,
            final(self).wf(),
            final(self).sessions_set() == upsert_set(old(self).sessions_set(), session@),
            final(self).comments_seq() == old(self).comments_seq(),
            final(self).chat_seq() == old(self).chat_seq(),
            final(self).queue_log() == old(self).queue_log(),
            final(self).queue_next() == old(self).queue_next(),
    {
        let ghost old_seq = self.sessions_seq();
        let ghost sv = session@;
        match self.find_session(session.id.as_str()) {
            Some(i) => {
                proof {
                    lemma_remove_unique(old_seq, i as int);
                }
                self.sessions.remove(i);
                proof {
                    assert(self.sessions_seq() =~= old_seq.remove(i as int));
                    assert(self.sessions_seq().to_set() =~= old_seq.to_set().filter(
                        |x: ReviewSessionV| x.key_id() != sv.key_id(),
                    )) by {
                        let removed = old_seq[i as int];
                        assert forall|x: ReviewSessionV|
                            old_seq.to_set().remove(removed).contains(x) implies old_seq.to_set()
                            .filter(|x: ReviewSessionV| x.key_id() != sv.key_id()).contains(x) by {
                            let k = choose|k: int| 0 <= k < old_seq.len() && old_seq[k] == x;
                            if k != i {
                                assert(old_seq[k].key_id() != old_seq[i as int].key_id());
                            }
                        }
                        assert forall|x: ReviewSessionV|
                            old_seq.to_set().filter(
                                |x: ReviewSessionV| x.key_id() != sv.key_id(),
                            ).contains(x) implies old_seq.to_set().remove(removed).contains(
                            x,
                        ) by {}
                    }
                    assert forall|k: int|
                        0 <= k < self.sessions_seq().len() implies (
                    #[trigger] self.sessions_seq()[k]).id != sv.id by {
                        let t = old_seq.remove(i as int);
                        let k0 = if k < i { k } else { k + 1 };
                        assert(t[k] == old_seq[k0]);
                        if k0 != i {
                            assert(old_seq[k0].key_id() != old_seq[i as int].key_id());
                        }
                    }
                }
            },
            None => {
                proof {
                    assert(self.sessions_seq().to_set() =~= old_seq.to_set().filter(
                        |x: ReviewSessionV| x.key_id() != sv.key_id(),
                    )) by {
                        assert forall|x: ReviewSessionV|
                            old_seq.to_set().contains(x) implies x.key_id() != sv.key_id() by {
                            let k = choose|k: int| 0 <= k < old_seq.len() && old_seq[k] == x;
                        }
                    }
                }
            },
        }
        let ghost mid_seq = self.sessions_seq();
        proof {
            lemma_push_unique(mid_seq, sv);
        }
        self.sessions.push(session.clone());
        proof {
            assert(self.sessions_seq() =~= mid_seq.push(sv));
            assert(self.sessions_set() =~= upsert_set(old(self).sessions_set(), sv));
        }
        Ok(())
    }

    /// The session with the given id, if one is stored.
    pub fn get_session(&self, id: &str) -> (r: Result<Option<ReviewSession>, StoreError>)
        requires
            self.wf(),
        ensures
            match r {
                Ok(Some(s)) => self.sessions_set().contains(s@) && s@.id == id@,
                Ok(None) => forall|x: ReviewSessionV|
                    self.sessions_set().contains(x) ==> x.id != id@,
                Err(_) => false,
            },
    {
        match self.find_session(id) {
            Some(i) => {
                let s = self.sessions[i].clone();
                proof {
                    assert(self.sessions_seq().contains(s@));
                }
                Ok(Some(s))
            },
            None => {
                proof {
                    assert forall|x: ReviewSessionV|
                        self.sessions_set().contains(x) implies x.id != id@ by {
                        let k = choose|k: int|
                            0 <= k < self.sessions_seq().len() && self.sessions_seq()[k] == x;
                    }
                }
                Ok(None)
            },
        }
    }

    /// Replay one persisted comment record into the store.  A record
    /// that does not decode is a single bad record: reported as
    /// malformed, stored nowhere, fatal to nothing.
    pub fn restore_comment(&mut self, record: &[u8]) -> (r: Result<(), StoreError>)
        requires
            old(self).wf(),
        ensures
            final(self).wf(),
            match r {
                Ok(()) => crate::codec::dec_comment(record@) is Some && final(self).comments_set()
                    == upsert_set(
                    old(self).comments_set(),
                    crate::codec::dec_comment(record@).unwrap(),
                ),
                Err(e) => e == StoreError::Malformed && crate::codec::dec_comment(record@) is None
                    && final(self).comments_set() == old(self).comments_set(),
            },
            final(self).chat_seq() == old(self).chat_seq(),
            final(self).sessions_seq() == old(self).sessions_seq(),
            final(self).queue_log() == old(self).queue_log(),
            final(self).queue_next() == old(self).queue_next(),
    {
        match crate::codec::decode_comment(record) {
            Some(c) => {
                let res = self.save_comment(&c);
                Ok(())
            },
            None => Err(StoreError::Malformed),
        }
    }

    /// Replay one persisted chat record into the store; the mirror of
    /// [`Storage::restore_comment`].
    pub fn restore_chat(&mut self, record: &[u8]) -> (r: Result<(), StoreError>)
        requires
            old(self).wf(),
        ensures
            final(self).wf(),
            match r {
                Ok(()) => crate::codec::dec_chat(record@) is Some && final(self).chat_set()
                    == upsert_set(
                    old(self).chat_set(),
                    crate::codec::dec_chat(record@).unwrap(),
                ),
                Err(e) => e == StoreError::Malformed && crate::codec::dec_chat(record@) is None
                    && final(self).chat_set() == old(self).chat_set(),
            },
            final(self).comments_seq() == old(self).comments_seq(),
            final(self).sessions_seq() == old(self).sessions_seq(),
            final(self).queue_log() == old(self).queue_log(),
            final(self).queue_next() == old(self).queue_next(),
    {
        match crate::codec::decode_chat(record) {
            Some(c) => {
                let res = self.save_chat(&c);
                Ok(())
            },
            None => Err(StoreError::Malformed),
        }
    }

    /// Whether the offline queue can take another event.
    pub fn can_enqueue(&self) -> (r: bool)
        ensures
            r == (self.queue_next() < u64::MAX),
    {
        self.queue.has_capacity()
    }

    /// Append one outbound event to the offline queue's log.
    pub fn queue_offline(&mut self, topic: &str, payload: &[u8], now: i64) -> (r: Result<
        u64,
        QueueError,
    >)
        requires
            old(self).wf(),
            old(self).queue_next() < u64::MAX,
        ensures
            final(self).wf(),
            r == Ok::<u64, QueueError>(old(self).queue_next()),
            final(self).queue_next() == old(self).queue_next() + 1,
            final(self).queue_log() == old(self).queue_log().push(
                QueuedEventV {
                    sequence: old(self).queue_next(),
                    topic: topic@,
                    payload: payload@,
                    enqueued_at: now as int,
                    acknowledged: false,
                },
            ),
            final(self).comments_seq() == old(self).comments_seq(),
            final(self).chat_seq() == old(self).chat_seq(),
            final(self).sessions_seq() == old(self).sessions_seq(),
    {
        self.queue.enqueue(topic, payload, now)
    }

    /// The queued events not yet acknowledged, in sequence order: what a
    /// replay republishes.
    pub fn replay_queue(&self) -> (r: Vec<QueuedEvent>)
        requires
            self.wf(),
        ensures
            r@.map_values(|e: QueuedEvent| e@) == pending_of(self.queue_log()),
    {
        self.queue.pending()
    }

    /// Mark one queued event acknowledged; already-acknowledged and
    /// unknown sequences are a no-op.
    pub fn acknowledge(&mut self, sequence: u64) -> (r: Result<(), QueueError>)
        requires
            old(self).wf(),
        ensures
            r is Ok,
            final(self).wf(),
            final(self).queue_log() == ack_of(old(self).queue_log(), sequence),
            final(self).queue_next() == old(self).queue_next(),
            final(self).comments_seq() == old(self).comments_seq(),
            final(self).chat_seq() == old(self).chat_seq(),
            final(self).sessions_seq() == old(self).sessions_seq(),
    {
        self.queue.acknowledge(sequence)
    }

    /// Replace the queue's log with persisted rows, as after a process
    /// restart; rows that do not form a log are rejected and change
    /// nothing.
    pub fn restore_queue(&mut self, rows: Vec<QueuedEvent>) -> (r: bool)
        requires
            old(self).wf(),
        ensures
            final(self).wf(),
            final(self).comments_seq() == old(self).comments_seq(),
            final(self).chat_seq() == old(self).chat_seq(),
            final(self).sessions_seq() == old(self).sessions_seq(),
            r ==> final(self).queue_log() == rows@.map_values(|e: QueuedEvent| e@),
            !r ==> final(self).queue_log() == old(self).queue_log() && final(self).queue_next()
                == old(self).queue_next(),
            r == ({
                let v = rows@.map_values(|e: QueuedEvent| e@);
                seq_strictly_increasing(v) && (v.len() == 0 || v.last().sequence < u64::MAX)
            }),
    {
        match OfflineQueue::restore(rows) {
            Some(q) => {
                self.queue = q;
                true
            },
            None => false,
        }
    }
}

} // verus!
