//! The offline queue: a durable, append-only log of outbound events that
//! could not yet be confirmed as disseminated.
//!
//! Sequence numbers are assigned at enqueue time and are strictly
//! increasing for the local peer.  Acknowledging a sequence is idempotent:
//! acknowledging an already-acknowledged or unknown sequence is a no-op,
//! because dissemination confirmation may race with crash-restart replay.
//! The log itself is persisted outside this crate; [`OfflineQueue::restore`]
//! rebuilds the queue from persisted rows, so an event enqueued but not
//! acknowledged before a crash is offered again by [`OfflineQueue::pending`].

use vstd::prelude::*;
use vstd::slice::slice_to_vec;
use crate::model::QueueError;

verus! {

/// Mathematical view of a [`QueuedEvent`].
pub ghost struct QueuedEventV {
    pub sequence: u64,
    pub topic: Seq<char>,
    pub payload: Seq<u8>,
    pub enqueued_at: int,
    pub acknowledged: bool,
}

/// A durable envelope for one outbound event.
#[derive(Debug)]
pub struct QueuedEvent {
    pub sequence: u64,
    pub topic: String,
    pub payload: Vec<u8>,
    pub enqueued_at: i64,
    pub acknowledged: bool,
}

impl View for QueuedEvent {
    type V = QueuedEventV;

    open spec fn view(&self) -> QueuedEventV {
        QueuedEventV {
            sequence: self.sequence,
            topic: self.topic@,
            payload: self.payload@,
            enqueued_at: self.enqueued_at as int,
            acknowledged: self.acknowledged,
        }
    }
}

impl Clone for QueuedEvent {
    fn clone(&self) -> (res: Self)
        ensures
            res@ == self@,
    {
        QueuedEvent {
            sequence: self.sequence,
            topic: self.topic.clone(),
            payload: slice_to_vec(self.payload.as_slice()),
            enqueued_at: self.enqueued_at,
            acknowledged: self.acknowledged,
        }
    }
}

/// Sequences strictly increase along the log.
pub open spec fn seq_strictly_increasing(s: Seq<QueuedEventV>) -> bool {
    forall|i: int, j: int| 0 <= i < j < s.len() ==> s[i].sequence < s[j].sequence
}

/// The events of `s` not yet acknowledged, in log order.
pub open spec fn pending_of(s: Seq<QueuedEventV>) -> Seq<QueuedEventV> {
    s.filter(|e: QueuedEventV| !e.acknowledged)
}

/// `s` with the event numbered `sequence` marked acknowledged; the log is
/// otherwise unchanged, and unchanged entirely when no event carries that
/// number.
pub open spec fn ack_of(s: Seq<QueuedEventV>, sequence: u64) -> Seq<QueuedEventV> {
    s.map_values(
        |e: QueuedEventV| if e.sequence == sequence {
            QueuedEventV { acknowledged: true, ..e }
        } else {
            e
        },
    )
}

/// Acknowledging a sequence twice is the same as acknowledging it once.
pub proof fn lemma_acknowledge_idempotent(s: Seq<QueuedEventV>, sequence: u64)
    ensures
        ack_of(ack_of(s, sequence), sequence) == ack_of(s, sequence),
{
    assert(ack_of(ack_of(s, sequence), sequence) =~= ack_of(s, sequence));
}

/// Every unacknowledged event of the log is offered by `pending`.
pub proof fn lemma_pending_complete(s: Seq<QueuedEventV>, i: int)
    requires
        0 <= i < s.len(),
        !s[i].acknowledged,
    ensures
        pending_of(s).contains(s[i]),
{
    broadcast use vstd::seq_lib::group_filter_ensures;

}

/// The durable, ordered log of outbound events.
pub struct OfflineQueue {
    events: Vec<QueuedEvent>,
    next_seq: u64,
}

impl OfflineQueue {
    /// The log, as the contracts see it.
    pub closed spec fn log(&self) -> Seq<QueuedEventV> {
        self.events@.map_values(|e: QueuedEvent| e@)
    }

    /// The sequence number the next enqueued event will carry.
    pub closed spec fn next(&self) -> u64 {
        self.next_seq
    }

    /// Sequences strictly increase and stay below the next one to assign.
    pub closed spec fn wf(&self) -> bool {
        &&& seq_strictly_increasing(self.log())
        &&& forall|i: int| 0 <= i < self.log().len() ==> self.log()[i].sequence < self.next_seq
    }

    /// The empty queue.
    pub fn new() -> (r: OfflineQueue)
        ensures
            r.wf(),
            r.log() == Seq::<QueuedEventV>::empty(),
            r.next() == 0,
    {
        let r = OfflineQueue { events: Vec::new(), next_seq: 0 };
        proof {
            assert(r.log() =~= Seq::<QueuedEventV>::empty());
        }
        r
    }

    /// Whether another sequence number can still be assigned.
    pub fn has_capacity(&self) -> (r: bool)
        ensures
            r == (self.next() < u64::MAX),
    {
        self.next_seq < u64::MAX
    }

    /// Rebuild the queue from persisted rows, in log order.  Rows whose
    /// sequences do not strictly increase, or that leave no room for a next
    /// sequence number, are a corrupt log: `None`.
    pub fn restore(rows: Vec<QueuedEvent>) -> (r: Option<OfflineQueue>)
        ensures
            ({
                let v = rows@.map_values(|e: QueuedEvent| e@);
                match r {
                    Some(q) => q.wf() && q.log() == v && seq_strictly_increasing(v) && (v.len()
                        == 0 || v.last().sequence < u64::MAX),
                    None => !(seq_strictly_increasing(v) && (v.len() == 0 || v.last().sequence
                        < u64::MAX)),
                }
            }),
    {
        let ghost rows_v = rows@.map_values(|e: QueuedEvent| e@);
        let n = rows.len();
        if n == 0 {
            let q = OfflineQueue { events: rows, next_seq: 0 };
            proof {
                assert(q.log() =~= rows_v);
            }
            return Some(q);
        }
        let mut i: usize = 1;
        while i < n
            invariant
                1 <= i <= n,
                n == rows@.len(),
                rows_v == rows@.map_values(|e: QueuedEvent| e@),
                forall|a: int, b: int| 0 <= a < b < i ==> rows_v[a].sequence < rows_v[b].sequence,
            decreases n - i,
        {
            if rows[i - 1].sequence >= rows[i].sequence {
                proof {
                    assert(rows_v[i - 1].sequence >= rows_v[i as int].sequence);
                }
                return None;
            }
            proof {
                assert forall|a: int, b: int| 0 <= a < b < i + 1 implies rows_v[a].sequence
                    < rows_v[b].sequence by {
                    if b == i {
                        if a < i - 1 {
                            assert(rows_v[a].sequence < rows_v[i - 1].sequence);
                        }
                    }
                }
            }
            i = i + 1;
        }
        let last_seq = rows[n - 1].sequence;
        if last_seq == u64::MAX {
            proof {
                assert(rows_v.last().sequence == u64::MAX);
            }
            return None;
        }
        let q = OfflineQueue { events: rows, next_seq: last_seq + 1 };
        proof {
            assert(q.log() =~= rows_v);
            assert forall|k: int| 0 <= k < q.log().len() implies q.log()[k].sequence
                < q.next_seq by {
                if k < q.log().len() - 1 {
                    assert(rows_v[k].sequence < rows_v[rows_v.len() - 1].sequence);
                }
            }
        }
        Some(q)
    }

    /// Append one outbound event; the assigned sequence is returned and is
    /// strictly greater than every sequence already in the log.
    pub fn enqueue(&mut self, topic: &str, payload: &[u8], now: i64) -> (r: Result<u64, QueueError>)
        requires
            old(self).wf(),
            old(self).next() < u64::MAX,
        ensures
            final(self).wf(),
            r == Ok::<u64, QueueError>(old(self).next()),
            final(self).next() == old(self).next() + 1,
            final(self).log() == old(self).log().push(
                QueuedEventV {
                    sequence: old(self).next(),
                    topic: topic@,
                    payload: payload@,
                    enqueued_at: now as int,
                    acknowledged: false,
                },
            ),
    {
        let sequence = self.next_seq;
        let ev = QueuedEvent {
            sequence,
            topic: topic.to_owned(),
            payload: slice_to_vec(payload),
            enqueued_at: now,
            acknowledged: false,
        };
        self.events.push(ev);
        self.next_seq = sequence + 1;
        proof {
            let newv = QueuedEventV {
                sequence,
                topic: topic@,
                payload: payload@,
                enqueued_at: now as int,
                acknowledged: false,
            };
            assert(self.log() =~= old(self).log().push(newv));
            assert forall|a: int, b: int|
                0 <= a < b < self.log().len() implies self.log()[a].sequence
                < self.log()[b].sequence by {
                if b < old(self).log().len() {
                    assert(old(self).log()[a].sequence < old(self).log()[b].sequence);
                } else if a < old(self).log().len() {
                    assert(old(self).log()[a].sequence < old(self).next_seq);
                }
            }
            assert forall|k: int| 0 <= k < self.log().len() implies self.log()[k].sequence
                < self.next_seq by {
                if k < old(self).log().len() {
                    assert(old(self).log()[k].sequence < old(self).next_seq);
                }
            }
        }
        Ok(sequence)
    }

    /// The events not yet acknowledged, in log order.
    pub fn pending(&self) -> (r: Vec<QueuedEvent>)
        requires
            self.wf(),
        ensures
            r@.map_values(|e: QueuedEvent| e@) == pending_of(self.log()),
    {
        let ghost pred = |e: QueuedEventV| !e.acknowledged;
        let mut r: Vec<QueuedEvent> = Vec::new();
        let mut i: usize = 0;
        proof {
            reveal_with_fuel(Seq::filter, 2);
            assert(self.log().take(0) =~= Seq::<QueuedEventV>::empty());
            assert(r@.map_values(|e: QueuedEvent| e@) =~= Seq::<QueuedEventV>::empty());
            assert(Seq::<QueuedEventV>::empty().filter(pred) =~= Seq::<QueuedEventV>::empty());
        }
        while i < self.events.len()
            invariant
                i <= self.log().len(),
                pred == (|e: QueuedEventV| !e.acknowledged),
                self.log().len() == self.events@.len(),
                r@.map_values(|e: QueuedEvent| e@) == self.log().take(i as int).filter(pred),
            decreases self.log().len() - i,
        {
            let ghost prefix = self.log().take(i as int);
            let e = &self.events[i];
            proof {
                reveal_with_fuel(Seq::filter, 2);
                let single = seq![e@];
                assert(self.log().take(i + 1) =~= prefix + single);
                Seq::filter_distributes_over_add(prefix, single, pred);
                assert(single.drop_last() =~= Seq::<QueuedEventV>::empty());
                assert(Seq::<QueuedEventV>::empty().filter(pred) =~= Seq::<QueuedEventV>::empty());
                if pred(e@) {
                    assert(single.filter(pred) =~= single);
                } else {
                    assert(single.filter(pred) =~= Seq::<QueuedEventV>::empty());
                }
            }
            if !e.acknowledged {
                r.push(e.clone());
                proof {
                    assert(r@.map_values(|e: QueuedEvent| e@) =~= prefix.filter(pred) + seq![e@]);
                    assert(self.log().take(i + 1).filter(pred) =~= prefix.filter(pred) + seq![e@]);
                }
            } else {
                proof {
                    assert(self.log().take(i + 1).filter(pred) =~= prefix.filter(pred));
                }
            }
            i = i + 1;
        }
        proof {
            assert(self.log().take(self.log().len() as int) =~= self.log());
        }
        r
    }

    /// Mark the event with the given sequence acknowledged.  A sequence
    /// already acknowledged, or never assigned, leaves the log unchanged:
    /// a no-op, not an error.
    pub fn acknowledge(&mut self, sequence: u64) -> (r: Result<(), QueueError>)
        requires
            old(self).wf(),
        ensures
            final(self).wf(),
            r is Ok,
            final(self).next() == old(self).next(),
            final(self).log() == ack_of(old(self).log(), sequence),
    {
        let n = self.events.len();
        let mut i: usize = 0;
        while i < n
            invariant
                i <= n,
                n == self.events@.len(),
                old(self).wf(),
                *self == *old(self),
                forall|k: int| 0 <= k < i ==> self.log()[k].sequence != sequence,
            decreases n - i,
        {
            if self.events[i].sequence == sequence {
                let mut ev = self.events.remove(i);
                ev.acknowledged = true;
                let ghost mid = self.events@;
                self.events.insert(i, ev);
                proof {
                    assert forall|k: int|
                        0 <= k < old(self).log().len() && k != i implies old(
                        self,
                    ).log()[k].sequence != sequence by {
                        if k < i {
                        } else {
                            assert(old(self).log()[i as int].sequence < old(
                                self,
                            ).log()[k].sequence);
                        }
                    }
                    assert(self.log() =~= ack_of(old(self).log(), sequence));
                    assert forall|a: int, b: int|
                        0 <= a < b < self.log().len() implies self.log()[a].sequence
                        < self.log()[b].sequence by {
                        assert(old(self).log()[a].sequence < old(self).log()[b].sequence);
                    }
                    assert forall|k: int| 0 <= k < self.log().len() implies self.log()[k].sequence
                        < self.next_seq by {
                        assert(old(self).log()[k].sequence < old(self).next_seq);
                    }
                }
                return Ok(());
            }
            i = i + 1;
        }
        proof {
            assert(ack_of(old(self).log(), sequence) =~= old(self).log());
        }
        Ok(())
    }
}

} // verus!
