//! Keyed records: the order, uniqueness and replay theory shared by the
//! stored entities.
//!
//! A record is keyed by `(created_at, id)`; ids are globally unique.  The
//! store keeps each record set sorted strictly by that key, which makes a
//! listing a canonical form: two stores holding the same record set list
//! it identically.  Replaying a set of records in any order, with any
//! duplication, therefore converges: the results are equal as sets, and so
//! as listings.

use vstd::prelude::*;
use crate::model::{ChatLineV, CommentV, ReviewSessionV};
use crate::order::{lemma_seq_char_lt_connex, lemma_seq_char_lt_irrefl, lemma_seq_char_lt_trans,
    seq_char_lt};

verus! {

/// A record with a creation time and a unique identifier.
pub trait Keyed {
    /// The creation timestamp, in unix seconds.
    spec fn key_time(&self) -> int;

    /// The unique identifier.
    spec fn key_id(&self) -> Seq<char>;
}

impl Keyed for CommentV {
    open spec fn key_time(&self) -> int {
        self.created_at
    }

    open spec fn key_id(&self) -> Seq<char> {
        self.id
    }
}

impl Keyed for ChatLineV {
    open spec fn key_time(&self) -> int {
        self.created_at
    }

    open spec fn key_id(&self) -> Seq<char> {
        self.id
    }
}

impl Keyed for ReviewSessionV {
    open spec fn key_time(&self) -> int {
        self.created_at
    }

    open spec fn key_id(&self) -> Seq<char> {
        self.id
    }
}

/// The listing order: `created_at` ascending, ties broken by `id` lexical
/// order.
pub open spec fn rec_lt<T: Keyed>(a: T, b: T) -> bool {
    a.key_time() < b.key_time() || (a.key_time() == b.key_time() && seq_char_lt(
        a.key_id(),
        b.key_id(),
    ))
}

/// The order is total on distinct keys, and no two records are mutually
/// ordered.
pub proof fn lemma_rec_lt_props<T: Keyed>(a: T, b: T)
    ensures
        rec_lt(a, b) || rec_lt(b, a) || (a.key_time() == b.key_time() && a.key_id() == b.key_id()),
        !(rec_lt(a, b) && rec_lt(b, a)),
{
    lemma_seq_char_lt_connex(a.key_id(), b.key_id());
    if rec_lt(a, b) && rec_lt(b, a) {
        lemma_seq_char_lt_trans(a.key_id(), b.key_id(), a.key_id());
        lemma_seq_char_lt_irrefl(a.key_id());
    }
}

/// The order is transitive.
pub proof fn lemma_rec_lt_trans<T: Keyed>(a: T, b: T, c: T)
    requires
        rec_lt(a, b),
        rec_lt(b, c),
    ensures
        rec_lt(a, c),
{
    if a.key_time() == b.key_time() && b.key_time() == c.key_time() {
        lemma_seq_char_lt_trans(a.key_id(), b.key_id(), c.key_id());
    }
}

/// The records stand in strictly ascending listing order.
pub open spec fn sorted_strict<T: Keyed>(s: Seq<T>) -> bool {
    forall|i: int, j: int| 0 <= i < j < s.len() ==> rec_lt(#[trigger] s[i], #[trigger] s[j])
}

/// No identifier occurs twice.
pub open spec fn unique_ids<T: Keyed>(s: Seq<T>) -> bool {
    forall|i: int, j: int|
        0 <= i < j < s.len() ==> (#[trigger] s[i]).key_id() != (#[trigger] s[j]).key_id()
}

/// A record below another in the order is a different record.
pub proof fn lemma_rec_lt_neq<T: Keyed>(a: T, b: T)
    requires
        rec_lt(a, b),
    ensures
        a != b,
{
    lemma_rec_lt_props(a, b);
    if a == b {
        lemma_seq_char_lt_irrefl(a.key_id());
    }
}

/// A strictly sorted listing is a canonical form: two of them holding the
/// same record set are equal.
pub proof fn lemma_sorted_unique_same_set<T: Keyed>(s1: Seq<T>, s2: Seq<T>)
    requires
        sorted_strict(s1),
        sorted_strict(s2),
        s1.to_set() == s2.to_set(),
    ensures
        s1 == s2,
    decreases s1.len(),
{
    if s1.len() == 0 {
        if s2.len() > 0 {
            assert(s2.contains(s2[0]));
            assert(s1.to_set().contains(s2[0]));
            assert(false);
        }
        assert(s1 =~= s2);
    } else {
        if s2.len() == 0 {
            assert(s1.contains(s1[0]));
            assert(s2.to_set().contains(s1[0]));
            assert(false);
        }
        let x1 = s1.last();
        let x2 = s2.last();
        assert(s1.contains(x1));
        assert(s2.to_set().contains(x1));
        let k = choose|k: int| 0 <= k < s2.len() && s2[k] == x1;
        assert(s2.contains(x2));
        assert(s1.to_set().contains(x2));
        let m = choose|m: int| 0 <= m < s1.len() && s1[m] == x2;
        if k < s2.len() - 1 {
            assert(rec_lt(s2[k], s2[s2.len() - 1]));
            if m < s1.len() - 1 {
                assert(rec_lt(s1[m], s1[s1.len() - 1]));
                lemma_rec_lt_props(x1, x2);
                assert(false);
            } else {
                lemma_rec_lt_props(x1, x1);
                assert(false);
            }
        }
        assert(x1 == x2);
        let t1 = s1.drop_last();
        let t2 = s2.drop_last();
        assert forall|i: int, j: int| 0 <= i < j < t1.len() implies rec_lt(
            #[trigger] t1[i],
            #[trigger] t1[j],
        ) by {
            assert(rec_lt(s1[i], s1[j]));
        }
        assert forall|i: int, j: int| 0 <= i < j < t2.len() implies rec_lt(
            #[trigger] t2[i],
            #[trigger] t2[j],
        ) by {
            assert(rec_lt(s2[i], s2[j]));
        }
        assert(t1.to_set() =~= s1.to_set().remove(x1)) by {
            assert forall|x: T| t1.to_set().contains(x) implies s1.to_set().remove(x1).contains(
                x,
            ) by {
                let i = choose|i: int| 0 <= i < t1.len() && t1[i] == x;
                assert(s1[i] == x);
                assert(s1.contains(x));
                assert(rec_lt(s1[i], s1[s1.len() - 1]));
                lemma_rec_lt_neq(s1[i], x1);
            }
            assert forall|x: T| s1.to_set().remove(x1).contains(x) implies t1.to_set().contains(
                x,
            ) by {
                let i = choose|i: int| 0 <= i < s1.len() && s1[i] == x;
                if i == s1.len() - 1 {
                    assert(false);
                } else {
                    assert(t1[i] == x);
                    assert(t1.contains(x));
                }
            }
        }
        assert(t2.to_set() =~= s2.to_set().remove(x2)) by {
            assert forall|x: T| t2.to_set().contains(x) implies s2.to_set().remove(x2).contains(
                x,
            ) by {
                let i = choose|i: int| 0 <= i < t2.len() && t2[i] == x;
                assert(s2[i] == x);
                assert(s2.contains(x));
                assert(rec_lt(s2[i], s2[s2.len() - 1]));
                lemma_rec_lt_neq(s2[i], x2);
            }
            assert forall|x: T| s2.to_set().remove(x2).contains(x) implies t2.to_set().contains(
                x,
            ) by {
                let i = choose|i: int| 0 <= i < s2.len() && s2[i] == x;
                if i == s2.len() - 1 {
                    assert(false);
                } else {
                    assert(t2[i] == x);
                    assert(t2.contains(x));
                }
            }
        }
        lemma_sorted_unique_same_set(t1, t2);
        assert(s1 =~= t1.push(x1));
        assert(s2 =~= t2.push(x2));
    }
}

/// Removing one record from a strictly sorted listing keeps it strictly
/// sorted and unique, and its record set loses exactly that record.
pub proof fn lemma_remove_keeps_order<T: Keyed>(s: Seq<T>, idx: int)
    requires
        sorted_strict(s),
        unique_ids(s),
        0 <= idx < s.len(),
    ensures
        sorted_strict(s.remove(idx)),
        unique_ids(s.remove(idx)),
        s.remove(idx).to_set() == s.to_set().remove(s[idx]),
{
    let t = s.remove(idx);
    assert forall|i: int, j: int| 0 <= i < j < t.len() implies rec_lt(
        #[trigger] t[i],
        #[trigger] t[j],
    ) && t[i].key_id() != t[j].key_id() by {
        let i0 = if i < idx { i } else { i + 1 };
        let j0 = if j < idx { j } else { j + 1 };
        assert(t[i] == s[i0] && t[j] == s[j0]);
        assert(rec_lt(s[i0], s[j0]));
        assert(s[i0].key_id() != s[j0].key_id());
    }
    assert(t.to_set() =~= s.to_set().remove(s[idx])) by {
        assert forall|x: T| t.to_set().contains(x) implies s.to_set().remove(s[idx]).contains(
            x,
        ) by {
            let i = choose|i: int| 0 <= i < t.len() && t[i] == x;
            let i0 = if i < idx { i } else { i + 1 };
            assert(s[i0] == x);
            assert(s.contains(x));
            if i0 < idx {
                lemma_rec_lt_neq(s[i0], s[idx]);
            } else if i0 > idx {
                lemma_rec_lt_neq(s[idx], s[i0]);
            }
        }
        assert forall|x: T| s.to_set().remove(s[idx]).contains(x) implies t.to_set().contains(
            x,
        ) by {
            let i0 = choose|i0: int| 0 <= i0 < s.len() && s[i0] == x;
            if i0 < idx {
                assert(t[i0] == x);
                assert(t.contains(x));
            } else if i0 > idx {
                assert(t[i0 - 1] == x);
                assert(t.contains(x));
            }
        }
    }
}

/// Removing one record from an unordered unique listing keeps ids
/// unique, and its record set loses exactly that record.
pub proof fn lemma_remove_unique<T: Keyed>(s: Seq<T>, idx: int)
    requires
        unique_ids(s),
        0 <= idx < s.len(),
    ensures
        unique_ids(s.remove(idx)),
        s.remove(idx).to_set() == s.to_set().remove(s[idx]),
{
    let t = s.remove(idx);
    assert forall|i: int, j: int| 0 <= i < j < t.len() implies (#[trigger] t[i]).key_id() != (
    #[trigger] t[j]).key_id() by {
        let i0 = if i < idx { i } else { i + 1 };
        let j0 = if j < idx { j } else { j + 1 };
        assert(t[i] == s[i0] && t[j] == s[j0]);
        assert(s[i0].key_id() != s[j0].key_id());
    }
    assert(t.to_set() =~= s.to_set().remove(s[idx])) by {
        assert forall|x: T| t.to_set().contains(x) implies s.to_set().remove(s[idx]).contains(
            x,
        ) by {
            let i = choose|i: int| 0 <= i < t.len() && t[i] == x;
            let i0 = if i < idx { i } else { i + 1 };
            assert(s[i0] == x);
            assert(s.contains(x));
            if i0 < idx {
                assert(s[i0].key_id() != s[idx].key_id());
            } else if i0 > idx {
                assert(s[idx].key_id() != s[i0].key_id());
            }
        }
        assert forall|x: T| s.to_set().remove(s[idx]).contains(x) implies t.to_set().contains(
            x,
        ) by {
            let i0 = choose|i0: int| 0 <= i0 < s.len() && s[i0] == x;
            if i0 < idx {
                assert(t[i0] == x);
                assert(t.contains(x));
            } else if i0 > idx {
                assert(t[i0 - 1] == x);
                assert(t.contains(x));
            }
        }
    }
}

/// Appending a record with a fresh id keeps ids unique, and adds exactly
/// that record to the set.
pub proof fn lemma_push_unique<T: Keyed>(s: Seq<T>, c: T)
    requires
        unique_ids(s),
        forall|k: int| 0 <= k < s.len() ==> (#[trigger] s[k]).key_id() != c.key_id(),
    ensures
        unique_ids(s.push(c)),
        s.push(c).to_set() == s.to_set().insert(c),
{
    let t = s.push(c);
    assert forall|i: int, j: int| 0 <= i < j < t.len() implies (#[trigger] t[i]).key_id() != (
    #[trigger] t[j]).key_id() by {
        if j < t.len() - 1 {
            assert(s[i].key_id() != s[j].key_id());
        } else {
            assert(t[i] == s[i]);
        }
    }
    assert(t.to_set() =~= s.to_set().insert(c)) by {
        assert forall|x: T| t.to_set().contains(x) implies s.to_set().insert(c).contains(x) by {
            let i = choose|i: int| 0 <= i < t.len() && t[i] == x;
            if i < t.len() - 1 {
                assert(s[i] == x);
                assert(s.contains(x));
            }
        }
        assert forall|x: T| s.to_set().insert(c).contains(x) implies t.to_set().contains(x) by {
            if x == c {
                assert(t[t.len() - 1] == x);
                assert(t.contains(x));
            } else {
                let i = choose|i: int| 0 <= i < s.len() && s[i] == x;
                assert(t[i] == x);
                assert(t.contains(x));
            }
        }
    }
}

/// Every record from the insertion point on lies strictly above a fresh
/// record that does not lie above the one at the point.
pub proof fn lemma_insertion_point<T: Keyed>(s: Seq<T>, pos: int, c: T)
    requires
        sorted_strict(s),
        0 <= pos < s.len(),
        !rec_lt(s[pos], c),
        forall|k: int| 0 <= k < s.len() ==> (#[trigger] s[k]).key_id() != c.key_id(),
    ensures
        forall|k: int| pos <= k < s.len() ==> rec_lt(c, #[trigger] s[k]),
{
    lemma_rec_lt_props(s[pos], c);
    assert(rec_lt(c, s[pos]));
    assert forall|k: int| pos <= k < s.len() implies rec_lt(c, #[trigger] s[k]) by {
        if k > pos {
            assert(rec_lt(s[pos], s[k]));
            lemma_rec_lt_trans(c, s[pos], s[k]);
        }
    }
}

/// Inserting a fresh record at its ordered position keeps the listing
/// strictly sorted and unique, and adds exactly that record to the set.
pub proof fn lemma_insert_sorted<T: Keyed>(s: Seq<T>, pos: int, c: T)
    requires
        sorted_strict(s),
        unique_ids(s),
        0 <= pos <= s.len(),
        forall|k: int| 0 <= k < pos ==> rec_lt(#[trigger] s[k], c),
        forall|k: int| pos <= k < s.len() ==> rec_lt(c, #[trigger] s[k]),
        forall|k: int| 0 <= k < s.len() ==> (#[trigger] s[k]).key_id() != c.key_id(),
    ensures
        sorted_strict(s.insert(pos, c)),
        unique_ids(s.insert(pos, c)),
        s.insert(pos, c).to_set() == s.to_set().insert(c),
{
    let t = s.insert(pos, c);
    assert forall|i: int| 0 <= i < t.len() implies t[i] == (if i < pos {
        s[i]
    } else if i == pos {
        c
    } else {
        s[i - 1]
    }) by {}
    assert forall|i: int, j: int| 0 <= i < j < t.len() implies rec_lt(
        #[trigger] t[i],
        #[trigger] t[j],
    ) && t[i].key_id() != t[j].key_id() by {
        if i < pos && j < pos {
            assert(rec_lt(s[i], s[j]));
            assert(s[i].key_id() != s[j].key_id());
        } else if i < pos && j == pos {
            assert(rec_lt(s[i], c));
            lemma_rec_lt_neq(s[i], c);
        } else if i < pos && j > pos {
            assert(rec_lt(s[i], c));
            assert(rec_lt(c, s[j - 1]));
            lemma_rec_lt_trans(s[i], c, s[j - 1]);
            assert(s[i].key_id() != s[j - 1].key_id());
        } else if i == pos {
            assert(rec_lt(c, s[j - 1]));
        } else {
            assert(rec_lt(s[i - 1], s[j - 1]));
            assert(s[i - 1].key_id() != s[j - 1].key_id());
        }
    }
    assert(t.to_set() =~= s.to_set().insert(c)) by {
        assert forall|x: T| t.to_set().contains(x) implies s.to_set().insert(c).contains(x) by {
            let i = choose|i: int| 0 <= i < t.len() && t[i] == x;
            if i < pos {
                assert(s[i] == x);
                assert(s.contains(x));
            } else if i > pos {
                assert(s[i - 1] == x);
                assert(s.contains(x));
            }
        }
        assert forall|x: T| s.to_set().insert(c).contains(x) implies t.to_set().contains(x) by {
            if x == c {
                assert(t[pos] == x);
                assert(t.contains(x));
            } else {
                let i = choose|i: int| 0 <= i < s.len() && s[i] == x;
                if i < pos {
                    assert(t[i] == x);
                } else {
                    assert(t[i + 1] == x);
                }
                assert(t.contains(x));
            }
        }
    }
}

/// A record kept by a filter comes from the filtered listing and meets
/// the filter.
pub proof fn lemma_filter_subset<T>(s: Seq<T>, pred: spec_fn(T) -> bool, x: T)
    requires
        s.filter(pred).contains(x),
    ensures
        s.contains(x),
        pred(x),
    decreases s.len(),
{
    reveal(Seq::filter);
    if s.len() > 0 {
        let t = s.drop_last();
        if t.filter(pred).contains(x) {
            lemma_filter_subset(t, pred, x);
            let i = choose|i: int| 0 <= i < t.len() && t[i] == x;
            assert(s[i] == x);
            assert(s.contains(x));
        } else {
            assert(x == s.last());
            assert(s.contains(x));
        }
    }
}

/// Filtering a strictly sorted, unique listing keeps it strictly sorted
/// and unique: a listing scoped to one session is still in listing order.
pub proof fn lemma_filter_sorted<T: Keyed>(s: Seq<T>, pred: spec_fn(T) -> bool)
    requires
        sorted_strict(s),
        unique_ids(s),
    ensures
        sorted_strict(s.filter(pred)),
        unique_ids(s.filter(pred)),
    decreases s.len(),
{
    reveal(Seq::filter);
    if s.len() > 0 {
        let t = s.drop_last();
        assert forall|i: int, j: int| 0 <= i < j < t.len() implies rec_lt(
            #[trigger] t[i],
            #[trigger] t[j],
        ) && t[i].key_id() != t[j].key_id() by {
            assert(rec_lt(s[i], s[j]));
            assert(s[i].key_id() != s[j].key_id());
        }
        lemma_filter_sorted(t, pred);
        if pred(s.last()) {
            let f = t.filter(pred).push(s.last());
            assert forall|i: int, j: int| 0 <= i < j < f.len() implies rec_lt(
                #[trigger] f[i],
                #[trigger] f[j],
            ) && f[i].key_id() != f[j].key_id() by {
                if j < f.len() - 1 {
                    assert(rec_lt(t.filter(pred)[i], t.filter(pred)[j]));
                    assert(t.filter(pred)[i].key_id() != t.filter(pred)[j].key_id());
                } else {
                    assert(t.filter(pred).contains(f[i]));
                    lemma_filter_subset(t, pred, f[i]);
                    let k = choose|k: int| 0 <= k < t.len() && t[k] == f[i];
                    assert(s[k] == f[i]);
                    assert(rec_lt(s[k], s[s.len() - 1]));
                    assert(s[k].key_id() != s[s.len() - 1].key_id());
                }
            }
        }
    }
}

/// Replaying one record into a record set: any record carrying the same
/// identifier gives way, and the record is present afterwards.
pub open spec fn upsert_set<T: Keyed>(s: Set<T>, c: T) -> Set<T> {
    s.filter(|x: T| x.key_id() != c.key_id()).insert(c)
}

/// Replaying a record twice stores it once: the second replay changes
/// nothing, and the record is present.
pub proof fn lemma_upsert_idempotent<T: Keyed>(s: Set<T>, c: T)
    ensures
        upsert_set(upsert_set(s, c), c) == upsert_set(s, c),
        upsert_set(s, c).contains(c),
{
    assert(upsert_set(upsert_set(s, c), c) =~= upsert_set(s, c));
}

/// In a listing free of duplicate ids, at most one position holds a
/// record with a given id: an upserted record is stored exactly once.
pub proof fn lemma_one_record_per_id<T: Keyed>(s: Seq<T>, i: int, j: int)
    requires
        unique_ids(s),
        0 <= i < s.len(),
        0 <= j < s.len(),
        s[i].key_id() == s[j].key_id(),
    ensures
        i == j,
{
}

/// Replaying a stream of records, first to last.
pub open spec fn apply_events<T: Keyed>(s: Set<T>, events: Seq<T>) -> Set<T>
    decreases events.len(),
{
    if events.len() == 0 {
        s
    } else {
        apply_events(upsert_set(s, events[0]), events.skip(1))
    }
}

/// Replaying one more record replays it into the accumulated set: a
/// chain of upserts is a replay of the stream.
pub proof fn lemma_apply_events_snoc<T: Keyed>(s: Set<T>, events: Seq<T>, c: T)
    ensures
        apply_events(s, events.push(c)) == upsert_set(apply_events(s, events), c),
    decreases events.len(),
{
    if events.len() == 0 {
        assert(events.push(c)[0] == c);
        assert(events.push(c).skip(1) =~= Seq::<T>::empty());
        assert(apply_events(s, events.push(c)) == apply_events(
            upsert_set(s, c),
            Seq::<T>::empty(),
        ));
        assert(apply_events(upsert_set(s, c), Seq::<T>::empty()) == upsert_set(s, c));
        assert(apply_events(s, events) == s);
    } else {
        assert(events.push(c)[0] == events[0]);
        assert(events.push(c).skip(1) =~= events.skip(1).push(c));
        assert(apply_events(s, events.push(c)) == apply_events(
            upsert_set(s, events[0]),
            events.skip(1).push(c),
        ));
        lemma_apply_events_snoc(upsert_set(s, events[0]), events.skip(1), c);
        assert(apply_events(s, events) == apply_events(
            upsert_set(s, events[0]),
            events.skip(1),
        ));
    }
}

/// No two records of the set share an identifier: the record set of a
/// session, where only a record's own author reissues its id, and then
/// with the whole record equal.
pub open spec fn consistent_records<T: Keyed>(s: Set<T>) -> bool {
    forall|x: T, y: T|
        #[trigger] s.contains(x) && #[trigger] s.contains(y) && x.key_id() == y.key_id() ==> x == y
}

/// Replaying a stream of consistent records from a base the stream already
/// covers accumulates exactly the records seen.
proof fn lemma_apply_events_union<T: Keyed>(s: Set<T>, events: Seq<T>, all: Set<T>)
    requires
        consistent_records(all),
        s.subset_of(all),
        events.to_set().subset_of(all),
    ensures
        apply_events(s, events) == s + events.to_set(),
    decreases events.len(),
{
    if events.len() == 0 {
        assert(events.to_set() =~= Set::<T>::empty());
        assert(s + events.to_set() =~= s);
    } else {
        let c = events[0];
        assert(events.contains(c));
        assert(events.to_set().contains(c));
        assert(upsert_set(s, c) =~= s.insert(c)) by {
            assert forall|x: T| s.contains(x) && x.key_id() == c.key_id() implies x == c by {
                assert(all.contains(x) && all.contains(c));
            }
        }
        let rest = events.skip(1);
        assert forall|x: T| rest.to_set().contains(x) implies all.contains(x) by {
            let i = choose|i: int| 0 <= i < rest.len() && rest[i] == x;
            assert(events[i + 1] == x);
            assert(events.contains(x));
            assert(events.to_set().contains(x));
        }
        lemma_apply_events_union(s.insert(c), rest, all);
        assert forall|x: T| events.to_set().contains(x) implies x == c || rest.to_set().contains(
            x,
        ) by {
            let i = choose|i: int| 0 <= i < events.len() && events[i] == x;
            if i > 0 {
                assert(rest[i - 1] == x);
                assert(rest.contains(x));
            }
        }
        assert(s.insert(c) + rest.to_set() =~= s + events.to_set());
    }
}

/// Replaying any stream of consistent records into an empty store yields
/// exactly the set of records replayed: the order of arrival, and any
/// duplication, leave no trace.
pub proof fn lemma_apply_events_complete<T: Keyed>(events: Seq<T>)
    requires
        consistent_records(events.to_set()),
    ensures
        apply_events(Set::empty(), events) == events.to_set(),
{
    lemma_apply_events_union(Set::empty(), events, events.to_set());
    assert(Set::empty() + events.to_set() =~= events.to_set());
}

/// Convergence: two peers that each replay the same set of records, in
/// any interleaving and with any duplication, hold equal record sets.
pub proof fn lemma_apply_events_convergent<T: Keyed>(e1: Seq<T>, e2: Seq<T>)
    requires
        e1.to_set() == e2.to_set(),
        consistent_records(e1.to_set()),
    ensures
        apply_events(Set::empty(), e1) == apply_events(Set::empty(), e2),
{
    lemma_apply_events_complete(e1);
    lemma_apply_events_complete(e2);
}

/// Convergence, down to the listing: two strictly sorted listings whose
/// record sets come from replaying the same set of consistent records are
/// identical, element for element.
pub proof fn lemma_listing_convergent<T: Keyed>(s1: Seq<T>, s2: Seq<T>, e1: Seq<T>, e2: Seq<T>)
    requires
        sorted_strict(s1),
        sorted_strict(s2),
        s1.to_set() == apply_events(Set::empty(), e1),
        s2.to_set() == apply_events(Set::empty(), e2),
        e1.to_set() == e2.to_set(),
        consistent_records(e1.to_set()),
    ensures
        s1 == s2,
{
    lemma_apply_events_convergent(e1, e2);
    lemma_sorted_unique_same_set(s1, s2);
}

} // verus!
