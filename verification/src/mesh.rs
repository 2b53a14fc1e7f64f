//! The dissemination view of the gossip mesh.
//!
//! Discovery is automatic on the local network segment; the transport
//! reports peers appearing and expiring, and this view tracks the set a
//! publish reaches.  Membership is a capability-indexed set — a topic is
//! joined, a peer is discovered — and dissemination is pure set
//! iteration.  A peer that expired but is still discoverable stays in the
//! view; failure is detected only by discovery timeout, never by message
//! loss.  Peers carry the small stable handles the transport task assigns
//! them.

use vstd::prelude::*;
use crate::strutil::str_eq;

verus! {

/// The membership view: discovered peers, and the topics this peer has
/// joined.
pub struct MeshView {
    peers: Vec<u64>,
    topics: Vec<String>,
}

impl MeshView {
    /// The discovered peers.
    pub closed spec fn peers_set(&self) -> Set<u64> {
        self.peers@.to_set()
    }

    /// The joined topics.
    pub closed spec fn topics_set(&self) -> Set<Seq<char>> {
        self.topics@.map_values(|t: String| t@).to_set()
    }

    /// No peer and no topic is tracked twice.
    pub closed spec fn wf(&self) -> bool {
        &&& forall|i: int, j: int|
            0 <= i < j < self.peers@.len() ==> self.peers@[i] != self.peers@[j]
        &&& forall|i: int, j: int|
            0 <= i < j < self.topics@.len() ==> (#[trigger] self.topics@[i])@ != (
            #[trigger] self.topics@[j])@
    }

    /// The empty view: nothing discovered, nothing joined.
    pub fn new() -> (r: MeshView)
        ensures
            r.wf(),
            r.peers_set() == Set::<u64>::empty(),
            r.topics_set() == Set::<Seq<char>>::empty(),
    {
        let r = MeshView { peers: Vec::new(), topics: Vec::new() };
        proof {
            assert(r.peers_set() =~= Set::<u64>::empty());
            assert(r.topics@.map_values(|t: String| t@) =~= Seq::<Seq<char>>::empty());
            assert(r.topics_set() =~= Set::<Seq<char>>::empty());
        }
        r
    }

    /// Whether a peer is in the dissemination view.
    pub fn contains_peer(&self, peer: u64) -> (r: bool)
        ensures
            r == self.peers_set().contains(peer),
    {
        let mut i: usize = 0;
        while i < self.peers.len()
            invariant
                i <= self.peers@.len(),
                forall|k: int| 0 <= k < i ==> self.peers@[k] != peer,
            decreases self.peers@.len() - i,
        {
            if self.peers[i] == peer {
                proof {
                    assert(self.peers@.contains(peer));
                }
                return true;
            }
            i = i + 1;
        }
        proof {
            assert(!self.peers@.contains(peer));
        }
        false
    }

    /// Whether this peer has joined a topic.
    pub fn subscribed(&self, topic: &str) -> (r: bool)
        ensures
            r == self.topics_set().contains(topic@),
    {
        let ghost ts = self.topics@.map_values(|t: String| t@);
        let mut i: usize = 0;
        while i < self.topics.len()
            invariant
                i <= self.topics@.len(),
                ts == self.topics@.map_values(|t: String| t@),
                forall|k: int| 0 <= k < i ==> ts[k] != topic@,
            decreases self.topics@.len() - i,
        {
            if str_eq(self.topics[i].as_str(), topic) {
                proof {
                    assert(ts[i as int] == topic@);
                    assert(ts.contains(topic@));
                }
                return true;
            }
            i = i + 1;
        }
        proof {
            assert(!ts.contains(topic@));
        }
        false
    }

    /// Join a topic: messages published to it will reach the discovered
    /// peers that joined it too.
    pub fn join(&mut self, topic: &str)
        requires
            old(self).wf(),
        ensures
            final(self).wf(),
            final(self).topics_set() == old(self).topics_set().insert(topic@),
            final(self).peers_set() == old(self).peers_set(),
    {
        if self.subscribed(topic) {
            proof {
                assert(self.topics_set().insert(topic@) =~= self.topics_set());
            }
            return ;
        }
        self.topics.push(topic.to_owned());
        proof {
            let ts0 = old(self).topics@.map_values(|t: String| t@);
            let ts1 = self.topics@.map_values(|t: String| t@);
            assert(ts1 =~= ts0.push(topic@));
            assert(ts1.to_set() =~= ts0.to_set().insert(topic@)) by {
                assert forall|x: Seq<char>| ts1.to_set().contains(x) implies ts0.to_set().insert(
                    topic@,
                ).contains(x) by {
                    let i = choose|i: int| 0 <= i < ts1.len() && ts1[i] == x;
                    if i < ts1.len() - 1 {
                        assert(ts0[i] == x);
                        assert(ts0.contains(x));
                    }
                }
                assert forall|x: Seq<char>|
                    ts0.to_set().insert(topic@).contains(x) implies ts1.to_set().contains(x) by {
                    if x == topic@ {
                        assert(ts1[ts1.len() - 1] == x);
                        assert(ts1.contains(x));
                    } else {
                        let i = choose|i: int| 0 <= i < ts0.len() && ts0[i] == x;
                        assert(ts1[i] == x);
                        assert(ts1.contains(x));
                    }
                }
            }
            assert forall|i: int, j: int| 0 <= i < j < self.topics@.len() implies (
            #[trigger] self.topics@[i])@ != (#[trigger] self.topics@[j])@ by {
                if j < self.topics@.len() - 1 {
                    assert(old(self).topics@[i]@ != old(self).topics@[j]@);
                } else {
                    assert(ts0[i] != topic@);
                }
            }
        }
    }

    /// A peer was discovered: add it to the dissemination view.
    pub fn on_discovered(&mut self, peer: u64)
        requires
            old(self).wf(),
        ensures
            final(self).wf(),
            final(self).peers_set() == old(self).peers_set().insert(peer),
            final(self).topics_set() == old(self).topics_set(),
    {
        if self.contains_peer(peer) {
            proof {
                assert(self.peers_set().insert(peer) =~= self.peers_set());
            }
            return ;
        }
        self.peers.push(peer);
        proof {
            let p0 = old(self).peers@;
            let p1 = self.peers@;
            assert(p1.to_set() =~= p0.to_set().insert(peer)) by {
                assert forall|x: u64| p1.to_set().contains(x) implies p0.to_set().insert(
                    peer,
                ).contains(x) by {
                    let i = choose|i: int| 0 <= i < p1.len() && p1[i] == x;
                    if i < p1.len() - 1 {
                        assert(p0.contains(x));
                    }
                }
                assert forall|x: u64| p0.to_set().insert(peer).contains(x) implies p1.to_set()
                    .contains(x) by {
                    if x == peer {
                        assert(p1[p1.len() - 1] == x);
                        assert(p1.contains(x));
                    } else {
                        let i = choose|i: int| 0 <= i < p0.len() && p0[i] == x;
                        assert(p1[i] == x);
                        assert(p1.contains(x));
                    }
                }
            }
            assert forall|i: int, j: int| 0 <= i < j < p1.len() implies p1[i] != p1[j] by {
                if j < p1.len() - 1 {
                    assert(p0[i] != p0[j]);
                } else {
                    assert(!p0.contains(peer));
                    assert(p0[i] == p1[i]);
                }
            }
        }
    }

    /// A peer's discovery record expired.  It leaves the dissemination
    /// view only if it is no longer discoverable at all; an expiry with
    /// the peer still discoverable changes nothing.
    pub fn on_expired(&mut self, peer: u64, still_discoverable: bool)
        requires
            old(self).wf(),
        ensures
            final(self).wf(),
            still_discoverable ==> final(self).peers_set() == old(self).peers_set(),
            !still_discoverable ==> final(self).peers_set() == old(self).peers_set().remove(peer),
            final(self).topics_set() == old(self).topics_set(),
    {
        if still_discoverable {
            return ;
        }
        let mut i: usize = 0;
        while i < self.peers.len()
            invariant
                i <= self.peers@.len(),
                *self == *old(self),
                old(self).wf(),
                !still_discoverable,
                forall|k: int| 0 <= k < i ==> self.peers@[k] != peer,
            decreases self.peers@.len() - i,
        {
            if self.peers[i] == peer {
                let ghost p0 = self.peers@;
                self.peers.remove(i);
                proof {
                    let p1 = self.peers@;
                    assert(p1 =~= p0.remove(i as int));
                    assert forall|a: int, b: int| 0 <= a < b < p1.len() implies p1[a] != p1[b] by {
                        let a0 = if a < i { a } else { a + 1 };
                        let b0 = if b < i { b } else { b + 1 };
                        assert(p1[a] == p0[a0] && p1[b] == p0[b0]);
                        assert(p0[a0] != p0[b0]);
                    }
                    assert(p1.to_set() =~= p0.to_set().remove(peer)) by {
                        assert forall|x: u64| p1.to_set().contains(x) implies p0.to_set().remove(
                            peer,
                        ).contains(x) by {
                            let k = choose|k: int| 0 <= k < p1.len() && p1[k] == x;
                            let k0 = if k < i { k } else { k + 1 };
                            assert(p0[k0] == x);
                            assert(p0.contains(x));
                            assert(p0[k0] != p0[i as int]);
                        }
                        assert forall|x: u64|
                            p0.to_set().remove(peer).contains(x) implies p1.to_set().contains(
                            x,
                        ) by {
                            let k0 = choose|k0: int| 0 <= k0 < p0.len() && p0[k0] == x;
                            if k0 < i {
                                assert(p1[k0] == x);
                            } else {
                                assert(p1[k0 - 1] == x);
                            }
                            assert(p1.contains(x));
                        }
                    }
                }
                return ;
            }
            i = i + 1;
        }
        proof {
            assert(!self.peers@.contains(peer));
            assert(self.peers_set() =~= old(self).peers_set().remove(peer));
        }
    }

    /// Whether a publish on a topic reaches a peer: it does exactly when
    /// the topic is joined and the peer is in the view.
    pub fn delivers_to(&self, topic: &str, peer: u64) -> (r: bool)
        ensures
            r == (self.topics_set().contains(topic@) && self.peers_set().contains(peer)),
    {
        let s = self.subscribed(topic);
        let p = self.contains_peer(peer);
        s && p
    }
}

} // verus!
