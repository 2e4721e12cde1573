//! The search for peers: which tracker is asked next, and when the search ends.

use vstd::prelude::*;
use vstd::string::StrSliceExecFns;
use crate::text;
use super::address::PeerAddr;

verus! {

/// How a tracker is asked.
#[derive(Debug, Clone, Copy, PartialEq, Eq, Structural)]
pub enum TrackerKind {
    Http,
    Udp,
}

/// How the tracker with this URL is asked. Trackers of other kinds are not asked at all.
pub open spec fn kind_of(url: Seq<char>) -> Option<TrackerKind> {
    if "http://"@.is_prefix_of(url) || "https://"@.is_prefix_of(url) {
        Some(TrackerKind::Http)
    } else if "udp://"@.is_prefix_of(url) {
        Some(TrackerKind::Udp)
    } else {
        None
    }
}

fn starts_with(s: &str, prefix: &str) -> (r: bool)
    ensures
        r == prefix@.is_prefix_of(s@),
{
    let n = prefix.unicode_len();
    if s.unicode_len() < n {
        return false;
    }
    let mut i: usize = 0;
    while i < n
        invariant
            i <= n,
            n == prefix@.len(),
            n <= s@.len(),
            forall|j: int| 0 <= j < i ==> prefix@[j] == s@[j],
        decreases n - i,
    {
        if prefix.get_char(i) != s.get_char(i) {
            assert(prefix@[i as int] != s@.subrange(0, n as int)[i as int]);
            return false;
        }
        i += 1;
    }
    assert(prefix@ =~= s@.subrange(0, n as int));
    true
}

/// Tells how the tracker with this URL is asked.
pub fn tracker_kind(url: &str) -> (r: Option<TrackerKind>)
    ensures
        r == kind_of(url@),
{
    if starts_with(url, "http://") || starts_with(url, "https://") {
        Some(TrackerKind::Http)
    } else if starts_with(url, "udp://") {
        Some(TrackerKind::Udp)
    } else {
        None
    }
}

/// The first tracker from `from` on that can be asked, or the number of trackers.
pub open spec fn next_known(urls: Seq<Seq<char>>, from: int) -> int
    decreases urls.len() - from,
{
    if from >= urls.len() {
        urls.len() as int
    } else if kind_of(urls[from]) is Some {
        from
    } else {
        next_known(urls, from + 1)
    }
}

/// The peers with those of `found` that are not among them yet, in the order of their finding.
pub open spec fn merged(peers: Seq<PeerAddr>, found: Seq<PeerAddr>) -> Seq<PeerAddr>
    decreases found.len(),
{
    if found.len() == 0 {
        peers
    } else {
        let rest = merged(peers, found.drop_last());
        if rest.contains(found.last()) {
            rest
        } else {
            rest.push(found.last())
        }
    }
}

/// A search for peers, which asks one tracker after another until one of them names a peer.
pub struct PeerSearch<E> {
    next: usize,
    peers: Vec<PeerAddr>,
    last_error: Option<E>,
}

/// The model of a search.
#[verifier::ext_equal]
pub struct Search<E> {
    /// The trackers from this one on were not asked yet.
    pub next: int,
    /// The peers that were found.
    pub peers: Seq<PeerAddr>,
    /// The error of the last tracker that failed.
    pub last_error: Option<E>,
}

impl<E> View for PeerSearch<E> {
    type V = Search<E>;

    closed spec fn view(&self) -> Search<E> {
        Search { next: self.next as int, peers: self.peers@, last_error: self.last_error }
    }
}

/// A search at its start.
pub open spec fn fresh<E>() -> Search<E> {
    Search { next: 0, peers: Seq::empty(), last_error: None }
}

/// The search once a tracker has answered or failed.
pub open spec fn after<E>(state: Search<E>, outcome: Result<Seq<PeerAddr>, E>) -> Search<E> {
    match outcome {
        Ok(found) => Search { peers: merged(state.peers, found), ..state },
        Err(e) => Search { last_error: Some(e), ..state },
    }
}

impl<E> PeerSearch<E> {
    pub fn new() -> (r: Self)
        ensures
            r@ == fresh::<E>(),
    {
        let r = PeerSearch { next: 0, peers: Vec::new(), last_error: None };
        assert(r@ =~= fresh::<E>());
        r
    }

    /// The tracker to ask next, and how. There is none once a peer was found.
    pub fn next_tracker(&mut self, urls: &[String]) -> (r: Option<(usize, TrackerKind)>)
        ensures
            final(self)@.peers == old(self)@.peers,
            final(self)@.last_error == old(self)@.last_error,
            ({
                let at = next_known(text::texts(urls@), old(self)@.next);
                if old(self)@.peers.len() > 0 {
                    r is None && final(self)@.next == old(self)@.next
                } else if at < urls@.len() {
                    &&& r matches Some((i, kind))
                    &&& i == at
                    &&& kind_of(urls@[at]@) == Some(kind)
                    &&& final(self)@.next == at + 1
                } else {
                    &&& r is None
                    &&& final(self)@.next == if old(self)@.next < urls@.len() {
                        urls@.len() as int
                    } else {
                        old(self)@.next
                    }
                }
            }),
    {
        if self.peers.len() > 0 {
            return None;
        }
        let ghost all = text::texts(urls@);
        let ghost at = next_known(all, self.next as int);
        while self.next < urls.len()
            invariant
                all == text::texts(urls@),
                at == next_known(all, self.next as int),
                at == next_known(all, old(self)@.next),
                self.peers == old(self).peers,
                self.last_error == old(self).last_error,
                old(self)@.peers.len() == 0,
                old(self)@.next <= self.next,
                old(self)@.next < urls.len() ==> self.next <= urls.len(),
                old(self)@.next >= urls.len() ==> self.next == old(self)@.next,
            decreases urls.len() - self.next,
        {
            let i = self.next;
            self.next = i + 1;
            assert(all[i as int] == urls@[i as int]@);
            if let Some(kind) = tracker_kind(urls[i].as_str()) {
                return Some((i, kind));
            }
        }
        None
    }

    /// Takes in the peers that a tracker named.
    pub fn found(&mut self, peers: &[PeerAddr])
        ensures
            final(self)@ == after(old(self)@, Ok(peers@)),
    {
        let mut i: usize = 0;
        assert(peers@.take(0) =~= Seq::<PeerAddr>::empty());
        while i < peers.len()
            invariant
                i <= peers.len(),
                self.peers@ == merged(old(self).peers@, peers@.take(i as int)),
                self.next == old(self).next,
                self.last_error == old(self).last_error,
            decreases peers.len() - i,
        {
            proof {
                assert(peers@.take(i + 1).drop_last() =~= peers@.take(i as int));
            }
            let peer = peers[i];
            if !known(self.peers.as_slice(), peer) {
                self.peers.push(peer);
            }
            i += 1;
        }
        assert(peers@.take(i as int) =~= peers@);
    }

    /// Takes in that a tracker failed.
    pub fn failed(&mut self, error: E)
        ensures
            final(self)@ == after(old(self)@, Err(error)),
    {
        self.last_error = Some(error);
    }

    /// The result of the search: peers, or else the error of the last tracker that failed, if one
    /// did.
    pub fn finish(self) -> (r: Result<Vec<PeerAddr>, Option<E>>)
        ensures
            if self@.peers.len() > 0 {
                r matches Ok(peers) && peers@ == self@.peers
            } else {
                r matches Err(e) && e == self@.last_error
            },
    {
        if self.peers.len() > 0 {
            Ok(self.peers)
        } else {
            Err(self.last_error)
        }
    }
}

/// Tells whether the peer is among the peers.
fn known(peers: &[PeerAddr], peer: PeerAddr) -> (r: bool)
    ensures
        r == peers@.contains(peer),
{
    let mut i: usize = 0;
    while i < peers.len()
        invariant
            i <= peers.len(),
            forall|j: int| 0 <= j < i ==> peers@[j] != peer,
        decreases peers.len() - i,
    {
        if peers[i] == peer {
            return true;
        }
        i += 1;
    }
    false
}

/// Merging keeps the peers that were there, in their order, adds exactly those that were found,
/// and makes none occur twice.
pub proof fn law_merged(peers: Seq<PeerAddr>, found: Seq<PeerAddr>)
    ensures
        peers.is_prefix_of(merged(peers, found)),
        forall|p: PeerAddr|
            merged(peers, found).contains(p) <==> #[trigger] peers.contains(p) || found.contains(p),
        peers.no_duplicates() ==> merged(peers, found).no_duplicates(),
        merged(peers, found).len() == 0 <==> peers.len() == 0 && found.len() == 0,
    decreases found.len(),
{
    if found.len() == 0 {
        assert(peers =~= peers.subrange(0, peers.len() as int));
    } else {
        let before = found.drop_last();
        let rest = merged(peers, before);
        law_merged(peers, before);
        let all = merged(peers, found);
        assert(all.subrange(0, peers.len() as int) =~= rest.subrange(0, peers.len() as int));
        assert(found =~= before.push(found.last()));
        assert forall|p: PeerAddr|
            all.contains(p) <==> #[trigger] peers.contains(p) || found.contains(p) by {
            if all.contains(p) && p != found.last() {
                let i = choose|i: int| 0 <= i < all.len() && all[i] == p;
                assert(rest[i] == p);
                assert(rest.contains(p));
                if before.contains(p) {
                    let j = choose|j: int| 0 <= j < before.len() && before[j] == p;
                    assert(found[j] == p);
                }
            }
            if p == found.last() {
                assert(found[found.len() - 1] == p);
                if !rest.contains(p) {
                    assert(all[rest.len() as int] == p);
                }
            }
            if peers.contains(p) || before.contains(p) {
                assert(rest.contains(p));
                let i = choose|i: int| 0 <= i < rest.len() && rest[i] == p;
                assert(all[i] == p);
            }
            if found.contains(p) && p != found.last() {
                let j = choose|j: int| 0 <= j < found.len() && found[j] == p;
                assert(before[j] == p);
            }
        }
    }
}

/// A tracker is passed over only if it cannot be asked.
pub proof fn law_no_tracker_is_passed_over(urls: Seq<Seq<char>>, from: int, i: int)
    requires
        0 <= from <= i < next_known(urls, from),
        i < urls.len(),
    ensures
        kind_of(urls[i]) is None,
    decreases urls.len() - from,
{
    if from < i && kind_of(urls[from]) is None {
        law_no_tracker_is_passed_over(urls, from + 1, i);
    }
}

/// The search once the trackers have answered or failed in turn. It ends with the first answer
/// that names a peer.
pub open spec fn searched<E>(
    state: Search<E>,
    outcomes: Seq<Result<Seq<PeerAddr>, E>>,
) -> Search<E>
    decreases outcomes.len(),
{
    if state.peers.len() > 0 || outcomes.len() == 0 {
        state
    } else {
        searched(after(state, outcomes[0]), outcomes.skip(1))
    }
}

/// The outcome names a peer.
pub open spec fn has_peers<E>(outcome: Result<Seq<PeerAddr>, E>) -> bool {
    outcome matches Ok(found) && found.len() > 0
}

/// The first answer that names a peer decides: its peers, each once, are the result.
pub proof fn law_first_answer_decides<E>(
    state: Search<E>,
    outcomes: Seq<Result<Seq<PeerAddr>, E>>,
    k: int,
)
    requires
        state.peers.len() == 0,
        0 <= k < outcomes.len(),
        has_peers(outcomes[k]),
        forall|i: int| 0 <= i < k ==> !has_peers(#[trigger] outcomes[i]),
    ensures
        searched(state, outcomes).peers == merged(Seq::empty(), outcomes[k]->Ok_0),
    decreases k,
{
    let next = after(state, outcomes[0]);
    assert(state.peers =~= Seq::empty());
    if k == 0 {
        law_merged(state.peers, outcomes[0]->Ok_0);
        assert(searched(next, outcomes.skip(1)) == next);
    } else {
        assert(!has_peers(outcomes[0]));
        if outcomes[0] is Ok {
            law_merged(state.peers, outcomes[0]->Ok_0);
        }
        let rest = outcomes.skip(1);
        assert forall|i: int| 0 <= i < k - 1 implies !has_peers(#[trigger] rest[i]) by {
            assert(rest[i] == outcomes[i + 1]);
        }
        law_first_answer_decides(next, rest, k - 1);
    }
}

/// Where no answer names a peer, the search finds none, and the last error is the one that counts.
pub proof fn law_last_error_counts<E>(state: Search<E>, outcomes: Seq<Result<Seq<PeerAddr>, E>>)
    requires
        state.peers.len() == 0,
        forall|i: int| 0 <= i < outcomes.len() ==> !has_peers(#[trigger] outcomes[i]),
    ensures
        searched(state, outcomes).peers.len() == 0,
        (forall|i: int| 0 <= i < outcomes.len() ==> (#[trigger] outcomes[i]) is Ok)
            ==> searched(state, outcomes).last_error == state.last_error,
        forall|k: int|
            0 <= k < outcomes.len() && (#[trigger] outcomes[k]) is Err && (forall|i: int|
                k < i < outcomes.len() ==> (#[trigger] outcomes[i]) is Ok)
                ==> searched(state, outcomes).last_error == Some(outcomes[k]->Err_0),
    decreases outcomes.len(),
{
    if outcomes.len() > 0 {
        let next = after(state, outcomes[0]);
        let rest = outcomes.skip(1);
        assert(!has_peers(outcomes[0]));
        if outcomes[0] is Ok {
            law_merged(state.peers, outcomes[0]->Ok_0);
        }
        assert forall|i: int| 0 <= i < rest.len() implies !has_peers(#[trigger] rest[i]) by {
            assert(rest[i] == outcomes[i + 1]);
        }
        law_last_error_counts(next, rest);
        assert forall|k: int|
            0 <= k < outcomes.len() && (#[trigger] outcomes[k]) is Err && (forall|i: int|
                k < i < outcomes.len() ==> (#[trigger] outcomes[i]) is Ok)
            implies searched(state, outcomes).last_error == Some(outcomes[k]->Err_0) by {
            if k > 0 {
                assert(rest[k - 1] == outcomes[k]);
                assert forall|i: int| k - 1 < i < rest.len() implies (#[trigger] rest[i]) is Ok by {
                    assert(rest[i] == outcomes[i + 1]);
                }
            } else {
                assert forall|i: int| 0 <= i < rest.len() implies (#[trigger] rest[i]) is Ok by {
                    assert(rest[i] == outcomes[i + 1]);
                }
            }
        }
        if forall|i: int| 0 <= i < outcomes.len() ==> (#[trigger] outcomes[i]) is Ok {
            assert forall|i: int| 0 <= i < rest.len() implies (#[trigger] rest[i]) is Ok by {
                assert(rest[i] == outcomes[i + 1]);
            }
            assert(outcomes[0] is Ok);
        }
    }
}

} // verus!
