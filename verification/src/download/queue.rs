//! The download of all pieces: the queue that the workers share, and what they do with it.

use std::collections::VecDeque;
use vstd::multiset::Multiset;
use vstd::prelude::*;
use crate::torrent::Torrent;
use crate::tracker::address::PeerAddr;

verus! {

/// How many peers pieces are downloaded from at once, at most.
pub const MAX_WORKERS: usize = 16;

/// Why not all pieces were downloaded.
#[derive(Debug, Clone, Copy, PartialEq, Eq)]
pub enum DownloadError {
    /// There is no peer to download from.
    NoPeers,
    /// Some pieces are still in the queue.
    Incomplete { remaining: usize },
}

/// The pieces that no worker is at, in the order in which they are taken.
pub struct PieceQueue {
    waiting: VecDeque<usize>,
}

impl View for PieceQueue {
    type V = Seq<usize>;

    closed spec fn view(&self) -> Seq<usize> {
        self.waiting@
    }
}

/// The numbers of `n` pieces, in order.
pub open spec fn all_pieces(n: usize) -> Seq<usize> {
    Seq::new(n as nat, |i: int| i as usize)
}

/// The pieces that wait once a worker was at one of them.
pub open spec fn after_settle(waiting: Seq<usize>, index: usize, downloaded: bool) -> Seq<usize> {
    if downloaded {
        waiting
    } else {
        waiting.push(index)
    }
}

impl PieceQueue {
    /// A queue with all pieces, in order.
    pub fn new(num_pieces: usize) -> (r: Self)
        ensures
            r@ == all_pieces(num_pieces),
    {
        let mut waiting: VecDeque<usize> = VecDeque::new();
        let mut i: usize = 0;
        while i < num_pieces
            invariant
                i <= num_pieces,
                waiting@ =~= all_pieces(i),
            decreases num_pieces - i,
        {
            waiting.push_back(i);
            i += 1;
        }
        PieceQueue { waiting }
    }

    /// Takes the first piece out of the queue.
    pub fn take(&mut self) -> (r: Option<usize>)
        ensures
            match r {
                Some(index) => {
                    &&& old(self)@.len() > 0
                    &&& index == old(self)@[0]
                    &&& final(self)@ == old(self)@.skip(1)
                },
                None => old(self)@.len() == 0 && final(self)@ == old(self)@,
            },
    {
        self.waiting.pop_front()
    }

    /// What a worker does once it was at a piece: a piece that it could not download and write goes
    /// to the end of the queue, for another worker, and this one stops. Tells whether the worker
    /// goes on.
    pub fn settle(&mut self, index: usize, downloaded: bool) -> (r: bool)
        ensures
            r == downloaded,
            final(self)@ == after_settle(old(self)@, index, downloaded),
    {
        if !downloaded {
            self.waiting.push_back(index);
        }
        downloaded
    }

    /// How many pieces are in the queue.
    pub fn remaining(&self) -> (r: usize)
        ensures
            r == self@.len(),
    {
        self.waiting.len()
    }

    /// Whether the download is complete, once all workers have stopped.
    pub fn outcome(&self) -> (r: Result<(), DownloadError>)
        ensures
            r == if self@.len() == 0 {
                Ok::<(), DownloadError>(())
            } else {
                Err(DownloadError::Incomplete { remaining: self@.len() as usize })
            },
    {
        let remaining = self.remaining();
        if remaining > 0 {
            Err(DownloadError::Incomplete { remaining })
        } else {
            Ok(())
        }
    }
}

/// The peers to download from: the first ones, as many as there may be workers.
pub fn choose_peers(peers: &[PeerAddr]) -> (r: Result<Vec<PeerAddr>, DownloadError>)
    ensures
        if peers@.len() == 0 {
            r matches Err(e) && e == DownloadError::NoPeers
        } else {
            r matches Ok(chosen) && chosen@ == peers@.take(
                if peers@.len() < MAX_WORKERS {
                    peers@.len() as int
                } else {
                    MAX_WORKERS as int
                },
            )
        },
{
    if peers.len() == 0 {
        return Err(DownloadError::NoPeers);
    }
    let n = if peers.len() < MAX_WORKERS {
        peers.len()
    } else {
        MAX_WORKERS
    };
    let mut chosen: Vec<PeerAddr> = Vec::new();
    let mut i: usize = 0;
    while i < n
        invariant
            i <= n <= peers.len(),
            chosen@ =~= peers@.take(i as int),
        decreases n - i,
    {
        chosen.push(peers[i]);
        i += 1;
    }
    Ok(chosen)
}

/// Where the piece starts in the content.
pub fn piece_offset(torrent: &Torrent, index: usize) -> (r: u64)
    requires
        index * torrent.piece_length <= u64::MAX,
    ensures
        r == index * torrent.piece_length,
{
    index as u64 * torrent.piece_length as u64
}

/// Where the pieces of a download are: in the queue, with a worker, or written.
#[verifier::ext_equal]
pub struct Progress {
    pub waiting: Seq<usize>,
    pub active: Multiset<usize>,
    pub done: Multiset<usize>,
}

/// All pieces of a download, wherever they are.
pub open spec fn everywhere(p: Progress) -> Multiset<usize> {
    p.waiting.to_multiset().add(p.active).add(p.done)
}

/// A worker takes the first piece out of the queue.
pub open spec fn taken(before: Progress, after: Progress, index: usize) -> bool {
    &&& before.waiting.len() > 0
    &&& index == before.waiting[0]
    &&& after.waiting == before.waiting.skip(1)
    &&& after.active == before.active.insert(index)
    &&& after.done == before.done
}

/// A worker is done with a piece.
pub open spec fn settled(
    before: Progress,
    after: Progress,
    index: usize,
    downloaded: bool,
) -> bool {
    &&& before.active.contains(index)
    &&& after.active == before.active.remove(index)
    &&& after.waiting == after_settle(before.waiting, index, downloaded)
    &&& after.done == if downloaded {
        before.done.insert(index)
    } else {
        before.done
    }
}

/// The pieces are numbered from zero, and each number stands at its own place.
pub proof fn law_all_pieces(n: usize, i: int)
    ensures
        all_pieces(n).len() == n,
        0 <= i < n ==> all_pieces(n)[i] == i,
{
}

/// Taking a piece and being done with one lose no piece and double none.
pub proof fn law_no_piece_is_lost(
    before: Progress,
    after: Progress,
    index: usize,
    downloaded: bool,
)
    requires
        taken(before, after, index) || settled(before, after, index, downloaded),
    ensures
        everywhere(after) == everywhere(before),
{
    broadcast use vstd::seq_lib::group_to_multiset_ensures;

    if taken(before, after, index) {
        assert(before.waiting =~= seq![index] + after.waiting);
        vstd::seq_lib::lemma_multiset_commutative(seq![index], after.waiting);
        assert(seq![index] =~= Seq::<usize>::empty().push(index));
        assert(seq![index].to_multiset() =~= Multiset::singleton(index));
        assert(everywhere(after) =~= everywhere(before));
    } else {
        assert(everywhere(after) =~= everywhere(before));
    }
}

/// A download that started with all pieces in the queue, and in which no piece is in the queue or
/// with a worker any more, has written each piece once.
pub proof fn law_empty_queue_means_complete(p: Progress, n: usize)
    requires
        everywhere(p) == all_pieces(n).to_multiset(),
        p.waiting.len() == 0,
        p.active.len() == 0,
    ensures
        forall|i: usize| #[trigger] p.done.count(i) == if i < n {
            1nat
        } else {
            0nat
        },
{
    broadcast use vstd::seq_lib::group_to_multiset_ensures;

    assert(p.waiting =~= Seq::<usize>::empty());
    assert(p.waiting.to_multiset() =~= Multiset::<usize>::empty());
    assert(p.active =~= Multiset::<usize>::empty());
    assert(everywhere(p) =~= p.done);
    let all = all_pieces(n);
    assert(all.no_duplicates());
    all.lemma_multiset_has_no_duplicates();
    assert forall|i: usize| #[trigger] p.done.count(i) == if i < n {
        1nat
    } else {
        0nat
    } by {
        if i < n {
            assert(all[i as int] == i);
            assert(all.to_multiset().contains(i));
        } else {
            assert(!all.contains(i));
            assert(!all.to_multiset().contains(i));
        }
    }
}

} // verus!
