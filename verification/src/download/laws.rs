//! What the download of a piece as a whole achieves.

use vstd::prelude::*;
use crate::digest;
use crate::peer::{Wire, STANDARD_BLOCK_SIZE};
use crate::torrent;
use super::piece::{self, HashMismatch, Transfer, MAX_PIPELINE};

verus! {

/// The size of the block `k` of a piece.
pub open spec fn block_length(size: nat, k: nat) -> nat {
    torrent::block_size_of(size, k, STANDARD_BLOCK_SIZE as nat)
}

/// The number of blocks of a piece.
pub open spec fn block_count(size: nat) -> nat {
    torrent::block_count_of(size, STANDARD_BLOCK_SIZE as nat)
}

/// The requests of a download are for the blocks of the piece, one after the other: the next one
/// is for the block `k`, where `k` blocks were requested before it.
pub proof fn law_requests_are_the_blocks(t: Transfer, k: nat)
    requires
        t.wf(),
        t.wants_request(),
        t.requested / STANDARD_BLOCK_SIZE as nat == k,
    ensures
        t.requested == k * STANDARD_BLOCK_SIZE,
        t.next_length() == block_length(t.data.len(), k),
        k < block_count(t.data.len()),
        t.after_request().wf(),
        t.after_request().requested < t.data.len() ==> t.after_request().requested
            / STANDARD_BLOCK_SIZE as nat == k + 1,
        t.after_request().requested == t.data.len() ==> k + 1 == block_count(t.data.len()),
{
    let size = t.data.len();
    let count = block_count(size);
    torrent::lemma_block_count(size, STANDARD_BLOCK_SIZE as nat);
    assert(t.requested == k * 16384);
    assert(count * 16384 >= size);
    assert((count - 1) * 16384 < size);
}

/// A download never has more requests without an answer than the pipeline takes, never requests
/// past the end of the piece, and keeps the piece's number and size, whatever happens.
pub proof fn law_download_stays_in_bounds(t: Transfer, m: Wire)
    requires
        t.wf(),
    ensures
        t.wants_request() ==> t.after_request().wf(),
        t.after_message(m).wf(),
        t.after_message(m).index == t.index,
        t.after_message(m).data.len() == t.data.len(),
        t.after_message(m).in_flight <= t.in_flight <= MAX_PIPELINE,
        t.after_message(m).downloaded >= t.downloaded,
        t.after_message(m).requested == t.requested <= t.data.len(),
{
}

/// What happens in a download.
pub enum Event {
    /// A request is sent, if one is to be sent.
    Request,
    /// A message arrives, while the download is not complete.
    Message(Wire),
}

/// A download with what has happened in it.
pub struct Run {
    pub transfer: Transfer,
    /// The requests that were sent.
    pub sent: Seq<Wire>,
    /// How many blocks have counted.
    pub accepted: nat,
}

/// The run once one thing more has happened.
pub open spec fn after_event(r: Run, e: Event) -> Run {
    match e {
        Event::Request => if r.transfer.wants_request() {
            Run {
                transfer: r.transfer.after_request(),
                sent: r.sent.push(r.transfer.request()),
                accepted: r.accepted,
            }
        } else {
            r
        },
        Event::Message(m) => if r.transfer.complete() {
            r
        } else {
            Run {
                transfer: r.transfer.after_message(m),
                sent: r.sent,
                accepted: if r.transfer.accepts(m) {
                    r.accepted + 1
                } else {
                    r.accepted
                },
            }
        },
    }
}

/// The run of a download from its start.
pub open spec fn run(index: usize, size: nat, events: Seq<Event>) -> Run
    decreases events.len(),
{
    if events.len() == 0 {
        Run { transfer: piece::fresh(index, size), sent: Seq::empty(), accepted: 0 }
    } else {
        after_event(run(index, size, events.drop_last()), events.last())
    }
}

/// The request for the block `k` of a piece.
pub open spec fn block_request(index: usize, size: nat, k: nat) -> Wire {
    Wire::Request {
        index: index as u32,
        begin: (k * STANDARD_BLOCK_SIZE) as u32,
        length: block_length(size, k) as u32,
    }
}

/// In any run of a download, whatever the peer sends: the k-th request is for the k-th block, so
/// none is sent twice and none goes past the end of the piece; and the requests are never more than
/// five ahead of the blocks that have counted. The piece must fit into memory.
pub proof fn law_requests_of_a_run(index: usize, size: nat, events: Seq<Event>)
    requires
        size <= isize::MAX,
    ensures
        ({
            let r = run(index, size, events);
            &&& r.transfer.wf()
            &&& r.transfer.index == index
            &&& r.transfer.data.len() == size
            &&& r.sent.len() <= block_count(size)
            &&& r.transfer.requested == if r.sent.len() * STANDARD_BLOCK_SIZE < size {
                (r.sent.len() * STANDARD_BLOCK_SIZE) as nat
            } else {
                size
            }
            &&& forall|k: int|
                0 <= k < r.sent.len() ==> #[trigger] r.sent[k] == block_request(
                    index,
                    size,
                    k as nat,
                ) && k * STANDARD_BLOCK_SIZE < size
            &&& r.sent.len() <= r.accepted + r.transfer.in_flight
            &&& r.sent.len() <= r.accepted + MAX_PIPELINE
        }),
    decreases events.len(),
{
    if events.len() > 0 {
        let before = run(index, size, events.drop_last());
        law_requests_of_a_run(index, size, events.drop_last());
        match events.last() {
            Event::Request => {
                if before.transfer.wants_request() {
                    let k = before.sent.len();
                    assert(before.transfer.requested == k * 16384);
                    law_requests_are_the_blocks(before.transfer, k);
                }
            },
            Event::Message(m) => {
                law_download_stays_in_bounds(before.transfer, m);
            },
        }
    }
}

/// The message that brings the block `k` of a piece with this content.
pub open spec fn block_message(index: usize, content: Seq<u8>, k: nat) -> Wire {
    Wire::Piece {
        index: index as u32,
        begin: (k * STANDARD_BLOCK_SIZE) as u32,
        block: content.subrange(
            (k * STANDARD_BLOCK_SIZE) as int,
            k * STANDARD_BLOCK_SIZE + block_length(content.len(), k),
        ),
    }
}

/// The download once blocks of the piece have arrived in this order.
pub open spec fn after_blocks(t: Transfer, content: Seq<u8>, order: Seq<nat>) -> Transfer
    decreases order.len(),
{
    if order.len() == 0 {
        t
    } else {
        after_blocks(t, content, order.drop_last()).after_message(
            block_message(t.index, content, order.last()),
        )
    }
}

/// The total size of those of the first `n` blocks that are in the order.
spec fn mass(size: nat, order: Seq<nat>, n: nat) -> nat
    decreases n,
{
    if n == 0 {
        0
    } else {
        let m = (n - 1) as nat;
        mass(size, order, m) + if order.contains(m) {
            block_length(size, m)
        } else {
            0
        }
    }
}

/// One more block adds its size.
proof fn lemma_mass_push(size: nat, order: Seq<nat>, k: nat, n: nat)
    requires
        !order.contains(k),
    ensures
        mass(size, order.push(k), n) == mass(size, order, n) + if k < n {
            block_length(size, k)
        } else {
            0
        },
    decreases n,
{
    if n > 0 {
        let m = (n - 1) as nat;
        lemma_mass_push(size, order, k, m);
        if order.contains(m) {
            let i = choose|i: int| 0 <= i < order.len() && order[i] == m;
            assert(order.push(k)[i] == m);
        }
        if m == k {
            assert(order.push(k)[order.len() as int] == m);
        }
        if order.push(k).contains(m) && m != k {
            let i = choose|i: int| 0 <= i < order.push(k).len() && order.push(k)[i] == m;
            assert(order[i] == m);
        }
    }
}

/// All blocks are as large as the piece, and without one of them they are smaller.
proof fn lemma_mass(size: nat, order: Seq<nat>, n: nat)
    ensures
        mass(size, order, n) <= torrent::blocks_total(size, STANDARD_BLOCK_SIZE as nat, n),
        (forall|k: nat| k < n ==> order.contains(k)) ==> mass(size, order, n)
            == torrent::blocks_total(size, STANDARD_BLOCK_SIZE as nat, n),
        forall|k: nat|
            k < n && !#[trigger] order.contains(k) ==> mass(size, order, n) + block_length(size, k)
                <= torrent::blocks_total(size, STANDARD_BLOCK_SIZE as nat, n),
    decreases n,
{
    if n > 0 {
        lemma_mass(size, order, (n - 1) as nat);
    }
}

/// What holds once some blocks have arrived.
spec fn filled(t: Transfer, index: usize, content: Seq<u8>, order: Seq<nat>) -> bool {
    let size = content.len();
    &&& t.index == index
    &&& t.data.len() == size
    &&& t.downloaded == mass(size, order, block_count(size))
    &&& forall|p: int|
        0 <= p < size && order.contains((p / 16384) as nat) ==> #[trigger] t.data[p] == content[p]
}

proof fn lemma_filled(index: usize, content: Seq<u8>, order: Seq<nat>)
    requires
        index <= u32::MAX,
        content.len() <= u32::MAX,
        content.len() <= usize::MAX,
        order.no_duplicates(),
        forall|i: int| 0 <= i < order.len() ==> #[trigger] order[i] < block_count(content.len()),
    ensures
        filled(
            after_blocks(piece::fresh(index, content.len()), content, order),
            index,
            content,
            order,
        ),
    decreases order.len(),
{
    let size = content.len();
    let count = block_count(size);
    let start = piece::fresh(index, size);
    let t = after_blocks(start, content, order);
    if order.len() == 0 {
        assert forall|n: nat| mass(size, order, n) == 0 by {
            lemma_mass_empty(size, order, n);
        }
    } else {
        let before = order.drop_last();
        let k = order.last();
        assert(before.push(k) =~= order);
        assert forall|i: int| 0 <= i < before.len() implies #[trigger] before[i] < count by {
            assert(before[i] == order[i]);
        }
        lemma_filled(index, content, before);
        let prior = after_blocks(start, content, before);
        assert(!before.contains(k)) by {
            if before.contains(k) {
                let i = choose|i: int| 0 <= i < before.len() && before[i] == k;
                assert(order[i] == order[order.len() - 1]);
            }
        }
        lemma_mass_push(size, before, k, count);
        assert(order[order.len() - 1] < count);
        torrent::lemma_block_count(size, STANDARD_BLOCK_SIZE as nat);
        let begin = (k * 16384) as int;
        let length = block_length(size, k);
        assert(begin + length <= size && begin < size) by {
            assert((count - 1) * 16384 < size);
        }
        assert(t.data =~= prior.data.take(begin) + content.subrange(begin, begin + length)
            + prior.data.skip(begin + length));
        assert forall|p: int|
            0 <= p < size && order.contains((p / 16384) as nat) implies #[trigger] t.data[p]
            == content[p] by {
            if p / 16384 == k {
            } else {
                let i = choose|i: int| 0 <= i < order.len() && order[i] == (p / 16384) as nat;
                assert(before[i] == (p / 16384) as nat);
                assert(prior.data[p] == content[p]);
            }
        }
    }
}

proof fn lemma_mass_empty(size: nat, order: Seq<nat>, n: nat)
    requires
        order.len() == 0,
    ensures
        mass(size, order, n) == 0,
    decreases n,
{
    if n > 0 {
        lemma_mass_empty(size, order, (n - 1) as nat);
    }
}

/// Blocks may arrive in any order: once each of them has arrived, the download is complete and
/// has the content of the piece. The numbers in the messages must be able to name the piece and
/// its blocks.
pub proof fn law_blocks_make_the_piece(index: usize, content: Seq<u8>, order: Seq<nat>)
    requires
        index <= u32::MAX,
        content.len() <= u32::MAX,
        content.len() <= usize::MAX,
        order.no_duplicates(),
        forall|k: nat| order.contains(k) <==> k < block_count(content.len()),
    ensures
        after_blocks(piece::fresh(index, content.len()), content, order).complete(),
        after_blocks(piece::fresh(index, content.len()), content, order).data == content,
{
    let size = content.len();
    let count = block_count(size);
    let t = after_blocks(piece::fresh(index, size), content, order);
    assert forall|i: int| 0 <= i < order.len() implies #[trigger] order[i] < count by {
        assert(order.contains(order[i]));
    }
    lemma_filled(index, content, order);
    lemma_mass(size, order, count);
    torrent::law_blocks_cover_piece(size, STANDARD_BLOCK_SIZE as nat);
    torrent::lemma_block_count(size, STANDARD_BLOCK_SIZE as nat);
    assert forall|p: int| 0 <= p < size implies #[trigger] t.data[p] == content[p] by {
        assert(p / 16384 < count) by {
            assert(count * 16384 >= size);
        }
        assert(order.contains((p / 16384) as nat));
    }
    assert(t.data =~= content);
}

/// While a block of the piece is missing, and no other one has arrived twice, the download is not
/// complete.
pub proof fn law_missing_block_is_waited_for(
    index: usize,
    content: Seq<u8>,
    order: Seq<nat>,
    missing: nat,
)
    requires
        index <= u32::MAX,
        content.len() <= u32::MAX,
        content.len() <= usize::MAX,
        order.no_duplicates(),
        forall|i: int| 0 <= i < order.len() ==> #[trigger] order[i] < block_count(content.len()),
        missing < block_count(content.len()),
        !order.contains(missing),
    ensures
        !after_blocks(piece::fresh(index, content.len()), content, order).complete(),
{
    let size = content.len();
    lemma_filled(index, content, order);
    lemma_mass(size, order, block_count(size));
    torrent::law_blocks_cover_piece(size, STANDARD_BLOCK_SIZE as nat);
    assert(block_length(size, missing) > 0);
}

/// A request is to be sent exactly while bytes are missing, fewer than five requests are without
/// an answer, and not all of the piece was requested.
pub proof fn law_when_to_request(t: Transfer)
    ensures
        t.complete() <==> t.downloaded >= t.data.len(),
        t.wants_request() <==> t.downloaded < t.data.len() && t.in_flight < 5 && t.requested
            < t.data.len(),
{
}

/// A request asks for the bytes from where the last one ended: 16384 of them, or what is left.
/// Its numbers are cut to 32 bits. Once it was sent it is without an answer, and nothing else has
/// changed.
pub proof fn law_what_to_request(t: Transfer)
    requires
        t.requested < t.data.len(),
    ensures
        ({
            let length = t.after_request().requested - t.requested;
            &&& 0 < length <= 16384
            &&& t.requested + length <= t.data.len()
            &&& length < 16384 ==> t.requested + length == t.data.len()
            &&& t.request() == (Wire::Request {
                index: t.index as u32,
                begin: t.requested as u32,
                length: length as u32,
            })
        }),
        t.after_request().in_flight == t.in_flight + 1,
        t.after_request().index == t.index,
        t.after_request().data == t.data,
        t.after_request().downloaded == t.downloaded,
{
}

/// A block of the piece that does not go past its end is written to its place, all of its bytes
/// count as arrived, and one request fewer is without an answer. All else stays.
pub proof fn law_blocks_are_written(t: Transfer, index: u32, begin: u32, block: Seq<u8>, p: int)
    ensures
        ({
            let m = Wire::Piece { index, begin, block };
            let after = t.after_message(m);
            &&& t.accepts(m) <==> index as usize == t.index && begin as usize + block.len()
                <= t.data.len()
            &&& !t.accepts(m) ==> after == t
            &&& t.accepts(m) && begin as usize == begin ==> {
                &&& after.data.len() == t.data.len()
                &&& begin <= p < begin + block.len() ==> after.data[p] == block[p - begin]
                &&& 0 <= p < begin ==> after.data[p] == t.data[p]
                &&& begin + block.len() <= p < t.data.len() ==> after.data[p] == t.data[p]
                &&& after.downloaded == t.downloaded + block.len()
                &&& t.in_flight > 0 ==> after.in_flight == t.in_flight - 1
                &&& t.in_flight == 0 ==> after.in_flight == 0
                &&& after.index == t.index
                &&& after.requested == t.requested
            }
        }),
{
}

/// Messages without a block change nothing in a download.
pub proof fn law_other_messages_are_passed_over(t: Transfer, m: Wire)
    requires
        !(m is Piece),
    ensures
        !t.accepts(m),
        t.after_message(m) == t,
{
}

/// A download starts with nothing requested and nothing arrived, and with as many bytes as the
/// piece has, all of them zero.
pub proof fn law_fresh_download(index: usize, size: nat, p: int)
    ensures
        piece::fresh(index, size).index == index,
        piece::fresh(index, size).data.len() == size,
        0 <= p < size ==> piece::fresh(index, size).data[p] == 0,
        piece::fresh(index, size).downloaded == 0,
        piece::fresh(index, size).requested == 0,
        piece::fresh(index, size).in_flight == 0,
{
}

/// Every block of a piece gets requested: in any run, while bytes are missing, fewer than five
/// requests are without an answer, and not every block was requested, one more request is sent.
pub proof fn law_every_block_gets_requested(index: usize, size: nat, events: Seq<Event>)
    requires
        size <= isize::MAX,
        run(index, size, events).transfer.downloaded < size,
        run(index, size, events).transfer.in_flight < 5,
        run(index, size, events).sent.len() < block_count(size),
    ensures
        run(index, size, events.push(Event::Request)).sent == run(index, size, events).sent.push(
            block_request(index, size, run(index, size, events).sent.len()),
        ),
{
    let r = run(index, size, events);
    law_requests_of_a_run(index, size, events);
    torrent::lemma_block_count(size, STANDARD_BLOCK_SIZE as nat);
    let k = r.sent.len();
    let count = block_count(size);
    assert(k * 16384 <= (count - 1) * 16384);
    assert(r.transfer.requested == k * 16384);
    assert(events.push(Event::Request).drop_last() =~= events);
    law_requests_are_the_blocks(r.transfer, k);
}

/// What happens while a peer answers each of the first `n` requests with its block, one after the
/// other.
pub open spec fn answered(index: usize, content: Seq<u8>, n: nat) -> Seq<Event>
    decreases n,
{
    if n == 0 {
        Seq::empty()
    } else {
        answered(index, content, (n - 1) as nat).push(Event::Request).push(
            Event::Message(block_message(index, content, (n - 1) as nat)),
        )
    }
}

proof fn lemma_answered(index: usize, content: Seq<u8>, n: nat)
    requires
        index <= u32::MAX,
        content.len() <= u32::MAX,
        content.len() <= isize::MAX,
        n <= block_count(content.len()),
    ensures
        ({
            let size = content.len();
            let r = run(index, size, answered(index, content, n));
            &&& r.sent.len() == n
            &&& r.accepted == n
            &&& r.transfer.in_flight == 0
            &&& r.transfer.downloaded == if n * 16384 < size {
                (n * 16384) as nat
            } else {
                size
            }
            &&& forall|p: int|
                0 <= p < size && p < n * 16384 ==> #[trigger] r.transfer.data[p] == content[p]
        }),
    decreases n,
{
    let size = content.len();
    if n > 0 {
        let k = (n - 1) as nat;
        lemma_answered(index, content, k);
        torrent::lemma_block_count(size, STANDARD_BLOCK_SIZE as nat);
        let count = block_count(size);
        assert(k * 16384 <= (count - 1) * 16384);
        let events = answered(index, content, k);
        let before = run(index, size, events);
        law_requests_of_a_run(index, size, events);
        law_every_block_gets_requested(index, size, events);
        let asked = events.push(Event::Request);
        let middle = run(index, size, asked);
        assert(asked.drop_last() =~= events);
        let m = block_message(index, content, k);
        let all = asked.push(Event::Message(m));
        assert(all.drop_last() =~= asked);
        assert(middle.transfer.data == before.transfer.data);
        assert(middle.transfer.in_flight == 1);
        assert(!middle.transfer.complete());
        let begin = (k * 16384) as int;
        let length = block_length(size, k);
        assert(begin + length <= size);
        assert(middle.transfer.accepts(m));
        let after = run(index, size, all);
        assert(after.transfer.data =~= before.transfer.data.take(begin) + content.subrange(
            begin,
            begin + length,
        ) + before.transfer.data.skip(begin + length));
    }
}

/// Where a peer answers each request with its block, one after the other, every block is requested
/// once, and in the end the download is complete and has the content of the piece.
pub proof fn law_answered_requests_make_the_piece(index: usize, content: Seq<u8>)
    requires
        index <= u32::MAX,
        content.len() <= u32::MAX,
        content.len() <= isize::MAX,
    ensures
        ({
            let size = content.len();
            let r = run(index, size, answered(index, content, block_count(size)));
            &&& r.transfer.downloaded == size
            &&& r.transfer.data == content
            &&& r.sent.len() == block_count(size)
            &&& r.sent.len() * 16384 >= size
            &&& size > 0 ==> (r.sent.len() - 1) * 16384 < size
        }),
{
    let size = content.len();
    let count = block_count(size);
    torrent::lemma_block_count(size, STANDARD_BLOCK_SIZE as nat);
    lemma_answered(index, content, count);
    law_requests_of_a_run(index, size, answered(index, content, count));
    assert(run(index, size, answered(index, content, count)).transfer.data =~= content);
}

/// A piece is given out exactly if its digest is the expected one, and then byte for byte; else
/// the error names the piece and both digests in hexadecimal.
pub proof fn law_judgements(
    r: Result<Vec<u8>, HashMismatch>,
    index: usize,
    data: Seq<u8>,
    computed: Seq<u8>,
    expected: Seq<u8>,
)
    requires
        piece::judged(r, index, data, computed, expected),
    ensures
        r is Ok <==> computed == expected,
        r is Ok ==> r->Ok_0@ == data,
        r is Err ==> {
            &&& r->Err_0.index == index
            &&& r->Err_0.expected@ == digest::hex_text(expected)
            &&& r->Err_0.computed@ == digest::hex_text(computed)
        },
{
}

} // verus!
