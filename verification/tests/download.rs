use bittorrent_rust::download::{
    accept_piece, choose_peers, piece_offset, verify_piece, AfterMessage, Attempts, DownloadError,
    PieceDownload, PieceQueue, MAX_PIPELINE, MAX_WORKERS,
};
use bittorrent_rust::peer::Message;
use bittorrent_rust::torrent::Torrent;
use bittorrent_rust::tracker::PeerAddr;

/// The SHA-1 digest of `hello`.
const HELLO: [u8; 20] = [
    0xaa, 0xf4, 0xc6, 0x1d, 0xdc, 0xc5, 0xe8, 0xa2, 0xda, 0xbe, 0xde, 0x0f, 0x3b, 0x48, 0x2c, 0xd9,
    0xae, 0xa9, 0x43, 0x4d,
];

/// The SHA-1 digest of the content in `blocks_in_any_order_make_the_piece`.
const CONTENT: [u8; 20] = [
    0xa4, 0x23, 0x17, 0xf6, 0x98, 0x04, 0xad, 0x93, 0x63, 0xa0, 0xe9, 0x93, 0xc6, 0x01, 0xe2, 0xa1,
    0xf0, 0x2f, 0xb9, 0x90,
];

fn torrent_of(length: usize, piece_length: usize, count: usize) -> Torrent {
    Torrent {
        announce: "http://example.com/announce".into(),
        announce_list: vec![],
        info_hash: [0u8; 20],
        info_hash_hex: "".into(),
        piece_length,
        pieces: vec![HELLO; count],
        name: "x".into(),
        length,
    }
}

fn request(index: u32, begin: u32, length: u32) -> Option<Message> {
    Some(Message::Request { index, begin, length })
}

#[test]
fn requests_go_from_block_to_block() {
    let torrent = torrent_of(100_000, 40_000, 3);
    let mut d = PieceDownload::new(&torrent, 1);
    assert!(!d.is_complete());
    assert_eq!(d.next_request(), request(1, 0, 16384));
    assert_eq!(d.next_request(), request(1, 16384, 16384));
    assert_eq!(d.next_request(), request(1, 32768, 7232));
    assert_eq!(d.next_request(), None);
}

#[test]
fn the_pipeline_is_never_longer_than_five() {
    let torrent = torrent_of(1 << 20, 1 << 20, 1);
    let mut d = PieceDownload::new(&torrent, 0);
    let mut sent = 0;
    while d.next_request().is_some() {
        sent += 1;
    }
    assert_eq!(sent, MAX_PIPELINE);
    assert_eq!(sent, 5);
    let block = Message::Piece { index: 0, begin: 0, block: vec![1; 16384] };
    assert_eq!(d.receive(&block), AfterMessage::GoOn);
    assert_eq!(d.next_request(), request(0, 5 * 16384, 16384));
    assert_eq!(d.next_request(), None);
}

#[test]
fn blocks_in_any_order_make_the_piece() {
    let content: Vec<u8> = (0..40_000u32).map(|i| (i % 251) as u8).collect();
    let mut torrent = torrent_of(40_000, 40_000, 1);
    torrent.pieces[0] = CONTENT;
    for order in [[0usize, 1, 2], [2, 1, 0], [1, 2, 0]] {
        let mut d = PieceDownload::new(&torrent, 0);
        for k in order {
            assert!(!d.is_complete());
            let begin = k * 16384;
            let end = std::cmp::min(begin + 16384, content.len());
            let block = content[begin..end].to_vec();
            d.receive(&Message::Piece { index: 0, begin: begin as u32, block });
        }
        assert!(d.is_complete());
        assert_eq!(d.finish(&torrent), Ok(content.clone()));
    }
}

#[test]
fn other_pieces_and_blocks_past_the_end_do_not_count() {
    let torrent = torrent_of(10, 5, 2);
    let mut d = PieceDownload::new(&torrent, 1);
    assert_eq!(d.next_request(), request(1, 0, 5));
    d.receive(&Message::Piece { index: 0, begin: 0, block: b"hello".to_vec() });
    d.receive(&Message::Piece { index: 1, begin: 1, block: b"hello".to_vec() });
    d.receive(&Message::Piece { index: 1, begin: u32::MAX, block: b"".to_vec() });
    assert_eq!(d.receive(&Message::KeepAlive), AfterMessage::GoOn);
    assert_eq!(d.receive(&Message::Choke), AfterMessage::WaitForUnchoke);
    assert!(!d.is_complete());
    assert_eq!(
        d.receive(&Message::Piece { index: 1, begin: 0, block: b"hello".to_vec() }),
        AfterMessage::GoOn
    );
    assert!(d.is_complete());
    assert_eq!(d.next_request(), None);
    assert_eq!(d.finish(&torrent), Ok(b"hello".to_vec()));
}

#[test]
fn a_piece_must_have_its_digest() {
    let torrent = torrent_of(5, 5, 1);
    assert_eq!(verify_piece(&torrent, 0, b"hello".to_vec()), Ok(b"hello".to_vec()));
    let e = verify_piece(&torrent, 0, b"".to_vec()).unwrap_err();
    assert_eq!(e.index, 0);
    assert_eq!(e.expected, "aaf4c61ddcc5e8a2dabede0f3b482cd9aea9434d");
    assert_eq!(e.computed, "da39a3ee5e6b4b0d3255bfef95601890afd80709");
    assert_eq!(
        e.to_string(),
        "Piece 0 SHA-1 verification failed: expected aaf4c61ddcc5e8a2dabede0f3b482cd9aea9434d, got da39a3ee5e6b4b0d3255bfef95601890afd80709"
    );
    assert_eq!(accept_piece(7, vec![1, 2], HELLO, &HELLO), Ok(vec![1, 2]));
    assert_eq!(accept_piece(7, vec![1, 2], [0; 20], &HELLO).unwrap_err().index, 7);
}

#[test]
fn pieces_are_taken_in_order_and_put_back_at_the_end() {
    let mut queue = PieceQueue::new(3);
    assert_eq!(queue.remaining(), 3);
    assert_eq!(queue.take(), Some(0));
    assert_eq!(queue.take(), Some(1));
    assert!(!queue.settle(0, false));
    assert!(queue.settle(1, true));
    assert_eq!(queue.take(), Some(2));
    assert_eq!(queue.outcome(), Err(DownloadError::Incomplete { remaining: 1 }));
    assert_eq!(queue.take(), Some(0));
    assert_eq!(queue.take(), None);
    assert_eq!(queue.remaining(), 0);
    assert_eq!(queue.outcome(), Ok(()));
    assert_eq!(
        DownloadError::Incomplete { remaining: 12 }.to_string(),
        "Download incomplete: 12 piece(s) could not be downloaded"
    );
}

#[test]
fn every_piece_is_downloaded_once_whatever_fails() {
    let mut queue = PieceQueue::new(20);
    let mut done = vec![0; 20];
    let mut turn = 0;
    while let Some(i) = queue.take() {
        turn += 1;
        if queue.settle(i, turn % 3 != 0) {
            done[i] += 1;
        }
    }
    assert_eq!(queue.outcome(), Ok(()));
    assert!(done.iter().all(|n| *n == 1));
}

#[test]
fn sixteen_peers_at_most_are_chosen() {
    let peers: Vec<PeerAddr> = (0..20).map(|i| PeerAddr { ip: i, port: 1 }).collect();
    assert_eq!(choose_peers(&[]), Err(DownloadError::NoPeers));
    assert_eq!(choose_peers(&peers[..3]), Ok(peers[..3].to_vec()));
    assert_eq!(choose_peers(&peers), Ok(peers[..16].to_vec()));
    assert_eq!(MAX_WORKERS, 16);
    assert_eq!(DownloadError::NoPeers.to_string(), "No peers available to download from");
}

#[test]
fn a_piece_starts_at_its_number_times_the_piece_length() {
    let torrent = torrent_of(800, 256, 4);
    assert_eq!(piece_offset(&torrent, 0), 0);
    assert_eq!(piece_offset(&torrent, 3), 768);
    let end = piece_offset(&torrent, 3) + torrent.piece_size(3) as u64;
    assert_eq!(end, 800);
}

#[test]
fn a_finished_download_is_checked_against_its_own_piece() {
    let mut torrent = torrent_of(10, 5, 2);
    torrent.pieces[0] = [0; 20];
    let mut d = PieceDownload::new(&torrent, 1);
    d.receive(&Message::Piece { index: 1, begin: 0, block: b"hello".to_vec() });
    assert_eq!(d.finish(&torrent), Ok(b"hello".to_vec()));
    let mut d = PieceDownload::new(&torrent, 0);
    d.receive(&Message::Piece { index: 0, begin: 0, block: b"hello".to_vec() });
    let e = d.finish(&torrent).unwrap_err();
    assert_eq!(e.index, 0);
    assert_eq!(e.expected, "0".repeat(40));
    assert_eq!(e.computed, "aaf4c61ddcc5e8a2dabede0f3b482cd9aea9434d");
}

#[test]
fn requests_follow_the_blocks_whatever_arrives() {
    let size = 10 * 16384 + 5;
    let torrent = torrent_of(size, size, 1);
    let mut d = PieceDownload::new(&torrent, 0);
    let mut sent = 0;
    let mut accepted = 0;
    for turn in 0..40u32 {
        if d.is_complete() {
            break;
        }
        while let Some(message) = d.next_request() {
            let length = std::cmp::min(16384, size as u32 - sent * 16384);
            assert_eq!(Some(message), request(0, sent * 16384, length));
            sent += 1;
        }
        assert!(sent <= accepted + 5);
        if turn % 3 == 0 {
            d.receive(&Message::Have(turn));
        } else {
            // The same block over and over counts each time.
            d.receive(&Message::Piece { index: 0, begin: 0, block: vec![7; 1000] });
            accepted += 1;
        }
    }
    assert_eq!(sent, 11);
}

#[test]
fn peers_are_tried_in_order() {
    let peers: Vec<PeerAddr> = (0..3).map(|i| PeerAddr { ip: i, port: 1 }).collect();
    let mut attempts: Attempts<u8, &str> = Attempts::new();
    assert_eq!(attempts.next_peer(&peers), Some(peers[0]));
    attempts.failed("refused");
    assert_eq!(attempts.next_peer(&peers), Some(peers[1]));
    attempts.succeeded(7);
    // After a success no other peer is tried.
    assert_eq!(attempts.next_peer(&peers), None);
    assert_eq!(attempts.finish(), Ok(7));
}

#[test]
fn attempts_without_success_give_the_last_error() {
    let peers: Vec<PeerAddr> = (0..2).map(|i| PeerAddr { ip: i, port: 1 }).collect();
    let mut attempts: Attempts<u8, &str> = Attempts::new();
    while attempts.next_peer(&peers).is_some() {
        attempts.failed("refused");
    }
    attempts.failed("choked");
    assert_eq!(attempts.finish(), Err(Some("choked")));
    let none: Attempts<u8, &str> = Attempts::new();
    assert_eq!(none.finish(), Err(None));
}
