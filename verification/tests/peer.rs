use bittorrent_rust::peer::{
    payload_length, Handshake, HandshakeError, Message, MessageError, PeerBitfield, PeerConnection,
    UnchokeStep, HANDSHAKE_PSTR, STANDARD_BLOCK_SIZE,
};

#[test]
fn test_handshake_serde() {
    let hash = [1u8; 20];
    let peer_id = [2u8; 20];
    let hs = Handshake::new(hash, peer_id);
    let bytes = hs.to_bytes();
    let parsed = Handshake::from_bytes(&bytes).unwrap();
    assert_eq!(parsed.info_hash, hash);
    assert_eq!(parsed.peer_id, peer_id);
}

#[test]
fn test_message_serde() {
    let req = Message::Request {
        index: 10,
        begin: 32768,
        length: 16384,
    };
    let bytes = req.to_bytes();
    assert_eq!(bytes.len(), 17);
    assert_eq!(&bytes[0..4], &13u32.to_be_bytes());
    assert_eq!(bytes[4], 6); // Request ID
}

#[test]
fn test_bitfield() {
    let mut bf = PeerBitfield::new(vec![0b10000001, 0b00000010]);
    assert!(bf.has_piece(0));
    assert!(!bf.has_piece(1));
    assert!(bf.has_piece(7));
    assert!(bf.has_piece(14));
    assert!(!bf.has_piece(15));

    bf.set_piece(1);
    assert!(bf.has_piece(1));
}

#[test]
fn a_handshake_has_its_parts_in_their_places() {
    let bytes = Handshake::new([0xaa; 20], [0xbb; 20]).to_bytes();
    assert_eq!(bytes[0], 19);
    assert_eq!(&bytes[1..20], b"BitTorrent protocol");
    assert_eq!(HANDSHAKE_PSTR, b"BitTorrent protocol");
    assert_eq!(&bytes[20..28], &[0u8; 8]);
    assert_eq!(&bytes[28..48], &[0xaa; 20]);
    assert_eq!(&bytes[48..68], &[0xbb; 20]);
}

#[test]
fn each_handshake_error_has_its_input() {
    let good = Handshake::new([1; 20], [2; 20]).to_bytes();
    assert_eq!(
        Handshake::from_bytes(&good[..67]).unwrap_err(),
        HandshakeError::TooShort { length: 67 }
    );
    let mut length = good;
    length[0] = 18;
    assert_eq!(Handshake::from_bytes(&length).unwrap_err(), HandshakeError::InvalidProtocol);
    let mut name = good;
    name[5] = b'x';
    assert_eq!(Handshake::from_bytes(&name).unwrap_err(), HandshakeError::InvalidProtocol);
    assert_eq!(
        PeerConnection::connect(&good, &[3; 20]).err(),
        Some(HandshakeError::InfoHashMismatch)
    );
    assert_eq!(
        Handshake::from_bytes(&good[..5]).unwrap_err().to_string(),
        "Handshake buffer too short: 5 bytes"
    );
}

#[test]
fn reserved_bytes_do_not_count() {
    let mut bytes = Handshake::new([1; 20], [2; 20]).to_bytes();
    bytes[25] = 0x10;
    assert_eq!(Handshake::from_bytes(&bytes).unwrap(), Handshake::new([1; 20], [2; 20]));
}

#[test]
fn messages_are_read_back() {
    let messages = vec![
        Message::KeepAlive,
        Message::Choke,
        Message::Unchoke,
        Message::Interested,
        Message::NotInterested,
        Message::Have(0x0102_0304),
        Message::Bitfield(vec![1, 2, 3]),
        Message::Request { index: 1, begin: 2, length: 3 },
        Message::Piece { index: 1, begin: 16384, block: vec![9; 100] },
        Message::Cancel { index: u32::MAX, begin: 0, length: 1 },
    ];
    for m in messages {
        let bytes = m.to_bytes();
        let header = [bytes[0], bytes[1], bytes[2], bytes[3]];
        assert_eq!(payload_length(header), bytes.len() - 4);
        assert_eq!(Message::from_payload(&bytes[4..]).unwrap(), m);
    }
    assert_eq!(Message::Have(258).to_bytes(), vec![0, 0, 0, 5, 4, 0, 0, 1, 2]);
    assert_eq!(
        Message::Piece { index: 1, begin: 2, block: vec![7] }.to_bytes(),
        vec![0, 0, 0, 10, 7, 0, 0, 0, 1, 0, 0, 0, 2, 7]
    );
}

#[test]
fn each_message_error_has_its_input() {
    assert_eq!(Message::from_payload(&[4, 0, 0, 0]), Err(MessageError::InvalidHave));
    assert_eq!(Message::from_payload(&[6; 12]), Err(MessageError::InvalidRequest));
    assert_eq!(Message::from_payload(&[7; 8]), Err(MessageError::InvalidPiece));
    assert_eq!(Message::from_payload(&[8; 12]), Err(MessageError::InvalidCancel));
    assert_eq!(Message::from_payload(&[9]), Err(MessageError::UnknownId(9)));
    assert_eq!(MessageError::UnknownId(20).to_string(), "Unknown message ID: 20");
    assert_eq!(MessageError::InvalidHave.to_string(), "Invalid Have message length");
    // A message may carry bytes that it has no use for.
    assert_eq!(Message::from_payload(&[0, 1, 2]), Ok(Message::Choke));
    assert_eq!(Message::from_payload(&[4, 0, 0, 0, 1, 9]), Ok(Message::Have(1)));
}

#[test]
fn a_piece_past_the_bits_can_be_set() {
    let mut bf = PeerBitfield::new(vec![]);
    assert!(!bf.has_piece(0));
    bf.set_piece(20);
    assert!(bf.has_piece(20));
    for i in 0..40 {
        assert_eq!(bf.has_piece(i), i == 20);
    }
}

#[test]
fn a_connection_follows_the_messages() {
    let reply = Handshake::new([1; 20], [2; 20]).to_bytes();
    let mut conn = PeerConnection::connect(&reply, &[1; 20]).unwrap_or_else(|e| panic!("{:?}", e));
    assert_eq!(conn.peer_id, [2; 20]);
    assert!(conn.choked);
    assert!(!conn.bitfield.has_piece(0));
    assert_eq!(conn.read_message(&[5, 0b0100_0000]), Ok(Message::Bitfield(vec![0b0100_0000])));
    assert!(conn.bitfield.has_piece(1));
    assert_eq!(conn.read_message(&[4, 0, 0, 0, 9]), Ok(Message::Have(9)));
    assert!(conn.bitfield.has_piece(1) && conn.bitfield.has_piece(9));
    assert!(conn.choked);

    assert_eq!(conn.read_message(&[1]), Ok(Message::Unchoke));
    assert!(!conn.choked);
    assert_eq!(conn.read_message(&[]), Ok(Message::KeepAlive));
    assert_eq!(conn.read_message(&[99]), Err(MessageError::UnknownId(99)));
    assert!(!conn.choked && conn.bitfield.has_piece(9));
    assert_eq!(conn.read_message(&[0]), Ok(Message::Choke));
    assert!(conn.choked);
    // A new bitfield takes the place of the old one.
    assert_eq!(conn.read_message(&[5]), Ok(Message::Bitfield(vec![])));
    assert!(!conn.bitfield.has_piece(1) && !conn.bitfield.has_piece(9));
}

#[test]
fn blocks_are_16_kib() {
    assert_eq!(STANDARD_BLOCK_SIZE, 16 * 1024);
}

#[test]
fn a_wait_sends_interest_and_ends_with_the_first_unchoke() {
    let reply = Handshake::new([1; 20], [2; 20]).to_bytes();
    let conn = PeerConnection::connect(&reply, &[1; 20]).unwrap_or_else(|e| panic!("{:?}", e));
    let (mut wait, first) = conn.wait_for_unchoke();
    assert_eq!(first, Some(Message::Interested));
    assert_eq!(wait.step(true), UnchokeStep::ReadMessage);
    assert_eq!(wait.step(false), UnchokeStep::TimedOut);
    assert_eq!(wait.receive(&[4, 0, 0, 0, 9]), Ok(Message::Have(9)));
    assert_eq!(wait.receive(&[0]), Ok(Message::Choke));
    assert_eq!(wait.receive(&[99]), Err(MessageError::UnknownId(99)));
    assert_eq!(wait.receive(&[]), Ok(Message::KeepAlive));
    assert_eq!(wait.step(true), UnchokeStep::ReadMessage);
    assert_eq!(wait.receive(&[1]), Ok(Message::Unchoke));
    assert_eq!(wait.step(false), UnchokeStep::Ready);

    // What was read on the way is known.
    let conn = wait.into_connection();
    assert!(!conn.choked && conn.bitfield.has_piece(9));

    // A connection that is not choked need not wait.
    let (wait, first) = conn.wait_for_unchoke();
    assert_eq!(first, None);
    assert_eq!(wait.step(false), UnchokeStep::Ready);
}
