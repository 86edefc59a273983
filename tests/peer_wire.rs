use rip_lib::{block_request, frame_length, has_bit, plan_requests, set_bit, try_from_slice, BLOCK_LENGTH, ByteString, Dictionary, Integer, Peer, PeerError, PeerHandshake, PeerMessage, PeerState, TrackerError, Value};

#[test]
fn test_peer_message() {
    let mut bytes = Vec::new();
    bytes.append(&mut 15_u32.to_be_bytes().to_vec());
    bytes.push(7);
    bytes.append(&mut 10_u32.to_be_bytes().to_vec());
    bytes.append(&mut 20_u32.to_be_bytes().to_vec());
    bytes.append(&mut vec![1, 2, 3, 4, 5, 6]);

    let message = PeerMessage::try_from_bytes(&bytes).unwrap();
    let back_to_bytes = message.as_bytes();

    assert_eq!(PeerMessage::Piece(10, 20, vec![1, 2, 3, 4, 5, 6]), message);
    assert_eq!(bytes, back_to_bytes);
}

#[test]
fn test_bit_operations() {
    let mut left_bitfield = vec![0_u8, 0_u8, 0_u8, 0_u8];
    let right_bitfield = vec![0_u8, 0_u8, 4_u8, 0_u8];

    let index = 21;
    assert!(set_bit(&mut left_bitfield, index));

    assert_eq!(left_bitfield, right_bitfield);
}

#[test]
fn bit_beyond_end_is_refused() {
    let mut bits = vec![0_u8; 2];
    assert!(!set_bit(&mut bits, 16));
    assert_eq!(bits, vec![0, 0]);
    assert!(set_bit(&mut bits, 0));
    assert_eq!(bits, vec![128, 0]);
}

#[test]
fn request_frame_round_trip() {
    let m = PeerMessage::Request(10, 20, 30);
    let frame = m.as_bytes();
    assert_eq!(frame.len(), 17);
    assert_eq!(frame, vec![0, 0, 0, 13, 6, 0, 0, 0, 10, 0, 0, 0, 20, 0, 0, 0, 30]);
    assert_eq!(PeerMessage::try_from_bytes(&frame).unwrap(), PeerMessage::Request(10, 20, 30));
}

#[test]
fn piece_frame_round_trip() {
    let m = PeerMessage::Piece(10, 20, vec![1, 2, 3, 4, 5, 6]);
    let frame = m.as_bytes();
    assert_eq!(frame.len(), 4 + 1 + 8 + 6);
    assert_eq!(PeerMessage::try_from_bytes(&frame).unwrap(), m);
}

#[test]
fn every_kind_round_trips() {
    let all = vec![
        PeerMessage::Choke,
        PeerMessage::Unchoke,
        PeerMessage::Interested,
        PeerMessage::NotInterested,
        PeerMessage::Have(0x01020304),
        PeerMessage::Bitfield(vec![0xff, 0x00, 0x81]),
        PeerMessage::Request(1, 2, 3),
        PeerMessage::Piece(4, 5, vec![]),
        PeerMessage::Cancel(7, 8, 9),
    ];
    for (id, m) in all.into_iter().enumerate() {
        let frame = m.as_bytes();
        assert_eq!(frame[4] as usize, id);
        assert_eq!(PeerMessage::try_from_bytes(&frame).unwrap(), m);
    }
    assert_eq!(PeerMessage::Choke.as_bytes(), vec![0, 0, 0, 1, 0]);
    assert_eq!(PeerMessage::Have(0x01020304).as_bytes(), vec![0, 0, 0, 5, 4, 1, 2, 3, 4]);
}

#[test]
fn malformed_frames() {
    assert_eq!(PeerMessage::try_from_bytes(&[0, 0, 0, 1]), Err(PeerError::MalformedFrame));
    assert_eq!(PeerMessage::try_from_bytes(&[0, 0, 0, 3, 4, 0, 0]), Err(PeerError::MalformedFrame));
    assert_eq!(PeerMessage::try_from_bytes(&[0, 0, 0, 5, 6, 0, 0, 0, 1]), Err(PeerError::MalformedFrame));
    assert_eq!(PeerMessage::try_from_bytes(&[0, 0, 0, 1, 9]), Err(PeerError::UnknownMessage));
}

#[test]
fn read_big_endian() {
    assert_eq!(try_from_slice(&[9, 0x12, 0x34, 0x56, 0x78], 1), Ok(0x12345678));
    assert_eq!(try_from_slice(&[1, 2, 3], 0), Err(PeerError::MalformedFrame));
    assert_eq!(try_from_slice(&[1, 2, 3, 4], 5), Err(PeerError::MalformedFrame));
}

#[test]
fn handshake_layout_and_verify() {
    let hash: Vec<u8> = (0..20).collect();
    let id = [b'x'; 20];
    let hs = PeerHandshake::new(hash.clone(), id);
    let bytes = hs.as_bytes();
    assert_eq!(bytes.len(), 68);
    assert_eq!(bytes[0], 19);
    assert_eq!(&bytes[1..20], b"BitTorrent protocol");
    assert_eq!(&bytes[20..28], &[0u8; 8]);
    assert_eq!(&bytes[28..48], hash.as_slice());
    assert_eq!(&bytes[48..68], &id);

    let mut remote = PeerHandshake::new(hash.clone(), [b'y'; 20]).as_bytes();
    assert_eq!(hs.verify(&remote), Ok(()));
    remote[30] ^= 1;
    assert_eq!(hs.verify(&remote), Err(PeerError::Handshake));
    assert_eq!(hs.verify(&remote[..30]), Err(PeerError::Handshake));
}

#[test]
fn session_state_follows_messages() {
    let mut s = PeerState::new(2);
    assert!(s.am_choking && s.peer_choking && !s.am_interested && !s.peer_interested);
    assert_eq!(s.handle(PeerMessage::Unchoke), None);
    assert!(!s.peer_choking);
    assert_eq!(s.handle(PeerMessage::Interested), None);
    assert!(s.peer_interested);
    assert_eq!(s.handle(PeerMessage::Have(9)), None);
    assert_eq!(s.bitfield, vec![0, 0x40]);
    assert_eq!(s.handle(PeerMessage::Have(100)), None);
    assert_eq!(s.bitfield, vec![0, 0x40]);
    assert_eq!(s.handle(PeerMessage::Bitfield(vec![0xf0, 0x0f])), None);
    assert_eq!(s.bitfield, vec![0xf0, 0x0f]);
    assert_eq!(s.handle(PeerMessage::Piece(1, 2, vec![3])), Some((1, 2, vec![3])));
    assert_eq!(s.handle(PeerMessage::Request(1, 2, 3)), None);
    assert_eq!(s.handle(PeerMessage::Choke), None);
    assert!(s.peer_choking);
    assert_eq!(s.handle(PeerMessage::NotInterested), None);
    assert!(!s.peer_interested);
}

fn peer_dict(id: &[u8], ip: &[u8], port: isize) -> Dictionary {
    let mut d = Dictionary::new();
    d.insert(ByteString(b"peer id".to_vec()), Value::ByteString(ByteString(id.to_vec())));
    d.insert(ByteString(b"ip".to_vec()), Value::ByteString(ByteString(ip.to_vec())));
    d.insert(ByteString(b"port".to_vec()), Value::Integer(Integer(port)));
    d
}

#[test]
fn peer_from_dictionary_and_address() {
    let p = Peer::from_dictionary(&peer_dict(b"abc", b"10.0.0.1", 6881)).unwrap();
    assert_eq!(p.id(), &b"abc".to_vec());
    assert_eq!(p.ip(), &b"10.0.0.1".to_vec());
    assert_eq!(p.port(), 6881);
    assert_eq!(p.socket_address().unwrap(), b"10.0.0.1:6881".to_vec());

    let v6 = Peer::from_dictionary(&peer_dict(b"abc", b"2606:6080::1", 1)).unwrap();
    assert_eq!(v6.socket_address(), Err(PeerError::UnsupportedAddress));

    assert_eq!(Peer::from_dictionary(&peer_dict(b"a", b"b", 70000)).unwrap_err(), TrackerError::InvalidPort);
    let mut missing = Dictionary::new();
    missing.insert(ByteString(b"ip".to_vec()), Value::ByteString(ByteString(b"x".to_vec())));
    assert_eq!(
        Peer::from_dictionary(&missing).unwrap_err(),
        TrackerError::Bencode(rip_lib::BencodeError::MissingKey)
    );
}

#[test]
fn block_requests_cover_a_piece() {
    assert_eq!(block_request(0, 0, 40000, 100000), Some(PeerMessage::Request(0, 0, BLOCK_LENGTH)));
    assert_eq!(block_request(0, 32768, 40000, 100000), Some(PeerMessage::Request(0, 32768, 40000 - 32768)));
    assert_eq!(block_request(0, 40000, 40000, 100000), None);
    assert_eq!(block_request(2, 0, 40000, 100000), Some(PeerMessage::Request(2, 0, 16384)));
    assert_eq!(block_request(2, 16384, 40000, 100000), Some(PeerMessage::Request(2, 16384, 20000 - 16384)));
    assert_eq!(block_request(3, 0, 40000, 100000), None);
}

#[test]
fn bit_queries() {
    let bits = vec![0b1000_0001, 0];
    assert!(has_bit(&bits, 0));
    assert!(has_bit(&bits, 7));
    assert!(!has_bit(&bits, 1));
    assert!(!has_bit(&bits, 8));
    assert!(!has_bit(&bits, 99));
}

#[test]
fn requests_follow_the_peer_bitfield() {
    let bits = vec![0b1010_0000];
    let plan = plan_requests(&bits, 3, 20000, 50000);
    assert_eq!(
        plan,
        vec![
            PeerMessage::Request(0, 0, 16384),
            PeerMessage::Request(0, 16384, 20000 - 16384),
            PeerMessage::Request(2, 0, 10000),
        ]
    );
    assert!(plan_requests(&vec![0], 8, 10, 80).is_empty());
}

#[test]
fn handshake_must_be_68_bytes() {
    let hash: Vec<u8> = (0..20).collect();
    let hs = PeerHandshake::new(hash.clone(), [b'x'; 20]);
    let mut short = hash.clone();
    short.extend_from_slice(&[0u8; 20]);
    assert_eq!(short.len(), 40);
    assert_eq!(hs.verify(&short), Err(PeerError::Handshake));
    let mut long = PeerHandshake::new(hash.clone(), [b'y'; 20]).as_bytes();
    long.push(0);
    assert_eq!(hs.verify(&long), Err(PeerError::Handshake));
    let mut other_id = PeerHandshake::new(hash, [b'z'; 20]).as_bytes();
    assert_eq!(hs.verify(&other_id), Ok(()));
    other_id[0] = 0;
    assert_eq!(hs.verify(&other_id), Ok(()));
}

#[test]
fn frame_prefixes() {
    assert_eq!(frame_length(&[0, 0, 0, 0]), Ok(None));
    assert_eq!(frame_length(&[0, 0, 1, 2]), Ok(Some(258)));
    assert_eq!(frame_length(&[0, 0, 1]), Err(PeerError::MalformedFrame));
}

#[test]
fn requests_sent_once_after_unchoke() {
    let mut s = PeerState::new(1);
    s.handle(PeerMessage::Bitfield(vec![0x80]));
    assert!(s.take_requests(1, 10, 10).is_empty());
    s.handle(PeerMessage::Unchoke);
    assert_eq!(s.take_requests(1, 10, 10), vec![PeerMessage::Request(0, 0, 10)]);
    assert!(s.requested);
    assert!(s.take_requests(1, 10, 10).is_empty());
}
