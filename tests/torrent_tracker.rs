use rip_lib::{
    encode, Agent, BencodeError, ByteString, Dictionary, DownloadBuffer, DownloadSession, Integer, List, PeerError,
    PeerStatus, SessionAction, SessionEvent, Torrent, TorrentError, TrackerError, TrackerRequest, TrackerResponse,
    Value,
};

fn bs(s: &[u8]) -> Value {
    Value::ByteString(ByteString(s.to_vec()))
}

fn ival(x: isize) -> Value {
    Value::Integer(Integer(x))
}

fn key(s: &str) -> ByteString {
    ByteString(s.as_bytes().to_vec())
}

fn single_info(length: isize, pieces_len: usize) -> Dictionary {
    let mut info = Dictionary::new();
    info.insert(key("name"), bs(b"hello.txt"));
    info.insert(key("piece length"), ival(4));
    info.insert(key("pieces"), bs(&vec![7u8; pieces_len]));
    info.insert(key("length"), ival(length));
    info
}

fn descriptor(info: Dictionary, announce: &[u8]) -> Vec<u8> {
    let mut top = Dictionary::new();
    top.insert(key("announce"), bs(announce));
    top.insert(key("info"), Value::Dictionary(info));
    encode(&Value::Dictionary(top))
}

#[test]
fn single_file_torrent() {
    let info = single_info(10, 60);
    let info_bytes = encode(&Value::Dictionary(single_info(10, 60)));
    let bytes = descriptor(info, b"http://tracker.test/announce");
    let t = Torrent::from_bcode(&bytes).unwrap();
    assert_eq!(t.announce, "http://tracker.test/announce");
    assert!(t.info.is_single_file);
    assert_eq!(t.info.files.len(), 1);
    assert_eq!(t.info.files[0].length, 10);
    assert_eq!(t.info.name, b"hello.txt".to_vec());
    assert_eq!(t.piece_count(), 3);
    assert_eq!(t.get_bitfield_length(), 1);
    assert_eq!(t.total_length(), 10);
    assert_eq!(t.get_left(), 10);
    assert_eq!(t.get_uploaded(), 0);
    assert_eq!(t.get_downloaded(), 0);
    let expected = sha1_smol::Sha1::from(&info_bytes).digest().bytes().to_vec();
    assert_eq!(t.get_hash(), expected.as_slice());
}

#[test]
fn info_hash_is_stable() {
    let bytes = descriptor(single_info(10, 20), b"http://a/b");
    let a = Torrent::from_bcode(&bytes).unwrap();
    let b = Torrent::parse(&bytes).unwrap();
    assert_eq!(a.get_hash(), b.get_hash());
    assert_eq!(a.get_hash().len(), 20);
}

#[test]
fn multi_file_torrent() {
    let mut info = Dictionary::new();
    info.insert(key("name"), bs(b"dir"));
    info.insert(key("piece length"), ival(16));
    info.insert(key("pieces"), bs(&[1u8; 20]));
    info.insert(key("private"), ival(1));
    let mut f1 = Dictionary::new();
    f1.insert(key("length"), ival(5));
    f1.insert(key("path"), Value::List(List(vec![bs(b"a"), bs(b"b.txt")])));
    let mut f2 = Dictionary::new();
    f2.insert(key("length"), ival(7));
    f2.insert(key("path"), Value::List(List(vec![bs(b"c")])));
    f2.insert(key("md5sum"), bs(b"0123"));
    info.insert(key("files"), Value::List(List(vec![Value::Dictionary(f1), Value::Dictionary(f2)])));
    let t = Torrent::from_bcode(&descriptor(info, b"http://t/")).unwrap();
    assert!(!t.info.is_single_file);
    assert_eq!(t.info.private, Some(true));
    assert_eq!(t.info.files.len(), 2);
    assert_eq!(t.info.files[0].path, vec![b"a".to_vec(), b"b.txt".to_vec()]);
    assert_eq!(t.info.files[1].md5sum, Some(b"0123".to_vec()));
    assert_eq!(t.total_length(), 12);
}

#[test]
fn torrent_errors() {
    assert_eq!(Torrent::from_bcode(b"garbage").unwrap_err(), TorrentError::Bencode(BencodeError::Malformed));
    assert_eq!(Torrent::from_bcode(b"i1e").unwrap_err(), TorrentError::Bencode(BencodeError::WrongType));
    assert_eq!(
        Torrent::from_bcode(&descriptor(single_info(10, 59), b"http://a")).unwrap_err(),
        TorrentError::InvalidPieces
    );
    assert_eq!(
        Torrent::from_bcode(&descriptor(single_info(-1, 20), b"http://a")).unwrap_err(),
        TorrentError::InvalidLength
    );
    assert_eq!(
        Torrent::from_bcode(&descriptor(single_info(1, 20), &[0xff, 0xfe])).unwrap_err(),
        TorrentError::InvalidAnnounce
    );
    let mut no_name = single_info(1, 20);
    no_name.insert(key("name"), ival(3));
    assert_eq!(
        Torrent::from_bcode(&descriptor(no_name, b"http://a")).unwrap_err(),
        TorrentError::Bencode(BencodeError::WrongType)
    );
    let mut top = Dictionary::new();
    top.insert(key("announce"), bs(b"http://a"));
    assert_eq!(
        Torrent::from_bcode(&encode(&Value::Dictionary(top))).unwrap_err(),
        TorrentError::Bencode(BencodeError::MissingKey)
    );
    let mut info = single_info(1, 20);
    let mut f = Dictionary::new();
    f.insert(key("length"), ival(1));
    f.insert(key("path"), Value::List(List(vec![])));
    info.insert(key("files"), Value::List(List(vec![Value::Dictionary(f)])));
    assert_eq!(Torrent::from_bcode(&descriptor(info, b"http://a")).unwrap_err(), TorrentError::EmptyPath);
}

#[test]
fn test_tracker_response_from_bytes() {
    let bytes = b"d8:completei64e10:incompletei1e8:intervali1800e5:peersld2:ip37:2606:6080:1001:12:257a:8b87:f80d:75797:peer id20:-TR4030-0vjbp0s2z68f4:porti61406eed2:ip14:185.125.190.597:peer id20:T03I--00Y-FEdyCcD9xB4:porti6930eeee";
    let response = TrackerResponse::from_bytes(bytes).unwrap();
    assert_eq!(response.interval(), 1800);
    assert_eq!(response.peers().len(), 2);
    assert_eq!(response.peers()[0].port(), 61406);
    assert_eq!(response.peers()[1].ip(), &b"185.125.190.59".to_vec());
}

#[test]
fn tracker_failure_reason() {
    let r = TrackerResponse::from_bytes(b"d14:failure reason9:not founde").unwrap_err();
    assert_eq!(r, TrackerError::Failure(b"not found".to_vec()));
    assert_eq!(
        TrackerResponse::from_bytes(b"d8:intervali-1e5:peerslee").unwrap_err(),
        TrackerError::InvalidInterval
    );
    assert_eq!(
        TrackerResponse::from_bytes(b"d8:intervali5ee").unwrap_err(),
        TrackerError::Bencode(BencodeError::MissingKey)
    );
    assert_eq!(
        TrackerResponse::from_bytes(b"d8:intervali5e5:peersli1eee").unwrap_err(),
        TrackerError::Bencode(BencodeError::WrongType)
    );
    assert_eq!(
        TrackerResponse::from_bytes(b"d8:intervali5e5:peersld2:ip1:x7:peer id1:y4:porti-1eeee").unwrap_err(),
        TrackerError::InvalidPort
    );
    assert_eq!(TrackerResponse::from_bytes(b"d8:intervali5e5:peerslee").unwrap().peers().len(), 0);
}

#[test]
fn tracker_request_url() {
    let bytes = descriptor(single_info(10, 20), b"http://t/ann");
    let torrent = Torrent::from_bcode(&bytes).unwrap();
    let mut agent = Agent::new();
    let id = b"-RP0001-abcdefghijkl".to_vec();
    assert!(TrackerRequest::with(&torrent, &agent, &id).is_err());
    agent.add_torrent(Torrent::from_bcode(&bytes).unwrap());
    let req = TrackerRequest::with(&torrent, &agent, &id).unwrap();
    assert_eq!(req.port, 6881);
    assert_eq!(req.left, 10);
    let hash: String = torrent.get_hash().iter().map(|b| {
        let c = *b as char;
        if c.is_ascii_alphanumeric() || "-._~".contains(c) { c.to_string() } else { format!("%{:02X}", b) }
    }).collect();
    let expected = format!(
        "http://t/ann?info_hash={}&peer_id=-RP0001-abcdefghijkl&port=6881&uploaded=0&downloaded=0&left=10",
        hash
    );
    assert_eq!(req.url(), expected);

    let mut odd = req;
    odd.peer_id = vec![0x00, b' ', 0xff, b'~'];
    assert!(odd.as_url_params().contains("&peer_id=%00%20%FF~&"));

    let fresh = TrackerRequest::from_torrent(&torrent, &agent).unwrap();
    assert_eq!(fresh.peer_id.len(), 20);
    assert!(fresh.peer_id.iter().all(|b| b.is_ascii_alphanumeric()));
}

#[test]
fn agent_registry() {
    let a = Torrent::from_bcode(&descriptor(single_info(10, 20), b"http://one")).unwrap();
    let hash = a.get_hash().to_vec();
    let mut agent = Agent::new();
    assert_eq!(agent.get_file(&hash).unwrap_err(), rip_lib::AgentError::FileNotFound);
    agent.add_torrent(a);
    assert_eq!(agent.get_file(&hash).unwrap().announce, "http://one");
    agent.add_torrent(Torrent::from_bcode(&descriptor(single_info(10, 20), b"http://two")).unwrap());
    assert_eq!(agent.get_file(&hash).unwrap().announce, "http://two");
    assert_eq!(agent.get_port(), 6881);
    assert_eq!(agent.into_torrents().len(), 1);
}

#[test]
fn disjoint_writes_commute() {
    let mut x = DownloadBuffer::new(8, 4);
    let mut y = DownloadBuffer::new(8, 4);
    x.write_piece(0, 1, &[1, 2]).unwrap();
    x.write_piece(1, 0, &[3, 4, 5]).unwrap();
    y.write_piece(1, 0, &[3, 4, 5]).unwrap();
    y.write_piece(0, 1, &[1, 2]).unwrap();
    assert_eq!(x.as_bytes(), y.as_bytes());
    assert_eq!(x.as_bytes(), &[0, 1, 2, 0, 3, 4, 5, 0]);
    assert_eq!(x.write_piece(1, 2, &[9, 9, 9]), Err(PeerError::OutOfBounds));
    assert_eq!(x.write_piece(u32::MAX, u32::MAX, &[9]), Err(PeerError::OutOfBounds));
    assert_eq!(x.as_bytes(), &[0, 1, 2, 0, 3, 4, 5, 0]);
}

#[test]
fn buffer_for_torrent() {
    let t = Torrent::from_bcode(&descriptor(single_info(10, 60), b"http://a")).unwrap();
    let b = DownloadBuffer::for_torrent(&t);
    assert_eq!(b.as_bytes(), &[0u8; 10]);
}

#[test]
fn failed_peer_does_not_block_completion() {
    let mut s = DownloadSession::new(3);
    assert_eq!(s.next_action(), SessionAction::Dial(0));
    assert_eq!(s.next_action(), SessionAction::Dial(1));
    assert_eq!(s.next_action(), SessionAction::Dial(2));
    assert_eq!(s.next_action(), SessionAction::Wait);
    s.on_event(SessionEvent::ConnectFailed(0));
    s.on_event(SessionEvent::Connected(1));
    s.on_event(SessionEvent::Errored(2));
    assert_eq!(s.status(0), Some(PeerStatus::Failed));
    assert_eq!(s.status(1), Some(PeerStatus::Active));
    assert!(!s.is_complete());
    assert_eq!(s.next_action(), SessionAction::Wait);
    s.on_event(SessionEvent::Closed(1));
    assert!(s.is_complete());
    assert_eq!(s.next_action(), SessionAction::Complete);
    assert_eq!(s.status(1), Some(PeerStatus::Finished));
    assert_eq!(s.status(9), None);
}
