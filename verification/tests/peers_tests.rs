use btcore::bencode::encode;
use btcore::bencode::Bencode;
use btcore::calculate_hash;
use btcore::peers::build_extension_handshake;
use btcore::peers::build_handshake;
use btcore::peers::build_metadata_request;
use btcore::peers::generate_peer_id;
use btcore::peers::metadata_matches;
use btcore::peers::parse_extension_handshake;
use btcore::peers::parse_handshake;
use btcore::peers::parse_metadata_response;
use btcore::peers::parse_peers;
use btcore::peers::prepare_hash;
use btcore::peers::tracker_url;
use btcore::peers::ExtensionMessage;
use btcore::peers::ExtensionMessageId;
use btcore::peers::HandshakeReservedBytes;
use btcore::peers::HandshakeResponse;
use btcore::peers::PeerMessage;
use btcore::peers::PeerMessageId;
use btcore::peers::SupportedExtensions;
use btcore::BtError;
use btcore::FileInfo;
use btcore::IpAddress;
use btcore::MagnetLink;
use btcore::Torrent;

#[test]
fn test_shake_hands() {
    let hash_hex = hex::encode("12345678901234567890");
    let peer_id = "00112233445566778899";

    let mut handshake = Vec::<u8>::new();
    handshake.push(19);
    handshake.extend_from_slice(b"BitTorrent protocol");
    handshake.extend_from_slice(&[0_u8; 8]);
    handshake.extend_from_slice(&hex::decode(&hash_hex).unwrap());
    handshake.extend_from_slice(peer_id.as_bytes());

    let built = build_handshake(&hash_hex, peer_id, HandshakeReservedBytes::empty()).unwrap();
    assert_eq!(built, handshake);

    let expected_response = HandshakeResponse {
        encoded_peer_id: hex::encode(peer_id),
        reserved_bytes: HandshakeReservedBytes::empty(),
    };
    let actual_response = parse_handshake(&handshake).unwrap();
    assert_eq!(expected_response, actual_response);
}

#[test]
fn test_shake_hands_with_extensions() {
    let hash_hex = hex::encode("12345678901234567890");
    let peer_id = "00112233445566778899";

    let mut handshake = Vec::<u8>::new();
    handshake.push(19);
    handshake.extend_from_slice(b"BitTorrent protocol");
    handshake.extend_from_slice(&HandshakeReservedBytes::extensions_enabled().bits().to_be_bytes());
    handshake.extend_from_slice(&hex::decode(&hash_hex).unwrap());
    handshake.extend_from_slice(peer_id.as_bytes());

    let built =
        build_handshake(&hash_hex, peer_id, HandshakeReservedBytes::extensions_enabled()).unwrap();
    assert_eq!(built, handshake);

    let actual_response = parse_handshake(&handshake).unwrap();
    assert_eq!(actual_response.reserved_bytes, HandshakeReservedBytes::extensions_enabled());
    assert!(actual_response.reserved_bytes.contains_extensions());
}

#[test]
fn test_handshake_rejects_short_reads() {
    assert_eq!(parse_handshake(&[0_u8; 67]).unwrap_err(), BtError::ShortHandshake);
    assert_eq!(
        build_handshake("nothex", "00112233445566778899", HandshakeReservedBytes::empty())
            .unwrap_err(),
        BtError::Malformed
    );
}

#[test]
fn test_peer_message_framing() {
    assert_eq!(PeerMessage::keep_alive().to_bytes(), vec![0, 0, 0, 0]);
    assert_eq!(PeerMessage::interested().to_bytes(), vec![0, 0, 0, 1, 2]);

    let msg = PeerMessage::from_wire(5, vec![1, 2, 3]).unwrap();
    assert_eq!(msg.id, PeerMessageId::Bitfield);
    assert_eq!(msg.payload, vec![1, 2, 3]);
    assert_eq!(msg.to_bytes(), vec![0, 0, 0, 4, 5, 1, 2, 3]);

    assert_eq!(PeerMessage::from_wire(9, vec![]).unwrap_err(), BtError::UnknownPeerMessage(9));
}

fn three_piece_file() -> FileInfo {
    let input_info = "d6:lengthi40960e12:piece lengthi16384e6:pieces60:012345678901234567890123456789012345678901234567890123456789e";
    let input = format!("d8:announce8:fake_url4:info{}e", input_info);
    let torrent = Torrent::new(input.as_bytes()).unwrap();
    FileInfo::new("/tmp/out".to_string(), &torrent)
}

#[test]
fn test_process_bitfield_then_unchoke() {
    let mut file_info = three_piece_file();

    let bitfield = PeerMessage { id: PeerMessageId::Bitfield, payload: vec![0xe0] };
    let replies = bitfield.process(&mut file_info).unwrap();
    assert_eq!(replies.len(), 1);
    assert_eq!(replies[0].id, PeerMessageId::Interested);

    let unchoke = PeerMessage { id: PeerMessageId::Unchoke, payload: vec![] };
    let requests = unchoke.process(&mut file_info).unwrap();
    assert_eq!(requests.len(), 3);
    assert_eq!(requests[0].id, PeerMessageId::Request);
    assert_eq!(requests[0].payload, vec![0, 0, 0, 0, 0, 0, 0, 0, 0, 0, 0x40, 0]);
    assert_eq!(requests[1].payload, vec![0, 0, 0, 1, 0, 0, 0, 0, 0, 0, 0x40, 0]);
    assert_eq!(requests[2].payload, vec![0, 0, 0, 2, 0, 0, 0, 0, 0, 0, 0x20, 0]);
}

#[test]
fn test_process_piece_and_violations() {
    let mut file_info = three_piece_file();

    let mut payload = vec![0, 0, 0, 2, 0, 0, 0, 0];
    payload.extend_from_slice(&[1_u8; 8192]);
    let piece_msg = PeerMessage { id: PeerMessageId::Piece, payload };
    let replies = piece_msg.process(&mut file_info).unwrap();
    assert_eq!(replies.len(), 0);
    assert!(file_info.pieces[2].is_complete());
    assert!(!file_info.is_complete());
    assert_eq!(file_info.pieces[2].data[0], 1);

    let keep_alive = PeerMessage::keep_alive();
    assert_eq!(keep_alive.process(&mut file_info).unwrap().len(), 0);

    let choke = PeerMessage { id: PeerMessageId::Choke, payload: vec![] };
    assert_eq!(choke.process(&mut file_info).unwrap_err(), BtError::ProtocolViolation);

    let bad_index = PeerMessage { id: PeerMessageId::Piece, payload: vec![0, 0, 0, 9, 0, 0, 0, 0, 1] };
    assert_eq!(bad_index.process(&mut file_info).unwrap_err(), BtError::ProtocolViolation);
}

#[test]
fn test_shake_hands_extension() {
    let payload = "d1:md11:ut_metadatai1eee".as_bytes();

    let mut expected = Vec::<u8>::new();
    expected.extend_from_slice(&u32::to_be_bytes(payload.len() as u32 + 2));
    expected.push(20);
    expected.push(0);
    expected.extend_from_slice(payload);

    assert_eq!(build_extension_handshake(), expected);

    let actual_extensions = parse_extension_handshake(&expected[4..]).unwrap();
    assert_eq!(actual_extensions, SupportedExtensions::my_supported());

    let none = parse_extension_handshake("d1:mdee".as_bytes()).unwrap_err();
    assert_eq!(none, BtError::Malformed);
}

#[test]
fn test_tracker_request_url() {
    assert_eq!(prepare_hash("abcd1234"), "%ab%cd%12%34");

    let torrent = Torrent {
        announce: "http://tracker/announce".to_string(),
        length: 1337,
        hash: "abcd1234abcd1234abcd1234abcd1234abcd1234".to_string(),
        piece_length: 0,
        piece_hashes: Vec::new(),
    };
    let url = tracker_url(&torrent, "00112233445566778899");
    let expected = "http://tracker/announce?info_hash=%ab%cd%12%34%ab%cd%12%34%ab%cd%12%34%ab%cd%12%34%ab%cd%12%34&peer_id=00112233445566778899&port=6881&uploaded=0&downloaded=0&left=1337&compact=1";
    assert_eq!(url, expected);
}

#[test]
fn test_fetch_peers_response_parsing() {
    let expected_peers = vec![
        IpAddress { address: [161, 35, 46, 221], port: 51414 },
        IpAddress { address: [159, 65, 84, 183], port: 51444 },
        IpAddress { address: [167, 172, 57, 188], port: 51413 },
    ];

    let mut blob = Vec::<u8>::new();
    for peer in &expected_peers {
        blob.extend_from_slice(&peer.to_bytes());
    }
    let body = encode(&Bencode::Dict(vec![("peers".as_bytes().to_vec(), Bencode::Bytes(blob))]));

    let actual_peers = parse_peers(&body).unwrap();
    assert_eq!(expected_peers, actual_peers);

    let empty = encode(&Bencode::Dict(vec![]));
    assert_eq!(parse_peers(&empty).unwrap_err(), BtError::BadTrackerResponse);
}

#[test]
fn test_metadata_matches_ignores_hash_case() {
    let info = "d6:lengthi420e12:piece lengthi512e6:pieces20:01234567890123456789e".as_bytes();
    let h = calculate_hash(info);
    assert!(metadata_matches(info, &h));
    assert!(metadata_matches(info, &h.to_uppercase()));
    assert!(!metadata_matches(info, "0000000000000000000000000000000000000000"));
    assert!(!metadata_matches(info, "short"));
}

#[test]
fn test_generate_peer_id_shape() {
    let id = generate_peer_id();
    assert_eq!(id.len(), 20);
    assert!(id.chars().all(|c| c.is_ascii_alphanumeric()));
}

#[test]
fn test_magnet_metadata_flow() {
    let info = "d6:lengthi420e12:piece lengthi512e6:pieces20:01234567890123456789e".as_bytes();
    let h = calculate_hash(info);

    let uri = format!("magnet:?xt=urn:btih:{}&tr=http%3A%2F%2Ftracker%2Fannounce", h);
    let link = MagnetLink::parse(&uri).unwrap();
    assert_eq!(link.hash, h);
    assert_eq!(link.tracker_url, "http://tracker/announce");

    let peer_id = generate_peer_id();
    let handshake =
        build_handshake(&link.hash, &peer_id, HandshakeReservedBytes::extensions_enabled())
            .unwrap();
    assert_eq!(handshake.len(), 68);
    assert_eq!(handshake[25], 0x10);

    let peer_dict = "d1:md11:ut_metadatai7eee".as_bytes();
    let mut ext_payload = vec![20, 0];
    ext_payload.extend_from_slice(peer_dict);
    let extensions = parse_extension_handshake(&ext_payload).unwrap();
    assert_eq!(extensions.ut_metadata, Some(7));

    let request = build_metadata_request(7, 0);
    assert_eq!(request[0], 7);
    assert_eq!(&request[1..], "d8:msg_typei0e5:piecei0ee".as_bytes());

    let header = format!("d8:msg_typei1e5:piecei0e10:total_sizei{}ee", info.len());
    let mut response = vec![1];
    response.extend_from_slice(header.as_bytes());
    response.extend_from_slice(info);

    let parsed = ExtensionMessage::from_bytes(&response).unwrap();
    assert_eq!(parsed.id, ExtensionMessageId::MetadataResponse);
    assert_eq!(parsed.dictionary.msg_type, 1);
    assert_eq!(parsed.dictionary.piece, 0);

    let (piece, info_bytes) = parse_metadata_response(&response).unwrap();
    assert_eq!(piece, 0);
    assert_eq!(info_bytes, info.to_vec());
    assert!(metadata_matches(&info_bytes, &link.hash));

    let torrent = Torrent::from_info_bytes(link.tracker_url.clone(), &info_bytes).unwrap();
    assert_eq!(torrent.announce, "http://tracker/announce");
    assert_eq!(torrent.length, 420);
    assert_eq!(torrent.piece_length, 512);
    assert_eq!(torrent.hash, h);
    assert_eq!(torrent.piece_hashes.len(), 1);
}
