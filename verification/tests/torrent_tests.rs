use btcore::bencode::encode;
use btcore::bencode::Bencode;
use btcore::calculate_hash;
use btcore::BtError;
use btcore::FileInfo;
use btcore::MetaField;
use btcore::Torrent;

#[test]
fn test_new_torrent_from_bytes() {
    let input_info = "d6:lengthi420e12:piece lengthi512e6:pieces20:01234567890123456789e";
    let expected_hash = calculate_hash(input_info.as_bytes());
    let input = format!("d8:announce8:fake_url4:info{}e", input_info);

    let expected_torrent = Torrent {
        announce: "fake_url".to_string(),
        length: 420_i64,
        hash: expected_hash,
        piece_length: 512,
        piece_hashes: vec!["3031323334353637383930313233343536373839".to_string()],
    };

    let actual_torrent = Torrent::new(input.as_bytes()).unwrap();

    assert_eq!(expected_torrent, actual_torrent);
}

#[test]
fn test_torrent_field_errors() {
    assert_eq!(Torrent::new("x".as_bytes()).unwrap_err(), BtError::Malformed);
    assert_eq!(
        Torrent::new("le".as_bytes()).unwrap_err(),
        BtError::InvalidMetainfo(MetaField::TopLevel)
    );
    assert_eq!(
        Torrent::new("d4:infod6:lengthi1e12:piece lengthi1e6:pieces20:01234567890123456789ee".as_bytes())
            .unwrap_err(),
        BtError::InvalidMetainfo(MetaField::Announce)
    );
    assert_eq!(
        Torrent::new("d8:announce8:fake_urle".as_bytes()).unwrap_err(),
        BtError::InvalidMetainfo(MetaField::Info)
    );
    // Two piece digests for a single-piece length.
    let bad_counts =
        "d8:announce8:fake_url4:infod6:lengthi420e12:piece lengthi512e6:pieces40:0123456789012345678901234567890123456789ee";
    assert_eq!(
        Torrent::new(bad_counts.as_bytes()).unwrap_err(),
        BtError::InvalidMetainfo(MetaField::Pieces)
    );
}

#[test]
fn test_torrent_lossy_announce() {
    // An announce that is not valid UTF-8 is replaced, not rejected.
    let info_entries = vec![
        ("length".as_bytes().to_vec(), Bencode::Int(1)),
        ("piece length".as_bytes().to_vec(), Bencode::Int(1)),
        (
            "pieces".as_bytes().to_vec(),
            Bencode::Bytes("01234567890123456789".as_bytes().to_vec()),
        ),
    ];
    let top = Bencode::Dict(vec![
        ("announce".as_bytes().to_vec(), Bencode::Bytes(vec![102, 255])),
        ("info".as_bytes().to_vec(), Bencode::Dict(info_entries)),
    ]);
    let bytes = encode(&top);
    let torrent = Torrent::new(&bytes).unwrap();
    assert_eq!(torrent.announce, "f\u{FFFD}");
}

#[test]
fn test_file_info_layout() {
    let input_info = "d6:lengthi40960e12:piece lengthi16384e6:pieces60:012345678901234567890123456789012345678901234567890123456789e";
    let input = format!("d8:announce8:fake_url4:info{}e", input_info);
    let torrent = Torrent::new(input.as_bytes()).unwrap();
    assert_eq!(torrent.piece_hashes.len(), 3);

    let file_info = FileInfo::new("/tmp/out".to_string(), &torrent);
    assert_eq!(file_info.pieces.len(), 3);
    assert_eq!(file_info.pieces[0].data.len(), 16384);
    assert_eq!(file_info.pieces[1].data.len(), 16384);
    assert_eq!(file_info.pieces[2].data.len(), 8192);
    assert!(!file_info.is_complete());
}

#[test]
fn test_file_info_full_last_piece() {
    // A length that is an exact multiple of the piece length keeps the
    // last piece at full size.
    let input_info = "d6:lengthi32768e12:piece lengthi16384e6:pieces40:0123456789012345678901234567890123456789e";
    let input = format!("d8:announce8:fake_url4:info{}e", input_info);
    let torrent = Torrent::new(input.as_bytes()).unwrap();
    let file_info = FileInfo::new("/tmp/out".to_string(), &torrent);
    assert_eq!(file_info.pieces.len(), 2);
    assert_eq!(file_info.pieces[1].data.len(), 16384);
}
