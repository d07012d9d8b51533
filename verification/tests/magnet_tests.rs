use btcore::BtError;
use btcore::MagnetLink;

#[test]
fn test_from_str() {
    let input = "magnet:?\
            xt=urn:btih:d69f91e6b2ae4c542468d1073a71d4ea13879a7f&\
            dn=sample.torrent&\
            tr=http%3A%2F%2Fbittorrent-test-tracker.codecrafters.io%2Fannounce";

    let expected = MagnetLink {
        hash: "d69f91e6b2ae4c542468d1073a71d4ea13879a7f".to_string(),
        file_name: "sample.torrent".to_string(),
        tracker_url: "http://bittorrent-test-tracker.codecrafters.io/announce".to_string(),
    };

    assert_eq!(expected, input.parse().unwrap());
}

#[test]
fn test_magnet_not_magnet() {
    let r: Result<MagnetLink, BtError> = "http://example/announce".parse();
    assert_eq!(r.unwrap_err(), BtError::InvalidMagnet);
}

#[test]
fn test_magnet_unknown_key() {
    let r = MagnetLink::parse("magnet:?xs=something");
    assert_eq!(r.unwrap_err(), BtError::InvalidMagnet);
}

#[test]
fn test_magnet_missing_hash() {
    let r = MagnetLink::parse("magnet:?dn=sample.torrent");
    assert_eq!(r.unwrap_err(), BtError::InvalidMagnet);
}

#[test]
fn test_magnet_bad_hash() {
    let r = MagnetLink::parse("magnet:?xt=urn:btih:tooshort");
    assert_eq!(r.unwrap_err(), BtError::InvalidMagnet);
}

#[test]
fn test_magnet_optional_fields_default_empty() {
    let m = MagnetLink::parse("magnet:?xt=urn:btih:d69f91e6b2ae4c542468d1073a71d4ea13879a7f")
        .unwrap();
    assert_eq!(m.hash, "d69f91e6b2ae4c542468d1073a71d4ea13879a7f");
    assert_eq!(m.file_name, "");
    assert_eq!(m.tracker_url, "");
}
