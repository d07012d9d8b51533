use btcore::bencode::decode;
use btcore::bencode::encode;
use btcore::bencode::Bencode;

fn bytes_val(s: &str) -> Bencode {
    Bencode::Bytes(s.as_bytes().to_vec())
}

#[test]
fn test_decodeing() {
    match decode("5:hello".as_bytes()).unwrap() {
        Bencode::Bytes(b) => assert_eq!(b, "hello".as_bytes().to_vec()),
        _ => panic!("expected a byte string"),
    }
    match decode("3:foo".as_bytes()).unwrap() {
        Bencode::Bytes(b) => assert_eq!(b, "foo".as_bytes().to_vec()),
        _ => panic!("expected a byte string"),
    }
}

#[test]
fn test_decode_integer() {
    match decode("i5e".as_bytes()).unwrap() {
        Bencode::Int(i) => assert_eq!(i, 5),
        _ => panic!("expected an integer"),
    }
    match decode("i42e".as_bytes()).unwrap() {
        Bencode::Int(i) => assert_eq!(i, 42),
        _ => panic!("expected an integer"),
    }
    match decode("i-1e".as_bytes()).unwrap() {
        Bencode::Int(i) => assert_eq!(i, -1),
        _ => panic!("expected an integer"),
    }
    match decode("i-1234e".as_bytes()).unwrap() {
        Bencode::Int(i) => assert_eq!(i, -1234),
        _ => panic!("expected an integer"),
    }
}

#[test]
fn test_decode_list() {
    match decode("l5:helloi52ee".as_bytes()).unwrap() {
        Bencode::List(items) => {
            assert_eq!(items.len(), 2);
            match &items[0] {
                Bencode::Bytes(b) => assert_eq!(b, &"hello".as_bytes().to_vec()),
                _ => panic!("expected a byte string"),
            }
            match &items[1] {
                Bencode::Int(i) => assert_eq!(*i, 52),
                _ => panic!("expected an integer"),
            }
        }
        _ => panic!("expected a list"),
    }
    match decode("l3:fooe".as_bytes()).unwrap() {
        Bencode::List(items) => {
            assert_eq!(items.len(), 1);
            match &items[0] {
                Bencode::Bytes(b) => assert_eq!(b, &"foo".as_bytes().to_vec()),
                _ => panic!("expected a byte string"),
            }
        }
        _ => panic!("expected a list"),
    }
    match decode("le".as_bytes()).unwrap() {
        Bencode::List(items) => assert_eq!(items.len(), 0),
        _ => panic!("expected a list"),
    }
}

#[test]
fn test_decode_dictionary() {
    match decode("d3:foo3:bar5:helloi52ee".as_bytes()).unwrap() {
        Bencode::Dict(entries) => {
            assert_eq!(entries.len(), 2);
            assert_eq!(entries[0].0, "foo".as_bytes().to_vec());
            match &entries[0].1 {
                Bencode::Bytes(b) => assert_eq!(b, &"bar".as_bytes().to_vec()),
                _ => panic!("expected a byte string"),
            }
            assert_eq!(entries[1].0, "hello".as_bytes().to_vec());
            match &entries[1].1 {
                Bencode::Int(i) => assert_eq!(*i, 52),
                _ => panic!("expected an integer"),
            }
        }
        _ => panic!("expected a dictionary"),
    }
    match decode("de".as_bytes()).unwrap() {
        Bencode::Dict(entries) => assert_eq!(entries.len(), 0),
        _ => panic!("expected a dictionary"),
    }
}

#[test]
fn test_encode_string() {
    assert_eq!(encode(&bytes_val("hello")), "5:hello".as_bytes());
    assert_eq!(encode(&bytes_val("foo")), "3:foo".as_bytes());
    assert_eq!(encode(&bytes_val("")), "0:".as_bytes());
    assert_eq!(encode(&bytes_val("\x00")), vec![b'1', b':', b'\x00']);
}

#[test]
fn test_encode_integer() {
    assert_eq!(encode(&Bencode::Int(420)), "i420e".as_bytes());
    assert_eq!(encode(&Bencode::Int(-69)), "i-69e".as_bytes());
}

#[test]
fn test_encode_list() {
    assert_eq!("le".as_bytes(), encode(&Bencode::List(vec![])));

    let input = vec![Bencode::Int(420), bytes_val("hello")];
    let expected = "li420e5:helloe".as_bytes();
    assert_eq!(expected, encode(&Bencode::List(input)));
}

#[test]
fn test_encode_dictionary() {
    let expected = "de".as_bytes();
    assert_eq!(expected, encode(&Bencode::Dict(vec![])));

    // Entries arrive in insertion order; the encoder emits them in
    // lexicographic key order.
    let input = vec![
        ("foo".as_bytes().to_vec(), bytes_val("bar")),
        ("baz".as_bytes().to_vec(), Bencode::Int(69)),
    ];
    let expected = "d3:bazi69e3:foo3:bare".as_bytes();
    assert_eq!(expected, encode(&Bencode::Dict(input)));

    let input = vec![
        ("foo".as_bytes().to_vec(), bytes_val("bar")),
        ("baz".as_bytes().to_vec(), Bencode::Int(69)),
        ("a".as_bytes().to_vec(), bytes_val("first")),
        ("z".as_bytes().to_vec(), bytes_val("last")),
    ];
    let expected = "d1:a5:first3:bazi69e3:foo3:bar1:z4:laste".as_bytes();
    assert_eq!(expected, encode(&Bencode::Dict(input)));
}

#[test]
fn test_encode_sorts_nested_dictionaries() {
    let inner = vec![
        ("b".as_bytes().to_vec(), Bencode::Int(2)),
        ("a".as_bytes().to_vec(), Bencode::Int(1)),
    ];
    let input = Bencode::List(vec![Bencode::Dict(inner)]);
    assert_eq!(encode(&input), "ld1:ai1e1:bi2eee".as_bytes());
}

#[test]
fn test_bencode_roundtrip() {
    let input = "d3:foo3:bar5:helloi52ee".as_bytes();
    let value = decode(input).unwrap();
    assert_eq!(encode(&value), input);
}

#[test]
fn test_strict_decoding_rejections() {
    assert!(decode("i-0e".as_bytes()).is_err());
    assert!(decode("i03e".as_bytes()).is_err());
    assert!(decode("01:a".as_bytes()).is_err());
    assert!(decode("i5ex".as_bytes()).is_err());
    assert!(decode("d3:foo3:bar5:helloi52ee3:extra".as_bytes()).is_err());
    assert!(decode("d3:foo3:bar1:ai1ee".as_bytes()).is_err());
    assert!(decode("dle".as_bytes()).is_err());
    assert!(decode("".as_bytes()).is_err());
}
