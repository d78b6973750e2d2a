use bencode::BencodeValue;
use bencode::ByteString;
use bencode::Decodable;
use bencode::Encodable;
use bencode::File;
use bencode::Info;
use bencode::trackers::create_parameters;
use bencode::url_encode;

#[test]
fn decode_file_succeds() {
    let input = "d6:lengthi5e4:pathl1:a1:bee".as_bytes().to_vec();
    let file = File::read(&input).unwrap();

    assert_eq!(5, file.length);
    assert_eq!(2, file.path.len());
    assert_eq!(vec!["a".to_string(), "b".to_string()], file.path);
}

#[test]
fn decode_fn_succeeds_string() {
    let value: String = String::decode(&BencodeValue::String("asdf".to_string())).unwrap();

    assert_eq!("asdf", value);
}

#[test]
fn decode_info_succeeds() {
    let input = "d4:name4:name12:piece lengthi1e6:pieces1:56:lengthi11ee"
        .as_bytes()
        .to_vec();
    let info = Info::read(&input).unwrap();

    assert_eq!("name", info.name);
    assert_eq!(1, info.piece_length);
    assert_eq!(1, info.pieces.len());
    assert_eq!(ByteString::new(vec![b'5']), info.pieces);
    assert!(info.length.is_some());
    assert_eq!(Some(11), info.length);
}

#[test]
fn encode_info_succeeds() {
    let info = Info {
        name: "name".to_string(),
        piece_length: 5,
        pieces: ByteString::new("pieces".to_string().into_bytes()),
        length: Some(10),
        files: None,
        private: None,
        source: None,
    };

    let encoded = info.encode().unwrap();
    assert_eq!(
        "d6:lengthi10e4:name4:name12:piece lengthi5e6:pieces6:piecese"
            .to_string()
            .into_bytes(),
        encoded
    );
}

#[test]
fn trackers_get_host_and_path_splits_correct() {
    let (host, path) =
        bencode::http::get_host_and_path("http://tracker.archlinux.org:6969/announce").unwrap();

    assert_eq!("tracker.archlinux.org:6969", host);
    assert_eq!("/announce", path);
}

#[test]
fn create_parameters_creates_query_url() {
    let info = Info {
        name: "file".to_string(),
        piece_length: 20,
        pieces: ByteString::new(vec![b'a', b'b', b'c', b'd']),
        length: Some(5),
        files: None,
        private: None,
        source: None,
    };

    let peer_id = vec![
        0u8, 1u8, 2u8, 3u8, 4u8, 5u8, 6u8, 7u8, 9u8, b'A', b'B', b'C', b'D', b'E', b'F', b'G',
        b'H', b'I', b'J', b'K',
    ];
    let parameter_str = create_parameters(&peer_id, 6881, &info);

    assert_eq!(
        format!(
            "{}{}{}{}{}{}",
            "?downloaded=0",
            "&info_hash=%7B%BB%B1%F8%A7%A9R%E3%B0I%F6k%F7%98%7D%2C%DB%8AL%85",
            "&left=5",
            "&peer_id=%00%01%02%03%04%05%06%07%09ABCDEFGHIJK",
            "&port=6881",
            "&uploaded=0"
        ),
        parameter_str
    );
}

#[test]
fn url_encode_encodes_correct() {
    let input = vec![b'a', b'A', 0, b'('];
    let output = url_encode(&input);

    assert_eq!("aA%00%28", output);
}
