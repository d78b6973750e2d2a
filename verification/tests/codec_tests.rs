use bencode::BencodeValue;
use bencode::Decodable;
use bencode::Encodable;
use bencode::ErrorKind;
use bencode::File;
use bencode::Info;
use bencode::InsertOrderMap;
use bencode::encode;
use bencode::read;

fn bytes(text: &str) -> Vec<u8> {
    text.as_bytes().to_vec()
}

#[test]
fn grammar_integer_zero() {
    match read(&bytes("i0e")).unwrap() {
        BencodeValue::Integer(v) => assert_eq!(0, v),
        _ => panic!("not an integer"),
    }
}

#[test]
fn grammar_integer_negative() {
    match read(&bytes("i-5e")).unwrap() {
        BencodeValue::Integer(v) => assert_eq!(-5, v),
        _ => panic!("not an integer"),
    }
}

#[test]
fn grammar_integer_small_positive() {
    match read(&bytes("i4e")).unwrap() {
        BencodeValue::Integer(v) => assert_eq!(4, v),
        _ => panic!("not an integer"),
    }
}

#[test]
fn grammar_integer_empty_digits_fail() {
    assert_eq!(ErrorKind::Format, read(&bytes("ie")).unwrap_err().kind);
    assert_eq!(ErrorKind::Format, read(&bytes("i-e")).unwrap_err().kind);
}

#[test]
fn grammar_integer_leading_zero_is_permissive() {
    match read(&bytes("i012e")).unwrap() {
        BencodeValue::Integer(v) => assert_eq!(12, v),
        _ => panic!("not an integer"),
    }
    match read(&bytes("i-0e")).unwrap() {
        BencodeValue::Integer(v) => assert_eq!(0, v),
        _ => panic!("not an integer"),
    }
}

#[test]
fn grammar_integer_range_limits() {
    match read(&bytes("i9223372036854775807e")).unwrap() {
        BencodeValue::Integer(v) => assert_eq!(i64::MAX, v),
        _ => panic!("not an integer"),
    }
    match read(&bytes("i-9223372036854775808e")).unwrap() {
        BencodeValue::Integer(v) => assert_eq!(i64::MIN, v),
        _ => panic!("not an integer"),
    }
    assert_eq!(
        ErrorKind::Format,
        read(&bytes("i9223372036854775808e")).unwrap_err().kind
    );
}

#[test]
fn grammar_empty_string() {
    match read(&bytes("0:")).unwrap() {
        BencodeValue::String(s) => assert_eq!("", s),
        _ => panic!("not a string"),
    }
}

#[test]
fn grammar_spam_string() {
    match read(&bytes("4:spam")).unwrap() {
        BencodeValue::String(s) => assert_eq!("spam", s),
        _ => panic!("not a string"),
    }
}

#[test]
fn grammar_list_of_strings() {
    match read(&bytes("l4:spam4:eggse")).unwrap() {
        BencodeValue::List(items) => {
            assert_eq!(2, items.len());
            match &items[0] {
                BencodeValue::String(s) => assert_eq!("spam", s),
                _ => panic!("not a string"),
            }
            match &items[1] {
                BencodeValue::String(s) => assert_eq!("eggs", s),
                _ => panic!("not a string"),
            }
        }
        _ => panic!("not a list"),
    }
}

#[test]
fn grammar_dictionary() {
    match read(&bytes("d3:bar4:spam3:fooi42ee")).unwrap() {
        BencodeValue::Dictionary(map) => {
            assert_eq!(2, map.len());
            match map.get(&"bar".to_string()).unwrap() {
                BencodeValue::String(s) => assert_eq!("spam", s),
                _ => panic!("bar was not a string"),
            }
            match map.get(&"foo".to_string()).unwrap() {
                BencodeValue::Integer(v) => assert_eq!(&42, v),
                _ => panic!("foo was not an integer"),
            }
        }
        _ => panic!("not a dictionary"),
    }
}

#[test]
fn truncated_input_is_end_of_stream() {
    assert_eq!(ErrorKind::EndOfStream, read(&bytes("")).unwrap_err().kind);
    assert_eq!(ErrorKind::EndOfStream, read(&bytes("i10")).unwrap_err().kind);
    assert_eq!(ErrorKind::EndOfStream, read(&bytes("4:spa")).unwrap_err().kind);
    assert_eq!(ErrorKind::EndOfStream, read(&bytes("l4:spam")).unwrap_err().kind);
    assert_eq!(ErrorKind::EndOfStream, read(&bytes("d3:foo")).unwrap_err().kind);
}

#[test]
fn unknown_leading_byte_is_format_error() {
    assert_eq!(ErrorKind::Format, read(&bytes("x")).unwrap_err().kind);
}

#[test]
fn non_utf8_bytes_stay_raw() {
    let mut input = bytes("4:");
    input.extend_from_slice(&[0xFF, 0xFE, 0x01, 0x02]);
    match read(&input).unwrap() {
        BencodeValue::ByteString(raw) => assert_eq!(vec![0xFF, 0xFE, 0x01, 0x02], raw),
        _ => panic!("expected raw bytes"),
    }
}

#[test]
fn encode_round_trips_grammar_examples() {
    let examples: Vec<&str> = vec![
        "i0e",
        "i-5e",
        "0:",
        "4:spam",
        "l4:spam4:eggse",
        "d3:bar4:spam3:fooi42ee",
        "d1:ad2:xyi1ee1:bl1:ci-1eee",
    ];
    for example in examples {
        let value = read(&bytes(example)).unwrap();
        assert_eq!(bytes(example), encode(&value));
    }
}

#[test]
fn encode_sorts_dictionary_keys() {
    // Keys arrive unsorted on the wire; the canonical encoder sorts them.
    let value = read(&bytes("d3:foo1:a3:bar1:be")).unwrap();
    assert_eq!(bytes("d3:bar1:b3:foo1:ae"), encode(&value));
}

#[test]
fn encode_is_deterministic_across_insert_orders() {
    let mut one: InsertOrderMap<BencodeValue> = InsertOrderMap::new();
    one.insert("alpha".to_string(), BencodeValue::Integer(1));
    one.insert("beta".to_string(), BencodeValue::Integer(2));

    let mut two: InsertOrderMap<BencodeValue> = InsertOrderMap::new();
    two.insert("beta".to_string(), BencodeValue::Integer(2));
    two.insert("alpha".to_string(), BencodeValue::Integer(1));

    assert_eq!(
        encode(&BencodeValue::Dictionary(one)),
        encode(&BencodeValue::Dictionary(two))
    );
}

#[test]
fn duplicate_wire_keys_overwrite() {
    match read(&bytes("d3:fooi1e3:fooi2ee")).unwrap() {
        BencodeValue::Dictionary(map) => {
            assert_eq!(1, map.len());
            match map.get(&"foo".to_string()).unwrap() {
                BencodeValue::Integer(v) => assert_eq!(&2, v),
                _ => panic!("foo was not an integer"),
            }
        }
        _ => panic!("not a dictionary"),
    }
}

#[test]
fn record_round_trip_through_wire() {
    let file = File { length: 99, path: vec!["x".to_string(), "yz".to_string()] };
    let tree = file.to_bencode().unwrap();
    let wire = encode(&tree);
    assert_eq!(bytes("d6:lengthi99e4:pathl1:x2:yzee"), wire);

    let back = File::read_bytes(&wire).unwrap();
    assert_eq!(99, back.length);
    assert_eq!(vec!["x".to_string(), "yz".to_string()], back.path);
}

#[test]
fn optional_field_absent_is_none() {
    let input = bytes("d4:name1:n12:piece lengthi1e6:pieces1:pe");
    let info = Info::read(&input).unwrap();
    assert_eq!(None, info.length);
    assert_eq!(None, info.private);
    assert_eq!(None, info.source);
    assert!(info.files.is_none());
}

#[test]
fn optional_field_malformed_is_none() {
    // `length` should be an integer; a string there collapses to None
    // instead of failing the whole record.
    let input = bytes("d6:length3:bad4:name1:n12:piece lengthi1e6:pieces1:pe");
    let info = Info::read(&input).unwrap();
    assert_eq!(None, info.length);
    assert_eq!("n", info.name);
}

#[test]
fn required_field_missing_fails_decode() {
    let input = bytes("d12:piece lengthi1e6:pieces1:pe");
    let err = Info::read(&input).unwrap_err();
    assert_eq!(ErrorKind::NotFound, err.kind);
}

#[test]
fn required_field_wrong_shape_fails_decode() {
    let input = bytes("d4:namei7e12:piece lengthi1e6:pieces1:pe");
    let err = Info::read(&input).unwrap_err();
    assert_eq!(ErrorKind::TypeMismatch, err.kind);
}

#[test]
fn override_wire_key_is_used_both_ways() {
    // The static field name is `piece_length`, the wire key `piece length`.
    let decoded = Info::read(&bytes("d4:name1:n12:piece lengthi7e6:pieces1:pe")).unwrap();
    assert_eq!(7, decoded.piece_length);

    let encoded = decoded.encode().unwrap();
    let text = String::from_utf8(encoded).unwrap();
    assert!(text.contains("12:piece lengthi7e"));
    assert!(!text.contains("piece_length"));
}

#[test]
fn byte_string_field_accepts_text_and_raw() {
    let with_text = Info::read(&bytes("d4:name1:n12:piece lengthi1e6:pieces2:ppe")).unwrap();
    assert_eq!(2, with_text.pieces.len());

    let mut raw = bytes("d4:name1:n12:piece lengthi1e6:pieces2:");
    raw.extend_from_slice(&[0xFF, 0xFE]);
    raw.extend_from_slice(b"e");
    let with_raw = Info::read(&raw).unwrap();
    assert_eq!(2, with_raw.pieces.len());
}

#[test]
fn decode_field_reads_single_entry() {
    let value = read(&bytes("d8:intervali1800ee")).unwrap();
    let interval: u32 = bencode::decode::<u32>(&value, "interval").unwrap();
    assert_eq!(1800, interval);

    let missing = bencode::decode::<u32>(&value, "absent").unwrap_err();
    assert_eq!(ErrorKind::NotFound, missing.kind);
}

#[test]
fn integer_narrowing_truncates_silently() {
    // The documented weakness: a 64-bit wire value is narrowed with a
    // plain cast when a narrower target asks for it.
    let value = read(&bytes("i258e")).unwrap();
    let narrowed: u8 = u8::decode(&value).unwrap();
    assert_eq!(2, narrowed);
}

#[test]
fn process_response_reads_tracker_reply() {
    let body = bytes("d8:intervali900e5:peersld2:ip9:127.0.0.14:porti6881eeee");
    let info = bencode::trackers::process_response(&body).unwrap();
    assert_eq!(900, info.interval);
    assert_eq!(1, info.peers.len());
    assert_eq!("127.0.0.1", info.peers[0].ip);
    assert_eq!(6881, info.peers[0].port);
}

#[test]
fn process_response_surfaces_failure_reason() {
    let body = bytes("d14:failure reason9:forbiddene");
    let err = bencode::trackers::process_response(&body).unwrap_err();
    assert_eq!(ErrorKind::Format, err.kind);
    assert_eq!("forbidden", err.message);
}

#[test]
fn process_response_requires_interval_and_peers() {
    let body = bytes("d5:peerslee");
    let err = bencode::trackers::process_response(&body).unwrap_err();
    assert_eq!(ErrorKind::NotFound, err.kind);
}

#[test]
fn config_parses_underscored_numbers() {
    let config =
        bencode::runner::Config::new("MIN_UPLOAD=10_000\nMAX_UPLOAD=20000\n").unwrap();
    assert_eq!(10000, config.min);
    assert_eq!(20000, config.max);

    assert!(bencode::runner::Config::new("MIN_UPLOAD=10\n").is_err());
    assert!(bencode::runner::Config::new("MIN_UPLOAD=x\nMAX_UPLOAD=1\n").is_err());
}

#[test]
fn random_usize_stays_in_range() {
    let entropy = vec![0u8, 0, 0, 0, 0, 0, 1, 7];
    let value = bencode::rand::random_usize(&entropy, 10, 20);
    assert!((10..20).contains(&value));
    assert_eq!(10 + (263 % 10), value);
}

#[test]
fn decode_required_treats_absence_as_not_found() {
    let err = bencode::decode::decode_required::<u32>(None).unwrap_err();
    assert_eq!(ErrorKind::NotFound, err.kind);

    let value = BencodeValue::Integer(7);
    let ok = bencode::decode::decode_required::<u32>(Some(&value)).unwrap();
    assert_eq!(7, ok);

    let wrong = BencodeValue::String("x".to_string());
    let err = bencode::decode::decode_required::<u32>(Some(&wrong)).unwrap_err();
    assert_eq!(ErrorKind::TypeMismatch, err.kind);
}
