use bencode::BencodeValue;
use bencode::read_dictionary;
use bencode::read_integer;
use bencode::read_list;
use bencode::read_string;

#[test]
fn read_integer_fails_non_numeric() {
    let input = "a".as_bytes().to_vec();

    assert!(read_integer(&input, 0).is_err());
}

#[test]
fn read_integer_fails_without_terminator() {
    let input = "108".as_bytes().to_vec();

    assert!(read_integer(&input, 0).is_err());
}

#[test]
fn read_integer_reads_integer() {
    let input = "108e".as_bytes().to_vec();

    let result = read_integer(&input, 0).unwrap();
    if let BencodeValue::Integer(value) = result.0 {
        assert_eq!(108, value);
    } else {
        panic!("Value read was not an integer");
    }
}

#[test]
fn read_integer_reads_negative_integer() {
    let input = "-108e".as_bytes().to_vec();

    let result = read_integer(&input, 0).unwrap();
    if let BencodeValue::Integer(value) = result.0 {
        assert_eq!(-108, value);
    } else {
        panic!("Value read was not an integer");
    }
}

#[test]
fn read_string_fails_without_colon() {
    let input = "abc".as_bytes().to_vec();

    assert!(read_string(&input, 0, b'3').is_err());
}

#[test]
fn read_string_fails_with_eof() {
    let input = ":a".as_bytes().to_vec();

    assert!(read_string(&input, 0, b'3').is_err());
}

#[test]
fn read_string_suceeds_double_digit() {
    let input = "6:0123456789ABCDEF".as_bytes().to_vec();

    let result = read_string(&input, 0, b'1').unwrap();
    if let BencodeValue::String(value) = result.0 {
        assert_eq!("0123456789ABCDEF", value);
    } else {
        panic!("Value read was not a string");
    }
}

#[test]
fn read_string_succeeds_single_digit() {
    let input = ":abc".as_bytes().to_vec();

    let result = read_string(&input, 0, b'3').unwrap();
    if let BencodeValue::String(value) = result.0 {
        assert_eq!("abc", value);
    } else {
        panic!("Value read was not a string");
    }
}

#[test]
fn read_list_loads_list() {
    let input = "4:spami42ee".as_bytes().to_vec();

    let result = read_list(&input, 0).unwrap();
    if let BencodeValue::List(mut value) = result.0 {
        assert_eq!(2, value.len());
        if let BencodeValue::String(string) = value.remove(0) {
            assert_eq!("spam", string);
        } else {
            panic!("Value was not a string");
        }

        if let BencodeValue::Integer(integer) = value.remove(0) {
            assert_eq!(42, integer);
        } else {
            panic!("Value was not an integer");
        }
    } else {
        panic!("Value read was not a list");
    }
}

#[test]
fn read_list_loads_empty() {
    let input = "e".as_bytes().to_vec();

    let result = read_list(&input, 0).unwrap();
    if let BencodeValue::List(value) = result.0 {
        assert_eq!(0, value.len());
    } else {
        panic!("Value was not a list");
    }
}

#[test]
fn read_list_fails_on_unknown() {
    let input = "f".as_bytes().to_vec();

    assert!(read_list(&input, 0).is_err());
}

#[test]
fn read_dictionary_suceeds_with_valid() {
    let input = "3:bar4:spam3:fooi42ee".as_bytes().to_vec();

    let result = read_dictionary(&input, 0).unwrap();
    if let BencodeValue::Dictionary(map) = result.0 {
        assert_eq!(2, map.len());

        let value = map.get(&"bar".to_string()).unwrap();
        if let BencodeValue::String(value) = value {
            assert_eq!("spam", value);
        } else {
            panic!("Value for bar was not a string");
        }

        let value = map.get(&"foo".to_string()).unwrap();
        if let BencodeValue::Integer(value) = value {
            assert_eq!(&42, value);
        } else {
            panic!("Value for foo was not an integer");
        }
    } else {
        panic!("Value not a dictionary");
    }
}

#[test]
fn read_dictionary_fails_with_non_string_keys() {
    let input = "di5e:spam3:fooi42ee".as_bytes().to_vec();

    assert!(read_dictionary(&input, 0).is_err());
}
