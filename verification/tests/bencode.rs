use bittorrent_rust::bencode::{
    decode, find_raw_dict_value, value_span, BencodeDict, BencodeError, BencodeParser,
    BencodeValue, LookupError, SpanError,
};
use bittorrent_rust::decimal::NumberError;
use bittorrent_rust::text::Utf8Fault;

fn text(s: &str) -> BencodeValue {
    BencodeValue::ByteString(s.as_bytes().to_vec())
}

#[test]
fn test_int() {
    assert_eq!(decode(b"i42e").unwrap(), BencodeValue::Int(42));
    assert_eq!(decode(b"i-42e").unwrap(), BencodeValue::Int(-42));
    assert_eq!(decode(b"i0e").unwrap(), BencodeValue::Int(0));
}

#[test]
fn test_byte_string() {
    assert_eq!(
        decode(b"4:spam").unwrap(),
        BencodeValue::ByteString(b"spam".to_vec())
    );
    assert_eq!(
        decode(b"0:").unwrap(),
        BencodeValue::ByteString(vec![])
    );
}

#[test]
fn test_list() {
    assert_eq!(
        decode(b"l4:spami42ee").unwrap(),
        BencodeValue::List(vec![
            BencodeValue::ByteString(b"spam".to_vec()),
            BencodeValue::Int(42),
        ])
    );
}

#[test]
fn test_dict() {
    let mut expected = BencodeDict::new();
    expected.insert(b"bar".to_vec(), BencodeValue::ByteString(b"spam".to_vec()));
    expected.insert(b"foo".to_vec(), BencodeValue::Int(42));

    assert_eq!(
        decode(b"d3:bar4:spam3:foo42e").unwrap_err().to_string().is_empty(),
        false // testing malformed
    );
    assert_eq!(
        decode(b"d3:bar4:spam3:fooi42ee").unwrap(),
        BencodeValue::Dict(expected)
    );
}

#[test]
fn test_roundtrip_encode() {
    let input = b"d3:cow3:moo4:spaml1:a1:bi3eee";
    let parsed = decode(input).unwrap();
    assert_eq!(parsed.encode(), input);
}

#[test]
fn extreme_integers_are_read_and_written() {
    for n in [i64::MIN, -1, 0, 7, 10, i64::MAX] {
        let encoded = BencodeValue::Int(n).encode();
        assert_eq!(encoded, format!("i{}e", n).as_bytes());
        assert_eq!(decode(&encoded).unwrap(), BencodeValue::Int(n));
    }
    assert_eq!(decode(b"i9223372036854775808e").unwrap_err(), BencodeError::InvalidNumber(NumberError::TooLarge));
    assert_eq!(decode(b"i-9223372036854775809e").unwrap_err(), BencodeError::InvalidNumber(NumberError::TooSmall));
}

#[test]
fn integers_may_have_a_plus_sign_and_leading_zeros() {
    assert_eq!(decode(b"i+5e").unwrap(), BencodeValue::Int(5));
    assert_eq!(decode(b"i007e").unwrap(), BencodeValue::Int(7));
    assert_eq!(decode(b"i-0e").unwrap(), BencodeValue::Int(0));
    assert_eq!(decode(b"i-0e").unwrap().encode(), b"i0e");
}

#[test]
fn each_decoding_error_has_its_input() {
    assert_eq!(decode(b"").unwrap_err(), BencodeError::UnexpectedEnd);
    assert_eq!(
        decode(b"x").unwrap_err(),
        BencodeError::InvalidPrefix { prefix: b'x', offset: 0 }
    );
    assert_eq!(decode(b"i42").unwrap_err(), BencodeError::UnterminatedInt { offset: 1 });
    assert_eq!(
        decode(b"i1\xffe").unwrap_err(),
        BencodeError::InvalidUtf8(Utf8Fault { valid_up_to: 1, error_len: Some(1) })
    );
    assert_eq!(
        decode(b"i12\xe2\x82e").unwrap_err(),
        BencodeError::InvalidUtf8(Utf8Fault { valid_up_to: 2, error_len: None })
    );
    assert_eq!(decode(b"ie").unwrap_err(), BencodeError::InvalidNumber(NumberError::Empty));
    let invalid_digit = BencodeError::InvalidNumber(NumberError::InvalidDigit);
    assert_eq!(decode(b"i-e").unwrap_err(), invalid_digit);
    assert_eq!(decode(b"i+e").unwrap_err(), invalid_digit);
    assert_eq!(decode(b"i4 2e").unwrap_err(), invalid_digit);
    assert_eq!(decode(b"4spam").unwrap_err(), BencodeError::MissingColon { offset: 0 });
    assert_eq!(decode(b"4x:spam").unwrap_err(), invalid_digit);
    assert_eq!(
        decode(b"18446744073709551616:").unwrap_err(),
        BencodeError::InvalidNumber(NumberError::TooLarge)
    );
    assert_eq!(
        decode(b"4\xff:spam").unwrap_err(),
        BencodeError::InvalidUtf8(Utf8Fault { valid_up_to: 1, error_len: Some(1) })
    );
    assert_eq!(
        decode(b"5:spam").unwrap_err(),
        BencodeError::StringTooLong { length: 5, offset: 2 }
    );
    assert_eq!(
        decode(b"18446744073709551615:a").unwrap_err(),
        BencodeError::LengthOverflow { length: usize::MAX, offset: 21 }
    );
    assert_eq!(decode(b"li1e").unwrap_err(), BencodeError::UnterminatedList);
    assert_eq!(decode(b"d1:ai1e").unwrap_err(), BencodeError::UnterminatedDict);
    assert_eq!(
        decode(b"di1ei2ee").unwrap_err(),
        BencodeError::KeyNotByteString { offset: 4 }
    );
    assert_eq!(
        decode(b"d1:ae").unwrap_err(),
        BencodeError::InvalidPrefix { prefix: b'e', offset: 4 }
    );
}

#[test]
fn errors_have_texts() {
    assert_eq!(decode(b"").unwrap_err().to_string(), "Unexpected end of data");
    assert_eq!(
        decode(b"lx").unwrap_err().to_string(),
        "Invalid bencode prefix: 'x' at offset 1"
    );
    assert_eq!(decode(b"i4").unwrap_err().to_string(), "Unterminated integer at 1");
    assert_eq!(
        decode(b"15:spam").unwrap_err().to_string(),
        "Byte string exceeds data length: requested 15 bytes at offset 3"
    );
    assert_eq!(value_span(b"").unwrap_err().to_string(), "Empty buffer");
    assert_eq!(value_span(b"x").unwrap_err().to_string(), "Invalid bencode token: x");
    assert_eq!(
        find_raw_dict_value(b"de", b"info").unwrap_err().to_string(),
        "Key not found in dictionary"
    );
}

#[test]
fn a_parser_reads_one_value_after_another() {
    let mut parser = BencodeParser::new(b"i1e4:spamle");
    assert_eq!(parser.current_pos(), 0);
    assert_eq!(parser.parse().unwrap(), BencodeValue::Int(1));
    assert_eq!(parser.current_pos(), 3);
    assert_eq!(parser.parse().unwrap(), text("spam"));
    assert_eq!(parser.current_pos(), 9);
    assert_eq!(parser.parse().unwrap(), BencodeValue::List(vec![]));
    assert_eq!(parser.current_pos(), 11);
    assert_eq!(parser.parse().unwrap_err(), BencodeError::UnexpectedEnd);
}

#[test]
fn bytes_after_the_value_do_not_count() {
    assert_eq!(decode(b"i1etrailing").unwrap(), BencodeValue::Int(1));
    let value = decode(b"d1:ali1ei2eee").unwrap();
    let mut encoded = value.encode();
    encoded.extend_from_slice(b"rest");
    assert_eq!(decode(&encoded).unwrap(), value);
}

#[test]
fn keys_are_sorted_and_the_last_value_of_a_key_stays() {
    let value = decode(b"d3:fooi1e3:bari2e3:fooi3e2:ba0:e").unwrap();
    assert_eq!(value.encode(), b"d2:ba0:3:bari2e3:fooi3ee");
    assert_eq!(value.as_dict().unwrap().len(), 3);
    assert_eq!(value.get_dict_entry(b"foo"), Some(&BencodeValue::Int(3)));
}

#[test]
fn what_was_put_under_a_key_is_found_there() {
    let mut dict = BencodeDict::new();
    assert_eq!(dict.get(b"a"), None);
    dict.insert(b"b".to_vec(), BencodeValue::Int(1));
    dict.insert(b"a".to_vec(), BencodeValue::Int(2));
    dict.insert(b"b".to_vec(), BencodeValue::Int(3));
    assert_eq!(dict.get(b"a"), Some(&BencodeValue::Int(2)));
    assert_eq!(dict.get(b"b"), Some(&BencodeValue::Int(3)));
    assert_eq!(dict.get(b"c"), None);
    assert_eq!(dict.len(), 2);
}

#[test]
fn values_give_what_they_hold_and_nothing_else() {
    let int = BencodeValue::Int(5);
    let string = text("spam");
    let list = BencodeValue::List(vec![BencodeValue::Int(1)]);
    let dict = BencodeValue::Dict(BencodeDict::new());
    assert_eq!(int.as_int(), Some(5));
    assert_eq!(string.as_int(), None);
    assert_eq!(string.as_bytes(), Some(b"spam".as_ref()));
    assert_eq!(list.as_bytes(), None);
    assert_eq!(string.as_str(), Some("spam"));
    assert_eq!(list.as_list().map(|l| l.len()), Some(1));
    assert_eq!(dict.as_list(), None);
    assert!(dict.as_dict().is_some());
    assert!(int.as_dict().is_none());
    assert_eq!(int.get_dict_entry(b"a"), None);
}

#[test]
fn only_utf8_is_text() {
    assert_eq!(text("gr\u{fc}n").as_str(), Some("gr\u{fc}n"));
    assert_eq!(BencodeValue::ByteString(vec![0xff, 0xfe]).as_str(), None);
}

#[test]
fn a_clone_is_equal() {
    let value = decode(b"d1:ali1e3:xyze1:bd0:0:ee").unwrap();
    assert_eq!(value.clone(), value);
    assert_eq!(value.clone().encode(), value.encode());
}

#[test]
fn the_extent_of_a_value_is_what_decoding_takes() {
    for s in ["i42e", "4:spam", "0:", "le", "de", "l4:spami42ee", "d3:fooi42e3:barl1:aee"] {
        let mut padded = s.as_bytes().to_vec();
        padded.extend_from_slice(b"i1e");
        assert_eq!(value_span(&padded).unwrap(), s.len());
        let mut parser = BencodeParser::new(&padded);
        parser.parse().unwrap();
        assert_eq!(parser.current_pos(), s.len());
    }
}

#[test]
fn each_extent_error_has_its_input() {
    assert_eq!(value_span(b"").unwrap_err(), SpanError::EmptyBuffer);
    assert_eq!(value_span(b"x").unwrap_err(), SpanError::InvalidToken(b'x'));
    assert_eq!(value_span(b"i42").unwrap_err(), SpanError::UnterminatedInt);
    assert_eq!(value_span(b"42").unwrap_err(), SpanError::MissingColon);
    assert_eq!(
        value_span(b"4\xff:spam").unwrap_err(),
        SpanError::InvalidUtf8(Utf8Fault { valid_up_to: 1, error_len: Some(1) })
    );
    assert_eq!(
        value_span(b"4x:spam").unwrap_err(),
        SpanError::InvalidNumber(NumberError::InvalidDigit)
    );
    assert_eq!(value_span(b"5:spam").unwrap_err(), SpanError::StringTooLong);
    assert_eq!(
        value_span(b"18446744073709551615:a").unwrap_err(),
        SpanError::LengthOverflow
    );
    assert_eq!(value_span(b"li1e").unwrap_err(), SpanError::UnterminatedList);
    assert_eq!(value_span(b"d1:ai1e").unwrap_err(), SpanError::UnterminatedDict);
    // The digits of an integer are not looked at.
    assert_eq!(value_span(b"ixe").unwrap(), 3);
}

#[test]
fn the_raw_value_is_the_bytes_under_the_key() {
    let bytes = b"d3:bari1e4:infod1:bi1e1:ai2ee3:zooi3ee";
    assert_eq!(find_raw_dict_value(bytes, b"info").unwrap(), b"d1:bi1e1:ai2ee");
    assert_eq!(find_raw_dict_value(bytes, b"bar").unwrap(), b"i1e");
    // The first of two entries with the key counts.
    assert_eq!(find_raw_dict_value(b"d1:ai1e1:ai2ee", b"a").unwrap(), b"i1e");
}

#[test]
fn each_lookup_error_has_its_input() {
    assert_eq!(find_raw_dict_value(b"", b"a").unwrap_err(), LookupError::NotADict);
    assert_eq!(find_raw_dict_value(b"le", b"a").unwrap_err(), LookupError::NotADict);
    assert_eq!(
        find_raw_dict_value(b"dx", b"a").unwrap_err(),
        LookupError::Span(SpanError::InvalidToken(b'x'))
    );
    assert_eq!(
        find_raw_dict_value(b"dixei1ee", b"a").unwrap_err(),
        LookupError::Key(BencodeError::InvalidNumber(NumberError::InvalidDigit))
    );
    assert_eq!(
        find_raw_dict_value(b"di1ei2ee", b"a").unwrap_err(),
        LookupError::KeyNotByteString
    );
    assert_eq!(find_raw_dict_value(b"d1:bi1ee", b"a").unwrap_err(), LookupError::NotFound);
}

#[test]
fn canonical_bytes_are_encoded_back() {
    for s in ["i-3e", "3:abc", "l0:i0ee", "d1:ai1e2:aai2e1:bi3ee"] {
        assert_eq!(decode(s.as_bytes()).unwrap().encode(), s.as_bytes());
    }
    // Others become shorter, or are put in order.
    assert_eq!(decode(b"03:abc").unwrap().encode(), b"3:abc");
    assert_eq!(decode(b"i+3e").unwrap().encode(), b"i3e");
}

#[test]
fn numbers_fail_as_they_do_in_std() {
    for t in [
        "", "+", "-", "x", "4x", "-x", "9223372036854775808", "-9223372036854775809",
        "99999999999999999999x", "9999999999999999999999999", "-99999999999999999999999x",
        "9223372036854775807x", "922337203685477580x8", "+-1", "--1", " 1", "1 ", "0x10",
        "00000000000000000000000000000001x", "\u{fc}",
    ] {
        let expected = t.parse::<i64>().unwrap_err().to_string();
        let encoded = format!("i{}e", t);
        assert_eq!(decode(encoded.as_bytes()).unwrap_err().to_string(), expected, "{}", t);
    }
    for t in ["4x", "18446744073709551616", "99999999999999999999999999x", "1-", "1+"] {
        let expected = t.parse::<usize>().unwrap_err().to_string();
        let encoded = format!("{}:", t);
        assert_eq!(decode(encoded.as_bytes()).unwrap_err().to_string(), expected, "{}", t);
        assert_eq!(value_span(encoded.as_bytes()).unwrap_err().to_string(), expected, "{}", t);
    }
}

#[test]
fn utf8_fails_as_it_does_in_std() {
    let cases: [&[u8]; 7] = [
        b"1\xff", b"12\xc3", b"\xe2\x82", b"\xe2\x28\xa1", b"1\xf0\x9f\x98", b"\xc0\x80", b"a\xf0\x9fx",
    ];
    for t in cases {
        let expected = std::str::from_utf8(t).unwrap_err().to_string();
        let mut encoded = b"i".to_vec();
        encoded.extend_from_slice(t);
        encoded.push(b'e');
        assert_eq!(decode(&encoded).unwrap_err().to_string(), expected);
    }
    assert_eq!(
        value_span(b"4\xff:spam").unwrap_err().to_string(),
        "invalid utf-8 sequence of 1 bytes from index 1"
    );
}

#[test]
fn a_wrong_prefix_is_shown_escaped() {
    for b in 0..=255u8 {
        if b == b'i' || b == b'l' || b == b'd' || b.is_ascii_digit() {
            continue;
        }
        assert_eq!(
            decode(&[b]).unwrap_err().to_string(),
            format!("Invalid bencode prefix: {:?} at offset 0", b as char)
        );
    }
}

#[test]
fn entries_are_listed_in_the_order_of_their_keys() {
    let value = decode(b"d3:fooi1e3:bar0:e").unwrap();
    let dict = value.as_dict().unwrap();
    assert_eq!(dict.entry(0), Some((b"bar".as_ref(), &text(""))));
    assert_eq!(dict.entry(1), Some((b"foo".as_ref(), &BencodeValue::Int(1))));
    assert_eq!(dict.entry(2), None);
}

#[test]
fn an_extent_is_the_least_whole_start() {
    let whole = b"d1:ali1e3:xyze1:bi-5ee";
    let mut followed = whole.to_vec();
    followed.extend_from_slice(b"i1eee");
    assert_eq!(value_span(&followed).unwrap(), whole.len());
    for m in 0..whole.len() {
        assert!(value_span(&whole[..m]).is_err());
    }
    let raw = find_raw_dict_value(whole, b"a").unwrap();
    assert_eq!(value_span(raw).unwrap(), raw.len());
}
