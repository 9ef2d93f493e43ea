use codecs::bencode::BencodeCodec;
use codecs::bencode::BencodeValue;

#[test]
fn test_encode_decode_integer() {
    let value = BencodeValue::integer(42);
    let encoded = BencodeCodec::encode(&value).unwrap();
    assert_eq!(encoded, b"i42e");

    let decoded = BencodeCodec::decode(&encoded).unwrap();
    assert_eq!(decoded, value);
}

#[test]
fn test_encode_decode_string() {
    let value = BencodeValue::string("hello");
    let encoded = BencodeCodec::encode(&value).unwrap();
    assert_eq!(encoded, b"5:hello");

    let decoded = BencodeCodec::decode(&encoded).unwrap();
    assert_eq!(decoded, value);
}

#[test]
fn test_encode_decode_list() {
    let value = BencodeValue::list(vec![
        BencodeValue::integer(1),
        BencodeValue::string("test"),
        BencodeValue::integer(2),
    ]);

    let encoded = BencodeCodec::encode(&value).unwrap();
    let decoded = BencodeCodec::decode(&encoded).unwrap();
    assert_eq!(decoded, value);
}

#[test]
fn test_encode_decode_dictionary() {
    let value = BencodeValue::dictionary(vec![
        (b"name".to_vec(), BencodeValue::string("test")),
        (b"value".to_vec(), BencodeValue::integer(42)),
    ]);
    let encoded = BencodeCodec::encode(&value).unwrap();
    let decoded = BencodeCodec::decode(&encoded).unwrap();
    assert_eq!(decoded, value);
}

#[test]
fn test_complex_structure() {
    let torrent_info = BencodeValue::dictionary(vec![
        (b"name".to_vec(), BencodeValue::string("example.txt")),
        (b"length".to_vec(), BencodeValue::integer(1024)),
        (b"piece length".to_vec(), BencodeValue::integer(32768)),
    ]);

    let value = BencodeValue::dictionary(vec![
        (
            b"announce".to_vec(),
            BencodeValue::string("http://tracker.example.com"),
        ),
        (b"info".to_vec(), torrent_info),
    ]);

    let encoded = BencodeCodec::encode(&value).unwrap();
    let decoded = BencodeCodec::decode(&encoded).unwrap();
    assert_eq!(decoded, value);
}

#[test]
fn test_file_format() {
    let content = BencodeValue::string("test content");
    let metadata_value =
        BencodeValue::dictionary(vec![(b"author".to_vec(), BencodeValue::string("test"))]);

    let file_data = BencodeCodec::create_file_format(content, Some(metadata_value)).unwrap();
    let (parsed_content, parsed_metadata) = BencodeCodec::parse_file_format(&file_data).unwrap();

    assert_eq!(parsed_content, BencodeValue::string("test content"));
    assert!(parsed_metadata.is_some());
}

#[test]
fn test_error_handling() {
    assert!(BencodeCodec::decode(b"invalid").is_err());
    assert!(BencodeCodec::decode(b"i42").is_err());
    assert!(BencodeCodec::decode(b"5:hell").is_err());
}

#[test]
fn test_integer_value() {
    let value = BencodeValue::integer(42);
    assert_eq!(value.as_integer(), Some(42));
    assert_eq!(value.encoded_size(), 4);
}

#[test]
fn test_string_value() {
    let value = BencodeValue::string("hello");
    assert_eq!(value.as_string(), Some("hello".to_string()));
    assert_eq!(value.encoded_size(), 7);
}

#[test]
fn test_list_value() {
    let value = BencodeValue::list(vec![BencodeValue::integer(1), BencodeValue::string("test")]);
    assert_eq!(value.as_list().unwrap().len(), 2);
}

#[test]
fn test_dictionary_value() {
    let value =
        BencodeValue::dictionary(vec![(b"key".to_vec(), BencodeValue::string("value"))]);

    assert_eq!(
        value.get_dict_value("key").unwrap().as_string().unwrap(),
        "value"
    );
}

#[test]
fn test_display() {
    let value = BencodeValue::integer(42);
    assert_eq!(value.display_string(), "42");

    let value = BencodeValue::string("hello");
    assert_eq!(value.display_string(), "\"hello\"");
}

#[test]
fn test_negative_integer_round_trip() {
    let value = BencodeValue::integer(-7);
    let encoded = BencodeCodec::encode(&value).unwrap();
    assert_eq!(encoded, b"i-7e");
    let decoded = BencodeCodec::decode(&encoded).unwrap();
    assert_eq!(decoded, value);
}

#[test]
fn test_integer_error_variants() {
    // a sign without digits
    assert!(BencodeCodec::decode(b"i-e").is_err());
    // a negative zero is not canonical
    assert!(BencodeCodec::decode(b"i-0e").is_err());
    // an empty input ends too early
    assert!(BencodeCodec::decode(b"").is_err());
    // a string length with no colon
    assert!(BencodeCodec::decode(b"5x").is_err());
}

#[test]
fn test_empty_containers() {
    let empty_list = BencodeValue::list(vec![]);
    let encoded = BencodeCodec::encode(&empty_list).unwrap();
    assert_eq!(encoded, b"le");
    assert_eq!(BencodeCodec::decode(&encoded).unwrap(), empty_list);

    let empty_dict = BencodeValue::dictionary(vec![]);
    let encoded = BencodeCodec::encode(&empty_dict).unwrap();
    assert_eq!(encoded, b"de");
    assert_eq!(BencodeCodec::decode(&encoded).unwrap(), empty_dict);
}

#[test]
fn test_dictionary_constructor_sorts_keys() {
    let value = BencodeValue::dictionary(vec![
        (b"zz".to_vec(), BencodeValue::integer(2)),
        (b"aa".to_vec(), BencodeValue::integer(1)),
    ]);
    let encoded = BencodeCodec::encode(&value).unwrap();
    assert_eq!(encoded, b"d2:aai1e2:zzi2ee");
}

#[test]
fn test_encoded_size_matches_encoding() {
    let value = BencodeValue::list(vec![
        BencodeValue::integer(-120),
        BencodeValue::string("abc"),
        BencodeValue::dictionary(vec![(b"k".to_vec(), BencodeValue::integer(0))]),
    ]);
    let encoded = codecs::bencode::BencodeCodec::encode(&value).unwrap();
    assert_eq!(value.encoded_size(), encoded.len());
}

#[test]
fn test_reencode_round_trip_matches_bytes() {
    let value = BencodeValue::dictionary(vec![
        (
            b"items".to_vec(),
            BencodeValue::list(vec![
                BencodeValue::integer(-7),
                BencodeValue::string(""),
                BencodeValue::string("abc"),
            ]),
        ),
        (b"zero".to_vec(), BencodeValue::integer(0)),
    ]);
    let encoded = BencodeCodec::encode(&value).unwrap();
    let decoded = BencodeCodec::decode(&encoded).unwrap();
    let reencoded = BencodeCodec::encode(&decoded).unwrap();
    assert_eq!(reencoded, encoded);
    assert_eq!(decoded, value);
}

#[test]
fn test_file_format_without_metadata() {
    let content = BencodeValue::list(vec![
        BencodeValue::integer(5),
        BencodeValue::string("payload"),
    ]);
    let file_data = BencodeCodec::create_file_format(content, None).unwrap();
    assert_eq!(file_data[0], b'd');
    assert!(file_data.starts_with(b"d7:content"));
    let (parsed_content, parsed_metadata) = BencodeCodec::parse_file_format(&file_data).unwrap();
    let expected = BencodeValue::list(vec![
        BencodeValue::integer(5),
        BencodeValue::string("payload"),
    ]);
    assert_eq!(parsed_content, expected);
    assert!(parsed_metadata.is_none());
}
