use codecs::arith::ArithmeticCoder;
use codecs::arith::ArithmeticDecoder;
use codecs::arith::FrequencyModel;
use codecs::bitstream::BitstreamReader;
use codecs::bitstream::BitstreamWriter;
use codecs::model::build_alphabet;
use codecs::model::TextModel;
use codecs::range_coder::RangeDecoder;
use codecs::range_coder::RangeEncoder;
use codecs::simple::SimpleTcfCodec;
use codecs::tcf::TcfCodec;
use codecs::format::ChunkType;
use codecs::format::TcfFile;

#[test]
fn test_arithmetic_coding_roundtrip() {
    let test_data = b"Hello, World! This is a test of arithmetic coding.";

    let mut model = FrequencyModel::new();
    model.build_from_data(test_data);

    let mut encoder = ArithmeticCoder::new();
    for &byte in test_data {
        if let Some((low, high)) = model.get_symbol_range(byte) {
            encoder.encode_symbol(low, high, model.total_frequency());
        }
    }
    let compressed = encoder.finish();

    let mut decoder = ArithmeticDecoder::new(compressed);
    let mut decoded = Vec::new();

    for _ in 0..test_data.len() {
        let value = decoder.get_symbol_value(model.total_frequency());
        if let Some((symbol, low, high)) = model.get_range_from_value(value) {
            decoded.push(symbol);
            decoder.decode_symbol(low, high, model.total_frequency());
        }
    }

    assert_eq!(test_data, decoded.as_slice());
}

#[test]
fn test_frequency_model_serialization_roundtrip() {
    let data = b"banana bandana";
    let mut model = FrequencyModel::new();
    model.build_from_data(data);

    let bytes = model.serialize();
    assert_eq!(bytes.len(), 2048);
    let restored = FrequencyModel::deserialize(&bytes).unwrap();

    assert_eq!(restored.total_frequency(), model.total_frequency());
    for b in 0u16..=255 {
        let b = b as u8;
        assert_eq!(restored.get_symbol_range(b), model.get_symbol_range(b));
    }
}

#[test]
fn test_frequency_model_lookup_inverts_range() {
    let data = b"mississippi";
    let mut model = FrequencyModel::new();
    model.build_from_data(data);

    for &symbol in data {
        let (low, high) = model.get_symbol_range(symbol).unwrap();
        for v in low..high {
            assert_eq!(model.get_range_from_value(v), Some((symbol, low, high)));
            assert_eq!(model.get_symbol_from_value(v), Some(symbol));
        }
    }
    assert_eq!(model.get_range_from_value(model.total_frequency()), None);
}

#[test]
fn test_tcf_roundtrip() {
    let repeated_a = "a".repeat(1000);
    let test_texts = vec![
        "Hello, World!",
        "The quick brown fox jumps over the lazy dog.",
        "Lorem ipsum dolor sit amet, consectetur adipiscing elit. Sed do eiusmod tempor incididunt ut labore et dolore magna aliqua.",
        "\u{1f31f} Unicode text with \u{e9}mojis and acc\u{e9}nts! \u{1f680}",
        "",
        &repeated_a,
    ];

    for text in &test_texts {
        let compressed = TcfCodec::encode(text).unwrap();
        let decompressed = TcfCodec::decode(&compressed).unwrap();
        assert_eq!(*text, decompressed);
    }
}

#[test]
fn test_tcf_header_parsing() {
    let text = "Test text for header parsing";
    let compressed = TcfCodec::encode(text).unwrap();
    let header = TcfCodec::parse_header(&compressed).unwrap();

    assert_eq!(header.magic, "TCF2");
    assert_eq!(header.version, 2);
    assert_eq!(header.original_size, text.len() as u64);
}

#[test]
fn test_tcf_error_cases() {
    // Too small data
    assert!(TcfCodec::decode(b"TCF").is_err());

    // Invalid magic
    assert!(TcfCodec::decode(b"INVALID123456789").is_err());

    // Corrupted header
    let mut data = Vec::from(&b"TCF2"[..]);
    data.extend_from_slice(&[10u8, 0, 0, 0]); // header size 10
    data.extend_from_slice(b"corrupted"); // Only 9 bytes
    assert!(TcfCodec::decode(&data).is_err());
}

#[test]
fn test_tcf_unsupported_version() {
    let compressed = TcfCodec::encode("versioned").unwrap();
    let mut tampered = compressed.clone();
    tampered[8] = 3; // version field, little endian low byte
    match TcfCodec::decode(&tampered) {
        Err(codecs::error::CodecError::UnsupportedVersion(v)) => assert_eq!(v, 3),
        other => panic!("expected an unsupported-version error, got {:?}", other),
    }
}

#[test]
fn test_tcf_checksum_enforcement() {
    let text = "The checksum guards this text.";
    let compressed = TcfCodec::encode(text).unwrap();
    // flip one byte in the compressed region past the header and model
    let compressed_region_start = 98 + 2048;
    assert!(compressed.len() > compressed_region_start);
    for offset in compressed_region_start..(compressed_region_start + 4).min(compressed.len()) {
        let mut tampered = compressed.clone();
        tampered[offset] ^= 0x01;
        assert!(
            TcfCodec::decode(&tampered).is_err(),
            "flipping byte {} went unnoticed",
            offset
        );
    }
}

#[test]
fn test_unicode_handling() {
    let text = "Unicode test: caf\u{e9}, na\u{ef}ve, \u{5317}\u{4eac}";
    let encoded = TcfCodec::encode(text).expect("Encoding should succeed");
    let decoded = TcfCodec::decode(&encoded).expect("Decoding should succeed");
    assert_eq!(text, decoded);
}

#[test]
fn test_empty_text() {
    let text = "";
    let encoded = TcfCodec::encode(text).expect("Encoding should succeed");
    let decoded = TcfCodec::decode(&encoded).expect("Decoding should succeed");
    assert_eq!(text, decoded);
}

#[test]
fn test_normalize_text() {
    // an e followed by a combining acute accent
    let text = "cafe\u{301}";
    let normalized = TextModel::normalize_text(text);
    assert!(unicode_normalization::is_nfc(&normalized));
    assert_eq!(normalized, "caf\u{e9}");
}

#[test]
fn test_build_alphabet() {
    let text = "hello world";
    let alphabet = build_alphabet(text);
    assert!(alphabet.contains(&'h'));
    assert!(alphabet.contains(&' '));
    assert_eq!(alphabet.len(), 8); // h, e, l, o, space, w, r, d
}

#[test]
fn test_text_model() {
    let mut model = TextModel::new(2);
    model.update('h');
    model.update('e');
    model.update('l');

    assert_eq!(model.context, vec!['e', 'l']);
}

#[test]
fn test_text_model_frequencies() {
    let mut model = TextModel::new(0);
    model.update('a');
    model.update('b');
    model.update('a');
    let alphabet = vec!['a', 'b'];
    let freqs = model.get_frequencies(&alphabet);
    assert_eq!(freqs.len(), 3);
    assert_eq!(freqs[0], 2); // 'a' seen twice in the empty context
    assert_eq!(freqs[1], 1); // 'b' seen once
    assert_eq!(freqs[2], 1); // escape
    assert_eq!(model.get_symbol_index('b', &alphabet), Some(1));
    assert_eq!(model.get_symbol_index('z', &alphabet), None);
    model.reset_context();
    assert!(model.context.is_empty());
}

#[test]
fn test_simple_tcf_roundtrip() {
    for text in ["", "hello gzip container", "aaaaaaaaaaaaaaaaaaaaaaaaaaaa"] {
        let encoded = SimpleTcfCodec::encode(text).unwrap();
        let decoded = SimpleTcfCodec::decode(&encoded).unwrap();
        assert_eq!(text, decoded);
        let header = SimpleTcfCodec::parse_header(&encoded).unwrap();
        assert_eq!(header.original_size, text.len() as u64);
        assert_eq!(header.model_size, 0);
    }
}

#[test]
fn test_simple_tcf_checksum_enforcement() {
    let encoded = SimpleTcfCodec::encode("guarded by sha").unwrap();
    let mut tampered = encoded.clone();
    // corrupt the stored digest itself
    tampered[40] ^= 0xff;
    assert!(SimpleTcfCodec::decode(&tampered).is_err());
}

#[test]
fn test_bitstream_roundtrip() {
    let mut writer = BitstreamWriter::new();
    writer.write_u8(7).unwrap();
    writer.write_u16(0x1234).unwrap();
    writer.write_u32(0xdead_beef).unwrap();
    writer.write_bytes(b"xyz").unwrap();
    writer.flush().unwrap();
    let bytes = writer.into_bytes();

    let mut reader = BitstreamReader::new(bytes);
    assert_eq!(reader.read_u8().unwrap(), 7);
    assert_eq!(reader.read_u16().unwrap(), 0x1234);
    assert_eq!(reader.read_u32().unwrap(), 0xdead_beef);
    assert_eq!(reader.read_bytes(3).unwrap(), b"xyz".to_vec());
    assert!(reader.read_u8().is_err());
}

#[test]
fn test_range_coder_model() {
    let mut model = codecs::range_coder::FrequencyModel::new(4);
    assert_eq!(model.get_total_frequency(), 4);
    assert_eq!(model.get_frequency(2), 1);
    assert_eq!(model.get_cumulative_frequency(2), 2);
    model.update(2);
    assert_eq!(model.get_frequency(2), 2);
    assert_eq!(model.get_total_frequency(), 5);
    assert_eq!(model.get_frequencies().to_vec(), vec![1, 1, 2, 1]);
}

#[test]
fn test_range_coder_errors() {
    let mut encoder = RangeEncoder::new();
    assert!(encoder.encode_symbol(0, 0, 0).is_err());
    assert!(encoder.encode_symbol(1, 0, 10).is_ok());
    encoder.finish().unwrap();
    let bytes = encoder.into_bytes();
    assert!(bytes.len() >= 4);

    assert!(RangeDecoder::new(vec![1, 2]).is_err());
    let mut decoder = RangeDecoder::new(bytes).unwrap();
    let zero_table: Vec<u32> = vec![0, 0];
    assert!(decoder.decode_symbol(&zero_table).is_err());
}

#[test]
fn test_chunk_format_types() {
    let file = TcfFile::new();
    assert!(file.header.validate().is_ok());
    assert_eq!(ChunkType::CompressedData.code(), 0);
    assert_eq!(ChunkType::try_from_code(1).unwrap(), ChunkType::Dictionary);
    assert!(ChunkType::try_from_code(9).is_err());

    let mut bad = codecs::format::TcfFile::new();
    bad.header.version = 7;
    assert!(bad.header.validate().is_err());
}

#[test]
fn tcf_integration_test_tcf_roundtrip() {
    let text = "Hello, World! This is a test of the TCF codec.";
    let encoded = TcfCodec::encode(text).expect("Encoding should succeed");
    let decoded = TcfCodec::decode(&encoded).expect("Decoding should succeed");
    assert_eq!(text, decoded);
}

#[test]
fn test_chunked_encoder_layout() {
    let mut encoder = codecs::chunked::TcfEncoder::new(Default::default());
    encoder.encode("chunked text").unwrap();
    let bytes = encoder.into_bytes();
    // header (24) + model params (8) + chunk table (20) + at least the
    // range coder's four flush bytes
    assert!(bytes.len() >= 24 + 8 + 20 + 4);
    assert_eq!(&bytes[0..4], b"TCF1");
}

#[test]
fn test_chunked_crc_enforcement() {
    let mut encoder = codecs::chunked::TcfEncoder::new(Default::default());
    encoder.encode("guarded by crc32").unwrap();
    let bytes = encoder.into_bytes();
    // corrupt the chunk data that follows header, params and chunk table
    let mut tampered = bytes.clone();
    let data_start = 24 + 8 + 20;
    tampered[data_start] ^= 0xff;
    let mut decoder = codecs::chunked::TcfDecoder::new(tampered);
    match decoder.decode() {
        Err(codecs::error::CodecError::CorruptedData(_)) => {}
        other => panic!("expected a crc mismatch, got {:?}", other),
    }
    // a truncated stream fails structurally
    let mut short = codecs::chunked::TcfDecoder::new(bytes[..10].to_vec());
    assert!(short.decode().is_err());
}

#[test]
fn test_simple_model_serialization_roundtrip() {
    let mut model = codecs::simple::SimpleFrequencyModel::new();
    model.build_from_data(b"abracadabra");
    let bytes = model.serialize();
    assert_eq!(bytes.len(), 1024);
    let restored = codecs::simple::SimpleFrequencyModel::deserialize(&bytes).unwrap();
    assert_eq!(restored.serialize(), bytes);
    assert!(codecs::simple::SimpleFrequencyModel::deserialize(&bytes[..100]).is_err());
}
