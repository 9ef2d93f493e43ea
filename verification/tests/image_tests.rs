use codecs::icf::CompressedBlock;
use codecs::icf::IcfCodec;
use codecs::icf::IcfHeader;
use codecs::quant::Quantization;

#[test]
fn test_zigzag_scan() {
    let mut block = [[0i16; 8]; 8];

    for i in 0..8 {
        for j in 0..8 {
            block[i][j] = (i * 8 + j) as i16;
        }
    }

    let zigzag = Quantization::block_to_zigzag(&block);
    let reconstructed = Quantization::zigzag_to_block(&zigzag);

    assert_eq!(block, reconstructed);
    assert_eq!(zigzag.len(), 64);
}

#[test]
fn test_run_length_encoding() {
    let input: Vec<i16> = vec![42, 0, 0, 0, 15, 0, 0, 7, 0, 0, 0, 0, 0];
    let encoded = Quantization::run_length_encode(&input);
    let decoded = Quantization::run_length_decode(&encoded);

    let mut extended_input = input;
    while extended_input.len() < 64 {
        extended_input.push(0);
    }

    assert_eq!(decoded, extended_input);
}

#[test]
fn test_run_length_full_block() {
    // a full 64-entry sequence, including a nonzero tail
    let mut input: Vec<i16> = vec![0; 64];
    input[0] = -3;
    input[31] = 9;
    input[63] = 1;
    let encoded = Quantization::run_length_encode(&input);
    let decoded = Quantization::run_length_decode(&encoded);
    assert_eq!(decoded, input);
}

#[test]
fn test_quantization_tables() {
    let luma_table = Quantization::create_quantization_table(85, true);
    let chroma_table = Quantization::create_quantization_table(85, false);

    assert!(luma_table[0][0] > 0);
    assert!(chroma_table[0][0] > 0);

    let high_qual = Quantization::create_quantization_table(95, true);
    let low_qual = Quantization::create_quantization_table(10, true);

    assert!(high_qual[0][0] < low_qual[0][0]);
}

#[test]
fn test_quantization_table_monotonic_everywhere() {
    let high_qual = Quantization::create_quantization_table(95, true);
    let low_qual = Quantization::create_quantization_table(10, true);
    for i in 0..8 {
        for j in 0..8 {
            assert!(high_qual[i][j] <= low_qual[i][j]);
        }
    }
}

#[test]
fn test_quantization_table_values() {
    // quality 50: the scale is exactly 100, so entries equal the base table
    let table = Quantization::create_quantization_table(50, true);
    assert_eq!(table[0][0], 16);
    assert_eq!(table[7][7], 99);
    // quality 10: scale 500, entry = base * 5
    let coarse = Quantization::create_quantization_table(10, true);
    assert_eq!(coarse[0][0], 80);
}

#[test]
fn test_quantization_roundtrip() {
    let mut dct_block = [[0i32; 8]; 8];
    dct_block[0][0] = 100;
    dct_block[0][1] = 50;
    dct_block[0][2] = 25;
    dct_block[1][0] = 50;
    dct_block[2][0] = 25;

    let q_table = Quantization::create_quantization_table(85, true);
    let quantized = Quantization::quantize_block(&dct_block, &q_table);
    let dequantized = Quantization::dequantize_block(&quantized, &q_table);

    assert!((dct_block[0][0] as i64 - dequantized[0][0]).abs() < 20);
    // each coefficient is restored within half a quantization step
    for i in 0..8 {
        for j in 0..8 {
            let err = 2 * (dequantized[i][j] - dct_block[i][j] as i64).abs();
            assert!(err <= q_table[i][j] as i64);
        }
    }
}

#[test]
fn test_block_serialization_roundtrip() {
    let blocks = vec![
        CompressedBlock {
            x: 0,
            y: 0,
            channel: 0,
            dc_coefficient: -5,
            ac_coefficients: vec![(0, 3), (2, -1), (0, 0)],
        },
        CompressedBlock {
            x: 1,
            y: 0,
            channel: 2,
            dc_coefficient: 700,
            ac_coefficients: vec![(0, 0)],
        },
    ];
    let bytes = codecs::icf::serialize_blocks(&blocks);
    let parsed = codecs::icf::deserialize_blocks(&bytes).unwrap();
    assert_eq!(parsed.len(), 2);
    assert_eq!(parsed[0].dc_coefficient, -5);
    assert_eq!(parsed[0].ac_coefficients, vec![(0u8, 3i16), (2u8, -1i16), (0u8, 0i16)]);
    assert_eq!(parsed[1].channel, 2);
    assert_eq!(parsed[1].dc_coefficient, 700);
    // a canonical serialization parses back to the same bytes
    let rebytes = codecs::icf::serialize_blocks(&parsed);
    assert_eq!(rebytes, bytes);
    // truncated input is rejected
    assert!(codecs::icf::deserialize_blocks(&bytes[..bytes.len() - 1]).is_err());
}

#[test]
fn test_icf_container_roundtrip() {
    let codec = IcfCodec::new();
    let tables = vec![
        Quantization::create_quantization_table(85, true),
        Quantization::create_quantization_table(85, false),
        Quantization::create_quantization_table(85, false),
    ];
    let header = IcfHeader {
        magic: "ICF2".to_string(),
        version: 2,
        width: 64,
        height: 48,
        channels: 3,
        color_space: "YCoCg".to_string(),
        quality: 85,
        compression_method: "DCT+RLE".to_string(),
        block_size: 8,
        quantization_tables: tables.clone(),
        original_size: 64 * 48 * 3,
        compressed_size: 0,
        checksum: "0123456789abcdef0123456789abcdef0123456789abcdef0123456789abcdef"
            .to_string(),
    };
    let payload = vec![1u8, 2, 3, 4];
    let container = codec.create_container(header, payload.clone()).unwrap();

    let (parsed, body) = codec.parse_container(&container).unwrap();
    assert_eq!(parsed.width, 64);
    assert_eq!(parsed.height, 48);
    assert_eq!(parsed.quality, 85);
    assert_eq!(parsed.quantization_tables, tables);
    assert_eq!(
        parsed.checksum,
        "0123456789abcdef0123456789abcdef0123456789abcdef0123456789abcdef"
    );
    assert_eq!(body, payload);

    assert!(codec.parse_container(b"ICF!").is_err());
}

#[test]
fn test_channel_compression_roundtrip() {
    // an 16x8 channel: two blocks side by side
    let mut left = [[0i16; 8]; 8];
    let mut right = [[0i16; 8]; 8];
    left[0][0] = 40;
    left[3][4] = -6;
    right[0][0] = 35;
    right[7][7] = 2;
    let quantized = vec![left, right];

    let blocks = Quantization::compress_channel_blocks(&quantized, 2, 1, 1);
    assert_eq!(blocks.len(), 2);
    assert_eq!(blocks[0].dc_coefficient, 40);
    assert_eq!(blocks[1].dc_coefficient, -5); // 35 - 40
    assert_eq!((blocks[1].x, blocks[1].y), (1, 0));

    // feed them through the container decoder: channel 1 of 3
    let tables = vec![[[1u32; 8]; 8]; 3];
    let codec = IcfCodec::new();
    let channels = codec.decompress_blocks(&blocks, 16, 8, &tables).unwrap();
    assert_eq!(channels.len(), 3);
    assert_eq!(channels[1].len(), 1);
    assert_eq!(channels[1][0].len(), 2);
    // with unit tables, dequantized coefficients equal the originals
    assert_eq!(channels[1][0][0][0][0], 40);
    assert_eq!(channels[1][0][0][3][4], -6);
    assert_eq!(channels[1][0][1][0][0], 35);
    assert_eq!(channels[1][0][1][7][7], 2);
    // the untouched channels stay zero
    assert_eq!(channels[0][0][0][5][5], 0);
}
