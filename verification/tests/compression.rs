use rusty_chromaprint::compression::{
    compress_fingerprint, decompress_fingerprint, DecompressError,
};
use rusty_chromaprint::fingerprinter::Configuration;
use rusty_chromaprint::packing::{
    iter_packed_intn_array, packed_intn_array_len, read_packed, unpack_intn_array,
};
use rusty_chromaprint::FingerprintCompressor;

const ONE_BYTE: [u8; 1] = [0b1011_1010];
const NINE_BYTES: [u8; 9] = [
    0b1010_1010,
    0b0011_0011,
    0b1100_1100,
    0b1100_0111,
    0b0101_0101,
    0b1100_1100,
    0b1010_1010,
    0b0000_0000,
    0b1111_1111,
];
const SIXTYFOUR_BYTES: [u8; 64] = [
    0xA2, 0x87, 0xE3, 0xED, 0xAA, 0xD7, 0xE8, 0x94, 0x53, 0x4E, 0x9B, 0xD5, 0x83, 0x12, 0x05,
    0x43, 0x67, 0x7E, 0x0A, 0xAF, 0x2D, 0x85, 0xB4, 0x03, 0xEB, 0x13, 0x8E, 0x47, 0x07, 0xA6,
    0x76, 0x5D, 0x43, 0x67, 0x8D, 0x9F, 0xEA, 0xAD, 0x3F, 0x34, 0x86, 0xF4, 0x25, 0xC8, 0xA2,
    0xBF, 0xF1, 0x22, 0xB5, 0xA6, 0xB8, 0x4A, 0xED, 0xA2, 0xF5, 0x25, 0xDB, 0x62, 0x70, 0xC2,
    0xB7, 0x9C, 0xB1, 0x3C,
];

#[test]
fn test_iter_packed_int3_array_single_byte() {
    const N: usize = 3;
    let packed = iter_packed_intn_array::<N>(&ONE_BYTE);
    assert_eq!(packed.len(), packed_intn_array_len(ONE_BYTE.len(), N));
    assert_eq!(&packed, &[0b0000_0010]);
}

#[test]
fn test_iter_packed_int3_array_some_bytes() {
    const N: usize = 3;
    let packed = iter_packed_intn_array::<N>(&NINE_BYTES);
    assert_eq!(packed.len(), packed_intn_array_len(NINE_BYTES.len(), N));
    assert_eq!(
        &packed,
        &[0b0001_1010, 0b0101_1111, 0b0000_1010, 0b0000_0111]
    );
}

#[test]
fn test_iter_packed_int3_array_many_bytes() {
    const N: usize = 3;
    let packed = iter_packed_intn_array::<N>(&SIXTYFOUR_BYTES);
    assert_eq!(
        packed.len(),
        packed_intn_array_len(SIXTYFOUR_BYTES.len(), N)
    );
    assert_eq!(
        &packed,
        &[
            0xFA, 0xAA, 0x83, 0xF3, 0x3A, 0x75, 0xB7, 0xDE, 0x72, 0x9B, 0x7F, 0xBB, 0x7B, 0xAF,
            0x9E, 0x66, 0xA1, 0x47, 0x35, 0x54, 0xB5, 0x13, 0x74, 0x86
        ],
    );
}

#[test]
fn test_iter_packed_int5_array_many_bytes() {
    const N: usize = 5;
    let packed = iter_packed_intn_array::<N>(&SIXTYFOUR_BYTES);
    assert_eq!(
        packed.len(),
        packed_intn_array_len(SIXTYFOUR_BYTES.len(), N)
    );
    assert_eq!(
        &packed,
        &[
            0xE2, 0x8C, 0xA6, 0x2E, 0xA2, 0xD3, 0xED, 0x3A, 0x64, 0x19, 0xC7, 0xAB, 0xD7, 0x0A,
            0x1D, 0x6B, 0xBA, 0x73, 0x8C, 0xED, 0xE3, 0xB4, 0xAF, 0xDA, 0xA7, 0x86, 0x16, 0x24,
            0x7E, 0x14, 0xD5, 0x60, 0xD5, 0x44, 0x2D, 0x5B, 0x40, 0x71, 0x79, 0xE4,
        ],
    );
}

#[test]
fn test_iter_packed_int5_array_single_byte() {
    const N: usize = 5;
    let packed = iter_packed_intn_array::<N>(&ONE_BYTE);
    assert_eq!(packed.len(), packed_intn_array_len(ONE_BYTE.len(), N));
    assert_eq!(&packed, &[0b0001_1010]);
}

#[test]
fn test_iter_packed_int5_array_some_bytes() {
    const N: usize = 5;
    let packed = iter_packed_intn_array::<N>(&NINE_BYTES);
    assert_eq!(packed.len(), packed_intn_array_len(NINE_BYTES.len(), N));
    assert_eq!(
        &packed,
        &[
            0b0110_1010,
            0b1011_0010,
            0b0101_0011,
            0b1001_1001,
            0b0000_0010,
            0b0001_1111
        ]
    );
}

#[test]
fn test_compression() {
    const INPUT: [u32; 32] = [
        0x0FCAF446, 0xE3519E89, 0xD3494DD6, 0x8F219806, 0x9200D530, 0x06B1D52F, 0xB48CC681,
        0x428991C3, 0x59AFBD6B, 0x6ECFB2E5, 0xE8EB7BC3, 0x99A44270, 0x31FFEC13, 0x4A4D81DA,
        0x53887C82, 0x2BB7BEC2, 0xAB895A65, 0x9D7C0AE4, 0xDA356857, 0xE030F7D8, 0x4D428EEE,
        0x0558E019, 0xC3278998, 0xA1D035E4, 0x582E98E5, 0x44C8B708, 0x2E8BA9E2, 0xCB13BC48,
        0xB169A3D8, 0x861274AF, 0x1213EF1C, 0x1F9F06B8,
    ];

    const OUTPUT: [u8; 220] = [
        0x01, 0x00, 0x00, 0x20, 0x0A, 0xA9, 0x24, 0xD2, 0x92, 0x24, 0x48, 0x92, 0x45, 0x52,
        0x14, 0x65, 0x8B, 0x12, 0x24, 0x49, 0xA4, 0x4C, 0x61, 0x1E, 0x54, 0x89, 0xA4, 0x50,
        0x61, 0x22, 0x28, 0xCA, 0x94, 0xA9, 0x53, 0x82, 0x24, 0xC9, 0x19, 0x4D, 0x83, 0x12,
        0x29, 0x19, 0x95, 0x84, 0x8B, 0xA0, 0x2A, 0x91, 0xA4, 0x47, 0x49, 0x40, 0x69, 0x11,
        0xB3, 0x45, 0x81, 0x12, 0x26, 0xC9, 0xA3, 0x44, 0x81, 0xB2, 0x6D, 0xD9, 0x98, 0x22,
        0x59, 0x94, 0x25, 0x4B, 0x32, 0x31, 0x41, 0xC2, 0x2C, 0x91, 0x12, 0x45, 0x95, 0x90,
        0x2D, 0x51, 0x94, 0x2D, 0x4A, 0x94, 0x04, 0x8C, 0xA4, 0x24, 0x49, 0xC4, 0x64, 0xC1,
        0xD7, 0x24, 0x49, 0xE2, 0x24, 0x48, 0x32, 0x6D, 0x89, 0x92, 0xE4, 0xC8, 0x2B, 0x49,
        0x49, 0x14, 0x05, 0xC9, 0x22, 0x31, 0xDA, 0x94, 0x10, 0x49, 0xC2, 0x24, 0xC9, 0xA2,
        0x2B, 0x81, 0xA2, 0x6C, 0x49, 0xB6, 0x44, 0x8A, 0x84, 0x24, 0x4A, 0xA2, 0x44, 0x99,
        0xF2, 0x21, 0xCF, 0x14, 0x25, 0x49, 0xB2, 0x30, 0x58, 0x92, 0x30, 0x89, 0x92, 0x28,
        0x89, 0x18, 0xE4, 0x8A, 0xA4, 0x24, 0x49, 0xB2, 0x24, 0x41, 0x14, 0x25, 0x49, 0x22,
        0x66, 0xC9, 0x12, 0x48, 0x4A, 0x94, 0x84, 0xE9, 0xA4, 0x40, 0x92, 0x22, 0x3D, 0x8B,
        0x96, 0xA0, 0x4B, 0x92, 0x54, 0x49, 0xA6, 0x24, 0x48, 0xA2, 0x44, 0x89, 0x94, 0x44,
        0x49, 0x94, 0x28, 0x48, 0x16, 0x25, 0xCA, 0x72, 0x0D, 0x9B, 0x32, 0x25, 0x0B, 0xA3,
        0x00, 0xA1, 0x80, 0x01, 0x06, 0x00, 0x00, 0x04, 0x30, 0x00,
    ];

    let config = Configuration::default();
    let compressor = FingerprintCompressor::from(&config);
    let output = compressor.compress(&INPUT);
    assert_eq!(output, OUTPUT);
}

const COMPRESSION_INPUT: [u32; 32] = [
    0x0FCAF446, 0xE3519E89, 0xD3494DD6, 0x8F219806, 0x9200D530, 0x06B1D52F, 0xB48CC681,
    0x428991C3, 0x59AFBD6B, 0x6ECFB2E5, 0xE8EB7BC3, 0x99A44270, 0x31FFEC13, 0x4A4D81DA,
    0x53887C82, 0x2BB7BEC2, 0xAB895A65, 0x9D7C0AE4, 0xDA356857, 0xE030F7D8, 0x4D428EEE,
    0x0558E019, 0xC3278998, 0xA1D035E4, 0x582E98E5, 0x44C8B708, 0x2E8BA9E2, 0xCB13BC48,
    0xB169A3D8, 0x861274AF, 0x1213EF1C, 0x1F9F06B8,
];

#[test]
fn compression_round_trip() {
    for algorithm in [0u8, 1, 4, 255] {
        let compressed = compress_fingerprint(algorithm, &COMPRESSION_INPUT);
        assert_eq!(
            decompress_fingerprint(&compressed),
            Ok((algorithm, COMPRESSION_INPUT.to_vec()))
        );
    }
    let edge = [0u32, 0xffff_ffff, 0xffff_ffff, 0x8000_0000, 1, 0, 0x8000_0001, 0x0100_0040];
    let compressed = compress_fingerprint(2, &edge);
    assert_eq!(decompress_fingerprint(&compressed), Ok((2, edge.to_vec())));
    assert_eq!(decompress_fingerprint(&compress_fingerprint(3, &[])), Ok((3, vec![])));
}

#[test]
fn compression_of_small_fingerprints() {
    assert_eq!(compress_fingerprint(1, &[]), vec![1, 0, 0, 0]);
    assert_eq!(compress_fingerprint(1, &[0]), vec![1, 0, 0, 1, 0]);
    assert_eq!(compress_fingerprint(1, &[1]), vec![1, 0, 0, 1, 1]);
    // the highest bit alone is a gap of 32: the normal value 7 and the
    // exceptional value 25
    assert_eq!(compress_fingerprint(0, &[0x8000_0000]), vec![0, 0, 0, 1, 7, 25]);
    // the second item is the same as the first: its difference has no bit
    assert_eq!(compress_fingerprint(4, &[5, 5]), vec![4, 0, 0, 2, 0b0001_0001, 0]);
}

#[test]
fn compressor_takes_the_algorithm_from_the_configuration() {
    for (config, id) in [
        (Configuration::preset_test1(), 0u8),
        (Configuration::preset_test2(), 1),
        (Configuration::preset_test3(), 2),
        (Configuration::preset_test4(), 3),
        (Configuration::preset_test5(), 4),
    ] {
        let output = FingerprintCompressor::from(&config).compress(&[1]);
        assert_eq!(output, vec![id, 0, 0, 1, 1]);
    }
}

#[test]
fn decompress_refuses_malformed_bytes() {
    let malformed = Err(DecompressError::MalformedFingerprint);
    // no whole header
    assert_eq!(decompress_fingerprint(&[]), malformed);
    assert_eq!(decompress_fingerprint(&[1, 0, 0]), malformed);
    // one item announced, none there
    assert_eq!(decompress_fingerprint(&[1, 0, 0, 1]), malformed);
    // the normal values end before the word does
    assert_eq!(decompress_fingerprint(&[1, 0, 0, 1, 0b1111_1111]), malformed);
    // the exceptional value is missing
    assert_eq!(decompress_fingerprint(&[0, 0, 0, 1, 7]), malformed);
    // two gaps of 32 lead beyond the word
    assert_eq!(decompress_fingerprint(&[0, 0, 0, 1, 63, 0, 57, 3]), malformed);
    // a gap of 32 and one of 7 lead beyond it as well
    assert_eq!(decompress_fingerprint(&[0, 0, 0, 1, 63, 0, 25, 0]), malformed);
    // every proper beginning of a compressed fingerprint is refused
    let compressed = compress_fingerprint(1, &COMPRESSION_INPUT);
    for len in 0..compressed.len() {
        assert_eq!(decompress_fingerprint(&compressed[..len]), malformed, "{}", len);
    }
}

#[test]
fn decompress_reads_no_further_than_needed() {
    assert_eq!(decompress_fingerprint(&[9, 0, 0, 0]), Ok((9, vec![])));
    assert_eq!(decompress_fingerprint(&[9, 0, 0, 0, 1, 2, 3]), Ok((9, vec![])));
    assert_eq!(decompress_fingerprint(&[0, 0, 0, 1, 7, 25, 99]), Ok((0, vec![0x8000_0000])));
    // bits of the last byte of the normal values that belong to no value
    assert_eq!(decompress_fingerprint(&[1, 0, 0, 1, 0b1100_0001]), Ok((1, vec![1])));
}

#[test]
fn unpacking_reads_the_low_bits_first() {
    assert_eq!(unpack_intn_array::<3>(&[0b1110_0000]), vec![0, 4]);
    assert_eq!(unpack_intn_array::<3>(&[0b0000_0111]), vec![7, 0]);
    assert_eq!(unpack_intn_array::<5>(&[0b1110_0000]), vec![0]);
    assert_eq!(unpack_intn_array::<3>(&[]), Vec::<u8>::new());
    assert_eq!(unpack_intn_array::<8>(&[1, 2, 3]), vec![1, 2, 3]);
    assert_eq!(unpack_intn_array::<1>(&[0b0000_0101]), vec![1, 0, 1, 0, 0, 0, 0, 0]);
    assert_eq!(read_packed::<3>(&[0b1100_0000, 0b0000_0001], 2), 7);
    assert_eq!(read_packed::<5>(&[0xE2, 0x8C], 1), 7);
}

#[test]
fn packing_round_trip() {
    for len in 0..40usize {
        let values3: Vec<u8> = (0..len).map(|i| ((i * 5 + 3) % 8) as u8).collect();
        let unpacked = unpack_intn_array::<3>(&iter_packed_intn_array::<3>(&values3));
        assert_eq!(&unpacked[..len], &values3[..]);
        assert!(unpacked[len..].iter().all(|v| *v == 0));
        assert!(unpacked.len() - len < 3);

        let values5: Vec<u8> = (0..len).map(|i| ((i * 7 + 11) % 32) as u8).collect();
        let unpacked = unpack_intn_array::<5>(&iter_packed_intn_array::<5>(&values5));
        assert_eq!(&unpacked[..len], &values5[..]);
        assert!(unpacked[len..].iter().all(|v| *v == 0));
        assert!(unpacked.len() - len < 2);
    }
}

#[test]
fn packed_length() {
    assert_eq!(packed_intn_array_len(0, 3), 0);
    assert_eq!(packed_intn_array_len(1, 3), 1);
    assert_eq!(packed_intn_array_len(8, 3), 3);
    assert_eq!(packed_intn_array_len(9, 3), 4);
    assert_eq!(packed_intn_array_len(8, 5), 5);
    assert_eq!(packed_intn_array_len(3, 5), 2);
}
