use fwdl::orchestrate::{ChunksError, NumChunks};
use fwdl::paths::add_extension;
use fwdl::pipeline::{Checksum, PipelineError};

/// The classic CRC-32 check value: crc32("123456789") == 0xCBF43926.
#[test]
fn crc_known_check_value() {
    let mut c = Checksum::new();
    c.absorb(&b"123456789".to_vec());
    assert_eq!(c.absorbed(), 9);
    assert_eq!(c.finish(0xCBF43926), Ok(0xCBF43926));
}

#[test]
fn crc_chunked_equals_whole() {
    let data: Vec<u8> = (0u32..100_000).map(|i| (i * 7 + 3) as u8).collect();
    let expected = crc32fast::hash(&data);

    let mut whole = Checksum::new();
    whole.absorb(&data);
    assert!(whole.finish(expected).is_ok());

    let mut chunked = Checksum::new();
    for chunk in data.chunks(4096) {
        chunked.absorb(&chunk.to_vec());
    }
    assert!(chunked.finish(expected).is_ok());
}

#[test]
fn checksum_mismatch_on_bit_flip() {
    let mut data: Vec<u8> = (0u32..4096).map(|i| (i % 251) as u8).collect();
    let expected = crc32fast::hash(&data);

    // A single flipped bit in the ciphertext must fail verification.
    data[1000] ^= 0x01;
    let mut c = Checksum::new();
    c.absorb(&data);
    match c.finish(expected) {
        Err(PipelineError::ChecksumMismatch { expected: e, computed }) => {
            assert_eq!(e, expected);
            assert_eq!(computed, crc32fast::hash(&data));
            assert_ne!(computed, e);
        }
        Ok(_) => panic!("a corrupted download passed the checksum comparison"),
    }
}

#[test]
fn checksum_of_nothing() {
    let c = Checksum::new();
    assert_eq!(c.finish(0), Ok(0));
}

#[test]
fn extension_is_appended() {
    assert_eq!(add_extension("firmware.bin", "enc4"), "firmware.bin.enc4");
    assert_eq!(add_extension("firmware.bin.enc4", "fwdl_state"), "firmware.bin.enc4.fwdl_state");
}

#[test]
fn chunk_count_bounds() {
    assert_eq!(NumChunks::new(0), Err(ChunksError::Zero));
    assert_eq!(NumChunks::new(17), Err(ChunksError::TooMany));
    assert_eq!(NumChunks::new(1).unwrap().0, 1);
    assert_eq!(NumChunks::new(16).unwrap().0, 16);
}
