use erasure_coding::phase1_xor_parity;
use erasure_coding::phase1_xor_parity::{
    byte_to_binary, chunk_to_ascii, chunk_to_binary, decode, encode, recover_chunk, XorEncoded,
    XorError,
};

fn xor_all(encoded: &XorEncoded) -> Vec<u8> {
    let mut acc = vec![0u8; encoded.chunk_size];
    for chunk in &encoded.data_chunks {
        for (i, &byte) in chunk.iter().enumerate() {
            acc[i] ^= byte;
        }
    }
    for (i, &byte) in encoded.parity_chunk.iter().enumerate() {
        acc[i] ^= byte;
    }
    acc
}

#[test]
fn test_phase1_integration() {
    let data = b"Integration test data";
    let encoded = phase1_xor_parity::encode(data, 4).unwrap();
    for i in 0..4 {
        let recovered = phase1_xor_parity::recover_chunk(&encoded, i).unwrap();
        assert_eq!(recovered, encoded.data_chunks[i]);
    }
}

#[test]
fn test_encode_basic() {
    let data = b"HELLO WORLD";
    let encoded = encode(data, 3).unwrap();
    assert_eq!(encoded.data_chunks.len(), 3);
    assert_eq!(encoded.chunk_size, 4);
}

#[test]
fn test_encode_empty_data() {
    let data = b"";
    let result = encode(data, 3);
    assert_eq!(result, Err(XorError::EmptyData));
}

#[test]
fn test_encode_invalid_chunk_count() {
    let data = b"HELLO";
    let result = encode(data, 1);
    assert_eq!(result, Err(XorError::InvalidChunkCount));
}

#[test]
fn test_recover_chunk_all_positions() {
    let data = b"TEST DATA FOR RECOVERY";
    let num_chunks = 4;
    let encoded = encode(data, num_chunks).unwrap();
    for i in 0..num_chunks {
        let recovered = recover_chunk(&encoded, i).unwrap();
        assert_eq!(recovered, encoded.data_chunks[i], "Failed to recover chunk {}", i);
    }
}

#[test]
fn test_recover_invalid_index() {
    let data = b"HELLO";
    let encoded = encode(data, 3).unwrap();
    let result = recover_chunk(&encoded, 5);
    assert_eq!(result, Err(XorError::InvalidChunkIndex));
}

#[test]
fn test_encode_decode_roundtrip() {
    let data = b"The quick brown fox jumps over the lazy dog";
    let original_size = data.len();
    let encoded = encode(data, 5).unwrap();
    let decoded = decode(&encoded, original_size);
    assert_eq!(decoded, data);
}

#[test]
fn test_edge_case_single_byte() {
    let data = b"A";
    let encoded = encode(data, 2).unwrap();
    let recovered = recover_chunk(&encoded, 0).unwrap();
    assert_eq!(recovered, encoded.data_chunks[0]);
}

#[test]
fn test_edge_case_exact_division() {
    let data = b"EXACT12BYTES";
    let encoded = encode(data, 3).unwrap();
    assert_eq!(encoded.chunk_size, 4);
    for chunk in &encoded.data_chunks {
        assert_eq!(chunk.len(), 4);
    }
}

#[test]
fn test_parity_property() {
    let data = b"PARITY TEST";
    let encoded = encode(data, 3).unwrap();
    assert_eq!(xor_all(&encoded), vec![0u8; encoded.chunk_size]);
}

#[test]
fn test_binary_formatting() {
    assert_eq!(byte_to_binary(0b10101010), "10101010");
    assert_eq!(byte_to_binary(0b00000000), "00000000");
    assert_eq!(byte_to_binary(0b11111111), "11111111");
}

#[test]
fn test_ascii_formatting() {
    let chunk = b"Hello!";
    assert_eq!(chunk_to_ascii(chunk), "Hello!");
    let chunk_with_nonprintable = b"Hi\x00\x01!";
    assert_eq!(chunk_to_ascii(chunk_with_nonprintable), "Hi..!");
}

#[test]
fn test_various_chunk_counts() {
    let data = b"Testing with different chunk counts";
    for num_chunks in 2..=10 {
        let encoded = encode(data, num_chunks).unwrap();
        assert_eq!(encoded.data_chunks.len(), num_chunks);
        for i in 0..num_chunks {
            let recovered = recover_chunk(&encoded, i).unwrap();
            assert_eq!(recovered, encoded.data_chunks[i]);
        }
    }
}

#[test]
fn round_trip_for_every_count_up_to_twenty() {
    let inputs: [&[u8]; 4] = [b"A", b"AB", b"HELLO WORLD", b"The quick brown fox jumps over the lazy dog"];
    for data in inputs {
        for n in 2..=20 {
            let encoded = encode(data, n).unwrap();
            assert_eq!(decode(&encoded, data.len()), data.to_vec());
        }
    }
}

#[test]
fn recovery_matches_every_fragment_when_counts_exceed_length() {
    let encoded = encode(b"AB", 5).unwrap();
    assert_eq!(encoded.chunk_size, 1);
    assert_eq!(
        encoded.data_chunks,
        vec![vec![b'A'], vec![b'B'], vec![0u8], vec![0u8], vec![0u8]]
    );
    for i in 0..5 {
        assert_eq!(recover_chunk(&encoded, i).unwrap(), encoded.data_chunks[i]);
    }
    assert_eq!(decode(&encoded, 2), b"AB".to_vec());
}

#[test]
fn parity_cancels_for_many_counts() {
    let data = b"Testing with different chunk counts";
    for n in 2..=20 {
        let encoded = encode(data, n).unwrap();
        assert_eq!(xor_all(&encoded), vec![0u8; encoded.chunk_size]);
    }
}

#[test]
fn parity_is_bytewise_xor() {
    let encoded = encode(b"AB", 2).unwrap();
    assert_eq!(encoded.parity_chunk, vec![0x41 ^ 0x42]);
    let encoded = encode(&[0xF0, 0x0F, 0xFF, 0x01, 0x02, 0x03], 3).unwrap();
    assert_eq!(encoded.parity_chunk, vec![0xF0 ^ 0xFF ^ 0x02, 0x0F ^ 0x01 ^ 0x03]);
}

#[test]
fn empty_input_is_rejected_for_any_count() {
    for n in [0usize, 1, 2, 3, 100, usize::MAX] {
        assert_eq!(encode(b"", n), Err(XorError::EmptyData));
    }
}

#[test]
fn fragment_counts_below_two_are_rejected() {
    assert_eq!(encode(b"HELLO", 0), Err(XorError::InvalidChunkCount));
    assert_eq!(encode(b"X", 1), Err(XorError::InvalidChunkCount));
}

#[test]
fn index_equal_to_count_is_rejected() {
    let encoded = encode(b"HELLO WORLD", 3).unwrap();
    let n = encoded.data_chunks.len();
    assert_eq!(recover_chunk(&encoded, n), Err(XorError::InvalidChunkIndex));
    assert_eq!(recover_chunk(&encoded, usize::MAX), Err(XorError::InvalidChunkIndex));
}

#[test]
fn exact_division_has_no_padding() {
    let encoded = encode(b"EXACT12BYTES", 3).unwrap();
    assert_eq!(encoded.chunk_size, 4);
    assert_eq!(encoded.data_chunks, vec![b"EXAC".to_vec(), b"T12B".to_vec(), b"YTES".to_vec()]);
    assert_eq!(decode(&encoded, 12), b"EXACT12BYTES".to_vec());
}

#[test]
fn uneven_division_pads_last_fragment() {
    let encoded = encode(b"HELLO WORLD", 3).unwrap();
    assert_eq!(encoded.chunk_size, 4);
    assert_eq!(encoded.data_chunks[0], b"HELL".to_vec());
    assert_eq!(encoded.data_chunks[1], b"O WO".to_vec());
    assert_eq!(encoded.data_chunks[2], vec![b'R', b'L', b'D', 0]);
    assert_eq!(decode(&encoded, 11), b"HELLO WORLD".to_vec());
}

#[test]
fn single_byte_minimum_case() {
    let encoded = encode(b"A", 2).unwrap();
    assert_eq!(encoded.chunk_size, 1);
    assert_eq!(encoded.data_chunks, vec![vec![b'A'], vec![0u8]]);
    assert_eq!(recover_chunk(&encoded, 0).unwrap(), vec![b'A']);
    assert_eq!(recover_chunk(&encoded, 1).unwrap(), vec![0u8]);
}

#[test]
fn recovery_ignores_the_lost_fragment_contents() {
    let mut encoded = encode(b"TEST DATA FOR RECOVERY", 4).unwrap();
    let original = encoded.data_chunks[2].clone();
    encoded.data_chunks[2] = vec![0xEE; encoded.chunk_size];
    assert_eq!(recover_chunk(&encoded, 2).unwrap(), original);
}

#[test]
fn decode_with_oversized_length_returns_all_fragments() {
    let encoded = encode(b"HELLO WORLD", 3).unwrap();
    assert_eq!(decode(&encoded, 100), b"HELLO WORLD\0".to_vec());
    assert_eq!(decode(&encoded, 0), Vec::<u8>::new());
    assert_eq!(decode(&encoded, 5), b"HELLO".to_vec());
}

#[test]
fn chunk_to_binary_separates_bytes_with_spaces() {
    assert_eq!(chunk_to_binary(&[0xAA, 0x01, 0x80]), "10101010 00000001 10000000");
    assert_eq!(chunk_to_binary(&[0x0F]), "00001111");
    assert_eq!(chunk_to_binary(&[]), "");
}

#[test]
fn chunk_to_ascii_edges_of_printable_range() {
    assert_eq!(chunk_to_ascii(&[31, 32, 126, 127, 255]), ". ~..");
    assert_eq!(chunk_to_ascii(&[]), "");
}

#[test]
fn error_messages() {
    assert_eq!(XorError::EmptyData.message(), "Input data cannot be empty");
    assert_eq!(XorError::InvalidChunkCount.message(), "Number of chunks must be at least 2");
    assert_eq!(XorError::InvalidChunkIndex.message(), "Chunk index is out of bounds");
}
