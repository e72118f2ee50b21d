use huffrs::block::{compress_block, decode_block, decode_metadata, encode_block};
use huffrs::dict::{populate_dict, DictItem};
use huffrs::freq::{compute_byte_frequencies, FreqEntry};
use huffrs::stream::{compress_bytes, decompress_stream};
use huffrs::tree::{build_huffman_tree, HuffTree};

fn fresh_dict() -> Vec<DictItem> {
    vec![DictItem { bits: 0, width: 0 }; 256]
}

fn lcg_bytes(n: usize, mut seed: u64) -> Vec<u8> {
    let mut v = Vec::with_capacity(n);
    for _ in 0..n {
        seed = seed.wrapping_mul(6364136223846793005).wrapping_add(1442695040888963407);
        v.push((seed >> 33) as u8);
    }
    v
}

fn round_trip(data: &[u8]) {
    let compressed = compress_bytes(data);
    let restored = decompress_stream(&compressed).expect("well-formed stream");
    assert_eq!(restored, data);
}

#[test]
fn round_trip_empty() {
    let compressed = compress_bytes(&[]);
    assert_eq!(compressed.len(), 0);
    assert_eq!(decompress_stream(&[]).expect("empty stream"), Vec::<u8>::new());
}

#[test]
fn round_trip_single_byte() {
    round_trip(&[0x41]);
}

#[test]
fn round_trip_short_text() {
    round_trip(b"the quick brown fox jumps over the lazy dog");
}

#[test]
fn round_trip_all_byte_values() {
    let mut data = Vec::new();
    for i in 0..256usize {
        for _ in 0..=i {
            data.push(i as u8);
        }
    }
    round_trip(&data);
}

#[test]
fn round_trip_block_boundaries() {
    for n in [65535usize, 65536, 65537, 131072, 131073] {
        round_trip(&lcg_bytes(n, n as u64));
    }
}

#[test]
fn round_trip_random_sizes() {
    for (i, n) in [1usize, 2, 7, 255, 256, 1000, 70000].iter().enumerate() {
        round_trip(&lcg_bytes(*n, 17 + i as u64));
    }
}

// A block of one repeated byte value uses a single-leaf tree; the
// documented policy gives it the empty code (width 0), and the block
// round-trips exactly.
#[test]
fn single_symbol_block() {
    let data = vec![0x41u8; 65536];
    let compressed = compress_bytes(&data);
    // one dictionary entry, no packed bytes: the whole block is metadata
    assert_eq!(u16::from_le_bytes([compressed[0], compressed[1]]), 1);
    assert!(compressed.len() < 32);
    round_trip(&data);
}

#[test]
fn single_leaf_dictionary_has_width_zero() {
    let freq = compute_byte_frequencies(&[0x41, 0x41, 0x41]);
    let tree = build_huffman_tree(&freq);
    let mut dict = fresh_dict();
    assert!(populate_dict(0, 0, &tree, &mut dict));
    assert_eq!(dict[0x41].width, 0);
    assert_eq!(dict[0x41].bits, 0);
}

// Frequencies {a:5, b:3, c:1, d:1} canonicalize to a,b,c,d and yield code
// lengths a=1, b=2, c=3, d=3.
#[test]
fn concrete_example_code_lengths() {
    let mut data = Vec::new();
    data.extend_from_slice(b"aaaaa");
    data.extend_from_slice(b"bbb");
    data.push(b'c');
    data.push(b'd');
    let freq = compute_byte_frequencies(&data);
    assert_eq!(
        freq,
        vec![
            FreqEntry { val: b'a', count: 5 },
            FreqEntry { val: b'b', count: 3 },
            FreqEntry { val: b'c', count: 1 },
            FreqEntry { val: b'd', count: 1 },
        ]
    );
    let tree = build_huffman_tree(&freq);
    let mut dict = fresh_dict();
    assert!(populate_dict(0, 0, &tree, &mut dict));
    assert_eq!(dict[b'a' as usize].width, 1);
    assert_eq!(dict[b'b' as usize].width, 2);
    assert_eq!(dict[b'c' as usize].width, 3);
    assert_eq!(dict[b'd' as usize].width, 3);
    round_trip(&data);
}

// The canonical table is sorted by count descending with ties broken by
// byte value ascending, and depends only on the block's contents, not on
// their order.
#[test]
fn canonical_table_is_order_independent() {
    let a = b"abcabcaab".to_vec();
    let mut b = a.clone();
    b.reverse();
    let fa = compute_byte_frequencies(&a);
    let fb = compute_byte_frequencies(&b);
    assert_eq!(fa, fb);
    assert_eq!(
        fa,
        vec![
            FreqEntry { val: b'a', count: 4 },
            FreqEntry { val: b'b', count: 3 },
            FreqEntry { val: b'c', count: 2 },
        ]
    );
    assert_eq!(compress_bytes(&a), compress_bytes(&a.clone()));
}

#[test]
fn tie_break_is_by_byte_value() {
    // equal counts: lower byte values come first
    let freq = compute_byte_frequencies(b"zzyyxx");
    assert_eq!(
        freq,
        vec![
            FreqEntry { val: b'x', count: 2 },
            FreqEntry { val: b'y', count: 2 },
            FreqEntry { val: b'z', count: 2 },
        ]
    );
}

// A block whose packed form does not fit the output capacity is stored raw
// (dictionary-entry count 0) and round-trips via the raw path.
#[test]
fn raw_fallback_when_capacity_exceeded() {
    let data = b"abcdefgh".to_vec();
    let mut dict = fresh_dict();
    let (meta, payload) = encode_block(&data, &mut dict, 1);
    assert_eq!(u16::from_le_bytes([meta[0], meta[1]]), 0);
    assert_eq!(payload, data);
    let mut stream = meta.clone();
    stream.extend_from_slice(&payload);
    assert_eq!(decompress_stream(&stream).expect("raw block"), data);
}

// A dictionary whose codes would exceed 56 bits is rejected, and the caller
// falls back to the raw form.
#[test]
fn dictionary_deeper_than_56_bits_fails() {
    // a left spine 57 nodes deep
    let mut tree = HuffTree::Leaf { val: 0 };
    for i in 1..=57u8 {
        tree = HuffTree::Node {
            left: Box::new(tree),
            right: Box::new(HuffTree::Leaf { val: i }),
        };
    }
    let mut dict = fresh_dict();
    assert!(!populate_dict(0, 0, &tree, &mut dict));
    // one level less fits
    let mut tree = HuffTree::Leaf { val: 0 };
    for i in 1..=56u8 {
        tree = HuffTree::Node {
            left: Box::new(tree),
            right: Box::new(HuffTree::Leaf { val: i }),
        };
    }
    let mut dict = fresh_dict();
    assert!(populate_dict(0, 0, &tree, &mut dict));
    assert_eq!(dict[0].width, 56);
}

#[test]
fn compress_block_reports_exact_fit() {
    // two symbols, one bit each: 8 bytes pack into exactly one byte
    let data = b"abababab";
    let freq = compute_byte_frequencies(data);
    let tree = build_huffman_tree(&freq);
    let mut dict = fresh_dict();
    assert!(populate_dict(0, 0, &tree, &mut dict));
    let (ok, packed) = compress_block(&dict, data, 1);
    assert!(ok);
    assert_eq!(packed.len(), 1);
    let (ok0, _) = compress_block(&dict, data, 0);
    assert!(!ok0);
}

#[test]
fn format_error_on_truncated_length_prefix() {
    assert!(decompress_stream(&[7]).is_err());
}

#[test]
fn format_error_on_oversized_entry_count() {
    // 257 entries cannot exist: only 256 byte values
    let d = 257u16.to_le_bytes();
    assert!(decompress_stream(&[d[0], d[1]]).is_err());
}

#[test]
fn format_error_on_truncated_metadata() {
    // claims one dictionary entry but provides no table
    assert!(decompress_stream(&[1, 0, 65]).is_err());
}

#[test]
fn format_error_on_truncated_payload() {
    let data = lcg_bytes(300, 5);
    let mut compressed = compress_bytes(&data);
    compressed.pop();
    assert!(decompress_stream(&compressed).is_err());
}

#[test]
fn format_error_on_oversized_raw_block() {
    // a raw block claiming more than 65536 bytes is malformed
    let mut stream = vec![0u8, 0];
    stream.extend_from_slice(&70000u32.to_le_bytes());
    stream.extend_from_slice(&vec![0u8; 70000]);
    assert!(decompress_stream(&stream).is_err());
}

#[test]
fn format_error_when_packed_data_runs_out() {
    // an encoded block whose payload holds fewer bits than the decoder needs
    let data = lcg_bytes(4096, 99);
    let compressed = compress_bytes(&data);
    let d = u16::from_le_bytes([compressed[0], compressed[1]]) as usize;
    let meta_len = 2 + 5 * d + 8;
    // keep the metadata but only half of the payload, fixing up nothing:
    // the encoded-byte count then exceeds what is present
    let truncated = &compressed[..meta_len + 8];
    assert!(decompress_stream(truncated).is_err());
}

#[test]
fn decode_metadata_reads_table_and_counts() {
    let data = b"aaabbc".to_vec();
    let mut dict = fresh_dict();
    let (meta, payload) = encode_block(&data, &mut dict, 65536);
    let d = u16::from_le_bytes([meta[0], meta[1]]) as usize;
    assert_eq!(d, 3);
    let (freq, bytes_encoded, bytes_to_decode) = decode_metadata(&meta, 2, d);
    assert_eq!(
        freq,
        vec![
            FreqEntry { val: b'a', count: 3 },
            FreqEntry { val: b'b', count: 2 },
            FreqEntry { val: b'c', count: 1 },
        ]
    );
    assert_eq!(bytes_to_decode, data.len());
    assert_eq!(bytes_encoded, payload.len());
    let decoded = decode_block(&freq, bytes_to_decode, &payload).expect("decodes");
    assert_eq!(decoded, data);
}

// The wire format, byte for byte, for a two-symbol block: entry count 2,
// the canonical table (a then b, one byte value and a 32-bit count each),
// the original byte count, the encoded byte count, then one packed byte
// holding a's code 0 in bit 0 and b's code 1 in bit 1.
#[test]
fn exact_wire_bytes_for_two_symbols() {
    let compressed = compress_bytes(b"ab");
    let expected = vec![
        2, 0, // dictionary entries
        b'a', 1, 0, 0, 0, // a: count 1
        b'b', 1, 0, 0, 0, // b: count 1
        2, 0, 0, 0, // original bytes
        1, 0, 0, 0, // encoded bytes
        0b10, // packed bits, least significant first
    ];
    assert_eq!(compressed, expected);
    assert_eq!(decompress_stream(&expected).expect("round trip"), b"ab".to_vec());
}

// The raw wire format, byte for byte: entry count 0, the byte count, then
// the literal bytes.
#[test]
fn exact_wire_bytes_for_raw_block() {
    let mut dict = fresh_dict();
    let (meta, payload) = encode_block(b"xyz", &mut dict, 0);
    assert_eq!(meta, vec![0, 0, 3, 0, 0, 0]);
    assert_eq!(payload, b"xyz".to_vec());
}

// A raw block whose literal byte count disagrees with the payload length is
// inconsistent.
#[test]
fn raw_block_length_mismatch_is_rejected() {
    let empty: Vec<FreqEntry> = Vec::new();
    assert!(decode_block(&empty, 5, &[1, 2, 3]).is_err());
    assert_eq!(decode_block(&empty, 3, &[1, 2, 3]).expect("lengths agree"), vec![1, 2, 3]);
}
