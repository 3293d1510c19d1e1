use nicos_compact_cachedb::codec::{dec, dec_map, enc, enc_map, encode_entry, encode_header};
use nicos_compact_cachedb::dicts::Dicts;

const ALPHABET: &[u8; 16] = b"0123456789.,-[]e";

fn header_fields(bytes: &[u8]) -> (u32, u16, u16, u64) {
    let word = u32::from_le_bytes([bytes[0], bytes[1], bytes[2], bytes[3]]);
    let cat = u16::from_le_bytes([bytes[4], bytes[5]]);
    let sub = u16::from_le_bytes([bytes[6], bytes[7]]);
    let ts = u64::from_le_bytes([
        bytes[8], bytes[9], bytes[10], bytes[11], bytes[12], bytes[13], bytes[14], bytes[15],
    ]);
    (word, cat, sub, ts)
}

#[test]
fn alphabet_maps_round_trip() {
    for (i, b) in ALPHABET.iter().enumerate() {
        assert_eq!(enc_map(*b), Some(i as u8), "symbol {:?}", *b as char);
        assert_eq!(dec_map(i as u8), *b);
    }
    assert_eq!(enc_map(b'x'), None);
    assert_eq!(enc_map(b' '), None);
    assert_eq!(enc_map(b'\''), None);
}

#[test]
fn enc_packs_two_bytes_per_output_byte() {
    // '1' -> 1 in the low nibble, '2' -> 2 in the high nibble
    assert_eq!(enc(b"12.5"), Some(vec![0x21, 0x5A]));
    assert_eq!(enc(b""), Some(vec![]));
    assert_eq!(enc(b"foo"), None);
    assert_eq!(enc(b"12x"), None);
}

#[test]
fn enc_odd_length_leaves_high_nibble_zero() {
    assert_eq!(enc(b"1.5"), Some(vec![0xA1, 0x05]));
}

#[test]
fn dec_inverts_enc_including_odd_length() {
    let even = b"12.5,[-8]e9";
    let packed = enc(even).unwrap();
    assert_eq!(dec(&packed, even.len()), even.to_vec());

    let odd = b"1.5";
    let packed = enc(odd).unwrap();
    assert_eq!(dec(&packed, odd.len()), odd.to_vec());

    assert_eq!(dec(&[], 0), Vec::<u8>::new());
}

#[test]
fn encode_header_is_little_endian() {
    let h = encode_header(0x0102_0304, 0x0506, 0x0708, 0x1112_1314_1516_1718);
    assert_eq!(
        h,
        vec![4, 3, 2, 1, 6, 5, 8, 7, 0x18, 0x17, 0x16, 0x15, 0x14, 0x13, 0x12, 0x11]
    );
}

#[test]
fn literal_value_header_exact() {
    let mut dicts = Dicts::new();
    let ts = 1234.5f64.to_bits();
    let record = encode_entry(7, 9, b"foo", ts, false, &mut dicts).unwrap();
    assert_eq!(record.len(), 16 + 3);
    let (word, cat, sub, got_ts) = header_fields(&record);
    assert_eq!(word, 3, "length with all flag bits clear");
    assert_eq!(cat, 7);
    assert_eq!(sub, 9);
    assert_eq!(got_ts, ts);
    assert_eq!(&record[16..], b"foo");
}

#[test]
fn numeric_value_is_nibble_packed() {
    let mut dicts = Dicts::new();
    let record = encode_entry(1, 2, b"12.5", 0, false, &mut dicts).unwrap();
    assert_eq!(record.len(), 16 + 2);
    let (word, _, _, _) = header_fields(&record);
    // original (unpacked) length 4, with the encoded flag set
    assert_eq!(word, 4 | 0x4000_0000);
    assert_eq!(&record[16..], &[0x21, 0x5A]);
}

#[test]
fn quoted_value_is_dictionary_indexed_despite_letters() {
    let mut dicts = Dicts::new();
    let record = encode_entry(1, 2, b"'hello", 0, false, &mut dicts).unwrap();
    assert_eq!(record.len(), 16, "no payload for a dictionary-indexed value");
    let (word, _, _, _) = header_fields(&record);
    // the sentinel holds index 0, so the fresh value receives index 1
    assert_eq!(word, 1 | 0x2000_0000);
    assert_eq!(dicts.value(1), b"'hello");
}

#[test]
fn parenthesized_value_is_dictionary_indexed() {
    let mut dicts = Dicts::new();
    let record = encode_entry(1, 2, b"(1, 2)", 0, false, &mut dicts).unwrap();
    assert_eq!(record.len(), 16);
    let (word, _, _, _) = header_fields(&record);
    assert_eq!(word, 1 | 0x2000_0000);
}

#[test]
fn sentinel_value_maps_to_preseeded_index_zero() {
    let mut dicts = Dicts::new();
    let record = encode_entry(1, 2, b"-", 0, false, &mut dicts).unwrap();
    assert_eq!(record.len(), 16);
    let (word, _, _, _) = header_fields(&record);
    assert_eq!(word, 0 | 0x2000_0000);
}

#[test]
fn repeated_indexed_value_reuses_its_index() {
    let mut dicts = Dicts::new();
    let first = encode_entry(1, 2, b"'state", 0, false, &mut dicts).unwrap();
    let second = encode_entry(3, 4, b"'state", 1, false, &mut dicts).unwrap();
    let (w1, _, _, _) = header_fields(&first);
    let (w2, _, _, _) = header_fields(&second);
    assert_eq!(w1, w2);
}

#[test]
fn empty_value_packs_to_empty_payload() {
    let mut dicts = Dicts::new();
    let record = encode_entry(1, 2, b"", 0, false, &mut dicts).unwrap();
    assert_eq!(record.len(), 16);
    let (word, _, _, _) = header_fields(&record);
    assert_eq!(word, 0 | 0x4000_0000);
}

#[test]
fn mixed_value_falls_through_to_literal() {
    let mut dicts = Dicts::new();
    // one byte outside the alphabet forces the literal representation
    let record = encode_entry(1, 2, b"12 5", 0, false, &mut dicts).unwrap();
    let (word, _, _, _) = header_fields(&record);
    assert_eq!(word, 4);
    assert_eq!(&record[16..], b"12 5");
}

#[test]
fn expiring_flag_changes_only_header_bit_31() {
    let mut dicts_a = Dicts::new();
    let mut dicts_b = Dicts::new();
    let ts = 99.25f64.to_bits();
    for value in [&b"foo"[..], &b"12.5"[..], &b"'hello"[..], &b"-"[..]] {
        let live = encode_entry(5, 6, value, ts, false, &mut dicts_a).unwrap();
        let expiring = encode_entry(5, 6, value, ts, true, &mut dicts_b).unwrap();
        assert_eq!(live.len(), expiring.len());
        for i in 0..live.len() {
            if i == 3 {
                assert_eq!(expiring[i], live[i] | 0x80);
                assert_eq!(live[i] & 0x80, 0);
            } else {
                assert_eq!(expiring[i], live[i], "byte {} for {:?}", i, value);
            }
        }
    }
}

#[test]
fn indexed_value_containing_terminator_is_refused() {
    let mut dicts = Dicts::new();
    assert!(encode_entry(1, 2, b"'a\nb", 0, false, &mut dicts).is_none());
}

#[test]
fn dash_prefix_alone_does_not_trigger_indexing() {
    let mut dicts = Dicts::new();
    // both bytes are alphabet symbols, so the value is nibble-packed
    let record = encode_entry(1, 2, b"--", 0, false, &mut dicts).unwrap();
    let (word, _, _, _) = header_fields(&record);
    assert_eq!(word, 2 | 0x4000_0000);
    assert_eq!(&record[16..], &[0xCC]);
}

#[test]
fn single_quote_and_single_paren_are_indexed() {
    let mut dicts = Dicts::new();
    let quote = encode_entry(1, 2, b"'", 0, false, &mut dicts).unwrap();
    let paren = encode_entry(1, 2, b"(", 0, false, &mut dicts).unwrap();
    let (wq, _, _, _) = header_fields(&quote);
    let (wp, _, _, _) = header_fields(&paren);
    assert_eq!(wq, 1 | 0x2000_0000);
    assert_eq!(wp, 2 | 0x2000_0000);
}

#[test]
fn literal_value_may_contain_line_terminator() {
    let mut dicts = Dicts::new();
    let record = encode_entry(1, 2, b"a\nb", 0, false, &mut dicts).unwrap();
    let (word, _, _, _) = header_fields(&record);
    assert_eq!(word, 3);
    assert_eq!(&record[16..], b"a\nb");
}

#[test]
fn dec_truncates_to_recorded_length() {
    assert_eq!(dec(&[0x21], 1), b"1".to_vec());
    assert_eq!(dec(&[0x21], 2), b"12".to_vec());
    // a length beyond the payload's capacity leaves the full unpacking
    assert_eq!(dec(&[0x21], 5), b"12".to_vec());
}

#[test]
fn timestamp_bits_survive_float_conversion() {
    let mut dicts = Dicts::new();
    let stamp = 1_600_000_000.125f64;
    let record = encode_entry(0, 0, b"foo", stamp.to_bits(), false, &mut dicts).unwrap();
    let (_, _, _, ts) = header_fields(&record);
    assert_eq!(f64::from_bits(ts), stamp);
}
