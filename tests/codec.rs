use gcr::GCR;

const CODE_WORDS: [u8; 16] = [
    0b01010, 0b01011, 0b10010, 0b10011, 0b01110, 0b01111, 0b10110, 0b10111, 0b01001, 0b11001,
    0b11010, 0b11011, 0b01101, 0b11101, 0b11110, 0b10101,
];

/// Five bytes whose eight 5-bit fields all hold `c`.
fn group_of_fields(c: u8) -> Vec<u8> {
    let mut v: u64 = 0;
    for _ in 0..8 {
        v = (v << 5) | (c as u64);
    }
    v.to_be_bytes()[3..].to_vec()
}

#[test]
fn decode_works() {
    let gcr = GCR::new();
    let final_data: Vec<u8> = vec![0x52, 0x54, 0xb5, 0x29, 0x4b, 0x9a, 0xa6, 0xa5, 0x29, 0x4a];
    assert_eq!(
        gcr.decode(&final_data).unwrap(),
        vec![0x08, 0x01, 0x00, 0x01, 0x30, 0x30, 0x00, 0x00]
    );
}

#[test]
fn encode_works() {
    let flux = GCR::new();
    let data: Vec<u8> = vec![0x08, 0x01, 0x00, 0x01, 0x30, 0x30, 0x00, 0x00];
    assert_eq!(
        flux.encode(&data),
        vec![0x52, 0x54, 0xb5, 0x29, 0x4b, 0x9a, 0xa6, 0xa5, 0x29, 0x4a]
    );
}

#[test]
fn empty_buffers() {
    let gcr = GCR::new();
    assert_eq!(gcr.encode(&[]), Vec::<u8>::new());
    assert_eq!(gcr.decode(&[]), Some(Vec::new()));
}

#[test]
fn all_ones_group_fails() {
    let gcr = GCR::new();
    assert_eq!(gcr.decode(&[0xFF, 0xFF, 0xFF, 0xFF, 0xFF]), None);
}

#[test]
fn exact_groups() {
    let gcr = GCR::new();
    assert_eq!(gcr.encode(&[0, 0, 0, 0]), vec![0x52, 0x94, 0xa5, 0x29, 0x4a]);
    assert_eq!(gcr.encode(&[0xff, 0xff, 0xff, 0xff]), vec![0xad, 0x6b, 0x5a, 0xd6, 0xb5]);
    assert_eq!(gcr.encode(&[0x12, 0x34, 0x56, 0x78]), vec![0x5c, 0xa6, 0xe7, 0xda, 0xe9]);
    assert_eq!(gcr.decode(&[0x5c, 0xa6, 0xe7, 0xda, 0xe9]), Some(vec![0x12, 0x34, 0x56, 0x78]));
}

#[test]
fn round_trip_every_byte() {
    let gcr = GCR::new();
    let data: Vec<u8> = (0..=255u8).collect();
    let encoded = gcr.encode(&data);
    assert_eq!(encoded.len(), 320);
    assert_eq!(gcr.decode(&encoded), Some(data));
}

#[test]
fn round_trip_small_buffers() {
    let gcr = GCR::new();
    for data in [vec![0xde, 0xad, 0xbe, 0xef], vec![1, 2, 3, 4, 5, 6, 7, 8], vec![0; 12]] {
        assert_eq!(gcr.decode(&gcr.encode(&data)), Some(data.clone()));
    }
}

#[test]
fn every_code_word_decodes_to_its_nibble() {
    let gcr = GCR::new();
    for (n, c) in CODE_WORDS.iter().enumerate() {
        let byte = (n as u8) << 4 | n as u8;
        assert_eq!(gcr.decode(&group_of_fields(*c)), Some(vec![byte; 4]));
        assert_eq!(gcr.encode(&[byte; 4]), group_of_fields(*c));
    }
}

#[test]
fn other_five_bit_values_are_rejected() {
    let gcr = GCR::new();
    let mut rejected = 0;
    for c in 0..32u8 {
        if !CODE_WORDS.contains(&c) {
            assert_eq!(gcr.decode(&group_of_fields(c)), None);
            rejected += 1;
        }
    }
    assert_eq!(rejected, 16);
}

#[test]
fn encode_drops_incomplete_group() {
    let gcr = GCR::new();
    let whole = gcr.encode(&[0x12, 0x34, 0x56, 0x78]);
    for extra in 1..4 {
        let mut data = vec![0x12, 0x34, 0x56, 0x78];
        data.extend(std::iter::repeat(0xAB).take(extra));
        assert_eq!(gcr.encode(&data), whole);
    }
    assert_eq!(gcr.encode(&[1, 2, 3]), Vec::<u8>::new());
    assert_eq!(gcr.encode(&[0; 11]).len(), 10);
}

#[test]
fn decode_drops_incomplete_group() {
    let gcr = GCR::new();
    for extra in 1..5 {
        let mut data = vec![0x5c, 0xa6, 0xe7, 0xda, 0xe9];
        data.extend(std::iter::repeat(0xFF).take(extra));
        assert_eq!(gcr.decode(&data), Some(vec![0x12, 0x34, 0x56, 0x78]));
    }
    assert_eq!(gcr.decode(&[0xFF, 0xFF, 0xFF, 0xFF]), Some(Vec::new()));
}

#[test]
fn one_bad_group_fails_the_buffer() {
    let gcr = GCR::new();
    let good = gcr.encode(&[0x12, 0x34, 0x56, 0x78]);
    let bad = vec![0xFF; 5];
    let mut bad_last = good.clone();
    bad_last.extend(&bad);
    assert_eq!(gcr.decode(&bad_last), None);
    let mut bad_first = bad.clone();
    bad_first.extend(&good);
    assert_eq!(gcr.decode(&bad_first), None);
    let mut bad_middle = good.clone();
    bad_middle.extend(&bad);
    bad_middle.extend(&good);
    assert_eq!(gcr.decode(&bad_middle), None);
}

#[test]
fn single_bad_field_fails_the_group() {
    let gcr = GCR::new();
    let mut data = gcr.encode(&[0, 0, 0, 0]);
    data[4] = (data[4] & 0xe0) | 0b00000;
    assert_eq!(gcr.decode(&data), None);
}
