use keccak::keccak256;
use keccak::sponge::{absorb_block, padded_block, squeeze, DIGEST_BYTES, RATE_BYTES, RATE_LANES};

fn hex(digest: &[u8]) -> String {
    let mut text = String::new();
    for byte in digest {
        text.push_str(&format!("{:02x}", byte));
    }
    text
}

fn padded(input: &Vec<u8>) -> Vec<u8> {
    let mut buffer = Vec::new();
    for k in 0..=input.len() / RATE_BYTES {
        buffer.extend_from_slice(&padded_block(input, k));
    }
    buffer
}

fn differing_bits(a: &[u8; 32], b: &[u8; 32]) -> u32 {
    let mut count = 0;
    for i in 0..32 {
        count += (a[i] ^ b[i]).count_ones();
    }
    count
}

#[test]
fn test_keccak256() {
    let input = vec![61u8; 2];
    let output = keccak256(input);
    println!("{:?}", output);
}

#[test]
fn digest_of_two_equal_signs() {
    assert_eq!(
        hex(&keccak256(vec![61u8; 2])),
        "f1d1d5398557ea93f598823a818a0db304ac4a8fb0b1507dd4acb5e1241b7ca9"
    );
}

#[test]
fn digest_of_the_empty_input() {
    assert_eq!(
        hex(&keccak256(Vec::new())),
        "dbf40a0a62abebd9f78f19ebf21f807f4c892b5c05c36e6de2617e04fa5aed34"
    );
}

#[test]
fn digest_of_abc() {
    assert_eq!(
        hex(&keccak256(vec![0x61, 0x62, 0x63])),
        "3b36d67ab5e4fe328ab3f7ff9816a7349612f64d04d8099e601488bb4726ef50"
    );
}

#[test]
fn digests_around_one_block() {
    assert_eq!(
        hex(&keccak256(vec![0u8; 135])),
        "29e3704feeca7fb9ba229f0fa04d9b36449cf3ad6e1d85d9cfff3a10df9abc3e"
    );
    assert_eq!(
        hex(&keccak256(vec![0u8; 136])),
        "88263876d4bd129702d61648b0c495d6a81a2893d893d08ff35fde3aeafb1e7e"
    );
    assert_eq!(
        hex(&keccak256(vec![0u8; 137])),
        "5247c11e9f66cc3d99657b66bc20363b54137460bc1ad860ca136bc3378e7317"
    );
}

#[test]
fn digests_around_two_blocks() {
    let mut input: Vec<u8> = (0..=255u8).collect();
    input.extend_from_slice(&[0u8; 16]);
    assert_eq!(input.len(), 272);
    assert_eq!(
        hex(&keccak256(input.clone())),
        "494f3271adc352e1614db30cf56b6033d309f4318dd30dc263b128f0f6c55c15"
    );
    input.push(0);
    assert_eq!(
        hex(&keccak256(input)),
        "8453999ed3e8e7a33fcd2c663ec3df215beae619d48aeeb53ed4632a7713fe31"
    );
}

#[test]
fn same_input_same_digest() {
    for len in [0usize, 1, 3, 135, 136, 137, 400] {
        let input: Vec<u8> = (0..len).map(|i| (i * 7 + 3) as u8).collect();
        assert_eq!(keccak256(input.clone()), keccak256(input));
    }
}

#[test]
fn digest_has_thirty_two_bytes() {
    assert_eq!(DIGEST_BYTES, 32);
    for len in [0usize, 1, 135, 136, 137, 272, 273, 1000] {
        let digest = keccak256(vec![0xa5u8; len]);
        assert_eq!(digest.len(), DIGEST_BYTES);
    }
}

#[test]
fn whole_blocks_and_one_byte_more_differ() {
    for k in 0..4usize {
        let whole = vec![0x5au8; RATE_BYTES * k];
        let mut more = whole.clone();
        more.push(0x5a);
        let a = keccak256(whole);
        let b = keccak256(more);
        assert_eq!(a.len(), 32);
        assert_eq!(b.len(), 32);
        assert_ne!(a, b);
    }
}

#[test]
fn one_flipped_bit_changes_about_half_the_digest() {
    let base = vec![0x61u8, 0x62, 0x63];
    let digest = keccak256(base.clone());
    let mut total = 0;
    for bit in 0..24 {
        let mut flipped = base.clone();
        flipped[bit / 8] ^= 1 << (bit % 8);
        let other = keccak256(flipped);
        let changed = differing_bits(&digest, &other);
        assert!(changed >= 96 && changed <= 160);
        total += changed;
    }
    assert_eq!(total, 3080);
    let average = total as f64 / 24.0;
    assert!(average > 120.0 && average < 136.0);
}

#[test]
fn padding_of_the_empty_input_is_one_block() {
    let block = padded_block(&Vec::new(), 0);
    let mut expected = [0u8; 136];
    expected[0] = 0x80;
    expected[135] = 0x01;
    assert_eq!(block, expected);
}

#[test]
fn padding_of_a_short_input() {
    let block = padded_block(&vec![0x61, 0x62, 0x63], 0);
    let mut expected = [0u8; 136];
    expected[0] = 0x61;
    expected[1] = 0x62;
    expected[2] = 0x63;
    expected[3] = 0x80;
    expected[135] = 0x01;
    assert_eq!(block, expected);
}

#[test]
fn both_markers_share_a_single_padding_byte() {
    let input = vec![0x11u8; 135];
    let block = padded_block(&input, 0);
    assert_eq!(block[..135], [0x11u8; 135]);
    assert_eq!(block[135], 0x81);
    assert_eq!(padded(&input).len(), 136);
}

#[test]
fn a_whole_block_of_input_gets_a_block_of_padding() {
    let input = vec![0xffu8; 136];
    assert_eq!(padded_block(&input, 0), [0xffu8; 136]);
    let mut expected = [0u8; 136];
    expected[0] = 0x80;
    expected[135] = 0x01;
    assert_eq!(padded_block(&input, 1), expected);
    assert_eq!(padded(&input).len(), 272);
}

#[test]
fn padded_length_is_the_next_multiple_of_the_rate() {
    for len in [0usize, 1, 7, 8, 134, 135, 136, 137, 271, 272, 273, 1000] {
        let input = vec![0x33u8; len];
        let buffer = padded(&input);
        assert!(buffer.len() > 0);
        assert_eq!(buffer.len() % RATE_BYTES, 0);
        assert!(buffer.len() > len);
        assert!(buffer.len() <= len + RATE_BYTES);
        assert_eq!(buffer.len(), (len / 136 + 1) * 136);
        assert_eq!(buffer[..len], input[..]);
        assert_eq!(buffer[len] & 0x80, 0x80);
        assert_eq!(buffer[buffer.len() - 1] & 0x01, 0x01);
        for i in len + 1..buffer.len() - 1 {
            assert_eq!(buffer[i], 0);
        }
    }
}

#[test]
fn absorbing_adds_to_the_rate_lanes_only() {
    let mut block = [0u8; 136];
    for i in 0..136 {
        block[i] = (i as u8).wrapping_mul(29).wrapping_add(1);
    }
    let mut start = [0u64; 25];
    for i in 0..25 {
        start[i] = 0x0101_0101_0101_0101u64.wrapping_mul(i as u64 + 1);
    }
    let mut absorbed = start;
    absorb_block(&mut absorbed, &block);

    let mut expected = start;
    for j in 0..RATE_LANES {
        let mut lane = 0u64;
        for i in 0..8 {
            lane |= (block[8 * j + i] as u64) << (8 * i);
        }
        expected[j] ^= lane;
    }
    keccak::permutation::keccakf(&mut expected);
    assert_eq!(absorbed, expected);
}

#[test]
fn absorbing_a_zero_block_is_the_permutation_alone() {
    let mut state = [0u64; 25];
    absorb_block(&mut state, &[0u8; 136]);
    assert_eq!(state[0], 0xf1258f7940e1dde7);
    assert_eq!(state[24], 0xeaf1ff7b5ceca249);
}

#[test]
fn squeeze_reads_the_first_four_lanes() {
    let mut state = [0xeeee_eeee_eeee_eeeeu64; 25];
    state[0] = 0x0706_0504_0302_0100;
    state[1] = 0x0f0e_0d0c_0b0a_0908;
    state[2] = 0x1716_1514_1312_1110;
    state[3] = 0x1f1e_1d1c_1b1a_1918;
    let digest = squeeze(&state);
    for i in 0..32 {
        assert_eq!(digest[i], i as u8);
    }
}

#[test]
fn digest_is_absorb_then_squeeze_over_the_padded_blocks() {
    let input: Vec<u8> = (0..300usize).map(|i| (i % 251) as u8).collect();
    let mut state = [0u64; 25];
    for k in 0..=input.len() / RATE_BYTES {
        absorb_block(&mut state, &padded_block(&input, k));
    }
    assert_eq!(squeeze(&state), keccak256(input));
}

#[test]
fn blocks_with_the_markers_at_bit_zero_and_bit_seven_give_the_published_digests() {
    let mut block = [0u8; 136];
    block[0] = 0x01;
    block[135] = 0x80;
    let mut state = [0u64; 25];
    absorb_block(&mut state, &block);
    assert_eq!(
        hex(&squeeze(&state)),
        "c5d2460186f7233c927e7db2dcc703c0e500b653ca82273b7bfad8045d85a470"
    );

    let mut block = [0u8; 136];
    block[0] = 0x61;
    block[1] = 0x62;
    block[2] = 0x63;
    block[3] = 0x01;
    block[135] = 0x80;
    let mut state = [0u64; 25];
    absorb_block(&mut state, &block);
    assert_eq!(
        hex(&squeeze(&state)),
        "4e03657aea45a94fc7d47ba826c8d667c0d1e6e33a64a036ec44f58fa12d6c45"
    );
}

#[test]
fn digests_are_not_the_published_ones() {
    assert_ne!(
        hex(&keccak256(Vec::new())),
        "c5d2460186f7233c927e7db2dcc703c0e500b653ca82273b7bfad8045d85a470"
    );
    assert_ne!(
        hex(&keccak256(vec![0x61, 0x62, 0x63])),
        "4e03657aea45a94fc7d47ba826c8d667c0d1e6e33a64a036ec44f58fa12d6c45"
    );
}
