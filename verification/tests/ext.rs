use lib::ext::{
    call_outcome, create_outcome, input_buffer, len_to_host, log_topics_bytes, u64_from_host,
    u64_to_host, Error, MAX_LOG_TOPICS,
};
use lib::types::{Address, H256, U256};

#[test]
fn u256_one_is_last_byte() {
    let bytes = U256([1, 0, 0, 0]).to_big_endian();
    let mut expected = [0u8; 32];
    expected[31] = 1;
    assert_eq!(bytes, expected);
}

#[test]
fn u256_limbs_are_little_endian_words_in_big_endian_bytes() {
    let x = U256([0x0102030405060708, 0x1112131415161718, 0x2122232425262728, 0x3132333435363738]);
    let bytes = x.to_big_endian();
    let expected: [u8; 32] = [
        0x31, 0x32, 0x33, 0x34, 0x35, 0x36, 0x37, 0x38, 0x21, 0x22, 0x23, 0x24, 0x25, 0x26, 0x27,
        0x28, 0x11, 0x12, 0x13, 0x14, 0x15, 0x16, 0x17, 0x18, 0x01, 0x02, 0x03, 0x04, 0x05, 0x06,
        0x07, 0x08,
    ];
    assert_eq!(bytes, expected);
}

#[test]
fn u256_max_is_all_ff() {
    let x = U256([u64::MAX; 4]);
    assert_eq!(x.to_big_endian(), [0xffu8; 32]);
    assert_eq!(U256::from_big_endian(&[0xffu8; 32]), x);
}

#[test]
fn u256_from_short_slice_pads_on_the_left() {
    assert_eq!(U256::from_big_endian(&[1, 0]), U256([256, 0, 0, 0]));
    assert_eq!(U256::from_big_endian(&[]), U256([0, 0, 0, 0]));
    let nine = [0x01u8, 0, 0, 0, 0, 0, 0, 0, 0x02];
    assert_eq!(U256::from_big_endian(&nine), U256([2, 1, 0, 0]));
}

#[test]
fn u256_round_trips() {
    let x = U256([0xdead_beef, 7, 0x8000_0000_0000_0000, 42]);
    assert_eq!(U256::from_big_endian(&x.to_big_endian()), x);
    let mut b = [0u8; 32];
    for i in 0..32 {
        b[i] = (i as u8).wrapping_mul(37).wrapping_add(5);
    }
    assert_eq!(U256::from_big_endian(&b).to_big_endian(), b);
}

#[test]
fn zero_values() {
    assert_eq!(Address::zero(), Address([0u8; 20]));
    assert_eq!(H256::zero(), H256([0u8; 32]));
}

#[test]
fn host_i64_conversions() {
    assert_eq!(u64_to_host(5), 5);
    assert_eq!(u64_to_host(u64::MAX), -1);
    assert_eq!(u64_to_host(1 << 63), i64::MIN);
    assert_eq!(u64_from_host(5), 5);
    assert_eq!(u64_from_host(-1), u64::MAX);
    assert_eq!(u64_from_host(i64::MIN), 1 << 63);
    for x in [0u64, 1, 12345, i64::MAX as u64, 1 << 63, u64::MAX - 3] {
        assert_eq!(u64_from_host(u64_to_host(x)), x);
    }
}

#[test]
fn host_length() {
    assert_eq!(len_to_host(0), 0);
    assert_eq!(len_to_host(1024), 1024);
    assert_eq!(len_to_host(u32::MAX as usize), u32::MAX);
}

#[test]
fn call_outcome_zero_is_success() {
    assert_eq!(call_outcome(0), Ok(()));
    assert_eq!(call_outcome(1), Err(Error));
    assert_eq!(call_outcome(-1), Err(Error));
}

#[test]
fn create_outcome_returns_the_address_on_success() {
    let a = Address([7u8; 20]);
    assert_eq!(create_outcome(0, a), Ok(a));
    assert_eq!(create_outcome(1, a), Err(Error));
    assert_eq!(create_outcome(i32::MIN, a), Err(Error));
}

#[test]
fn log_topics_are_contiguous() {
    assert!(log_topics_bytes(&[]).is_empty());
    let t1 = H256([1u8; 32]);
    let t2 = H256([2u8; 32]);
    let bytes = log_topics_bytes(&[t1, t2]);
    assert_eq!(bytes.len(), 64);
    assert!(bytes[..32].iter().all(|b| *b == 1));
    assert!(bytes[32..].iter().all(|b| *b == 2));
    let four = [t1, t2, t1, t2];
    assert_eq!(four.len(), MAX_LOG_TOPICS);
    assert_eq!(log_topics_bytes(&four).len(), 128);
}

#[test]
fn input_buffer_has_the_host_length() {
    assert!(input_buffer(0).is_empty());
    assert_eq!(input_buffer(3), vec![0u8, 0, 0]);
}
