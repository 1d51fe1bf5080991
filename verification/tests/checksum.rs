use ephemerole::checksum::{Fnv1A, FNV_PRIME, OFFSET_BASIS};

fn digest(bytes: &[u8]) -> u64 {
    let mut hash = Fnv1A::new();
    hash.update_each(bytes);
    hash.finish()
}

#[test]
fn each_agrees() {
    let mut hash1 = Fnv1A::new();
    let mut hash2 = Fnv1A::new();
    hash1.update(1);
    hash1.update(2);
    hash2.update_each(&[1, 2]);
    assert_eq!(hash1.finish(), hash2.finish());
}

#[test]
fn correct_const() {
    assert_eq!(Fnv1A::new().finish(), 0xCBF2_9CE4_8422_2325);
}

#[test]
fn correct_basic() {
    let mut hash = Fnv1A::new();
    hash.update(0x11);
    assert_eq!(hash.finish(), 0xAF63_CC4C_8601_D15C);
}

#[test]
fn correct_nullbyte() {
    let mut hash = Fnv1A::new();
    hash.update(0);
    assert_eq!(hash.finish(), 0xAF63_BD4C_8601_B7DF);
}

#[test]
fn constants_are_the_standard_ones() {
    assert_eq!(OFFSET_BASIS, 14_695_981_039_346_656_037);
    assert_eq!(FNV_PRIME, 1_099_511_628_211);
}

#[test]
fn one_step_is_xor_then_wrapping_multiply() {
    let mut hash = Fnv1A::new();
    hash.update(0xA7);
    assert_eq!(hash.finish(), (OFFSET_BASIS ^ 0xA7).wrapping_mul(FNV_PRIME));
}

#[test]
fn empty_input_leaves_the_offset_basis() {
    assert_eq!(digest(&[]), 0xCBF2_9CE4_8422_2325);
}

#[test]
fn known_vectors() {
    assert_eq!(digest(b"a"), 0xAF63_DC4C_8601_EC8C);
    assert_eq!(digest(b"foobar"), 0x8594_4171_F739_67E8);
    assert_eq!(digest(&[1, 2]), 0x082F_2407_B4E8_902A);
}

#[test]
fn order_matters() {
    assert_ne!(digest(&[1, 2]), digest(&[2, 1]));
}

#[test]
fn split_input_agrees_with_whole_input() {
    let bytes: Vec<u8> = (0u16..300).map(|n| (n % 251) as u8).collect();
    for cut in [0usize, 1, 7, 150, 299, 300] {
        let mut hash = Fnv1A::new();
        hash.update_each(&bytes[..cut]);
        hash.update_each(&bytes[cut..]);
        assert_eq!(hash.finish(), digest(&bytes));
    }
}

#[test]
fn update_each_agrees_with_update_byte_by_byte() {
    let bytes: Vec<u8> = (0u16..300).map(|n| (n * 7 % 256) as u8).collect();
    let mut one_by_one = Fnv1A::new();
    for byte in &bytes {
        one_by_one.update(*byte);
    }
    assert_eq!(one_by_one.finish(), digest(&bytes));
}
