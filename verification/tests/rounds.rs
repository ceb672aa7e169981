use feistel::round::{apply_rounds, xor_into};
use feistel::{f, round_key, FeistelMode};

#[test]
fn round_function_adds_one_then_xors_the_key() {
    assert_eq!(f(&[0x20], &[0x0f]), vec![0x2eu8]);
    assert_eq!(f(&[0x00, 0x41, 0x7f], &[0x00, 0x41, 0xff]), vec![0x01u8, 0x03, 0x7f]);
}

#[test]
fn round_function_wraps_around_at_255() {
    assert_eq!(f(&[0xff], &[0x00]), vec![0x00u8]);
    assert_eq!(f(&[0xff, 0xfe], &[0xaa, 0xff]), vec![0xaau8, 0x00]);
}

#[test]
fn round_function_stops_at_the_shorter_input() {
    assert_eq!(f(&[1, 2, 3], &[0, 0]), vec![2u8, 3]);
    assert_eq!(f(&[1], &[0, 0, 0]), vec![2u8]);
    assert_eq!(f(&[], &[1, 2]), Vec::<u8>::new());
    assert_eq!(f(&[1, 2], &[]), Vec::<u8>::new());
}

#[test]
fn round_function_is_not_its_own_inverse() {
    let key = [0u8];
    let once = f(&[5], &key);
    let twice = f(&once, &key);
    assert_eq!(once, vec![6u8]);
    assert_eq!(twice, vec![7u8]);
}

#[test]
fn round_key_is_the_key_in_every_round() {
    let key = [9u8, 8, 7];
    assert_eq!(round_key(&key, 0), &key);
    assert_eq!(round_key(&key, 1), &key);
    assert_eq!(round_key(&key, 15), &key);
    assert_eq!(round_key(&key, u32::MAX), &key);
    assert_eq!(round_key(&[], 3), &[] as &[u8]);
}

#[test]
fn xor_into_mixes_byte_by_byte() {
    let mut target = vec![0x0fu8, 0xf0, 0xaa];
    xor_into(&mut target, &[0xff, 0xff, 0xaa]);
    assert_eq!(target, vec![0xf0u8, 0x0f, 0x00]);
}

#[test]
fn xor_into_keeps_what_the_other_does_not_reach() {
    let mut target = vec![1u8, 2, 3];
    xor_into(&mut target, &[1]);
    assert_eq!(target, vec![0u8, 2, 3]);
    xor_into(&mut target, &[]);
    assert_eq!(target, vec![0u8, 2, 3]);
    xor_into(&mut target, &[0, 2, 3, 4, 5]);
    assert_eq!(target, vec![0u8, 0, 0]);
}

#[test]
fn no_rounds_leave_the_halves_alone() {
    let mut l = vec![1u8, 2];
    let mut r = vec![3u8, 4];
    apply_rounds(&mut l, &mut r, &[7, 9], 0, FeistelMode::Encrypt);
    assert_eq!((l, r), (vec![1u8, 2], vec![3u8, 4]));
}

#[test]
fn one_round_mixes_left_and_exchanges() {
    let mut l = vec![1u8, 2];
    let mut r = vec![3u8, 4];
    apply_rounds(&mut l, &mut r, &[7, 9], 1, FeistelMode::Encrypt);
    // F(r) = [4 ^ 7, 5 ^ 9] = [3, 12]; l ^ F(r) = [2, 14]
    assert_eq!((l, r), (vec![3u8, 4], vec![2u8, 14]));
}

#[test]
fn two_rounds_on_the_halves() {
    let mut l = vec![1u8, 2];
    let mut r = vec![3u8, 4];
    apply_rounds(&mut l, &mut r, &[7, 9], 2, FeistelMode::Decrypt);
    // after round one: ([3, 4], [2, 14]); F([2, 14]) = [3 ^ 7, 15 ^ 9] = [4, 6]
    assert_eq!((l, r), (vec![2u8, 14], vec![7u8, 2]));
}

#[test]
fn rounds_are_undone_on_the_exchanged_halves() {
    let key = [0x13u8, 0x37, 0x42];
    let mut l = vec![10u8, 20, 30];
    let mut r = vec![40u8, 50, 60];
    apply_rounds(&mut l, &mut r, &key, 11, FeistelMode::Encrypt);
    apply_rounds(&mut r, &mut l, &key, 11, FeistelMode::Decrypt);
    assert_eq!((l, r), (vec![10u8, 20, 30], vec![40u8, 50, 60]));
}
