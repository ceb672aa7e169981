use feistel::{feistel, FeistelMode};

#[test]
fn one_round_on_one_block() {
    // F(0x20) = 0x21 ^ 0x0f = 0x2e; left = 0x10 ^ 0x2e = 0x3e; right stays
    assert_eq!(
        feistel(&[0x10, 0x20], &[0x0f], 1, FeistelMode::Encrypt),
        Ok(vec![0x3eu8, 0x20])
    );
    // F(0xff) = 0x00 ^ 0x0f
    assert_eq!(
        feistel(&[0x10, 0xff], &[0x0f], 1, FeistelMode::Encrypt),
        Ok(vec![0x1fu8, 0xff])
    );
}

#[test]
fn one_round_on_the_greeting() {
    assert_eq!(
        feistel(b"HALLO WELT!!", b"AAAAAA", 1, FeistelMode::Encrypt),
        Ok(vec![81u8, 70, 64, 88, 44, 67, 87, 69, 76, 84, 33, 33])
    );
}

#[test]
fn two_and_three_rounds_on_the_greeting() {
    assert_eq!(
        feistel(b"HALLO WELT!!", b"AAAAAA", 2, FeistelMode::Encrypt),
        Ok(vec![68u8, 67, 76, 76, 77, 36, 81, 70, 64, 88, 44, 67])
    );
    assert_eq!(
        feistel(b"HALLO WELT!!", b"AAAAAA", 3, FeistelMode::Encrypt),
        Ok(vec![85u8, 67, 76, 84, 35, 39, 68, 67, 76, 76, 77, 36])
    );
}

#[test]
fn sixteen_rounds_on_the_greeting() {
    assert_eq!(
        feistel(b"HALLO WELT!!", b"AAAAAA", 16, FeistelMode::Encrypt),
        Ok(vec![107u8, 86, 64, 88, 40, 53, 93, 75, 76, 84, 43, 63])
    );
}

#[test]
fn sixteen_rounds_on_a_multi_block_message() {
    let message = "This is a really secret message containing all hidden secrets of world history. Nobody should read it ever!";
    let out = feistel(message.as_bytes(), b"123456", 16, FeistelMode::Encrypt).unwrap();
    assert_eq!(
        out[..12],
        [27u8, 123, 32, 96, 102, 57, 73, 38, 111, 38, 114, 101]
    );
    assert_eq!(
        out[96..],
        [38u8, 33, 67, 44, 21, 23, 107, 116, 159, 112, 63, 14]
    );
}

#[test]
fn padded_last_block_is_transformed_too() {
    assert_eq!(
        feistel(&[1, 2, 3, 4, 5], &[7, 9], 1, FeistelMode::Encrypt),
        Ok(vec![2u8, 14, 3, 4, 3, 8, 0, 0])
    );
    assert_eq!(
        feistel(&[1, 2, 3, 4, 5], &[7, 9], 2, FeistelMode::Encrypt),
        Ok(vec![7u8, 2, 2, 14, 3, 0, 3, 8])
    );
}

#[test]
fn input_shorter_than_half_a_block() {
    assert_eq!(
        feistel(&[1, 2, 3], &[1, 2, 3, 4], 5, FeistelMode::Encrypt),
        Ok(vec![13u8, 2, 7, 0, 7, 1, 3, 5])
    );
}

#[test]
fn decrypt_direction_on_plain_input() {
    assert_eq!(
        feistel(&[1, 2, 3, 4, 5, 6, 7, 8, 9], &[1, 2, 3, 4], 5, FeistelMode::Decrypt),
        Ok(vec![5u8, 2, 15, 4, 6, 7, 8, 9, 21, 0, 0, 0, 15, 3, 2, 5])
    );
}

#[test]
fn blocks_do_not_depend_on_each_other() {
    let key = [7u8, 9];
    let whole = feistel(&[1, 2, 3, 4, 5, 6, 7, 8], &key, 6, FeistelMode::Encrypt).unwrap();
    let first = feistel(&[1, 2, 3, 4], &key, 6, FeistelMode::Encrypt).unwrap();
    let second = feistel(&[5, 6, 7, 8], &key, 6, FeistelMode::Encrypt).unwrap();
    assert_eq!(whole[..4], first[..]);
    assert_eq!(whole[4..], second[..]);
}

#[test]
fn zero_rounds_exchange_the_halves_of_every_block() {
    assert_eq!(
        feistel(&[1, 2], &[0], 0, FeistelMode::Encrypt),
        Ok(vec![2u8, 1])
    );
    assert_eq!(
        feistel(&[1, 2, 3, 4, 5], &[7, 9], 0, FeistelMode::Encrypt),
        Ok(vec![3u8, 4, 1, 2, 0, 0, 5, 0])
    );
    assert_eq!(
        feistel(&[1, 2, 3, 4, 5], &[7, 9], 0, FeistelMode::Decrypt),
        Ok(vec![3u8, 4, 1, 2, 0, 0, 5, 0])
    );
}

#[test]
fn zero_rounds_keep_blocks_with_equal_halves() {
    assert_eq!(
        feistel(&[5, 9, 5, 9], &[1, 2], 0, FeistelMode::Encrypt),
        Ok(vec![5u8, 9, 5, 9])
    );
    assert_eq!(
        feistel(&[0, 0, 0], &[1, 2], 0, FeistelMode::Encrypt),
        Ok(vec![0u8, 0, 0, 0])
    );
    assert_eq!(
        feistel(&[5, 5, 9, 9], &[1, 2], 0, FeistelMode::Encrypt),
        Ok(vec![9u8, 9, 5, 5])
    );
}

#[test]
fn repeated_calls_give_the_same_output() {
    let data = b"the same bytes every time";
    let key = b"k3y";
    for mode in [FeistelMode::Encrypt, FeistelMode::Decrypt] {
        let first = feistel(data, key, 12, mode);
        let second = feistel(data, key, 12, mode);
        let third = feistel(data, key, 12, mode);
        assert_eq!(first, second);
        assert_eq!(second, third);
    }
}

#[test]
fn rounds_change_the_input() {
    let padded = b"HALLO WELT!!".to_vec();
    for rounds in 1u32..20 {
        let out = feistel(b"HALLO WELT!!", b"AAAAAA", rounds, FeistelMode::Encrypt).unwrap();
        assert_ne!(out, padded);
    }
}

#[test]
fn one_round_keeps_a_block_whose_right_half_matches_the_key() {
    // the key byte is the right byte plus one, so the round function gives zero
    assert_eq!(
        feistel(&[5, 0xfe], &[0xff], 1, FeistelMode::Encrypt),
        Ok(vec![5u8, 0xfe])
    );
    assert_eq!(
        feistel(&[5, 0xff], &[0x00], 1, FeistelMode::Encrypt),
        Ok(vec![5u8, 0xff])
    );
    assert_eq!(
        feistel(&[5, 0xfe], &[0xfe], 1, FeistelMode::Encrypt),
        Ok(vec![4u8, 0xfe])
    );
}

#[test]
fn different_keys_give_different_outputs() {
    let a = feistel(b"HALLO WELT!!", b"AAAAAA", 16, FeistelMode::Encrypt).unwrap();
    let b = feistel(b"HALLO WELT!!", b"AAAAAB", 16, FeistelMode::Encrypt).unwrap();
    assert_ne!(a, b);
}

#[test]
fn key_length_sets_the_block_size() {
    let data = [1u8, 2, 3, 4, 5, 6];
    assert_eq!(feistel(&data, &[1], 3, FeistelMode::Encrypt).unwrap().len(), 6);
    assert_eq!(feistel(&data, &[1, 1], 3, FeistelMode::Encrypt).unwrap().len(), 8);
    assert_eq!(feistel(&data, &[1, 1, 1], 3, FeistelMode::Encrypt).unwrap().len(), 6);
    assert_eq!(feistel(&data, &[1, 1, 1, 1], 3, FeistelMode::Encrypt).unwrap().len(), 8);
    assert_eq!(feistel(&data, &[1; 7], 3, FeistelMode::Encrypt).unwrap().len(), 14);
}

#[test]
fn modes_can_be_copied_and_compared() {
    let mode = FeistelMode::Encrypt;
    let copy = mode;
    assert_eq!(mode, copy);
    assert_ne!(mode, FeistelMode::Decrypt);
}

#[test]
fn both_directions_give_the_same_output() {
    let data = b"every round uses the same key";
    for rounds in [0u32, 1, 2, 5, 16] {
        assert_eq!(
            feistel(data, b"abc", rounds, FeistelMode::Encrypt),
            feistel(data, b"abc", rounds, FeistelMode::Decrypt)
        );
    }
}

#[test]
fn the_right_half_survives_one_round() {
    let out = feistel(&[1, 2, 3, 4, 5, 6, 7, 8], &[9, 9], 1, FeistelMode::Encrypt).unwrap();
    assert_eq!(out[2..4], [3u8, 4]);
    assert_eq!(out[6..8], [7u8, 8]);
}
