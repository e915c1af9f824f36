use parcrypt::word::{
    decrypt_word, encrypt_word, rotate_left, rotate_right, word_from_le, word_to_le,
};

fn samples() -> Vec<u64> {
    let mut out = vec![
        0,
        1,
        2,
        0x80,
        0xff,
        0x100,
        0x8000_0000_0000_0000,
        0xffff_ffff_ffff_ffff,
        0x0123_4567_89ab_cdef,
        0xfedc_ba98_7654_3210,
    ];
    let mut state: u64 = 0x9e37_79b9_7f4a_7c15;
    for _ in 0..50 {
        state = state.wrapping_mul(6364136223846793005).wrapping_add(1442695040888963407);
        out.push(state);
    }
    out
}

#[test]
fn word_from_le_reads_least_significant_byte_first() {
    assert_eq!(word_from_le(&[1, 2, 3, 4, 5, 6, 7, 8]), 0x0807_0605_0403_0201);
    assert_eq!(word_from_le(&[1, 0, 0, 0, 0, 0, 0, 0]), 1);
    assert_eq!(word_from_le(&[0, 0, 0, 0, 0, 0, 0, 1]), 1 << 56);
    assert_eq!(word_from_le(&[0; 8]), 0);
    assert_eq!(word_from_le(&[0xff; 8]), u64::MAX);
}

#[test]
fn word_to_le_writes_least_significant_byte_first() {
    assert_eq!(word_to_le(0x0807_0605_0403_0201), [1, 2, 3, 4, 5, 6, 7, 8]);
    assert_eq!(word_to_le(1), [1, 0, 0, 0, 0, 0, 0, 0]);
    assert_eq!(word_to_le(1 << 56), [0, 0, 0, 0, 0, 0, 0, 1]);
    assert_eq!(word_to_le(0), [0; 8]);
    assert_eq!(word_to_le(u64::MAX), [0xff; 8]);
}

#[test]
fn word_and_bytes_agree_with_std() {
    for w in samples() {
        assert_eq!(word_to_le(w), w.to_le_bytes());
        assert_eq!(word_from_le(&w.to_le_bytes()), w);
        assert_eq!(word_from_le(&word_to_le(w)), w);
    }
}

#[test]
fn rotations_on_chosen_values() {
    assert_eq!(rotate_left(1, 1), 2);
    assert_eq!(rotate_left(0x8000_0000_0000_0000, 1), 1);
    assert_eq!(rotate_right(1, 1), 0x8000_0000_0000_0000);
    assert_eq!(rotate_right(2, 1), 1);
    assert_eq!(rotate_left(0x0123_4567_89ab_cdef, 8), 0x2345_6789_abcd_ef01);
    assert_eq!(rotate_right(0x0123_4567_89ab_cdef, 8), 0xef01_2345_6789_abcd);
    assert_eq!(rotate_left(0x0123_4567_89ab_cdef, 63), 0x8091_a2b3_c4d5_e6f7);
}

#[test]
fn rotation_by_zero_and_by_sixty_four_changes_nothing() {
    for w in samples() {
        assert_eq!(rotate_left(w, 0), w);
        assert_eq!(rotate_right(w, 0), w);
        assert_eq!(rotate_left(w, 64), w);
        assert_eq!(rotate_right(w, 64), w);
        assert_eq!(rotate_left(w, 128), w);
    }
}

#[test]
fn rotations_agree_with_std_for_every_amount() {
    for w in samples() {
        for n in 0..200u32 {
            assert_eq!(rotate_left(w, n), w.rotate_left(n));
            assert_eq!(rotate_right(w, n), w.rotate_right(n));
        }
        assert_eq!(rotate_left(w, u32::MAX), w.rotate_left(u32::MAX));
        assert_eq!(rotate_right(w, u32::MAX), w.rotate_right(u32::MAX));
    }
}

#[test]
fn rotations_cancel() {
    for w in samples() {
        for n in 0..130u32 {
            assert_eq!(rotate_left(rotate_right(w, n), n), w);
            assert_eq!(rotate_right(rotate_left(w, n), n), w);
        }
    }
}

#[test]
fn decrypt_word_is_xor_then_left_rotation() {
    assert_eq!(decrypt_word(0, 0, 0xdead_beef), 0xdead_beef);
    assert_eq!(decrypt_word(0b1010, 1, 0b0110), 0b11000);
    assert_eq!(decrypt_word(0x8000_0000_0000_0001, 4, 1), 0x8);
    for v in samples() {
        for k in samples() {
            for i in [0usize, 1, 7, 31, 63, 64, 65, 127, 1000] {
                assert_eq!(decrypt_word(v, i, k), (v ^ k).rotate_left((i % 64) as u32));
            }
        }
    }
}

#[test]
fn encrypt_word_is_right_rotation_then_xor() {
    assert_eq!(encrypt_word(0xdead_beef, 0, 0xdead_beef), 0);
    assert_eq!(encrypt_word(0b11000, 1, 0b0110), 0b1010);
    assert_eq!(encrypt_word(0x8, 4, 1), 0x8000_0000_0000_0001);
    for v in samples() {
        for k in samples() {
            for i in [0usize, 1, 7, 31, 63, 64, 65, 127, 1000] {
                assert_eq!(encrypt_word(v, i, k), v.rotate_right((i % 64) as u32) ^ k);
            }
        }
    }
}

#[test]
fn word_transforms_cancel_at_every_position() {
    for v in samples() {
        for k in [0u64, 1, 0x0123_4567_89ab_cdef, u64::MAX] {
            for i in 0..130usize {
                assert_eq!(decrypt_word(encrypt_word(v, i, k), i, k), v);
                assert_eq!(encrypt_word(decrypt_word(v, i, k), i, k), v);
            }
        }
    }
}

#[test]
fn rotation_amount_repeats_every_sixty_four_positions() {
    for v in samples() {
        for i in 0..70usize {
            let k = 0x5555_aaaa_5555_aaaa;
            assert_eq!(decrypt_word(v, i, k), decrypt_word(v, i + 64, k));
            assert_eq!(encrypt_word(v, i, k), encrypt_word(v, i + 64, k));
            assert_eq!(encrypt_word(v, i, k), encrypt_word(v, i + 640, k));
        }
    }
}

#[test]
fn rotation_amounts_within_a_period_differ() {
    let v = 1u64;
    for i in 0..64usize {
        assert_eq!(decrypt_word(v, i, 0), 1u64 << i);
    }
    assert_eq!(decrypt_word(v, 64, 0), 1);
}

#[test]
fn word_transforms_at_the_largest_position() {
    let i = usize::MAX;
    let v = 0x0123_4567_89ab_cdef;
    assert_eq!(decrypt_word(v, i, 0), v.rotate_left((i % 64) as u32));
    assert_eq!(encrypt_word(v, i, 0), v.rotate_right((i % 64) as u32));
}
