use encryp::{encryp_error, tent_chaos};

#[test]
fn first_words_from_zero() {
    let mut tent = tent_chaos::new(0);
    let got: Vec<u64> = (0..6).map(|_| tent.iterate()).collect();
    assert_eq!(got, vec![1, 11, 39, 103, 239, 519]);
}

#[test]
fn upper_half_is_reflected() {
    let mut tent = tent_chaos::new(0x8000_0000_0000_0000);
    assert_eq!(tent.iterate(), 0xffff_ffff_ffff_fffe);
    assert_eq!(tent.iterate(), 0x5);
    assert_eq!(tent.iterate(), 0x1b);
    assert_eq!(tent.iterate(), 0x4f);
}

#[test]
fn iterate_vec_fills_every_slot() {
    let mut tent = tent_chaos::new(0x0123_4567_89ab_cdef);
    let mut words = vec![0u64; 4];
    assert_eq!(tent.iterate_vec(4, &mut words), Ok(()));
    assert_eq!(
        words,
        vec![
            0x0246_8acf_1357_9bdf,
            0x048d_159e_26af_37c7,
            0x091a_2b3c_4d5e_6f9f,
            0x1234_5678_9abc_df57
        ]
    );
}

#[test]
fn iterate_vec_rejects_wrong_length() {
    let mut tent = tent_chaos::new(7);
    let mut words = vec![5u64; 3];
    assert_eq!(tent.iterate_vec(4, &mut words), Err(encryp_error::LengthMismatch));
    assert_eq!(words, vec![5, 5, 5]);
    assert_eq!(tent.iterate(), tent_chaos::new(7).iterate());
}

#[test]
fn encrypt_rejects_unaligned_buffer() {
    let mut tent = tent_chaos::new(7);
    let mut buf = vec![1u8; 9];
    assert_eq!(tent.encrypt(&mut buf), Err(encryp_error::AlignmentError));
    assert_eq!(buf, vec![1u8; 9]);
}

#[test]
fn encrypt_xors_little_endian_words() {
    let mut tent = tent_chaos::new(0);
    let mut buf = vec![0u8; 16];
    assert_eq!(tent.encrypt(&mut buf), Ok(()));
    assert_eq!(buf, vec![1, 0, 0, 0, 0, 0, 0, 0, 11, 0, 0, 0, 0, 0, 0, 0]);
}

#[test]
fn same_seed_same_words_however_split() {
    let mut whole = tent_chaos::new(0xdead_beef);
    let mut all = vec![0u64; 10];
    assert_eq!(whole.iterate_vec(10, &mut all), Ok(()));

    let mut split = tent_chaos::new(0xdead_beef);
    let mut got = Vec::new();
    got.push(split.iterate());
    let mut three = vec![0u64; 3];
    assert_eq!(split.iterate_vec(3, &mut three), Ok(()));
    got.extend_from_slice(&three);
    let mut none: Vec<u64> = Vec::new();
    assert_eq!(split.iterate_vec(0, &mut none), Ok(()));
    let mut six = vec![0u64; 6];
    assert_eq!(split.iterate_vec(6, &mut six), Ok(()));
    got.extend_from_slice(&six);

    assert_eq!(got, all);
    assert_eq!(split.iterate(), whole.iterate());
}

#[test]
fn iterate_no_ret_skips_words() {
    let mut skipped = tent_chaos::new(0);
    skipped.iterate_no_ret(4);
    assert_eq!(skipped.iterate(), 239);
    let mut untouched = tent_chaos::new(0);
    untouched.iterate_no_ret(0);
    assert_eq!(untouched.iterate(), 1);
}

#[test]
fn encrypt_in_pieces_equals_encrypt_at_once() {
    let data: Vec<u8> = (0..64u8).collect();
    let mut at_once = data.clone();
    let mut one = tent_chaos::new(99);
    assert_eq!(one.encrypt(&mut at_once), Ok(()));

    let mut pieces = data.clone();
    let mut other = tent_chaos::new(99);
    let (a, rest) = pieces.split_at_mut(8);
    let (b, c) = rest.split_at_mut(40);
    assert_eq!(other.encrypt(a), Ok(()));
    assert_eq!(other.encrypt(b), Ok(()));
    assert_eq!(other.encrypt(c), Ok(()));

    assert_eq!(pieces, at_once);
    assert_ne!(at_once, data);
    assert_eq!(one.iterate(), other.iterate());
}

#[test]
fn encrypt_twice_restores_the_bytes() {
    let data: Vec<u8> = (0..40u8).map(|b| b.wrapping_mul(7)).collect();
    let mut buf = data.clone();
    assert_eq!(tent_chaos::new(0x1234).encrypt(&mut buf), Ok(()));
    assert_ne!(buf, data);
    assert_eq!(tent_chaos::new(0x1234).encrypt(&mut buf), Ok(()));
    assert_eq!(buf, data);
}

#[test]
fn encrypt_of_empty_buffer_emits_nothing() {
    let mut tent = tent_chaos::new(5);
    let mut buf: Vec<u8> = Vec::new();
    assert_eq!(tent.encrypt(&mut buf), Ok(()));
    assert_eq!(tent.iterate(), tent_chaos::new(5).iterate());
}

#[test]
fn step_count_perturbs_the_map() {
    // From the fixed point candidate 0 the pure map would give 1, 3, 7, ...;
    // the perturbation by four times the step count gives 1, 11, 39.
    let mut tent = tent_chaos::new(0);
    assert_eq!(tent.iterate(), 1);
    assert_eq!(tent.iterate(), (1 + 4) * 2 + 1);
    assert_eq!(tent.iterate(), (11 + 8) * 2 + 1);
}

#[test]
fn arithmetic_wraps() {
    let mut tent = tent_chaos::new(u64::MAX);
    assert_eq!(tent.iterate(), 0);
    // value 0, step count 1: g = 4, lower half
    assert_eq!(tent.iterate(), 9);
    let mut near = tent_chaos::new(u64::MAX - 3);
    near.iterate_no_ret(1);
    // g = (6 + 4) = 10 after the first word 6
    assert_eq!(near.iterate(), 21);
}
