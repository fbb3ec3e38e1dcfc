use encryp::{
    checksum, compute_initial_x, decrypt_bytes, decryptor, encrypt_bytes, encryp_error,
    encryp_option, encryptor, exmaine_password, fold_digest, parse_encrypted_file, salted_digest,
    same_bytes, tent_chaos, transform_chunk,
};

const SALT_A: u128 = 0x0102030405060708090a0b0c0d0e0f10;
const SALT_B: u128 = 0xa1a2a3a4a5a6a7a8a9aaabacadaeafb0;

fn hex(text: &str) -> Vec<u8> {
    let digits: Vec<u8> = text.bytes().map(|c| (c as char).to_digit(16).unwrap() as u8).collect();
    digits.chunks(2).map(|pair| pair[0] * 16 + pair[1]).collect()
}

fn options(password: &str, buffer_size: usize) -> encryp_option {
    encryp_option::with_salts(false, false, &String::from(password), buffer_size, SALT_A, SALT_B)
}

fn record(tag: u64, payload: &[u8]) -> Vec<u8> {
    let mut out = Vec::new();
    out.extend_from_slice(&tag.to_le_bytes());
    out.extend_from_slice(&(payload.len() as u64).to_le_bytes());
    out.extend_from_slice(payload);
    out
}

fn pattern(len: usize) -> Vec<u8> {
    (0..len).map(|i| (i * 31 + i / 251) as u8).collect()
}

fn round_trip(len: usize) {
    let plain = pattern(len);
    let opt = options("correct horse", 65536);
    let container = encrypt_bytes(&plain, &opt);
    assert_eq!(container.len(), 16 + 32 + 32 + 80 + 16 + len + 80);
    let other = encryp_option::create(true, true, &String::from("correct horse"), 65536);
    assert_eq!(decrypt_bytes(&container, &other), Ok(plain));
}

#[test]
fn checksum_of_abc() {
    assert_eq!(
        checksum(b"abc"),
        hex("b751850b1a57168a5693cd924b6b096e08f621827444f70d884f5d0240d2712e10e116e9192af3c91a7ec57647e3934057340b4cf408d5a56592f8274eec53f0")
    );
}

#[test]
fn checksum_of_nothing() {
    assert_eq!(
        checksum(b""),
        hex("a69f73cca23a9ac5c8b567dc185a756e97c982164fe25859e0d1dcc1475c80a615b2123af1f5f94c11e3e9402c3ac558f500199d95b6d3e301758586281dcd26")
    );
}

#[test]
fn checksum_does_not_depend_on_the_pieces() {
    let data = pattern(65536 * 2 + 17);
    let whole = checksum(&data);
    assert_eq!(whole.len(), 64);
    assert_ne!(whole, checksum(&data[..65536 * 2]));
    assert_ne!(whole, checksum(&data[..65536]));
}

#[test]
fn seed_is_the_folded_digest() {
    assert_eq!(compute_initial_x(&options("hunter2", 8)), 0x6e3390798c9f7d1c);
}

#[test]
fn password_is_checked_against_first_salt() {
    let stored = hex("890eefde659a54a2751ded51b5fdd10c13954a9d140566561d1a2dafbe43b6352d3a3f7195cff68eff2b130747c96a9503c44125a4e676c5426b9b5dfbf802aa");
    assert!(exmaine_password(&options("hunter2", 8), &stored));
    assert!(!exmaine_password(&options("hunter3", 8), &stored));
    assert!(!exmaine_password(&options("hunter2", 8), &stored[..63].to_vec()));
    let mut longer = stored.clone();
    longer.push(0);
    assert!(!exmaine_password(&options("hunter2", 8), &longer));
    let mut flipped = stored.clone();
    flipped[63] ^= 0x80;
    assert!(!exmaine_password(&options("hunter2", 8), &flipped));
}

#[test]
fn container_layout_is_byte_exact() {
    let container = encrypt_bytes(b"The quick brown fox", &options("hunter2", 8));
    let parts = [
        "000054656e7404000000000000000000",
        "2a000000000000001000000000000000",
        "100f0e0d0c0b0a090807060504030201",
        "52bf0100000000001000000000000000",
        "b0afaeadacabaaa9a8a7a6a5a4a3a2a1",
        "424b1d00000000004000000000000000",
        "890eefde659a54a2751ded51b5fdd10c13954a9d140566561d1a2dafbe43b635",
        "2d3a3f7195cff68eff2b130747c96a9503c44125a4e676c5426b9b5dfbf802aa",
        "9a020000000000001300000000000000",
        "6d925b3982550ebfef2be0bf76c95f677f787c",
        "fc080000000000004000000000000000",
        "ca5ce3b1097b2cc9b6d63e234b9db237537b0c2bbedb746ca6df1ef7d06ec50b",
        "72745167ba4f171b77367bd66272d5d0d8af02e5df14bf0f2dbddfcb11a788e3",
    ];
    let expected: Vec<u8> = parts.iter().flat_map(|part| hex(part)).collect();
    assert_eq!(container, expected);
}

#[test]
fn round_trip_of_empty_plaintext() {
    round_trip(0);
}

#[test]
fn round_trip_of_one_byte() {
    round_trip(1);
}

#[test]
fn round_trip_of_seven_bytes() {
    round_trip(7);
}

#[test]
fn round_trip_of_eight_bytes() {
    round_trip(8);
}

#[test]
fn round_trip_of_65535_bytes() {
    round_trip(65535);
}

#[test]
fn round_trip_of_65536_bytes() {
    round_trip(65536);
}

#[test]
fn round_trip_of_65537_bytes() {
    round_trip(65537);
}

#[test]
fn chunk_size_leaves_no_trace() {
    let plain = pattern(1000);
    let reference = encrypt_bytes(&plain, &options("w", 8));
    for size in [16usize, 24, 64, 1000, 1024, 4096, 65536] {
        assert_eq!(encrypt_bytes(&plain, &options("w", size)), reference);
    }
}

#[test]
fn decrypt_with_another_chunk_size() {
    let plain = pattern(70001);
    for (a, b) in [(8usize, 65536usize), (65536, 8), (24, 4096), (4096, 40)] {
        let container = encrypt_bytes(&plain, &options("w", a));
        assert_eq!(decrypt_bytes(&container, &options("w", b)), Ok(plain.clone()));
    }
}

#[test]
fn chunk_size_off_the_word_grid_round_trips_with_itself() {
    let plain: Vec<u8> = (0..24u8).collect();
    let opt = options("hunter2", 12);
    let container = encrypt_bytes(&plain, &opt);
    let cipher = &container[176..200];
    assert_eq!(cipher, &hex("39fb3c1af72561db8c0288c6151a0a94236d719da0c4e1de")[..]);
    assert_eq!(decrypt_bytes(&container, &opt), Ok(plain));
}

#[test]
fn chunk_size_off_the_word_grid_is_not_interchangeable() {
    let plain: Vec<u8> = (0..24u8).collect();
    let container = encrypt_bytes(&plain, &options("hunter2", 12));
    assert_eq!(
        decrypt_bytes(&container, &options("hunter2", 8)),
        Err(encryp_error::IntegrityFailure)
    );
    let aligned = encrypt_bytes(&plain, &options("hunter2", 8));
    assert_eq!(&aligned[176..200], &hex("39fb3c1af72561db8c0288c615b33f480906168827697599")[..]);
    assert_eq!(decrypt_bytes(&aligned, &options("hunter2", 32)), Ok(plain));
}

#[test]
fn wrong_password_is_told_before_anything_is_decrypted() {
    let container = encrypt_bytes(&pattern(100), &options("right", 64));
    assert_eq!(decrypt_bytes(&container, &options("wrong", 64)), Err(encryp_error::WrongPassword));
    assert_eq!(decrypt_bytes(&container, &options("", 64)), Err(encryp_error::WrongPassword));
    assert_eq!(decrypt_bytes(&container, &options("right ", 64)), Err(encryp_error::WrongPassword));
    let file = parse_encrypted_file(&container).unwrap();
    assert_eq!(decryptor::start(&file, &options("wrong", 64)).err(), Some(encryp_error::WrongPassword));
}

#[test]
fn any_flipped_ciphertext_byte_fails_the_digest_check() {
    let plain = pattern(40);
    let opt = options("pw", 16);
    let container = encrypt_bytes(&plain, &opt);
    for i in 0..plain.len() {
        let mut tampered = container.clone();
        tampered[176 + i] ^= 0x01;
        assert_eq!(decrypt_bytes(&tampered, &opt), Err(encryp_error::IntegrityFailure));
    }
}

#[test]
fn tampered_digest_or_hash_is_detected() {
    let plain = pattern(40);
    let opt = options("pw", 16);
    let container = encrypt_bytes(&plain, &opt);
    let mut digest = container.clone();
    let last = digest.len() - 1;
    digest[last] ^= 0xFF;
    assert_eq!(decrypt_bytes(&digest, &opt), Err(encryp_error::IntegrityFailure));
    let mut hash = container.clone();
    hash[96] ^= 0xFF;
    assert_eq!(decrypt_bytes(&hash, &opt), Err(encryp_error::WrongPassword));
    let mut salt = container.clone();
    salt[32] ^= 0xFF;
    assert_eq!(decrypt_bytes(&salt, &opt), Err(encryp_error::WrongPassword));
    let mut second_salt = container;
    second_salt[64] ^= 0xFF;
    assert_eq!(decrypt_bytes(&second_salt, &opt), Err(encryp_error::IntegrityFailure));
}

#[test]
fn unknown_record_anywhere_does_not_prevent_decryption() {
    let plain = pattern(50);
    let opt = options("pw", 16);
    let container = encrypt_bytes(&plain, &opt);
    let boundaries = [16usize, 48, 80, 160, 226, 306];
    assert_eq!(container.len(), 306);
    for at in boundaries {
        let mut wider = container[..at].to_vec();
        wider.extend(record(0xC0FFEE, b"something newer"));
        wider.extend_from_slice(&container[at..]);
        assert_eq!(decrypt_bytes(&wider, &opt), Ok(plain.clone()));
    }
}

#[test]
fn two_salt_a_records_are_a_format_error() {
    let opt = options("pw", 16);
    let mut container = encrypt_bytes(&pattern(50), &opt);
    container.extend(record(42, &[0u8; 16]));
    assert_eq!(decrypt_bytes(&container, &opt), Err(encryp_error::MalformedContainer));
    let intact = encrypt_bytes(&pattern(50), &opt);
    let mut early = intact[..16].to_vec();
    early.extend(record(42, &intact[32..48]));
    early.extend_from_slice(&intact[16..]);
    assert_eq!(decrypt_bytes(&early, &opt), Err(encryp_error::MalformedContainer));
}

#[test]
fn records_may_come_in_any_order() {
    let plain = pattern(33);
    let opt = options("pw", 16);
    let c = encrypt_bytes(&plain, &opt);
    let mut shuffled = c[..16].to_vec();
    shuffled.extend_from_slice(&c[209..]);
    shuffled.extend_from_slice(&c[160..209]);
    shuffled.extend_from_slice(&c[80..160]);
    shuffled.extend_from_slice(&c[48..80]);
    shuffled.extend_from_slice(&c[16..48]);
    assert_eq!(shuffled.len(), c.len());
    assert_eq!(decrypt_bytes(&shuffled, &opt), Ok(plain));
}

#[test]
fn missing_records_are_told_apart() {
    let opt = options("pw", 16);
    let c = encrypt_bytes(&pattern(20), &opt);
    let end = c.len();
    let without = |from: usize, to: usize| {
        let mut data = c[..from].to_vec();
        data.extend_from_slice(&c[to..]);
        data
    };
    assert_eq!(decrypt_bytes(&without(16, 48), &opt), Err(encryp_error::MissingField));
    assert_eq!(decrypt_bytes(&without(48, 80), &opt), Err(encryp_error::MissingField));
    assert_eq!(decrypt_bytes(&without(80, 160), &opt), Err(encryp_error::MissingField));
    assert_eq!(decrypt_bytes(&without(end - 80, end), &opt), Err(encryp_error::MissingField));
    assert_eq!(decrypt_bytes(&without(160, 196), &opt), Err(encryp_error::MissingCiphertext));
    // the ciphertext is looked for before the password is tried
    assert_eq!(
        decrypt_bytes(&without(160, 196), &options("other", 16)),
        Err(encryp_error::MissingCiphertext)
    );
    // a missing field is told before a missing ciphertext
    assert_eq!(decrypt_bytes(&c[..16], &opt), Err(encryp_error::MissingField));
    assert_eq!(decrypt_bytes(&c[..15], &opt), Err(encryp_error::MalformedContainer));
}

#[test]
fn callers_salts_are_not_used_for_decryption() {
    let plain = pattern(20);
    let container = encrypt_bytes(&plain, &options("pw", 16));
    let other = encryp_option::with_salts(false, false, &String::from("pw"), 16, 1, 2);
    assert_eq!(decrypt_bytes(&container, &other), Ok(plain));
}

#[test]
fn fresh_salts_give_another_container() {
    let password = String::from("pw");
    let plain = pattern(64);
    let one = encryp_option::create(false, false, &password, 16);
    let two = encryp_option::create(false, false, &password, 16);
    let a = encrypt_bytes(&plain, &one);
    let b = encrypt_bytes(&plain, &two);
    assert_ne!(a, b);
    assert_eq!(decrypt_bytes(&a, &two), Ok(plain.clone()));
    assert_eq!(decrypt_bytes(&b, &one), Ok(plain));
}

#[test]
fn encryptor_fed_by_chunks_writes_the_container() {
    let plain = pattern(100);
    let opt = options("pw", 32);
    let mut out = Vec::new();
    let mut session = encryptor::start(&opt, plain.len() as u64, &mut out);
    assert_eq!(out.len(), 176);
    let mut more_flags = Vec::new();
    for piece in plain.chunks(32) {
        let mut chunk = piece.to_vec();
        more_flags.push(session.feed(&mut chunk));
        assert_eq!(chunk.len(), piece.len());
        out.extend_from_slice(&chunk);
    }
    assert_eq!(more_flags, vec![true, true, true, false]);
    session.finish(&mut out);
    assert_eq!(out, encrypt_bytes(&plain, &opt));
}

#[test]
fn encryptor_takes_an_empty_last_chunk() {
    let plain = pattern(64);
    let opt = options("pw", 32);
    let mut out = Vec::new();
    let mut session = encryptor::start(&opt, 64, &mut out);
    for piece in plain.chunks(32) {
        let mut chunk = piece.to_vec();
        assert!(session.feed(&mut chunk));
        out.extend_from_slice(&chunk);
    }
    let mut last: Vec<u8> = Vec::new();
    assert!(!session.feed(&mut last));
    assert!(last.is_empty());
    session.finish(&mut out);
    assert_eq!(out, encrypt_bytes(&plain, &opt));
}

#[test]
fn decryptor_drops_what_was_read_past_the_ciphertext() {
    let plain = pattern(100);
    let opt = options("pw", 32);
    let container = encrypt_bytes(&plain, &opt);
    let file = parse_encrypted_file(&container).unwrap();
    let mut session = decryptor::start(&file, &opt).unwrap();
    let info = session.ciphertext();
    assert_eq!((info.offset, info.length), (176, 100));
    let mut out = Vec::new();
    let mut pos = info.offset as usize;
    loop {
        let until = usize::min(pos + 32, container.len());
        let mut chunk = container[pos..until].to_vec();
        let more = session.feed(&mut chunk);
        out.extend_from_slice(&chunk);
        pos = until;
        if !more {
            break;
        }
    }
    assert_eq!(pos, 176 + 128);
    assert_eq!(out, plain);
    assert_eq!(session.finish(), Ok(()));
}

#[test]
fn decryptor_of_empty_ciphertext_wants_nothing() {
    let opt = options("pw", 32);
    let container = encrypt_bytes(&[], &opt);
    let file = parse_encrypted_file(&container).unwrap();
    let mut session = decryptor::start(&file, &opt).unwrap();
    let mut chunk = container[176..].to_vec();
    assert!(!session.feed(&mut chunk));
    assert!(chunk.is_empty());
    assert_eq!(session.finish(), Ok(()));
}

#[test]
fn decryptor_finish_tells_a_broken_digest() {
    let opt = options("pw", 32);
    let mut container = encrypt_bytes(&pattern(10), &opt);
    container[180] ^= 0x10;
    let file = parse_encrypted_file(&container).unwrap();
    let mut session = decryptor::start(&file, &opt).unwrap();
    let mut chunk = container[176..186].to_vec();
    assert!(!session.feed(&mut chunk));
    assert_ne!(chunk, pattern(10));
    assert_eq!(session.finish(), Err(encryp_error::IntegrityFailure));
}

#[test]
fn fold_digest_xors_eight_little_endian_words() {
    let mut digest = vec![0u8; 64];
    digest[0] = 0x01;
    digest[8] = 0x10;
    digest[15] = 0x80;
    digest[63] = 0x7F;
    digest[56] = 0x01;
    assert_eq!(fold_digest(&digest), 0xFF00_0000_0000_0010);
    assert_eq!(fold_digest(&[0xAB; 64]), 0);
    let counting: Vec<u8> = (0..64u8).collect();
    assert_eq!(fold_digest(&counting), fold_by_hand(&counting));
}

fn fold_by_hand(digest: &[u8]) -> u64 {
    let mut x = 0u64;
    for word in digest.chunks(8) {
        let mut w = 0u64;
        for (j, byte) in word.iter().enumerate() {
            w |= (*byte as u64) << (8 * j);
        }
        x ^= w;
    }
    x
}

#[test]
fn salted_digest_is_digest_of_password_then_salt() {
    let salt = vec![b'c'];
    assert_eq!(salted_digest(&String::from("ab"), &salt), checksum(b"abc"));
    assert_eq!(salted_digest(&String::new(), &b"abc".to_vec()), checksum(b"abc"));
    assert_ne!(salted_digest(&String::from("c"), &b"ab".to_vec()), checksum(b"abc"));
    let accented = String::from("\u{e9}");
    assert_eq!(salted_digest(&accented, &Vec::new()), checksum(&[0xC3, 0xA9]));
}

#[test]
fn same_bytes_compares_length_and_content() {
    assert!(same_bytes(&vec![], &vec![]));
    assert!(same_bytes(&vec![1, 2, 3], &vec![1, 2, 3]));
    assert!(!same_bytes(&vec![1, 2, 3], &vec![1, 2]));
    assert!(!same_bytes(&vec![1, 2], &vec![1, 2, 3]));
    assert!(!same_bytes(&vec![1, 2, 3], &vec![1, 2, 4]));
    assert!(!same_bytes(&vec![0, 2, 3], &vec![1, 2, 3]));
}

#[test]
fn transform_chunk_uses_a_whole_word_for_a_partial_one() {
    let mut tent = tent_chaos::new(0);
    let mut chunk = vec![0u8; 3];
    transform_chunk(&mut tent, &mut chunk);
    assert_eq!(chunk, vec![1, 0, 0]);
    let mut next = vec![0u8; 9];
    transform_chunk(&mut tent, &mut next);
    assert_eq!(next, vec![11, 0, 0, 0, 0, 0, 0, 0, 39]);
    assert_eq!(tent.iterate(), 103);
}

#[test]
fn transform_chunk_of_nothing_uses_no_word() {
    let mut tent = tent_chaos::new(0);
    let mut chunk: Vec<u8> = Vec::new();
    transform_chunk(&mut tent, &mut chunk);
    assert!(chunk.is_empty());
    assert_eq!(tent.iterate(), 1);
}
