use encryp::{
    ciphertext_info, container_reader, data_block_content, data_block_data, data_block_type,
    encryp_error, encryp_option, encrypted_file, get_ciphertext_info, get_hashes, get_salt,
    parse_encrypted_file, read_step, write_data_block, write_data_block_head, write_file_head,
};

const MAGIC: [u8; 16] = [0, 0, b'T', b'e', b'n', b't', 4, 0, 0, 0, 0, 0, 0, 0, 0, 0];

fn record(tag: u64, payload: &[u8]) -> Vec<u8> {
    let mut out = Vec::new();
    out.extend_from_slice(&tag.to_le_bytes());
    out.extend_from_slice(&(payload.len() as u64).to_le_bytes());
    out.extend_from_slice(payload);
    out
}

fn sample_container() -> Vec<u8> {
    let mut data = MAGIC.to_vec();
    data.extend(record(42, &[1u8; 16]));
    data.extend(record(114514, &[2u8; 16]));
    data.extend(record(1919810, &[3u8; 64]));
    data.extend(record(666, b"ciphertext bytes"));
    data.extend(record(2300, &[4u8; 64]));
    data
}

fn small_of(file: &encrypted_file, tag: u64) -> Vec<u8> {
    match &file.data_blocks.get(&tag).unwrap().data {
        data_block_data::small(v) => v.clone(),
        data_block_data::large(_) => panic!("payload is not kept"),
    }
}

fn options() -> encryp_option {
    encryp_option::with_salts(false, false, &String::from("pw"), 64, 7, 9)
}

#[test]
fn wire_identifiers_are_fixed() {
    assert_eq!(data_block_type::salt_a.tag(), 42);
    assert_eq!(data_block_type::salt_b.tag(), 114514);
    assert_eq!(data_block_type::hash_password.tag(), 1919810);
    assert_eq!(data_block_type::ciphertext.tag(), 666);
    assert_eq!(data_block_type::sha3_512_original_file.tag(), 2300);
}

#[test]
fn identifiers_decode_to_their_kind() {
    assert_eq!(data_block_type::from_tag(42), Some(data_block_type::salt_a));
    assert_eq!(data_block_type::from_tag(114514), Some(data_block_type::salt_b));
    assert_eq!(data_block_type::from_tag(1919810), Some(data_block_type::hash_password));
    assert_eq!(data_block_type::from_tag(666), Some(data_block_type::ciphertext));
    assert_eq!(data_block_type::from_tag(2300), Some(data_block_type::sha3_512_original_file));
    assert_eq!(data_block_type::from_tag(0), None);
    assert_eq!(data_block_type::from_tag(43), None);
    assert_eq!(data_block_type::from_tag(u64::MAX), None);
}

#[test]
fn file_head_is_sixteen_bytes() {
    let mut out = vec![0xEE];
    write_file_head(&mut out);
    assert_eq!(out[0], 0xEE);
    assert_eq!(&out[1..], &MAGIC);
}

#[test]
fn block_head_is_tag_then_length() {
    let mut out = Vec::new();
    write_data_block_head(&mut out, data_block_type::salt_b, 0x0102_0304_0506_0708);
    assert_eq!(
        out,
        vec![0x52, 0xbf, 0x01, 0, 0, 0, 0, 0, 0x08, 0x07, 0x06, 0x05, 0x04, 0x03, 0x02, 0x01]
    );
}

#[test]
fn block_is_head_then_payload() {
    let mut out = vec![9u8];
    write_data_block(&mut out, data_block_type::ciphertext, b"abc");
    let mut expected = vec![9u8];
    expected.extend(record(666, b"abc"));
    assert_eq!(out, expected);
}

#[test]
fn empty_block_has_only_a_head() {
    let mut out = Vec::new();
    write_data_block(&mut out, data_block_type::salt_a, &[]);
    assert_eq!(out, record(42, &[]));
    assert_eq!(out.len(), 16);
}

#[test]
fn parse_indexes_every_known_record() {
    let file = parse_encrypted_file(&sample_container()).unwrap();
    assert_eq!(file.data_blocks.len(), 5);
    assert_eq!(small_of(&file, 42), vec![1u8; 16]);
    assert_eq!(small_of(&file, 114514), vec![2u8; 16]);
    assert_eq!(small_of(&file, 1919810), vec![3u8; 64]);
    assert_eq!(small_of(&file, 2300), vec![4u8; 64]);
    assert_eq!(file.data_blocks.get(&42).unwrap().offset, 32);
    assert_eq!(file.data_blocks.get(&114514).unwrap().offset, 64);
    assert_eq!(file.data_blocks.get(&1919810).unwrap().offset, 96);
    let cipher = file.data_blocks.get(&666).unwrap();
    assert_eq!(cipher.offset, 176);
    assert!(matches!(cipher.data, data_block_data::large(16)));
}

#[test]
fn parse_of_bare_header_is_empty_index() {
    let file = parse_encrypted_file(&MAGIC).unwrap();
    assert!(file.data_blocks.is_empty());
}

#[test]
fn parse_compares_only_the_signature() {
    let mut data = sample_container();
    for byte in data.iter_mut().take(16).skip(5) {
        *byte = 0xAB;
    }
    assert!(parse_encrypted_file(&data).is_ok());
}

#[test]
fn parse_rejects_wrong_signature() {
    for i in 0..5 {
        let mut data = sample_container();
        data[i] ^= 1;
        assert_eq!(parse_encrypted_file(&data).err(), Some(encryp_error::MalformedContainer));
    }
}

#[test]
fn parse_rejects_short_header() {
    assert_eq!(parse_encrypted_file(&[]).err(), Some(encryp_error::MalformedContainer));
    assert_eq!(parse_encrypted_file(&MAGIC[..15]).err(), Some(encryp_error::MalformedContainer));
}

#[test]
fn parse_rejects_cut_record_head() {
    let mut data = sample_container();
    data.extend_from_slice(&[0u8; 15]);
    assert_eq!(parse_encrypted_file(&data).err(), Some(encryp_error::MalformedContainer));
    let mut one = MAGIC.to_vec();
    one.push(42);
    assert_eq!(parse_encrypted_file(&one).err(), Some(encryp_error::MalformedContainer));
}

#[test]
fn parse_rejects_cut_payload() {
    let data = sample_container();
    let cut = &data[..data.len() - 1];
    assert_eq!(parse_encrypted_file(cut).err(), Some(encryp_error::MalformedContainer));
    let mut huge = MAGIC.to_vec();
    huge.extend_from_slice(&7777u64.to_le_bytes());
    huge.extend_from_slice(&u64::MAX.to_le_bytes());
    assert_eq!(parse_encrypted_file(&huge).err(), Some(encryp_error::MalformedContainer));
}

#[test]
fn parse_skips_unknown_records() {
    let mut data = MAGIC.to_vec();
    data.extend(record(5, b"future"));
    data.extend(record(42, &[1u8; 16]));
    data.extend(record(0xFFFF_FFFF_FFFF, &[]));
    data.extend(record(666, b"xyz"));
    data.extend(record(5, b"twice is fine for unknown kinds"));
    let file = parse_encrypted_file(&data).unwrap();
    assert_eq!(file.data_blocks.len(), 2);
    assert_eq!(small_of(&file, 42), vec![1u8; 16]);
    assert_eq!(file.data_blocks.get(&42).unwrap().offset, 16 + 22 + 16);
    assert_eq!(file.data_blocks.get(&666).unwrap().offset, 16 + 22 + 32 + 16 + 16);
}

#[test]
fn parse_rejects_duplicate_salt_a() {
    let mut data = sample_container();
    data.extend(record(42, &[9u8; 16]));
    assert_eq!(parse_encrypted_file(&data).err(), Some(encryp_error::MalformedContainer));
}

#[test]
fn parse_rejects_duplicate_of_every_known_kind() {
    for tag in [42u64, 114514, 1919810, 666, 2300] {
        let mut data = MAGIC.to_vec();
        data.extend(record(tag, b"one"));
        data.extend(record(5, b"between"));
        data.extend(record(tag, b"two"));
        assert_eq!(parse_encrypted_file(&data).err(), Some(encryp_error::MalformedContainer));
    }
}

#[test]
fn get_salt_overwrites_both_salts() {
    let file = parse_encrypted_file(&sample_container()).unwrap();
    let mut opt = options();
    assert_eq!(get_salt(&mut opt, &file), Ok(()));
    assert_eq!(opt.salt_a, vec![1u8; 16]);
    assert_eq!(opt.salt_b, vec![2u8; 16]);
    assert_eq!(opt.password, "pw");
    assert_eq!(opt.buffer_size, 64);
}

#[test]
fn get_salt_reports_missing_salt() {
    let mut no_b = MAGIC.to_vec();
    no_b.extend(record(42, &[1u8; 16]));
    let file = parse_encrypted_file(&no_b).unwrap();
    let mut opt = options();
    let before_b = opt.salt_b.clone();
    assert_eq!(get_salt(&mut opt, &file), Err(encryp_error::MissingField));
    assert_eq!(opt.salt_a, vec![1u8; 16]);
    assert_eq!(opt.salt_b, before_b);

    let mut no_a = MAGIC.to_vec();
    no_a.extend(record(114514, &[2u8; 16]));
    let file = parse_encrypted_file(&no_a).unwrap();
    let mut opt = options();
    let before = opt.clone();
    assert_eq!(get_salt(&mut opt, &file), Err(encryp_error::MissingField));
    assert_eq!(opt.salt_a, before.salt_a);
    assert_eq!(opt.salt_b, before.salt_b);
}

#[test]
fn get_salt_wants_a_kept_payload() {
    let mut file = parse_encrypted_file(&sample_container()).unwrap();
    file.data_blocks
        .insert(42, data_block_content { data: data_block_data::large(16), offset: 32 });
    let mut opt = options();
    assert_eq!(get_salt(&mut opt, &file), Err(encryp_error::MissingField));
}

#[test]
fn get_hashes_returns_hash_then_digest() {
    let file = parse_encrypted_file(&sample_container()).unwrap();
    let (hash, digest) = get_hashes(&file).unwrap();
    assert_eq!(hash, vec![3u8; 64]);
    assert_eq!(digest, vec![4u8; 64]);
}

#[test]
fn get_hashes_reports_missing_field() {
    let mut data = MAGIC.to_vec();
    data.extend(record(1919810, &[3u8; 64]));
    let file = parse_encrypted_file(&data).unwrap();
    assert_eq!(get_hashes(&file).err(), Some(encryp_error::MissingField));
    let mut data = MAGIC.to_vec();
    data.extend(record(2300, &[4u8; 64]));
    let file = parse_encrypted_file(&data).unwrap();
    assert_eq!(get_hashes(&file).err(), Some(encryp_error::MissingField));
}

#[test]
fn get_ciphertext_info_gives_offset_and_length() {
    let file = parse_encrypted_file(&sample_container()).unwrap();
    assert_eq!(get_ciphertext_info(&file), Ok(ciphertext_info { length: 16, offset: 176 }));
}

#[test]
fn get_ciphertext_info_reports_missing_ciphertext() {
    let file = parse_encrypted_file(&MAGIC).unwrap();
    assert_eq!(get_ciphertext_info(&file), Err(encryp_error::MissingCiphertext));
}

#[test]
fn get_ciphertext_info_wants_deferred_form() {
    let mut file = parse_encrypted_file(&MAGIC).unwrap();
    file.data_blocks.insert(
        666,
        data_block_content { data: data_block_data::small(vec![1, 2, 3]), offset: 32 },
    );
    assert_eq!(get_ciphertext_info(&file), Err(encryp_error::MissingCiphertext));
}

#[test]
fn reader_walks_a_container_piece_by_piece() {
    let data = sample_container();
    let mut reader = container_reader::open(&data[..16], data.len() as u64).unwrap();
    let mut pos = 16usize;
    let mut steps = Vec::new();
    loop {
        let until = usize::min(pos + 16, data.len());
        let step = reader.on_head(&data[pos..until]).unwrap();
        steps.push(step);
        match step {
            read_step::finished => break,
            read_step::skip(len) => pos += 16 + len as usize,
            read_step::load(len) => {
                let body = pos + 16;
                reader.on_payload(data[body..body + len as usize].to_vec());
                pos = body + len as usize;
            }
        }
    }
    assert_eq!(
        steps,
        vec![
            read_step::load(16),
            read_step::load(16),
            read_step::load(64),
            read_step::skip(16),
            read_step::load(64),
            read_step::finished
        ]
    );
    let file = reader.into_file();
    assert_eq!(get_ciphertext_info(&file), Ok(ciphertext_info { length: 16, offset: 176 }));
    assert_eq!(small_of(&file, 2300), vec![4u8; 64]);
}

#[test]
fn reader_rejects_what_the_parser_rejects() {
    assert_eq!(
        container_reader::open(&MAGIC[..10], 10).err(),
        Some(encryp_error::MalformedContainer)
    );
    let mut wrong = MAGIC;
    wrong[2] = b't';
    assert_eq!(container_reader::open(&wrong, 16).err(), Some(encryp_error::MalformedContainer));

    let mut reader = container_reader::open(&MAGIC, 40).unwrap();
    assert_eq!(reader.on_head(&[1, 2, 3]), Err(encryp_error::MalformedContainer));
    let mut head = record(42, &[]);
    head[8] = 9;
    assert_eq!(reader.on_head(&head), Err(encryp_error::MalformedContainer));
    head[8] = 8;
    assert_eq!(reader.on_head(&head), Ok(read_step::load(8)));
}

#[test]
fn reader_skips_unknown_and_rejects_duplicates() {
    let mut reader = container_reader::open(&MAGIC, 1000).unwrap();
    assert_eq!(reader.on_head(&record(5, &[])[..16]), Ok(read_step::skip(0)));
    let mut head = record(666, &[]);
    head[8] = 100;
    assert_eq!(reader.on_head(&head), Ok(read_step::skip(100)));
    assert_eq!(reader.on_head(&head), Err(encryp_error::MalformedContainer));
    assert_eq!(reader.on_head(&[]), Ok(read_step::finished));
    let file = reader.into_file();
    assert_eq!(get_ciphertext_info(&file), Ok(ciphertext_info { length: 100, offset: 48 }));
}
