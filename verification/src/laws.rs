use crate::container::{
    block_bytes, block_entry, ciphertext_of, file_head, inline_of, is_known_tag, parse_container, BLOCK_HEAD_LEN,
    FILE_HEAD_LEN, SIGNATURE_LEN, TAG_CIPHERTEXT, TAG_HASH_PASSWORD, TAG_SALT_A, TAG_SALT_B,
    TAG_SHA3_512_ORIGINAL_FILE,
};
use crate::digest::sha3_512_of;
use crate::error::encryp_error;
use crate::decrypt::decrypt_container;
use crate::encrypt::container_bytes;
use crate::keys::{salted_digest_of, seed_state};
use crate::stream::{
    chunk_key_byte, lemma_xor_chunked_involution, lemma_xor_chunked_is_continuous, xor_chunked,
};
use crate::records::{
    index_extends, lemma_parse_records_bytes, no_repeats, payload_of, record,
    records_bytes,
};
use vstd::prelude::*;

verus! {

/// What decrypting gives, read off the records of a container rather than
/// off its bytes.
pub open spec fn decrypt_records(records: Seq<record>, password: Seq<char>, chunk: nat) -> Result<
    Seq<u8>,
    encryp_error,
> {
    if !no_repeats(records, Set::empty()) {
        Err(encryp_error::MalformedContainer)
    } else if payload_of(records, TAG_SALT_A) is None || payload_of(records, TAG_SALT_B) is None {
        Err(encryp_error::MissingField)
    } else if payload_of(records, TAG_HASH_PASSWORD) is None || payload_of(
        records,
        TAG_SHA3_512_ORIGINAL_FILE,
    ) is None {
        Err(encryp_error::MissingField)
    } else if payload_of(records, TAG_CIPHERTEXT) is None {
        Err(encryp_error::MissingCiphertext)
    } else if salted_digest_of(password, payload_of(records, TAG_SALT_A)->0) != payload_of(
        records,
        TAG_HASH_PASSWORD,
    )->0 {
        Err(encryp_error::WrongPassword)
    } else {
        let plain = xor_chunked(
            seed_state(password, payload_of(records, TAG_SALT_B)->0),
            payload_of(records, TAG_CIPHERTEXT)->0,
            chunk,
        );
        if sha3_512_of(plain) != payload_of(records, TAG_SHA3_512_ORIGINAL_FILE)->0 {
            Err(encryp_error::IntegrityFailure)
        } else {
            Ok(plain)
        }
    }
}

/// The index of a container made of the magic header and the wire form of
/// a sequence of records: a format error exactly if a known kind repeats,
/// else one entry for every known kind that occurs.
pub proof fn lemma_parse_container_of_records(records: Seq<record>)
    requires
        (file_head() + records_bytes(records)).len() <= usize::MAX,
    ensures
        parse_container(file_head() + records_bytes(records)) is Ok <==> no_repeats(
            records,
            Set::empty(),
        ),
        parse_container(file_head() + records_bytes(records)) is Err ==> parse_container(
            file_head() + records_bytes(records),
        ) == Err::<Map<u64, block_entry>, encryp_error>(encryp_error::MalformedContainer),
        parse_container(file_head() + records_bytes(records)) is Ok ==> index_extends(
            parse_container(file_head() + records_bytes(records))->Ok_0,
            Map::empty(),
            records,
            file_head() + records_bytes(records),
        ),
{
    let data = file_head() + records_bytes(records);
    assert(data.subrange(0, SIGNATURE_LEN as int) =~= file_head().subrange(0, SIGNATURE_LEN as int));
    assert(Map::<u64, block_entry>::empty().dom() =~= Set::<u64>::empty());
    lemma_parse_records_bytes(file_head(), records, Map::empty(), data);
}

/// Decrypting a container made of the magic header and the wire form of a
/// sequence of records depends on the records alone.
pub proof fn lemma_decrypt_by_records(records: Seq<record>, password: Seq<char>, chunk: nat)
    requires
        (file_head() + records_bytes(records)).len() <= usize::MAX,
    ensures
        decrypt_container(file_head() + records_bytes(records), password, chunk) == decrypt_records(
            records,
            password,
            chunk,
        ),
{
    let data = file_head() + records_bytes(records);
    lemma_parse_container_of_records(records);
    if parse_container(data) is Ok {
        let index = parse_container(data)->Ok_0;
        let none = Map::<u64, block_entry>::empty();
        assert(!none.contains_key(TAG_SALT_A));
        assert(!none.contains_key(TAG_SALT_B));
        assert(!none.contains_key(TAG_HASH_PASSWORD));
        assert(!none.contains_key(TAG_CIPHERTEXT));
        assert(!none.contains_key(TAG_SHA3_512_ORIGINAL_FILE));
        assert(is_known_tag(TAG_SALT_A) && is_known_tag(TAG_SALT_B) && is_known_tag(
            TAG_HASH_PASSWORD,
        ) && is_known_tag(TAG_CIPHERTEXT) && is_known_tag(TAG_SHA3_512_ORIGINAL_FILE));
        assert(index.contains_key(TAG_SALT_A) <==> payload_of(records, TAG_SALT_A) is Some);
        assert(index.contains_key(TAG_SALT_B) <==> payload_of(records, TAG_SALT_B) is Some);
        assert(index.contains_key(TAG_HASH_PASSWORD) <==> payload_of(records, TAG_HASH_PASSWORD)
            is Some);
        assert(index.contains_key(TAG_CIPHERTEXT) <==> payload_of(records, TAG_CIPHERTEXT) is Some);
        assert(index.contains_key(TAG_SHA3_512_ORIGINAL_FILE) <==> payload_of(
            records,
            TAG_SHA3_512_ORIGINAL_FILE,
        ) is Some);
        assert(inline_of(index, TAG_SALT_A) == payload_of(records, TAG_SALT_A));
        assert(inline_of(index, TAG_SALT_B) == payload_of(records, TAG_SALT_B));
        assert(inline_of(index, TAG_HASH_PASSWORD) == payload_of(records, TAG_HASH_PASSWORD));
        assert(inline_of(index, TAG_SHA3_512_ORIGINAL_FILE) == payload_of(
            records,
            TAG_SHA3_512_ORIGINAL_FILE,
        ));
        if index.contains_key(TAG_CIPHERTEXT) {
            let p = payload_of(records, TAG_CIPHERTEXT)->0;
            let info = ciphertext_of(index)->0;
            assert(info.length == p.len());
            assert(data.subrange(info.offset as int, info.offset + info.length) == p);
        }
    }
}

/// The records that an encryption writes, in the order in which it writes
/// them.
pub open spec fn container_records(
    plain: Seq<u8>,
    password: Seq<char>,
    salt_a: Seq<u8>,
    salt_b: Seq<u8>,
    chunk: nat,
) -> Seq<record> {
    seq![
        record { tag: TAG_SALT_A, payload: salt_a },
        record { tag: TAG_SALT_B, payload: salt_b },
        record { tag: TAG_HASH_PASSWORD, payload: salted_digest_of(password, salt_a) },
        record {
            tag: TAG_CIPHERTEXT,
            payload: xor_chunked(seed_state(password, salt_b), plain, chunk),
        },
        record { tag: TAG_SHA3_512_ORIGINAL_FILE, payload: sha3_512_of(plain) },
    ]
}

/// Whether `records` are five records, one of each known kind, in the
/// order in which an encryption writes them.
pub open spec fn in_written_order(records: Seq<record>) -> bool {
    &&& records.len() == 5
    &&& records[0].tag == TAG_SALT_A
    &&& records[1].tag == TAG_SALT_B
    &&& records[2].tag == TAG_HASH_PASSWORD
    &&& records[3].tag == TAG_CIPHERTEXT
    &&& records[4].tag == TAG_SHA3_512_ORIGINAL_FILE
}

/// The wire form of five records in written order, spelled out.
proof fn lemma_written_order_bytes(records: Seq<record>)
    requires
        in_written_order(records),
    ensures
        records_bytes(records) == block_bytes(TAG_SALT_A, records[0].payload) + block_bytes(
            TAG_SALT_B,
            records[1].payload,
        ) + block_bytes(TAG_HASH_PASSWORD, records[2].payload) + block_bytes(
            TAG_CIPHERTEXT,
            records[3].payload,
        ) + block_bytes(TAG_SHA3_512_ORIGINAL_FILE, records[4].payload),
{
    let r1 = records.drop_first();
    let r2 = r1.drop_first();
    let r3 = r2.drop_first();
    let r4 = r3.drop_first();
    let r5 = r4.drop_first();
    assert(r5.len() == 0);
    assert(records_bytes(r5) =~= Seq::<u8>::empty());
    assert(records_bytes(r4) =~= block_bytes(records[4].tag, records[4].payload));
    assert(records_bytes(r3) =~= block_bytes(records[3].tag, records[3].payload) + records_bytes(
        r4,
    ));
    assert(records_bytes(r2) =~= block_bytes(records[2].tag, records[2].payload) + records_bytes(
        r3,
    ));
    assert(records_bytes(r1) =~= block_bytes(records[1].tag, records[1].payload) + records_bytes(
        r2,
    ));
    assert(records_bytes(records) =~= block_bytes(records[0].tag, records[0].payload)
        + records_bytes(r1));
    assert(records_bytes(records) =~= block_bytes(TAG_SALT_A, records[0].payload) + block_bytes(
        TAG_SALT_B,
        records[1].payload,
    ) + block_bytes(TAG_HASH_PASSWORD, records[2].payload) + block_bytes(
        TAG_CIPHERTEXT,
        records[3].payload,
    ) + block_bytes(TAG_SHA3_512_ORIGINAL_FILE, records[4].payload));
}

/// Five records in written order repeat no kind, and every kind is found
/// with the payload of its record.
proof fn lemma_written_order_payloads(records: Seq<record>)
    requires
        in_written_order(records),
    ensures
        no_repeats(records, Set::empty()),
        payload_of(records, TAG_SALT_A) == Some(records[0].payload),
        payload_of(records, TAG_SALT_B) == Some(records[1].payload),
        payload_of(records, TAG_HASH_PASSWORD) == Some(records[2].payload),
        payload_of(records, TAG_CIPHERTEXT) == Some(records[3].payload),
        payload_of(records, TAG_SHA3_512_ORIGINAL_FILE) == Some(records[4].payload),
{
    let r0 = records;
    let r1 = r0.drop_first();
    let r2 = r1.drop_first();
    let r3 = r2.drop_first();
    let r4 = r3.drop_first();
    let r5 = r4.drop_first();
    assert(r5.len() == 0);
    assert(r1[0] == r0[1] && r2[0] == r0[2] && r3[0] == r0[3] && r4[0] == r0[4]);
    let s0 = Set::<u64>::empty();
    let s1 = s0.insert(TAG_SALT_A);
    let s2 = s1.insert(TAG_SALT_B);
    let s3 = s2.insert(TAG_HASH_PASSWORD);
    let s4 = s3.insert(TAG_CIPHERTEXT);
    let s5 = s4.insert(TAG_SHA3_512_ORIGINAL_FILE);
    assert(no_repeats(r5, s5));
    assert(no_repeats(r4, s4));
    assert(no_repeats(r3, s3));
    assert(no_repeats(r2, s2));
    assert(no_repeats(r1, s1));
    assert(no_repeats(r0, s0));
    assert(payload_of(r4, TAG_SHA3_512_ORIGINAL_FILE) == Some(r0[4].payload));
    assert(payload_of(r3, TAG_SHA3_512_ORIGINAL_FILE) == Some(r0[4].payload));
    assert(payload_of(r2, TAG_SHA3_512_ORIGINAL_FILE) == Some(r0[4].payload));
    assert(payload_of(r1, TAG_SHA3_512_ORIGINAL_FILE) == Some(r0[4].payload));
    assert(payload_of(r3, TAG_CIPHERTEXT) == Some(r0[3].payload));
    assert(payload_of(r2, TAG_CIPHERTEXT) == Some(r0[3].payload));
    assert(payload_of(r1, TAG_CIPHERTEXT) == Some(r0[3].payload));
    assert(payload_of(r2, TAG_HASH_PASSWORD) == Some(r0[2].payload));
    assert(payload_of(r1, TAG_HASH_PASSWORD) == Some(r0[2].payload));
    assert(payload_of(r1, TAG_SALT_B) == Some(r0[1].payload));
}

/// A container is the magic header followed by the wire form of its five
/// records.
pub proof fn lemma_container_is_records(
    plain: Seq<u8>,
    password: Seq<char>,
    salt_a: Seq<u8>,
    salt_b: Seq<u8>,
    chunk: nat,
)
    ensures
        container_bytes(plain, password, salt_a, salt_b, chunk) == file_head() + records_bytes(
            container_records(plain, password, salt_a, salt_b, chunk),
        ),
{
    let records = container_records(plain, password, salt_a, salt_b, chunk);
    lemma_written_order_bytes(records);
    assert(container_bytes(plain, password, salt_a, salt_b, chunk) =~= file_head() + records_bytes(
        records,
    ));
}

/// Decrypting what an encryption wrote, with the same password and the
/// same chunk size, gives back the plaintext, whatever its length.
pub proof fn lemma_round_trip(
    plain: Seq<u8>,
    password: Seq<char>,
    salt_a: Seq<u8>,
    salt_b: Seq<u8>,
    chunk: nat,
)
    requires
        container_bytes(plain, password, salt_a, salt_b, chunk).len() <= usize::MAX,
    ensures
        decrypt_container(
            container_bytes(plain, password, salt_a, salt_b, chunk),
            password,
            chunk,
        ) == Ok::<Seq<u8>, encryp_error>(plain),
{
    let records = container_records(plain, password, salt_a, salt_b, chunk);
    lemma_container_is_records(plain, password, salt_a, salt_b, chunk);
    lemma_written_order_payloads(records);
    lemma_decrypt_by_records(records, password, chunk);
    lemma_xor_chunked_involution(seed_state(password, salt_b), plain, chunk);
}

/// Encrypting with one chunk size and decrypting with another gives back
/// the plaintext, provided each of the two is a multiple of 8 or takes the
/// whole plaintext in one chunk.
pub proof fn lemma_chunk_size_independence(
    plain: Seq<u8>,
    password: Seq<char>,
    salt_a: Seq<u8>,
    salt_b: Seq<u8>,
    chunk_a: nat,
    chunk_b: nat,
)
    requires
        chunk_a >= 8,
        chunk_b >= 8,
        chunk_a % 8 == 0 || plain.len() <= chunk_a,
        chunk_b % 8 == 0 || plain.len() <= chunk_b,
        container_bytes(plain, password, salt_a, salt_b, chunk_a).len() <= usize::MAX,
    ensures
        container_bytes(plain, password, salt_a, salt_b, chunk_a) == container_bytes(
            plain,
            password,
            salt_a,
            salt_b,
            chunk_b,
        ),
        decrypt_container(
            container_bytes(plain, password, salt_a, salt_b, chunk_a),
            password,
            chunk_b,
        ) == Ok::<Seq<u8>, encryp_error>(plain),
{
    let seed = seed_state(password, salt_b);
    lemma_xor_chunked_is_continuous(seed, plain, chunk_a);
    lemma_xor_chunked_is_continuous(seed, plain, chunk_b);
    lemma_round_trip(plain, password, salt_a, salt_b, chunk_b);
}

/// Decrypting with a password whose salted digest differs from that of the
/// password of the encryption fails on the password check, before anything
/// is decrypted.
pub proof fn lemma_wrong_password(
    plain: Seq<u8>,
    password: Seq<char>,
    other: Seq<char>,
    salt_a: Seq<u8>,
    salt_b: Seq<u8>,
    chunk_a: nat,
    chunk_b: nat,
)
    requires
        salted_digest_of(other, salt_a) != salted_digest_of(password, salt_a),
        container_bytes(plain, password, salt_a, salt_b, chunk_a).len() <= usize::MAX,
    ensures
        decrypt_container(container_bytes(plain, password, salt_a, salt_b, chunk_a), other, chunk_b)
            == Err::<Seq<u8>, encryp_error>(encryp_error::WrongPassword),
{
    let records = container_records(plain, password, salt_a, salt_b, chunk_a);
    lemma_container_is_records(plain, password, salt_a, salt_b, chunk_a);
    lemma_written_order_payloads(records);
    lemma_decrypt_by_records(records, other, chunk_b);
}

/// Offset of the first ciphertext byte in the container of an encryption.
pub open spec fn ciphertext_start(password: Seq<char>, salt_a: Seq<u8>, salt_b: Seq<u8>) -> nat {
    FILE_HEAD_LEN as nat + BLOCK_HEAD_LEN as nat + salt_a.len() + BLOCK_HEAD_LEN as nat
        + salt_b.len() + BLOCK_HEAD_LEN as nat + salted_digest_of(password, salt_a).len()
        + BLOCK_HEAD_LEN as nat
}

/// Changing a payload byte of a record inside a stream changes that byte
/// of the payload and nothing else.
proof fn lemma_update_inside_block(
    pre: Seq<u8>,
    tag: u64,
    payload: Seq<u8>,
    post: Seq<u8>,
    i: int,
    byte: u8,
)
    requires
        0 <= i < payload.len(),
    ensures
        (pre + block_bytes(tag, payload) + post).update(pre.len() + BLOCK_HEAD_LEN + i, byte) == pre
            + block_bytes(tag, payload.update(i, byte)) + post,
{
    let head = crate::container::block_head_bytes(tag, payload.len() as u64);
    assert(head.len() == BLOCK_HEAD_LEN);
    assert(block_bytes(tag, payload.update(i, byte)) =~= head + payload.update(i, byte));
    assert((pre + block_bytes(tag, payload) + post).update(pre.len() + BLOCK_HEAD_LEN + i, byte)
        =~= pre + block_bytes(tag, payload.update(i, byte)) + post);
}

/// Changing one byte of the ciphertext of a container changes the same
/// byte of what is decrypted, and the digest check then fails, unless the
/// changed plaintext has the digest of the unchanged one.
pub proof fn lemma_tamper_detection(
    plain: Seq<u8>,
    password: Seq<char>,
    salt_a: Seq<u8>,
    salt_b: Seq<u8>,
    chunk: nat,
    i: int,
    byte: u8,
)
    requires
        0 <= i < plain.len(),
        container_bytes(plain, password, salt_a, salt_b, chunk).len() <= usize::MAX,
        byte != container_bytes(plain, password, salt_a, salt_b, chunk)[ciphertext_start(
            password,
            salt_a,
            salt_b,
        ) + i],
    ensures
        ({
            let container = container_bytes(plain, password, salt_a, salt_b, chunk);
            let tampered = container.update(ciphertext_start(password, salt_a, salt_b) + i, byte);
            let altered = plain.update(i, byte ^ chunk_key_byte(
                seed_state(password, salt_b),
                chunk,
                i as nat,
            ));
            &&& altered != plain
            &&& decrypt_container(tampered, password, chunk) == if sha3_512_of(altered)
                == sha3_512_of(plain) {
                Ok::<Seq<u8>, encryp_error>(altered)
            } else {
                Err::<Seq<u8>, encryp_error>(encryp_error::IntegrityFailure)
            }
        }),
{
    let seed = seed_state(password, salt_b);
    let container = container_bytes(plain, password, salt_a, salt_b, chunk);
    let start = ciphertext_start(password, salt_a, salt_b);
    let tampered = container.update(start + i, byte);
    let cipher = xor_chunked(seed, plain, chunk);
    let key = chunk_key_byte(seed, chunk, i as nat);
    let altered = plain.update(i, byte ^ key);
    let records = container_records(plain, password, salt_a, salt_b, chunk);
    let changed = records.update(
        3,
        record { tag: TAG_CIPHERTEXT, payload: cipher.update(i, byte) },
    );
    assert(block_bytes(TAG_CIPHERTEXT, cipher)[BLOCK_HEAD_LEN + i] == cipher[i]);
    assert(container[start + i] == cipher[i]);
    assert(cipher[i] == plain[i] ^ key);
    assert(byte ^ key != plain[i]) by {
        let x = plain[i];
        assert(byte != x ^ key ==> byte ^ key != x) by (bit_vector);
    }
    assert(altered[i] != plain[i]);
    assert(xor_chunked(seed, cipher.update(i, byte), chunk) =~= altered) by {
        lemma_xor_chunked_involution(seed, plain, chunk);
        assert forall|k: int| 0 <= k < plain.len() && k != i implies xor_chunked(
            seed,
            cipher.update(i, byte),
            chunk,
        )[k] == plain[k] by {
            assert(xor_chunked(seed, cipher, chunk)[k] == plain[k]);
        }
    }
    let pre = file_head() + block_bytes(TAG_SALT_A, salt_a) + block_bytes(TAG_SALT_B, salt_b)
        + block_bytes(TAG_HASH_PASSWORD, salted_digest_of(password, salt_a));
    let post = block_bytes(TAG_SHA3_512_ORIGINAL_FILE, sha3_512_of(plain));
    assert(pre.len() + BLOCK_HEAD_LEN == start);
    lemma_update_inside_block(pre, TAG_CIPHERTEXT, cipher, post, i, byte);
    lemma_written_order_bytes(changed);
    lemma_written_order_payloads(changed);
    assert(file_head() + records_bytes(changed) =~= pre + block_bytes(
        TAG_CIPHERTEXT,
        cipher.update(i, byte),
    ) + post);
    lemma_decrypt_by_records(changed, password, chunk);
}

/// A record of unknown kind, put anywhere among the records, changes
/// neither which known kinds repeat nor the payload found for a known kind,
/// and makes the wire form longer by its own length.
proof fn lemma_insert_unknown(
    records: Seq<record>,
    k: int,
    extra: record,
    seen: Set<u64>,
    tag: u64,
)
    requires
        0 <= k <= records.len(),
        !is_known_tag(extra.tag),
    ensures
        no_repeats(records.insert(k, extra), seen) == no_repeats(records, seen),
        is_known_tag(tag) ==> payload_of(records.insert(k, extra), tag) == payload_of(records, tag),
        records_bytes(records.insert(k, extra)).len() == records_bytes(records).len()
            + block_bytes(extra.tag, extra.payload).len(),
    decreases k,
{
    let wider = records.insert(k, extra);
    if k == 0 {
        assert(wider.drop_first() =~= records);
        assert(wider[0] == extra);
    } else {
        let first = records[0];
        assert(wider[0] == first);
        assert(wider.drop_first() =~= records.drop_first().insert(k - 1, extra));
        if is_known_tag(first.tag) {
            lemma_insert_unknown(records.drop_first(), k - 1, extra, seen.insert(first.tag), tag);
        } else {
            lemma_insert_unknown(records.drop_first(), k - 1, extra, seen, tag);
        }
    }
}

/// A record of unknown kind, put anywhere among the records of a
/// container, changes nothing of what decrypting gives.
pub proof fn lemma_unknown_record_ignored(
    records: Seq<record>,
    k: int,
    extra: record,
    password: Seq<char>,
    chunk: nat,
)
    requires
        0 <= k <= records.len(),
        !is_known_tag(extra.tag),
        (file_head() + records_bytes(records.insert(k, extra))).len() <= usize::MAX,
    ensures
        decrypt_container(file_head() + records_bytes(records.insert(k, extra)), password, chunk)
            == decrypt_container(file_head() + records_bytes(records), password, chunk),
{
    let none = Set::<u64>::empty();
    lemma_insert_unknown(records, k, extra, none, TAG_SALT_A);
    lemma_insert_unknown(records, k, extra, none, TAG_SALT_B);
    lemma_insert_unknown(records, k, extra, none, TAG_HASH_PASSWORD);
    lemma_insert_unknown(records, k, extra, none, TAG_CIPHERTEXT);
    lemma_insert_unknown(records, k, extra, none, TAG_SHA3_512_ORIGINAL_FILE);
    lemma_decrypt_by_records(records.insert(k, extra), password, chunk);
    lemma_decrypt_by_records(records, password, chunk);
}

/// A container of an encryption into which a record of unknown kind was
/// put, before, between or after its records, still decrypts to the
/// plaintext.
pub proof fn lemma_forward_compatibility(
    plain: Seq<u8>,
    password: Seq<char>,
    salt_a: Seq<u8>,
    salt_b: Seq<u8>,
    chunk: nat,
    k: int,
    extra: record,
)
    requires
        0 <= k <= 5,
        !is_known_tag(extra.tag),
        (file_head() + records_bytes(
            container_records(plain, password, salt_a, salt_b, chunk).insert(k, extra),
        )).len() <= usize::MAX,
    ensures
        decrypt_container(
            file_head() + records_bytes(
                container_records(plain, password, salt_a, salt_b, chunk).insert(k, extra),
            ),
            password,
            chunk,
        ) == Ok::<Seq<u8>, encryp_error>(plain),
{
    let records = container_records(plain, password, salt_a, salt_b, chunk);
    lemma_insert_unknown(records, k, extra, Set::empty(), TAG_SALT_A);
    lemma_unknown_record_ignored(records, k, extra, password, chunk);
    lemma_container_is_records(plain, password, salt_a, salt_b, chunk);
    lemma_round_trip(plain, password, salt_a, salt_b, chunk);
}

/// A record of a known kind that was seen before is a repeat.
proof fn lemma_seen_tag_repeats(records: Seq<record>, seen: Set<u64>, j: int)
    requires
        0 <= j < records.len(),
        is_known_tag(records[j].tag),
        seen.contains(records[j].tag),
    ensures
        !no_repeats(records, seen),
    decreases records.len(),
{
    if j > 0 {
        let first = records[0];
        assert(records.drop_first()[j - 1] == records[j]);
        if is_known_tag(first.tag) {
            lemma_seen_tag_repeats(records.drop_first(), seen.insert(first.tag), j - 1);
        } else {
            lemma_seen_tag_repeats(records.drop_first(), seen, j - 1);
        }
    }
}

/// Two records of the same known kind are a repeat.
proof fn lemma_same_tag_repeats(records: Seq<record>, seen: Set<u64>, i: int, j: int)
    requires
        0 <= i < j < records.len(),
        is_known_tag(records[i].tag),
        records[i].tag == records[j].tag,
    ensures
        !no_repeats(records, seen),
    decreases records.len(),
{
    let first = records[0];
    assert(records.drop_first()[j - 1] == records[j]);
    if i == 0 {
        lemma_seen_tag_repeats(records.drop_first(), seen.insert(first.tag), j - 1);
    } else {
        assert(records.drop_first()[i - 1] == records[i]);
        if is_known_tag(first.tag) {
            lemma_same_tag_repeats(records.drop_first(), seen.insert(first.tag), i - 1, j - 1);
        } else {
            lemma_same_tag_repeats(records.drop_first(), seen, i - 1, j - 1);
        }
    }
}

/// A container in which two records carry the same known kind is a format
/// error, to the reader and so to a decryption: neither record is picked.
pub proof fn lemma_duplicate_tag_rejected(
    records: Seq<record>,
    i: int,
    j: int,
    password: Seq<char>,
    chunk: nat,
)
    requires
        0 <= i < j < records.len(),
        is_known_tag(records[i].tag),
        records[i].tag == records[j].tag,
        (file_head() + records_bytes(records)).len() <= usize::MAX,
    ensures
        parse_container(file_head() + records_bytes(records)) == Err::<
            Map<u64, block_entry>,
            encryp_error,
        >(encryp_error::MalformedContainer),
        decrypt_container(file_head() + records_bytes(records), password, chunk) == Err::<
            Seq<u8>,
            encryp_error,
        >(encryp_error::MalformedContainer),
{
    lemma_same_tag_repeats(records, Set::empty(), i, j);
    lemma_parse_container_of_records(records);
}

} // verus!
