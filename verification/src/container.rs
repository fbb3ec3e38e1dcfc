use crate::bytes::{put_u64_le, u64_from_le, u64_to_le};
use crate::error::encryp_error;
use crate::options::encryp_option;
use std::collections::HashMap;
use vstd::prelude::*;

verus! {

broadcast use vstd::std_specs::hash::group_hash_axioms;

/// The kinds of record that a reader knows. Their wire identifiers are
/// fixed: containers outlive the program that wrote them.
#[derive(Clone, Copy, Debug, PartialEq, Eq, Hash, Structural)]
pub enum data_block_type {
    salt_a,
    salt_b,
    hash_password,
    ciphertext,
    sha3_512_original_file,
}

/// Wire identifier of the record that holds the first salt.
pub const TAG_SALT_A: u64 = 42;

/// Wire identifier of the record that holds the second salt.
pub const TAG_SALT_B: u64 = 114514;

/// Wire identifier of the record that holds the password hash.
pub const TAG_HASH_PASSWORD: u64 = 1919810;

/// Wire identifier of the record that holds the ciphertext.
pub const TAG_CIPHERTEXT: u64 = 666;

/// Wire identifier of the record that holds the digest of the plaintext.
pub const TAG_SHA3_512_ORIGINAL_FILE: u64 = 2300;

/// Length of the magic header that opens a container.
pub const FILE_HEAD_LEN: usize = 16;

/// Number of leading bytes of the magic header that a reader compares.
pub const SIGNATURE_LEN: usize = 5;

/// Length of a record head: the tag and the payload length.
pub const BLOCK_HEAD_LEN: usize = 16;

impl data_block_type {
    /// The wire identifier of a kind.
    pub open spec fn spec_tag(self) -> u64 {
        match self {
            data_block_type::salt_a => TAG_SALT_A,
            data_block_type::salt_b => TAG_SALT_B,
            data_block_type::hash_password => TAG_HASH_PASSWORD,
            data_block_type::ciphertext => TAG_CIPHERTEXT,
            data_block_type::sha3_512_original_file => TAG_SHA3_512_ORIGINAL_FILE,
        }
    }

    /// The kind with a given wire identifier, if there is one.
    pub open spec fn spec_from_tag(tag: u64) -> Option<data_block_type> {
        if tag == TAG_SALT_A {
            Some(data_block_type::salt_a)
        } else if tag == TAG_SALT_B {
            Some(data_block_type::salt_b)
        } else if tag == TAG_HASH_PASSWORD {
            Some(data_block_type::hash_password)
        } else if tag == TAG_CIPHERTEXT {
            Some(data_block_type::ciphertext)
        } else if tag == TAG_SHA3_512_ORIGINAL_FILE {
            Some(data_block_type::sha3_512_original_file)
        } else {
            None
        }
    }

    #[verifier::when_used_as_spec(spec_tag)]
    pub fn tag(self) -> (t: u64)
        ensures
            t == self.spec_tag(),
    {
        match self {
            data_block_type::salt_a => TAG_SALT_A,
            data_block_type::salt_b => TAG_SALT_B,
            data_block_type::hash_password => TAG_HASH_PASSWORD,
            data_block_type::ciphertext => TAG_CIPHERTEXT,
            data_block_type::sha3_512_original_file => TAG_SHA3_512_ORIGINAL_FILE,
        }
    }

    /// Decodes a wire identifier; an identifier of no known kind gives `None`.
    pub fn from_tag(tag: u64) -> (kind: Option<data_block_type>)
        ensures
            kind == data_block_type::spec_from_tag(tag),
    {
        if tag == TAG_SALT_A {
            Some(data_block_type::salt_a)
        } else if tag == TAG_SALT_B {
            Some(data_block_type::salt_b)
        } else if tag == TAG_HASH_PASSWORD {
            Some(data_block_type::hash_password)
        } else if tag == TAG_CIPHERTEXT {
            Some(data_block_type::ciphertext)
        } else if tag == TAG_SHA3_512_ORIGINAL_FILE {
            Some(data_block_type::sha3_512_original_file)
        } else {
            None
        }
    }
}

/// Whether a wire identifier is that of a known kind.
pub open spec fn is_known_tag(tag: u64) -> bool {
    data_block_type::spec_from_tag(tag) is Some
}

/// Decoding the identifier of a kind gives the kind back.
pub proof fn lemma_tag_round_trip(kind: data_block_type)
    ensures
        data_block_type::spec_from_tag(kind.spec_tag()) == Some(kind),
{
}

/// The magic header as it is written: two zero bytes, the signature, the
/// format version and a reserved, zeroed remainder. A reader compares the
/// first `SIGNATURE_LEN` bytes only.
pub open spec fn file_head() -> Seq<u8> {
    seq![0u8, 0u8, 0x54u8, 0x65u8, 0x6eu8, 0x74u8, 4u8, 0u8, 0u8, 0u8, 0u8, 0u8, 0u8, 0u8, 0u8, 0u8]
}

/// A record head on the wire: tag, then payload length, both little-endian.
pub open spec fn block_head_bytes(tag: u64, len: u64) -> Seq<u8> {
    u64_to_le(tag) + u64_to_le(len)
}

/// A whole record on the wire: its head, then its payload.
pub open spec fn block_bytes(tag: u64, payload: Seq<u8>) -> Seq<u8> {
    block_head_bytes(tag, payload.len() as u64) + payload
}

/// Appends the magic header to `out`.
pub fn write_file_head(out: &mut Vec<u8>)
    ensures
        final(out)@ == old(out)@ + file_head(),
{
    let ghost before = out@;
    out.push(0);
    out.push(0);
    out.push(0x54);
    out.push(0x65);
    out.push(0x6e);
    out.push(0x74);
    out.push(4);
    let mut i: usize = 7;
    while i < FILE_HEAD_LEN
        invariant
            7 <= i <= FILE_HEAD_LEN,
            out@.len() == before.len() + i,
            forall|k: int| 0 <= k < before.len() ==> out@[k] == before[k],
            forall|k: int| 0 <= k < i ==> out@[before.len() + k] == file_head()[k],
        decreases FILE_HEAD_LEN - i,
    {
        out.push(0);
        i += 1;
    }
    assert(out@ =~= before + file_head());
}

/// Appends the head of a record of kind `data_type` that announces `len`
/// bytes of payload.
pub fn write_data_block_head(out: &mut Vec<u8>, data_type: data_block_type, len: u64)
    ensures
        final(out)@ == old(out)@ + block_head_bytes(data_type.spec_tag(), len),
{
    let ghost before = out@;
    put_u64_le(out, data_type.tag());
    put_u64_le(out, len);
    assert(out@ =~= before + block_head_bytes(data_type.spec_tag(), len));
}

/// Appends a whole record of kind `data_type` with payload `data_u8`.
pub fn write_data_block(out: &mut Vec<u8>, data_type: data_block_type, data_u8: &[u8])
    ensures
        final(out)@ == old(out)@ + block_bytes(data_type.spec_tag(), data_u8@),
{
    let ghost before = out@;
    write_data_block_head(out, data_type, data_u8.len() as u64);
    out.extend_from_slice(data_u8);
    assert(out@ =~= before + block_bytes(data_type.spec_tag(), data_u8@));
}

/// What a record leaves in the index, as a mathematical value: either its
/// payload, or only the payload's length.
pub enum block_payload {
    inline(Seq<u8>),
    deferred(u64),
}

/// An entry of the index as a mathematical value: what the record left and
/// where in the container its payload starts.
pub struct block_entry {
    pub payload: block_payload,
    pub offset: u64,
}

/// What the reader keeps of a record's payload. The ciphertext is never
/// buffered: only its length is kept.
#[derive(Debug)]
pub enum data_block_data {
    small(Vec<u8>),
    large(u64),
}

impl View for data_block_data {
    type V = block_payload;

    open spec fn view(&self) -> block_payload {
        match self {
            data_block_data::small(v) => block_payload::inline(v@),
            data_block_data::large(n) => block_payload::deferred(*n),
        }
    }
}

/// An entry of the index: what was kept of the payload, and the offset of
/// the payload's first byte in the container.
#[derive(Debug)]
pub struct data_block_content {
    pub data: data_block_data,
    pub offset: u64,
}

impl View for data_block_content {
    type V = block_entry;

    open spec fn view(&self) -> block_entry {
        block_entry { payload: self.data@, offset: self.offset }
    }
}

/// The index of a container: for each wire identifier of a known kind that
/// occurs, the entry of its one record.
pub struct encrypted_file {
    pub data_blocks: HashMap<u64, data_block_content>,
}

impl View for encrypted_file {
    type V = Map<u64, block_entry>;

    open spec fn view(&self) -> Map<u64, block_entry> {
        self.data_blocks@.map_values(|c: data_block_content| c@)
    }
}

/// Where the ciphertext lies in a container.
#[derive(Clone, Copy, Debug, PartialEq, Eq, Structural)]
pub struct ciphertext_info {
    pub length: u64,
    pub offset: u64,
}

/// The entry that a record of a known kind leaves: the ciphertext only its
/// length, every other kind its payload.
pub open spec fn entry_of(tag: u64, payload: Seq<u8>, offset: int) -> block_entry {
    block_entry {
        payload: if tag == TAG_CIPHERTEXT {
            block_payload::deferred(payload.len() as u64)
        } else {
            block_payload::inline(payload)
        },
        offset: offset as u64,
    }
}

/// The index that reading records from `pos` to the end of `data` adds to
/// `index`. The end of the data at a record boundary ends the records. A
/// head or a payload that the data cuts short, and a second record of a
/// known kind, are format errors. A record of an unknown kind is passed
/// over.
pub open spec fn parse_records(data: Seq<u8>, pos: int, index: Map<u64, block_entry>) -> Result<
    Map<u64, block_entry>,
    encryp_error,
>
    decreases data.len() - pos,
{
    if pos < 0 || pos >= data.len() {
        Ok(index)
    } else if data.len() - pos < BLOCK_HEAD_LEN {
        Err(encryp_error::MalformedContainer)
    } else {
        let tag = u64_from_le(data.subrange(pos, pos + 8));
        let len = u64_from_le(data.subrange(pos + 8, pos + 16));
        let body = pos + BLOCK_HEAD_LEN;
        if len > data.len() - body {
            Err(encryp_error::MalformedContainer)
        } else if !is_known_tag(tag) {
            parse_records(data, body + len, index)
        } else if index.contains_key(tag) {
            Err(encryp_error::MalformedContainer)
        } else {
            parse_records(
                data,
                body + len,
                index.insert(tag, entry_of(tag, data.subrange(body, body + len), body)),
            )
        }
    }
}

/// The index of a whole container: the magic header must be there and
/// carry the signature, then records follow to the end.
pub open spec fn parse_container(data: Seq<u8>) -> Result<Map<u64, block_entry>, encryp_error> {
    if data.len() < FILE_HEAD_LEN || data.subrange(0, SIGNATURE_LEN as int) != file_head().subrange(
        0,
        SIGNATURE_LEN as int,
    ) {
        Err(encryp_error::MalformedContainer)
    } else {
        parse_records(data, FILE_HEAD_LEN as int, Map::empty())
    }
}

/// The payload that the index holds for `tag`, if it holds one.
pub open spec fn inline_of(index: Map<u64, block_entry>, tag: u64) -> Option<Seq<u8>> {
    if index.contains_key(tag) {
        match index[tag].payload {
            block_payload::inline(bytes) => Some(bytes),
            block_payload::deferred(_) => None,
        }
    } else {
        None
    }
}

/// Where the ciphertext lies according to the index, if the index has a
/// ciphertext entry in deferred form.
pub open spec fn ciphertext_of(index: Map<u64, block_entry>) -> Option<ciphertext_info> {
    if index.contains_key(TAG_CIPHERTEXT) {
        match index[TAG_CIPHERTEXT].payload {
            block_payload::inline(_) => None,
            block_payload::deferred(length) => Some(
                ciphertext_info { length, offset: index[TAG_CIPHERTEXT].offset },
            ),
        }
    } else {
        None
    }
}

/// A copy of the payload that the index holds for a kind.
fn get_inline(efile: &encrypted_file, kind: data_block_type) -> (ret: Option<Vec<u8>>)
    ensures
        match ret {
            Some(v) => inline_of(efile@, kind.spec_tag()) == Some(v@),
            None => inline_of(efile@, kind.spec_tag()) is None,
        },
{
    let tag: u64 = kind.tag();
    match efile.data_blocks.get(&tag) {
        Some(content) => match &content.data {
            data_block_data::small(v) => {
                let copy = v.clone();
                assert(copy@ =~= v@);
                Some(copy)
            },
            data_block_data::large(_) => None,
        },
        None => None,
    }
}

/// Replaces the salts of `opt` by those of the container. The first salt
/// is replaced as soon as it is found, whether or not the second is there.
pub fn get_salt(opt: &mut encryp_option, efile: &encrypted_file) -> (ret: Result<(), encryp_error>)
    ensures
        ret is Ok <==> inline_of(efile@, TAG_SALT_A) is Some && inline_of(efile@, TAG_SALT_B) is Some,
        ret is Err ==> ret == Err::<(), encryp_error>(encryp_error::MissingField),
        final(opt).salt_a@ == match inline_of(efile@, TAG_SALT_A) {
            Some(salt) => salt,
            None => old(opt).salt_a@,
        },
        final(opt).salt_b@ == match inline_of(efile@, TAG_SALT_B) {
            Some(salt) if inline_of(efile@, TAG_SALT_A) is Some => salt,
            _ => old(opt).salt_b@,
        },
        final(opt).keep == old(opt).keep,
        final(opt).cover_existing_file == old(opt).cover_existing_file,
        final(opt).buffer_size == old(opt).buffer_size,
        final(opt).password@ == old(opt).password@,
{
    match get_inline(efile, data_block_type::salt_a) {
        Some(v) => {
            opt.salt_a = v;
        },
        None => {
            return Err(encryp_error::MissingField);
        },
    }
    match get_inline(efile, data_block_type::salt_b) {
        Some(v) => {
            opt.salt_b = v;
        },
        None => {
            return Err(encryp_error::MissingField);
        },
    }
    Ok(())
}

/// The stored password hash and the stored plaintext digest, in this order.
pub fn get_hashes(efile: &encrypted_file) -> (ret: Result<(Vec<u8>, Vec<u8>), encryp_error>)
    ensures
        match ret {
            Ok(hashes) => inline_of(efile@, TAG_HASH_PASSWORD) == Some(hashes.0@) && inline_of(
                efile@,
                TAG_SHA3_512_ORIGINAL_FILE,
            ) == Some(hashes.1@),
            Err(e) => e == encryp_error::MissingField && (inline_of(efile@, TAG_HASH_PASSWORD) is None
                || inline_of(efile@, TAG_SHA3_512_ORIGINAL_FILE) is None),
        },
{
    let hash_password = match get_inline(efile, data_block_type::hash_password) {
        Some(v) => v,
        None => {
            return Err(encryp_error::MissingField);
        },
    };
    let plain_digest = match get_inline(efile, data_block_type::sha3_512_original_file) {
        Some(v) => v,
        None => {
            return Err(encryp_error::MissingField);
        },
    };
    Ok((hash_password, plain_digest))
}

/// Where the ciphertext lies: its length and the offset of its first byte.
pub fn get_ciphertext_info(efile: &encrypted_file) -> (ret: Result<ciphertext_info, encryp_error>)
    ensures
        match ret {
            Ok(info) => ciphertext_of(efile@) == Some(info),
            Err(e) => e == encryp_error::MissingCiphertext && ciphertext_of(efile@) is None,
        },
{
    let tag: u64 = data_block_type::ciphertext.tag();
    match efile.data_blocks.get(&tag) {
        Some(content) => match &content.data {
            data_block_data::large(bytes) => Ok(
                ciphertext_info { length: *bytes, offset: content.offset },
            ),
            data_block_data::small(_) => Err(encryp_error::MissingCiphertext),
        },
        None => Err(encryp_error::MissingCiphertext),
    }
}

/// Number of payload bytes that an entry stands for.
pub open spec fn payload_len(payload: block_payload) -> nat {
    match payload {
        block_payload::inline(bytes) => bytes.len(),
        block_payload::deferred(length) => length as nat,
    }
}

/// What holds of every index that a reader builds from a container of
/// `len` bytes: it has entries for known kinds only; the ciphertext, and
/// nothing else, is entered in deferred form; and every payload lies
/// inside the container, after the magic header and a record head.
pub open spec fn index_well_formed(index: Map<u64, block_entry>, len: nat) -> bool {
    forall|tag: u64| #[trigger]
        index.contains_key(tag) ==> {
            &&& is_known_tag(tag)
            &&& (tag == TAG_CIPHERTEXT <==> index[tag].payload is deferred)
            &&& FILE_HEAD_LEN + BLOCK_HEAD_LEN <= index[tag].offset
            &&& index[tag].offset + payload_len(index[tag].payload) <= len
        }
}

/// Reading records keeps an index well formed.
proof fn lemma_parse_records_well_formed(data: Seq<u8>, pos: int, index: Map<u64, block_entry>)
    requires
        data.len() <= u64::MAX,
        FILE_HEAD_LEN <= pos,
        index_well_formed(index, data.len()),
        parse_records(data, pos, index) is Ok,
    ensures
        index_well_formed(parse_records(data, pos, index)->Ok_0, data.len()),
    decreases data.len() - pos,
{
    if pos < data.len() {
        let tag = u64_from_le(data.subrange(pos, pos + 8));
        let len = u64_from_le(data.subrange(pos + 8, pos + 16));
        let body = pos + BLOCK_HEAD_LEN;
        if !is_known_tag(tag) {
            lemma_parse_records_well_formed(data, body + len, index);
        } else {
            let grown = index.insert(tag, entry_of(tag, data.subrange(body, body + len), body));
            assert(index_well_formed(grown, data.len()));
            lemma_parse_records_well_formed(data, body + len, grown);
        }
    }
}

/// The index of a container is well formed.
pub proof fn lemma_parse_well_formed(data: Seq<u8>)
    requires
        data.len() <= u64::MAX,
        parse_container(data) is Ok,
    ensures
        index_well_formed(parse_container(data)->Ok_0, data.len()),
{
    lemma_parse_records_well_formed(data, FILE_HEAD_LEN as int, Map::empty());
}

} // verus!
