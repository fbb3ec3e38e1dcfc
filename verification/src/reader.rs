use crate::bytes::{get_u64_le, u64_from_le};
use crate::container::{
    block_entry, block_payload, data_block_content, data_block_data, data_block_type,
    encrypted_file, entry_of, file_head, is_known_tag, parse_container, parse_records,
    BLOCK_HEAD_LEN, FILE_HEAD_LEN, SIGNATURE_LEN, TAG_CIPHERTEXT,
};
use crate::error::encryp_error;
use std::collections::HashMap;
use vstd::prelude::*;

verus! {

broadcast use vstd::std_specs::hash::group_hash_axioms;

/// What whoever feeds a reader does after it has handed over a record head.
#[derive(Clone, Copy, Debug, PartialEq, Eq, Structural)]
pub enum read_step {
    /// The records have ended.
    finished,
    /// Pass over a payload of this many bytes; the next head follows it.
    skip(u64),
    /// Read a payload of this many bytes and hand it over.
    load(u64),
}

/// A reader of containers that is fed piece by piece: first the magic
/// header, then every record head, and the payload of every record that is
/// kept in memory. It never sees the ciphertext.
pub struct container_reader {
    file: encrypted_file,
    pos: u64,
    file_len: u64,
    pending: Option<(data_block_type, u64)>,
}

/// What a record head means to a reader that has the index `index` and
/// stands at offset `pos` of a container of `file_len` bytes. `head` is
/// what could be read at `pos`: nothing at the end of the container, 16
/// bytes where a record follows, fewer where the container is cut short.
pub open spec fn head_outcome(
    index: Map<u64, block_entry>,
    pos: int,
    file_len: int,
    head: Seq<u8>,
) -> Result<read_step, encryp_error> {
    if head.len() == 0 {
        Ok(read_step::finished)
    } else if head.len() < BLOCK_HEAD_LEN {
        Err(encryp_error::MalformedContainer)
    } else {
        let tag = u64_from_le(head.subrange(0, 8));
        let len = u64_from_le(head.subrange(8, 16));
        if len > file_len - (pos + BLOCK_HEAD_LEN) {
            Err(encryp_error::MalformedContainer)
        } else if !is_known_tag(tag) {
            Ok(read_step::skip(len))
        } else if index.contains_key(tag) {
            Err(encryp_error::MalformedContainer)
        } else if tag == TAG_CIPHERTEXT {
            Ok(read_step::skip(len))
        } else {
            Ok(read_step::load(len))
        }
    }
}

/// Whether `data` starts with the signature of the magic header.
fn has_signature(data: &[u8]) -> (ok: bool)
    requires
        data@.len() >= SIGNATURE_LEN,
    ensures
        ok == (data@.subrange(0, SIGNATURE_LEN as int) == file_head().subrange(
            0,
            SIGNATURE_LEN as int,
        )),
{
    let ok = data[0] == 0 && data[1] == 0 && data[2] == 0x54 && data[3] == 0x65 && data[4] == 0x6e;
    proof {
        let a = data@.subrange(0, SIGNATURE_LEN as int);
        let b = file_head().subrange(0, SIGNATURE_LEN as int);
        if ok {
            assert(a =~= b);
        } else {
            assert(a[0] == data@[0] && a[1] == data@[1] && a[2] == data@[2] && a[3] == data@[3]
                && a[4] == data@[4]);
            assert(b[0] == 0 && b[1] == 0 && b[2] == 0x54 && b[3] == 0x65 && b[4] == 0x6e);
        }
    }
    ok
}

impl container_reader {
    /// The index built so far.
    pub closed spec fn index(&self) -> Map<u64, block_entry> {
        self.file@
    }

    /// The offset in the container at which the reader stands.
    pub closed spec fn pos(&self) -> u64 {
        self.pos
    }

    /// The length of the container that is being read.
    pub closed spec fn file_len(&self) -> u64 {
        self.file_len
    }

    /// The kind and the length of the payload that the reader waits for,
    /// if it waits for one.
    pub closed spec fn awaited(&self) -> Option<(data_block_type, u64)> {
        self.pending
    }

    /// The reader never stands behind the end of its container, and a
    /// payload that it waits for lies inside the container.
    pub closed spec fn wf(&self) -> bool {
        &&& FILE_HEAD_LEN <= self.pos <= self.file_len
        &&& match self.pending {
            Some((_, len)) => len <= self.file_len - self.pos,
            None => true,
        }
    }

    /// A reader for a container of `file_len` bytes that begins with
    /// `head`: the first 16 bytes of the container, or all of it where it
    /// has fewer. The magic header must be whole and carry the signature.
    pub fn open(head: &[u8], file_len: u64) -> (ret: Result<container_reader, encryp_error>)
        ensures
            ret is Ok <==> head@.len() >= FILE_HEAD_LEN && file_len >= FILE_HEAD_LEN
                && head@.subrange(0, SIGNATURE_LEN as int) == file_head().subrange(
                0,
                SIGNATURE_LEN as int,
            ),
            ret is Err ==> ret->Err_0 == encryp_error::MalformedContainer,
            ret is Ok ==> ret->Ok_0.wf() && ret->Ok_0.index() == Map::<u64, block_entry>::empty()
                && ret->Ok_0.pos() == FILE_HEAD_LEN && ret->Ok_0.file_len() == file_len
                && ret->Ok_0.awaited() is None,
    {
        if head.len() < FILE_HEAD_LEN || file_len < FILE_HEAD_LEN as u64 {
            return Err(encryp_error::MalformedContainer);
        }
        if !has_signature(head) {
            return Err(encryp_error::MalformedContainer);
        }
        let file = encrypted_file { data_blocks: HashMap::new() };
        assert(file@ =~= Map::<u64, block_entry>::empty());
        Ok(container_reader { file, pos: FILE_HEAD_LEN as u64, file_len, pending: None })
    }

    /// Takes what could be read where a record head is due and says what
    /// to do next. A record of unknown kind is passed over. The ciphertext
    /// is entered with its length and passed over. For any other known
    /// kind the reader then waits for the payload.
    pub fn on_head(&mut self, head: &[u8]) -> (ret: Result<read_step, encryp_error>)
        requires
            old(self).wf(),
            old(self).awaited() is None,
        ensures
            final(self).wf(),
            final(self).file_len() == old(self).file_len(),
            ret == head_outcome(
                old(self).index(),
                old(self).pos() as int,
                old(self).file_len() as int,
                head@,
            ),
            match ret {
                Ok(read_step::skip(len)) => {
                    let tag = u64_from_le(head@.subrange(0, 8));
                    &&& final(self).pos() == old(self).pos() + BLOCK_HEAD_LEN + len
                    &&& final(self).awaited() is None
                    &&& final(self).index() == if tag == TAG_CIPHERTEXT {
                        old(self).index().insert(
                            tag,
                            block_entry {
                                payload: block_payload::deferred(len),
                                offset: (old(self).pos() + BLOCK_HEAD_LEN) as u64,
                            },
                        )
                    } else {
                        old(self).index()
                    }
                },
                Ok(read_step::load(len)) => {
                    &&& final(self).pos() == old(self).pos() + BLOCK_HEAD_LEN
                    &&& final(self).index() == old(self).index()
                    &&& final(self).awaited() == Some(
                        (
                            data_block_type::spec_from_tag(u64_from_le(head@.subrange(0, 8)))->0,
                            len,
                        ),
                    )
                },
                _ => {
                    &&& final(self).pos() == old(self).pos()
                    &&& final(self).index() == old(self).index()
                    &&& final(self).awaited() is None
                },
            },
    {
        if head.len() == 0 {
            return Ok(read_step::finished);
        }
        if head.len() < BLOCK_HEAD_LEN {
            return Err(encryp_error::MalformedContainer);
        }
        let tag: u64 = get_u64_le(head, 0);
        let blk_len: u64 = get_u64_le(head, 8);
        if self.file_len - self.pos < BLOCK_HEAD_LEN as u64 {
            return Err(encryp_error::MalformedContainer);
        }
        let body: u64 = self.pos + BLOCK_HEAD_LEN as u64;
        if blk_len > self.file_len - body {
            return Err(encryp_error::MalformedContainer);
        }
        match data_block_type::from_tag(tag) {
            None => {
                self.pos = body + blk_len;
                Ok(read_step::skip(blk_len))
            },
            Some(kind) => {
                if self.file.data_blocks.contains_key(&tag) {
                    return Err(encryp_error::MalformedContainer);
                }
                match kind {
                    data_block_type::ciphertext => {
                        let ghost before = self.file@;
                        let content = data_block_content {
                            data: data_block_data::large(blk_len),
                            offset: body,
                        };
                        self.file.data_blocks.insert(tag, content);
                        assert(self.file@ =~= before.insert(tag, content@));
                        self.pos = body + blk_len;
                        Ok(read_step::skip(blk_len))
                    },
                    _ => {
                        self.pos = body;
                        self.pending = Some((kind, blk_len));
                        Ok(read_step::load(blk_len))
                    },
                }
            },
        }
    }

    /// Takes the payload that the reader waits for and enters it.
    pub fn on_payload(&mut self, payload: Vec<u8>)
        requires
            old(self).wf(),
            match old(self).awaited() {
                Some((_, len)) => payload@.len() == len,
                None => false,
            },
        ensures
            final(self).wf(),
            final(self).file_len() == old(self).file_len(),
            final(self).awaited() is None,
            final(self).pos() == old(self).pos() + payload@.len(),
            match old(self).awaited() {
                Some((kind, _)) => final(self).index() == old(self).index().insert(
                    kind.spec_tag(),
                    block_entry {
                        payload: block_payload::inline(payload@),
                        offset: old(self).pos(),
                    },
                ),
                None => false,
            },
    {
        let (kind, len) = match self.pending {
            Some(pending) => pending,
            None => {
                return ;
            },
        };
        let ghost before = self.file@;
        let content = data_block_content { data: data_block_data::small(payload), offset: self.pos };
        self.file.data_blocks.insert(kind.tag(), content);
        assert(self.file@ =~= before.insert(kind.spec_tag(), content@));
        self.pos = self.pos + len;
        self.pending = None;
    }

    /// The index that was built.
    pub fn into_file(self) -> (file: encrypted_file)
        ensures
            file@ == self.index(),
    {
        self.file
    }
}

/// Reads a container into its index. Only the framing is examined, never
/// what a payload holds.
pub fn parse_encrypted_file(data: &[u8]) -> (ret: Result<encrypted_file, encryp_error>)
    ensures
        match ret {
            Ok(file) => parse_container(data@) == Ok::<Map<u64, block_entry>, encryp_error>(file@),
            Err(e) => parse_container(data@) == Err::<Map<u64, block_entry>, encryp_error>(e),
        },
{
    let len: usize = data.len();
    let first: usize = if len < FILE_HEAD_LEN {
        len
    } else {
        FILE_HEAD_LEN
    };
    let magic = vstd::slice::slice_subrange(data, 0, first);
    assert(first >= SIGNATURE_LEN ==> magic@.subrange(0, SIGNATURE_LEN as int) =~= data@.subrange(
        0,
        SIGNATURE_LEN as int,
    ));
    let mut reader = match container_reader::open(magic, len as u64) {
        Ok(reader) => reader,
        Err(e) => {
            return Err(e);
        },
    };
    let mut pos: usize = FILE_HEAD_LEN;
    loop
        invariant
            FILE_HEAD_LEN <= pos <= len,
            len == data@.len(),
            reader.wf(),
            reader.awaited() is None,
            reader.pos() == pos,
            reader.file_len() == len,
            parse_records(data@, pos as int, reader.index()) == parse_container(data@),
        decreases len - pos,
    {
        let until: usize = if len - pos < BLOCK_HEAD_LEN {
            len
        } else {
            pos + BLOCK_HEAD_LEN
        };
        let head = vstd::slice::slice_subrange(data, pos, until);
        proof {
            if until - pos == BLOCK_HEAD_LEN {
                assert(head@.subrange(0, 8) =~= data@.subrange(pos as int, pos + 8));
                assert(head@.subrange(8, 16) =~= data@.subrange(pos + 8, pos + 16));
            }
        }
        match reader.on_head(head) {
            Err(e) => {
                return Err(e);
            },
            Ok(read_step::finished) => {
                return Ok(reader.into_file());
            },
            Ok(read_step::skip(blk_len)) => {
                pos = pos + BLOCK_HEAD_LEN + blk_len as usize;
            },
            Ok(read_step::load(blk_len)) => {
                let body: usize = pos + BLOCK_HEAD_LEN;
                let end: usize = body + blk_len as usize;
                let payload = vstd::slice::slice_to_vec(vstd::slice::slice_subrange(data, body, end));
                reader.on_payload(payload);
                pos = end;
            },
        }
    }
}

/// What could be read of a record head at offset `pos` of `data`: 16
/// bytes, or what is left where less is left.
pub open spec fn head_at(data: Seq<u8>, pos: int) -> Seq<u8> {
    if data.len() - pos < BLOCK_HEAD_LEN {
        data.subrange(pos, data.len() as int)
    } else {
        data.subrange(pos, pos + BLOCK_HEAD_LEN)
    }
}

/// Reading a container piece by piece gives the index of the container:
/// what remains to be read from a record head on is what the head means to
/// the reader, followed by what remains after the record.
pub proof fn lemma_parse_by_steps(data: Seq<u8>, pos: int, index: Map<u64, block_entry>)
    requires
        FILE_HEAD_LEN <= pos <= data.len(),
    ensures
        parse_records(data, pos, index) == match head_outcome(
            index,
            pos,
            data.len() as int,
            head_at(data, pos),
        ) {
            Err(e) => Err::<Map<u64, block_entry>, encryp_error>(e),
            Ok(read_step::finished) => Ok(index),
            Ok(read_step::skip(len)) => parse_records(
                data,
                pos + BLOCK_HEAD_LEN + len,
                if u64_from_le(data.subrange(pos, pos + 8)) == TAG_CIPHERTEXT {
                    index.insert(
                        TAG_CIPHERTEXT,
                        entry_of(
                            TAG_CIPHERTEXT,
                            data.subrange(pos + BLOCK_HEAD_LEN, pos + BLOCK_HEAD_LEN + len),
                            pos + BLOCK_HEAD_LEN,
                        ),
                    )
                } else {
                    index
                },
            ),
            Ok(read_step::load(len)) => parse_records(
                data,
                pos + BLOCK_HEAD_LEN + len,
                index.insert(
                    u64_from_le(data.subrange(pos, pos + 8)),
                    entry_of(
                        u64_from_le(data.subrange(pos, pos + 8)),
                        data.subrange(pos + BLOCK_HEAD_LEN, pos + BLOCK_HEAD_LEN + len),
                        pos + BLOCK_HEAD_LEN,
                    ),
                ),
            ),
        },
{
    let head = head_at(data, pos);
    if data.len() - pos >= BLOCK_HEAD_LEN {
        assert(head.subrange(0, 8) =~= data.subrange(pos, pos + 8));
        assert(head.subrange(8, 16) =~= data.subrange(pos + 8, pos + 16));
    }
}

} // verus!
