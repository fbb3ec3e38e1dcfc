use crate::bytes::{lemma_u64_le_round_trip, u64_from_le, u64_to_le};
use crate::container::{
    block_bytes, block_entry, block_head_bytes, entry_of, is_known_tag, parse_records,
    BLOCK_HEAD_LEN, FILE_HEAD_LEN,
};
use crate::error::encryp_error;
use vstd::prelude::*;

verus! {

/// A record as a mathematical value: its wire identifier and its payload.
pub struct record {
    pub tag: u64,
    pub payload: Seq<u8>,
}

/// The records on the wire, one after the other.
pub open spec fn records_bytes(records: Seq<record>) -> Seq<u8>
    decreases records.len(),
{
    if records.len() == 0 {
        Seq::empty()
    } else {
        block_bytes(records[0].tag, records[0].payload) + records_bytes(records.drop_first())
    }
}

/// The payload of the first record that carries `tag`, if there is one.
pub open spec fn payload_of(records: Seq<record>, tag: u64) -> Option<Seq<u8>>
    decreases records.len(),
{
    if records.len() == 0 {
        None
    } else if records[0].tag == tag {
        Some(records[0].payload)
    } else {
        payload_of(records.drop_first(), tag)
    }
}

/// Whether no record of a known kind carries an identifier that is in
/// `seen` or that an earlier record of the sequence carries.
pub open spec fn no_repeats(records: Seq<record>, seen: Set<u64>) -> bool
    decreases records.len(),
{
    if records.len() == 0 {
        true
    } else if !is_known_tag(records[0].tag) {
        no_repeats(records.drop_first(), seen)
    } else {
        !seen.contains(records[0].tag) && no_repeats(
            records.drop_first(),
            seen.insert(records[0].tag),
        )
    }
}

/// Whether the index `grown` is `index` with one entry more for every
/// known kind that occurs in `records`, each entry pointing at the payload
/// of its record inside `data`.
pub open spec fn index_extends(
    grown: Map<u64, block_entry>,
    index: Map<u64, block_entry>,
    records: Seq<record>,
    data: Seq<u8>,
) -> bool {
    &&& forall|t: u64| #[trigger]
        index.contains_key(t) ==> grown.contains_key(t) && grown[t] == index[t]
    &&& forall|t: u64|
        !index.contains_key(t) ==> (#[trigger] grown.contains_key(t) <==> is_known_tag(t)
            && payload_of(records, t) is Some)
    &&& forall|t: u64|
        !index.contains_key(t) && #[trigger] grown.contains_key(t) ==> {
            let p = payload_of(records, t)->0;
            &&& grown[t].payload == entry_of(t, p, 0).payload
            &&& FILE_HEAD_LEN + BLOCK_HEAD_LEN <= grown[t].offset
            &&& grown[t].offset + p.len() <= data.len()
            &&& data.subrange(grown[t].offset as int, grown[t].offset + p.len()) == p
        }
}

/// The head and the payload of a record are read back from its wire form.
proof fn lemma_first_record(pre: Seq<u8>, r: record, rest: Seq<u8>, data: Seq<u8>)
    requires
        data == pre + block_bytes(r.tag, r.payload) + rest,
        data.len() <= u64::MAX,
    ensures
        data.len() - pre.len() >= BLOCK_HEAD_LEN,
        u64_from_le(data.subrange(pre.len() as int, pre.len() as int + 8)) == r.tag,
        u64_from_le(data.subrange(pre.len() as int + 8, pre.len() as int + 16))
            == r.payload.len(),
        r.payload.len() <= data.len() - (pre.len() + BLOCK_HEAD_LEN),
        data.subrange(pre.len() as int + 16, pre.len() as int + 16 + r.payload.len())
            == r.payload,
{
    let pos = pre.len() as int;
    let len = r.payload.len() as u64;
    lemma_u64_le_round_trip(r.tag);
    lemma_u64_le_round_trip(len);
    assert(block_head_bytes(r.tag, len).len() == 16);
    assert(data.subrange(pos, pos + 8) =~= u64_to_le(r.tag));
    assert(data.subrange(pos + 8, pos + 16) =~= u64_to_le(len));
    assert(data.subrange(pos + 16, pos + 16 + r.payload.len()) =~= r.payload);
}

/// Reading the wire form of a sequence of records, from the place where it
/// starts in `data`, succeeds exactly if no known kind repeats, fails with
/// a format error otherwise, and on success adds to the index one entry
/// for every known kind that occurs.
pub proof fn lemma_parse_records_bytes(
    pre: Seq<u8>,
    records: Seq<record>,
    index: Map<u64, block_entry>,
    data: Seq<u8>,
)
    requires
        data == pre + records_bytes(records),
        data.len() <= u64::MAX,
        FILE_HEAD_LEN <= pre.len(),
    ensures
        parse_records(data, pre.len() as int, index) is Ok <==> no_repeats(records, index.dom()),
        parse_records(data, pre.len() as int, index) is Err ==> parse_records(
            data,
            pre.len() as int,
            index,
        ) == Err::<Map<u64, block_entry>, encryp_error>(encryp_error::MalformedContainer),
        parse_records(data, pre.len() as int, index) is Ok ==> index_extends(
            parse_records(data, pre.len() as int, index)->Ok_0,
            index,
            records,
            data,
        ),
    decreases records.len(),
{
    let pos = pre.len() as int;
    if records.len() == 0 {
        assert(data =~= pre);
    } else {
        let r = records[0];
        let rest = records.drop_first();
        let body = pos + BLOCK_HEAD_LEN;
        let next = pre + block_bytes(r.tag, r.payload);
        assert(data =~= pre + block_bytes(r.tag, r.payload) + records_bytes(rest));
        assert(data =~= next + records_bytes(rest));
        lemma_first_record(pre, r, records_bytes(rest), data);
        assert(next.len() == body + r.payload.len());
        if !is_known_tag(r.tag) {
            lemma_parse_records_bytes(next, rest, index, data);
            assert(parse_records(data, pos, index) == parse_records(data, next.len() as int, index));
            if parse_records(data, pos, index) is Ok {
                let grown = parse_records(data, pos, index)->Ok_0;
                assert forall|t: u64| is_known_tag(t) implies payload_of(records, t) == payload_of(
                    rest,
                    t,
                ) by {}
                assert(index_extends(grown, index, records, data));
            }
        } else if index.contains_key(r.tag) {
        } else {
            let entry = entry_of(r.tag, data.subrange(body, body + r.payload.len()), body);
            let wider = index.insert(r.tag, entry);
            assert(wider.dom() =~= index.dom().insert(r.tag));
            lemma_parse_records_bytes(next, rest, wider, data);
            assert(parse_records(data, pos, index) == parse_records(data, next.len() as int, wider));
            if parse_records(data, pos, index) is Ok {
                let grown = parse_records(data, pos, index)->Ok_0;
                assert(index_extends(grown, wider, rest, data));
                assert forall|t: u64| t != r.tag implies payload_of(records, t) == payload_of(
                    rest,
                    t,
                ) by {}
                assert(payload_of(records, r.tag) == Some(r.payload));
                assert(wider.contains_key(r.tag));
                assert(grown[r.tag] == entry);
                assert forall|t: u64| #[trigger] index.contains_key(t) implies grown.contains_key(t)
                    && grown[t] == index[t] by {
                    assert(wider.contains_key(t));
                }
                assert forall|t: u64| !index.contains_key(t) implies (#[trigger] grown.contains_key(
                    t,
                ) <==> is_known_tag(t) && payload_of(records, t) is Some) by {
                    if t != r.tag {
                        assert(!wider.contains_key(t));
                    }
                }
                assert forall|t: u64| !index.contains_key(t) && #[trigger] grown.contains_key(
                    t,
                ) implies ({
                    let p = payload_of(records, t)->0;
                    &&& grown[t].payload == entry_of(t, p, 0).payload
                    &&& FILE_HEAD_LEN + BLOCK_HEAD_LEN <= grown[t].offset
                    &&& grown[t].offset + p.len() <= data.len()
                    &&& data.subrange(grown[t].offset as int, grown[t].offset + p.len()) == p
                }) by {
                    if t != r.tag {
                        assert(!wider.contains_key(t));
                    }
                }
                assert(index_extends(grown, index, records, data));
            }
        }
    }
}

} // verus!
