//! Writing the records of a serving object.
use vstd::prelude::*;

use crate::bytes::{
    blank, field, le_bytes, lemma_le_blank, lemma_limits, lemma_written, put_bytes, put_u32,
    put_u64, u32_at,
};
use crate::codec::{blake3_hash, blake3_of};
use crate::skv_directory::{rec_flags, rec_id, rec_summary, summary_of, SummaryBits};
use crate::skv_header::{Header, RECORD};

verus! {

/// The bytes that the digest of a payload covers: what the payload is, and the payload.
pub open spec fn payload_seal(
    header: &Header,
    id: int,
    record: Seq<u8>,
    encoded: Seq<u8>,
) -> Seq<u8> {
    if header.grouped_spec() {
        let (leader, count) = header.canonical(id);
        group_label() + le_bytes(leader as nat, 8) + le_bytes(count as nat, 4) + record.subrange(
            12,
            24,
        ) + encoded
    } else {
        le_bytes(id as nat, 8) + encoded
    }
}

/// `SKV-row-group-v1` and a zero byte.
pub open spec fn group_label() -> Seq<u8> {
    seq![83u8, 75, 86, 45, 114, 111, 119, 45, 103, 114, 111, 117, 112, 45, 118, 49, 0]
}

fn append(out: &mut Vec<u8>, part: &[u8], from: usize, to: usize)
    requires
        from <= to <= part@.len(),
    ensures
        final(out)@ == old(out)@ + part@.subrange(from as int, to as int),
{
    let ghost before = out@;
    let mut i: usize = from;
    assert(before + part@.subrange(from as int, from as int) =~= before);
    while i < to
        invariant
            from <= i <= to <= part@.len(),
            out@ == before + part@.subrange(from as int, i as int),
        decreases to - i,
    {
        out.push(part[i]);
        assert(part@.subrange(from as int, i + 1) =~= part@.subrange(from as int, i as int).push(
            part@[i as int],
        ));
        assert(out@ =~= before + part@.subrange(from as int, i + 1));
        i += 1;
    }
}

fn append_le(out: &mut Vec<u8>, value: u64, n: usize)
    requires
        n <= 8,
    ensures
        final(out)@ == old(out)@ + le_bytes(value as nat, n as nat),
{
    let ghost before = out@;
    let mut rest: u64 = value;
    let mut i: usize = 0;
    while i < n
        invariant
            i <= n <= 8,
            out@ + le_bytes(rest as nat, (n - i) as nat) == before + le_bytes(value as nat, n as nat),
        decreases n - i,
    {
        let ghost tail = le_bytes(rest as nat, (n - i) as nat);
        let ghost now = out@;
        out.push((rest % 256) as u8);
        proof {
            let next = le_bytes((rest / 256) as nat, (n - i - 1) as nat);
            assert(tail == seq![(rest % 256) as u8] + next);
            assert(out@ + next =~= now + tail);
        }
        rest = rest / 256;
        i += 1;
    }
    assert(out@ + le_bytes(rest as nat, 0) =~= out@);
}

fn label() -> (r: Vec<u8>)
    ensures
        r@ == group_label(),
{
    let r: Vec<u8> = vec![83, 75, 86, 45, 114, 111, 119, 45, 103, 114, 111, 117, 112, 45, 118, 49, 0];
    assert(r@ =~= group_label());
    r
}

/// The digest of an encoded payload, which covers the identity of its band or its group.
pub fn payload_hash(header: &Header, id: usize, record: &[u8], encoded: &[u8]) -> (r: Vec<u8>)
    requires
        header.shaped(),
        record@.len() == RECORD,
    ensures
        r@ == blake3_of(payload_seal(header, id as int, record@, encoded@)),
        r@.len() == 32,
{
    let mut sealed: Vec<u8> = Vec::new();
    if header.grouped() {
        let name = label();
        append(&mut sealed, name.as_slice(), 0, 17);
        assert(name@.subrange(0, 17) =~= group_label());
        if let Ok((leader, count)) = header.canonical_group(id) {
            append_le(&mut sealed, leader as u64, 8);
            append_le(&mut sealed, count as u64, 4);
        }
        append(&mut sealed, record, 12, 24);
        assert(Seq::<u8>::empty() + group_label() =~= group_label());
    } else {
        append_le(&mut sealed, id as u64, 8);
        assert(Seq::<u8>::empty() + le_bytes(id as nat, 8) =~= le_bytes(id as nat, 8));
    }
    append(&mut sealed, encoded, 0, encoded.len());
    assert(encoded@.subrange(0, encoded@.len() as int) =~= encoded@);
    blake3_hash(sealed.as_slice())
}

/// The record of a node and band that stores nothing yet.
pub open spec fn blank_of(record: Seq<u8>, id: int, leaf: bool) -> bool {
    &&& record.len() == RECORD
    &&& rec_id(record) == id
    &&& rec_flags(record) == (if leaf {
        1int
    } else {
        0
    })
    &&& blank(record.subrange(0, 28))
    &&& blank(record.subrange(32, 104))
    &&& blank(record.subrange(112, 128))
}

pub fn blank_record(id: usize, leaf: bool) -> (record: Vec<u8>)
    ensures
        blank_of(record@, id as int, leaf),
{
    let mut record: Vec<u8> = vec![0u8; RECORD];
    let flags: u32 = if leaf {
        1
    } else {
        0
    };
    put_u32(&mut record, 28, flags);
    let ghost b1 = record@;
    put_u64(&mut record, 104, id as u64);
    proof {
        lemma_limits();
        assert(record@.subrange(28, 32) =~= b1.subrange(28, 32));
        lemma_written(record@, 28, 4, flags as nat);
        lemma_written(record@, 104, 8, id as nat);
    }
    record
}

/// Store a summary in a record. The extremes of a summary of nothing are stored as zeros.
pub fn write_state(record: &mut Vec<u8>, state: &SummaryBits)
    requires
        old(record)@.len() == RECORD,
        rec_flags(old(record)@) < 4,
    ensures
        final(record)@.len() == RECORD,
        summary_of(final(record)@) == Some(
            SummaryBits {
                sum_high: state.sum_high,
                sum_low: state.sum_low,
                count: state.count,
                min: if state.count == 0 {
                    0
                } else {
                    state.min
                },
                max: if state.count == 0 {
                    0
                } else {
                    state.max
                },
            },
        ),
        rec_flags(final(record)@) == rec_flags(old(record)@) + if rec_summary(old(record)@) {
            0int
        } else {
            2
        },
        forall|k: int|
            0 <= k < RECORD && !(28 <= k < 32) && !(64 <= k < 104) ==> final(record)@[k] == old(record)@[k],
{
    let min: u64 = if state.count == 0 {
        0
    } else {
        state.min
    };
    let max: u64 = if state.count == 0 {
        0
    } else {
        state.max
    };
    let flags: u32 = u32_at(record.as_slice(), 28);
    let with_summary: u32 = if flags / 2 % 2 == 0 {
        flags + 2
    } else {
        flags
    };
    put_u32(record, 28, with_summary);
    let ghost b1 = record@;
    put_u64(record, 64, state.sum_high);
    let ghost b2 = record@;
    put_u64(record, 72, state.sum_low);
    let ghost b3 = record@;
    put_u64(record, 80, state.count);
    let ghost b4 = record@;
    put_u64(record, 88, min);
    let ghost b5 = record@;
    put_u64(record, 96, max);
    proof {
        lemma_limits();
        let b = record@;
        assert(b.subrange(28, 32) =~= b1.subrange(28, 32));
        assert(b.subrange(64, 72) =~= b2.subrange(64, 72));
        assert(b.subrange(72, 80) =~= b3.subrange(72, 80));
        assert(b.subrange(80, 88) =~= b4.subrange(80, 88));
        assert(b.subrange(88, 96) =~= b5.subrange(88, 96));
        lemma_written(b, 28, 4, with_summary as nat);
        lemma_written(b, 64, 8, state.sum_high as nat);
        lemma_written(b, 72, 8, state.sum_low as nat);
        lemma_written(b, 80, 8, state.count as nat);
        lemma_written(b, 88, 8, min as nat);
        lemma_written(b, 96, 8, max as nat);
    }
}

/// A leaf record stores where its payload stands, what it is and its digest.
pub open spec fn stores_payload(
    record: Seq<u8>,
    position: int,
    encoded: int,
    plain: int,
    samples: int,
    codec: int,
    leader: int,
    members: int,
    digest: Seq<u8>,
) -> bool {
    &&& record.len() == RECORD
    &&& field(record, 0, 8) == position
    &&& field(record, 8, 4) == encoded
    &&& field(record, 12, 4) == plain
    &&& field(record, 16, 8) == samples
    &&& field(record, 24, 4) == codec
    &&& record.subrange(32, 64) == digest
    &&& field(record, 112, 8) == leader
    &&& field(record, 120, 4) == members
}

/// Store a payload's place, shape and digest in a leaf record. Members of no group store
/// zeros in the group fields.
pub fn write_payload(
    record: &mut Vec<u8>,
    header: &Header,
    id: usize,
    position: u64,
    encoded: &[u8],
    plain: u32,
    samples: u64,
    codec: u32,
)
    requires
        header.shaped(),
        old(record)@.len() == RECORD,
        encoded@.len() <= u32::MAX,
        blank(old(record)@.subrange(112, 128)),
    ensures
        forall|k: int|
            0 <= k < RECORD && (28 <= k < 32 || 64 <= k < 112 || 124 <= k < 128
                || !header.grouped_spec() && 112 <= k < 128) ==> final(record)@[k] == old(record)@[k],
        stores_payload(
            final(record)@,
            position as int,
            encoded@.len() as int,
            plain as int,
            samples as int,
            codec as int,
            if header.grouped_spec() {
                header.canonical(id as int).0
            } else {
                0
            },
            if header.grouped_spec() {
                header.canonical(id as int).1
            } else {
                0
            },
            blake3_of(payload_seal(header, id as int, final(record)@, encoded@)),
        ),
{
    let ghost b0 = record@;
    put_u64(record, 0, position);
    let ghost b1 = record@;
    put_u32(record, 8, encoded.len() as u32);
    let ghost b2 = record@;
    put_u32(record, 12, plain);
    let ghost b3 = record@;
    put_u64(record, 16, samples);
    let ghost b4 = record@;
    put_u32(record, 24, codec);
    let ghost b5 = record@;
    let mut leader: u64 = 0;
    let mut members: u32 = 0;
    if header.grouped() {
        if let Ok((first, count)) = header.canonical_group(id) {
            leader = first as u64;
            members = count as u32;
        }
        put_u64(record, 112, leader);
    }
    let ghost b6 = record@;
    if header.grouped() {
        put_u32(record, 120, members);
    }
    let ghost b7 = record@;
    let digest = payload_hash(header, id, record.as_slice(), encoded);
    put_bytes(record, 32, digest.as_slice());
    proof {
        lemma_limits();
        let b = record@;
        assert(b.subrange(0, 8) =~= b1.subrange(0, 8));
        assert(b.subrange(8, 12) =~= b2.subrange(8, 12));
        assert(b.subrange(12, 16) =~= b3.subrange(12, 16));
        assert(b.subrange(16, 24) =~= b4.subrange(16, 24));
        assert(b.subrange(24, 28) =~= b5.subrange(24, 28));
        lemma_written(b, 0, 8, position as nat);
        lemma_written(b, 8, 4, encoded@.len());
        lemma_written(b, 12, 4, plain as nat);
        lemma_written(b, 16, 8, samples as nat);
        lemma_written(b, 24, 4, codec as nat);
        assert(b.subrange(12, 24) =~= b7.subrange(12, 24));
        if header.grouped_spec() {
            assert(b.subrange(112, 120) =~= b6.subrange(112, 120));
            assert(b.subrange(120, 124) =~= b7.subrange(120, 124));
            lemma_written(b, 112, 8, leader as nat);
            lemma_written(b, 120, 4, members as nat);
        } else {
            lemma_blank_field(b0.subrange(112, 128), b);
        }
    }
}

proof fn lemma_blank_field(zeros: Seq<u8>, b: Seq<u8>)
    requires
        b.len() == 128,
        zeros.len() == 16,
        blank(zeros),
        forall|k: int| 0 <= k < 16 ==> b[112 + k] == zeros[k],
    ensures
        field(b, 112, 8) == 0,
        field(b, 120, 4) == 0,
{
    assert forall|k: int| 112 <= k < 128 implies b[k] == 0 by {
        assert(b[112 + (k - 112)] == zeros[k - 112]);
    }
    lemma_le_blank(b.subrange(112, 120));
    lemma_le_blank(b.subrange(120, 124));
}

} // verus!
