//! The DNS wire codec: query encoding and response decoding per the DNS
//! binary format, including compressed-name decoding. Pure and stateless.

use vstd::prelude::*;
use vstd::string::StringSliceAdditionalSpecFns;
use crate::dns_types::{
    DnsError, DnsQuestion, DnsRecord, DnsRecordData, DnsRecordType, DnsResponse, SpecDnsQuestion,
    SpecDnsRecord, SpecDnsRecordData, SpecDnsResponse, questions_view, records_view,
    lemma_type_code_round_trip, spec_type_code, spec_type_of_code,
};
use crate::ip::{IpV4Address, IpV6Address};
use crate::text::{chars_of_bytes, string_from_byte_chars};

verus! {

/// A 16-bit value as its two big-endian bytes.
pub open spec fn spec_u16_be(x: u16) -> Seq<u8> {
    seq![(x / 256) as u8, (x % 256) as u8]
}

/// The end of the label that starts at `i`: the index of the first dot at
/// or after `i`, or the end of the name.
pub open spec fn spec_label_end(name: Seq<u8>, i: int) -> int
    decreases name.len() - i,
{
    if i < 0 || i >= name.len() {
        name.len() as int
    } else if name[i] == 46 {
        i
    } else {
        spec_label_end(name, i + 1)
    }
}

/// The label end lies between its start and the end of the name, on a dot
/// unless it is the end, with no dot before it.
pub proof fn lemma_label_end_bounds(name: Seq<u8>, i: int)
    requires
        0 <= i <= name.len(),
    ensures
        i <= spec_label_end(name, i) <= name.len(),
        spec_label_end(name, i) < name.len() ==> name[spec_label_end(name, i)] == 46,
        forall|k: int| i <= k < spec_label_end(name, i) ==> name[k] != 46,
    decreases name.len() - i,
{
    if i < name.len() && name[i] != 46 {
        lemma_label_end_bounds(name, i + 1);
    }
}

/// A scan that saw no dot in `[i, j)` and a dot (or the end) at `j` has
/// found the label end.
pub proof fn lemma_label_end_is(name: Seq<u8>, i: int, j: int)
    requires
        0 <= i <= j <= name.len(),
        forall|k: int| i <= k < j ==> name[k] != 46,
        j == name.len() || name[j] == 46,
    ensures
        spec_label_end(name, i) == j,
    decreases j - i,
{
    if i < j {
        lemma_label_end_is(name, i + 1, j);
    }
}

/// `i` starts a label: it is the start of the name or follows a dot.
pub open spec fn spec_label_start(name: Seq<u8>, i: int) -> bool {
    i == 0 || (0 < i <= name.len() && name[i - 1] == 46)
}

/// Every label of the name is at most 63 bytes long, so each fits behind
/// its length byte without colliding with the compression-pointer tag.
pub open spec fn labels_fit(name: Seq<u8>) -> bool {
    forall|i: int|
        0 <= i <= name.len() && #[trigger] spec_label_start(name, i) ==> spec_label_end(name, i)
            - i <= 63
}

/// The name encoded from position `i` on as length-prefixed labels,
/// without the terminating zero byte.
pub open spec fn spec_encode_labels(name: Seq<u8>, i: int) -> Seq<u8>
    decreases name.len() - i,
    via spec_encode_labels_dec
{
    if i < 0 || i > name.len() {
        seq![]
    } else {
        let e = spec_label_end(name, i);
        let piece = seq![(e - i) as u8] + name.subrange(i, e);
        if e >= name.len() {
            piece
        } else {
            piece + spec_encode_labels(name, e + 1)
        }
    }
}

#[via_fn]
proof fn spec_encode_labels_dec(name: Seq<u8>, i: int) {
    if 0 <= i <= name.len() {
        lemma_label_end_bounds(name, i);
    }
}

/// A whole name on the wire: its labels followed by the zero terminator.
pub open spec fn spec_encode_name(name: Seq<u8>) -> Seq<u8> {
    spec_encode_labels(name, 0) + seq![0u8]
}

/// A query message: a 12-byte header carrying the transaction id, a flags
/// word with only the recursion-desired bit set, and a question count of
/// one; then the question itself — the encoded name, the record-type code,
/// and class 1 (Internet). All multi-byte integers are big-endian.
pub open spec fn spec_encode_query(name: Seq<u8>, t: DnsRecordType, tid: u16) -> Seq<u8> {
    spec_u16_be(tid) + spec_u16_be(0x0100) + spec_u16_be(1) + spec_u16_be(0) + spec_u16_be(0)
        + spec_u16_be(0) + spec_encode_name(name) + spec_u16_be(spec_type_code(t)) + spec_u16_be(1)
}

/// Append a 16-bit value, big-endian.
fn push_u16_be(out: &mut Vec<u8>, x: u16)
    ensures
        final(out)@ == old(out)@ + spec_u16_be(x),
{
    out.push((x / 256) as u8);
    out.push((x % 256) as u8);
    proof {
        assert(final(out)@ =~= old(out)@ + spec_u16_be(x));
    }
}

/// The end of the label starting at `i`: the index of the first dot at or
/// after `i`, or the end of the slice.
fn label_end(bytes: &[u8], i: usize) -> (e: usize)
    requires
        i <= bytes@.len(),
    ensures
        e == spec_label_end(bytes@, i as int),
{
    let mut j = i;
    while j < bytes.len() && bytes[j] != 46
        invariant
            i <= j <= bytes@.len(),
            forall|k: int| i <= k < j ==> bytes@[k] != 46,
        decreases bytes@.len() - j,
    {
        j = j + 1;
    }
    proof {
        lemma_label_end_is(bytes@, i as int, j as int);
    }
    j
}

/// Whether every label of the domain fits in the 63 bytes a length prefix
/// can carry.
pub fn labels_short(domain: &str) -> (b: bool)
    ensures
        b == labels_fit(domain.spec_bytes()),
{
    let bytes: &[u8] = domain.as_bytes();
    let mut i: usize = 0;
    loop
        invariant
            bytes@ == domain.spec_bytes(),
            i <= bytes@.len(),
            spec_label_start(bytes@, i as int),
            forall|k: int|
                0 <= k < i && #[trigger] spec_label_start(bytes@, k) ==> spec_label_end(bytes@, k)
                    - k <= 63,
        decreases bytes@.len() - i,
    {
        let e = label_end(bytes, i);
        proof {
            lemma_label_end_bounds(bytes@, i as int);
        }
        if e - i > 63 {
            proof {
                assert(spec_label_start(bytes@, i as int) && spec_label_end(bytes@, i as int) - i
                    > 63);
                assert(!labels_fit(bytes@));
            }
            return false;
        }
        if e == bytes.len() {
            proof {
                assert forall|k: int|
                    0 <= k <= bytes@.len() && #[trigger] spec_label_start(
                        bytes@,
                        k,
                    ) implies spec_label_end(bytes@, k) - k <= 63 by {
                    if k >= i {
                        lemma_label_end_is_within(bytes@, i as int, k);
                    }
                }
            }
            return true;
        }
        proof {
            assert forall|k: int|
                0 <= k < e + 1 && #[trigger] spec_label_start(bytes@, k) implies spec_label_end(
                bytes@,
                k,
            ) - k <= 63 by {
                if k >= i {
                    lemma_label_end_is_within(bytes@, i as int, k);
                }
            }
        }
        i = e + 1;
    }
}

/// A label start inside the label that begins at `i` can only be `i`
/// itself, and shares its end.
proof fn lemma_label_end_is_within(name: Seq<u8>, i: int, k: int)
    requires
        0 <= i <= k <= name.len(),
        spec_label_start(name, k),
        k <= spec_label_end(name, i),
    ensures
        spec_label_end(name, k) == spec_label_end(name, i),
        k == i || k == spec_label_end(name, i),
    decreases k - i,
{
    lemma_label_end_bounds(name, i);
    if k > i {
        assert(name[k - 1] == 46);
        assert(k - 1 >= spec_label_end(name, i));
        assert(k == spec_label_end(name, i) + 1 || k > spec_label_end(name, i) + 1);
        assert(k == spec_label_end(name, i));
    }
}

/// Encode a query for `domain` with the given record type and transaction
/// id.
pub fn encode_query(domain: &str, record_type: DnsRecordType, tid: u16) -> (r: Vec<u8>)
    requires
        labels_fit(domain.spec_bytes()),
    ensures
        r@ == spec_encode_query(domain.spec_bytes(), record_type, tid),
{
    let bytes: &[u8] = domain.as_bytes();
    let ghost name = domain.spec_bytes();
    let mut out: Vec<u8> = Vec::new();
    push_u16_be(&mut out, tid);
    push_u16_be(&mut out, 0x0100);
    push_u16_be(&mut out, 1);
    push_u16_be(&mut out, 0);
    push_u16_be(&mut out, 0);
    push_u16_be(&mut out, 0);
    let ghost tail = seq![0u8] + spec_u16_be(spec_type_code(record_type)) + spec_u16_be(1);
    proof {
        assert(out@ + spec_encode_labels(name, 0) + tail =~= spec_encode_query(
            name,
            record_type,
            tid,
        ));
    }
    let mut i: usize = 0;
    loop
        invariant_except_break
            out@ + spec_encode_labels(name, i as int) + tail == spec_encode_query(
                name,
                record_type,
                tid,
            ),
        invariant
            bytes@ == name,
            i <= name.len(),
            spec_label_start(name, i as int),
            labels_fit(name),
        ensures
            out@ + tail == spec_encode_query(name, record_type, tid),
        decreases name.len() - i,
    {
        let e = label_end(bytes, i);
        proof {
            lemma_label_end_bounds(name, i as int);
            assert(spec_label_end(name, i as int) - i <= 63);
        }
        let ghost out_before = out@;
        out.push((e - i) as u8);
        let mut k = i;
        while k < e
            invariant
                bytes@ == name,
                i <= k <= e <= name.len(),
                out@ == out_before + seq![(e - i) as u8] + name.subrange(i as int, k as int),
            decreases e - k,
        {
            out.push(bytes[k]);
            proof {
                assert(out@ =~= out_before + seq![(e - i) as u8] + name.subrange(
                    i as int,
                    k + 1,
                ));
            }
            k = k + 1;
        }
        proof {
            let piece = seq![(e - i) as u8] + name.subrange(i as int, e as int);
            assert(out@ =~= out_before + piece);
            if e as int >= name.len() {
                assert(spec_encode_labels(name, i as int) == piece);
                assert(out@ + tail =~= out_before + spec_encode_labels(name, i as int) + tail);
            } else {
                assert(spec_encode_labels(name, i as int) == piece + spec_encode_labels(
                    name,
                    e + 1,
                ));
                assert(out@ + spec_encode_labels(name, e + 1) + tail =~= out_before
                    + spec_encode_labels(name, i as int) + tail);
            }
        }
        if e == bytes.len() {
            break;
        }
        i = e + 1;
    }
    out.push(0);
    push_u16_be(&mut out, record_type.to_u16());
    push_u16_be(&mut out, 1);
    proof {
        assert(out@ =~= spec_encode_query(name, record_type, tid));
    }
    out
}

/// The 16-bit big-endian value at index `i`.
pub open spec fn spec_be16(data: Seq<u8>, i: int) -> u16 {
    ((data[i] as int) * 256 + (data[i + 1] as int)) as u16
}

/// The 32-bit big-endian value at index `i`.
pub open spec fn spec_be32(data: Seq<u8>, i: int) -> u32 {
    ((data[i] as int) * 0x1000000 + (data[i + 1] as int) * 0x10000 + (data[i + 2] as int) * 0x100
        + (data[i + 3] as int)) as u32
}

/// The name read at `offset`, as its bytes with labels joined by dots, and
/// the offset just past it in the original stream; `None` when a read runs
/// past the buffer or a compression pointer is ill-formed.
///
/// A length byte with its top two bits set is a compression pointer whose
/// low 14 bits give a back-reference offset; the referenced label sequence
/// is spliced in and ends the name. A pointer must point strictly below
/// `limit` — the start of the segment being read — so every followed
/// offset decreases and a cyclic or self-referential pointer is rejected
/// rather than followed forever.
pub open spec fn spec_parse_name(data: Seq<u8>, offset: int, limit: int) -> Option<(Seq<u8>, int)>
    decreases limit, data.len() - offset,
{
    if offset < 0 || offset >= data.len() || limit < 0 {
        None
    } else {
        let len = data[offset] as int;
        if len >= 192 {
            if offset + 1 >= data.len() {
                None
            } else {
                let target = (len - 192) * 256 + data[offset + 1] as int;
                if target < limit {
                    match spec_parse_name(data, target, target) {
                        Some((suffix, _)) => Some((suffix, offset + 2)),
                        None => None,
                    }
                } else {
                    None
                }
            }
        } else if len == 0 {
            Some((seq![], offset + 1))
        } else if offset + 1 + len > data.len() {
            None
        } else {
            let label = data.subrange(offset + 1, offset + 1 + len);
            match spec_parse_name(data, offset + 1 + len, limit) {
                Some((rest, end)) => Some(
                    (
                        if rest.len() == 0 {
                            label
                        } else {
                            label + seq![46u8] + rest
                        },
                        end,
                    ),
                ),
                None => None,
            }
        }
    }
}

/// No label of the name is empty: the name itself is nonempty and has no
/// leading, trailing or doubled dot.
pub open spec fn labels_nonempty(name: Seq<u8>) -> bool {
    name.len() > 0 && forall|i: int|
        0 <= i <= name.len() && #[trigger] spec_label_start(name, i) ==> spec_label_end(name, i)
            > i
}

/// Reading encoded labels back: wherever the labels of `name` from `i`
/// on, followed by the terminator, sit in a message, the decoder reads
/// exactly the name's remaining bytes and stops just past the terminator.
proof fn lemma_labels_round_trip(data: Seq<u8>, name: Seq<u8>, i: int, offset: int, limit: int)
    requires
        0 <= i <= name.len(),
        spec_label_start(name, i),
        labels_fit(name),
        labels_nonempty(name),
        0 <= limit <= offset,
        offset + spec_encode_labels(name, i).len() + 1 <= data.len(),
        data.subrange(offset, offset + spec_encode_labels(name, i).len() + 1)
            == spec_encode_labels(name, i) + seq![0u8],
    ensures
        spec_parse_name(data, offset, limit) == Some(
            (name.subrange(i, name.len() as int), offset + spec_encode_labels(name, i).len() + 1),
        ),
    decreases name.len() - i,
{
    lemma_label_end_bounds(name, i);
    let e = spec_label_end(name, i);
    let l = e - i;
    let piece = seq![l as u8] + name.subrange(i, e);
    let enc = spec_encode_labels(name, i);
    let seg = data.subrange(offset, offset + enc.len() + 1);
    assert(1 <= l <= 63);
    assert(seg == enc + seq![0u8]);
    assert(data[offset] == seg[0]);
    assert(seg[0] == enc[0]);
    assert(enc[0] == piece[0]);
    assert(data[offset] == l as u8);
    assert(data.subrange(offset + 1, offset + 1 + l) =~= name.subrange(i, e)) by {
        assert forall|k: int| 0 <= k < l implies data.subrange(offset + 1, offset + 1 + l)[k]
            == name.subrange(i, e)[k] by {
            assert(data.subrange(offset + 1, offset + 1 + l)[k] == data[offset + 1 + k]);
            assert(data[offset + 1 + k] == seg[1 + k]);
            assert(seg[1 + k] == enc[1 + k]);
            assert(enc[1 + k] == piece[1 + k]);
            assert(piece[1 + k] == name.subrange(i, e)[k]);
        }
    }
    if e >= name.len() {
        assert(enc == piece);
        assert(data[offset + 1 + l] == seg[1 + l]);
        assert(seg[1 + l] == 0u8);
        assert(spec_parse_name(data, offset + 1 + l, limit) == Some(
            (Seq::<u8>::empty(), offset + l + 2),
        ));
        assert(name.subrange(i, name.len() as int) =~= name.subrange(i, e));
    } else {
        assert(name[e] == 46);
        let rest_enc = spec_encode_labels(name, e + 1);
        assert(enc == piece + rest_enc);
        let off2 = offset + 1 + l;
        assert(data.subrange(off2, off2 + rest_enc.len() + 1) =~= rest_enc + seq![0u8]) by {
            assert forall|k: int|
                0 <= k < rest_enc.len() + 1 implies data.subrange(
                off2,
                off2 + rest_enc.len() + 1,
            )[k] == (rest_enc + seq![0u8])[k] by {
                assert(data.subrange(off2, off2 + rest_enc.len() + 1)[k] == data[off2 + k]);
                assert(data[off2 + k] == seg[1 + l + k]);
                if k < rest_enc.len() {
                    assert(seg[1 + l + k] == enc[1 + l + k]);
                    assert(enc[1 + l + k] == rest_enc[k]);
                } else {
                    assert(seg[1 + l + k] == 0u8);
                }
            }
        }
        assert(spec_label_start(name, e + 1));
        lemma_labels_round_trip(data, name, e + 1, off2, limit);
        lemma_label_end_bounds(name, e + 1);
        assert(spec_label_end(name, e + 1) > e + 1);
        assert(name.subrange(e + 1, name.len() as int).len() > 0);
        assert(name.subrange(i, e) + seq![46u8] + name.subrange(e + 1, name.len() as int)
            =~= name.subrange(i, name.len() as int));
    }
}

/// The name codec's round trip: a name whose labels are nonempty and fit
/// their length prefixes decodes from its own encoding back to itself,
/// wherever that encoding sits in a message, and the decoder stops just
/// past its terminator.
pub proof fn lemma_name_round_trip(data: Seq<u8>, name: Seq<u8>, offset: int, limit: int)
    requires
        labels_fit(name),
        labels_nonempty(name),
        0 <= limit <= offset,
        offset + spec_encode_name(name).len() <= data.len(),
        data.subrange(offset, offset + spec_encode_name(name).len()) == spec_encode_name(name),
    ensures
        spec_parse_name(data, offset, limit) == Some(
            (name, offset + spec_encode_name(name).len()),
        ),
{
    lemma_labels_round_trip(data, name, 0, offset, limit);
    assert(name.subrange(0, name.len() as int) =~= name);
}

/// The query codec's round trip: a query encoded for a name with
/// nonempty, fitting labels decodes back to exactly the message sent —
/// the transaction id, only the recursion-desired flag set, one question
/// carrying the name and type under class 1, and empty sections.
pub proof fn lemma_query_round_trip(name: Seq<u8>, t: DnsRecordType, tid: u16)
    requires
        labels_fit(name),
        labels_nonempty(name),
    ensures
        ({
            let m = spec_parse_response(spec_encode_query(name, t, tid));
            &&& m is Some
            &&& m->Some_0.id == tid
            &&& !m->Some_0.qr
            &&& m->Some_0.opcode == 0
            &&& !m->Some_0.aa
            &&& !m->Some_0.tc
            &&& m->Some_0.rd
            &&& !m->Some_0.ra
            &&& m->Some_0.rcode == 0
            &&& m->Some_0.questions =~= seq![
                SpecDnsQuestion { name: chars_of_bytes(name), record_type: t, class: 1 },
            ]
            &&& m->Some_0.answers.len() == 0
            &&& m->Some_0.authority.len() == 0
            &&& m->Some_0.additional.len() == 0
        }),
{
    let q = spec_encode_query(name, t, tid);
    let en = spec_encode_name(name);
    let h = spec_u16_be(tid) + spec_u16_be(0x0100) + spec_u16_be(1) + spec_u16_be(0) + spec_u16_be(
        0,
    ) + spec_u16_be(0);
    let code = spec_type_code(t);
    let tail = spec_u16_be(code) + spec_u16_be(1);
    assert(h.len() == 12 && tail.len() == 4);
    assert(q =~= h + en + tail);
    assert(q.len() == 12 + en.len() + 4);
    // the header decodes to the fields encoded
    assert(q[0] == (tid / 256) as u8 && q[1] == (tid % 256) as u8);
    assert(spec_be16(q, 0) == tid);
    assert(q[2] == 1 && q[3] == 0);
    assert(spec_be16(q, 2) == 0x0100);
    assert(q[4] == 0 && q[5] == 1);
    assert(spec_be16(q, 4) == 1);
    assert(q[6] == 0 && q[7] == 0 && q[8] == 0 && q[9] == 0 && q[10] == 0 && q[11] == 0);
    assert(spec_be16(q, 6) == 0 && spec_be16(q, 8) == 0 && spec_be16(q, 10) == 0);
    assert(0x0100u16 & 0x8000 == 0) by (bit_vector);
    assert((0x0100u16 & 0x7800) >> 11 == 0) by (bit_vector);
    assert(0x0100u16 & 0x0400 == 0) by (bit_vector);
    assert(0x0100u16 & 0x0200 == 0) by (bit_vector);
    assert(0x0100u16 & 0x0100 != 0) by (bit_vector);
    assert(0x0100u16 & 0x0080 == 0) by (bit_vector);
    assert(0x0100u16 & 0x000F == 0) by (bit_vector);
    // the question name decodes to the name encoded
    assert(q.subrange(12, 12 + en.len() as int) =~= en);
    lemma_name_round_trip(q, name, 12, 12);
    let o1 = 12 + en.len() as int;
    assert(q[o1] == (code / 256) as u8 && q[o1 + 1] == (code % 256) as u8);
    assert(spec_be16(q, o1) == code);
    lemma_type_code_round_trip(t);
    assert(q[o1 + 2] == 0 && q[o1 + 3] == 1);
    assert(spec_be16(q, o1 + 2) == 1);
    let question = SpecDnsQuestion { name: chars_of_bytes(name), record_type: t, class: 1 };
    assert(spec_parse_question(q, 12) == Some((question, o1 + 4)));
    assert(spec_parse_questions(q, o1 + 4, 0) == Some(
        (Seq::<SpecDnsQuestion>::empty(), o1 + 4),
    ));
    assert(spec_parse_questions(q, 12, 1) == Some((seq![question] + Seq::empty(), o1 + 4)));
    assert(spec_parse_records(q, o1 + 4, 0) == Some((Seq::<SpecDnsRecord>::empty(), o1 + 4)));
    assert(spec_parse_response(q) is Some);
}

/// The question read at `offset` and the offset just past it.
pub open spec fn spec_parse_question(data: Seq<u8>, offset: int) -> Option<(SpecDnsQuestion, int)> {
    match spec_parse_name(data, offset, offset) {
        None => None,
        Some((name, o1)) => if o1 + 4 > data.len() {
            None
        } else {
            match spec_type_of_code(spec_be16(data, o1)) {
                None => None,
                Some(t) => Some(
                    (
                        SpecDnsQuestion {
                            name: chars_of_bytes(name),
                            record_type: t,
                            class: spec_be16(data, o1 + 2),
                        },
                        o1 + 4,
                    ),
                ),
            }
        },
    }
}

/// `count` questions read one after another from `offset`.
pub open spec fn spec_parse_questions(data: Seq<u8>, offset: int, count: int) -> Option<
    (Seq<SpecDnsQuestion>, int),
>
    decreases count,
{
    if count <= 0 {
        Some((seq![], offset))
    } else {
        match spec_parse_question(data, offset) {
            None => None,
            Some((q, o)) => match spec_parse_questions(data, o, count - 1) {
                None => None,
                Some((qs, end)) => Some((seq![q] + qs, end)),
            },
        }
    }
}

/// The payload of a record whose type, payload offset and payload length
/// are known. `A` must be exactly 4 bytes and `AAAA` exactly 16,
/// reinterpreted as eight big-endian 16-bit groups; `CNAME` and `NS`
/// re-decode a name at the payload offset; `MX` reads a 16-bit preference
/// and a name behind it.
pub open spec fn spec_parse_record_data(
    data: Seq<u8>,
    t: DnsRecordType,
    p: int,
    rdlength: int,
) -> Option<SpecDnsRecordData> {
    match t {
        DnsRecordType::A => if rdlength != 4 {
            None
        } else {
            Some(SpecDnsRecordData::A(data.subrange(p, p + 4)))
        },
        DnsRecordType::AAAA => if rdlength != 16 {
            None
        } else {
            Some(SpecDnsRecordData::AAAA(Seq::new(8, |k: int| spec_be16(data, p + 2 * k))))
        },
        DnsRecordType::CNAME => match spec_parse_name(data, p, p) {
            None => None,
            Some((n, _)) => Some(SpecDnsRecordData::CNAME(chars_of_bytes(n))),
        },
        DnsRecordType::NS => match spec_parse_name(data, p, p) {
            None => None,
            Some((n, _)) => Some(SpecDnsRecordData::NS(chars_of_bytes(n))),
        },
        DnsRecordType::MX => if p + 2 > data.len() {
            None
        } else {
            match spec_parse_name(data, p + 2, p + 2) {
                None => None,
                Some((n, _)) => Some(
                    SpecDnsRecordData::MX {
                        preference: spec_be16(data, p),
                        exchange: chars_of_bytes(n),
                    },
                ),
            }
        },
    }
}

/// The record read at `offset` and the offset just past it: a name, then
/// type code, class, time to live and payload length, then the payload.
/// An unknown type code or a payload that runs past the buffer fails.
pub open spec fn spec_parse_record(data: Seq<u8>, offset: int) -> Option<(SpecDnsRecord, int)> {
    match spec_parse_name(data, offset, offset) {
        None => None,
        Some((name, o1)) => if o1 + 10 > data.len() {
            None
        } else {
            let rdlength = spec_be16(data, o1 + 8) as int;
            let p = o1 + 10;
            if p + rdlength > data.len() {
                None
            } else {
                match spec_type_of_code(spec_be16(data, o1)) {
                    None => None,
                    Some(t) => match spec_parse_record_data(data, t, p, rdlength) {
                        None => None,
                        Some(d) => Some(
                            (
                                SpecDnsRecord {
                                    name: chars_of_bytes(name),
                                    record_type: t,
                                    ttl: spec_be32(data, o1 + 4),
                                    data: d,
                                },
                                p + rdlength,
                            ),
                        ),
                    },
                }
            }
        },
    }
}

/// `count` records read one after another from `offset`.
pub open spec fn spec_parse_records(data: Seq<u8>, offset: int, count: int) -> Option<
    (Seq<SpecDnsRecord>, int),
>
    decreases count,
{
    if count <= 0 {
        Some((seq![], offset))
    } else {
        match spec_parse_record(data, offset) {
            None => None,
            Some((r, o)) => match spec_parse_records(data, o, count - 1) {
                None => None,
                Some((rs, end)) => Some((seq![r] + rs, end)),
            },
        }
    }
}

/// The whole message: the fixed header fields read by bit position from
/// the first 12 bytes, then the question section, then answer, authority
/// and additional sections in that order.
pub open spec fn spec_parse_response(data: Seq<u8>) -> Option<SpecDnsResponse> {
    if data.len() < 12 {
        None
    } else {
        let flags = spec_be16(data, 2);
        match spec_parse_questions(data, 12, spec_be16(data, 4) as int) {
            None => None,
            Some((questions, o1)) => match spec_parse_records(
                data,
                o1,
                spec_be16(data, 6) as int,
            ) {
                None => None,
                Some((answers, o2)) => match spec_parse_records(
                    data,
                    o2,
                    spec_be16(data, 8) as int,
                ) {
                    None => None,
                    Some((authority, o3)) => match spec_parse_records(
                        data,
                        o3,
                        spec_be16(data, 10) as int,
                    ) {
                        None => None,
                        Some((additional, _)) => Some(
                            SpecDnsResponse {
                                id: spec_be16(data, 0),
                                qr: (flags & 0x8000) != 0,
                                opcode: ((flags & 0x7800) >> 11) as u8,
                                aa: (flags & 0x0400) != 0,
                                tc: (flags & 0x0200) != 0,
                                rd: (flags & 0x0100) != 0,
                                ra: (flags & 0x0080) != 0,
                                rcode: (flags & 0x000F) as u8,
                                questions,
                                answers,
                                authority,
                                additional,
                            },
                        ),
                    },
                },
            },
        }
    }
}

/// The 16-bit big-endian value at index `i`.
fn read_u16_be(data: &[u8], i: usize) -> (r: u16)
    requires
        i + 2 <= data@.len(),
    ensures
        r == spec_be16(data@, i as int),
{
    (data[i] as u16) * 256 + (data[i + 1] as u16)
}

/// The 32-bit big-endian value at index `i`.
fn read_u32_be(data: &[u8], i: usize) -> (r: u32)
    requires
        i + 4 <= data@.len(),
    ensures
        r == spec_be32(data@, i as int),
{
    (data[i] as u32) * 0x1000000 + (data[i + 1] as u32) * 0x10000 + (data[i + 2] as u32) * 0x100
        + (data[i + 3] as u32)
}

/// Read a name at `offset` as raw bytes with labels joined by dots,
/// following compression pointers only strictly below `limit`.
fn parse_name_bytes(data: &[u8], offset: usize, limit: usize) -> (r: Result<
    (Vec<u8>, usize),
    DnsError,
>)
    ensures
        match spec_parse_name(data@, offset as int, limit as int) {
            Some((name, end)) => r is Ok && r->Ok_0.0@ == name && r->Ok_0.1 == end,
            None => r == Err::<(Vec<u8>, usize), DnsError>(DnsError::ProtocolError),
        },
        r is Ok ==> offset < r->Ok_0.1 <= data@.len(),
    decreases limit, data@.len() - offset,
{
    if offset >= data.len() {
        return Err(DnsError::ProtocolError);
    }
    let len = data[offset];
    if len >= 192 {
        if offset + 1 >= data.len() {
            return Err(DnsError::ProtocolError);
        }
        let target = (len as usize - 192) * 256 + data[offset + 1] as usize;
        if target < limit {
            match parse_name_bytes(data, target, target) {
                Ok((suffix, _)) => Ok((suffix, offset + 2)),
                Err(e) => Err(e),
            }
        } else {
            Err(DnsError::ProtocolError)
        }
    } else if len == 0 {
        Ok((Vec::new(), offset + 1))
    } else if len as usize > data.len() - offset - 1 {
        Err(DnsError::ProtocolError)
    } else {
        let lend = offset + 1 + len as usize;
        match parse_name_bytes(data, lend, limit) {
            Ok((rest, end)) => {
                let mut name: Vec<u8> = Vec::new();
                let mut k = offset + 1;
                while k < lend
                    invariant
                        offset + 1 <= k <= lend <= data@.len(),
                        name@ == data@.subrange(offset + 1, k as int),
                    decreases lend - k,
                {
                    name.push(data[k]);
                    proof {
                        assert(name@ =~= data@.subrange(offset + 1, k + 1));
                    }
                    k = k + 1;
                }
                if rest.len() > 0 {
                    name.push(46);
                    let mut tail = rest;
                    name.append(&mut tail);
                    proof {
                        let label = data@.subrange(offset as int + 1, lend as int);
                        let spec_rest = spec_parse_name(
                            data@,
                            lend as int,
                            limit as int,
                        )->Some_0.0;
                        assert(name@ =~= label + seq![46u8] + spec_rest);
                    }
                    Ok((name, end))
                } else {
                    Ok((name, end))
                }
            },
            Err(e) => Err(e),
        }
    }
}

/// Read the name at `offset`, returning it as a string — each byte read as
/// the char with that code point — with the offset just past the name in
/// the original stream. Compression pointers must point strictly before
/// the name's own start, each followed offset decreasing, so adversarial
/// pointer cycles fail with `ProtocolError` instead of recursing without
/// bound.
pub fn parse_dns_name(data: &[u8], offset: usize) -> (r: Result<(String, usize), DnsError>)
    ensures
        match spec_parse_name(data@, offset as int, offset as int) {
            Some((name, end)) => r is Ok && r->Ok_0.0@ == chars_of_bytes(name) && r->Ok_0.1
                == end,
            None => r == Err::<(String, usize), DnsError>(DnsError::ProtocolError),
        },
{
    match parse_name_bytes(data, offset, offset) {
        Ok((name, end)) => Ok((string_from_byte_chars(name.as_slice()), end)),
        Err(e) => Err(e),
    }
}

/// Read the question at `offset`.
fn parse_question(data: &[u8], offset: usize) -> (r: Result<(DnsQuestion, usize), DnsError>)
    ensures
        match spec_parse_question(data@, offset as int) {
            Some((q, end)) => r is Ok && r->Ok_0.0@ == q && r->Ok_0.1 == end,
            None => r == Err::<(DnsQuestion, usize), DnsError>(DnsError::ProtocolError),
        },
        r is Ok ==> r->Ok_0.1 <= data@.len(),
{
    let (name, o1) = match parse_name_bytes(data, offset, offset) {
        Ok(v) => v,
        Err(e) => {
            return Err(e);
        },
    };
    if data.len() - o1 < 4 {
        return Err(DnsError::ProtocolError);
    }
    let code = read_u16_be(data, o1);
    let class = read_u16_be(data, o1 + 2);
    let record_type = match DnsRecordType::from_u16(code) {
        Some(t) => t,
        None => {
            return Err(DnsError::ProtocolError);
        },
    };
    let question = DnsQuestion {
        name: string_from_byte_chars(name.as_slice()),
        record_type,
        class,
    };
    Ok((question, o1 + 4))
}

/// Read the payload of a record of known type at `p` with length
/// `rdlength`, both already checked to lie inside the buffer.
fn parse_record_data(data: &[u8], t: DnsRecordType, p: usize, rdlength: usize) -> (r: Result<
    DnsRecordData,
    DnsError,
>)
    requires
        p + rdlength <= data@.len(),
    ensures
        match spec_parse_record_data(data@, t, p as int, rdlength as int) {
            Some(d) => r is Ok && r->Ok_0@ == d,
            None => r == Err::<DnsRecordData, DnsError>(DnsError::ProtocolError),
        },
{
    match t {
        DnsRecordType::A => {
            if rdlength != 4 {
                return Err(DnsError::ProtocolError);
            }
            let octets: [u8; 4] = [data[p], data[p + 1], data[p + 2], data[p + 3]];
            proof {
                assert(octets@ =~= data@.subrange(p as int, p as int + 4));
            }
            Ok(DnsRecordData::A(IpV4Address { octets }))
        },
        DnsRecordType::AAAA => {
            if rdlength != 16 {
                return Err(DnsError::ProtocolError);
            }
            let dlen = data.len();
            proof {
                assert(p + 16 <= dlen);
            }
            let groups: [u16; 8] = [
                read_u16_be(data, p),
                read_u16_be(data, p + 2),
                read_u16_be(data, p + 4),
                read_u16_be(data, p + 6),
                read_u16_be(data, p + 8),
                read_u16_be(data, p + 10),
                read_u16_be(data, p + 12),
                read_u16_be(data, p + 14),
            ];
            proof {
                assert(groups@ =~= Seq::new(8, |k: int| spec_be16(data@, p + 2 * k)));
            }
            Ok(DnsRecordData::AAAA(IpV6Address { groups }))
        },
        DnsRecordType::CNAME => {
            match parse_name_bytes(data, p, p) {
                Ok((n, _)) => Ok(DnsRecordData::CNAME(string_from_byte_chars(n.as_slice()))),
                Err(e) => Err(e),
            }
        },
        DnsRecordType::NS => {
            match parse_name_bytes(data, p, p) {
                Ok((n, _)) => Ok(DnsRecordData::NS(string_from_byte_chars(n.as_slice()))),
                Err(e) => Err(e),
            }
        },
        DnsRecordType::MX => {
            if data.len() - p < 2 {
                return Err(DnsError::ProtocolError);
            }
            let preference = read_u16_be(data, p);
            match parse_name_bytes(data, p + 2, p + 2) {
                Ok((n, _)) => Ok(
                    DnsRecordData::MX {
                        preference,
                        exchange: string_from_byte_chars(n.as_slice()),
                    },
                ),
                Err(e) => Err(e),
            }
        },
    }
}

/// Read the record at `offset`.
fn parse_record(data: &[u8], offset: usize) -> (r: Result<(DnsRecord, usize), DnsError>)
    ensures
        match spec_parse_record(data@, offset as int) {
            Some((rec, end)) => r is Ok && r->Ok_0.0@ == rec && r->Ok_0.1 == end,
            None => r == Err::<(DnsRecord, usize), DnsError>(DnsError::ProtocolError),
        },
        r is Ok ==> r->Ok_0.1 <= data@.len(),
{
    let (name, o1) = match parse_name_bytes(data, offset, offset) {
        Ok(v) => v,
        Err(e) => {
            return Err(e);
        },
    };
    if data.len() - o1 < 10 {
        return Err(DnsError::ProtocolError);
    }
    let code = read_u16_be(data, o1);
    let ttl = read_u32_be(data, o1 + 4);
    let rdlength = read_u16_be(data, o1 + 8) as usize;
    let p = o1 + 10;
    if rdlength > data.len() - p {
        return Err(DnsError::ProtocolError);
    }
    let record_type = match DnsRecordType::from_u16(code) {
        Some(t) => t,
        None => {
            return Err(DnsError::ProtocolError);
        },
    };
    let data_value = match parse_record_data(data, record_type, p, rdlength) {
        Ok(d) => d,
        Err(e) => {
            return Err(e);
        },
    };
    let record = DnsRecord {
        name: string_from_byte_chars(name.as_slice()),
        record_type,
        ttl,
        data: data_value,
    };
    Ok((record, p + rdlength))
}

/// Read `count` records one after another from `offset`.
fn parse_records(data: &[u8], offset: usize, count: u16) -> (r: Result<
    (Vec<DnsRecord>, usize),
    DnsError,
>)
    requires
        offset <= data@.len(),
    ensures
        match spec_parse_records(data@, offset as int, count as int) {
            Some((recs, end)) => r is Ok && records_view(r->Ok_0.0@) == recs && r->Ok_0.1 == end,
            None => r == Err::<(Vec<DnsRecord>, usize), DnsError>(DnsError::ProtocolError),
        },
        r is Ok ==> r->Ok_0.1 <= data@.len(),
{
    let mut out: Vec<DnsRecord> = Vec::new();
    let mut cur = offset;
    let mut i: u16 = 0;
    while i < count
        invariant
            i <= count,
            cur <= data@.len(),
            spec_parse_records(data@, offset as int, count as int) == (
            match spec_parse_records(data@, cur as int, count as int - i as int) {
                Some((rest, end)) => Some((records_view(out@) + rest, end)),
                None => None::<(Seq<SpecDnsRecord>, int)>,
            }),
        decreases count - i,
    {
        match parse_record(data, cur) {
            Ok((rec, nxt)) => {
                proof {
                    let rest_opt = spec_parse_records(data@, nxt as int, count as int - i as int
                        - 1);
                    if rest_opt is Some {
                        assert(records_view(out@.push(rec)) =~= records_view(out@) + seq![rec@]);
                        assert((records_view(out@) + seq![rec@]) + rest_opt->Some_0.0
                            =~= records_view(out@) + (seq![rec@] + rest_opt->Some_0.0));
                    }
                }
                out.push(rec);
                cur = nxt;
                i = i + 1;
            },
            Err(e) => {
                return Err(e);
            },
        }
    }
    proof {
        assert(records_view(out@) + seq![] =~= records_view(out@));
    }
    Ok((out, cur))
}

/// Read `count` questions one after another from `offset`.
fn parse_questions(data: &[u8], offset: usize, count: u16) -> (r: Result<
    (Vec<DnsQuestion>, usize),
    DnsError,
>)
    requires
        offset <= data@.len(),
    ensures
        match spec_parse_questions(data@, offset as int, count as int) {
            Some((qs, end)) => r is Ok && questions_view(r->Ok_0.0@) == qs && r->Ok_0.1 == end,
            None => r == Err::<(Vec<DnsQuestion>, usize), DnsError>(DnsError::ProtocolError),
        },
        r is Ok ==> r->Ok_0.1 <= data@.len(),
{
    let mut out: Vec<DnsQuestion> = Vec::new();
    let mut cur = offset;
    let mut i: u16 = 0;
    while i < count
        invariant
            i <= count,
            cur <= data@.len(),
            spec_parse_questions(data@, offset as int, count as int) == (
            match spec_parse_questions(data@, cur as int, count as int - i as int) {
                Some((rest, end)) => Some((questions_view(out@) + rest, end)),
                None => None::<(Seq<SpecDnsQuestion>, int)>,
            }),
        decreases count - i,
    {
        match parse_question(data, cur) {
            Ok((q, nxt)) => {
                proof {
                    let rest_opt = spec_parse_questions(
                        data@,
                        nxt as int,
                        count as int - i as int - 1,
                    );
                    if rest_opt is Some {
                        assert(questions_view(out@.push(q)) =~= questions_view(out@) + seq![q@]);
                        assert((questions_view(out@) + seq![q@]) + rest_opt->Some_0.0
                            =~= questions_view(out@) + (seq![q@] + rest_opt->Some_0.0));
                    }
                }
                out.push(q);
                cur = nxt;
                i = i + 1;
            },
            Err(e) => {
                return Err(e);
            },
        }
    }
    proof {
        assert(questions_view(out@) + seq![] =~= questions_view(out@));
    }
    Ok((out, cur))
}

/// Decode a whole response message. A buffer shorter than 12 bytes, any
/// read past the buffer end, an ill-formed compression pointer, a wrong
/// `A` or `AAAA` payload length or an unknown record-type code fails with
/// `ProtocolError`; every well-formed message decodes to exactly the value
/// `spec_parse_response` gives it.
pub fn parse_response(data: &[u8]) -> (r: Result<DnsResponse, DnsError>)
    ensures
        match spec_parse_response(data@) {
            Some(m) => r is Ok && r->Ok_0@ == m,
            None => r == Err::<DnsResponse, DnsError>(DnsError::ProtocolError),
        },
{
    if data.len() < 12 {
        return Err(DnsError::ProtocolError);
    }
    let id = read_u16_be(data, 0);
    let flags = read_u16_be(data, 2);
    let qdcount = read_u16_be(data, 4);
    let ancount = read_u16_be(data, 6);
    let nscount = read_u16_be(data, 8);
    let arcount = read_u16_be(data, 10);
    let (questions, o1) = match parse_questions(data, 12, qdcount) {
        Ok(v) => v,
        Err(e) => {
            return Err(e);
        },
    };
    let (answers, o2) = match parse_records(data, o1, ancount) {
        Ok(v) => v,
        Err(e) => {
            return Err(e);
        },
    };
    let (authority, o3) = match parse_records(data, o2, nscount) {
        Ok(v) => v,
        Err(e) => {
            return Err(e);
        },
    };
    let (additional, _) = match parse_records(data, o3, arcount) {
        Ok(v) => v,
        Err(e) => {
            return Err(e);
        },
    };
    Ok(
        DnsResponse {
            id,
            qr: (flags & 0x8000) != 0,
            opcode: ((flags & 0x7800) >> 11) as u8,
            aa: (flags & 0x0400) != 0,
            tc: (flags & 0x0200) != 0,
            rd: (flags & 0x0100) != 0,
            ra: (flags & 0x0080) != 0,
            rcode: (flags & 0x000F) as u8,
            questions,
            answers,
            authority,
            additional,
        },
    )
}

} // verus!
