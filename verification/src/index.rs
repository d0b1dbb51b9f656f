//! The ping index: one record per (ping, subsystem, channel) with the byte
//! offset of its message, so any ping can be reached without rescanning.
//!
//! A record holds its measurements as the bit patterns of the numbers they
//! are, which is how they stand in the file.

use vstd::prelude::*;

use crate::bytes;
use crate::bytes::{get_u32, get_u64, push_le2, push_le4, push_le8, u16le};
use crate::frame;
use crate::frame::{unframe, FrameError};

pub mod law;
pub mod record;
pub mod table;

verus! {

pub const MAGIC: [u8; 8] = [83, 87, 84, 73, 68, 88, 48, 49];

/// How a file said what it was before the application was renamed. Only ever
/// read.
pub const MAGIC_LEGACY: [u8; 8] = [87, 80, 65, 73, 68, 88, 48, 49];

/// Bytes of one record in a file.
pub const REC_SIZE: usize = 88;

/// One indexed ping.
#[derive(Clone, Copy, Debug, PartialEq, Eq, Structural)]
pub struct PingRecord {
    /// Bits of double-precision numbers: seconds, degrees and degrees.
    pub time: u64,
    pub lat: u64,
    pub lon: u64,
    pub offset: u64,
    pub ping: u32,
    pub interval_ns: u32,
    /// Bits of single-precision numbers: degrees, metres, metres, degrees,
    /// degrees, hertz and hertz.
    pub heading: u32,
    pub depth: u32,
    pub altitude: u32,
    pub pitch: u32,
    pub roll: u32,
    pub f0: u32,
    pub f1: u32,
    pub nsamples: u16,
    pub validity: u16,
    pub file_id: u16,
    pub subsystem: u8,
    pub channel: u8,
    pub weight: i8,
    pub fmt: i8,
}

// ---- records in a file ---------------------------------------------------------

/// A signed byte as it stands in a file.
pub open spec fn byte_of(v: int) -> int {
    if v < 0 {
        v + 256
    } else {
        v
    }
}

fn unsigned8(v: i8) -> (r: u8)
    ensures
        r == byte_of(v as int),
{
    if v < 0 {
        (v as i16 + 256) as u8
    } else {
        v as u8
    }
}

fn signed8(v: u8) -> (r: i8)
    ensures
        r == bytes::as_signed(v as int, 256),
{
    if v < 128 {
        v as i8
    } else {
        (v as i16 - 256) as i8
    }
}

/// The first half of a record: where and when.
#[verifier::opaque]
pub open spec fn record_head(r: PingRecord) -> Seq<u8> {
    bytes::le8(r.time as int) + bytes::le8(r.lat as int) + bytes::le8(r.lon as int) + bytes::le8(
        r.offset as int,
    ) + bytes::le4(r.ping as int) + bytes::le4(r.interval_ns as int)
}

/// The measurements of a record.
#[verifier::opaque]
pub open spec fn record_body(r: PingRecord) -> Seq<u8> {
    bytes::le4(r.heading as int) + bytes::le4(r.depth as int) + bytes::le4(r.altitude as int)
        + bytes::le4(r.pitch as int) + bytes::le4(r.roll as int) + bytes::le4(r.f0 as int)
        + bytes::le4(r.f1 as int)
}

/// The end of a record, padded to a whole number of words.
#[verifier::opaque]
pub open spec fn record_tail(r: PingRecord) -> Seq<u8> {
    bytes::le2(r.nsamples as int) + bytes::le2(r.validity as int) + bytes::le2(r.file_id as int)
        + seq![
        r.subsystem,
        r.channel,
        byte_of(r.weight as int) as u8,
        byte_of(r.fmt as int) as u8,
    ] + seq![0u8, 0, 0, 0, 0, 0, 0, 0, 0, 0]
}

/// A record as it stands in a file.
#[verifier::opaque]
pub open spec fn record_bytes(r: PingRecord) -> Seq<u8> {
    record_head(r) + record_body(r) + record_tail(r)
}

/// The record at `o` in a file.
#[verifier::opaque]
pub open spec fn record_at(b: Seq<u8>, o: int) -> PingRecord {
    PingRecord {
        time: bytes::u64_at(b, o, true) as u64,
        lat: bytes::u64_at(b, o + 8, true) as u64,
        lon: bytes::u64_at(b, o + 16, true) as u64,
        offset: bytes::u64_at(b, o + 24, true) as u64,
        ping: bytes::u32_at(b, o + 32, true) as u32,
        interval_ns: bytes::u32_at(b, o + 36, true) as u32,
        heading: bytes::u32_at(b, o + 40, true) as u32,
        depth: bytes::u32_at(b, o + 44, true) as u32,
        altitude: bytes::u32_at(b, o + 48, true) as u32,
        pitch: bytes::u32_at(b, o + 52, true) as u32,
        roll: bytes::u32_at(b, o + 56, true) as u32,
        f0: bytes::u32_at(b, o + 60, true) as u32,
        f1: bytes::u32_at(b, o + 64, true) as u32,
        nsamples: bytes::u16_at(b, o + 68, true) as u16,
        validity: bytes::u16_at(b, o + 70, true) as u16,
        file_id: bytes::u16_at(b, o + 72, true) as u16,
        subsystem: b[o + 74],
        channel: b[o + 75],
        weight: bytes::as_signed(b[o + 76] as int, 256) as i8,
        fmt: bytes::as_signed(b[o + 77] as int, 256) as i8,
    }
}

/// Records as they stand in a file, one after the other.
pub open spec fn all_bytes(rs: Seq<PingRecord>) -> Seq<u8>
    decreases rs.len(),
{
    if rs.len() == 0 {
        Seq::empty()
    } else {
        all_bytes(rs.drop_last()) + record_bytes(rs.last())
    }
}

/// The records in a file.
pub open spec fn all_records(b: Seq<u8>) -> Seq<PingRecord> {
    Seq::new((b.len() / 88) as nat, |i: int| record_at(b, 88 * i))
}

fn push_head(out: &mut Vec<u8>, r: &PingRecord)
    ensures
        final(out)@ == old(out)@ + record_head(*r),
{
    push_le8(out, r.time);
    push_le8(out, r.lat);
    push_le8(out, r.lon);
    push_le8(out, r.offset);
    push_le4(out, r.ping);
    push_le4(out, r.interval_ns);
    proof {
        reveal(record_head);
        assert(out@ =~= old(out)@ + record_head(*r));
    }
}

fn push_body(out: &mut Vec<u8>, r: &PingRecord)
    ensures
        final(out)@ == old(out)@ + record_body(*r),
{
    push_le4(out, r.heading);
    push_le4(out, r.depth);
    push_le4(out, r.altitude);
    push_le4(out, r.pitch);
    push_le4(out, r.roll);
    push_le4(out, r.f0);
    push_le4(out, r.f1);
    proof {
        reveal(record_body);
        assert(out@ =~= old(out)@ + record_body(*r));
    }
}

fn push_tail(out: &mut Vec<u8>, r: &PingRecord)
    ensures
        final(out)@ == old(out)@ + record_tail(*r),
{
    push_le2(out, r.nsamples);
    push_le2(out, r.validity);
    push_le2(out, r.file_id);
    let ghost start = out@;
    out.push(r.subsystem);
    out.push(r.channel);
    out.push(unsigned8(r.weight));
    out.push(unsigned8(r.fmt));
    let ghost mid = out@;
    let mut i: usize = 0;
    while i < 10
        invariant
            i <= 10,
            out@ == mid + Seq::new(i as nat, |k: int| 0u8),
        decreases 10 - i,
    {
        out.push(0);
        i += 1;
        proof {
            assert(out@ =~= mid + Seq::new(i as nat, |k: int| 0u8));
        }
    }
    proof {
        reveal(record_tail);
        assert(Seq::new(10, |k: int| 0u8) =~= seq![0u8, 0, 0, 0, 0, 0, 0, 0, 0, 0]);
        assert(mid =~= start + seq![
            r.subsystem,
            r.channel,
            byte_of(r.weight as int) as u8,
            byte_of(r.fmt as int) as u8,
        ]);
        assert(out@ =~= old(out)@ + record_tail(*r));
    }
}

fn push_record(out: &mut Vec<u8>, r: &PingRecord)
    ensures
        final(out)@ == old(out)@ + record_bytes(*r),
{
    push_head(out, r);
    push_body(out, r);
    push_tail(out, r);
    proof {
        reveal(record_bytes);
        assert(out@ =~= old(out)@ + record_bytes(*r));
    }
}

/// Records as they stand in a file.
pub fn encode_records(rs: &Vec<PingRecord>) -> (b: Vec<u8>)
    ensures
        b@ == all_bytes(rs@),
{
    let mut out: Vec<u8> = Vec::new();
    let mut i: usize = 0;
    while i < rs.len()
        invariant
            i <= rs@.len(),
            out@ == all_bytes(rs@.take(i as int)),
        decreases rs.len() - i,
    {
        push_record(&mut out, &rs[i]);
        proof {
            assert(rs@.take(i + 1).drop_last() =~= rs@.take(i as int));
        }
        i += 1;
    }
    proof {
        assert(rs@.take(rs@.len() as int) =~= rs@);
    }
    out
}

fn r64(b: &[u8], o: usize) -> (v: u64)
    requires
        o + 8 <= b.len(),
    ensures
        v == bytes::u64_at(b@, o as int, true),
{
    match get_u64(b, o, true) {
        Some(v) => v,
        None => 0,
    }
}

fn r32(b: &[u8], o: usize) -> (v: u32)
    requires
        o + 4 <= b.len(),
    ensures
        v == bytes::u32_at(b@, o as int, true),
{
    match get_u32(b, o, true) {
        Some(v) => v,
        None => 0,
    }
}

fn r16(b: &[u8], o: usize) -> (v: u16)
    requires
        o + 2 <= b.len(),
    ensures
        v == bytes::u16_at(b@, o as int, true),
{
    match u16le(b, o) {
        Some(v) => v,
        None => 0,
    }
}

fn read_record(b: &[u8], o: usize) -> (r: PingRecord)
    requires
        o + 88 <= b.len(),
    ensures
        r == record_at(b@, o as int),
{
    proof {
        reveal(record_at);
    }
    PingRecord {
        time: r64(b, o),
        lat: r64(b, o + 8),
        lon: r64(b, o + 16),
        offset: r64(b, o + 24),
        ping: r32(b, o + 32),
        interval_ns: r32(b, o + 36),
        heading: r32(b, o + 40),
        depth: r32(b, o + 44),
        altitude: r32(b, o + 48),
        pitch: r32(b, o + 52),
        roll: r32(b, o + 56),
        f0: r32(b, o + 60),
        f1: r32(b, o + 64),
        nsamples: r16(b, o + 68),
        validity: r16(b, o + 70),
        file_id: r16(b, o + 72),
        subsystem: b[o + 74],
        channel: b[o + 75],
        weight: signed8(b[o + 76]),
        fmt: signed8(b[o + 77]),
    }
}

/// Read the records in a file, or none where the last of them is cut off.
pub fn decode_records(b: &[u8]) -> (r: Option<Vec<PingRecord>>)
    ensures
        r is Some <==> b@.len() % 88 == 0,
        r matches Some(v) ==> v@ == all_records(b@),
{
    if b.len() % REC_SIZE != 0 {
        return None;
    }
    let n: usize = b.len() / REC_SIZE;
    let mut v: Vec<PingRecord> = Vec::new();
    let mut i: usize = 0;
    while i < n
        invariant
            i <= n,
            n * 88 == b.len(),
            v@.len() == i,
            forall|k: int| 0 <= k < i ==> #[trigger] v@[k] == record_at(b@, 88 * k),
        decreases n - i,
    {
        v.push(read_record(b, 88 * i));
        i += 1;
    }
    proof {
        assert(v@ =~= all_records(b@));
    }
    Some(v)
}

proof fn lemma_record_head(b: Seq<u8>, o: int, r: PingRecord)
    requires
        0 <= o,
        o + 40 <= b.len(),
        b.subrange(o, o + 40) == record_head(r),
    ensures
        bytes::u64_at(b, o, true) == r.time,
        bytes::u64_at(b, o + 8, true) == r.lat,
        bytes::u64_at(b, o + 16, true) == r.lon,
        bytes::u64_at(b, o + 24, true) == r.offset,
        bytes::u32_at(b, o + 32, true) == r.ping,
        bytes::u32_at(b, o + 36, true) == r.interval_ns,
{
    reveal(record_head);
    bytes::lemma_le_lens(r.time as int);
    bytes::lemma_le_lens(r.lat as int);
    bytes::lemma_le_lens(r.lon as int);
    bytes::lemma_le_lens(r.offset as int);
    bytes::lemma_le_lens(r.ping as int);
    bytes::lemma_le_lens(r.interval_ns as int);
    let p0 = bytes::le8(r.time as int);
    let p1 = bytes::le8(r.lat as int);
    let p2 = bytes::le8(r.lon as int);
    let p3 = bytes::le8(r.offset as int);
    let p4 = bytes::le4(r.ping as int);
    let p5 = bytes::le4(r.interval_ns as int);
    let s0 = p0;
    let s1 = s0 + p1;
    let s2 = s1 + p2;
    let s3 = s2 + p3;
    let s4 = s3 + p4;
    let s5 = s4 + p5;
    bytes::lemma_joined(b, o, s4, p5);
    bytes::lemma_joined(b, o, s3, p4);
    bytes::lemma_joined(b, o, s2, p3);
    bytes::lemma_joined(b, o, s1, p2);
    bytes::lemma_joined(b, o, s0, p1);
    bytes::lemma_le8(b, o, r.time as int);
    bytes::lemma_le8(b, o + 8, r.lat as int);
    bytes::lemma_le8(b, o + 16, r.lon as int);
    bytes::lemma_le8(b, o + 24, r.offset as int);
    bytes::lemma_le4(b, o + 32, r.ping as int);
    bytes::lemma_le4(b, o + 36, r.interval_ns as int);
}

proof fn lemma_record_body(b: Seq<u8>, o: int, r: PingRecord)
    requires
        0 <= o,
        o + 28 <= b.len(),
        b.subrange(o, o + 28) == record_body(r),
    ensures
        bytes::u32_at(b, o, true) == r.heading,
        bytes::u32_at(b, o + 4, true) == r.depth,
        bytes::u32_at(b, o + 8, true) == r.altitude,
        bytes::u32_at(b, o + 12, true) == r.pitch,
        bytes::u32_at(b, o + 16, true) == r.roll,
        bytes::u32_at(b, o + 20, true) == r.f0,
        bytes::u32_at(b, o + 24, true) == r.f1,
{
    reveal(record_body);
    bytes::lemma_le_lens(r.heading as int);
    bytes::lemma_le_lens(r.depth as int);
    bytes::lemma_le_lens(r.altitude as int);
    bytes::lemma_le_lens(r.pitch as int);
    bytes::lemma_le_lens(r.roll as int);
    bytes::lemma_le_lens(r.f0 as int);
    bytes::lemma_le_lens(r.f1 as int);
    let p0 = bytes::le4(r.heading as int);
    let p1 = bytes::le4(r.depth as int);
    let p2 = bytes::le4(r.altitude as int);
    let p3 = bytes::le4(r.pitch as int);
    let p4 = bytes::le4(r.roll as int);
    let p5 = bytes::le4(r.f0 as int);
    let p6 = bytes::le4(r.f1 as int);
    let s0 = p0;
    let s1 = s0 + p1;
    let s2 = s1 + p2;
    let s3 = s2 + p3;
    let s4 = s3 + p4;
    let s5 = s4 + p5;
    let s6 = s5 + p6;
    bytes::lemma_joined(b, o, s5, p6);
    bytes::lemma_joined(b, o, s4, p5);
    bytes::lemma_joined(b, o, s3, p4);
    bytes::lemma_joined(b, o, s2, p3);
    bytes::lemma_joined(b, o, s1, p2);
    bytes::lemma_joined(b, o, s0, p1);
    bytes::lemma_le4(b, o, r.heading as int);
    bytes::lemma_le4(b, o + 4, r.depth as int);
    bytes::lemma_le4(b, o + 8, r.altitude as int);
    bytes::lemma_le4(b, o + 12, r.pitch as int);
    bytes::lemma_le4(b, o + 16, r.roll as int);
    bytes::lemma_le4(b, o + 20, r.f0 as int);
    bytes::lemma_le4(b, o + 24, r.f1 as int);
}

proof fn lemma_record_tail(b: Seq<u8>, o: int, r: PingRecord)
    requires
        0 <= o,
        o + 20 <= b.len(),
        b.subrange(o, o + 20) == record_tail(r),
    ensures
        bytes::u16_at(b, o, true) == r.nsamples,
        bytes::u16_at(b, o + 2, true) == r.validity,
        bytes::u16_at(b, o + 4, true) == r.file_id,
        b[o + 6] == r.subsystem,
        b[o + 7] == r.channel,
        bytes::as_signed(b[o + 8] as int, 256) == r.weight,
        bytes::as_signed(b[o + 9] as int, 256) == r.fmt,
{
    reveal(record_tail);
    bytes::lemma_le_lens(r.nsamples as int);
    bytes::lemma_le_lens(r.validity as int);
    bytes::lemma_le_lens(r.file_id as int);
    let p0 = bytes::le2(r.nsamples as int);
    let p1 = bytes::le2(r.validity as int);
    let p2 = bytes::le2(r.file_id as int);
    let p3 = seq![
        r.subsystem,
        r.channel,
        byte_of(r.weight as int) as u8,
        byte_of(r.fmt as int) as u8,
    ];
    let p4 = seq![0u8, 0, 0, 0, 0, 0, 0, 0, 0, 0];
    let s0 = p0;
    let s1 = s0 + p1;
    let s2 = s1 + p2;
    let s3 = s2 + p3;
    let s4 = s3 + p4;
    bytes::lemma_joined(b, o, s3, p4);
    bytes::lemma_joined(b, o, s2, p3);
    bytes::lemma_joined(b, o, s1, p2);
    bytes::lemma_joined(b, o, s0, p1);
    bytes::lemma_le2(b, o, r.nsamples as int);
    bytes::lemma_le2(b, o + 2, r.validity as int);
    bytes::lemma_le2(b, o + 4, r.file_id as int);
    let four = b.subrange(o + 6, o + 10);
    assert(four =~= p3);
    assert(b[o + 6] == four[0] && b[o + 7] == four[1] && b[o + 8] == four[2] && b[o + 9]
        == four[3]);
}

proof fn lemma_record_lens(r: PingRecord)
    ensures
        record_head(r).len() == 40,
        record_body(r).len() == 28,
        record_tail(r).len() == 20,
{
    reveal(record_head);
    reveal(record_body);
    reveal(record_tail);
    bytes::lemma_le_lens(r.time as int);
    bytes::lemma_le_lens(r.lat as int);
    bytes::lemma_le_lens(r.lon as int);
    bytes::lemma_le_lens(r.offset as int);
    bytes::lemma_le_lens(r.ping as int);
    bytes::lemma_le_lens(r.interval_ns as int);
    bytes::lemma_le_lens(r.heading as int);
    bytes::lemma_le_lens(r.depth as int);
    bytes::lemma_le_lens(r.altitude as int);
    bytes::lemma_le_lens(r.pitch as int);
    bytes::lemma_le_lens(r.roll as int);
    bytes::lemma_le_lens(r.f0 as int);
    bytes::lemma_le_lens(r.f1 as int);
    bytes::lemma_le_lens(r.nsamples as int);
    bytes::lemma_le_lens(r.validity as int);
    bytes::lemma_le_lens(r.file_id as int);
}

proof fn lemma_record(b: Seq<u8>, o: int, r: PingRecord)
    requires
        0 <= o,
        o + 88 <= b.len(),
        b.subrange(o, o + 88) == record_bytes(r),
    ensures
        record_at(b, o) == r,
{
    reveal(record_at);
    reveal(record_bytes);
    lemma_record_lens(r);
    bytes::lemma_joined(b, o, record_head(r) + record_body(r), record_tail(r));
    bytes::lemma_joined(b, o, record_head(r), record_body(r));
    lemma_record_head(b, o, r);
    lemma_record_body(b, o + 40, r);
    lemma_record_tail(b, o + 68, r);
}

/// Records read back from a file are those that were written to it.
pub proof fn law_records_round_trip(rs: Seq<PingRecord>)
    ensures
        all_bytes(rs).len() == 88 * rs.len(),
        all_records(all_bytes(rs)) == rs,
    decreases rs.len(),
{
    reveal(record_bytes);
    let b = all_bytes(rs);
    if rs.len() == 0 {
        assert(all_records(b) =~= rs);
    } else {
        let front = all_bytes(rs.drop_last());
        law_records_round_trip(rs.drop_last());
        lemma_record_lens(rs.last());
        let w = record_bytes(rs.last());
        assert(w.len() == 88);
        assert(b.subrange(0, front.len() as int) =~= front);
        assert(b.subrange(front.len() as int, b.len() as int) =~= w);
        assert forall|i: int| 0 <= i < rs.len() implies record_at(b, 88 * i) == rs[i] by {
            if i < rs.len() - 1 {
                assert(all_records(front)[i] == rs.drop_last()[i]);
                lemma_same_record(front, b, 88 * i);
            } else {
                lemma_record(b, 88 * i, rs.last());
            }
        }
        assert(all_records(b) =~= rs);
    }
}

proof fn lemma_same_record(a: Seq<u8>, b: Seq<u8>, o: int)
    requires
        0 <= o,
        o + 88 <= a.len() <= b.len(),
        a == b.subrange(0, a.len() as int),
    ensures
        record_at(a, o) == record_at(b, o),
{
    reveal(record_at);
    assert forall|k: int| o <= k < o + 88 implies a[k] == b[k] by {
        assert(b.subrange(0, a.len() as int)[k] == b[k]);
    }
}

// ---- files ---------------------------------------------------------------------

/// An index file, given its header as text.
pub fn encode(header: &[u8], rs: &Vec<PingRecord>) -> (b: Vec<u8>)
    requires
        header.len() <= u32::MAX,
    ensures
        b@ == frame::framed(MAGIC@, header@, all_bytes(rs@)),
{
    let payload = encode_records(rs);
    frame::frame(MAGIC.as_slice(), header, payload.as_slice())
}

/// Find where the header of an index file ends. It starts at byte 12, and the
/// records follow it.
pub fn find_header(b: &[u8]) -> (r: Result<usize, FrameError>)
    ensures
        match frame::header_end(b@, MAGIC@, MAGIC_LEGACY@) {
            Ok(end) => r matches Ok(e) && e == end && 12 <= e <= b@.len(),
            Err(x) => r matches Err(e) && e == x,
        },
{
    unframe(b, MAGIC.as_slice(), MAGIC_LEGACY.as_slice())
}

/// An index file that was written reads back with its header and its records
/// just as they were.
pub proof fn law_index_round_trip(header: Seq<u8>, rs: Seq<PingRecord>)
    requires
        header.len() <= u32::MAX,
    ensures
        frame::header_end(
            frame::framed(MAGIC@, header, all_bytes(rs)),
            MAGIC@,
            MAGIC_LEGACY@,
        ) == Ok::<int, FrameError>(12int + header.len()),
        frame::framed(MAGIC@, header, all_bytes(rs)).subrange(12, 12int + header.len()) == header,
        all_records(frame::framed(MAGIC@, header, all_bytes(rs)).skip(12int + header.len())) == rs,
        all_bytes(rs).len() % 88 == 0,
{
    frame::law_frame_round_trip(MAGIC@, MAGIC_LEGACY@, header, all_bytes(rs));
    law_records_round_trip(rs);
}

} // verus!
