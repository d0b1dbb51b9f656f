//! What of a recording goes into the index.

use vstd::prelude::*;

use crate::bytes;
use crate::bytes::{i16le, i32le, slice_to_vec, u16le, u32le};
use crate::index::PingRecord;
use crate::jsf;
use crate::jsf::{has_flag, walk, MessageHeader, SyncError, V_ALTITUDE, V_HEADING, V_POSITION};
use crate::order;
use crate::order::{is_above_zero32, is_finite32, is_finite64};
use crate::xtf::XtfPing;

verus! {

/// The fields the index keeps of a sonar message, as the message has them.
#[derive(Clone, Copy, Debug, PartialEq, Eq, Structural)]
pub struct RawRecord {
    pub secs: i32,
    /// Milliseconds within the second.
    pub millis: u32,
    /// Whether positions are in ten-thousandths of an arc-minute, not in
    /// millionths of a degree.
    pub arc_minutes: bool,
    pub lat: i32,
    pub lon: i32,
    pub offset: u64,
    pub ping: u32,
    pub interval_ns: u32,
    /// Hundredths of a degree.
    pub heading: u16,
    /// Millimetres.
    pub depth: i32,
    pub altitude: i32,
    /// In 180/32768 of a degree.
    pub pitch: i16,
    pub roll: i16,
    /// In 10 Hz.
    pub sweep_start: u16,
    pub sweep_end: u16,
    pub nsamples: u16,
    pub validity: u16,
    pub file_id: u16,
    pub subsystem: u8,
    pub channel: u8,
    pub weight: i8,
    pub fmt: i8,
}

/// The low byte of a number of two bytes, with its sign.
pub open spec fn low_byte(v: u8) -> int {
    bytes::as_signed(v as int, 256)
}

/// The fields the index keeps of a sonar message. Whole seconds stand at the
/// start, milliseconds of the day further on where the message has them; they
/// are the same clock, so only the part below a second of the latter counts.
pub open spec fn raw_record(h: MessageHeader, body: Seq<u8>, file_id: u16) -> Option<RawRecord> {
    if body.len() < jsf::SONAR_HDR_SIZE {
        None
    } else {
        Some(
            RawRecord {
                secs: bytes::i32_at(body, 0) as i32,
                millis: (bytes::u32_at(body, 200, true) % 1000) as u32,
                arc_minutes: bytes::i16_at(body, 88) == 2,
                lat: bytes::i32_at(body, 84) as i32,
                lon: bytes::i32_at(body, 80) as i32,
                offset: h.offset,
                ping: bytes::u32_at(body, 8, true) as u32,
                interval_ns: bytes::u32_at(body, 116, true) as u32,
                heading: bytes::u16_at(body, 172, true) as u16,
                depth: bytes::i32_at(body, 136) as i32,
                altitude: bytes::i32_at(body, 144) as i32,
                pitch: bytes::i16_at(body, 174) as i16,
                roll: bytes::i16_at(body, 176) as i16,
                sweep_start: bytes::u16_at(body, 126, true) as u16,
                sweep_end: bytes::u16_at(body, 128, true) as u16,
                nsamples: bytes::u16_at(body, 114, true) as u16,
                validity: bytes::u16_at(body, 30, true) as u16,
                file_id,
                subsystem: h.subsystem,
                channel: h.channel,
                weight: low_byte(body[168]) as i8,
                fmt: low_byte(body[34]) as i8,
            },
        )
    }
}

fn su16(b: &[u8], o: usize) -> (v: u16)
    requires
        o + 2 <= b.len(),
    ensures
        v == bytes::u16_at(b@, o as int, true),
{
    match u16le(b, o) {
        Some(v) => v,
        None => 0,
    }
}

fn su32(b: &[u8], o: usize) -> (v: u32)
    requires
        o + 4 <= b.len(),
    ensures
        v == bytes::u32_at(b@, o as int, true),
{
    match u32le(b, o) {
        Some(v) => v,
        None => 0,
    }
}

fn si16(b: &[u8], o: usize) -> (v: i16)
    requires
        o + 2 <= b.len(),
    ensures
        v == bytes::i16_at(b@, o as int),
{
    match i16le(b, o) {
        Some(v) => v,
        None => 0,
    }
}

fn si32(b: &[u8], o: usize) -> (v: i32)
    requires
        o + 4 <= b.len(),
    ensures
        v == bytes::i32_at(b@, o as int),
{
    match i32le(b, o) {
        Some(v) => v,
        None => 0,
    }
}

fn signed_low_byte(v: u8) -> (r: i8)
    ensures
        r == low_byte(v),
{
    if v < 128 {
        v as i8
    } else {
        (v as i16 - 256) as i8
    }
}

/// Read the fields the index keeps straight out of the body of a sonar message,
/// without decoding the trace.
pub fn index_record(hdr: &MessageHeader, body: &[u8], file_id: u16) -> (r: Option<RawRecord>)
    ensures
        r == raw_record(*hdr, body@, file_id),
{
    if body.len() < jsf::SONAR_HDR_SIZE {
        return None;
    }
    Some(
        RawRecord {
            secs: si32(body, 0),
            millis: su32(body, 200) % 1000,
            arc_minutes: si16(body, 88) == 2,
            lat: si32(body, 84),
            lon: si32(body, 80),
            offset: hdr.offset,
            ping: su32(body, 8),
            interval_ns: su32(body, 116),
            heading: su16(body, 172),
            depth: si32(body, 136),
            altitude: si32(body, 144),
            pitch: si16(body, 174),
            roll: si16(body, 176),
            sweep_start: su16(body, 126),
            sweep_end: su16(body, 128),
            nsamples: su16(body, 114),
            validity: su16(body, 30),
            file_id,
            subsystem: hdr.subsystem,
            channel: hdr.channel,
            weight: signed_low_byte(body[168]),
            fmt: signed_low_byte(body[34]),
        },
    )
}

/// The records of the sonar messages among some messages.
pub open spec fn raw_records(b: Seq<u8>, ms: Seq<jsf::Message>, file_id: u16) -> Seq<RawRecord>
    decreases ms.len(),
{
    if ms.len() == 0 {
        Seq::empty()
    } else {
        let front = raw_records(b, ms.drop_last(), file_id);
        let m = ms.last();
        let raw = raw_record(m.hdr, b.subrange(m.start as int, m.end as int), file_id);
        if m.hdr.mtype == 80 && raw is Some {
            front.push(raw->0)
        } else {
            front
        }
    }
}

/// What the index keeps of a JSF file: a record per sonar message, and the
/// place where the file lost sync, if it did.
pub fn index_jsf(b: &[u8], file_id: u16) -> (r: (Vec<RawRecord>, Option<SyncError>))
    ensures
        r.0@ == raw_records(b@, jsf::messages_from(b@, 0).0, file_id),
        r.1 == jsf::messages_from(b@, 0).1,
{
    let w = walk(b);
    let n: usize = b.len();
    let mut out: Vec<RawRecord> = Vec::new();
    let mut i: usize = 0;
    proof {
        jsf::lemma_messages_inside(b@, 0);
        assert(w.messages@ == jsf::messages_from(b@, 0).0);
    }
    while i < w.messages.len()
        invariant
            i <= w.messages@.len(),
            n == b@.len(),
            forall|j: int|
                0 <= j < w.messages@.len() ==> (#[trigger] w.messages@[j]).start
                    <= w.messages@[j].end && w.messages@[j].end <= b@.len(),
            out@ == raw_records(b@, w.messages@.take(i as int), file_id),
        decreases w.messages.len() - i,
    {
        let m = w.messages[i];
        proof {
            assert(w.messages@[i as int] == m);
            assert(w.messages@.take(i + 1).drop_last() =~= w.messages@.take(i as int));
        }
        if m.hdr.mtype == 80 {
            let body = slice_to_vec(b, m.start as usize, m.end as usize);
            match index_record(&m.hdr, body.as_slice(), file_id) {
                Some(r) => {
                    out.push(r);
                },
                None => {},
            }
        }
        i += 1;
    }
    proof {
        assert(w.messages@.take(w.messages@.len() as int) =~= w.messages@);
    }
    (out, w.lost)
}

/// Flags for the fields of an XTF ping that carry a plausible value at all.
pub open spec fn plausible(p: XtfPing) -> int {
    (if order::above_zero32(p.altitude_bits) {
        V_ALTITUDE as int
    } else {
        0
    }) + (if order::finite64(p.lat_bits) && order::finite64(p.lon_bits) {
        V_POSITION as int
    } else {
        0
    }) + (if order::finite32(p.heading_bits) {
        V_HEADING as int
    } else {
        0
    })
}

impl PingRecord {
    /// Whether the record has a bottom-tracked altitude.
    pub open spec fn has_altitude(self) -> bool {
        jsf::flagged(self.validity, V_ALTITUDE) && order::above_zero32(self.altitude)
    }

    /// Whether the record has a bottom-tracked altitude.
    pub fn altitude_valid(&self) -> (r: bool)
        ensures
            r == self.has_altitude(),
    {
        has_flag(self.validity, V_ALTITUDE) && is_above_zero32(self.altitude)
    }

    /// Build a record from an XTF ping, given its time as the bits of a number
    /// of seconds and the interval between its samples where it has samples and
    /// a range.
    ///
    /// XTF has no validity bitmap, so the flags are made up from whether the
    /// field carries a plausible value at all. It numbers its channels across
    /// both sides; the low bit is the side and the rest selects the frequency
    /// set.
    pub fn from_xtf(p: &XtfPing, file_id: u16, time: u64, interval_ns: u32) -> (r: PingRecord)
        ensures
            r == (PingRecord {
                time,
                lat: p.lat_bits,
                lon: p.lon_bits,
                offset: p.offset,
                ping: p.ping_number,
                interval_ns: if p.nsamples > 0 && order::above_zero32(p.slant_range_bits) {
                    interval_ns
                } else {
                    0
                },
                heading: p.heading_bits,
                depth: p.depth_bits,
                altitude: p.altitude_bits,
                pitch: p.pitch_bits,
                roll: p.roll_bits,
                f0: 0,
                f1: 0,
                nsamples: if p.nsamples < 65535 {
                    p.nsamples as u16
                } else {
                    65535
                },
                validity: plausible(*p) as u16,
                file_id,
                subsystem: (20 + p.channel as int / 2) as u8,
                channel: (p.channel as int % 2) as u8,
                weight: 0,
                fmt: 0,
            }),
    {
        let mut validity: u16 = 0;
        if is_above_zero32(p.altitude_bits) {
            validity += V_ALTITUDE;
        }
        if is_finite64(p.lat_bits) && is_finite64(p.lon_bits) {
            validity += V_POSITION;
        }
        if is_finite32(p.heading_bits) {
            validity += V_HEADING;
        }
        PingRecord {
            time,
            lat: p.lat_bits,
            lon: p.lon_bits,
            offset: p.offset,
            ping: p.ping_number,
            interval_ns: if p.nsamples > 0 && is_above_zero32(p.slant_range_bits) {
                interval_ns
            } else {
                0
            },
            heading: p.heading_bits,
            depth: p.depth_bits,
            altitude: p.altitude_bits,
            pitch: p.pitch_bits,
            roll: p.roll_bits,
            f0: 0,
            f1: 0,
            nsamples: if p.nsamples < 65535 { p.nsamples as u16 } else { 65535 },
            validity,
            file_id,
            subsystem: 20 + p.channel / 2,
            channel: p.channel % 2,
            weight: 0,
            fmt: 0,
        }
    }
}

} // verus!
