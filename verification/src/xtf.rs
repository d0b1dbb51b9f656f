//! Triton XTF reader, enough of it to index and display a sidescan recording.
//!
//! The file header is a fixed 1024 bytes with one descriptor per channel;
//! packets after that are self-delimiting via a magic number and a byte count.
//! Fields are handed back as the integers and bit patterns they are stored as.

use vstd::prelude::*;

use crate::bytes;
use crate::bytes::{get_u64, slice_to_vec, u16le, u32le};
use crate::jsf;
use crate::jsf::bytes_to_zero;
use crate::text;
use crate::text::{chars_of, from_utf8_lossy, text_of, trim};
use crate::time;
use crate::time::unix_from_utc;

pub mod law;

verus! {

pub const MAGIC: u16 = 0xFACE;

pub const FILE_HEADER_SIZE: usize = 1024;

/// The channel descriptors live inside the file header: 256 bytes of fields
/// followed by six 128-byte slots, 1024 bytes in all. A writer with more than
/// six channels extends the header by one slot each.
pub const CHAN_INFO_OFFSET: usize = 256;

pub const CHAN_INFO_SIZE: usize = 128;

pub const CHAN_INFO_SLOTS: usize = 6;

/// Packet header types.
pub const HDR_SONAR: u8 = 0;

pub const HDR_NOTES: u8 = 1;

pub const HDR_BATHY: u8 = 2;

pub const HDR_ATTITUDE: u8 = 3;

/// A channel's descriptor.
#[derive(Debug)]
pub struct Channel {
    pub bytes_per_sample: u8,
    pub name: String,
    /// Bits of the centre frequency, a single-precision number.
    pub frequency_bits: u32,
}

#[derive(Debug)]
pub struct XtfHeader {
    pub recording_program: String,
    pub sonar_name: String,
    pub sonar_type: u16,
    pub n_channels: u32,
    pub channels: Vec<Channel>,
    /// Bits of single-precision numbers.
    pub nav_offset_y_bits: u32,
    pub nav_offset_x_bits: u32,
}

/// Text in a field of fixed length: up to the first zero, without white space
/// around it.
pub open spec fn field_text(b: Seq<u8>, from: int, to: int) -> Seq<char> {
    text::trimmed(text::lossy_text(jsf::up_to_zero(b.subrange(from, to))))
}

/// Read text from a field of fixed length.
pub fn cstr(b: &[u8], from: usize, to: usize) -> (s: String)
    requires
        from <= to <= b@.len(),
    ensures
        s@ == field_text(b@, from as int, to as int),
{
    let raw = bytes_to_zero(b, from, to);
    let s = from_utf8_lossy(raw.as_slice());
    text_of(trim(chars_of(s.as_str()).as_slice()).as_slice())
}

/// A number brought into 1 to 8.
pub open spec fn sample_width(v: int) -> int {
    if v < 1 {
        1
    } else if v > 8 {
        8
    } else {
        v
    }
}

/// How many channels a file says it has.
pub open spec fn channel_count(b: Seq<u8>) -> int {
    bytes::u16_at(b, 166, true) + bytes::u16_at(b, 168, true)
}

/// How many channel descriptors are read: sixteen at most, and none that runs
/// past the end of the file.
pub open spec fn descriptors(b: Seq<u8>) -> int {
    let n = channel_count(b);
    let limit = if n < 16 {
        n
    } else {
        16
    };
    let fit = (b.len() - CHAN_INFO_OFFSET) / CHAN_INFO_SIZE as int;
    if fit < limit {
        fit
    } else {
        limit
    }
}

/// Whether a descriptor is channel `i`'s.
pub open spec fn channel_of(c: Channel, b: Seq<u8>, i: int) -> bool {
    let o = CHAN_INFO_OFFSET + i * CHAN_INFO_SIZE;
    &&& c.bytes_per_sample == sample_width(bytes::u16_at(b, o + 6, true))
    &&& c.name@ == field_text(b, o + 12, o + 28)
    &&& c.frequency_bits == bytes::u32_at(b, o + 32, true)
}

/// Whether a header is a file's.
pub open spec fn header_of(h: XtfHeader, b: Seq<u8>) -> bool {
    &&& h.recording_program@ == field_text(b, 6, 14)
    &&& h.sonar_name@ == field_text(b, 30, 46)
    &&& h.sonar_type == bytes::u16_at(b, 46, true)
    &&& h.n_channels == channel_count(b)
    &&& h.channels@.len() == descriptors(b)
    &&& forall|i: int|
        0 <= i < h.channels@.len() ==> channel_of(#[trigger] h.channels@[i], b, i)
    &&& h.nav_offset_y_bits == bytes::u32_at(b, 74, true)
    &&& h.nav_offset_x_bits == bytes::u32_at(b, 78, true)
}

fn le16(b: &[u8], o: usize) -> (v: u16)
    requires
        o + 2 <= b.len(),
    ensures
        v == bytes::u16_at(b@, o as int, true),
{
    match u16le(b, o) {
        Some(v) => v,
        None => 0,
    }
}

fn le32(b: &[u8], o: usize) -> (v: u32)
    requires
        o + 4 <= b.len(),
    ensures
        v == bytes::u32_at(b@, o as int, true),
{
    match u32le(b, o) {
        Some(v) => v,
        None => 0,
    }
}

/// Read the header of a file, or none where the file is shorter than one.
pub fn parse_header(b: &[u8]) -> (r: Option<XtfHeader>)
    ensures
        r is Some <==> b@.len() >= FILE_HEADER_SIZE,
        r matches Some(h) ==> header_of(h, b@),
{
    if b.len() < FILE_HEADER_SIZE {
        return None;
    }
    let n_channels: u32 = le16(b, 166) as u32 + le16(b, 168) as u32;
    let limit: usize = if n_channels < 16 { n_channels as usize } else { 16 };
    let fit: usize = (b.len() - CHAN_INFO_OFFSET) / CHAN_INFO_SIZE;
    let n: usize = if fit < limit { fit } else { limit };
    let mut channels: Vec<Channel> = Vec::new();
    let mut i: usize = 0;
    while i < n
        invariant
            i <= n <= 16,
            CHAN_INFO_OFFSET + n * CHAN_INFO_SIZE <= b.len(),
            channels@.len() == i,
            forall|j: int| 0 <= j < i ==> channel_of(#[trigger] channels@[j], b@, j),
        decreases n - i,
    {
        let o: usize = CHAN_INFO_OFFSET + i * CHAN_INFO_SIZE;
        let w = le16(b, o + 6);
        let bytes_per_sample: u8 = if w < 1 {
            1
        } else if w > 8 {
            8
        } else {
            w as u8
        };
        let name = cstr(b, o + 12, o + 28);
        let frequency_bits = le32(b, o + 32);
        channels.push(Channel { bytes_per_sample, name, frequency_bits });
        i += 1;
    }
    Some(
        XtfHeader {
            recording_program: cstr(b, 6, 14),
            sonar_name: cstr(b, 30, 46),
            sonar_type: le16(b, 46),
            n_channels,
            channels,
            nav_offset_y_bits: le32(b, 74),
            nav_offset_x_bits: le32(b, 78),
        },
    )
}

// ---- packets -------------------------------------------------------------------

/// Where the packets start: the six standard slots are inside the header, and
/// only channels beyond them push the packets back.
pub open spec fn packets_start(n_channels: int) -> int {
    FILE_HEADER_SIZE + (if n_channels > CHAN_INFO_SLOTS {
        (n_channels - CHAN_INFO_SLOTS) * CHAN_INFO_SIZE
    } else {
        0
    })
}

/// Where the packets start.
pub fn data_start(n_channels: u32) -> (at: u64)
    ensures
        at == packets_start(n_channels as int),
{
    if n_channels > CHAN_INFO_SLOTS as u32 {
        let extra: u64 = n_channels as u64 - 6;
        1024 + extra * 128
    } else {
        FILE_HEADER_SIZE as u64
    }
}

/// The next place from `at` on where the magic number stands, or the length of
/// the file.
pub open spec fn next_magic(b: Seq<u8>, at: int) -> int
    decreases b.len() - at,
{
    if at < 0 || at + 2 > b.len() {
        b.len() as int
    } else if b[at] == 0xCE && b[at + 1] == 0xFA {
        at
    } else {
        next_magic(b, at + 1)
    }
}

/// Where a packet is in the file.
#[derive(Clone, Copy, Debug, PartialEq, Eq, Structural)]
pub struct Packet {
    pub start: u64,
    pub end: u64,
    pub htype: u8,
}

/// The packets from `at` on. Stray bytes between packets are passed over; a
/// packet whose length makes no sense ends them.
pub open spec fn packets_from(b: Seq<u8>, at: int) -> Seq<Packet>
    decreases b.len() - at,
{
    if at < 0 || at + 14 > b.len() {
        Seq::empty()
    } else if bytes::u16_at(b, at, true) != MAGIC {
        let next = next_magic(b, at);
        if next <= at || next >= b.len() {
            Seq::empty()
        } else {
            packets_from(b, next)
        }
    } else {
        let n = bytes::u32_at(b, at + 10, true);
        if n < 14 || at + n > b.len() {
            Seq::empty()
        } else {
            seq![Packet { start: at as u64, end: (at + n) as u64, htype: b[at + 2] }]
                + packets_from(b, at + n)
        }
    }
}

proof fn lemma_next_magic(b: Seq<u8>, at: int)
    requires
        0 <= at <= b.len(),
    ensures
        at <= next_magic(b, at) <= b.len(),
    decreases b.len() - at,
{
    if at + 2 <= b.len() && !(b[at] == 0xCE && b[at + 1] == 0xFA) {
        lemma_next_magic(b, at + 1);
    }
}

fn find_magic(b: &[u8], at: usize) -> (i: usize)
    requires
        at <= b@.len(),
    ensures
        i == next_magic(b@, at as int),
        at <= i <= b@.len(),
{
    let mut i: usize = at;
    let len: usize = b.len();
    while i < len && 2 <= len - i
        invariant
            at <= i <= len,
            len == b@.len(),
            next_magic(b@, at as int) == next_magic(b@, i as int),
        decreases len - i,
    {
        if b[i] == 0xCE && b[i + 1] == 0xFA {
            return i;
        }
        i += 1;
    }
    len
}

/// The packets of a file, from `start` on.
pub fn packets(b: &[u8], start: u64) -> (r: Vec<Packet>)
    ensures
        r@ == packets_from(b@, start as int),
        forall|i: int|
            0 <= i < r@.len() ==> (#[trigger] r@[i]).start + 14 <= r@[i].end && r@[i].end
                <= b@.len(),
{
    let len: u64 = b.len() as u64;
    let mut out: Vec<Packet> = Vec::new();
    if start > len {
        return out;
    }
    let mut at: u64 = start;
    proof {
        assert(out@ + packets_from(b@, at as int) =~= packets_from(b@, at as int));
    }
    while 14 <= len - at
        invariant
            len == b@.len(),
            len == b.len(),
            at <= len,
            out@ + packets_from(b@, at as int) == packets_from(b@, start as int),
            forall|i: int|
                0 <= i < out@.len() ==> (#[trigger] out@[i]).start + 14 <= out@[i].end
                    && out@[i].end <= b@.len(),
        decreases len - at,
    {
        let o: usize = at as usize;
        let magic = le16(b, o);
        if magic != MAGIC {
            let next = find_magic(b, o);
            if next <= o || next >= b.len() {
                proof {
                    assert(out@ + Seq::<Packet>::empty() =~= out@);
                }
                return out;
            }
            at = next as u64;
            continue ;
        }
        let n: u64 = le32(b, o + 10) as u64;
        if n < 14 || n > len - at {
            proof {
                assert(out@ + Seq::<Packet>::empty() =~= out@);
            }
            return out;
        }
        let p = Packet { start: at, end: at + n, htype: b[o + 2] };
        let ghost before = out@;
        out.push(p);
        proof {
            let rest = packets_from(b@, at + n);
            assert(before + (seq![p] + rest) =~= out@ + rest);
        }
        at = at + n;
    }
    proof {
        assert(out@ + Seq::<Packet>::empty() =~= out@);
    }
    out
}

/// A packet's timestamp: whole seconds since the Unix epoch, and hundredths.
pub open spec fn stamp_of(p: Seq<u8>) -> Option<(int, int)> {
    if p.len() < 22 {
        None
    } else {
        let y = bytes::u16_at(p, 14, true);
        if y < 1970 || y > 2100 || p[16] == 0 || p[16] > 12 || p[17] == 0 || p[17] > 31 {
            None
        } else {
            Some(
                (
                    time::unix_seconds(
                        y,
                        p[16] as int,
                        p[17] as int,
                        p[18] as int,
                        p[19] as int,
                        p[20] as int,
                    ),
                    p[21] as int,
                ),
            )
        }
    }
}

/// Read a packet's timestamp, where it has a plausible one.
pub fn packet_time(p: &[u8]) -> (r: Option<(i64, u8)>)
    ensures
        match stamp_of(p@) {
            None => r is None,
            Some((s, h)) => r matches Some(x) && x.0 == s && x.1 == h,
        },
{
    if p.len() < 22 {
        return None;
    }
    let y = le16(p, 14);
    if y < 1970 || y > 2100 || p[16] == 0 || p[16] > 12 || p[17] == 0 || p[17] > 31 {
        return None;
    }
    let t = unix_from_utc(
        y as i32,
        p[16] as u32,
        p[17] as u32,
        p[18] as u32,
        p[19] as u32,
        p[20] as u32,
    );
    Some((t, p[21]))
}

/// One channel of a sidescan packet. Numbers that a short packet does not reach
/// are absent.
#[derive(Debug)]
pub struct XtfPing {
    pub offset: u64,
    pub channel: u8,
    pub time: Option<(i64, u8)>,
    pub ping_number: u32,
    /// Bits of double-precision numbers.
    pub lat_bits: u64,
    pub lon_bits: u64,
    /// Bits of single-precision numbers.
    pub heading_bits: u32,
    pub pitch_bits: u32,
    pub roll_bits: u32,
    pub depth_bits: u32,
    pub altitude_bits: u32,
    pub slant_range_bits: u32,
    pub nsamples: u32,
    pub data: Vec<u32>,
}

/// Bytes per sample of a channel: as its descriptor has it, else two.
pub open spec fn width_of(widths: Seq<u8>, ch: int) -> int {
    let w = if ch < widths.len() {
        widths[ch] as int
    } else {
        2
    };
    if w < 1 {
        1
    } else {
        w
    }
}

/// The samples in `raw`, of 1, 2 or 4 bytes each. Other widths are not read.
pub open spec fn samples_of(raw: Seq<u8>, width: int, n: int) -> Seq<u32> {
    if width == 1 {
        Seq::new(n as nat, |i: int| raw[i] as u32)
    } else if width == 2 {
        Seq::new(n as nat, |i: int| bytes::u16_at(raw, 2 * i, true) as u32)
    } else if width == 4 {
        Seq::new(n as nat, |i: int| bytes::u32_at(raw, 4 * i, true) as u32)
    } else {
        Seq::empty()
    }
}

/// Where a packet's channel starts.
#[derive(Clone, Copy, Debug, PartialEq, Eq, Structural)]
pub struct Slot {
    pub at: u64,
    pub channel: u8,
    pub nsamples: u32,
    pub width: u8,
}

/// The next `n` channels of a packet from `at` on: each a sub-header of 64
/// bytes and that channel's samples.
pub open spec fn slots_from(p: Seq<u8>, at: int, n: int, widths: Seq<u8>) -> Seq<Slot>
    decreases n,
{
    if n <= 0 || at + 64 > p.len() {
        Seq::empty()
    } else {
        let ch = bytes::u16_at(p, at + 2, true) % 256;
        let count = bytes::u32_at(p, at + 8, true);
        let w = width_of(widths, ch);
        let end = at + 64 + count * w;
        if end > p.len() {
            Seq::empty()
        } else {
            seq![Slot { at: at as u64, channel: ch as u8, nsamples: count as u32, width: w as u8 }]
                + slots_from(p, end, n - 1, widths)
        }
    }
}

/// The channels of a sidescan packet: eight at most, from byte 256 on.
pub open spec fn packet_slots(p: Seq<u8>, widths: Seq<u8>) -> Seq<Slot> {
    slots_from(
        p,
        256,
        if p[9] < 8 {
            p[9] as int
        } else {
            8
        },
        widths,
    )
}

/// Whether a ping is what a packet's channel says.
pub open spec fn ping_of(x: XtfPing, p: Seq<u8>, offset: u64, s: Slot) -> bool {
    &&& x.offset == offset
    &&& x.channel == s.channel
    &&& x.nsamples == s.nsamples
    &&& x.slant_range_bits == bytes::u32_at(p, s.at + 40, true)
    &&& match stamp_of(p) {
        None => x.time is None,
        Some((t, h)) => x.time matches Some(y) && y.0 == t && y.1 == h,
    }
    &&& x.ping_number == bytes::u32_at(p, 28, true)
    &&& x.lon_bits == bytes::u64_at(p, 52, true)
    &&& x.lat_bits == bytes::u64_at(p, 60, true)
    &&& x.depth_bits == bytes::u32_at(p, 72, true)
    &&& x.heading_bits == bytes::u32_at(p, 88, true)
    &&& x.pitch_bits == bytes::u32_at(p, 92, true)
    &&& x.roll_bits == bytes::u32_at(p, 96, true)
    &&& x.altitude_bits == bytes::u32_at(p, 100, true)
    &&& x.data@ == samples_of(
        p.subrange(s.at + 64, s.at + 64 + s.nsamples * s.width),
        s.width as int,
        s.nsamples as int,
    )
}

fn decode(p: &[u8], from: usize, width: u8, n: usize) -> (v: Vec<u32>)
    requires
        from + n * width <= p.len(),
    ensures
        v@ == samples_of(p@.subrange(from as int, from + n * width), width as int, n as int),
{
    let ghost raw = p@.subrange(from as int, from + n * width);
    let mut v: Vec<u32> = Vec::new();
    if width != 1 && width != 2 && width != 4 {
        return v;
    }
    let mut i: usize = 0;
    while i < n
        invariant
            i <= n,
            width == 1 || width == 2 || width == 4,
            from + n * width <= p.len(),
            raw == p@.subrange(from as int, from + n * width),
            v@.len() == i,
            forall|j: int|
                0 <= j < i ==> #[trigger] v@[j] == samples_of(raw, width as int, n as int)[j],
        decreases n - i,
    {
        let x: u32 = if width == 1 {
            p[from + i] as u32
        } else if width == 2 {
            le16(p, from + 2 * i) as u32
        } else {
            le32(p, from + 4 * i)
        };
        v.push(x);
        i += 1;
    }
    proof {
        assert(v@ =~= samples_of(raw, width as int, n as int));
    }
    v
}

fn le64(b: &[u8], o: usize) -> (v: u64)
    requires
        o + 8 <= b.len(),
    ensures
        v == bytes::u64_at(b@, o as int, true),
{
    match get_u64(b, o, true) {
        Some(v) => v,
        None => 0,
    }
}

/// Whether pings are those of a packet, one per channel.
pub open spec fn pings_of(v: Seq<XtfPing>, p: Seq<u8>, offset: u64, slots: Seq<Slot>) -> bool {
    v.len() == slots.len() && forall|i: int|
        0 <= i < v.len() ==> ping_of(#[trigger] v[i], p, offset, slots[i])
}

/// The pings of a sidescan packet, one per channel.
pub fn packet_pings(p: &[u8], offset: u64, widths: &Vec<u8>) -> (r: Vec<XtfPing>)
    requires
        p@.len() >= 14,
    ensures
        pings_of(r@, p@, offset, packet_slots(p@, widths@)),
{
    let n: u8 = if p[9] < 8 { p[9] } else { 8 };
    let time = packet_time(p);
    let len: u64 = p.len() as u64;
    let mut out: Vec<XtfPing> = Vec::new();
    let mut at: u64 = 256;
    let mut i: u8 = 0;
    let ghost all = packet_slots(p@, widths@);
    let ghost mut done: Seq<Slot> = Seq::empty();
    proof {
        assert(done + all =~= all);
    }
    while i < n && at <= len && 64 <= len - at
        invariant
            i <= n <= 8,
            len == p@.len(),
            len == p.len(),
            256 <= at,
            all == packet_slots(p@, widths@),
            match stamp_of(p@) {
                None => time is None,
                Some((t, h)) => time matches Some(y) && y.0 == t && y.1 == h,
            },
            all == done + slots_from(p@, at as int, n - i, widths@),
            pings_of(out@, p@, offset, done),
        decreases n - i,
    {
        let o: usize = at as usize;
        let ch: u8 = (le16(p, o + 2) % 256) as u8;
        let nsamples: u32 = le32(p, o + 8);
        let w: u8 = if (ch as usize) < widths.len() { widths[ch as usize] } else { 2 };
        let width: u8 = if w < 1 { 1 } else { w };
        proof {
            assert(nsamples * width <= 4294967295 * 255) by (nonlinear_arith)
                requires
                    0 <= nsamples <= 4294967295,
                    0 <= width <= 255,
            ;
        }
        let bytes_needed: u64 = nsamples as u64 * width as u64;
        if bytes_needed > len - at - 64 {
            proof {
                assert(done + Seq::<Slot>::empty() =~= done);
            }
            return out;
        }
        let ghost slot = Slot { at, channel: ch, nsamples, width };
        let data = decode(p, o + 64, width, nsamples as usize);
        let x = XtfPing {
            offset,
            channel: ch,
            time,
            ping_number: le32(p, 28),
            lat_bits: le64(p, 60),
            lon_bits: le64(p, 52),
            heading_bits: le32(p, 88),
            pitch_bits: le32(p, 92),
            roll_bits: le32(p, 96),
            depth_bits: le32(p, 72),
            altitude_bits: le32(p, 100),
            slant_range_bits: le32(p, o + 40),
            nsamples,
            data,
        };
        proof {
            assert(ping_of(x, p@, offset, slot));
        }
        let ghost before = out@;
        out.push(x);
        proof {
            let rest = slots_from(p@, at + 64 + bytes_needed, n - i - 1, widths@);
            assert(done + (seq![slot] + rest) =~= done.push(slot) + rest);
            assert forall|j: int| 0 <= j < out@.len() implies ping_of(
                #[trigger] out@[j],
                p@,
                offset,
                done.push(slot)[j],
            ) by {
                if j < before.len() {
                    assert(ping_of(before[j], p@, offset, done[j]));
                }
            }
            done = done.push(slot);
        }
        at = at + 64 + bytes_needed;
        i += 1;
    }
    proof {
        assert(done + Seq::<Slot>::empty() =~= done);
    }
    out
}

/// The channels of the sidescan packets among some packets.
pub open spec fn traces(b: Seq<u8>, ps: Seq<Packet>, widths: Seq<u8>) -> Seq<(Packet, Slot)>
    decreases ps.len(),
{
    if ps.len() == 0 {
        Seq::empty()
    } else {
        let front = traces(b, ps.drop_last(), widths);
        let p = ps.last();
        if p.htype == HDR_SONAR {
            front + packet_slots(b.subrange(p.start as int, p.end as int), widths).map_values(
                |s: Slot| (p, s),
            )
        } else {
            front
        }
    }
}

/// Whether a ping is what a packet's channel says, in a file.
pub open spec fn trace_ping(x: XtfPing, b: Seq<u8>, t: (Packet, Slot)) -> bool {
    ping_of(x, b.subrange(t.0.start as int, t.0.end as int), t.0.start, t.1)
}

/// Whether pings are those of some packets, in order.
pub open spec fn trace_pings(v: Seq<XtfPing>, b: Seq<u8>, ts: Seq<(Packet, Slot)>) -> bool {
    v.len() == ts.len() && forall|i: int|
        0 <= i < v.len() ==> trace_ping(#[trigger] v[i], b, ts[i])
}

/// The pings of a file, one per packet and channel, in the order recorded.
pub fn pings(b: &[u8], header: &XtfHeader) -> (r: Vec<XtfPing>)
    ensures
        trace_pings(
            r@,
            b@,
            traces(
                b@,
                packets_from(b@, packets_start(header.n_channels as int)),
                header.channels@.map_values(|c: Channel| c.bytes_per_sample),
            ),
        ),
{
    let mut widths: Vec<u8> = Vec::new();
    let mut i: usize = 0;
    while i < header.channels.len()
        invariant
            i <= header.channels@.len(),
            widths@ == header.channels@.take(i as int).map_values(
                |c: Channel| c.bytes_per_sample,
            ),
        decreases header.channels.len() - i,
    {
        widths.push(header.channels[i].bytes_per_sample);
        i += 1;
        proof {
            assert(header.channels@.take(i as int) =~= header.channels@.take(i - 1).push(
                header.channels@[i - 1],
            ));
            assert(widths@ =~= header.channels@.take(i as int).map_values(
                |c: Channel| c.bytes_per_sample,
            ));
        }
    }
    proof {
        assert(header.channels@.take(header.channels@.len() as int) =~= header.channels@);
    }
    let ps = packets(b, data_start(header.n_channels));
    let n: usize = b.len();
    let mut out: Vec<XtfPing> = Vec::new();
    let mut k: usize = 0;
    while k < ps.len()
        invariant
            k <= ps@.len(),
            n == b@.len(),
            forall|j: int|
                0 <= j < ps@.len() ==> (#[trigger] ps@[j]).start + 14 <= ps@[j].end && ps@[j].end
                    <= b@.len(),
            trace_pings(out@, b@, traces(b@, ps@.take(k as int), widths@)),
        decreases ps.len() - k,
    {
        let p = ps[k];
        let ghost done = traces(b@, ps@.take(k as int), widths@);
        proof {
            assert(ps@.take(k + 1).drop_last() =~= ps@.take(k as int));
            assert(ps@[k as int] == p);
        }
        if p.htype == HDR_SONAR {
            let body = slice_to_vec(b, p.start as usize, p.end as usize);
            let more = packet_pings(body.as_slice(), p.start, &widths);
            let ghost slots = packet_slots(body@, widths@);
            let ghost before = out@;
            append(&mut out, more);
            proof {
                let ts = done + slots.map_values(|s: Slot| (p, s));
                assert forall|i: int| 0 <= i < out@.len() implies trace_ping(
                    #[trigger] out@[i],
                    b@,
                    ts[i],
                ) by {
                    if i < before.len() {
                        assert(trace_ping(before[i], b@, done[i]));
                    } else {
                        assert(ping_of(more@[i - before.len()], body@, p.start, slots[i
                            - before.len()]));
                    }
                }
            }
        }
        k += 1;
    }
    proof {
        assert(ps@.take(ps@.len() as int) =~= ps@);
    }
    out
}

fn append(out: &mut Vec<XtfPing>, more: Vec<XtfPing>)
    ensures
        final(out)@ == old(out)@ + more@,
{
    let mut more = more;
    out.append(&mut more);
}

} // verus!
