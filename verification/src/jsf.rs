//! EdgeTech JSF (JSTAR) reader.
//!
//! A file is a run of messages, each with a sixteen-byte header that says how
//! long it is. Fields are handed back as the integers and bit patterns they are
//! stored as; turning them into degrees and metres is the caller's.

use vstd::prelude::*;

use crate::bytes;
use crate::bytes::{i16le, i32le, signed16, slice_to_vec, u16le, u32le};
use crate::text;
use crate::text::{chars_of, from_utf8_lossy, push_dec, push_hex, push_str, text_of, trim};
use crate::time;
use crate::time::month_day;

pub mod law;

verus! {

pub const MARKER: u16 = 0x1601;

pub const MSG_HDR_SIZE: usize = 16;

/// The sonar-data header that precedes the trace samples.
pub const SONAR_HDR_SIZE: usize = 240;

/// The name of a message type seen in EdgeTech recordings.
pub open spec fn message_title(t: u16) -> Seq<char> {
    if t == 40 {
        "raw serial"@
    } else if t == 80 {
        "sonar data"@
    } else if t == 82 {
        "sonar data (compressed)"@
    } else if t == 86 {
        "sonar data 2"@
    } else if t == 181 {
        "system information (old)"@
    } else if t == 182 {
        "system information"@
    } else if t == 426 {
        "file timestamp"@
    } else if t == 428 {
        "file padding"@
    } else if t == 2002 {
        "NMEA string"@
    } else if t == 2020 {
        "pressure sensor"@
    } else if t == 2040 {
        "miscellaneous analog"@
    } else if t == 2060 {
        "pipe echo detect"@
    } else if t == 2080 {
        "container timestamp"@
    } else if t == 2101 {
        "situation"@
    } else if t == 2111 {
        "cable counter"@
    } else {
        "unknown"@
    }
}

/// Message types seen in EdgeTech recordings.
pub fn msg_type_name(t: u16) -> (s: &'static str)
    ensures
        s@ == message_title(t),
{
    match t {
        40 => "raw serial",
        80 => "sonar data",
        82 => "sonar data (compressed)",
        86 => "sonar data 2",
        181 => "system information (old)",
        182 => "system information",
        426 => "file timestamp",
        428 => "file padding",
        2002 => "NMEA string",
        2020 => "pressure sensor",
        2040 => "miscellaneous analog",
        2060 => "pipe echo detect",
        2080 => "container timestamp",
        2101 => "situation",
        2111 => "cable counter",
        _ => "unknown",
    }
}

/// The name of a subsystem.
pub open spec fn subsystem_title(s: u8) -> Seq<char> {
    if s == 0 {
        "sub-bottom"@
    } else if s == 20 {
        "sidescan (set 1)"@
    } else if s == 21 {
        "sidescan (set 2)"@
    } else if s == 100 {
        "NMEA/nav"@
    } else if s == 101 {
        "pressure"@
    } else if s == 102 {
        "analog"@
    } else {
        "unknown"@
    }
}

/// What a subsystem is.
pub fn subsystem_name(s: u8) -> (r: &'static str)
    ensures
        r@ == subsystem_title(s),
{
    match s {
        0 => "sub-bottom",
        20 => "sidescan (set 1)",
        21 => "sidescan (set 2)",
        100 => "NMEA/nav",
        101 => "pressure",
        102 => "analog",
        _ => "unknown",
    }
}

/// Data format: values per sample, and whether they are signed. Values are
/// sixteen bits wide.
#[derive(Clone, Copy, Debug, PartialEq, Eq, Structural)]
pub struct DataFormat {
    pub signed: bool,
    pub per_sample: usize,
}

/// The format of a code: analytic pairs for 1, unsigned envelope for 9, and
/// signed envelope for everything else.
pub open spec fn format_of(code: i16) -> DataFormat {
    if code == 1 {
        DataFormat { signed: true, per_sample: 2 }
    } else {
        DataFormat { signed: code != 9, per_sample: 1 }
    }
}

impl DataFormat {
    /// The format of a code. Anything unrecognised is one signed envelope value
    /// per sample.
    pub fn from_code(code: i16) -> (f: DataFormat)
        ensures
            f == format_of(code),
    {
        match code {
            1 => DataFormat { signed: true, per_sample: 2 },
            9 => DataFormat { signed: false, per_sample: 1 },
            _ => DataFormat { signed: true, per_sample: 1 },
        }
    }

    /// Bytes occupied by `nsamples` samples.
    pub fn nbytes(&self, nsamples: usize) -> (n: usize)
        requires
            nsamples * 2 * self.per_sample <= usize::MAX,
        ensures
            n == nsamples * 2 * self.per_sample,
    {
        proof {
            assert(self.per_sample > 0 ==> nsamples * 2 <= nsamples * 2 * self.per_sample)
                by (nonlinear_arith)
                requires
                    nsamples >= 0,
            ;
        }
        if self.per_sample == 0 {
            return 0;
        }
        nsamples * 2 * self.per_sample
    }
}

#[derive(Clone, Copy, Debug, PartialEq, Eq, Structural)]
pub struct MessageHeader {
    pub offset: u64,
    pub version: u8,
    pub session: u8,
    pub mtype: u16,
    pub command: u8,
    pub subsystem: u8,
    pub channel: u8,
    pub sequence: u8,
    pub size: u32,
}

/// The message header at `at` in a file.
pub open spec fn header_at(b: Seq<u8>, at: int, offset: u64) -> MessageHeader {
    MessageHeader {
        offset,
        version: b[at + 2],
        session: b[at + 3],
        mtype: bytes::u16_at(b, at + 4, true) as u16,
        command: b[at + 6],
        subsystem: b[at + 7],
        channel: b[at + 8],
        sequence: b[at + 9],
        size: bytes::u32_at(b, at + 12, true) as u32,
    }
}

fn read_header(b: &[u8], at: usize, offset: u64) -> (h: MessageHeader)
    requires
        at + 16 <= b.len(),
    ensures
        h == header_at(b@, at as int, offset),
{
    let mtype: u16 = match u16le(b, at + 4) {
        Some(v) => v,
        None => 0,
    };
    let size: u32 = match u32le(b, at + 12) {
        Some(v) => v,
        None => 0,
    };
    MessageHeader {
        offset,
        version: b[at + 2],
        session: b[at + 3],
        mtype,
        command: b[at + 6],
        subsystem: b[at + 7],
        channel: b[at + 8],
        sequence: b[at + 9],
        size,
    }
}

/// Read a message header from the start of a buffer.
pub fn parse_message_header(buf: &[u8], offset: u64) -> (r: Option<MessageHeader>)
    ensures
        r == (if buf@.len() < MSG_HDR_SIZE {
            None
        } else {
            Some(header_at(buf@, 0, offset))
        }),
{
    if buf.len() < MSG_HDR_SIZE {
        return None;
    }
    Some(read_header(buf, 0, offset))
}

// ---- walking a file -----------------------------------------------------------

/// A place where no message starts.
#[derive(Clone, Copy, Debug, PartialEq, Eq, Structural)]
pub struct SyncError {
    pub offset: u64,
    pub marker: u16,
}

impl SyncError {
    /// What the error says.
    pub fn message(&self) -> (s: String)
        ensures
            s@ == "lost sync at offset "@ + text::dec(self.offset as nat) + ": marker=0x"@ + text::hex(
                self.marker as nat,
                4,
            ),
    {
        let mut s = String::new();
        push_str(&mut s, "lost sync at offset ");
        push_dec(&mut s, self.offset);
        push_str(&mut s, ": marker=0x");
        push_hex(&mut s, self.marker as u64, 4);
        proof {
            assert(s@ =~= "lost sync at offset "@ + text::dec(self.offset as nat) + ": marker=0x"@
                + text::hex(self.marker as nat, 4));
        }
        s
    }
}

/// A message: its header, and where its body is in the file.
#[derive(Clone, Copy, Debug, PartialEq, Eq, Structural)]
pub struct Message {
    pub hdr: MessageHeader,
    pub start: u64,
    pub end: u64,
}

/// The message at `off`.
pub open spec fn message_from(b: Seq<u8>, off: int) -> Message {
    let hdr = header_at(b, off, off as u64);
    Message { hdr, start: (off + 16) as u64, end: (off + 16 + hdr.size) as u64 }
}

/// The messages from `off` on, up to the first that is cut off by the end of
/// the file, and the place where the next one was expected and not found.
pub open spec fn messages_from(b: Seq<u8>, off: int) -> (Seq<Message>, Option<SyncError>)
    decreases b.len() - off,
{
    if off < 0 || off + 16 > b.len() {
        (Seq::empty(), None)
    } else if bytes::u16_at(b, off, true) != MARKER {
        (
            Seq::empty(),
            Some(SyncError { offset: off as u64, marker: bytes::u16_at(b, off, true) as u16 }),
        )
    } else {
        let end = off + 16 + bytes::u32_at(b, off + 12, true);
        if end > b.len() {
            (Seq::empty(), None)
        } else {
            let (rest, e) = messages_from(b, end);
            (seq![message_from(b, off)] + rest, e)
        }
    }
}

/// The messages of a file, and the place where it lost sync, if it did.
#[derive(Debug)]
pub struct Walk {
    pub messages: Vec<Message>,
    pub lost: Option<SyncError>,
}

/// Walk every message header in a file. Stops at the first lost sync or
/// truncated message.
pub fn walk(b: &[u8]) -> (w: Walk)
    ensures
        (w.messages@, w.lost) == messages_from(b@, 0),
{
    let len: u64 = b.len() as u64;
    let mut messages: Vec<Message> = Vec::new();
    let mut off: u64 = 0;
    let ghost whole = messages_from(b@, 0);
    proof {
        assert(messages@ + whole.0 =~= whole.0);
    }
    while off <= len && 16 <= len - off
        invariant
            len == b@.len(),
            len == b.len(),
            off <= len,
            whole == messages_from(b@, 0),
            whole.0 == messages@ + messages_from(b@, off as int).0,
            whole.1 == messages_from(b@, off as int).1,
        decreases len - off,
    {
        let at: usize = off as usize;
        let marker: u16 = match u16le(b, at) {
            Some(v) => v,
            None => 0,
        };
        if marker != MARKER {
            proof {
                assert(messages@ + Seq::<Message>::empty() =~= messages@);
            }
            return Walk { messages, lost: Some(SyncError { offset: off, marker }) };
        }
        let hdr = read_header(b, at, off);
        let start: u64 = off + 16;
        if hdr.size as u64 > len - start {
            proof {
                assert(messages@ + Seq::<Message>::empty() =~= messages@);
            }
            return Walk { messages, lost: None };
        }
        let end: u64 = start + hdr.size as u64;
        let ghost before = messages@;
        messages.push(Message { hdr, start, end });
        proof {
            let rest = messages_from(b@, end as int).0;
            assert(before + (seq![message_from(b@, off as int)] + rest) =~= messages@ + rest);
        }
        off = end;
    }
    proof {
        assert(messages@ + Seq::<Message>::empty() =~= messages@);
    }
    Walk { messages, lost: None }
}

/// The single message that starts at `offset`, its body cut to the file.
pub open spec fn single_message(b: Seq<u8>, off: int) -> Option<Message> {
    if off + 16 > b.len() || bytes::u16_at(b, off, true) != MARKER {
        None
    } else {
        let hdr = header_at(b, off, off as u64);
        let end = off + 16 + hdr.size;
        Some(
            Message {
                hdr,
                start: (off + 16) as u64,
                end: (if end < b.len() {
                    end
                } else {
                    b.len() as int
                }) as u64,
            },
        )
    }
}

/// Find the single message that starts at `offset`.
pub fn message_at(b: &[u8], offset: u64) -> (r: Option<Message>)
    ensures
        r == single_message(b@, offset as int),
{
    let len: u64 = b.len() as u64;
    if offset > len || len - offset < 16 {
        return None;
    }
    let at: usize = offset as usize;
    match u16le(b, at) {
        Some(MARKER) => {},
        _ => {
            return None;
        },
    }
    let hdr = read_header(b, at, offset);
    let start: u64 = offset + 16;
    let end: u64 = if hdr.size as u64 > len - start { len } else { start + hdr.size as u64 };
    Some(Message { hdr, start, end })
}

// ---- sonar data -----------------------------------------------------------------

// Validity bitmap, bytes 30-31 of the sonar-data body.
pub const V_POSITION: u16 = 1;

pub const V_COURSE: u16 = 2;

pub const V_SPEED: u16 = 4;

pub const V_HEADING: u16 = 8;

pub const V_PRESSURE: u16 = 16;

pub const V_PITCHROLL: u16 = 32;

pub const V_ALTITUDE: u16 = 64;

pub const V_DEPTH: u16 = 512;

pub const V_POS_INTERPOLATED: u16 = 8192;

/// Whether a bitmap has a flag, a power of two.
pub open spec fn flagged(v: u16, flag: u16) -> bool {
    v as int / flag as int % 2 == 1
}

/// Whether a bitmap has a flag, a power of two.
pub fn has_flag(v: u16, flag: u16) -> (r: bool)
    requires
        flag > 0,
    ensures
        r == flagged(v, flag),
{
    v / flag % 2 == 1
}

/// Trace values as they are stored: I and Q of each sample, or its envelope.
#[derive(Debug)]
pub enum Samples {
    Pairs(Vec<(i16, i16)>),
    Signed(Vec<i16>),
    Unsigned(Vec<u16>),
}

/// How many whole samples of `size` bytes there are in `len` bytes, up to `n`.
pub open spec fn whole_samples(len: int, size: int, n: int) -> int {
    if len / size < n {
        len / size
    } else {
        n
    }
}

/// Whether samples are those of `raw`, as many as are whole and at most `n`.
pub open spec fn samples_of(s: Samples, raw: Seq<u8>, fmt: DataFormat, n: int) -> bool {
    if fmt.per_sample == 2 {
        s matches Samples::Pairs(v) && v@ == Seq::new(
            whole_samples(raw.len() as int, 4, n) as nat,
            |i: int| (bytes::i16_at(raw, 4 * i) as i16, bytes::i16_at(raw, 4 * i + 2) as i16),
        )
    } else if fmt.signed {
        s matches Samples::Signed(v) && v@ == Seq::new(
            whole_samples(raw.len() as int, 2, n) as nat,
            |i: int| bytes::i16_at(raw, 2 * i) as i16,
        )
    } else {
        s matches Samples::Unsigned(v) && v@ == Seq::new(
            whole_samples(raw.len() as int, 2, n) as nat,
            |i: int| bytes::u16_at(raw, 2 * i, true) as u16,
        )
    }
}

/// Read trace values, as many as are whole and at most `nsamples`.
pub fn decode_samples(raw: &[u8], fmt: DataFormat, nsamples: usize) -> (s: Samples)
    ensures
        samples_of(s, raw@, fmt, nsamples as int),
{
    if fmt.per_sample == 2 {
        let whole: usize = raw.len() / 4;
        let n: usize = if whole < nsamples { whole } else { nsamples };
        let mut v: Vec<(i16, i16)> = Vec::new();
        let mut i: usize = 0;
        while i < n
            invariant
                i <= n,
                4 * n <= raw.len(),
                v@.len() == i,
                forall|j: int|
                    0 <= j < i ==> #[trigger] v@[j] == (
                        bytes::i16_at(raw@, 4 * j) as i16,
                        bytes::i16_at(raw@, 4 * j + 2) as i16,
                    ),
            decreases n - i,
        {
            let a: i16 = match i16le(raw, 4 * i) {
                Some(x) => x,
                None => 0,
            };
            let b: i16 = match i16le(raw, 4 * i + 2) {
                Some(x) => x,
                None => 0,
            };
            v.push((a, b));
            i += 1;
        }
        proof {
            assert(v@ =~= Seq::new(
                n as nat,
                |i: int| (bytes::i16_at(raw@, 4 * i) as i16, bytes::i16_at(raw@, 4 * i + 2) as i16),
            ));
        }
        return Samples::Pairs(v);
    }
    let whole: usize = raw.len() / 2;
    let n: usize = if whole < nsamples { whole } else { nsamples };
    let mut signed: Vec<i16> = Vec::new();
    let mut plain: Vec<u16> = Vec::new();
    let mut i: usize = 0;
    while i < n
        invariant
            i <= n,
            2 * n <= raw.len(),
            signed@.len() == i,
            plain@.len() == i,
            forall|j: int|
                0 <= j < i ==> #[trigger] signed@[j] == bytes::i16_at(raw@, 2 * j) as i16,
            forall|j: int|
                0 <= j < i ==> #[trigger] plain@[j] == bytes::u16_at(raw@, 2 * j, true) as u16,
        decreases n - i,
    {
        let x: u16 = match u16le(raw, 2 * i) {
            Some(x) => x,
            None => 0,
        };
        signed.push(signed16(x));
        plain.push(x);
        i += 1;
    }
    proof {
        assert(signed@ =~= Seq::new(n as nat, |i: int| bytes::i16_at(raw@, 2 * i) as i16));
        assert(plain@ =~= Seq::new(n as nat, |i: int| bytes::u16_at(raw@, 2 * i, true) as u16));
    }
    if fmt.signed {
        Samples::Signed(signed)
    } else {
        Samples::Unsigned(plain)
    }
}

/// One sonar-data message: header fields as they are stored, and the trace.
#[derive(Debug)]
pub struct Ping {
    pub offset: u64,
    pub subsystem: u8,
    pub channel: u8,
    /// Whole seconds since the Unix epoch.
    pub unix_time: i32,
    /// Milliseconds since midnight, whose sub-second part belongs to the time.
    pub millis_today: u32,
    /// Broken-down UTC from the ping's own fields, which is a different clock
    /// reading from `unix_time` and occasionally disagrees with it.
    pub ymd_hms: Option<(i32, u32, u32, u32, u32, u32)>,
    pub ping_number: u32,
    pub nsamples: u16,
    pub start_depth: u32,
    pub sample_interval_ns: u32,
    pub weighting_factor: i16,
    /// Position, in the unit that `coord_units` says.
    pub longitude: i32,
    pub latitude: i32,
    pub coord_units: i16,
    /// Hundredths of a degree.
    pub heading: u16,
    /// Units of 180/32768 degrees.
    pub pitch: i16,
    pub roll: i16,
    /// Millimetres.
    pub depth_mm: i32,
    pub altitude_mm: i32,
    /// Thousandths of a pound per square inch.
    pub pressure: i32,
    /// Tens of hertz.
    pub start_freq: u16,
    pub end_freq: u16,
    /// Bits of a single-precision number.
    pub mixer_freq_bits: u32,
    pub sound_speed_bits: u32,
    pub course: i16,
    /// Tenths of a knot.
    pub speed: i16,
    pub gain: u16,
    pub max_adc: u16,
    pub data_format: i16,
    pub validity: u16,
    pub software_version: String,
    pub samples: Samples,
}

/// The bytes up to the first zero.
pub open spec fn up_to_zero(b: Seq<u8>) -> Seq<u8>
    decreases b.len(),
{
    if b.len() == 0 || b[0] == 0 {
        Seq::empty()
    } else {
        seq![b[0]] + up_to_zero(b.skip(1))
    }
}

/// Whether a body's own date and time are ones a recording could carry.
pub open spec fn clock_plausible(b: Seq<u8>) -> bool {
    &&& 1970 <= bytes::i16_at(b, 156) <= 2100
    &&& 1 <= bytes::i16_at(b, 158) <= 366
    &&& 0 <= bytes::i16_at(b, 160) < 24
    &&& 0 <= bytes::i16_at(b, 162) < 60
    &&& 0 <= bytes::i16_at(b, 164) < 62
}

/// Whether a body can be read: it is long enough, and a plausible date is one
/// of its year.
pub open spec fn ping_readable(b: Seq<u8>) -> bool {
    &&& b.len() >= SONAR_HDR_SIZE
    &&& clock_plausible(b) ==> bytes::i16_at(b, 158) <= time::year_len(bytes::i16_at(b, 156))
}

/// Whether broken-down time is what a body says.
pub open spec fn clock_of(b: Seq<u8>, t: Option<(i32, u32, u32, u32, u32, u32)>) -> bool {
    if clock_plausible(b) {
        t matches Some(x) && {
            &&& x.0 == bytes::i16_at(b, 156)
            &&& time::valid_date(x.0 as int, x.1 as int, x.2 as int)
            &&& time::days_before_month(x.0 as int, x.1 as int) + x.2 == bytes::i16_at(b, 158)
            &&& x.3 == bytes::i16_at(b, 160)
            &&& x.4 == bytes::i16_at(b, 162)
            &&& x.5 == bytes::i16_at(b, 164)
        }
    } else {
        t is None
    }
}

/// Where a body's trace ends.
pub open spec fn trace_end(b: Seq<u8>) -> int {
    let fmt = format_of(bytes::i16_at(b, 34) as i16);
    let end = SONAR_HDR_SIZE + bytes::u16_at(b, 114, true) * 2 * fmt.per_sample;
    if end < b.len() {
        end
    } else {
        b.len() as int
    }
}

/// Whether a ping is what a header and a body say.
pub open spec fn ping_of(p: Ping, h: MessageHeader, b: Seq<u8>) -> bool {
    &&& p.offset == h.offset
    &&& p.subsystem == h.subsystem
    &&& p.channel == h.channel
    &&& p.unix_time == bytes::i32_at(b, 0)
    &&& p.start_depth == bytes::u32_at(b, 4, true)
    &&& p.ping_number == bytes::u32_at(b, 8, true)
    &&& p.validity == bytes::u16_at(b, 30, true)
    &&& p.data_format == bytes::i16_at(b, 34)
    &&& p.longitude == bytes::i32_at(b, 80)
    &&& p.latitude == bytes::i32_at(b, 84)
    &&& p.coord_units == bytes::i16_at(b, 88)
    &&& p.nsamples == bytes::u16_at(b, 114, true)
    &&& p.sample_interval_ns == bytes::u32_at(b, 116, true)
    &&& p.gain == bytes::u16_at(b, 120, true)
    &&& p.start_freq == bytes::u16_at(b, 126, true)
    &&& p.end_freq == bytes::u16_at(b, 128, true)
    &&& p.pressure == bytes::i32_at(b, 132)
    &&& p.depth_mm == bytes::i32_at(b, 136)
    &&& p.altitude_mm == bytes::i32_at(b, 144)
    &&& p.sound_speed_bits == bytes::u32_at(b, 148, true)
    &&& p.mixer_freq_bits == bytes::u32_at(b, 152, true)
    &&& clock_of(b, p.ymd_hms)
    &&& p.weighting_factor == bytes::i16_at(b, 168)
    &&& p.heading == bytes::u16_at(b, 172, true)
    &&& p.pitch == bytes::i16_at(b, 174)
    &&& p.roll == bytes::i16_at(b, 176)
    &&& p.course == bytes::i16_at(b, 192)
    &&& p.speed == bytes::i16_at(b, 194)
    &&& p.millis_today == bytes::u32_at(b, 200, true)
    &&& p.max_adc == bytes::u16_at(b, 204, true)
    &&& p.software_version@ == text::lossy_text(up_to_zero(b.subrange(210, 216)))
    &&& samples_of(
        p.samples,
        b.subrange(SONAR_HDR_SIZE as int, trace_end(b)),
        format_of(p.data_format),
        p.nsamples as int,
    )
}

/// The bytes up to the first zero.
pub(crate) fn bytes_to_zero(b: &[u8], from: usize, to: usize) -> (v: Vec<u8>)
    requires
        from <= to <= b@.len(),
    ensures
        v@ == up_to_zero(b@.subrange(from as int, to as int)),
{
    let ghost all = b@.subrange(from as int, to as int);
    let mut i: usize = from;
    proof {
        assert(b@.subrange(from as int, from as int) + up_to_zero(all) =~= up_to_zero(all));
    }
    while i < to && b[i] != 0
        invariant
            from <= i <= to <= b@.len(),
            up_to_zero(all) == b@.subrange(from as int, i as int) + up_to_zero(
                b@.subrange(i as int, to as int),
            ),
        decreases to - i,
    {
        proof {
            let rest = b@.subrange(i as int, to as int);
            assert(rest.skip(1) =~= b@.subrange(i + 1, to as int));
            assert(b@.subrange(from as int, i as int) + (seq![b@[i as int]] + up_to_zero(
                b@.subrange(i + 1, to as int),
            )) =~= b@.subrange(from as int, i + 1) + up_to_zero(b@.subrange(i + 1, to as int)));
        }
        i += 1;
    }
    proof {
        assert(b@.subrange(from as int, i as int) + Seq::<u8>::empty() =~= b@.subrange(
            from as int,
            i as int,
        ));
    }
    slice_to_vec(b, from, i)
}

fn le16(b: &[u8], o: usize) -> (v: u16)
    requires
        o + 2 <= b.len(),
    ensures
        v == bytes::u16_at(b@, o as int, true),
{
    match u16le(b, o) {
        Some(v) => v,
        None => 0,
    }
}

fn si16(b: &[u8], o: usize) -> (v: i16)
    requires
        o + 2 <= b.len(),
    ensures
        v == bytes::i16_at(b@, o as int),
{
    match i16le(b, o) {
        Some(v) => v,
        None => 0,
    }
}

fn le32(b: &[u8], o: usize) -> (v: u32)
    requires
        o + 4 <= b.len(),
    ensures
        v == bytes::u32_at(b@, o as int, true),
{
    match u32le(b, o) {
        Some(v) => v,
        None => 0,
    }
}

fn si32(b: &[u8], o: usize) -> (v: i32)
    requires
        o + 4 <= b.len(),
    ensures
        v == bytes::i32_at(b@, o as int),
{
    match i32le(b, o) {
        Some(v) => v,
        None => 0,
    }
}

/// The broken-down time of a body, or none where its date is not one of its
/// year.
fn read_clock(b: &[u8]) -> (r: Option<Option<(i32, u32, u32, u32, u32, u32)>>)
    requires
        b.len() >= SONAR_HDR_SIZE,
    ensures
        r is Some <==> ping_readable(b@),
        r matches Some(t) ==> clock_of(b@, t),
{
    let (year, doy) = (si16(b, 156), si16(b, 158));
    let (hh, mm, ss) = (si16(b, 160), si16(b, 162), si16(b, 164));
    if year < 1970 || year > 2100 || doy < 1 || doy > 366 || hh < 0 || hh >= 24 || mm < 0 || mm
        >= 60 || ss < 0 || ss >= 62 {
        return Some(None);
    }
    match month_day(year as i32, doy as u32) {
        None => None,
        Some((m, d)) => Some(Some((year as i32, m, d, hh as u32, mm as u32, ss as u32))),
    }
}

/// Read a sonar-data body.
pub fn parse_sonar_message(hdr: &MessageHeader, body: &[u8]) -> (r: Option<Ping>)
    ensures
        r is Some <==> ping_readable(body@),
        r matches Some(p) ==> ping_of(p, *hdr, body@),
{
    if body.len() < SONAR_HDR_SIZE {
        return None;
    }
    let ymd_hms = match read_clock(body) {
        None => {
            return None;
        },
        Some(t) => t,
    };
    let nsamples = le16(body, 114);
    let data_format = si16(body, 34);
    let fmt = DataFormat::from_code(data_format);
    proof {
        assert(fmt.per_sample == 1 || fmt.per_sample == 2);
        assert(nsamples * 2 * fmt.per_sample <= 262140) by (nonlinear_arith)
            requires
                0 <= nsamples <= 65535,
                1 <= fmt.per_sample <= 2,
        ;
    }
    let nbytes = fmt.nbytes(nsamples as usize);
    let end: usize = if nbytes < body.len() - SONAR_HDR_SIZE {
        SONAR_HDR_SIZE + nbytes
    } else {
        body.len()
    };
    let raw = slice_to_vec(body, SONAR_HDR_SIZE, end);
    let samples = decode_samples(raw.as_slice(), fmt, nsamples as usize);
    let sw = bytes_to_zero(body, 210, 216);
    let software_version = from_utf8_lossy(sw.as_slice());
    Some(
        Ping {
            offset: hdr.offset,
            subsystem: hdr.subsystem,
            channel: hdr.channel,
            unix_time: si32(body, 0),
            millis_today: le32(body, 200),
            ymd_hms,
            ping_number: le32(body, 8),
            nsamples,
            start_depth: le32(body, 4),
            sample_interval_ns: le32(body, 116),
            weighting_factor: si16(body, 168),
            longitude: si32(body, 80),
            latitude: si32(body, 84),
            coord_units: si16(body, 88),
            heading: le16(body, 172),
            pitch: si16(body, 174),
            roll: si16(body, 176),
            depth_mm: si32(body, 136),
            altitude_mm: si32(body, 144),
            pressure: si32(body, 132),
            start_freq: le16(body, 126),
            end_freq: le16(body, 128),
            mixer_freq_bits: le32(body, 152),
            sound_speed_bits: le32(body, 148),
            course: si16(body, 192),
            speed: si16(body, 194),
            gain: le16(body, 120),
            max_adc: le16(body, 204),
            data_format,
            validity: le16(body, 30),
            software_version,
            samples,
        },
    )
}

impl Ping {
    /// Whether the sonar's own bottom track is filled in. A zero altitude means
    /// that it is not, and the validity bitmap confirms it.
    pub fn altitude_valid(&self) -> (r: bool)
        ensures
            r == (flagged(self.validity, V_ALTITUDE) && self.altitude_mm > 0),
    {
        has_flag(self.validity, V_ALTITUDE) && self.altitude_mm > 0
    }
}

/// The sonar ping at `offset` of a file, or none if that is not one.
pub fn ping_at(b: &[u8], offset: u64) -> (r: Option<Ping>)
    ensures
        match single_message(b@, offset as int) {
            None => r is None,
            Some(m) => {
                let body = b@.subrange(m.start as int, m.end as int);
                if m.hdr.mtype != 80 || !ping_readable(body) {
                    r is None
                } else {
                    r matches Some(p) && ping_of(p, m.hdr, body)
                }
            },
        },
{
    let len: u64 = b.len() as u64;
    let m = match message_at(b, offset) {
        None => {
            return None;
        },
        Some(m) => m,
    };
    proof {
        assert(m.start <= m.end && m.end <= len);
    }
    if m.hdr.mtype != 80 {
        return None;
    }
    let body = slice_to_vec(b, m.start as usize, m.end as usize);
    parse_sonar_message(&m.hdr, body.as_slice())
}

// ---- NMEA -------------------------------------------------------------------------

/// The sentence of an NMEA message's body: a time, eight bytes passed over, and
/// text up to a zero.
pub open spec fn sentence_of(b: Seq<u8>) -> (int, Seq<char>) {
    (
        bytes::i32_at(b, 0),
        text::trimmed(text::lossy_text(up_to_zero(b.subrange(12, b.len() as int)))),
    )
}

/// Whether a message is an NMEA sentence.
pub open spec fn is_nmea(m: Message) -> bool {
    m.hdr.mtype == 2002 && m.end - m.start > 12
}

/// The sentences among some messages.
pub open spec fn sentences(b: Seq<u8>, ms: Seq<Message>) -> Seq<(int, Seq<char>)>
    decreases ms.len(),
{
    if ms.len() == 0 {
        Seq::empty()
    } else {
        let front = sentences(b, ms.drop_last());
        let m = ms.last();
        if is_nmea(m) {
            front.push(sentence_of(b.subrange(m.start as int, m.end as int)))
        } else {
            front
        }
    }
}

pub open spec fn sentence_views(v: Seq<(i32, String)>) -> Seq<(int, Seq<char>)> {
    v.map_values(|x: (i32, String)| (x.0 as int, x.1@))
}

/// The messages of a walk lie in the file.
pub proof fn lemma_messages_inside(b: Seq<u8>, off: int)
    requires
        0 <= off,
        b.len() <= u64::MAX,
    ensures
        forall|i: int|
            0 <= i < messages_from(b, off).0.len() ==> (#[trigger] messages_from(
                b,
                off,
            ).0[i]).start <= messages_from(b, off).0[i].end && messages_from(b, off).0[i].end
                <= b.len(),
    decreases b.len() - off,
{
    if off + 16 <= b.len() && bytes::u16_at(b, off, true) == MARKER {
        let end = off + 16 + bytes::u32_at(b, off + 12, true);
        if end <= b.len() {
            lemma_messages_inside(b, end);
            let rest = messages_from(b, end).0;
            let all = messages_from(b, off).0;
            assert forall|i: int| 0 <= i < all.len() implies (#[trigger] all[i]).start
                <= all[i].end && all[i].end <= b.len() by {
                if i > 0 {
                    assert(all[i] == rest[i - 1]);
                }
            }
        }
    }
}

/// Every NMEA sentence of a file, as (unix seconds, sentence).
pub fn nmea(b: &[u8]) -> (r: Vec<(i32, String)>)
    ensures
        sentence_views(r@) == sentences(b@, messages_from(b@, 0).0),
{
    let w = walk(b);
    let n: usize = b.len();
    let mut out: Vec<(i32, String)> = Vec::new();
    let mut i: usize = 0;
    proof {
        lemma_messages_inside(b@, 0);
        assert(w.messages@ == messages_from(b@, 0).0);
        assert(sentence_views(out@) =~= Seq::<(int, Seq<char>)>::empty());
    }
    while i < w.messages.len()
        invariant
            i <= w.messages@.len(),
            n == b@.len(),
            forall|j: int|
                0 <= j < w.messages@.len() ==> (#[trigger] w.messages@[j]).start
                    <= w.messages@[j].end && w.messages@[j].end <= b@.len(),
            sentence_views(out@) == sentences(b@, w.messages@.take(i as int)),
        decreases w.messages.len() - i,
    {
        let m = w.messages[i];
        proof {
            assert(w.messages@.take(i + 1).drop_last() =~= w.messages@.take(i as int));
        }
        if m.hdr.mtype == 2002 && m.end - m.start > 12 {
            let body = slice_to_vec(b, m.start as usize, m.end as usize);
            let t = si32(body.as_slice(), 0);
            let raw = bytes_to_zero(body.as_slice(), 12, body.len());
            let s = from_utf8_lossy(raw.as_slice());
            let s = text_of(trim(chars_of(s.as_str()).as_slice()).as_slice());
            let ghost before = out@;
            out.push((t, s));
            proof {
                assert(sentence_views(out@) =~= sentence_views(before).push((t as int, s@)));
            }
        }
        i += 1;
    }
    proof {
        assert(w.messages@.take(i as int) =~= w.messages@);
    }
    out
}

} // verus!
