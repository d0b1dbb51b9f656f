//! What holds of everything that is read from a recording.

use vstd::prelude::*;

use crate::bytes;
use crate::jsf;
use crate::jsf::{Message, MessageHeader, Ping, Samples};
use crate::text;
use crate::time;

verus! {

// ---- fields ------------------------------------------------------------------------

/// Writing the fields of a message header back, each in its place, gives the
/// bytes that they were read from.
pub proof fn law_header_is_written_back(b: Seq<u8>, at: int, offset: u64)
    requires
        0 <= at,
        at + 16 <= b.len(),
    ensures
        ({
            let h = jsf::header_at(b, at, offset);
            &&& h.offset == offset
            &&& bytes::carries(b, at + 2, seq![h.version, h.session])
            &&& bytes::carries(b, at + 4, bytes::le2(h.mtype as int))
            &&& bytes::carries(
                b,
                at + 6,
                seq![h.command, h.subsystem, h.channel, h.sequence],
            )
            &&& bytes::carries(b, at + 12, bytes::le4(h.size as int))
        }),
{
    let h = jsf::header_at(b, at, offset);
    bytes::law_read_two_bytes(b, at + 4);
    bytes::law_read_four_bytes(b, at + 12);
    assert(b.subrange(at + 2, at + 4) =~= seq![h.version, h.session]);
    assert(b.subrange(at + 6, at + 10) =~= seq![h.command, h.subsystem, h.channel, h.sequence]);
}

/// Writing the numbers of a ping back, each in its place, gives the bytes of the
/// body that they were read from; who sent it stands in the message's header.
pub proof fn law_ping_is_written_back(p: Ping, h: MessageHeader, b: Seq<u8>)
    requires
        jsf::ping_readable(b),
        jsf::ping_of(p, h, b),
    ensures
        (p.offset, p.subsystem, p.channel) == (h.offset, h.subsystem, h.channel),
        bytes::carries(b, 0, bytes::le4(p.unix_time as int)),
        bytes::carries(b, 4, bytes::le4(p.start_depth as int)),
        bytes::carries(b, 8, bytes::le4(p.ping_number as int)),
        bytes::carries(b, 30, bytes::le2(p.validity as int)),
        bytes::carries(b, 34, bytes::le2(p.data_format as int)),
        bytes::carries(b, 80, bytes::le4(p.longitude as int)),
        bytes::carries(b, 84, bytes::le4(p.latitude as int)),
        bytes::carries(b, 88, bytes::le2(p.coord_units as int)),
        bytes::carries(b, 114, bytes::le2(p.nsamples as int)),
        bytes::carries(b, 116, bytes::le4(p.sample_interval_ns as int)),
        bytes::carries(b, 120, bytes::le2(p.gain as int)),
        bytes::carries(b, 126, bytes::le2(p.start_freq as int)),
        bytes::carries(b, 128, bytes::le2(p.end_freq as int)),
        bytes::carries(b, 132, bytes::le4(p.pressure as int)),
        bytes::carries(b, 136, bytes::le4(p.depth_mm as int)),
        bytes::carries(b, 144, bytes::le4(p.altitude_mm as int)),
        bytes::carries(b, 148, bytes::le4(p.sound_speed_bits as int)),
        bytes::carries(b, 152, bytes::le4(p.mixer_freq_bits as int)),
        bytes::carries(b, 168, bytes::le2(p.weighting_factor as int)),
        bytes::carries(b, 172, bytes::le2(p.heading as int)),
        bytes::carries(b, 174, bytes::le2(p.pitch as int)),
        bytes::carries(b, 176, bytes::le2(p.roll as int)),
        bytes::carries(b, 192, bytes::le2(p.course as int)),
        bytes::carries(b, 194, bytes::le2(p.speed as int)),
        bytes::carries(b, 200, bytes::le4(p.millis_today as int)),
        bytes::carries(b, 204, bytes::le2(p.max_adc as int)),
{
    bytes::law_read_four_bytes(b, 0);
    bytes::law_read_four_bytes(b, 4);
    bytes::law_read_four_bytes(b, 8);
    bytes::law_read_two_bytes(b, 30);
    bytes::law_read_two_bytes(b, 34);
    bytes::law_read_four_bytes(b, 80);
    bytes::law_read_four_bytes(b, 84);
    bytes::law_read_two_bytes(b, 88);
    bytes::law_read_two_bytes(b, 114);
    bytes::law_read_four_bytes(b, 116);
    bytes::law_read_two_bytes(b, 120);
    bytes::law_read_two_bytes(b, 126);
    bytes::law_read_two_bytes(b, 128);
    bytes::law_read_four_bytes(b, 132);
    bytes::law_read_four_bytes(b, 136);
    bytes::law_read_four_bytes(b, 144);
    bytes::law_read_four_bytes(b, 148);
    bytes::law_read_four_bytes(b, 152);
    bytes::law_read_two_bytes(b, 168);
    bytes::law_read_two_bytes(b, 172);
    bytes::law_read_two_bytes(b, 174);
    bytes::law_read_two_bytes(b, 176);
    bytes::law_read_two_bytes(b, 192);
    bytes::law_read_two_bytes(b, 194);
    bytes::law_read_four_bytes(b, 200);
    bytes::law_read_two_bytes(b, 204);
}

/// A ping carries a date and a time just where the body's are ones that a
/// recording could carry, and then the day of the year, the hour, the minute and
/// the second are the body's.
pub proof fn law_ping_clock(p: Ping, h: MessageHeader, b: Seq<u8>)
    requires
        jsf::ping_readable(b),
        jsf::ping_of(p, h, b),
    ensures
        match p.ymd_hms {
            Some((y, m, d, hh, mm, ss)) => {
                &&& 1970 <= y <= 2100
                &&& 1 <= m <= 12
                &&& hh <= 23
                &&& mm <= 59
                &&& ss <= 61
                &&& bytes::carries(b, 156, bytes::le2(y as int))
                &&& bytes::carries(
                    b,
                    158,
                    bytes::le2(
                        time::civil_days(y as int, m as int, d as int) - time::civil_days(
                            y - 1,
                            12,
                            31,
                        ),
                    ),
                )
                &&& bytes::carries(b, 160, bytes::le2(hh as int))
                &&& bytes::carries(b, 162, bytes::le2(mm as int))
                &&& bytes::carries(b, 164, bytes::le2(ss as int))
            },
            None => {
                ||| bytes::i16_at(b, 156) < 1970
                ||| bytes::i16_at(b, 156) > 2100
                ||| bytes::i16_at(b, 158) < 1
                ||| bytes::i16_at(b, 158) > 366
                ||| bytes::i16_at(b, 160) < 0
                ||| bytes::i16_at(b, 160) > 23
                ||| bytes::i16_at(b, 162) < 0
                ||| bytes::i16_at(b, 162) > 59
                ||| bytes::i16_at(b, 164) < 0
                ||| bytes::i16_at(b, 164) > 61
            },
        },
{
    bytes::law_read_two_bytes(b, 156);
    bytes::law_read_two_bytes(b, 158);
    bytes::law_read_two_bytes(b, 160);
    bytes::law_read_two_bytes(b, 162);
    bytes::law_read_two_bytes(b, 164);
    match p.ymd_hms {
        Some((y, m, d, hh, mm, ss)) => {
            time::law_days_follow(y - 1, 12, 31);
            assert(time::days_before_month(y as int, 1) == 0);
        },
        None => {},
    }
}

proof fn lemma_low_bits(x: int, y: int)
    requires
        0 <= x < 256,
        0 <= y < 256,
    ensures
        (x + 256 * y) / 1 % 2 == x % 2,
        (x + 256 * y) / 8 % 2 == x / 8 % 2,
        (x + 256 * y) / 32 % 2 == x / 32 % 2,
        (x + 256 * y) / 64 % 2 == x / 64 % 2,
        (x + 256 * y) / 512 % 2 == y / 2 % 2,
        (x + 256 * y) / 8192 % 2 == y / 32 % 2,
{
    assert((x + 256 * y) / 8 == x / 8 + 32 * y);
    assert((x + 256 * y) / 32 == x / 32 + 8 * y);
    assert((x + 256 * y) / 64 == x / 64 + 4 * y);
    assert((x + 256 * y) / 512 == y / 2);
    assert((x + 256 * y) / 8192 == y / 32);
}

/// Which of a ping's values are filled in stands in bytes 30 and 31, a bit for
/// each.
pub proof fn law_validity_bits(p: Ping, h: MessageHeader, b: Seq<u8>)
    requires
        jsf::ping_readable(b),
        jsf::ping_of(p, h, b),
    ensures
        jsf::flagged(p.validity, jsf::V_ALTITUDE) <==> b[30] as int / 64 % 2 == 1,
        jsf::flagged(p.validity, jsf::V_POSITION) <==> b[30] as int % 2 == 1,
        jsf::flagged(p.validity, jsf::V_HEADING) <==> b[30] as int / 8 % 2 == 1,
        jsf::flagged(p.validity, jsf::V_PITCHROLL) <==> b[30] as int / 32 % 2 == 1,
        jsf::flagged(p.validity, jsf::V_DEPTH) <==> b[31] as int / 2 % 2 == 1,
        jsf::flagged(p.validity, jsf::V_POS_INTERPOLATED) <==> b[31] as int / 32 % 2 == 1,
{
    lemma_low_bits(b[30] as int, b[31] as int);
}

/// Text in a field of bytes is what stands before the first zero, or all of it
/// where there is none.
pub proof fn law_text_ends_at_zero(b: Seq<u8>)
    ensures
        jsf::up_to_zero(b).len() <= b.len(),
        jsf::up_to_zero(b) == b.take(jsf::up_to_zero(b).len() as int),
        !jsf::up_to_zero(b).contains(0),
        jsf::up_to_zero(b).len() < b.len() ==> b[jsf::up_to_zero(b).len() as int] == 0,
    decreases b.len(),
{
    let u = jsf::up_to_zero(b);
    if b.len() > 0 && b[0] != 0 {
        let rest = jsf::up_to_zero(b.skip(1));
        law_text_ends_at_zero(b.skip(1));
        assert(u =~= b.take(u.len() as int));
        if u.contains(0) {
            let j = choose|j: int| 0 <= j < u.len() && u[j] == 0;
            assert(rest[j - 1] == 0);
        }
    } else {
        assert(u =~= b.take(0));
    }
}

/// The version of the software stands in six bytes from byte 210 on.
pub proof fn law_ping_software(p: Ping, q: Ping, h: MessageHeader, b: Seq<u8>, c: Seq<u8>)
    requires
        jsf::ping_readable(b),
        jsf::ping_of(p, h, b),
        jsf::ping_readable(c),
        jsf::ping_of(q, h, c),
        forall|i: int| 210 <= i < 216 ==> b[i] == c[i],
    ensures
        p.software_version@ == q.software_version@,
        b[210] == 0 ==> p.software_version@ == text::lossy_text(Seq::empty()),
        (b[215] == 0 && forall|i: int| 210 <= i < 215 ==> b[i] != 0) ==> p.software_version@
            == text::lossy_text(b.subrange(210, 215)),
{
    let x = b.subrange(210, 216);
    assert(x =~= c.subrange(210, 216));
    law_text_ends_at_zero(x);
    let u = jsf::up_to_zero(x);
    if b[210] == 0 {
        assert(x[0] == 0);
        if u.len() > 0 {
            assert(u[0] == 0 && u.contains(0));
        }
        assert(u =~= Seq::<u8>::empty());
    }
    if b[215] == 0 && forall|i: int| 210 <= i < 215 ==> b[i] != 0 {
        if u.len() > 5 {
            assert(x[5] == b[215]);
            assert(u[5] == x[5]);
            assert(u.contains(u[5]));
        }
        if u.len() < 5 {
            assert(x[u.len() as int] == b[210int + u.len()]);
        }
        assert(u =~= b.subrange(210, 215));
    }
}

// ---- the trace ---------------------------------------------------------------------

/// How many samples there are.
pub open spec fn sample_count(s: Samples) -> nat {
    match s {
        Samples::Pairs(v) => v@.len(),
        Samples::Signed(v) => v@.len(),
        Samples::Unsigned(v) => v@.len(),
    }
}

/// The bytes that sample `i` is stored in.
pub open spec fn stored_sample(s: Samples, i: int) -> Seq<u8> {
    match s {
        Samples::Pairs(v) => bytes::le2(v@[i].0 as int) + bytes::le2(v@[i].1 as int),
        Samples::Signed(v) => bytes::le2(v@[i] as int),
        Samples::Unsigned(v) => bytes::le2(v@[i] as int),
    }
}

/// How long a sample of a data format is: four bytes for a pair, and else two.
pub open spec fn sample_bytes(data_format: int) -> int {
    if data_format == 1 {
        4
    } else {
        2
    }
}

/// Every sample that lies whole in the body is read, from byte 240 on, and is
/// what is stored there; none is made up, and none beyond the number that the
/// body gives.
pub proof fn law_every_whole_sample_is_read(p: Ping, h: MessageHeader, b: Seq<u8>, i: int)
    requires
        jsf::ping_readable(b),
        jsf::ping_of(p, h, b),
        0 <= i < p.nsamples,
    ensures
        sample_count(p.samples) <= p.nsamples,
        i < sample_count(p.samples) <==> 240 + sample_bytes(p.data_format as int) * (i + 1)
            <= b.len(),
        i < sample_count(p.samples) ==> bytes::carries(
            b,
            240 + sample_bytes(p.data_format as int) * i,
            stored_sample(p.samples, i),
        ),
        p.samples is Pairs <==> p.data_format == 1,
        p.samples is Unsigned <==> p.data_format == 9,
{
    bytes::law_read_two_bytes(b, 114);
    let n = p.nsamples as int;
    let end = jsf::trace_end(b);
    let raw = b.subrange(240, end);
    let size = sample_bytes(p.data_format as int);
    assert(raw.len() == end - 240);
    if i < sample_count(p.samples) {
        let o = size * i;
        assert(o + size <= raw.len());
        assert(raw[o] == b[240 + o] && raw[o + 1] == b[241 + o]);
        bytes::law_read_two_bytes(b, 240 + o);
        bytes::lemma_le_lens(bytes::i16_at(b, 240 + o));
        if size == 4 {
            assert(raw[o + 2] == b[242 + o] && raw[o + 3] == b[243 + o]);
            bytes::law_read_two_bytes(b, 242 + o);
            bytes::lemma_le_lens(bytes::i16_at(b, 242 + o));
            assert(b.subrange(240 + o, 244 + o) =~= b.subrange(240 + o, 242 + o) + b.subrange(
                242 + o,
                244 + o,
            ));
        }
    }
}

/// A ping whose body is complete has all its samples.
pub proof fn law_complete_trace(p: Ping, h: MessageHeader, b: Seq<u8>)
    requires
        jsf::ping_readable(b),
        jsf::ping_of(p, h, b),
        b.len() >= 240 + p.nsamples * 2 * (if p.data_format == 1 {
            2int
        } else {
            1int
        }),
    ensures
        sample_count(p.samples) == p.nsamples,
        match p.samples {
            Samples::Pairs(v) => forall|i: int|
                0 <= i < p.nsamples ==> (#[trigger] v@[i]).0 == bytes::i16_at(b, 240 + 4 * i)
                    && v@[i].1 == bytes::i16_at(b, 242 + 4 * i),
            Samples::Signed(v) => forall|i: int|
                0 <= i < p.nsamples ==> #[trigger] v@[i] == bytes::i16_at(b, 240 + 2 * i),
            Samples::Unsigned(v) => forall|i: int|
                0 <= i < p.nsamples ==> #[trigger] v@[i] == bytes::u16_at(b, 240 + 2 * i, true),
        },
{
    let n = p.nsamples as int;
    if n > 0 {
        law_every_whole_sample_is_read(p, h, b, n - 1);
    }
    bytes::law_read_two_bytes(b, 114);
    let raw = b.subrange(240, jsf::trace_end(b));
    match p.samples {
        Samples::Pairs(v) => {
            assert forall|i: int| 0 <= i < n implies (#[trigger] v@[i]).0 == bytes::i16_at(
                b,
                240 + 4 * i,
            ) && v@[i].1 == bytes::i16_at(b, 242 + 4 * i) by {
                assert(raw[4 * i] == b[240 + 4 * i] && raw[4 * i + 1] == b[241 + 4 * i]);
                assert(raw[4 * i + 2] == b[242 + 4 * i] && raw[4 * i + 3] == b[243 + 4 * i]);
            }
        },
        Samples::Signed(v) => {
            assert forall|i: int| 0 <= i < n implies #[trigger] v@[i] == bytes::i16_at(
                b,
                240 + 2 * i,
            ) by {
                assert(raw[2 * i] == b[240 + 2 * i] && raw[2 * i + 1] == b[241 + 2 * i]);
            }
        },
        Samples::Unsigned(v) => {
            assert forall|i: int| 0 <= i < n implies #[trigger] v@[i] == bytes::u16_at(
                b,
                240 + 2 * i,
                true,
            ) by {
                assert(raw[2 * i] == b[240 + 2 * i] && raw[2 * i + 1] == b[241 + 2 * i]);
            }
        },
    }
}

// ---- the messages of a file ----------------------------------------------------------

/// Messages follow one another without a gap, each behind a marker and as long
/// as its header says; the walk ends where there is no room for another header,
/// where there is no marker, or where a message is cut off.
pub proof fn law_messages_tile(b: Seq<u8>, off: int)
    requires
        0 <= off <= b.len(),
        b.len() <= u64::MAX,
    ensures
        ({
            let (ms, lost) = jsf::messages_from(b, off);
            let stop = if ms.len() > 0 {
                ms.last().end as int
            } else {
                off
            };
            &&& ms.len() > 0 ==> ms[0].hdr.offset == off
            &&& forall|k: int|
                0 <= k < ms.len() ==> {
                    let m = #[trigger] ms[k];
                    &&& bytes::carries(b, m.hdr.offset as int, seq![0x01u8, 0x16u8])
                    &&& m.hdr == jsf::header_at(b, m.hdr.offset as int, m.hdr.offset)
                    &&& m.start == m.hdr.offset + 16
                    &&& m.end == m.start + m.hdr.size
                    &&& m.end <= b.len()
                }
            &&& forall|k: int, l: int|
                0 <= k && l == k + 1 && l < ms.len() ==> (#[trigger] ms[l]).hdr.offset == (
                #[trigger] ms[k]).end
            &&& match lost {
                Some(e) => {
                    &&& e.offset == stop
                    &&& stop + 16 <= b.len()
                    &&& bytes::carries(b, stop, bytes::le2(e.marker as int))
                    &&& !bytes::carries(b, stop, seq![0x01u8, 0x16u8])
                },
                None => stop + 16 > b.len() || (bytes::carries(b, stop, seq![0x01u8, 0x16u8])
                    && stop + 16 + jsf::header_at(b, stop, 0).size > b.len()),
            }
        }),
    decreases b.len() - off,
{
    let (ms, lost) = jsf::messages_from(b, off);
    if off + 16 <= b.len() {
        bytes::law_read_two_bytes(b, off);
        bytes::law_read_four_bytes(b, off + 12);
        lemma_marker(b, off);
        let end = off + 16 + bytes::u32_at(b, off + 12, true);
        if bytes::u16_at(b, off, true) == jsf::MARKER && end <= b.len() {
            law_messages_tile(b, end);
            let (rest, e) = jsf::messages_from(b, end);
            let m = jsf::message_from(b, off);
            assert(ms == seq![m] + rest);
            assert forall|k: int| 0 <= k < ms.len() implies {
                let m = #[trigger] ms[k];
                &&& bytes::carries(b, m.hdr.offset as int, seq![0x01u8, 0x16u8])
                &&& m.hdr == jsf::header_at(b, m.hdr.offset as int, m.hdr.offset)
                &&& m.start == m.hdr.offset + 16
                &&& m.end == m.start + m.hdr.size
                &&& m.end <= b.len()
            } by {
                if k > 0 {
                    assert(ms[k] == rest[k - 1]);
                }
            }
            assert forall|k: int, l: int| 0 <= k && l == k + 1 && l < ms.len() implies (
            #[trigger] ms[l]).hdr.offset == (#[trigger] ms[k]).end by {
                assert(ms[l] == rest[l - 1]);
                if k > 0 {
                    assert(ms[k] == rest[k - 1]);
                }
            }
            if rest.len() > 0 {
                assert(ms.last() == rest.last());
            }
        }
    }
}

proof fn lemma_marker(b: Seq<u8>, o: int)
    requires
        0 <= o,
        o + 2 <= b.len(),
    ensures
        bytes::carries(b, o, seq![0x01u8, 0x16u8]) <==> bytes::u16_at(b, o, true) == 0x1601,
{
    let w = b.subrange(o, o + 2);
    assert(w[0] == b[o] && w[1] == b[o + 1]);
    if bytes::u16_at(b, o, true) == 0x1601 {
        assert(w =~= seq![0x01u8, 0x16u8]);
    }
    if bytes::carries(b, o, seq![0x01u8, 0x16u8]) {
        assert(w == seq![0x01u8, 0x16u8]);
        assert(w[0] == 0x01 && w[1] == 0x16);
    }
}

/// A message that the walk finds is found again by its offset.
pub proof fn law_walked_is_found(b: Seq<u8>, k: int)
    requires
        b.len() <= u64::MAX,
        0 <= k < jsf::messages_from(b, 0).0.len(),
    ensures
        jsf::single_message(b, jsf::messages_from(b, 0).0[k].hdr.offset as int) == Some(
            jsf::messages_from(b, 0).0[k],
        ),
{
    law_messages_tile(b, 0);
    let m = jsf::messages_from(b, 0).0[k];
    lemma_marker(b, m.hdr.offset as int);
}

/// A message is found just where a marker stands and its header is whole; its
/// body starts behind the header and goes as far as the header says, or to the
/// end of the file.
pub proof fn law_found_by_offset(b: Seq<u8>, off: int)
    requires
        0 <= off,
        b.len() <= u64::MAX,
    ensures
        match jsf::single_message(b, off) {
            None => off + 16 > b.len() || !bytes::carries(b, off, seq![0x01u8, 0x16u8]),
            Some(m) => {
                &&& off + 16 <= b.len()
                &&& bytes::carries(b, off, seq![0x01u8, 0x16u8])
                &&& m.hdr.offset == off
                &&& m.hdr == jsf::header_at(b, off, m.hdr.offset)
                &&& m.start == off + 16
                &&& m.start <= m.end <= b.len()
                &&& m.end - m.start <= m.hdr.size
                &&& m.end < b.len() ==> m.end - m.start == m.hdr.size
            },
        },
{
    if off + 16 <= b.len() {
        lemma_marker(b, off);
        bytes::law_read_four_bytes(b, off + 12);
    }
}

/// The sentences of messages come in the order of the messages.
pub proof fn law_sentences_in_order(b: Seq<u8>, before: Seq<Message>, after: Seq<Message>)
    ensures
        jsf::sentences(b, before + after) == jsf::sentences(b, before) + jsf::sentences(b, after),
    decreases after.len(),
{
    if after.len() == 0 {
        assert(before + after =~= before);
        assert(jsf::sentences(b, before) + jsf::sentences(b, after) =~= jsf::sentences(b, before));
    } else {
        law_sentences_in_order(b, before, after.drop_last());
        assert((before + after).drop_last() =~= before + after.drop_last());
        assert(jsf::sentences(b, before + after) =~= jsf::sentences(b, before) + jsf::sentences(
            b,
            after,
        ));
    }
}

/// A message is a sentence where it is of type 2002 and its body is longer than
/// twelve bytes: the time stands in the first four, and the text behind the
/// twelfth, up to a zero.
pub proof fn law_one_sentence(b: Seq<u8>, m: Message, n: int)
    requires
        m.start <= m.end <= b.len(),
        m.start + 12 <= n <= m.end,
        n < m.end ==> b[n] == 0,
        forall|i: int| m.start + 12 <= i < n ==> b[i] != 0,
    ensures
        ({
            let v = jsf::sentences(b, seq![m]);
            if m.hdr.mtype == 2002 && m.end - m.start > 12 {
                &&& v.len() == 1
                &&& bytes::carries(b, m.start as int, bytes::le4(v[0].0))
                &&& v[0].1 == text::trimmed(text::lossy_text(b.subrange(m.start + 12, n)))
            } else {
                v.len() == 0
            }
        }),
{
    let v = jsf::sentences(b, seq![m]);
    assert(seq![m].drop_last() =~= Seq::<Message>::empty());
    assert(jsf::sentences(b, Seq::<Message>::empty()) =~= Seq::<(int, Seq<char>)>::empty());
    if m.hdr.mtype == 2002 && m.end - m.start > 12 {
        let body = b.subrange(m.start as int, m.end as int);
        bytes::law_read_four_bytes(body, 0);
        bytes::lemma_le_lens(bytes::i32_at(body, 0));
        assert(body.subrange(0, 4) =~= b.subrange(m.start as int, m.start + 4));
        let rest = body.subrange(12, body.len() as int);
        law_text_ends_at_zero(rest);
        let u = jsf::up_to_zero(rest);
        let k = n - m.start - 12;
        if u.len() > k {
            assert(rest[k] == b[n]);
            assert(u[k] == 0 && u.contains(u[k]));
        }
        if u.len() < k {
            assert(rest[u.len() as int] == b[m.start + 12 + u.len()]);
        }
        assert(u =~= b.subrange(m.start + 12, n));
        assert(v =~= seq![jsf::sentence_of(body)]);
    }
}

} // verus!
