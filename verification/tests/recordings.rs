use swath::fixtures::{sampled, EVERY};
use swath::bytes::{get_u16, get_u32, get_u64, i16le, i32le, push_le2, push_le4, push_le8, same_bytes, u16le};
use swath::frame::{frame, unframe, FrameError};
use swath::index::record::{index_jsf, index_record};
use swath::index::table::{Bounds, Part, PingIndex};
use swath::index::{decode_records, encode, encode_records, find_header, PingRecord, MAGIC, REC_SIZE};
use swath::jsf::{
    decode_samples, message_at, msg_type_name, nmea, parse_message_header, parse_sonar_message,
    ping_at, subsystem_name, walk, DataFormat, Samples, SyncError,
};
use swath::xtf::{cstr, data_start, packet_time, packets, parse_header, pings};

fn put2(b: &mut Vec<u8>, at: usize, v: u16) {
    b[at..at + 2].copy_from_slice(&v.to_le_bytes());
}

fn put4(b: &mut Vec<u8>, at: usize, v: u32) {
    b[at..at + 4].copy_from_slice(&v.to_le_bytes());
}

fn put8(b: &mut Vec<u8>, at: usize, v: u64) {
    b[at..at + 8].copy_from_slice(&v.to_le_bytes());
}

fn message(mtype: u16, subsystem: u8, channel: u8, body: &[u8]) -> Vec<u8> {
    let mut m = vec![0u8; 16];
    put2(&mut m, 0, 0x1601);
    m[2] = 14;
    put2(&mut m, 4, mtype);
    m[7] = subsystem;
    m[8] = channel;
    put4(&mut m, 12, body.len() as u32);
    m.extend_from_slice(body);
    m
}

fn sonar_body(ping: u32, samples: &[i16]) -> Vec<u8> {
    let mut b = vec![0u8; 240];
    put4(&mut b, 0, 1_709_210_096);
    put4(&mut b, 8, ping);
    put2(&mut b, 30, 1 | 8 | 64);
    put4(&mut b, 80, 4_050_000u32);
    put4(&mut b, 84, 52_500_000u32);
    put2(&mut b, 88, 1);
    put2(&mut b, 114, samples.len() as u16);
    put4(&mut b, 116, 20_000);
    put2(&mut b, 126, 55_300);
    put2(&mut b, 128, 60_800);
    put4(&mut b, 136, 12_500);
    put4(&mut b, 144, 8_250);
    put2(&mut b, 156, 2024);
    put2(&mut b, 158, 60);
    put2(&mut b, 160, 12);
    put2(&mut b, 162, 34);
    put2(&mut b, 164, 56);
    put2(&mut b, 168, 0xfffe);
    put2(&mut b, 172, 9_050);
    put4(&mut b, 200, 45_296_250);
    b[210..213].copy_from_slice(b"1.2");
    for s in samples {
        b.extend_from_slice(&s.to_le_bytes());
    }
    b
}

fn record(time: f64, subsystem: u8, channel: u8, lat: f64, lon: f64) -> PingRecord {
    PingRecord {
        time: time.to_bits(),
        lat: lat.to_bits(),
        lon: lon.to_bits(),
        offset: 77,
        ping: 5,
        interval_ns: 20_000,
        heading: 90.5f32.to_bits(),
        depth: 12.5f32.to_bits(),
        altitude: 8.25f32.to_bits(),
        pitch: 0,
        roll: 0,
        f0: 553_000f32.to_bits(),
        f1: 608_000f32.to_bits(),
        nsamples: 4,
        validity: 73,
        file_id: 0,
        subsystem,
        channel,
        weight: -2,
        fmt: 0,
    }
}

#[test]
fn numbers_are_read_and_written_little_end_first() {
    let b = [1u8, 2, 3, 4, 5, 6, 7, 8];
    assert_eq!(get_u16(&b, 0, true), Some(0x0201));
    assert_eq!(get_u16(&b, 0, false), Some(0x0102));
    assert_eq!(get_u32(&b, 1, true), Some(0x05040302));
    assert_eq!(get_u64(&b, 0, false), Some(0x0102030405060708));
    assert_eq!(get_u64(&b, 1, true), None);
    assert_eq!(u16le(&b, 7), None);
    assert_eq!(i16le(&[0xff, 0xff], 0), Some(-1));
    assert_eq!(i32le(&[0, 0, 0, 0x80], 0), Some(i32::MIN));
    let mut v = Vec::new();
    push_le2(&mut v, 0x0201);
    push_le4(&mut v, 0x06050403);
    push_le8(&mut v, 0x0e0d0c0b0a090807);
    assert_eq!(v, (1..=14).collect::<Vec<u8>>());
    assert!(same_bytes(&[1, 2], &[1, 2]));
    assert!(!same_bytes(&[1, 2], &[1, 2, 3]));
}

#[test]
fn a_framed_file_is_opened_again() {
    let f = frame(b"SWTIDX01", b"{}", &[9, 9]);
    assert_eq!(f, b"SWTIDX01\x02\x00\x00\x00{}\x09\x09".to_vec());
    assert_eq!(unframe(&f, b"SWTIDX01", b"WPAIDX01"), Ok(14));
    assert_eq!(unframe(&f, b"OTHER001", b"SWTIDX01"), Ok(14));
    assert_eq!(unframe(&f, b"OTHER001", b"OTHER002"), Err(FrameError::Magic));
    assert_eq!(unframe(&f[..13], b"SWTIDX01", b"WPAIDX01"), Err(FrameError::Short));
    assert_eq!(unframe(b"SWT", b"SWTIDX01", b"WPAIDX01"), Err(FrameError::Short));
}

#[test]
fn message_kinds_have_names() {
    assert_eq!(msg_type_name(80), "sonar data");
    assert_eq!(msg_type_name(2002), "NMEA string");
    assert_eq!(msg_type_name(1), "unknown");
    assert_eq!(subsystem_name(20), "sidescan (set 1)");
    assert_eq!(subsystem_name(99), "unknown");
}

#[test]
fn a_message_header_is_read() {
    let m = message(80, 20, 1, &[1, 2, 3]);
    let h = parse_message_header(&m, 500).unwrap();
    assert_eq!((h.offset, h.version, h.mtype, h.subsystem, h.channel, h.size), (500, 14, 80, 20, 1, 3));
    assert_eq!(parse_message_header(&m[..15], 0), None);
}

#[test]
fn a_file_is_walked_message_by_message() {
    let mut f = message(2002, 100, 0, &[0; 4]);
    f.extend(message(80, 20, 0, &[7; 10]));
    let w = walk(&f);
    assert_eq!(w.messages.len(), 2);
    assert_eq!((w.messages[1].start, w.messages[1].end), (36, 46));
    assert_eq!(w.lost, None);
    assert_eq!(message_at(&f, 20).unwrap().hdr.mtype, 80);
    f.extend_from_slice(&[0xab; 16]);
    let lost = walk(&f);
    assert_eq!(lost.messages.len(), 2);
    assert_eq!(lost.lost, Some(SyncError { offset: 46, marker: 0xabab }));
    assert_eq!(lost.lost.unwrap().message(), "lost sync at offset 46: marker=0xabab");
}

#[test]
fn samples_are_decoded_by_their_format() {
    let raw = [1u8, 0, 0xff, 0xff, 3, 0, 4, 0];
    match decode_samples(&raw, DataFormat::from_code(0), 4) {
        Samples::Signed(v) => assert_eq!(v, vec![1, -1, 3, 4]),
        Samples::Unsigned(v) => assert_eq!(v, vec![1, 65535, 3, 4]),
        Samples::Pairs(_) => panic!("one number a sample"),
    }
    match decode_samples(&raw, DataFormat::from_code(1), 2) {
        Samples::Pairs(v) => assert_eq!(v, vec![(1, -1), (3, 4)]),
        _ => panic!("two numbers a sample"),
    }
}

#[test]
fn a_ping_is_read() {
    let body = sonar_body(41, &[1, -2, 300]);
    let m = message(80, 20, 1, &body);
    let h = parse_message_header(&m, 0).unwrap();
    let p = parse_sonar_message(&h, &body).unwrap();
    assert_eq!((p.subsystem, p.channel, p.ping_number, p.nsamples), (20, 1, 41, 3));
    assert_eq!((p.latitude, p.longitude, p.coord_units), (52_500_000, 4_050_000, 1));
    assert_eq!((p.depth_mm, p.altitude_mm, p.heading), (12_500, 8_250, 9_050));
    assert_eq!(p.ymd_hms, Some((2024, 2, 29, 12, 34, 56)));
    assert_eq!(p.weighting_factor, -2);
    assert_eq!(p.software_version, "1.2");
    assert!(p.altitude_valid());
    assert!(parse_sonar_message(&h, &body[..239]).is_none());
    let again = ping_at(&m, 0).unwrap();
    assert_eq!(again.ping_number, 41);
    assert!(ping_at(&message(2002, 0, 0, &body), 0).is_none());
}

#[test]
fn sentences_are_listed() {
    let mut body = vec![0u8; 12];
    put4(&mut body, 0, 77);
    body.extend_from_slice(b"$GPGGA,1*00\r\n\0rest");
    let mut f = message(2002, 100, 0, &body);
    f.extend(message(2002, 100, 0, &[0; 12]));
    let v = nmea(&f);
    assert_eq!(v.len(), 1);
    assert_eq!(v[0].0, 77);
    assert_eq!(v[0].1.trim_end(), "$GPGGA,1*00");
}

#[test]
fn only_sonar_messages_are_indexed() {
    let mut f = message(2002, 100, 0, &[0; 300]);
    f.extend(message(80, 21, 1, &sonar_body(9, &[1])));
    f.extend(message(80, 21, 1, &[0; 20]));
    let (v, lost) = index_jsf(&f, 3);
    assert_eq!(lost, None);
    assert_eq!(v.len(), 1);
    assert_eq!((v[0].ping, v[0].file_id, v[0].subsystem, v[0].channel), (9, 3, 21, 1));
    assert_eq!((v[0].secs, v[0].millis, v[0].arc_minutes), (1_709_210_096, 250, false));
    assert_eq!((v[0].weight, v[0].sweep_start, v[0].offset), (-2, 55_300, 316));
    let h = parse_message_header(&f[316..], 316).unwrap();
    assert_eq!(index_record(&h, &f[332..332 + 242], 3), Some(v[0]));
}

#[test]
fn records_come_back_as_they_were_written() {
    let rs = vec![record(1.5, 20, 0, 52.5, 4.0), record(2.5, 21, 1, -1.0, -2.0)];
    let b = encode_records(&rs);
    assert_eq!(b.len(), 2 * REC_SIZE);
    assert_eq!(decode_records(&b), Some(rs.clone()));
    assert_eq!(decode_records(&b[..REC_SIZE + 1]), None);
    let f = encode(b"{\"version\":1}", &rs);
    assert!(f.starts_with(&MAGIC));
    let at = find_header(&f).unwrap();
    assert_eq!(decode_records(&f[at..]), Some(rs));
    assert_eq!(find_header(b"nonsense file"), Err(FrameError::Magic));
}

#[test]
fn an_index_is_put_in_order() {
    let a = Part {
        records: vec![record(5.0, 20, 1, 52.0, 4.0), record(1.0, 20, 0, 53.0, 5.0)],
        warning: None,
    };
    let b = Part { records: vec![record(3.0, 21, 0, 51.0, 3.0)], warning: Some("torn".to_string()) };
    let x = PingIndex::assemble(vec!["a.jsf".to_string(), "b.jsf".to_string()], &vec![a, b]);
    assert_eq!(x.len(), 3);
    assert!(!x.is_empty());
    let times: Vec<f64> = x.records.iter().map(|r| f64::from_bits(r.time)).collect();
    assert_eq!(times, vec![1.0, 3.0, 5.0]);
    assert_eq!(x.header.warnings, vec!["torn".to_string()]);
    assert_eq!(x.header.count, 3);
    assert_eq!(x.channels(), vec![(20, 0), (20, 1), (21, 0)]);
    assert_eq!(x.subsystems(), vec![20, 21]);
    assert_eq!(x.select(20, None), vec![0, 2]);
    assert_eq!(x.select(20, Some(1)), vec![2]);
    assert_eq!(x.time_range(), Some((1.0f64.to_bits(), 5.0f64.to_bits())));
    let b = x.bounds().unwrap();
    assert_eq!(f64::from_bits(b.min_lat), 51.0);
    assert_eq!(f64::from_bits(b.max_lon), 5.0);
    assert_eq!(x.file_of(&x.records[0]).map(|s| s.as_str()), Some("a.jsf"));
    let bands = x.bands();
    assert_eq!(bands.len(), 2);
    assert_eq!((bands[0].subsystem, bands[0].pings), (20, 2));
}

#[test]
fn bounds_grow_to_hold_what_they_are_given() {
    let mut b = Bounds::empty();
    assert!(b.is_empty());
    b.extend(52.0f64.to_bits(), 4.0f64.to_bits());
    b.extend((-1.0f64).to_bits(), 7.0f64.to_bits());
    assert!(!b.is_empty());
    assert!(b.contains(0.0f64.to_bits(), 5.0f64.to_bits()));
    assert!(!b.contains(53.0f64.to_bits(), 5.0f64.to_bits()));
    let mut o = Bounds::empty();
    o.extend(60.0f64.to_bits(), 1.0f64.to_bits());
    let u = b.union(&o);
    assert_eq!(f64::from_bits(u.max_lat), 60.0);
    assert_eq!(f64::from_bits(u.min_lon), 1.0);
    assert_eq!(Bounds::empty().union(&o), o);
}

fn xtf_file() -> Vec<u8> {
    let mut f = vec![0u8; 1024];
    f[6..10].copy_from_slice(b"PROG");
    f[30..35].copy_from_slice(b"SONAR");
    put2(&mut f, 46, 31);
    put2(&mut f, 166, 2);
    put2(&mut f, 256 + 6, 2);
    f[268..272].copy_from_slice(b"port");
    put4(&mut f, 256 + 32, 400_000f32.to_bits());
    put2(&mut f, 384 + 6, 1);
    let mut p = vec![0u8; 256];
    put2(&mut p, 0, 0xface);
    p[9] = 2;
    put2(&mut p, 14, 2024);
    p[16] = 2;
    p[17] = 29;
    p[18] = 12;
    p[21] = 25;
    put4(&mut p, 28, 1234);
    put8(&mut p, 52, 4.5f64.to_bits());
    put8(&mut p, 60, 52.25f64.to_bits());
    let mut a = vec![0u8; 64];
    put4(&mut a, 8, 2);
    put4(&mut a, 40, 75f32.to_bits());
    a.extend_from_slice(&[10, 0, 0, 1]);
    let mut b = vec![0u8; 64];
    put2(&mut b, 2, 1);
    put4(&mut b, 8, 3);
    b.extend_from_slice(&[1, 2, 3]);
    p.extend(a);
    p.extend(b);
    let n = p.len() as u32;
    put4(&mut p, 10, n);
    f.extend_from_slice(&[0, 0, 0]);
    f.extend(p);
    f
}

#[test]
fn the_other_format_is_read_too() {
    let f = xtf_file();
    let h = parse_header(&f).unwrap();
    assert_eq!((h.recording_program.as_str(), h.sonar_name.as_str()), ("PROG", "SONAR"));
    assert_eq!((h.sonar_type, h.n_channels, h.channels.len()), (31, 2, 2));
    assert_eq!(h.channels[0].name, "port");
    assert_eq!(f32::from_bits(h.channels[0].frequency_bits), 400_000.0);
    assert_eq!((h.channels[0].bytes_per_sample, h.channels[1].bytes_per_sample), (2, 1));
    assert!(parse_header(&f[..1023]).is_none());
    assert_eq!(data_start(6), 1024);
    assert_eq!(data_start(8), 1280);
    let ps = packets(&f, 1024);
    assert_eq!(ps.len(), 1);
    assert_eq!(ps[0].start, 1027);
    let v = pings(&f, &h);
    assert_eq!(v.len(), 2);
    assert_eq!(v[0].data, vec![10, 256]);
    assert_eq!(v[1].data, vec![1, 2, 3]);
    assert_eq!((v[0].channel, v[1].channel, v[1].ping_number), (0, 1, 1234));
    assert_eq!(v[0].time, Some((1_709_208_000, 25)));
    assert_eq!(f64::from_bits(v[1].lat_bits), 52.25);
}

#[test]
fn a_stamp_that_cannot_be_is_none() {
    let mut p = vec![0u8; 30];
    put2(&mut p, 14, 2024);
    p[16] = 13;
    p[17] = 1;
    assert_eq!(packet_time(&p), None);
    p[16] = 1;
    assert_eq!(packet_time(&p), Some((1_704_067_200, 0)));
    assert_eq!(packet_time(&p[..21]), None);
    assert_eq!(cstr(b"ab\0cd", 0, 5), "ab");
}

#[test]
fn a_ping_of_the_other_format_is_indexed() {
    let f = xtf_file();
    let h = parse_header(&f).unwrap();
    let v = pings(&f, &h);
    let r = PingRecord::from_xtf(&v[0], 2, 1.0f64.to_bits(), 50_000);
    assert_eq!((r.file_id, r.interval_ns, r.ping, r.channel), (2, 50_000, 1234, 0));
    assert_eq!(f64::from_bits(r.lat), 52.25);
    assert_eq!(r.nsamples, 2);
    assert!(!r.altitude_valid());
}

#[test]
fn a_sample_takes_every_so_many() {
    let one = message(80, 20, 0, &sonar_body(1, &[1]));
    let other = message(2002, 0, 0, b"xxxxxxxxxxxx$GP");
    let mut f = other.clone();
    for _ in 0..200 {
        f.extend_from_slice(&one);
    }
    let (a, n) = (other.len() as u64, one.len() as u64);
    assert_eq!(EVERY, 97);
    assert_eq!(sampled(&f, 500), vec![a, a + 97 * n, a + 194 * n]);
    assert_eq!(sampled(&f, 2), vec![a, a + 97 * n]);
    assert!(sampled(&f, 0).is_empty());
    assert_eq!(sampled(&one, 0), vec![0]);
    assert!(sampled(&message(80, 20, 0, &[0; 200]), 9).is_empty());
    assert!(sampled(&[], 9).is_empty());
}
