use feedback::packet::{FrameError, Packet, BUFFER_SIZE, BYTE_BUFFER_SIZE};

fn bits(v: &[f32]) -> Vec<u32> {
    v.iter().map(|x| x.to_bits()).collect()
}

fn floats(v: &[u32]) -> Vec<f32> {
    v.iter().map(|x| f32::from_bits(*x)).collect()
}

fn pair(s: (u32, u32)) -> (f32, f32) {
    (f32::from_bits(s.0), f32::from_bits(s.1))
}

#[test]
fn test_packet_serialize() {
    let ldata = vec![1.0; BUFFER_SIZE];
    let rdata = vec![2.0; BUFFER_SIZE];
    let new = Packet::new(&bits(&ldata), &bits(&rdata), 0);
    assert_eq!(floats(new.get_ldata()), ldata);
    assert_eq!(floats(new.get_rdata()), rdata);
    let parsed = Packet::parse(&new.as_bytes()[..]).unwrap();
    assert_eq!(floats(parsed.get_ldata()), ldata);
    assert_eq!(floats(parsed.get_rdata()), rdata);
    assert_eq!(&new.as_bytes()[..], &parsed.as_bytes()[..]);
    println!("{}", new.as_bytes().len());
}

#[test]
fn test_packet_read() {
    let ldata = vec![1.0; BUFFER_SIZE];
    let rdata = vec![2.0; BUFFER_SIZE];
    let packet = Packet::new(&bits(&ldata), &bits(&rdata), 100);
    assert_eq!((0.0, 0.0), pair(packet.read(0)));
    assert_eq!((0.0, 0.0), pair(packet.read(99)));
    assert_eq!((1.0, 2.0), pair(packet.read(100)));
    assert_eq!((1.0, 2.0), pair(packet.read(100 + BUFFER_SIZE as u64 - 1)));
    assert_eq!((0.0, 0.0), pair(packet.read(100 + BUFFER_SIZE as u64)));
}

#[test]
fn test_packet_active_complete() {
    let ldata = vec![1.0; BUFFER_SIZE];
    let rdata = vec![2.0; BUFFER_SIZE];
    let packet = Packet::new(&bits(&ldata), &bits(&rdata), 100);
    assert!(!packet.active(0));
    assert!(!packet.complete(0));
    assert!(!packet.active(99));
    assert!(!packet.complete(99));
    assert!(packet.active(100));
    assert!(!packet.complete(100));
    assert!(packet.active(100 + BUFFER_SIZE as u64 - 1));
    assert!(!packet.complete(100 + BUFFER_SIZE as u64 - 1));
    assert!(!packet.active(100 + BUFFER_SIZE as u64));
    assert!(packet.complete(100 + BUFFER_SIZE as u64));
}

fn ramp(start: u32) -> Vec<u32> {
    (0..BUFFER_SIZE as u32).map(|i| start + i).collect()
}

#[test]
fn encoding_layout_is_big_endian_with_length_prefixes() {
    let p = Packet::new(&ramp(0x0102_0304), &ramp(7), 0x1122_3344_5566_7788);
    let b = p.as_bytes();
    assert_eq!(b.len(), BYTE_BUFFER_SIZE);
    assert_eq!(&b[0..8], &[0, 0, 0, 0, 0, 0, 4, 0]);
    assert_eq!(&b[8..12], &[1, 2, 3, 4]);
    assert_eq!(&b[12..16], &[1, 2, 3, 5]);
    assert_eq!(&b[4104..4112], &[0, 0, 0, 0, 0, 0, 4, 0]);
    assert_eq!(&b[4112..4116], &[0, 0, 0, 7]);
    assert_eq!(&b[8208..8216], &[0x11, 0x22, 0x33, 0x44, 0x55, 0x66, 0x77, 0x88]);
}

#[test]
fn round_trip_keeps_every_field() {
    let p = Packet::new(&ramp(5), &ramp(90_000), u64::MAX - 3);
    let q = Packet::parse(&p.as_bytes()).unwrap();
    assert_eq!(q.get_ldata(), &ramp(5)[..]);
    assert_eq!(q.get_rdata(), &ramp(90_000)[..]);
    assert_eq!(q.get_timestamp(), u64::MAX - 3);
}

#[test]
fn parse_rejects_wrong_length() {
    let p = Packet::new(&ramp(0), &ramp(0), 0);
    let mut b = p.as_bytes();
    b.pop();
    assert_eq!(Packet::parse(&b).err(), Some(FrameError::MalformedFrame));
    assert_eq!(Packet::parse(&[]).err(), Some(FrameError::MalformedFrame));
}

#[test]
fn parse_rejects_bad_length_prefix() {
    let p = Packet::new(&ramp(0), &ramp(0), 0);
    let mut b = p.as_bytes();
    b[6] = 3;
    assert_eq!(Packet::parse(&b).err(), Some(FrameError::MalformedFrame));
    let mut c = p.as_bytes();
    c[4110] = 5;
    assert_eq!(Packet::parse(&c).err(), Some(FrameError::MalformedFrame));
}

#[test]
fn read_near_the_end_of_time_does_not_overflow() {
    let p = Packet::new(&ramp(1), &ramp(2), u64::MAX - 10);
    assert_eq!(p.read(u64::MAX), (11, 12));
    assert!(p.active(u64::MAX));
    assert!(!p.complete(u64::MAX));
    assert_eq!(p.sample_at(u64::MAX, 5), (16, 17));
    assert!(p.covers(u64::MAX - 20, 15));
    assert!(!p.covers(u64::MAX - 20, 9));
    assert_eq!(p.sample_at(u64::MAX, 1014), (0, 0));
}

#[test]
fn read_gives_the_stored_sample_at_each_offset() {
    let p = Packet::new(&ramp(1000), &ramp(5000), 50);
    assert_eq!(p.read(50), (1000, 5000));
    assert_eq!(p.read(51), (1001, 5001));
    assert_eq!(p.read(50 + 1023), (2023, 6023));
    assert_eq!(p.read(49), (0, 0));
}
