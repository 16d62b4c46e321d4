use ether_switch::{
    ether_addr_to_u64, is_ether_broadcast, is_ether_multicast, FrameError, PacketClass, SkBuff,
    ETH_HLEN, PACKET_LOOPBACK, PACKET_OUTGOING,
};

#[test]
fn broadcast_address_is_broadcast() {
    let a = [0xff, 0xff, 0xff, 0xff, 0xff, 0xff];
    assert!(is_ether_broadcast(&a));
    assert!(!is_ether_multicast(&a));
}

#[test]
fn ipv4_group_address_is_multicast_not_broadcast() {
    let a = [0x01, 0x00, 0x5e, 0x00, 0x00, 0x01];
    assert!(is_ether_multicast(&a));
    assert!(!is_ether_broadcast(&a));
}

#[test]
fn locally_administered_unicast_is_neither() {
    let a = [0x02, 0x00, 0x00, 0x00, 0x00, 0x01];
    assert!(!is_ether_multicast(&a));
    assert!(!is_ether_broadcast(&a));
}

#[test]
fn almost_broadcast_is_multicast() {
    let a = [0xff, 0xff, 0xff, 0xff, 0xff, 0xfe];
    assert!(!is_ether_broadcast(&a));
    assert!(is_ether_multicast(&a));
}

#[test]
fn address_key_is_big_endian_value() {
    assert_eq!(ether_addr_to_u64(&[0x01, 0x02, 0x03, 0x04, 0x05, 0x06]), 0x0102_0304_0506);
    assert_eq!(ether_addr_to_u64(&[0xff; 6]), 0xffff_ffff_ffff);
    assert_eq!(ether_addr_to_u64(&[0; 6]), 0);
}

#[test]
fn address_key_keeps_byte_order() {
    let lo = ether_addr_to_u64(&[0x00, 0xff, 0xff, 0xff, 0xff, 0xff]);
    let hi = ether_addr_to_u64(&[0x01, 0x00, 0x00, 0x00, 0x00, 0x00]);
    assert!(lo < hi);
}

#[test]
fn packet_type_codes_classify() {
    assert_eq!(PacketClass::from_pkt_type(PACKET_LOOPBACK), PacketClass::Loopback);
    assert_eq!(PacketClass::from_pkt_type(PACKET_OUTGOING), PacketClass::Outgoing);
    assert_eq!(PacketClass::from_pkt_type(0), PacketClass::Normal);
    assert_eq!(PacketClass::from_pkt_type(1), PacketClass::Normal);
}

fn sample_bytes() -> Vec<u8> {
    vec![
        0x02, 0, 0, 0, 0, 0x0b, 0x02, 0, 0, 0, 0, 0x0a, 0x08, 0x00, 0xde, 0xad,
    ]
}

#[test]
fn new_frame_rejects_cursor_past_end() {
    assert!(SkBuff::new(vec![1, 2, 3], 4, PacketClass::Normal).is_none());
    assert!(SkBuff::new(vec![1, 2, 3], 3, PacketClass::Normal).is_some());
}

#[test]
fn push_restores_header_and_reads_addresses() {
    let mut f = SkBuff::new(sample_bytes(), ETH_HLEN, PacketClass::Normal).unwrap();
    assert_eq!(f.get_ether_dhost(), None);
    assert!(f.push(ETH_HLEN));
    assert_eq!(f.head(), 0);
    assert_eq!(f.get_ether_dhost(), Some([0x02, 0, 0, 0, 0, 0x0b]));
    assert_eq!(f.get_ether_shost(), Some([0x02, 0, 0, 0, 0, 0x0a]));
}

#[test]
fn push_past_start_fails_and_keeps_frame() {
    let mut f = SkBuff::new(sample_bytes(), 4, PacketClass::Normal).unwrap();
    assert!(!f.push(ETH_HLEN));
    assert_eq!(f.head(), 4);
}

#[test]
fn short_frame_has_no_addresses() {
    let f = SkBuff::new(vec![0xff; 5], 0, PacketClass::Normal).unwrap();
    assert_eq!(f.get_ether_dhost(), None);
    assert_eq!(f.get_ether_shost(), None);
}

#[test]
fn addresses_read_as_far_as_bytes_reach() {
    let f = SkBuff::new(sample_bytes()[..11].to_vec(), 0, PacketClass::Normal).unwrap();
    assert_eq!(f.get_ether_dhost(), Some([0x02, 0, 0, 0, 0, 0x0b]));
    assert_eq!(f.get_ether_shost(), None);
    let f = SkBuff::new(sample_bytes()[..12].to_vec(), 0, PacketClass::Normal).unwrap();
    assert_eq!(f.get_ether_dhost(), Some([0x02, 0, 0, 0, 0, 0x0b]));
    assert_eq!(f.get_ether_shost(), Some([0x02, 0, 0, 0, 0, 0x0a]));
    let f = SkBuff::new(sample_bytes(), 11, PacketClass::Normal).unwrap();
    assert_eq!(f.get_ether_dhost(), None);
}

#[test]
fn clone_is_independent_copy() {
    let mut f = SkBuff::new(sample_bytes(), 0, PacketClass::Normal).unwrap();
    let c: Result<SkBuff, FrameError> = f.try_clone();
    let mut c = c.unwrap();
    assert_eq!(c.data(), f.data());
    c.set_dev(7);
    f.set_dev(3);
    assert_eq!(c.get_dev(), Some(7));
    assert_eq!(f.get_dev(), Some(3));
    assert_eq!(c.data(), &sample_bytes());
}
