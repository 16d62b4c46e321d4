use ether_switch::{
    ether_addr_to_u64, AgingStep, FrameError, NetDevice, PacketClass, SkBuff, SwitchConfig,
    SwitchError, SwitchState, ETH_HLEN, MAC_EXPIRY_CHECK_TIMEOUT_MSEC, MAX_AGE_MSEC,
    MAX_FDB_ENTRIES,
};

const ETH0: u32 = 2;
const ETH1: u32 = 3;
const ETH2: u32 = 4;
const BCAST: [u8; 6] = [0xff; 6];
const HOST_A: [u8; 6] = [0xaa, 0, 0, 0, 0, 0x01];
const HOST_B: [u8; 6] = [0xbb, 0, 0, 0, 0, 0x02];
const HOST_C: [u8; 6] = [0xcc, 0, 0, 0, 0, 0x03];
const HOST_D: [u8; 6] = [0x02, 0, 0, 0, 0, 0x0d];

fn bytes(dst: [u8; 6], src: [u8; 6]) -> Vec<u8> {
    let mut d = dst.to_vec();
    d.extend_from_slice(&src);
    d.extend_from_slice(&[0x08, 0x00, 0xca, 0xfe, 0xba, 0xbe]);
    d
}

/// A frame as the capture layer hands it over: cursor past the link header.
fn frame(dst: [u8; 6], src: [u8; 6]) -> SkBuff {
    SkBuff::new(bytes(dst, src), ETH_HLEN, PacketClass::Normal).unwrap()
}

fn switch(devs: &[u32], hub_mode: bool) -> SwitchState {
    let config = SwitchConfig { hub_mode, ..SwitchConfig::default() };
    SwitchState::new(devs.iter().map(|d| NetDevice::new(*d)).collect(), config)
}

fn egress(out: &[Result<SkBuff, FrameError>]) -> Vec<u32> {
    out.iter().map(|r| r.as_ref().unwrap().get_dev().unwrap()).collect()
}

#[test]
fn default_config() {
    let c = SwitchConfig::default();
    assert!(!c.hub_mode);
    assert_eq!(c.max_age, MAX_AGE_MSEC);
    assert_eq!(c.max_age, 180000);
    assert_eq!(c.fdb_capacity, MAX_FDB_ENTRIES);
    assert_eq!(c.fdb_capacity, 2048);
    assert_eq!(c.sweep_interval, MAC_EXPIRY_CHECK_TIMEOUT_MSEC);
    assert_eq!(c.sweep_interval, 1000);
}

#[test]
fn init_fails_on_unresolved_interface() {
    let r = SwitchState::init(
        vec![Some(NetDevice::new(ETH0)), None, None],
        SwitchConfig::default(),
    );
    assert!(matches!(r, Err(SwitchError::UnknownInterface(1))));
}

#[test]
fn init_keeps_member_order() {
    let r = SwitchState::init(
        vec![Some(NetDevice::new(ETH1)), Some(NetDevice::new(ETH0))],
        SwitchConfig::default(),
    )
    .unwrap();
    assert_eq!(r.net_devs(), &vec![NetDevice::new(ETH1), NetDevice::new(ETH0)]);
    assert_eq!(r.fdb().len(), 0);
    assert!(!r.is_exiting());
    assert!(!r.is_stopped());
}

#[test]
fn two_port_scenario() {
    let mut sw = switch(&[ETH0, ETH1], false);
    let out = sw.eth_rcv(frame(BCAST, HOST_A), ETH0, 0);
    assert_eq!(egress(&out), vec![ETH1]);
    let out = sw.eth_rcv(frame(HOST_A, HOST_B), ETH1, 10);
    assert_eq!(egress(&out), vec![ETH0]);
    let b = sw.fdb().get(ether_addr_to_u64(&HOST_B)).unwrap();
    assert_eq!(b.get_dev(), ETH1);
    // the broadcast's source was learned too
    let a = sw.fdb().get(ether_addr_to_u64(&HOST_A)).unwrap();
    assert_eq!(a.get_dev(), ETH0);
    assert_eq!(a.get_expires_in(), MAX_AGE_MSEC);
}

#[test]
fn broadcast_source_is_learned() {
    let mut sw = switch(&[ETH0, ETH1, ETH2], false);
    let out = sw.eth_rcv(frame(BCAST, HOST_A), ETH0, 0);
    assert_eq!(egress(&out), vec![ETH1, ETH2]);
    let out = sw.eth_rcv(frame(HOST_A, HOST_C), ETH2, 5);
    assert_eq!(egress(&out), vec![ETH0]);
}

#[test]
fn learning_convergence() {
    let mut sw = switch(&[ETH0, ETH1, ETH2], false);
    // unknown destination: flooded, source learned
    let out = sw.eth_rcv(frame(HOST_D, HOST_A), ETH0, 0);
    assert_eq!(egress(&out), vec![ETH1, ETH2]);
    // more frames from A on eth0, a sweep within max_age
    sw.eth_rcv(frame(HOST_C, HOST_A), ETH0, 1000);
    assert_eq!(sw.run_aging(2000), AgingStep::Rearm { delay: 1000 });
    let out = sw.eth_rcv(frame(HOST_A, HOST_C), ETH2, 3000);
    assert_eq!(egress(&out), vec![ETH0]);
    let out = sw.eth_rcv(frame(HOST_A, HOST_D), ETH1, 4000);
    assert_eq!(egress(&out), vec![ETH0]);
}

#[test]
fn expiry_after_max_age_sweep() {
    let mut sw = switch(&[ETH0, ETH1, ETH2], false);
    sw.eth_rcv(frame(HOST_D, HOST_A), ETH0, 0);
    sw.run_aging(MAX_AGE_MSEC - 1);
    assert!(sw.fdb().get(ether_addr_to_u64(&HOST_A)).is_some());
    // not yet swept: the stale entry still steers
    let out = sw.eth_rcv(frame(HOST_A, HOST_C), ETH1, MAX_AGE_MSEC + 10);
    assert_eq!(egress(&out), vec![ETH0]);
    sw.run_aging(MAX_AGE_MSEC + 20);
    assert!(sw.fdb().get(ether_addr_to_u64(&HOST_A)).is_none());
    let out = sw.eth_rcv(frame(HOST_A, HOST_C), ETH1, MAX_AGE_MSEC + 30);
    assert_eq!(egress(&out), vec![ETH0, ETH2]);
}

#[test]
fn flood_completeness() {
    let devs = [ETH0, ETH1, ETH2, 9];
    let mut sw = switch(&devs, false);
    let out = sw.eth_rcv(frame(BCAST, HOST_A), ETH1, 0);
    assert_eq!(out.len(), devs.len() - 1);
    assert_eq!(egress(&out), vec![ETH0, ETH2, 9]);
    for r in out.iter() {
        let f = r.as_ref().unwrap();
        assert_eq!(f.data(), &bytes(BCAST, HOST_A));
        assert_eq!(f.head(), 0);
    }
}

#[test]
fn multicast_floods() {
    let mut sw = switch(&[ETH0, ETH1, ETH2], false);
    let group = [0x01, 0x00, 0x5e, 0x00, 0x00, 0x01];
    let out = sw.eth_rcv(frame(group, HOST_A), ETH2, 0);
    assert_eq!(egress(&out), vec![ETH0, ETH1]);
    assert_eq!(sw.fdb().len(), 1);
    // a group address is never a destination to look up
    let out = sw.eth_rcv(frame(group, HOST_C), ETH0, 1);
    assert_eq!(egress(&out), vec![ETH1, ETH2]);
}

#[test]
fn flood_with_no_other_member_sends_nothing() {
    let mut sw = switch(&[ETH0], false);
    let out = sw.eth_rcv(frame(BCAST, HOST_A), ETH0, 0);
    assert!(out.is_empty());
}

#[test]
fn self_loop_suppression() {
    let mut sw = switch(&[ETH0, ETH1], false);
    for class in [PacketClass::Loopback, PacketClass::Outgoing] {
        let f = SkBuff::new(bytes(HOST_D, HOST_A), ETH_HLEN, class).unwrap();
        let out = sw.eth_rcv(f, ETH0, 0);
        assert!(out.is_empty());
        let f = SkBuff::new(bytes(BCAST, HOST_A), ETH_HLEN, class).unwrap();
        let out = sw.eth_rcv(f, ETH0, 0);
        assert!(out.is_empty());
    }
    assert_eq!(sw.fdb().len(), 0);
}

#[test]
fn unconfigured_ingress_is_dropped() {
    let mut sw = switch(&[ETH0, ETH1], false);
    let out = sw.eth_rcv(frame(HOST_D, HOST_A), 77, 0);
    assert!(out.is_empty());
    assert_eq!(sw.fdb().len(), 0);
}

#[test]
fn short_frame_is_dropped() {
    let mut sw = switch(&[ETH0, ETH1], false);
    let f = SkBuff::new(vec![0xff; 20], 10, PacketClass::Normal).unwrap();
    assert!(sw.eth_rcv(f, ETH0, 0).is_empty());
    let f = SkBuff::new(vec![0xff; 13], 13, PacketClass::Normal).unwrap();
    assert!(sw.eth_rcv(f, ETH0, 0).is_empty());
    // a header with no payload is still a frame
    let f = SkBuff::new(vec![0xff; 14], 14, PacketClass::Normal).unwrap();
    assert_eq!(egress(&sw.eth_rcv(f, ETH0, 0)), vec![ETH1]);
}

#[test]
fn hub_mode_floods_and_never_learns() {
    let mut sw = switch(&[ETH0, ETH1, ETH2], true);
    sw.eth_rcv(frame(HOST_D, HOST_A), ETH0, 0);
    let out = sw.eth_rcv(frame(HOST_A, HOST_D), ETH1, 1);
    assert_eq!(egress(&out), vec![ETH0, ETH2]);
    assert_eq!(sw.fdb().len(), 0);
}

#[test]
fn station_move_relearns() {
    let mut sw = switch(&[ETH0, ETH1, ETH2], false);
    sw.eth_rcv(frame(HOST_D, HOST_A), ETH0, 0);
    sw.eth_rcv(frame(HOST_D, HOST_A), ETH2, 5);
    let out = sw.eth_rcv(frame(HOST_A, HOST_C), ETH1, 6);
    assert_eq!(egress(&out), vec![ETH2]);
}

#[test]
fn capacity_bound_on_switch() {
    let config = SwitchConfig { fdb_capacity: 4, ..SwitchConfig::default() };
    let mut sw = SwitchState::new(vec![NetDevice::new(ETH0), NetDevice::new(ETH1)], config);
    for i in 0..10u8 {
        let src = [0x02, 0, 0, 0, 0, i];
        let out = sw.eth_rcv(frame(HOST_D, src), ETH0, 0);
        assert_eq!(egress(&out), vec![ETH1]);
    }
    assert_eq!(sw.fdb().len(), 4);
    for i in 0..4u8 {
        assert!(sw.fdb().get(ether_addr_to_u64(&[0x02, 0, 0, 0, 0, i])).is_some());
    }
    for i in 4..10u8 {
        assert!(sw.fdb().get(ether_addr_to_u64(&[0x02, 0, 0, 0, 0, i])).is_none());
    }
    // full: a new source is not learned, nothing held changes, and the
    // frame is still forwarded by what the table knows
    let known = [0x02, 0, 0, 0, 0, 1];
    let out = sw.eth_rcv(frame(known, HOST_C), ETH1, 50);
    assert_eq!(egress(&out), vec![ETH0]);
    assert!(sw.fdb().get(ether_addr_to_u64(&HOST_C)).is_none());
    assert_eq!(sw.fdb().get(ether_addr_to_u64(&known)).unwrap().get_expires_in(), MAX_AGE_MSEC);
    assert_eq!(sw.fdb().len(), 4);
}

#[test]
fn shutdown_handshake() {
    let mut sw = switch(&[ETH0, ETH1], false);
    sw.eth_rcv(frame(HOST_D, HOST_A), ETH0, 0);
    sw.request_shutdown();
    assert!(sw.is_exiting());
    assert!(!sw.is_stopped());
    assert_eq!(sw.run_aging(MAX_AGE_MSEC * 2), AgingStep::Stopped);
    assert!(sw.is_stopped());
    // no sweep ran: the expired entry is still there
    assert_eq!(sw.fdb().len(), 1);
    assert_eq!(sw.run_aging(MAX_AGE_MSEC * 3), AgingStep::Stopped);
    assert_eq!(sw.fdb().len(), 1);
    sw.expire(0, true);
    assert_eq!(sw.fdb().len(), 0);
}
