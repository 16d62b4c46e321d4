//! A software Ethernet learning switch: per-frame forwarding decisions, a
//! forwarding database with time-based expiry, and the aging task's
//! shutdown handshake, all stated over plain values.

mod fdb;
mod frame;
mod mac;
mod netdev;
mod switch;
mod theorems;

pub use mac::{
    ether_addr_to_u64, is_broadcast_addr, is_ether_broadcast, is_ether_multicast,
    is_multicast_addr, mac_key, mac_value, MacAddr, ETH_ALEN,
};
pub use frame::{
    dhost, has_link_header, pushed, retargeted, shost, FrameError, FrameView, PacketClass, SkBuff,
    ETH_HLEN, PACKET_LOOPBACK, PACKET_OUTGOING,
};
pub use fdb::{entry_expired, expiry_after, learned, survives, swept, Fdb, MacEntry};
pub use netdev::NetDevice;
pub use switch::{
    aging_next, aging_state, fanned_out, flood_targets, floods, is_echo, is_member, rcv_dropped,
    rcv_egress, rcv_entry, rcv_fdb, rcv_frame, rcv_learns, rcv_state, swept_state, view_wf,
    AgingStep, SwitchConfig, SwitchError, SwitchState, SwitchView, HUB_MODE,
    MAC_EXPIRY_CHECK_TIMEOUT_MSEC, MAX_AGE_MSEC, MAX_FDB_ENTRIES,
};
pub use theorems::{
    distinct_devs, holds_entry, lemma_echo_suppressed, lemma_expiry, lemma_flood_completeness,
    lemma_learning_convergence, lemma_run_keeps_setup, lemma_sweep_drops_expired, only_from, run,
    step, SwitchEvent, frames_of, learn_all, lemma_aging_after_shutdown, lemma_capacity_bound,
    lemma_capacity_kept, lemma_fanout_identical, lemma_shutdown_safety, all_learned_frames,
    frame_items, lemma_capacity_fills, lemma_capacity_over_run, lemma_full_table,
    lemma_stale_entry_steers,
};
